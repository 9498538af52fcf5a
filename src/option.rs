//! Device options and their editable form: the native value of each kind,
//! the text or toggle a user edits, dirty tracking, and which device calls an
//! apply makes.
use vstd::prelude::*;
use crate::decimal::{int_of_text, int_text, text_to_int, int_to_text, CodecError};
use crate::decimal::{int_text_value, lemma_nat_digits, nat_digits, sign_split};
use crate::fixed::{fixed_of_text, fixed_text, fixed_to_text, lemma_fixed_text_round_trip, text_to_fixed};

verus! {

/// The kind of value an option holds.
#[derive(Debug, Clone, Copy, PartialEq, Eq, Structural)]
pub enum ValueKind {
    Bool,
    Int,
    Fixed,
    String,
    Button,
    Group,
}

/// What software may do with an option.
#[derive(Debug, Clone, Copy, PartialEq, Eq, Structural)]
pub struct OptionCapabilities {
    /// The option can be set from software.
    pub soft_select: bool,
    /// The option has no effect in the device's present configuration.
    pub inactive: bool,
}

/// The values a device advertises for an option; advice to the user, not
/// enforced here.
#[derive(Debug, Clone)]
pub enum OptionConstraint {
    Unconstrained,
    StringList(Vec<String>),
    WordList(Vec<i32>),
    Range { min: i32, max: i32, quant: i32 },
}

/// The description of one option, as the device gives it.
#[derive(Debug, Clone)]
pub struct OptionDescriptor {
    pub option_idx: i32,
    pub title: String,
    pub desc: String,
    pub kind: ValueKind,
    pub cap: OptionCapabilities,
    pub constraint: OptionConstraint,
}

/// A value in the device's own encoding.
#[derive(Debug, Clone)]
pub enum OptionValue {
    Bool(bool),
    Int(i32),
    /// A 16.16 fixed-point word.
    Fixed(i32),
    String(String),
    Button,
    Group,
}

/// The model of an [`OptionValue`].
pub enum NativeValue {
    Bool(bool),
    Int(i32),
    Fixed(i32),
    Str(Seq<char>),
    Button,
    Group,
}

impl View for OptionValue {
    type V = NativeValue;

    open spec fn view(&self) -> NativeValue {
        match self {
            OptionValue::Bool(b) => NativeValue::Bool(*b),
            OptionValue::Int(i) => NativeValue::Int(*i),
            OptionValue::Fixed(x) => NativeValue::Fixed(*x),
            OptionValue::String(s) => NativeValue::Str(s@),
            OptionValue::Button => NativeValue::Button,
            OptionValue::Group => NativeValue::Group,
        }
    }
}

/// The form of an option value that a user edits: a toggle, a text, or
/// nothing for buttons and group headings.
#[derive(Debug, Clone)]
pub enum EditingDeviceOptionValue {
    Bool(bool),
    Int(String),
    Fixed(String),
    String(String),
    Button,
    Group,
}

/// The model of an [`EditingDeviceOptionValue`].
pub enum EditedValue {
    Bool(bool),
    Int(Seq<char>),
    Fixed(Seq<char>),
    Str(Seq<char>),
    Button,
    Group,
}

impl View for EditingDeviceOptionValue {
    type V = EditedValue;

    open spec fn view(&self) -> EditedValue {
        match self {
            EditingDeviceOptionValue::Bool(b) => EditedValue::Bool(*b),
            EditingDeviceOptionValue::Int(s) => EditedValue::Int(s@),
            EditingDeviceOptionValue::Fixed(s) => EditedValue::Fixed(s@),
            EditingDeviceOptionValue::String(s) => EditedValue::Str(s@),
            EditingDeviceOptionValue::Button => EditedValue::Button,
            EditingDeviceOptionValue::Group => EditedValue::Group,
        }
    }
}

/// The editable form of a native value; numbers become their text.
pub open spec fn edit_of_value(v: NativeValue) -> EditedValue {
    match v {
        NativeValue::Bool(b) => EditedValue::Bool(b),
        NativeValue::Int(i) => EditedValue::Int(int_text(i as int)),
        NativeValue::Fixed(x) => EditedValue::Fixed(fixed_text(x)),
        NativeValue::Str(s) => EditedValue::Str(s),
        NativeValue::Button => EditedValue::Button,
        NativeValue::Group => EditedValue::Group,
    }
}

/// The native value that an edited form stands for, or why the text is not one.
pub open spec fn value_of_edit(e: EditedValue) -> Result<NativeValue, CodecError> {
    match e {
        EditedValue::Bool(b) => Ok(NativeValue::Bool(b)),
        EditedValue::Int(t) => match int_of_text(t) {
            Ok(i) => Ok(NativeValue::Int(i)),
            Err(x) => Err(x),
        },
        EditedValue::Fixed(t) => match fixed_of_text(t) {
            Ok(x) => Ok(NativeValue::Fixed(x)),
            Err(x) => Err(x),
        },
        EditedValue::Str(s) => Ok(NativeValue::Str(s)),
        EditedValue::Button => Ok(NativeValue::Button),
        EditedValue::Group => Ok(NativeValue::Group),
    }
}

impl EditingDeviceOptionValue {
    /// The editable form of a native value.
    pub fn from(opt_value: &OptionValue) -> (r: Self)
        ensures
            r@ == edit_of_value(opt_value@),
    {
        match opt_value {
            OptionValue::Bool(val) => EditingDeviceOptionValue::Bool(*val),
            OptionValue::Int(val) => EditingDeviceOptionValue::Int(int_to_text(*val)),
            OptionValue::Fixed(val) => EditingDeviceOptionValue::Fixed(fixed_to_text(*val)),
            OptionValue::String(val) => EditingDeviceOptionValue::String(val.clone()),
            OptionValue::Button => EditingDeviceOptionValue::Button,
            OptionValue::Group => EditingDeviceOptionValue::Group,
        }
    }

    /// A copy of the editable form.
    pub fn duplicate(&self) -> (r: Self)
        ensures
            r@ == self@,
    {
        match self {
            EditingDeviceOptionValue::Bool(b) => EditingDeviceOptionValue::Bool(*b),
            EditingDeviceOptionValue::Int(t) => EditingDeviceOptionValue::Int(t.clone()),
            EditingDeviceOptionValue::Fixed(t) => EditingDeviceOptionValue::Fixed(t.clone()),
            EditingDeviceOptionValue::String(t) => EditingDeviceOptionValue::String(t.clone()),
            EditingDeviceOptionValue::Button => EditingDeviceOptionValue::Button,
            EditingDeviceOptionValue::Group => EditingDeviceOptionValue::Group,
        }
    }

    /// Whether two editable forms are the same.
    pub fn same_as(&self, other: &Self) -> (r: bool)
        ensures
            r == (self@ == other@),
    {
        match (self, other) {
            (EditingDeviceOptionValue::Bool(a), EditingDeviceOptionValue::Bool(b)) => *a == *b,
            (EditingDeviceOptionValue::Int(a), EditingDeviceOptionValue::Int(b)) => *a == *b,
            (EditingDeviceOptionValue::Fixed(a), EditingDeviceOptionValue::Fixed(b)) => *a == *b,
            (EditingDeviceOptionValue::String(a), EditingDeviceOptionValue::String(b)) => *a == *b,
            (EditingDeviceOptionValue::Button, EditingDeviceOptionValue::Button) => true,
            (EditingDeviceOptionValue::Group, EditingDeviceOptionValue::Group) => true,
            _ => false,
        }
    }
}

impl OptionValue {
    /// The native value that an editable form stands for.
    pub fn try_from(opt_edit: &EditingDeviceOptionValue) -> (r: Result<OptionValue, CodecError>)
        ensures
            match r {
                Ok(v) => value_of_edit(opt_edit@) == Ok::<NativeValue, CodecError>(v@),
                Err(x) => value_of_edit(opt_edit@) == Err::<NativeValue, CodecError>(x),
            },
    {
        match opt_edit {
            EditingDeviceOptionValue::Bool(val) => Ok(OptionValue::Bool(*val)),
            EditingDeviceOptionValue::Int(val) => match text_to_int(val.as_str()) {
                Ok(i) => Ok(OptionValue::Int(i)),
                Err(x) => Err(x),
            },
            EditingDeviceOptionValue::Fixed(val) => match text_to_fixed(val.as_str()) {
                Ok(x) => Ok(OptionValue::Fixed(x)),
                Err(x) => Err(x),
            },
            EditingDeviceOptionValue::String(val) => Ok(OptionValue::String(val.clone())),
            EditingDeviceOptionValue::Button => Ok(OptionValue::Button),
            EditingDeviceOptionValue::Group => Ok(OptionValue::Group),
        }
    }
}

/// Reading back the text of an integer word gives that word again.
pub proof fn lemma_int_text_round_trip(v: i32)
    ensures
        int_of_text(int_text(v as int)) == Ok::<i32, CodecError>(v),
{
    let m: nat = if v < 0 {
        (-(v as int)) as nat
    } else {
        v as nat
    };
    let body = nat_digits(m);
    lemma_nat_digits(m);
    if v < 0 {
        assert(int_text(v as int).drop_first() =~= body);
    } else {
        assert(crate::decimal::is_digit(body[0]));
    }
    assert(sign_split(int_text(v as int)).1 =~= body);
    assert(int_text_value(int_text(v as int)) == Some(v as int));
}

/// Turning a native value into its editable form and back gives the value
/// again, for every kind.
pub proof fn lemma_edit_round_trip(v: NativeValue)
    ensures
        value_of_edit(edit_of_value(v)) == Ok::<NativeValue, CodecError>(v),
{
    match v {
        NativeValue::Int(i) => lemma_int_text_round_trip(i),
        NativeValue::Fixed(x) => lemma_fixed_text_round_trip(x),
        _ => {},
    }
}

/// One option under edit: its description, the value last read from the
/// device, the form the user edits, and whether that form was changed.
#[derive(Debug)]
pub struct EditingDeviceOption {
    pub base_option: OptionDescriptor,
    pub editing_value: EditingDeviceOptionValue,
    pub is_edited: bool,
    pub original_value: OptionValue,
}

/// The model of an [`EditingDeviceOption`].
pub struct EditState {
    pub kind: ValueKind,
    pub editing: EditedValue,
    pub is_edited: bool,
    pub original: NativeValue,
}

impl View for EditingDeviceOption {
    type V = EditState;

    open spec fn view(&self) -> EditState {
        EditState {
            kind: self.base_option.kind,
            editing: self.editing_value@,
            is_edited: self.is_edited,
            original: self.original_value@,
        }
    }
}

impl EditState {
    /// Back to the form of the value last read, and clean.
    pub open spec fn reset(self) -> EditState {
        EditState {
            kind: self.kind,
            editing: edit_of_value(self.original),
            is_edited: false,
            original: self.original,
        }
    }

    /// The user puts `e` in place of the edited form. Buttons and group
    /// headings have no form to edit; an edit that changes nothing leaves the
    /// option as it was.
    pub open spec fn edited(self, e: EditedValue) -> EditState {
        if self.editing is Button || self.editing is Group || e == self.editing {
            self
        } else {
            EditState { kind: self.kind, editing: e, is_edited: true, original: self.original }
        }
    }

    /// The user presses a button option: it is triggered at the next apply.
    pub open spec fn activated(self) -> EditState {
        if self.editing is Button {
            EditState {
                kind: self.kind,
                editing: self.editing,
                is_edited: true,
                original: self.original,
            }
        } else {
            self
        }
    }
}

impl EditingDeviceOption {
    /// A clean option whose form shows `original_value`.
    pub fn new(base_option: OptionDescriptor, original_value: OptionValue) -> (r: Self)
        ensures
            r.base_option == base_option,
            r@ == (EditState {
                kind: base_option.kind,
                editing: edit_of_value(original_value@),
                is_edited: false,
                original: original_value@,
            }),
    {
        let editing_value = EditingDeviceOptionValue::from(&original_value);
        EditingDeviceOption { base_option, editing_value, is_edited: false, original_value }
    }

    /// Discards the edits: the form shows the value last read again.
    pub fn reset_editor_value(&mut self)
        ensures
            final(self).base_option == old(self).base_option,
            final(self)@ == old(self)@.reset(),
    {
        self.editing_value = EditingDeviceOptionValue::from(&self.original_value);
        self.is_edited = false;
    }

    /// Puts `value` in place of the edited form, marking the option dirty when
    /// that changes it.
    pub fn edit(&mut self, value: EditingDeviceOptionValue)
        ensures
            final(self).base_option == old(self).base_option,
            final(self)@ == old(self)@.edited(value@),
    {
        match self.editing_value {
            EditingDeviceOptionValue::Button | EditingDeviceOptionValue::Group => {},
            _ => {
                if !self.editing_value.same_as(&value) {
                    self.editing_value = value;
                    self.is_edited = true;
                }
            },
        }
    }

    /// Marks a button option to be triggered at the next apply.
    pub fn activate(&mut self)
        ensures
            final(self).base_option == old(self).base_option,
            final(self)@ == old(self)@.activated(),
    {
        if let EditingDeviceOptionValue::Button = self.editing_value {
            self.is_edited = true;
        }
    }

    /// The value last read from the device.
    pub fn original_value(&self) -> (r: &OptionValue)
        ensures
            r@ == self@.original,
    {
        &self.original_value
    }
}

/// Resetting leaves an option clean, and an edit that changes nothing right
/// after keeps it clean.
pub proof fn lemma_reset_then_unchanged_edit_is_clean(o: EditState)
    ensures
        !o.reset().is_edited,
        !o.reset().edited(o.reset().editing).is_edited,
{
}

/// One device call of an apply.
#[derive(Debug)]
pub enum ApplyStep {
    /// Trigger the button option at this position.
    Trigger(usize),
    /// Set the option at this position to the value.
    SetValue(usize, OptionValue),
    /// The option at this position holds a text that is not a value of its kind.
    Unconvertible(usize, CodecError),
}

/// The model of an [`ApplyStep`].
pub enum StepModel {
    Trigger(nat),
    SetValue(nat, NativeValue),
    Unconvertible(nat, CodecError),
}

impl View for ApplyStep {
    type V = StepModel;

    open spec fn view(&self) -> StepModel {
        match self {
            ApplyStep::Trigger(i) => StepModel::Trigger(*i as nat),
            ApplyStep::SetValue(i, v) => StepModel::SetValue(*i as nat, v@),
            ApplyStep::Unconvertible(i, x) => StepModel::Unconvertible(*i as nat, *x),
        }
    }
}

/// What an apply does for the option at position `i`: nothing for a clean
/// option or a group heading, a trigger for a button, else a set of the value
/// its form stands for.
pub open spec fn step_for(i: nat, o: EditState) -> Option<StepModel> {
    if !o.is_edited || o.editing is Group {
        None
    } else if o.editing is Button {
        Some(StepModel::Trigger(i))
    } else {
        match value_of_edit(o.editing) {
            Ok(v) => Some(StepModel::SetValue(i, v)),
            Err(x) => Some(StepModel::Unconvertible(i, x)),
        }
    }
}

/// The steps of an apply over options, in their order.
pub open spec fn apply_steps(opts: Seq<EditState>) -> Seq<StepModel>
    decreases opts.len(),
{
    if opts.len() == 0 {
        Seq::empty()
    } else {
        let rest = apply_steps(opts.drop_last());
        match step_for((opts.len() - 1) as nat, opts.last()) {
            Some(st) => rest.push(st),
            None => rest,
        }
    }
}

pub open spec fn states_of(options: Seq<EditingDeviceOption>) -> Seq<EditState> {
    options.map_values(|o: EditingDeviceOption| o@)
}

pub open spec fn steps_of(steps: Seq<ApplyStep>) -> Seq<StepModel> {
    steps.map_values(|s: ApplyStep| s@)
}

/// The device calls that applying the edited options makes, one per dirty
/// option, in the options' order.
pub fn plan_apply(options: &Vec<EditingDeviceOption>) -> (r: Vec<ApplyStep>)
    ensures
        steps_of(r@) == apply_steps(states_of(options@)),
{
    let mut steps: Vec<ApplyStep> = Vec::new();
    let mut i: usize = 0;
    while i < options.len()
        invariant
            i <= options@.len(),
            steps_of(steps@) == apply_steps(states_of(options@.take(i as int))),
        decreases options@.len() - i,
    {
        let o = &options[i];
        let ghost before = steps_of(steps@);
        if o.is_edited {
            match &o.editing_value {
                EditingDeviceOptionValue::Group => {},
                EditingDeviceOptionValue::Button => {
                    steps.push(ApplyStep::Trigger(i));
                },
                ev => {
                    match OptionValue::try_from(ev) {
                        Ok(v) => steps.push(ApplyStep::SetValue(i, v)),
                        Err(x) => steps.push(ApplyStep::Unconvertible(i, x)),
                    }
                },
            }
        }
        proof {
            let next = states_of(options@.take(i + 1));
            assert(next.drop_last() =~= states_of(options@.take(i as int)));
            assert(next.last() == options@[i as int]@);
            assert(next.len() == i + 1);
            assert(steps_of(steps@) =~= apply_steps(next));
        }
        i = i + 1;
    }
    assert(options@.take(options@.len() as int) =~= options@);
    steps
}

/// The value an option of this kind has without a read from the device:
/// buttons and group headings hold none of their own.
pub fn placeholder_value(kind: ValueKind) -> (r: Option<OptionValue>)
    ensures
        kind == ValueKind::Button ==> r matches Some(OptionValue::Button),
        kind == ValueKind::Group ==> r matches Some(OptionValue::Group),
        kind != ValueKind::Button && kind != ValueKind::Group ==> r is None,
{
    match kind {
        ValueKind::Button => Some(OptionValue::Button),
        ValueKind::Group => Some(OptionValue::Group),
        _ => None,
    }
}

/// The value to show for an option after reading it from the device: the
/// value read, or the error's text after `ERROR: `.
pub fn read_outcome_value(read: Result<OptionValue, String>) -> (r: OptionValue)
    ensures
        match read {
            Ok(v) => r@ == v@,
            Err(m) => r@ == NativeValue::Str("ERROR: "@ + m@),
        },
{
    match read {
        Ok(v) => v,
        Err(m) => {
            let prefix = String::from_str("ERROR: ");
            OptionValue::String(prefix.concat(m.as_str()))
        },
    }
}

/// Whether an apply sends nothing for an option because its edited text is
/// not a value of its kind.
pub open spec fn is_unconvertible(o: EditState) -> bool {
    step_for(0, o) matches Some(StepModel::Unconvertible(_, _))
}

/// A reloaded option whose device position is `idx`, after the unconvertible
/// edits of `before` at the same position are put back on it, in order.
pub open spec fn restored(o: EditState, idx: i32, before: Seq<EditingDeviceOption>) -> EditState
    decreases before.len(),
{
    if before.len() == 0 {
        o
    } else {
        let prev = restored(o, idx, before.drop_last());
        let b = before.last();
        if b.base_option.option_idx == idx && is_unconvertible(b@) {
            prev.edited(b@.editing)
        } else {
            prev
        }
    }
}

/// After a reload, puts back on each reloaded option the edits that the
/// apply could not send for the option at the same device position, so that
/// they stay dirty with their text.
pub fn keep_unapplied_edits(before: &Vec<EditingDeviceOption>, reloaded: &mut Vec<EditingDeviceOption>)
    ensures
        final(reloaded)@.len() == old(reloaded)@.len(),
        forall|j: int|
            0 <= j < old(reloaded)@.len() ==> (#[trigger] final(reloaded)@[j]).base_option == old(
                reloaded,
            )@[j].base_option,
        forall|j: int|
            0 <= j < old(reloaded)@.len() ==> (#[trigger] final(reloaded)@[j])@ == restored(
                old(reloaded)@[j]@,
                old(reloaded)@[j].base_option.option_idx,
                before@,
            ),
{
    let ghost first = reloaded@;
    let mut i: usize = 0;
    assert forall|j: int| 0 <= j < first.len() implies restored(
        first[j]@,
        first[j].base_option.option_idx,
        before@.take(0),
    ) == first[j]@ by {
        assert(before@.take(0).len() == 0);
    }
    while i < before.len()
        invariant
            i <= before@.len(),
            reloaded@.len() == first.len(),
            forall|j: int|
                0 <= j < first.len() ==> (#[trigger] reloaded@[j]).base_option
                    == first[j].base_option,
            forall|j: int|
                0 <= j < first.len() ==> (#[trigger] reloaded@[j])@ == restored(
                    first[j]@,
                    first[j].base_option.option_idx,
                    before@.take(i as int),
                ),
        decreases before@.len() - i,
    {
        let b = &before[i];
        let ghost next = before@.take(i + 1);
        proof {
            assert(next.drop_last() =~= before@.take(i as int));
            assert(next.last() == before@[i as int]);
        }
        let unconvertible = b.is_edited && match &b.editing_value {
            EditingDeviceOptionValue::Button | EditingDeviceOptionValue::Group => false,
            ev => OptionValue::try_from(ev).is_err(),
        };
        assert(unconvertible == is_unconvertible(b@));
        let mut j: usize = 0;
        while j < reloaded.len()
            invariant
                j <= reloaded@.len(),
                reloaded@.len() == first.len(),
                i < before@.len(),
                b == before@[i as int],
                next == before@.take(i + 1),
                next.drop_last() == before@.take(i as int),
                next.last() == before@[i as int],
                unconvertible == is_unconvertible(b@),
                forall|k: int|
                    0 <= k < first.len() ==> (#[trigger] reloaded@[k]).base_option
                        == first[k].base_option,
                forall|k: int|
                    0 <= k < j ==> (#[trigger] reloaded@[k])@ == restored(
                        first[k]@,
                        first[k].base_option.option_idx,
                        next,
                    ),
                forall|k: int|
                    j <= k < first.len() ==> (#[trigger] reloaded@[k])@ == restored(
                        first[k]@,
                        first[k].base_option.option_idx,
                        before@.take(i as int),
                    ),
            decreases first.len() - j,
        {
            if unconvertible && reloaded[j].base_option.option_idx == b.base_option.option_idx {
                let value = b.editing_value.duplicate();
                reloaded[j].edit(value);
            }
            j = j + 1;
        }
        i = i + 1;
    }
    assert(before@.take(before@.len() as int) =~= before@);
}

} // verus!
