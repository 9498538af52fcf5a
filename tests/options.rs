use slickscan::decimal::CodecError;
use slickscan::option::{
    keep_unapplied_edits, placeholder_value, plan_apply, read_outcome_value, ApplyStep, EditingDeviceOption,
    EditingDeviceOptionValue, OptionCapabilities, OptionConstraint, OptionDescriptor,
    OptionValue, ValueKind,
};

fn descriptor(idx: i32, kind: ValueKind) -> OptionDescriptor {
    OptionDescriptor {
        option_idx: idx,
        title: format!("option {idx}"),
        desc: String::from("an option"),
        kind,
        cap: OptionCapabilities { soft_select: true, inactive: false },
        constraint: OptionConstraint::Unconstrained,
    }
}

fn text_of(v: &EditingDeviceOptionValue) -> Option<String> {
    match v {
        EditingDeviceOptionValue::Int(s)
        | EditingDeviceOptionValue::Fixed(s)
        | EditingDeviceOptionValue::String(s) => Some(s.clone()),
        _ => None,
    }
}

#[test]
fn native_values_become_editable_forms() {
    let e = EditingDeviceOptionValue::from(&OptionValue::Fixed(98304));
    assert!(matches!(&e, EditingDeviceOptionValue::Fixed(s) if s == "1.5"));
    let e = EditingDeviceOptionValue::from(&OptionValue::Int(-12));
    assert!(matches!(&e, EditingDeviceOptionValue::Int(s) if s == "-12"));
    let e = EditingDeviceOptionValue::from(&OptionValue::Bool(true));
    assert!(matches!(e, EditingDeviceOptionValue::Bool(true)));
    let e = EditingDeviceOptionValue::from(&OptionValue::String(String::from("Color")));
    assert_eq!(text_of(&e), Some(String::from("Color")));
    assert!(matches!(EditingDeviceOptionValue::from(&OptionValue::Button), EditingDeviceOptionValue::Button));
    assert!(matches!(EditingDeviceOptionValue::from(&OptionValue::Group), EditingDeviceOptionValue::Group));
}

#[test]
fn editable_forms_become_native_values() {
    let v = OptionValue::try_from(&EditingDeviceOptionValue::Fixed(String::from("-0.25")));
    assert!(matches!(v, Ok(OptionValue::Fixed(-16384))));
    let v = OptionValue::try_from(&EditingDeviceOptionValue::Int(String::from("300")));
    assert!(matches!(v, Ok(OptionValue::Int(300))));
    let v = OptionValue::try_from(&EditingDeviceOptionValue::Bool(false));
    assert!(matches!(v, Ok(OptionValue::Bool(false))));
    let v = OptionValue::try_from(&EditingDeviceOptionValue::Int(String::from("abc")));
    assert!(matches!(v, Err(CodecError::Malformed)));
    let v = OptionValue::try_from(&EditingDeviceOptionValue::Int(String::from("99999999999")));
    assert!(matches!(v, Err(CodecError::OutOfRange)));
    let v = OptionValue::try_from(&EditingDeviceOptionValue::Fixed(String::from("1,5")));
    assert!(matches!(v, Err(CodecError::Malformed)));
}

#[test]
fn new_option_is_clean() {
    let o = EditingDeviceOption::new(descriptor(3, ValueKind::Int), OptionValue::Int(150));
    assert!(!o.is_edited);
    assert_eq!(text_of(&o.editing_value), Some(String::from("150")));
    assert!(matches!(o.original_value(), OptionValue::Int(150)));
}

#[test]
fn reset_then_unchanged_edit_stays_clean() {
    let mut o = EditingDeviceOption::new(descriptor(1, ValueKind::Fixed), OptionValue::Fixed(65536));
    o.edit(EditingDeviceOptionValue::Fixed(String::from("2.5")));
    assert!(o.is_edited);
    o.reset_editor_value();
    assert!(!o.is_edited);
    assert_eq!(text_of(&o.editing_value), Some(String::from("1")));
    o.edit(EditingDeviceOptionValue::Fixed(String::from("1")));
    assert!(!o.is_edited);
}

#[test]
fn changed_edit_makes_option_dirty() {
    let mut o = EditingDeviceOption::new(descriptor(2, ValueKind::String), OptionValue::String(String::from("Gray")));
    o.edit(EditingDeviceOptionValue::String(String::from("Color")));
    assert!(o.is_edited);
    assert_eq!(text_of(&o.editing_value), Some(String::from("Color")));
}

#[test]
fn group_never_dirties_and_button_activates() {
    let mut g = EditingDeviceOption::new(descriptor(4, ValueKind::Group), OptionValue::Group);
    g.edit(EditingDeviceOptionValue::Int(String::from("5")));
    g.activate();
    assert!(!g.is_edited);
    assert!(matches!(g.editing_value, EditingDeviceOptionValue::Group));
    let mut b = EditingDeviceOption::new(descriptor(5, ValueKind::Button), OptionValue::Button);
    assert!(!b.is_edited);
    b.activate();
    assert!(b.is_edited);
}

#[test]
fn apply_plan_sends_only_dirty_options() {
    let mut opts = vec![
        EditingDeviceOption::new(descriptor(0, ValueKind::Group), OptionValue::Group),
        EditingDeviceOption::new(descriptor(1, ValueKind::Int), OptionValue::Int(100)),
        EditingDeviceOption::new(descriptor(2, ValueKind::Fixed), OptionValue::Fixed(0)),
        EditingDeviceOption::new(descriptor(3, ValueKind::Button), OptionValue::Button),
        EditingDeviceOption::new(descriptor(4, ValueKind::Int), OptionValue::Int(7)),
        EditingDeviceOption::new(descriptor(5, ValueKind::Bool), OptionValue::Bool(false)),
    ];
    opts[1].edit(EditingDeviceOptionValue::Int(String::from("300")));
    opts[2].edit(EditingDeviceOptionValue::Fixed(String::from("12.75")));
    opts[3].activate();
    opts[4].edit(EditingDeviceOptionValue::Int(String::from("seven")));
    let steps = plan_apply(&opts);
    assert_eq!(steps.len(), 4);
    assert!(matches!(steps[0], ApplyStep::SetValue(1, OptionValue::Int(300))));
    assert!(matches!(steps[1], ApplyStep::SetValue(2, OptionValue::Fixed(835584))));
    assert!(matches!(steps[2], ApplyStep::Trigger(3)));
    assert!(matches!(steps[3], ApplyStep::Unconvertible(4, CodecError::Malformed)));
}

#[test]
fn apply_plan_of_clean_options_is_empty() {
    let opts = vec![
        EditingDeviceOption::new(descriptor(1, ValueKind::Int), OptionValue::Int(100)),
        EditingDeviceOption::new(descriptor(2, ValueKind::Bool), OptionValue::Bool(true)),
    ];
    assert!(plan_apply(&opts).is_empty());
}

#[test]
fn values_without_and_after_a_read() {
    assert!(matches!(placeholder_value(ValueKind::Button), Some(OptionValue::Button)));
    assert!(matches!(placeholder_value(ValueKind::Group), Some(OptionValue::Group)));
    assert!(placeholder_value(ValueKind::Fixed).is_none());
    assert!(placeholder_value(ValueKind::Bool).is_none());
    let v = read_outcome_value(Err(String::from("Device busy")));
    assert!(matches!(&v, OptionValue::String(s) if s == "ERROR: Device busy"));
    let v = read_outcome_value(Ok(OptionValue::Int(9)));
    assert!(matches!(v, OptionValue::Int(9)));
}

#[test]
fn unconvertible_edits_survive_a_reload() {
    let mut before = vec![
        EditingDeviceOption::new(descriptor(7, ValueKind::Fixed), OptionValue::Fixed(0)),
        EditingDeviceOption::new(descriptor(8, ValueKind::Int), OptionValue::Int(1)),
        EditingDeviceOption::new(descriptor(9, ValueKind::Int), OptionValue::Int(2)),
    ];
    before[0].edit(EditingDeviceOptionValue::Fixed(String::from("1,5")));
    before[1].edit(EditingDeviceOptionValue::Int(String::from("5")));
    // reloaded from the device, in another order, with the set value applied
    let mut reloaded = vec![
        EditingDeviceOption::new(descriptor(9, ValueKind::Int), OptionValue::Int(2)),
        EditingDeviceOption::new(descriptor(8, ValueKind::Int), OptionValue::Int(5)),
        EditingDeviceOption::new(descriptor(7, ValueKind::Fixed), OptionValue::Fixed(0)),
    ];
    keep_unapplied_edits(&before, &mut reloaded);
    assert!(!reloaded[0].is_edited);
    assert!(!reloaded[1].is_edited);
    assert_eq!(text_of(&reloaded[1].editing_value), Some(String::from("5")));
    assert!(reloaded[2].is_edited);
    assert_eq!(text_of(&reloaded[2].editing_value), Some(String::from("1,5")));
    assert_eq!(reloaded[2].base_option.option_idx, 7);
    assert!(matches!(reloaded[2].original_value(), OptionValue::Fixed(0)));
}
