//! Paper sizes a user may want to copy into a numeric option.
use vstd::prelude::*;

verus! {

/// One named value, with what it is.
#[derive(Debug, Clone, Copy)]
pub struct CommonValue {
    pub name: &'static str,
    pub description: &'static str,
    pub value: &'static str,
}

/// A group of common values.
#[derive(Debug, Clone, Copy, PartialEq, Eq, Structural)]
pub enum ValueCategory {
    LetterUS,
    A4,
}

impl ValueCategory {
    /// The group's title.
    pub fn as_str(&self) -> (r: &'static str)
        ensures
            *self == ValueCategory::LetterUS ==> r@ == "Letter (US)"@,
            *self == ValueCategory::A4 ==> r@ == "A4 (ISO 216)"@,
    {
        match self {
            ValueCategory::LetterUS => "Letter (US)",
            ValueCategory::A4 => "A4 (ISO 216)",
        }
    }

    /// The group's values: the paper's width, then its height, in millimetres.
    pub fn get_values(&self) -> (r: Vec<CommonValue>)
        ensures
            r@.len() == 2,
            r@[0].name@ == "Width mm"@,
            r@[1].name@ == "Height mm"@,
            *self == ValueCategory::LetterUS ==> {
                &&& r@[0].description@ == "Width of Letter (US) paper in millimeters"@
                &&& r@[0].value@ == "215.9"@
                &&& r@[1].description@ == "Height of Letter (US) paper in millimeters"@
                &&& r@[1].value@ == "279.4"@
            },
            *self == ValueCategory::A4 ==> {
                &&& r@[0].description@ == "Width of A4 (ISO 216) paper in millimeters"@
                &&& r@[0].value@ == "210"@
                &&& r@[1].description@ == "Height of A4 (ISO 216) paper in millimeters"@
                &&& r@[1].value@ == "297"@
            },
    {
        match self {
            ValueCategory::LetterUS => vec![
                CommonValue {
                    name: "Width mm",
                    description: "Width of Letter (US) paper in millimeters",
                    value: "215.9",
                },
                CommonValue {
                    name: "Height mm",
                    description: "Height of Letter (US) paper in millimeters",
                    value: "279.4",
                },
            ],
            ValueCategory::A4 => vec![
                CommonValue {
                    name: "Width mm",
                    description: "Width of A4 (ISO 216) paper in millimeters",
                    value: "210",
                },
                CommonValue {
                    name: "Height mm",
                    description: "Height of A4 (ISO 216) paper in millimeters",
                    value: "297",
                },
            ],
        }
    }
}

} // verus!
