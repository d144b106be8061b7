use vstd::prelude::*;
use vstd::string::StringExecFns;

use crate::text::str_eq;

verus! {

/// The kind of a menu entry.
#[derive(Debug, Clone)]
pub enum TypeProperty {
    Standard,
    Separator,
    /// A kind that only its vendor knows, by name.
    Vendor(String),
}

impl TypeProperty {
    /// Reads a kind: `standard`, `separator`, or any other name as a vendor's.
    pub fn from(s: &str) -> (r: TypeProperty)
        ensures
            s@ == "standard"@ ==> r matches TypeProperty::Standard,
            s@ == "separator"@ ==> r matches TypeProperty::Separator,
            s@ != "standard"@ && s@ != "separator"@ ==> (r matches TypeProperty::Vendor(v) && v@
                == s@),
    {
        proof {
            reveal_strlit("standard");
            reveal_strlit("separator");
            assert("standard"@[1] != "separator"@[1]);
        }
        if str_eq(s, "standard") {
            TypeProperty::Standard
        } else if str_eq(s, "separator") {
            TypeProperty::Separator
        } else {
            TypeProperty::Vendor(s.to_string())
        }
    }
}

/// Whether a menu entry can be toggled, and how.
#[derive(Debug, Clone, Copy, Default)]
pub enum ToggleProperty {
    #[default]
    NoToggle,
    Checkmark,
    Radio,
}

impl ToggleProperty {
    /// Reads a toggle kind: `checkmark`, `radio`, anything else as none.
    pub fn from(s: &str) -> (r: ToggleProperty)
        ensures
            r == (if s@ == "checkmark"@ {
                ToggleProperty::Checkmark
            } else if s@ == "radio"@ {
                ToggleProperty::Radio
            } else {
                ToggleProperty::NoToggle
            }),
    {
        if str_eq(s, "checkmark") {
            ToggleProperty::Checkmark
        } else if str_eq(s, "radio") {
            ToggleProperty::Radio
        } else {
            ToggleProperty::NoToggle
        }
    }
}

/// A menu layout that could not be read.
#[derive(Debug, Clone, PartialEq, Eq)]
pub enum LayoutParseError {
    InvalidType(String),
}

impl LayoutParseError {
    /// The error for the property `prop` whose value had the wrong type;
    /// `err` describes what went wrong.
    pub fn invalid_type(prop: &str, err: &str) -> (r: LayoutParseError)
        ensures
            r matches LayoutParseError::InvalidType(m) && m@ == "prop: "@ + prop@ + ", err: "@
                + err@,
    {
        let mut m = String::new();
        m.append("prop: ");
        m.append(prop);
        m.append(", err: ");
        m.append(err);
        proof {
            assert(m@ =~= "prop: "@ + prop@ + ", err: "@ + err@);
        }
        LayoutParseError::InvalidType(m)
    }
}

} // verus!
