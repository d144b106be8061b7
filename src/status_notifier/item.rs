use vstd::prelude::*;

use crate::text::str_eq;

verus! {

/// A value that is not one of those a tray item may take.
#[derive(Debug, Clone, PartialEq, Eq)]
pub struct StatusNotifierItemParseError;

/// How much a tray item asks for the user's attention.
#[derive(Debug, Clone, Copy)]
pub enum Status {
    /// Idle: a tray may hide the item.
    Passive,
    /// Active: the item should be shown.
    Active,
    /// The item carries something the user should act on.
    NeedsAttention,
}

impl Status {
    /// Reads a status by its name: `Passive`, `Active` or `NeedsAttention`.
    pub fn from_str(s: &str) -> (r: Result<Status, StatusNotifierItemParseError>)
        ensures
            r == (if s@ == "Passive"@ {
                Ok(Status::Passive)
            } else if s@ == "Active"@ {
                Ok(Status::Active)
            } else if s@ == "NeedsAttention"@ {
                Ok(Status::NeedsAttention)
            } else {
                Err(StatusNotifierItemParseError)
            }),
    {
        if str_eq(s, "Passive") {
            Ok(Status::Passive)
        } else if str_eq(s, "Active") {
            Ok(Status::Active)
        } else if str_eq(s, "NeedsAttention") {
            Ok(Status::NeedsAttention)
        } else {
            Err(StatusNotifierItemParseError)
        }
    }
}

/// What a tray item stands for.
#[derive(Debug, Clone, Copy)]
pub enum Category {
    /// The state of an application, such as a media player.
    ApplicationStatus,
    /// A messenger or an email client.
    Communications,
    /// A service of the system, such as a disk indexer.
    SystemServices,
    /// A piece of hardware, such as the battery.
    Hardware,
}

impl Category {
    /// Reads a category by its name: `ApplicationStatus`, `Communications`,
    /// `SystemServices` or `Hardware`.
    pub fn from_str(s: &str) -> (r: Result<Category, StatusNotifierItemParseError>)
        ensures
            r == (if s@ == "ApplicationStatus"@ {
                Ok(Category::ApplicationStatus)
            } else if s@ == "Communications"@ {
                Ok(Category::Communications)
            } else if s@ == "SystemServices"@ {
                Ok(Category::SystemServices)
            } else if s@ == "Hardware"@ {
                Ok(Category::Hardware)
            } else {
                Err(StatusNotifierItemParseError)
            }),
    {
        if str_eq(s, "ApplicationStatus") {
            Ok(Category::ApplicationStatus)
        } else if str_eq(s, "Communications") {
            Ok(Category::Communications)
        } else if str_eq(s, "SystemServices") {
            Ok(Category::SystemServices)
        } else if str_eq(s, "Hardware") {
            Ok(Category::Hardware)
        } else {
            Err(StatusNotifierItemParseError)
        }
    }
}

} // verus!
