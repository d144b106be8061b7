use vstd::prelude::*;

use crate::text::str_eq;

verus! {

/// How a menu asks to be drawn.
#[derive(Debug, Clone, Copy)]
pub enum Status {
    Normal,
    Notice,
}

impl Status {
    /// Reads a status by its name: `normal` or `notice`.
    pub fn from_str(s: &str) -> (r: Result<Status, ()>)
        ensures
            r == (if s@ == "normal"@ {
                Ok(Status::Normal)
            } else if s@ == "notice"@ {
                Ok(Status::Notice)
            } else {
                Err(())
            }),
    {
        if str_eq(s, "normal") {
            Ok(Status::Normal)
        } else if str_eq(s, "notice") {
            Ok(Status::Notice)
        } else {
            Err(())
        }
    }

    /// The name of the status, as `from_str` reads it.
    pub fn to_string(&self) -> (r: String)
        ensures
            r@ == (match self {
                Status::Normal => "normal"@,
                Status::Notice => "notice"@,
            }),
    {
        match self {
            Status::Normal => "normal".to_string(),
            Status::Notice => "notice".to_string(),
        }
    }
}

/// What happened to a menu entry.
#[derive(Debug, Clone, Copy)]
pub enum Event {
    Clicked,
    Hovered,
}

impl Event {
    /// Reads an event by its name: `clicked` or `hovered`.
    pub fn from_str(s: &str) -> (r: Result<Event, ()>)
        ensures
            r == (if s@ == "clicked"@ {
                Ok(Event::Clicked)
            } else if s@ == "hovered"@ {
                Ok(Event::Hovered)
            } else {
                Err(())
            }),
    {
        if str_eq(s, "clicked") {
            Ok(Event::Clicked)
        } else if str_eq(s, "hovered") {
            Ok(Event::Hovered)
        } else {
            Err(())
        }
    }

    /// The name of the event, as `from_str` reads it.
    pub fn to_string(&self) -> (r: String)
        ensures
            r@ == (match self {
                Event::Clicked => "clicked"@,
                Event::Hovered => "hovered"@,
            }),
    {
        match self {
            Event::Clicked => "clicked".to_string(),
            Event::Hovered => "hovered".to_string(),
        }
    }
}

} // verus!
