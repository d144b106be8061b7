use vstd::prelude::*;

use crate::text::str_eq;

verus! {

/// The settings of the clock module.
#[derive(Debug, Clone)]
pub struct ClockConfig {
    pub format_24h: bool,
    pub hour_hand_color: String,
    pub minute_hand_color: String,
    pub tick_color: String,
    pub circle_color: String,
}

impl ClockConfig {
    /// A 24-hour clock with white hands and light gray ticks and circle.
    pub fn default() -> (r: ClockConfig)
        ensures
            r.format_24h,
            r.hour_hand_color@ == "white"@,
            r.minute_hand_color@ == "white"@,
            r.tick_color@ == "lightgray"@,
            r.circle_color@ == "lightgray"@,
    {
        ClockConfig {
            format_24h: true,
            hour_hand_color: "white".to_string(),
            minute_hand_color: "white".to_string(),
            circle_color: "lightgray".to_string(),
            tick_color: "lightgray".to_string(),
        }
    }
}

/// The settings of the example module.
#[derive(Debug, Clone)]
pub struct ExampleConfig {
    pub int: i32,
    pub string: String,
    pub vec: Vec<String>,
    pub duration: u64,
}

impl ExampleConfig {
    /// The example values.
    pub fn default() -> (r: ExampleConfig)
        ensures
            r.int == 0,
            r.string@ == "Example1"@,
            r.vec@.len() == 2,
            r.vec@[0]@ == "Example2"@,
            r.vec@[1]@ == "Example3"@,
            r.duration == 400,
    {
        let mut vec: Vec<String> = Vec::new();
        vec.push("Example2".to_string());
        vec.push("Example3".to_string());
        ExampleConfig { int: 0, string: "Example1".to_string(), vec, duration: 400 }
    }
}

/// The settings of the tray module.
#[derive(Debug, Clone)]
pub struct SystrayConfig {
    /// One of `max`, `2-step` or `current`.
    pub menu_height_mode: String,
}

impl SystrayConfig {
    /// Menus in two steps.
    pub fn default() -> (r: SystrayConfig)
        ensures
            r.menu_height_mode@ == "2-step"@,
    {
        SystrayConfig { menu_height_mode: "2-step".to_string() }
    }
}

/// How tall a tray menu grows.
#[derive(Debug, Clone, Copy, Default, PartialEq, Eq)]
pub enum MenuHeightMode {
    #[default]
    TwoStep,
    Max,
    Current,
}

/// What `str::to_lowercase` makes of `s`.
pub uninterp spec fn lower_of(s: Seq<char>) -> Seq<char>;

/// Relies on `str::to_lowercase`: its result depends on the characters of `s`
/// alone.
#[verifier::external_body]
fn lowercase(s: &str) -> (r: String)
    ensures
        r@ == lower_of(s@),
{
    s.to_lowercase()
}

/// The mode that an already lower-case name stands for; anything unknown is
/// the two-step mode.
pub open spec fn height_mode_of(t: Seq<char>) -> MenuHeightMode {
    if t == "max"@ {
        MenuHeightMode::Max
    } else if t == "current"@ {
        MenuHeightMode::Current
    } else {
        MenuHeightMode::TwoStep
    }
}

impl MenuHeightMode {
    /// Reads a mode from its name in lower case: `max`, `current` or
    /// `2-step`; anything else is the two-step mode.
    pub fn from_lowercase(t: &str) -> (r: MenuHeightMode)
        ensures
            r == height_mode_of(t@),
    {
        if str_eq(t, "max") {
            MenuHeightMode::Max
        } else if str_eq(t, "current") {
            MenuHeightMode::Current
        } else {
            MenuHeightMode::TwoStep
        }
    }

    /// Reads a mode from its name in any case: `max`, `current` or `2-step`;
    /// anything else is the two-step mode.
    pub fn from(s: &str) -> (r: MenuHeightMode)
        ensures
            r == height_mode_of(lower_of(s@)),
    {
        let lowered = lowercase(s);
        MenuHeightMode::from_lowercase(lowered.as_str())
    }
}

} // verus!
