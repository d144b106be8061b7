use vstd::prelude::*;

verus! {

/// Which of its icons a tray item shows.
#[derive(Debug, Clone)]
pub enum IconType {
    Icon,
    AttentionIcon,
    OverlayIcon,
}

impl IconType {
    /// The name of the icon kind.
    pub fn to_string(&self) -> (r: String)
        ensures
            r@ == (match self {
                IconType::Icon => "Icon"@,
                IconType::AttentionIcon => "AttentionIcon"@,
                IconType::OverlayIcon => "OverlayIcon"@,
            }),
    {
        match self {
            IconType::Icon => "Icon".to_string(),
            IconType::AttentionIcon => "AttentionIcon".to_string(),
            IconType::OverlayIcon => "OverlayIcon".to_string(),
        }
    }
}

} // verus!
