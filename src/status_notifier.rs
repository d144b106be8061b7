pub mod icon;
pub mod item;
pub mod layout;
pub mod menu;
