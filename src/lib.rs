use vstd::prelude::*;

pub mod activity;
pub mod config;
pub mod cycle_order;
pub mod layout;
pub mod visualizer;
pub mod status_notifier;
pub mod module_config;
pub mod text;
pub mod instances;

verus! {

} // verus!
