use dynisland_layout::activity::ActivityId;
use dynisland_layout::config::DynamicLayoutConfig;
use dynisland_layout::cycle_order::CycleOrder;

fn config(max_active: u16, max_activities: u16) -> DynamicLayoutConfig {
    DynamicLayoutConfig {
        auto_minimize_timeout: 5000,
        max_activities,
        max_active,
        reorder_on_add: false,
        reorder_on_reload: false,
        activity_order: Vec::new(),
    }
}

fn id(name: &str) -> ActivityId {
    ActivityId::new("test", name)
}

fn ring(o: &CycleOrder<u32>) -> Vec<String> {
    o.list_activities().iter().map(|a| a.activity.clone()).collect()
}

fn active(o: &CycleOrder<u32>) -> Vec<String> {
    ring(o)
        .into_iter()
        .filter(|name| o.is_active(&id(name)))
        .collect()
}

fn shown(o: &CycleOrder<u32>) -> Vec<String> {
    ring(o).into_iter().filter(|name| o.is_shown(&id(name))).collect()
}

fn widget_keys(o: &CycleOrder<u32>) -> Vec<String> {
    let mut keys: Vec<String> = o
        .get_widget_map()
        .iter()
        .map(|(a, _)| a.activity.clone())
        .collect();
    keys.sort();
    keys
}

/// Ring [A,B,C,D] with max_active=1, max_shown=2.
fn abcd() -> CycleOrder<u32> {
    let mut o = CycleOrder::new(&config(1, 2));
    for (i, name) in ["A", "B", "C", "D"].iter().enumerate() {
        o.add(&id(name), i as u32);
    }
    o
}

fn names(v: &[&str]) -> Vec<String> {
    v.iter().map(|s| s.to_string()).collect()
}

#[test]
fn scenario_initial_tiers() {
    let o = abcd();
    assert_eq!(ring(&o), names(&["A", "B", "C", "D"]));
    assert_eq!(active(&o), names(&[]));
    assert_eq!(shown(&o), names(&["A", "B"]));
    assert!(!o.is_shown(&id("C")));
    assert!(!o.is_shown(&id("D")));
}

#[test]
fn scenario_activate_first() {
    let mut o = abcd();
    o.activate(&id("A"));
    assert_eq!(active(&o), names(&["A"]));
    assert_eq!(o.active_offset, 0);
    assert_eq!(o.active, 1);
    assert_eq!(shown(&o), names(&["A", "B"]));
}

#[test]
fn scenario_activate_hidden_entry() {
    let mut o = abcd();
    o.activate(&id("A"));
    o.activate(&id("C"));
    assert_eq!(ring(&o), names(&["A", "C", "B", "D"]));
    assert_eq!(active(&o), names(&["C"]));
    assert_eq!(o.active_offset, 1);
    assert_eq!(o.active, 1);
    assert_eq!(shown(&o), names(&["A", "C"]));
}

#[test]
fn scenario_next_after_activation() {
    let mut o = abcd();
    o.activate(&id("A"));
    o.activate(&id("C"));
    o.next();
    assert_eq!(ring(&o), names(&["C", "B", "D", "A"]));
    assert_eq!(shown(&o), names(&["C", "B"]));
    assert_eq!(active(&o), names(&["B"]));
    assert_eq!(o.active_offset, 1);
}

#[test]
fn scenario_remove_active_entry() {
    let mut o = abcd();
    o.activate(&id("A"));
    o.remove(&id("A"));
    assert_eq!(ring(&o), names(&["B", "C", "D"]));
    assert_eq!(o.active, 0);
    assert_eq!(active(&o), names(&[]));
    assert_eq!(shown(&o), names(&["B", "C"]));
    assert_eq!(widget_keys(&o), names(&["B", "C", "D"]));
}

#[test]
fn remove_before_active_tier_slides_offset() {
    let mut o = CycleOrder::new(&config(1, 3));
    for (i, name) in ["A", "B", "C"].iter().enumerate() {
        o.add(&id(name), i as u32);
    }
    o.activate(&id("B"));
    assert_eq!(o.active_offset, 1);
    o.remove(&id("A"));
    assert_eq!(o.active_offset, 0);
    assert_eq!(active(&o), names(&["B"]));
}

#[test]
fn add_is_idempotent_and_never_active() {
    let mut o = abcd();
    o.add(&id("B"), 99);
    assert_eq!(ring(&o), names(&["A", "B", "C", "D"]));
    let widget_b = o
        .get_widget_map()
        .iter()
        .find(|(a, _)| a.activity == "B")
        .map(|(_, w)| *w);
    assert_eq!(widget_b, Some(1));
    o.add(&id("E"), 4);
    assert_eq!(ring(&o), names(&["A", "B", "C", "D", "E"]));
    assert!(!o.is_active(&id("E")));
    assert!(!o.is_shown(&id("E")));
}

#[test]
fn added_entry_shown_while_room() {
    let mut o = CycleOrder::new(&config(1, 3));
    o.add(&id("A"), 0);
    assert!(o.is_shown(&id("A")));
    assert!(!o.is_active(&id("A")));
}

#[test]
fn noops_leave_state_unchanged() {
    let mut o = abcd();
    o.activate(&id("A"));
    let before_ring = ring(&o);
    let before = (o.active, o.active_offset, o.max_shown, o.max_active);
    o.remove(&id("Z"));
    o.activate(&id("A"));
    o.activate(&id("Z"));
    o.deactivate(&id("B"));
    o.update_order(vec![id("A"), id("B"), id("C")]);
    o.update_order(vec![id("A"), id("A"), id("B"), id("C")]);
    o.update_order(vec![id("A"), id("B"), id("C"), id("Z")]);
    assert_eq!(ring(&o), before_ring);
    assert_eq!((o.active, o.active_offset, o.max_shown, o.max_active), before);
    assert_eq!(widget_keys(&o), names(&["A", "B", "C", "D"]));
}

#[test]
fn update_order_accepts_permutation() {
    let mut o = abcd();
    o.activate(&id("A"));
    o.update_order(vec![id("D"), id("C"), id("B"), id("A")]);
    assert_eq!(ring(&o), names(&["D", "C", "B", "A"]));
    assert_eq!(o.active_offset, 0);
    assert_eq!(o.active, 1);
    assert_eq!(active(&o), names(&["D"]));
}

#[test]
fn rotation_round_trip() {
    let mut o = abcd();
    o.activate(&id("B"));
    let before = (ring(&o), o.active, o.active_offset);
    o.next();
    assert_eq!(ring(&o), names(&["B", "C", "D", "A"]));
    o.previous();
    assert_eq!((ring(&o), o.active, o.active_offset), before);
    o.previous();
    assert_eq!(ring(&o), names(&["D", "A", "B", "C"]));
    o.next();
    assert_eq!((ring(&o), o.active, o.active_offset), before);
}

#[test]
fn rotation_of_single_entry_is_noop() {
    let mut o = CycleOrder::new(&config(1, 2));
    o.next();
    assert!(ring(&o).is_empty());
    o.add(&id("A"), 0);
    o.next();
    o.previous();
    assert_eq!(ring(&o), names(&["A"]));
}

#[test]
fn capacity_respected_after_many_activations() {
    let mut o = CycleOrder::new(&config(2, 3));
    for (i, name) in ["A", "B", "C", "D", "E"].iter().enumerate() {
        o.add(&id(name), i as u32);
    }
    for name in ["E", "A", "D", "B", "C", "E", "A"] {
        o.activate(&id(name));
        assert!(o.active <= o.max_active);
        assert!(o.active_offset + o.active <= o.max_shown);
        assert!(shown(&o).len() <= o.max_shown as usize);
        assert!(o.is_active(&id(name)));
    }
    assert_eq!(active(&o).len(), 2);
}

#[test]
fn activate_grows_left_and_right() {
    let mut o = CycleOrder::new(&config(3, 4));
    for (i, name) in ["A", "B", "C", "D"].iter().enumerate() {
        o.add(&id(name), i as u32);
    }
    o.activate(&id("B"));
    assert_eq!((o.active_offset, o.active), (1, 1));
    o.activate(&id("D"));
    assert_eq!(ring(&o), names(&["A", "B", "D", "C"]));
    assert_eq!((o.active_offset, o.active), (1, 2));
    o.activate(&id("A"));
    assert_eq!(ring(&o), names(&["A", "B", "D", "C"]));
    assert_eq!((o.active_offset, o.active), (0, 3));
    assert_eq!(active(&o), names(&["A", "B", "D"]));
}

#[test]
fn activate_full_tier_from_left_drops_rightmost() {
    let mut o = CycleOrder::new(&config(1, 3));
    for (i, name) in ["A", "B", "C"].iter().enumerate() {
        o.add(&id(name), i as u32);
    }
    o.activate(&id("C"));
    assert_eq!((o.active_offset, o.active), (2, 1));
    o.activate(&id("A"));
    assert_eq!(ring(&o), names(&["B", "A", "C"]));
    assert_eq!((o.active_offset, o.active), (1, 1));
    assert_eq!(active(&o), names(&["A"]));
}

#[test]
fn activate_hidden_when_tier_reaches_last_shown_slot() {
    let mut o = CycleOrder::new(&config(2, 2));
    for (i, name) in ["A", "B", "C"].iter().enumerate() {
        o.add(&id(name), i as u32);
    }
    o.activate(&id("A"));
    o.activate(&id("B"));
    assert_eq!((o.active_offset, o.active), (0, 2));
    o.activate(&id("C"));
    assert_eq!(ring(&o), names(&["A", "C", "B"]));
    assert_eq!((o.active_offset, o.active), (0, 2));
    assert_eq!(active(&o), names(&["A", "C"]));
}

#[test]
fn deactivate_moves_to_nearer_edge() {
    let mut o = CycleOrder::new(&config(3, 3));
    for (i, name) in ["A", "B", "C"].iter().enumerate() {
        o.add(&id(name), i as u32);
    }
    o.activate(&id("A"));
    o.activate(&id("B"));
    o.activate(&id("C"));
    assert_eq!((o.active_offset, o.active), (0, 3));
    o.deactivate(&id("C"));
    assert_eq!(ring(&o), names(&["A", "B", "C"]));
    assert_eq!((o.active_offset, o.active), (0, 2));
    assert!(o.is_shown(&id("C")));
    o.deactivate(&id("A"));
    assert_eq!((o.active_offset, o.active), (1, 1));
    assert_eq!(active(&o), names(&["B"]));
}

#[test]
fn deactivate_tie_goes_left() {
    let mut o = abcd();
    o.activate(&id("A"));
    o.deactivate(&id("A"));
    assert_eq!((o.active_offset, o.active), (1, 0));
    assert!(!o.is_active(&id("A")));
    assert!(o.is_shown(&id("A")));
}

#[test]
fn update_config_clamps() {
    let mut o = CycleOrder::new(&config(3, 4));
    for (i, name) in ["A", "B", "C", "D"].iter().enumerate() {
        o.add(&id(name), i as u32);
    }
    o.activate(&id("C"));
    o.activate(&id("D"));
    assert_eq!((o.active_offset, o.active), (2, 2));
    o.update_config(1, 0);
    assert_eq!(o.max_active, 1);
    assert_eq!(o.max_shown, 1);
    assert_eq!(o.active, 1);
    assert_eq!(o.active_offset, 0);
    o.update_config(2, 5);
    assert_eq!((o.max_active, o.max_shown), (2, 5));
}

#[test]
fn new_caps_max_active() {
    let o: CycleOrder<u32> = CycleOrder::new(&config(5, 2));
    assert_eq!(o.max_active, 2);
    assert_eq!(o.max_shown, 2);
    assert!(o.is_empty());
}

#[test]
fn ui_plan_matches_ring() {
    let mut o = abcd();
    o.activate(&id("B"));
    let plan = o.ui_plan(&vec![id("A"), id("X")]);
    let removed: Vec<String> = plan.to_remove.iter().map(|a| a.activity.clone()).collect();
    let appended: Vec<String> = plan.to_append.iter().map(|a| a.activity.clone()).collect();
    assert_eq!(removed, names(&["X"]));
    assert_eq!(appended, names(&["B", "C", "D"]));
    let layout: Vec<(String, bool, bool)> = plan
        .layout
        .iter()
        .map(|(a, act, sh)| (a.activity.clone(), *act, *sh))
        .collect();
    assert_eq!(
        layout,
        vec![
            ("A".to_string(), false, true),
            ("B".to_string(), true, true),
            ("C".to_string(), false, false),
            ("D".to_string(), false, false),
        ]
    );
}

#[test]
fn widget_map_matches_ring_after_operations() {
    let mut o = abcd();
    o.activate(&id("C"));
    o.remove(&id("B"));
    o.next();
    o.add(&id("E"), 7);
    o.deactivate(&id("C"));
    let mut r = ring(&o);
    r.sort();
    assert_eq!(widget_keys(&o), r);
    let mut dedup = r.clone();
    dedup.dedup();
    assert_eq!(dedup, r);
    let taken = o.take(&id("E"));
    assert_eq!(taken, Some(7));
    assert_eq!(o.take(&id("E")), None);
}
