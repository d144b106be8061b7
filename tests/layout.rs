use dynisland_layout::activity::{eq_ignore_ascii_case, ActivityId, ActivityMatch};
use dynisland_layout::config::{
    DeDynamicLayoutConfig, DeDynamicLayoutConfigMain, DynamicLayoutConfig,
    DynamicLayoutConfigMain,
};
use dynisland_layout::cycle_order::CycleOrder;
use dynisland_layout::layout::{update_activity_order, DynamicLayout};

fn window_config(max_active: u16, max_activities: u16) -> DynamicLayoutConfig {
    DynamicLayoutConfig {
        auto_minimize_timeout: 5000,
        max_activities,
        max_active,
        reorder_on_add: false,
        reorder_on_reload: false,
        activity_order: Vec::new(),
    }
}

fn main_config(windows: &[&str]) -> DynamicLayoutConfigMain {
    let mut c = DynamicLayoutConfigMain::default();
    c.windows = windows
        .iter()
        .map(|w| (w.to_string(), window_config(1, 3)))
        .collect();
    c
}

fn activities(l: &DynamicLayout<u32>, window: &str) -> Vec<String> {
    l.order_managers
        .iter()
        .find(|(name, _)| name == window)
        .map(|(_, o)| o.list_activities().iter().map(|a| a.activity.clone()).collect())
        .unwrap_or_default()
}

fn windows(l: &DynamicLayout<u32>) -> Vec<String> {
    let mut w = l.list_windows();
    w.sort();
    w
}

#[test]
fn route_falls_back_to_default_window() {
    let mut l: DynamicLayout<u32> = DynamicLayout::new();
    l.update_config(main_config(&["", "top"]));
    assert_eq!(l.get_window_name(&ActivityId::with_window("m", "a", "top")), "top");
    assert_eq!(l.get_window_name(&ActivityId::with_window("m", "a", "nowhere")), "");
    assert_eq!(l.get_window_name(&ActivityId::new("m", "a")), "");
}

#[test]
fn add_activity_goes_to_its_window() {
    let mut l: DynamicLayout<u32> = DynamicLayout::new();
    l.update_config(main_config(&["", "top"]));
    l.add_activity(&ActivityId::with_window("m", "a", "top"), 1);
    l.add_activity(&ActivityId::new("m", "b"), 2);
    assert_eq!(activities(&l, "top"), vec!["a".to_string()]);
    assert_eq!(activities(&l, ""), vec!["b".to_string()]);
    let found = l.find_widget(&ActivityId::new("m", "a"));
    assert_eq!(found.map(|(w, name)| (*w, name)), Some((1, "top".to_string())));
    assert!(l.find_widget(&ActivityId::new("m", "z")).is_none());
    let mut all: Vec<String> = l.list_activities().iter().map(|a| a.activity.clone()).collect();
    all.sort();
    assert_eq!(all, vec!["a".to_string(), "b".to_string()]);
}

#[test]
fn sync_windows_rehomes_orphans() {
    let mut l: DynamicLayout<u32> = DynamicLayout::new();
    l.update_config(main_config(&["", "top"]));
    l.add_activity(&ActivityId::with_window("m", "a", "top"), 1);
    l.add_activity(&ActivityId::new("m", "b"), 2);
    l.update_config(main_config(&["", "side"]));
    assert_eq!(windows(&l), vec!["".to_string(), "side".to_string()]);
    let mut default = activities(&l, "");
    default.sort();
    assert_eq!(default, vec!["a".to_string(), "b".to_string()]);
}

#[test]
fn relocate_moves_misrouted_activity() {
    let mut l: DynamicLayout<u32> = DynamicLayout::new();
    l.update_config(main_config(&[""]));
    l.add_activity(&ActivityId::with_window("m", "a", "top"), 1);
    assert_eq!(activities(&l, ""), vec!["a".to_string()]);
    l.update_config(main_config(&["", "top"]));
    assert_eq!(activities(&l, "top"), vec!["a".to_string()]);
    assert!(activities(&l, "").is_empty());
}

#[test]
fn activate_and_cycle_through_router() {
    let mut l: DynamicLayout<u32> = DynamicLayout::new();
    l.update_config(main_config(&[""]));
    for (i, name) in ["a", "b", "c"].iter().enumerate() {
        l.add_activity(&ActivityId::new("m", name), i as u32);
    }
    l.activate(&ActivityId::new("m", "b"));
    let o = &l.order_managers[0].1;
    assert!(o.is_active(&ActivityId::new("m", "b")));
    l.deactivate(&ActivityId::new("m", "b"));
    assert!(!l.order_managers[0].1.is_active(&ActivityId::new("m", "b")));
    l.cycle("", true);
    assert_eq!(activities(&l, ""), vec!["b".to_string(), "c".to_string(), "a".to_string()]);
    l.cycle("", false);
    assert_eq!(activities(&l, ""), vec!["a".to_string(), "b".to_string(), "c".to_string()]);
    l.cycle("missing", true);
    assert_eq!(activities(&l, ""), vec!["a".to_string(), "b".to_string(), "c".to_string()]);
}

#[test]
fn remove_activity_rebuilds_emptied_window() {
    let mut l: DynamicLayout<u32> = DynamicLayout::new();
    l.update_config(main_config(&[""]));
    l.add_activity(&ActivityId::new("m", "a"), 1);
    l.activate(&ActivityId::new("m", "a"));
    l.remove_activity(&ActivityId::new("m", "a"));
    assert!(activities(&l, "").is_empty());
    assert_eq!(windows(&l), vec!["".to_string()]);
    assert_eq!(l.order_managers[0].1.active, 0);
    l.remove_activity(&ActivityId::new("m", "a"));
    assert_eq!(windows(&l), vec!["".to_string()]);
}

#[test]
fn activity_order_sorts_by_rules() {
    let mut conf = window_config(1, 5);
    conf.activity_order = vec![
        ActivityMatch::from_str("music").unwrap(),
        ActivityMatch::from_str("clock@Clock").unwrap(),
    ];
    let mut o: CycleOrder<u32> = CycleOrder::new(&conf);
    o.add(&ActivityId::new("script", "s1"), 0);
    o.add(&ActivityId::new("clock", "clock"), 1);
    o.add(&ActivityId::new("Music", "player"), 2);
    o.add(&ActivityId::new("script", "s2"), 3);
    update_activity_order(&mut o, &conf);
    let order: Vec<String> = o.list_activities().iter().map(|a| a.activity.clone()).collect();
    assert_eq!(order, vec!["player", "clock", "s1", "s2"]);
}

#[test]
fn reorder_on_add() {
    let mut c = main_config(&[""]);
    c.windows[0].1.reorder_on_add = true;
    c.windows[0].1.activity_order = vec![ActivityMatch::from_str("clock").unwrap()];
    let mut l: DynamicLayout<u32> = DynamicLayout::new();
    l.update_config(c);
    l.add_activity(&ActivityId::new("music", "m"), 0);
    l.add_activity(&ActivityId::new("clock", "c"), 1);
    assert_eq!(activities(&l, ""), vec!["c".to_string(), "m".to_string()]);
}

#[test]
fn activity_match_parsing() {
    match ActivityMatch::from_str("player@music") {
        Ok(ActivityMatch::Activity(id)) => {
            assert_eq!(id.module, "music");
            assert_eq!(id.activity, "player");
        }
        other => panic!("unexpected {:?}", other),
    }
    match ActivityMatch::from_str("music") {
        Ok(ActivityMatch::Module(m)) => assert_eq!(m, "music"),
        other => panic!("unexpected {:?}", other),
    }
    assert_eq!(ActivityMatch::from_str("a@b@c").unwrap_err(), "invalid match");
    let rule = ActivityMatch::from_str("PLAYER@Music").unwrap();
    assert!(rule.contains(&ActivityId::new("music", "player")));
    assert!(!rule.contains(&ActivityId::new("music", "other")));
    assert!(ActivityMatch::Other.contains(&ActivityId::new("x", "y")));
}

#[test]
fn ascii_case_insensitive_compare() {
    assert!(eq_ignore_ascii_case("Hello", "hELLO"));
    assert!(!eq_ignore_ascii_case("Hello", "Hell"));
    assert!(!eq_ignore_ascii_case("é", "É"));
}

#[test]
fn config_defaults() {
    let c = DynamicLayoutConfigMain::default();
    assert_eq!(c.max_activities, 3);
    assert_eq!(c.max_active, 1);
    assert_eq!(c.windows.len(), 1);
    assert_eq!(c.windows[0].0, "");
    let w = c.get_for_window("missing");
    assert_eq!(w.max_activities, 3);
    assert!(w.activity_order.is_empty());
    assert_eq!(c.default_conf().auto_minimize_timeout, 5000);
}

#[test]
fn into_main_config_fills_defaults() {
    let mut de = DeDynamicLayoutConfigMain::default();
    de.max_active = 2;
    let mut w = DeDynamicLayoutConfig::default();
    w.max_activities = Some(7);
    w.activity_order = Some(vec!["a@b".to_string(), "x@y@z".to_string(), "mod".to_string()]);
    de.windows.push(("top".to_string(), w));
    let main = de.into_main_config();
    assert_eq!(main.windows.len(), 2);
    assert_eq!(main.windows[0].0, "top");
    assert_eq!(main.windows[0].1.max_activities, 7);
    assert_eq!(main.windows[0].1.max_active, 2);
    assert_eq!(main.windows[0].1.activity_order.len(), 2);
    assert_eq!(main.windows[1].0, "");
    assert_eq!(main.windows[1].1.max_activities, 3);
    let order = DeDynamicLayoutConfig::get_order(None);
    assert!(order.is_empty());
}

#[test]
fn notification_timeout_choice() {
    let mut c = window_config(1, 3);
    assert_eq!(c.notification_timeout(Some(42)), 42);
    assert_eq!(c.notification_timeout(None), 5000);
    c.auto_minimize_timeout = 1200;
    assert_eq!(c.notification_timeout(None), 1200);
    c.auto_minimize_timeout = -1;
    assert_eq!(c.notification_timeout(None), 5000);
}

#[test]
fn update_config_applies_window_settings() {
    let mut c = main_config(&[""]);
    c.max_active = 2;
    c.windows[0].1.max_activities = 1;
    c.windows[0].1.reorder_on_reload = true;
    c.windows[0].1.activity_order = vec![ActivityMatch::from_str("clock").unwrap()];
    let mut l: DynamicLayout<u32> = DynamicLayout::new();
    l.update_config(main_config(&[""]));
    l.add_activity(&ActivityId::new("music", "m"), 0);
    l.add_activity(&ActivityId::new("clock", "c"), 1);
    assert_eq!(activities(&l, ""), vec!["m".to_string(), "c".to_string()]);
    l.update_config(c);
    let o = &l.order_managers[0].1;
    assert_eq!(o.max_active, 2);
    assert_eq!(o.max_shown, 2);
    assert_eq!(activities(&l, ""), vec!["c".to_string(), "m".to_string()]);
}

#[test]
fn remove_activity_keeps_order_of_rest() {
    let mut l: DynamicLayout<u32> = DynamicLayout::new();
    l.update_config(main_config(&[""]));
    for (i, name) in ["a", "b", "c", "d"].iter().enumerate() {
        l.add_activity(&ActivityId::new("m", name), i as u32);
    }
    l.activate(&ActivityId::new("m", "c"));
    l.remove_activity(&ActivityId::new("m", "b"));
    assert_eq!(activities(&l, ""), vec!["a".to_string(), "c".to_string(), "d".to_string()]);
    assert!(l.order_managers[0].1.is_active(&ActivityId::new("m", "c")));
}

#[test]
fn orphans_go_to_their_declared_window() {
    let mut l: DynamicLayout<u32> = DynamicLayout::new();
    l.update_config(main_config(&["", "old"]));
    l.add_activity(&ActivityId::with_window("m", "a", "side"), 1);
    l.add_activity(&ActivityId::with_window("m", "b", "old"), 2);
    l.update_config(main_config(&["", "side"]));
    assert_eq!(activities(&l, "side"), vec!["a".to_string()]);
    assert_eq!(activities(&l, ""), vec!["b".to_string()]);
    assert_eq!(windows(&l), vec!["".to_string(), "side".to_string()]);
}
