use dynisland_layout::activity::ActivityId;
use dynisland_layout::instances::activities_to_update;

fn inst(window: &str, instance: usize) -> ActivityId {
    ActivityId::with_window("clock", &format!("clock-{window}-{instance}"), window)
        .with_instance(instance)
}

#[test]
fn instances_added_and_removed() {
    let current = vec![inst("", 0), inst("", 1), inst("top", 0)];
    let desired = vec![("".to_string(), 1), ("side".to_string(), 2), ("top".to_string(), 3)];
    let (to_remove, to_add) = activities_to_update(&current, &desired);
    let removed: Vec<String> = to_remove.iter().map(|a| a.activity.clone()).collect();
    assert_eq!(removed, vec!["clock--1".to_string()]);
    assert_eq!(
        to_add,
        vec![
            ("side".to_string(), 0),
            ("side".to_string(), 1),
            ("top".to_string(), 1),
            ("top".to_string(), 2),
        ]
    );
}

#[test]
fn instances_nothing_to_do() {
    let current = vec![inst("", 0)];
    let desired = vec![("".to_string(), 1)];
    let (to_remove, to_add) = activities_to_update(&current, &desired);
    assert!(to_remove.is_empty());
    assert!(to_add.is_empty());
}

#[test]
fn instances_window_dropped() {
    let current = vec![inst("gone", 0), inst("gone", 1)];
    let desired: Vec<(String, usize)> = Vec::new();
    let (to_remove, to_add) = activities_to_update(&current, &desired);
    assert_eq!(to_remove.len(), 2);
    assert!(to_add.is_empty());
}
