use soundshift::commands::create_group;
use soundshift::commands::cycle_group;
use soundshift::commands::delete_group;
use soundshift::commands::get_groups;
use soundshift::commands::get_settings;
use soundshift::commands::plan_update;
use soundshift::commands::select_group_device;
use soundshift::commands::switch_outcome;
use soundshift::commands::update_group;
use soundshift::commands::update_settings;
use soundshift::persistence::restore_state;
use soundshift::state::AppSettings;
use soundshift::state::AppState;
use soundshift::state::CommandError;
use soundshift::state::DeviceGroup;
use soundshift::state::GroupDevice;

fn dev(id: &str) -> GroupDevice {
    GroupDevice { id: id.to_string(), name: format!("Device {}", id) }
}

fn ids(v: &[&str]) -> Vec<String> {
    v.iter().map(|s| s.to_string()).collect()
}

fn state_with(id: &str, devices: Vec<GroupDevice>, current_index: usize) -> AppState {
    let mut state = AppState::new();
    state.groups.push(DeviceGroup {
        id: id.to_string(),
        name: "Group".to_string(),
        devices,
        shortcut: None,
        current_index,
    });
    state
}

#[test]
fn cycle_scenario_skips_and_wraps() {
    let mut state = state_with("g", vec![dev("A"), dev("B"), dev("C")], 0);
    let online = ids(&["A", "C"]);
    let d = cycle_group(&mut state, &"g".to_string(), &online).unwrap();
    assert_eq!(d.id, "C");
    assert_eq!(state.groups[0].current_index, 2);
    let d = cycle_group(&mut state, &"g".to_string(), &online).unwrap();
    assert_eq!(d.id, "A");
    assert_eq!(state.groups[0].current_index, 0);
}

#[test]
fn cycle_with_nothing_online_fails_and_keeps_selection() {
    let mut state = state_with("g", vec![dev("A"), dev("B")], 0);
    let r = cycle_group(&mut state, &"g".to_string(), &ids(&[]));
    assert!(matches!(r, Err(CommandError::NoOnlineDevices)));
    assert_eq!(state.groups[0].current_index, 0);
}

#[test]
fn cycle_empty_group_fails() {
    let mut state = state_with("g", vec![], 0);
    let r = cycle_group(&mut state, &"g".to_string(), &ids(&["A"]));
    assert!(matches!(r, Err(CommandError::EmptyGroup)));
}

#[test]
fn cycle_unknown_group_fails() {
    let mut state = state_with("g", vec![dev("A")], 0);
    let r = cycle_group(&mut state, &"other".to_string(), &ids(&["A"]));
    assert!(matches!(r, Err(CommandError::GroupNotFound)));
}

#[test]
fn create_with_taken_shortcut_fails() {
    let mut state = AppState::new();
    let first = create_group(&mut state, "g1".to_string(),
            "Desk".to_string(),
            vec![dev("X"), dev("Y")],
            Some("Ctrl+Alt+1".to_string()),
            Ok(()),
        )
        .unwrap();
    assert_eq!(first.name, "Desk");
    assert_eq!(first.current_index, 0);
    assert_eq!(first.shortcut.as_deref(), Some("Ctrl+Alt+1"));
    let second = create_group(&mut state, "g2".to_string(),
        "Travel".to_string(),
        vec![dev("Z")],
        Some("Ctrl+Alt+1".to_string()),
        Err("HotKey already registered".to_string()),
    );
    match second {
        Err(CommandError::ShortcutConflict(reason)) => assert_eq!(reason, "HotKey already registered"),
        _ => panic!("expected a shortcut conflict"),
    }
    let groups = get_groups(&state);
    assert_eq!(groups.len(), 1);
    assert_eq!(groups[0].id, "g1");
}

#[test]
fn create_without_shortcut_ignores_registration() {
    let mut state = AppState::new();
    let g = create_group(&mut state, "g1".to_string(), "Desk".to_string(), vec![], None, Err("unused".to_string()))
        .unwrap();
    assert_eq!(g.id, "g1");
    assert_eq!(state.groups.len(), 1);
}

#[test]
fn select_offline_device_fails_and_keeps_selection() {
    let mut state = state_with("g", vec![dev("A"), dev("B"), dev("C")], 0);
    let r = select_group_device(&mut state, &"g".to_string(), 1, &ids(&["A", "C"]));
    assert!(matches!(r, Err(CommandError::DeviceOffline)));
    assert_eq!(state.groups[0].current_index, 0);
}

#[test]
fn select_out_of_range_fails() {
    let mut state = state_with("g", vec![dev("A")], 0);
    let r = select_group_device(&mut state, &"g".to_string(), 1, &ids(&["A"]));
    assert!(matches!(r, Err(CommandError::InvalidIndex)));
}

#[test]
fn select_online_device_moves_selection() {
    let mut state = state_with("g", vec![dev("A"), dev("B"), dev("C")], 0);
    let d = select_group_device(&mut state, &"g".to_string(), 2, &ids(&["C"])).unwrap();
    assert_eq!(d.id, "C");
    assert_eq!(state.groups[0].current_index, 2);
}

#[test]
fn delete_then_list_forgets_group() {
    let mut state = AppState::new();
    create_group(&mut state, "g1".to_string(), "Desk".to_string(), vec![dev("A")], Some("Ctrl+1".to_string()), Ok(())).unwrap();
    create_group(&mut state, "g2".to_string(), "Travel".to_string(), vec![dev("B")], None, Ok(())).unwrap();
    let removed = delete_group(&mut state, &"g1".to_string()).unwrap();
    assert_eq!(removed.shortcut.as_deref(), Some("Ctrl+1"));
    let groups = get_groups(&state);
    assert_eq!(groups.len(), 1);
    assert!(groups.iter().all(|g| g.id != "g1"));
    let again = delete_group(&mut state, &"g1".to_string());
    assert!(matches!(again, Err(CommandError::GroupNotFound)));
}

#[test]
fn update_replaces_group() {
    let mut state = state_with("g", vec![dev("A")], 0);
    let new_group = DeviceGroup {
        id: "g".to_string(),
        name: "Renamed".to_string(),
        devices: vec![dev("A"), dev("B")],
        shortcut: Some("Alt+2".to_string()),
        current_index: 1,
    };
    let plan = plan_update(&state, &new_group).unwrap();
    assert_eq!(plan.unregister, None);
    assert_eq!(plan.register.as_deref(), Some("Alt+2"));
    update_group(&mut state, new_group, Ok(())).unwrap();
    assert_eq!(state.groups[0].name, "Renamed");
    assert_eq!(state.groups[0].devices.len(), 2);
    assert_eq!(state.groups[0].current_index, 1);
}

#[test]
fn update_with_refused_shortcut_keeps_group() {
    let mut state = state_with("g", vec![dev("A")], 0);
    let new_group = DeviceGroup {
        id: "g".to_string(),
        name: "Renamed".to_string(),
        devices: vec![dev("A")],
        shortcut: Some("Alt+2".to_string()),
        current_index: 0,
    };
    let r = update_group(&mut state, new_group, Err("taken".to_string()));
    assert!(matches!(r, Err(CommandError::ShortcutConflict(_))));
    assert_eq!(state.groups[0].name, "Group");
}

#[test]
fn update_with_same_shortcut_needs_no_registration() {
    let mut state = state_with("g", vec![dev("A")], 0);
    state.groups[0].shortcut = Some("Alt+2".to_string());
    let new_group = DeviceGroup {
        id: "g".to_string(),
        name: "Renamed".to_string(),
        devices: vec![dev("A")],
        shortcut: Some("Alt+2".to_string()),
        current_index: 0,
    };
    let plan = plan_update(&state, &new_group).unwrap();
    assert_eq!(plan.unregister, None);
    assert_eq!(plan.register, None);
    update_group(&mut state, new_group, Err("not asked".to_string())).unwrap();
    assert_eq!(state.groups[0].name, "Renamed");
}

#[test]
fn update_unknown_or_invalid_group_fails() {
    let mut state = state_with("g", vec![dev("A")], 0);
    let unknown = DeviceGroup { id: "x".to_string(), name: "X".to_string(), devices: vec![], shortcut: None, current_index: 0 };
    assert!(matches!(update_group(&mut state, unknown, Ok(())), Err(CommandError::GroupNotFound)));
    let invalid = DeviceGroup { id: "g".to_string(), name: "X".to_string(), devices: vec![dev("A")], shortcut: None, current_index: 3 };
    assert!(matches!(plan_update(&state, &invalid), Err(CommandError::InvalidIndex)));
    assert!(matches!(update_group(&mut state, invalid, Ok(())), Err(CommandError::InvalidIndex)));
    assert_eq!(state.groups[0].name, "Group");
}

#[test]
fn settings_default_and_update() {
    let mut state = AppState::default();
    let s = get_settings(&state);
    assert!(!s.run_on_startup);
    assert!(!s.start_minimized);
    assert!(s.close_to_tray);
    let new_settings = AppSettings { run_on_startup: true, start_minimized: true, close_to_tray: false };
    update_settings(&mut state, new_settings);
    assert_eq!(get_settings(&state), new_settings);
}

#[test]
fn restore_round_trip() {
    let mut state = AppState::new();
    create_group(&mut state, "g1".to_string(), "Desk".to_string(), vec![dev("A"), dev("B")], Some("Ctrl+1".to_string()), Ok(())).unwrap();
    create_group(&mut state, "g2".to_string(), "Travel".to_string(), vec![dev("C")], None, Ok(())).unwrap();
    select_group_device(&mut state, &"g1".to_string(), 1, &ids(&["B"])).unwrap();
    update_settings(&mut state, AppSettings { run_on_startup: true, start_minimized: false, close_to_tray: false });
    let restored = restore_state(Some(get_groups(&state)), Some(get_settings(&state)));
    assert_eq!(restored.groups.len(), 2);
    for (a, b) in restored.groups.iter().zip(state.groups.iter()) {
        assert_eq!(a.id, b.id);
        assert_eq!(a.name, b.name);
        assert_eq!(a.shortcut, b.shortcut);
        assert_eq!(a.current_index, b.current_index);
        let ad: Vec<&str> = a.devices.iter().map(|d| d.id.as_str()).collect();
        let bd: Vec<&str> = b.devices.iter().map(|d| d.id.as_str()).collect();
        assert_eq!(ad, bd);
    }
    assert_eq!(restored.settings, state.settings);
}

#[test]
fn restore_missing_or_broken_entries_gives_defaults() {
    let r = restore_state(None, None);
    assert!(r.groups.is_empty());
    assert_eq!(r.settings, AppSettings::default());
    let dup = vec![
        DeviceGroup { id: "g".to_string(), name: "A".to_string(), devices: vec![], shortcut: None, current_index: 0 },
        DeviceGroup { id: "g".to_string(), name: "B".to_string(), devices: vec![], shortcut: None, current_index: 0 },
    ];
    assert!(restore_state(Some(dup), None).groups.is_empty());
    let bad_index = vec![DeviceGroup { id: "g".to_string(), name: "A".to_string(), devices: vec![dev("A")], shortcut: None, current_index: 1 }];
    assert!(restore_state(Some(bad_index), None).groups.is_empty());
}

#[test]
fn registered_shortcuts_in_group_order() {
    let mut state = AppState::new();
    create_group(&mut state, "g1".to_string(), "A".to_string(), vec![], Some("Ctrl+1".to_string()), Ok(())).unwrap();
    create_group(&mut state, "g2".to_string(), "B".to_string(), vec![], None, Ok(())).unwrap();
    create_group(&mut state, "g3".to_string(), "C".to_string(), vec![], Some("Ctrl+3".to_string()), Ok(())).unwrap();
    assert_eq!(state.registered_shortcuts(), vec!["Ctrl+1".to_string(), "Ctrl+3".to_string()]);
}

#[test]
fn switch_failure_is_reported() {
    assert!(switch_outcome(Ok(())).is_ok());
    match switch_outcome(Err("device gone".to_string())) {
        Err(CommandError::SwitchFailed(reason)) => assert_eq!(reason, "device gone"),
        _ => panic!("expected a switch failure"),
    }
}

#[test]
fn error_messages() {
    assert_eq!(CommandError::GroupNotFound.message(), "Group not found");
    assert_eq!(CommandError::EmptyGroup.message(), "Group has no devices");
    assert_eq!(CommandError::NoOnlineDevices.message(), "No online devices in group");
    assert_eq!(CommandError::InvalidIndex.message(), "Invalid device index");
    assert_eq!(CommandError::DeviceOffline.message(), "Device is offline");
    assert_eq!(CommandError::ShortcutConflict("x".to_string()).message(), "x");
}

#[test]
fn cycle_group_goes_round_online_members() {
    let mut state = state_with("g", vec![dev("A"), dev("B"), dev("C"), dev("D"), dev("E")], 2);
    let online = ids(&["A", "C", "E"]);
    let mut seen = Vec::new();
    for _ in 0..3 {
        cycle_group(&mut state, &"g".to_string(), &online).unwrap();
        seen.push(state.groups[0].current_index);
    }
    assert_eq!(seen, vec![4, 0, 2]);
}
