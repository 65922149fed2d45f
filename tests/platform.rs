use global_hotkey::hotkey::HotKey;
use soundshift::commands::create_group;
use soundshift::commands::delete_group;
use soundshift::platform::get_audio_devices;
use soundshift::platform::set_default_device;
use soundshift::shortcuts::find_code;
use soundshift::state::AppState;
use soundshift::state::CommandError;
use soundshift::state::GroupDevice;

fn dev(id: &str) -> GroupDevice {
    GroupDevice { id: id.to_string(), name: id.to_string() }
}

fn code(text: &str) -> u32 {
    text.parse::<HotKey>().unwrap().id()
}

#[test]
fn enumeration_unsupported_here() {
    let r = get_audio_devices();
    assert_eq!(r.unwrap_err(), "Audio device enumeration is only supported on Windows");
}

#[test]
fn switch_unsupported_here() {
    let r = set_default_device("abc");
    assert_eq!(r.unwrap_err(), "Setting default audio device is only supported on Windows");
}

#[test]
fn fresh_ids_are_unused_uuids() {
    let mut state = AppState::new();
    let id = state.fresh_group_id().unwrap();
    assert_eq!(id.len(), 36);
    assert_eq!(id.matches('-').count(), 4);
    create_group(&mut state, id.clone(), "A".to_string(), vec![], None, Ok(())).unwrap();
    let other = state.fresh_group_id().unwrap();
    assert_ne!(other, id);
}

#[test]
fn find_code_takes_first_match() {
    let codes = vec![None, Some(7), Some(9), Some(7)];
    assert_eq!(find_code(&codes, 7), Some(1));
    assert_eq!(find_code(&codes, 9), Some(2));
    assert_eq!(find_code(&codes, 8), None);
}

#[test]
fn shortcut_codes_compare_parsed_forms() {
    let mut state = AppState::new();
    create_group(&mut state, "g1".to_string(), "A".to_string(), vec![], Some("Ctrl+Alt+1".to_string()), Ok(())).unwrap();
    create_group(&mut state, "g2".to_string(), "B".to_string(), vec![], None, Ok(())).unwrap();
    create_group(&mut state, "g3".to_string(), "C".to_string(), vec![], Some("not a shortcut+".to_string()), Ok(())).unwrap();
    let codes = state.shortcut_codes();
    assert_eq!(codes, vec![Some(code("control+alt+Digit1")), None, None]);
}

#[test]
fn fired_shortcut_cycles_its_group() {
    let mut state = AppState::new();
    create_group(&mut state, "g1".to_string(), "A".to_string(), vec![dev("A"), dev("B")], Some("Ctrl+Alt+1".to_string()), Ok(())).unwrap();
    create_group(&mut state, "g2".to_string(), "B".to_string(), vec![dev("C"), dev("D")], Some("Shift+2".to_string()), Ok(())).unwrap();
    let online = vec!["A".to_string(), "B".to_string(), "C".to_string(), "D".to_string()];
    let d = state.cycle_by_shortcut(code("shift+Digit2"), &online).unwrap();
    assert_eq!(d.id, "D");
    assert_eq!(state.groups[1].current_index, 1);
    assert_eq!(state.groups[0].current_index, 0);
}

#[test]
fn deleted_group_no_longer_answers_its_shortcut() {
    let mut state = AppState::new();
    create_group(&mut state, "g1".to_string(), "A".to_string(), vec![dev("A"), dev("B")], Some("Ctrl+Alt+1".to_string()), Ok(())).unwrap();
    delete_group(&mut state, &"g1".to_string()).unwrap();
    let online = vec!["A".to_string(), "B".to_string()];
    let r = state.cycle_by_shortcut(code("Ctrl+Alt+1"), &online);
    assert!(matches!(r, Err(CommandError::GroupNotFound)));
}
