use soundboard::config::{Config, SoundConfig};
use soundboard::hotkey::{parse_hotkey, HotkeyError};
use soundboard::registry::{register_hotkeys, HotkeyManager, HotkeySetupError, RegistrationError};

fn sound(name: &str, hotkey: Option<&str>) -> SoundConfig {
    SoundConfig {
        name: name.to_string(),
        path: format!("{}.mp3", name),
        hotkey: hotkey.map(|h| h.to_string()),
    }
}

#[test]
fn same_combination_twice_is_duplicate() {
    let mut m = HotkeyManager::new();
    let a = parse_hotkey("CTRL-SHIFT-P").unwrap();
    let b = parse_hotkey("shift-ctrl-p").unwrap();
    assert_eq!(m.register(&a), Ok(0));
    assert_eq!(m.register(&b), Err(RegistrationError::DuplicateBinding));
    assert_eq!(m.register(&a), Err(RegistrationError::DuplicateBinding));
    assert_eq!(m.bindings.len(), 1);
}

#[test]
fn different_combinations_coexist() {
    let mut m = HotkeyManager::new();
    assert_eq!(m.register(&parse_hotkey("CTRL-P").unwrap()), Ok(0));
    assert_eq!(m.register(&parse_hotkey("CTRL-SHIFT-P").unwrap()), Ok(1));
    assert_eq!(m.register(&parse_hotkey("P").unwrap()), Ok(2));
    assert_eq!(m.register(&parse_hotkey("CTRL-Q").unwrap()), Ok(3));
    assert_eq!(m.bindings.len(), 4);
}

#[test]
fn unregister_frees_the_combination() {
    let mut m = HotkeyManager::new();
    let s = parse_hotkey("CTRL-S").unwrap();
    let id = m.register(&s).unwrap();
    assert!(m.unregister(id));
    assert!(!m.unregister(id));
    assert_eq!(m.register(&s), Ok(1));
}

#[test]
fn startup_uses_default_stop_hotkey_and_skips_taken_clips() {
    let config = Config {
        sounds: Some(vec![
            sound("a", Some("ctrl-s")),
            sound("b", Some("ALT-1")),
            sound("c", None),
            sound("f", Some("alt-1")),
            sound("g", Some("SHIFT-B")),
        ]),
        ..Config::default()
    };
    let mut m = HotkeyManager::new();
    let r = register_hotkeys(&config, &mut m).unwrap();
    assert_eq!(r, vec![(0, None), (1, Some(1)), (2, Some(4))]);
    assert_eq!(m.bindings.len(), 3);
    assert_eq!(m.register(&parse_hotkey("CTRL-S").unwrap()), Err(RegistrationError::DuplicateBinding));
}

#[test]
fn startup_fails_on_malformed_clip_hotkey() {
    let config = Config {
        sounds: Some(vec![
            sound("a", Some("ALT-1")),
            sound("b", None),
            sound("c", Some("CTRL-")),
            sound("d", Some("SHIFT-B")),
        ]),
        ..Config::default()
    };
    let mut m = HotkeyManager::new();
    assert_eq!(
        register_hotkeys(&config, &mut m),
        Err(HotkeySetupError::InvalidClipHotkey(2, HotkeyError::NoValidHotkey))
    );
    assert_eq!(m.bindings.len(), 2);
    assert_eq!(m.next_id, 2);
    let config = Config {
        sounds: Some(vec![sound("e", Some("1-ALT"))]),
        ..Config::default()
    };
    let mut m = HotkeyManager::new();
    assert_eq!(
        register_hotkeys(&config, &mut m),
        Err(HotkeySetupError::InvalidClipHotkey(0, HotkeyError::NoValidHotkey))
    );
}

#[test]
fn startup_uses_configured_stop_hotkey() {
    let config = Config {
        stop_hotkey: Some("shift-alt-x".to_string()),
        sounds: Some(vec![sound("a", Some("CTRL-S"))]),
        ..Config::default()
    };
    let mut m = HotkeyManager::new();
    assert_eq!(register_hotkeys(&config, &mut m), Ok(vec![(0, None), (1, Some(0))]));
}

#[test]
fn startup_fails_on_bad_stop_hotkey() {
    let config = Config {
        stop_hotkey: Some("CTRL-".to_string()),
        sounds: Some(vec![sound("a", Some("CTRL-P"))]),
        ..Config::default()
    };
    let mut m = HotkeyManager::new();
    assert_eq!(
        register_hotkeys(&config, &mut m),
        Err(HotkeySetupError::InvalidStopHotkey(HotkeyError::NoValidHotkey))
    );
    assert_eq!(m.bindings.len(), 0);
    assert_eq!(m.next_id, 0);
}

#[test]
fn startup_fails_when_stop_hotkey_is_taken() {
    let mut m = HotkeyManager::new();
    m.register(&parse_hotkey("CTRL-S").unwrap()).unwrap();
    let config = Config::default();
    assert_eq!(
        register_hotkeys(&config, &mut m),
        Err(HotkeySetupError::StopHotkeyRefused(RegistrationError::DuplicateBinding))
    );
    assert_eq!(m.bindings.len(), 1);
}
