use soundboard::hotkey::{parse_hotkey, Hotkey, HotkeyError, Key, Modifier};

#[test]
fn hotkey_parse() {
    assert_eq!(
        parse_hotkey("CTRL-P").unwrap(),
        Hotkey {
            modifier: vec![Modifier::CTRL],
            key: Key::P
        }
    );
    assert_eq!(
        parse_hotkey("CTRL-SHIFT-P").unwrap(),
        Hotkey {
            modifier: vec![Modifier::CTRL, Modifier::SHIFT],
            key: Key::P
        }
    );
    assert_eq!(
        parse_hotkey("S").unwrap(),
        Hotkey {
            modifier: vec![],
            key: Key::S
        }
    );
    assert_eq!(
        parse_hotkey("ALT-BACKSPACE").unwrap(),
        Hotkey {
            modifier: vec![Modifier::ALT],
            key: Key::BACKSPACE
        }
    );
    assert_eq!(
        parse_hotkey("SHIFT-SUPER-A").unwrap(),
        Hotkey {
            modifier: vec![Modifier::SHIFT, Modifier::SUPER],
            key: Key::A
        }
    );
    assert_eq!(
        parse_hotkey("SUPER-ARROW_RIGHT").unwrap(),
        Hotkey {
            modifier: vec![Modifier::SUPER],
            key: Key::ARROW_RIGHT
        }
    );
    assert_eq!(
        parse_hotkey("SUPER-CTRL-SHIFT-ALT-9").unwrap(),
        Hotkey {
            modifier: vec![
                Modifier::SUPER,
                Modifier::CTRL,
                Modifier::SHIFT,
                Modifier::ALT
            ],
            key: Key::KEY_9
        }
    );
    assert_eq!(
        parse_hotkey("super-ctrl-SHIFT-alt-ARROW_Up").unwrap(),
        Hotkey {
            modifier: vec![
                Modifier::SUPER,
                Modifier::CTRL,
                Modifier::SHIFT,
                Modifier::ALT
            ],
            key: Key::ARROW_UP
        }
    );
    assert_eq!(
        parse_hotkey("5").unwrap(),
        Hotkey {
            modifier: vec![],
            key: Key::KEY_5
        }
    );
    assert_eq!(
        parse_hotkey("KEY_5").unwrap(),
        Hotkey {
            modifier: vec![],
            key: Key::KEY_5
        }
    );
    assert_eq!(
        parse_hotkey("5-5").unwrap_err().to_string(),
        "No valid hotkey match"
    );
    assert_eq!(
        parse_hotkey("CTRL-").unwrap_err().to_string(),
        "No valid hotkey match"
    );
    assert_eq!(
        parse_hotkey("").unwrap_err().to_string(),
        "No valid hotkey match"
    );
}

#[test]
fn hotkey_format_is_canonical() {
    let h = parse_hotkey("super-ctrl-SHIFT-alt-ARROW_Up").unwrap();
    assert_eq!(h.to_string(), "ALT-CTRL-SHIFT-SUPER-ARROW_UP");
    assert_eq!(parse_hotkey("ctrl-p").unwrap().to_string(), "CTRL-P");
    assert_eq!(parse_hotkey("5").unwrap().to_string(), "KEY_5");
    assert_eq!(parse_hotkey("tab").unwrap().to_string(), "TAB");
    assert_eq!(
        parse_hotkey("SHIFT-CTRL-P").unwrap().to_string(),
        parse_hotkey("CTRL-SHIFT-P").unwrap().to_string()
    );
    assert_eq!(
        parse_hotkey("SHIFT-SUPER-A").unwrap().canonical_modifiers(),
        vec![Modifier::SHIFT, Modifier::SUPER]
    );
}

#[test]
fn hotkey_round_trip_on_examples() {
    for text in [
        "CTRL-P",
        "shift-super-a",
        "SUPER-CTRL-SHIFT-ALT-9",
        "alt-page_down",
        "0",
        "Key_3",
    ] {
        let h = parse_hotkey(text).unwrap();
        let again = parse_hotkey(&h.to_string()).unwrap();
        assert_eq!(again.key, h.key);
        assert_eq!(again.modifier, h.canonical_modifiers());
        let mut a = again.modifier.clone();
        let mut b = h.modifier.clone();
        a.sort_by_key(|m| *m as u8);
        b.sort_by_key(|m| *m as u8);
        assert_eq!(a, b);
        assert_eq!(parse_hotkey(&again.to_string()).unwrap(), again);
    }
}

#[test]
fn hotkey_digit_zero_is_a_key() {
    assert_eq!(
        parse_hotkey("CTRL-0").unwrap(),
        Hotkey {
            modifier: vec![Modifier::CTRL],
            key: Key::KEY_0
        }
    );
}

#[test]
fn hotkey_repeated_modifier_is_refused() {
    assert_eq!(parse_hotkey("CTRL-CTRL-P"), Err(HotkeyError::NoValidHotkey));
    assert_eq!(parse_hotkey("ctrl-SHIFT-Ctrl-P"), Err(HotkeyError::NoValidHotkey));
}

#[test]
fn hotkey_shape_errors() {
    assert_eq!(parse_hotkey("CTRL-SHIFT-ALT-SUPER-CTRL-P"), Err(HotkeyError::NoValidHotkey));
    assert_eq!(parse_hotkey("-P"), Err(HotkeyError::NoValidHotkey));
    assert_eq!(parse_hotkey("CTRL--P"), Err(HotkeyError::NoValidHotkey));
    assert_eq!(parse_hotkey("CTRL-P Q"), Err(HotkeyError::NoValidHotkey));
    assert_eq!(parse_hotkey("A-B"), Err(HotkeyError::NoValidHotkey));
    assert_eq!(parse_hotkey("CTRL-é"), Err(HotkeyError::NoValidHotkey));
}

#[test]
fn hotkey_without_key_symbol() {
    assert_eq!(parse_hotkey("CTRL"), Err(HotkeyError::NoValidHotkey));
    assert_eq!(parse_hotkey("CTRL-SHIFT"), Err(HotkeyError::NoValidHotkey));
    assert_eq!(parse_hotkey("CTRL-W"), Err(HotkeyError::NoValidHotkey));
    assert_eq!(parse_hotkey("CTRL-12"), Err(HotkeyError::NoValidHotkey));
    assert_eq!(
        parse_hotkey("ALT-NOPE").unwrap_err().to_string(),
        "No valid hotkey match"
    );
}

#[test]
fn hotkey_letters_with_ascii_upper_case() {
    assert_eq!(
        parse_hotkey("\u{17f}hift-p").unwrap(),
        Hotkey {
            modifier: vec![Modifier::SHIFT],
            key: Key::P
        }
    );
    assert_eq!(
        parse_hotkey("ctrl-\u{131}").unwrap(),
        Hotkey {
            modifier: vec![Modifier::CTRL],
            key: Key::I
        }
    );
    assert_eq!(parse_hotkey("ctrl-\u{17f}").unwrap().key, Key::S);
    assert_eq!(parse_hotkey("SH\u{131}FT-P"), Err(HotkeyError::NoValidHotkey));
}

#[test]
fn key_and_modifier_names() {
    assert_eq!(Key::PRINT_SCREEN.name(), "PRINT_SCREEN");
    assert_eq!(Key::KEY_7.name(), "KEY_7");
    assert_eq!(Modifier::SUPER.name(), "SUPER");
}
