use soundboard::config::{parse_devices, parse_index, select_device, Config, ConfigError};

fn config_with(input: Option<usize>, output: Option<usize>, lp: Option<usize>) -> Config {
    Config {
        input_device: input,
        output_device: output,
        loopback_device: lp,
        stop_hotkey: None,
        sounds: None,
    }
}

#[test]
fn device_index_text() {
    assert_eq!(parse_index("0"), Some(0));
    assert_eq!(parse_index("42"), Some(42));
    assert_eq!(parse_index("007"), Some(7));
    assert_eq!(parse_index(""), None);
    assert_eq!(parse_index("4x"), None);
    assert_eq!(parse_index("-1"), None);
    assert_eq!(parse_index("+5"), Some(5));
    assert_eq!(parse_index("+"), None);
    assert_eq!(parse_index("++5"), None);
    assert_eq!(parse_index("5+"), None);
    assert_eq!(parse_index(&usize::MAX.to_string()), Some(usize::MAX));
    assert_eq!(parse_index(&format!("{}0", usize::MAX)), None);
}

#[test]
fn devices_from_file() {
    let c = config_with(Some(1), Some(2), Some(3));
    assert_eq!(parse_devices(&c, None, None, None), Ok((Some(1), Some(2), 3)));
    let c = config_with(None, None, Some(4));
    assert_eq!(parse_devices(&c, None, None, None), Ok((None, None, 4)));
}

#[test]
fn command_line_overrides_file() {
    let c = config_with(Some(1), Some(2), Some(3));
    assert_eq!(
        parse_devices(&c, Some("7"), None, Some("9")),
        Ok((Some(7), Some(2), 9))
    );
    let c = config_with(None, None, None);
    assert_eq!(parse_devices(&c, None, Some("5"), Some("0")), Ok((None, Some(5), 0)));
    assert_eq!(parse_devices(&c, None, None, Some("+5")), Ok((None, None, 5)));
}

#[test]
fn missing_loopback_is_refused() {
    let c = config_with(Some(1), Some(2), None);
    assert_eq!(parse_devices(&c, None, None, None), Err(ConfigError::NoLoopbackDevice));
    assert_eq!(Config::default().loopback_device, None);
}

#[test]
fn bad_device_number_is_refused() {
    let c = config_with(None, None, Some(3));
    assert_eq!(parse_devices(&c, Some("one"), None, None), Err(ConfigError::NotANumber));
    assert_eq!(parse_devices(&c, None, Some(""), None), Err(ConfigError::NotANumber));
    assert_eq!(parse_devices(&c, None, None, Some("3a")), Err(ConfigError::NotANumber));
}

#[test]
fn out_of_range_device_is_refused() {
    assert_eq!(select_device(2, 3), Ok(2));
    assert_eq!(select_device(3, 3), Err(ConfigError::DeviceOutOfRange));
    assert_eq!(select_device(0, 0), Err(ConfigError::DeviceOutOfRange));
}
