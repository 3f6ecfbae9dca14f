use xsuspend::config::{ConfigError, XscreensaverSettings};

#[test]
fn parse_time_rightmost_field_is_ignored() {
    // The rightmost field is weighted sixty times zero, so "0:0:5" is zero.
    assert_eq!(
        XscreensaverSettings::parse_time("passwdTimeout: 0:0:5"),
        Ok(0)
    );
    assert_eq!(
        XscreensaverSettings::parse_time("passwdTimeout: 0:0:999"),
        Ok(0)
    );
}

#[test]
fn parse_time_weights_fields_from_the_right() {
    // Fields from the right: 00 * 0 + 10 * 60 + 0 * 120.
    assert_eq!(XscreensaverSettings::parse_time("dpmsOff: 0:10:00"), Ok(600));
    // 4 * 0 + 3 * 60 + 2 * 120.
    assert_eq!(XscreensaverSettings::parse_time("timeout: 2:3:4"), Ok(420));
}

#[test]
fn parse_time_single_field_is_zero() {
    assert_eq!(XscreensaverSettings::parse_time("x: 42"), Ok(0));
}

#[test]
fn parse_time_accepts_plus_signs() {
    // +3 * 0 + +5 * 60.
    assert_eq!(XscreensaverSettings::parse_time("x: +5:+3"), Ok(300));
}

#[test]
fn parse_time_without_colon_is_rejected() {
    assert_eq!(
        XscreensaverSettings::parse_time("nocolonhere"),
        Err(ConfigError::MissingColon)
    );
}

#[test]
fn parse_time_with_bad_field_is_rejected() {
    assert_eq!(
        XscreensaverSettings::parse_time("t: 1:a:3"),
        Err(ConfigError::InvalidNumber)
    );
    assert_eq!(
        XscreensaverSettings::parse_time("t: 1::2"),
        Err(ConfigError::InvalidNumber)
    );
    assert_eq!(
        XscreensaverSettings::parse_time("t:"),
        Err(ConfigError::InvalidNumber)
    );
    // A field too large for 64 bits is not a valid field.
    assert_eq!(
        XscreensaverSettings::parse_time("t: 0:99999999999999999999:0"),
        Err(ConfigError::InvalidNumber)
    );
}

#[test]
fn parse_time_overflowing_sum_is_rejected() {
    // The field itself fits in 64 bits, but its weighted term does not.
    assert_eq!(
        XscreensaverSettings::parse_time("t: 18446744073709551615:0:0"),
        Err(ConfigError::Overflow)
    );
}

#[test]
fn parse_bool_reads_after_the_last_colon() {
    assert_eq!(XscreensaverSettings::parse_bool("dpmsEnabled: true"), Ok(true));
    assert_eq!(XscreensaverSettings::parse_bool("a:b: True  "), Ok(true));
    assert_eq!(XscreensaverSettings::parse_bool("x:FALSE"), Ok(false));
}

#[test]
fn parse_bool_rejects_other_values() {
    assert_eq!(
        XscreensaverSettings::parse_bool("dpmsEnabled: yes"),
        Err(ConfigError::InvalidBool)
    );
    assert_eq!(
        XscreensaverSettings::parse_bool("true"),
        Err(ConfigError::MissingColon)
    );
}

#[test]
fn load_reads_all_three_keys() {
    let text = "junk line\ndpmsEnabled: true\ndpmsOff: 0:10:00\npasswdTimeout: 0:0:30\n";
    let s = XscreensaverSettings::load(text).unwrap();
    assert!(s.dpms_enabled);
    assert_eq!(s.dpms_off, 600);
    assert_eq!(s.password_timeout, 0);
}

#[test]
fn load_missing_keys_stay_at_zero_values() {
    let s = XscreensaverSettings::load("some: other\nlines: here\n").unwrap();
    assert!(!s.dpms_enabled);
    assert_eq!(s.dpms_off, 0);
    assert_eq!(s.password_timeout, 0);
}

#[test]
fn load_later_lines_override_earlier_ones() {
    let text = "dpmsOff: 0:1:0\ndpmsOff: 0:2:0\n";
    let s = XscreensaverSettings::load(text).unwrap();
    assert_eq!(s.dpms_off, 120);
}

#[test]
fn load_matches_keys_as_substrings() {
    // The key name may sit inside a longer token and still match.
    let s = XscreensaverSettings::load("xxdpmsOffyy: 0:1:0\n").unwrap();
    assert_eq!(s.dpms_off, 60);
}

#[test]
fn load_checks_the_enabled_key_first() {
    // A line holding both key names is parsed as the enabled flag.
    let s = XscreensaverSettings::load("dpmsEnabled dpmsOff: true\n").unwrap();
    assert!(s.dpms_enabled);
    assert_eq!(s.dpms_off, 0);
}

#[test]
fn load_propagates_the_first_bad_line() {
    let text = "dpmsEnabled: maybe\ndpmsOff: 0:1:0\n";
    assert_eq!(
        XscreensaverSettings::load(text),
        Err(ConfigError::InvalidBool)
    );
}

#[test]
fn load_handles_crlf_line_endings() {
    let text = "dpmsEnabled: true\r\ndpmsOff: 0:1:0\r\n";
    let s = XscreensaverSettings::load(text).unwrap();
    assert!(s.dpms_enabled);
    assert_eq!(s.dpms_off, 60);
}

#[test]
fn load_of_empty_text_gives_the_zero_settings() {
    let s = XscreensaverSettings::load("").unwrap();
    assert!(!s.dpms_enabled);
    assert_eq!(s.dpms_off, 0);
    assert_eq!(s.password_timeout, 0);
}
