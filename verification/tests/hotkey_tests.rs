use global_hotkey::hotkey::{Code, HotKey, Modifiers};
use muteapp::config::Config;
use muteapp::hotkey::{HotkeyError, configured_hotkey};

#[test]
fn default_hotkey_is_ctrl_shift_f8() {
    let config = Config::load_or_create(None);
    let parsed = configured_hotkey(&config).ok().unwrap();
    let expected = HotKey::new(Some(Modifiers::CONTROL | Modifiers::SHIFT), Code::F8);
    assert_eq!(parsed.hotkey, expected);
    assert_eq!(parsed.id, expected.id());
    assert_eq!(parsed.key_code, Code::F8 as u32);
    assert_eq!(parsed.modifiers, (Modifiers::CONTROL | Modifiers::SHIFT).bits());
}

#[test]
fn configured_hotkey_is_parsed() {
    let config = Config::load_or_create(Some("hotkey = Alt+F1\n"));
    let parsed = configured_hotkey(&config).ok().unwrap();
    assert_eq!(parsed.hotkey, HotKey::new(Some(Modifiers::ALT), Code::F1));
    assert_eq!(parsed.key_code, Code::F1 as u32);
    assert_eq!(parsed.modifiers, 0x01);
    assert_eq!(parsed.id, (0x01 << 16) | Code::F1 as u32);
}

#[test]
fn bad_hotkey_is_refused() {
    for text in ["hotkey = Ctrl+\n", "hotkey = Ctrl+Nope\n", "hotkey = F1+Ctrl+A\n", "hotkey =\n"] {
        let config = Config::load_or_create(Some(text));
        assert!(matches!(configured_hotkey(&config), Err(HotkeyError::Parse(_))), "{text}");
    }
}
