use muteapp::config::{
    Config, DEFAULT_HOTKEY, DEFAULT_INDICATOR_DURATION, DEFAULT_INDICATOR_FOREGROUND_TRANSPARENCY,
    DEFAULT_INDICATOR_SIZE, DEFAULT_INDICATOR_TRANSPARENCY,
};

const DEFAULT_FILE: &str = "hotkey = Ctrl+Shift+F8\nhotkeyRepeat = 0\nindicatorDuration = 1000\nindicatorForegroundTransparency = 255\nindicatorSize = 240\nindicatorTransparency = 200\n";

#[test]
fn missing_file_gives_defaults() {
    let config = Config::load_or_create(None);
    assert_eq!(config.str_value("hotkey"), Some(DEFAULT_HOTKEY));
    assert_eq!(config.int_value("hotkeyRepeat"), Some(0));
    assert_eq!(config.int_value("indicatorDuration"), Some(DEFAULT_INDICATOR_DURATION));
    assert_eq!(config.int_value("indicatorSize"), Some(DEFAULT_INDICATOR_SIZE));
    assert_eq!(config.int_value("indicatorTransparency"), Some(DEFAULT_INDICATOR_TRANSPARENCY));
    assert_eq!(
        config.int_value("indicatorForegroundTransparency"),
        Some(DEFAULT_INDICATOR_FOREGROUND_TRANSPARENCY)
    );
    assert_eq!(config.str_value("nosuchkey"), None);
    assert_eq!(config.int_value("nosuchkey"), None);
}

#[test]
fn default_file_is_written_in_key_order() {
    let config = Config::load_or_create(None);
    assert_eq!(config.file_text(), DEFAULT_FILE);
}

#[test]
fn empty_file_gives_defaults() {
    let config = Config::load_or_create(Some(""));
    assert_eq!(config.file_text(), DEFAULT_FILE);
}

#[test]
fn file_values_override_defaults() {
    let config = Config::load_or_create(Some("hotkey = Alt+F1\nindicatorSize=300\n"));
    assert_eq!(config.str_value("hotkey"), Some("Alt+F1"));
    assert_eq!(config.int_value("indicatorSize"), Some(300));
    assert_eq!(config.int_value("indicatorDuration"), Some(1000));
}

#[test]
fn lines_are_split_trimmed_and_overridden() {
    let text = "  hotkey = Alt+F1  \r\nindicatorSize=300\n=novalue\nnoequals\n  \n  \t = blank\nindicatorSize = 100\nfoo= a=b \r";
    let config = Config::load_or_create(Some(text));
    // Trailing spaces of a value stay; the "\r" before "\n" is dropped.
    assert_eq!(config.str_value("hotkey"), Some("Alt+F1  "));
    // A later line overrides an earlier one.
    assert_eq!(config.int_value("indicatorSize"), Some(100));
    // Only the first '=' splits; a bare "\r" at the very end stays.
    assert_eq!(config.str_value("foo"), Some("a=b \r"));
    assert_eq!(config.str_value(""), None);
    assert_eq!(config.str_value("noequals"), None);
}

#[test]
fn keys_are_trimmed_and_values_lose_leading_whitespace() {
    let config = Config::load_or_create(Some("\u{3000} spaced key \t=\u{A0}  value with spaces  "));
    assert_eq!(config.str_value("spaced key"), Some("value with spaces  "));
}

#[test]
fn file_is_written_sorted_with_unusual_keys() {
    let config = Config::load_or_create(Some("zeta = 1\nAlpha = 2\nhotkey = X\n"));
    assert_eq!(
        config.file_text(),
        "Alpha = 2\nhotkey = X\nhotkeyRepeat = 0\nindicatorDuration = 1000\nindicatorForegroundTransparency = 255\nindicatorSize = 240\nindicatorTransparency = 200\nzeta = 1\n"
    );
}

#[test]
fn written_file_reads_back() {
    let config = Config::load_or_create(Some("b = 2\na = 1\n  c = three  \nhotkey=Ctrl+F9\n"));
    let text = config.file_text();
    let again = Config::load_or_create(Some(&text));
    assert_eq!(again.file_text(), text);
    assert_eq!(again.str_value("c"), Some("three  "));
    assert_eq!(again.str_value("hotkey"), Some("Ctrl+F9"));
}

#[test]
fn bare_carriage_return_is_lost_on_rewrite() {
    let config = Config::load_or_create(Some("hotkey = Alt+F2\r"));
    assert_eq!(config.str_value("hotkey"), Some("Alt+F2\r"));
    let again = Config::load_or_create(Some(&config.file_text()));
    assert_eq!(again.str_value("hotkey"), Some("Alt+F2"));
}

#[test]
fn load_adds_to_existing_settings() {
    let mut config = Config::load_or_create(None);
    config.load("indicatorDuration = 0\nextra = yes");
    assert_eq!(config.int_value("indicatorDuration"), Some(0));
    assert_eq!(config.str_value("extra"), Some("yes"));
    assert_eq!(config.str_value("hotkey"), Some("Ctrl+Shift+F8"));
}

#[test]
fn set_default_keeps_existing_values() {
    let mut config = Config::load_or_create(Some("hotkey = Alt+F1\n"));
    config.set_default("hotkey", String::from("ignored"));
    config.set_default("newKey", String::from("fresh"));
    assert_eq!(config.str_value("hotkey"), Some("Alt+F1"));
    assert_eq!(config.str_value("newKey"), Some("fresh"));
}

#[test]
fn int_values_follow_i32_parsing() {
    let text = "a = +12\nb = -0\nc = abc\nd = 2147483647\ne = 2147483648\nf = -2147483648\ng = -2147483649\nh = +\ni = \nj = 5 \nk = +-1\nl = 007\n";
    let config = Config::load_or_create(Some(text));
    assert_eq!(config.int_value("a"), Some(12));
    assert_eq!(config.int_value("b"), Some(0));
    assert_eq!(config.int_value("c"), None);
    assert_eq!(config.int_value("d"), Some(i32::MAX));
    assert_eq!(config.int_value("e"), None);
    assert_eq!(config.int_value("f"), Some(i32::MIN));
    assert_eq!(config.int_value("g"), None);
    assert_eq!(config.int_value("h"), None);
    assert_eq!(config.int_value("i"), None);
    assert_eq!(config.int_value("j"), None);
    assert_eq!(config.int_value("k"), None);
    assert_eq!(config.int_value("l"), Some(7));
}

#[test]
fn same_settings_are_written_alike() {
    let a = Config::load_or_create(Some("b = 2\na = 1\n"));
    let b = Config::load_or_create(Some("a = 1\r\n  b=2"));
    assert_eq!(a.file_text(), b.file_text());
}
