//! The global hotkey that toggles muting: the text of the `hotkey` setting,
//! parsed by `global-hotkey`.
use vstd::prelude::*;

use global_hotkey::hotkey::{HotKey, HotKeyParseError};

use crate::config::{Config, DEFAULT_HOTKEY};

verus! {

#[verifier::external_type_specification]
#[verifier::external_body]
pub struct ExHotKey(HotKey);

#[verifier::external_type_specification]
#[verifier::external_body]
pub struct ExHotKeyParseError(HotKeyParseError);

/// What `global-hotkey` makes of a hotkey text: `None` when it refuses the
/// text; else the numeric code of the key, the modifier bits that the text
/// names on every platform (ALT `0x01` for `Alt`/`Option`, CONTROL `0x08`
/// for `Ctrl`/`Control`, META `0x40` for `Cmd`/`Command`/`Super`/`Meta`,
/// SHIFT `0x200` for `Shift`), and whether the text holds a
/// command-or-control alias (`CmdOrCtrl` and its spellings), which adds
/// META on macOS and CONTROL elsewhere. The grammar is long (over 200 key
/// names); the result depends on the text alone.
pub uninterp spec fn hotkey_text_parse(text: Seq<char>) -> Option<(u32, u32, bool)>;

/// A hotkey, with the numbers that identify it.
pub struct ParsedHotkey {
    pub hotkey: HotKey,
    /// The hotkey's id, which its events carry.
    pub id: u32,
    /// The numeric code of the key.
    pub key_code: u32,
    /// The bits of the modifiers.
    pub modifiers: u32,
}

/// What holds of a hotkey that `global-hotkey` parsed from `text`: its key
/// code and modifiers are those the text names (with CONTROL or META added
/// for a command-or-control alias), and its id is its modifier bits
/// shifted left by 16, or-ed with its key code.
pub open spec fn parsed_from(p: ParsedHotkey, text: Seq<char>) -> bool {
    match hotkey_text_parse(text) {
        Some((key_code, named, alias)) => {
            &&& p.key_code == key_code
            &&& if alias {
                p.modifiers == named | 0x08u32 || p.modifiers == named | 0x40u32
            } else {
                p.modifiers == named
            }
            &&& p.modifiers & !0x249u32 == 0
            &&& p.id == (p.modifiers << 16u32) | p.key_code
        },
        None => false,
    }
}

/// Whether the text holds a command-or-control alias.
pub open spec fn hotkey_text_has_alias(text: Seq<char>) -> bool {
    match hotkey_text_parse(text) {
        Some((_, _, alias)) => alias,
        None => false,
    }
}

/// Parses a hotkey by calling `global-hotkey`'s `HotKey::try_from(&str)`,
/// and reads the hotkey's `id()`, its key as a number and its modifier
/// bits. The contract claims: the parse succeeds exactly when
/// `hotkey_text_parse` gives a result; the key code is the one it names;
/// the modifier bits are the ones it names, plus CONTROL or META where the
/// text holds a command-or-control alias; no modifier bit other than ALT,
/// CONTROL, META and SHIFT is set (the parser sets only those); and the id
/// is the modifier bits shifted left by 16, or-ed with the key code (as
/// `HotKey::new` computes it). Which of CONTROL and META an alias adds
/// (it depends on the platform), and which error comes back, is left
/// unsaid.
#[verifier::external_body]
fn parse_hotkey(text: &str) -> (r: Result<ParsedHotkey, HotKeyParseError>)
    ensures
        r is Ok <==> hotkey_text_parse(text@) is Some,
        r matches Ok(p) ==> parsed_from(p, text@),
{
    let hotkey = HotKey::try_from(text)?;
    Ok(ParsedHotkey { hotkey, id: hotkey.id(), key_code: hotkey.key as u32, modifiers: hotkey.mods.bits() })
}

/// Why the configured hotkey could not be used.
pub enum HotkeyError {
    /// `global-hotkey` refused the text.
    Parse(HotKeyParseError),
}

/// The text of the hotkey setting, or the default where there is none.
pub open spec fn configured_hotkey_text(m: Map<Seq<char>, Seq<char>>) -> Seq<char> {
    if m.contains_key("hotkey"@) {
        m["hotkey"@]
    } else {
        DEFAULT_HOTKEY@
    }
}

/// The hotkey that the settings configure: the `hotkey` setting (or the
/// default), parsed by `global-hotkey`.
pub fn configured_hotkey(config: &Config) -> (r: Result<ParsedHotkey, HotkeyError>)
    ensures
        r is Ok <==> hotkey_text_parse(configured_hotkey_text(config@)) is Some,
        r matches Ok(p) ==> parsed_from(p, configured_hotkey_text(config@)),
{
    let text = match config.str_value("hotkey") {
        Some(text) => text,
        None => DEFAULT_HOTKEY,
    };
    match parse_hotkey(text) {
        Ok(parsed) => Ok(parsed),
        Err(e) => Err(HotkeyError::Parse(e)),
    }
}

/// The numbers of a hotkey are fixed by its text: two hotkeys parsed from
/// the same text, without a command-or-control alias, have the same key
/// code, modifier bits and id; with an alias they differ at most in which
/// of CONTROL and META the alias added.
pub proof fn lemma_parsed_hotkey_numbers_fixed(p: ParsedHotkey, q: ParsedHotkey, text: Seq<char>)
    requires
        parsed_from(p, text),
        parsed_from(q, text),
    ensures
        p.key_code == q.key_code,
        !hotkey_text_has_alias(text) ==> p.modifiers == q.modifiers && p.id == q.id,
        p.modifiers & 0x201u32 == q.modifiers & 0x201u32,
{
    let (k, d, a) = hotkey_text_parse(text)->0;
    assert((d | 0x08u32) & 0x201u32 == d & 0x201u32) by (bit_vector);
    assert((d | 0x40u32) & 0x201u32 == d & 0x201u32) by (bit_vector);
}

/// The id of a parsed hotkey carries its key code in the low 16 bits and
/// its modifier bits above them, when the key code fits in 16 bits.
pub proof fn lemma_parsed_hotkey_id_parts(p: ParsedHotkey, text: Seq<char>)
    requires
        parsed_from(p, text),
        p.key_code < 0x1_0000,
    ensures
        p.id & 0xFFFFu32 == p.key_code,
        p.id >> 16u32 == p.modifiers,
{
    let m = p.modifiers;
    let k = p.key_code;
    assert(m & !0x249u32 == 0 && k < 0x1_0000 ==> ((m << 16u32) | k) & 0xFFFFu32 == k && ((m
        << 16u32) | k) >> 16u32 == m) by (bit_vector);
}

} // verus!
