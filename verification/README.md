# muteapp

Mute or unmute the focused application with a global hotkey.

The crate is split in two:

- `src/` is the verified library (Verus): the settings file (`config`),
  the character-level text handling it rests on (`text`), the decisions of
  the mute toggle (`audio`) and of the message loop (`events`), and the
  pixel arithmetic and settings of the on-screen indicator (`indicator`).
  Each public function states what it returns over mathematical models,
  and the library proves laws such as "the settings file that is written is
  read back as the same settings".
- `app/` is the Windows program around it: COM audio sessions, the tray
  icon, the global hotkey, the layered overlay window and its fade
  animation (which works in floating point), and SVG rendering with
  `resvg`. It reads and writes the files and hands plain values to the
  library.

The settings are held as a `Vec` of entries kept in strictly increasing
key order, with that order and the absence of duplicate keys as the type's
invariant (`Config::wf`, kept by a `#[verifier::type_invariant]`). This gives what a `BTreeMap<String, String>`
gives (one value per key, iteration in key order), in a form whose
contents Verus can reason about: vstd's `BTreeMap` specification rests on
the key type's `Ord` obeying vstd's comparison laws, and `String` is not
given those laws, so nothing about lookups or iteration order could be
proved with `String` keys.

The hotkey is parsed by `global-hotkey` behind one trusted wrapper
(`hotkey::parse_hotkey`). `configured_hotkey` parses the `hotkey` setting,
or the default where there is none; its contract ties the result to that
text through the name `hotkey_text_parse`: whether the parse succeeds, the
key code, the SHIFT and ALT bits, and how the id is made from the key and
modifier bits. Which of CONTROL and META a `CmdOrCtrl` alias sets differs
between macOS and other systems and is left unsaid.

`Config` keeps its ordering invariant as a type invariant, so callers need
no precondition.

`app/indicator.rs` embeds the SVG icons from `app/assets/`
(`volume-2.svg`, `volume-x.svg`, `indicator-background-2.svg`,
`indicator-background-x.svg`).
