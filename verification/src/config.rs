//! The settings file: `key = value` lines, read into a map from keys to
//! values, completed with defaults, and written back in key order.
use vstd::prelude::*;
use vstd::string::StringExecFns;

use crate::text::{
    chars_of, decimal_text, find_char, first_index, format_i32, is_digit, is_whitespace,
    lemma_first_index, lemma_natural_digits, lines_of, parse_i32, parse_i32_text, push_char,
    push_chars, skip_leading_whitespace, skip_trailing_whitespace, split_once, string_from,
    strip_carriage_return, trim, trim_end, trim_start,
};

verus! {

pub const DEFAULT_HOTKEY: &'static str = "Ctrl+Shift+F8";

pub const DEFAULT_HOTKEY_REPEAT: i32 = 0;

pub const DEFAULT_INDICATOR_DURATION: i32 = 1000;

pub const DEFAULT_INDICATOR_SIZE: i32 = 240;

pub const DEFAULT_INDICATOR_TRANSPARENCY: i32 = 200;

pub const DEFAULT_INDICATOR_FOREGROUND_TRANSPARENCY: i32 = 255;

// ---------------------------------------------------------------------------
// Key order
// ---------------------------------------------------------------------------

/// Lexicographic order on keys, character by character (the order of
/// `String`'s `Ord`, since UTF-8 preserves the order of code points).
pub open spec fn key_lt(a: Seq<char>, b: Seq<char>) -> bool
    decreases a.len(),
{
    if b.len() == 0 {
        false
    } else if a.len() == 0 {
        true
    } else if a[0] != b[0] {
        a[0] < b[0]
    } else {
        key_lt(a.drop_first(), b.drop_first())
    }
}

/// No key is below itself.
pub proof fn lemma_key_lt_irreflexive(a: Seq<char>)
    ensures
        !key_lt(a, a),
    decreases a.len(),
{
    if a.len() > 0 {
        lemma_key_lt_irreflexive(a.drop_first());
    }
}

/// The key order is transitive.
pub proof fn lemma_key_lt_transitive(a: Seq<char>, b: Seq<char>, c: Seq<char>)
    requires
        key_lt(a, b),
        key_lt(b, c),
    ensures
        key_lt(a, c),
    decreases a.len(),
{
    if a.len() > 0 && a[0] == b[0] && b[0] == c[0] {
        lemma_key_lt_transitive(a.drop_first(), b.drop_first(), c.drop_first());
    }
}

/// Of two different keys, one is below the other.
pub proof fn lemma_key_lt_total(a: Seq<char>, b: Seq<char>)
    requires
        a != b,
    ensures
        key_lt(a, b) || key_lt(b, a),
    decreases a.len(),
{
    if a.len() == 0 && b.len() == 0 {
        assert(a =~= b);
    } else if a.len() > 0 && b.len() > 0 && a[0] == b[0] {
        if a.drop_first() == b.drop_first() {
            assert(a =~= seq![a[0]] + a.drop_first());
            assert(b =~= seq![b[0]] + b.drop_first());
        }
        lemma_key_lt_total(a.drop_first(), b.drop_first());
    }
}

/// The outcome of comparing two keys.
pub enum KeyOrder {
    Less,
    Equal,
    Greater,
}

/// Compares two keys in the order `key_lt`.
pub fn compare_keys(a: &Vec<char>, b: &Vec<char>) -> (r: KeyOrder)
    ensures
        r is Less <==> key_lt(a@, b@),
        r is Equal <==> a@ == b@,
        r is Greater <==> key_lt(b@, a@),
{
    proof {
        lemma_key_lt_irreflexive(a@);
        if a@ != b@ {
            lemma_key_lt_total(a@, b@);
            if key_lt(a@, b@) && key_lt(b@, a@) {
                lemma_key_lt_transitive(a@, b@, a@);
            }
        }
    }
    assert(a@.skip(0) =~= a@);
    assert(b@.skip(0) =~= b@);
    let mut i: usize = 0;
    while i < a.len() && i < b.len() && a[i] == b[i]
        invariant
            i <= a.len(),
            i <= b.len(),
            key_lt(a@, b@) == key_lt(a@.skip(i as int), b@.skip(i as int)),
            key_lt(b@, a@) == key_lt(b@.skip(i as int), a@.skip(i as int)),
            (a@ == b@) == (a@.skip(i as int) == b@.skip(i as int)),
        decreases a.len() - i,
    {
        let ghost sa = a@.skip(i as int);
        let ghost sb = b@.skip(i as int);
        assert(sa.drop_first() =~= a@.skip(i + 1));
        assert(sb.drop_first() =~= b@.skip(i + 1));
        assert(sa =~= seq![sa[0]] + sa.drop_first());
        assert(sb =~= seq![sb[0]] + sb.drop_first());
        i += 1;
    }
    let ghost sa = a@.skip(i as int);
    let ghost sb = b@.skip(i as int);
    if i == a.len() && i == b.len() {
        assert(sa =~= sb);
        KeyOrder::Equal
    } else if i == a.len() {
        assert(sa.len() == 0 && sb.len() > 0);
        KeyOrder::Less
    } else if i == b.len() {
        assert(sb.len() == 0 && sa.len() > 0);
        KeyOrder::Greater
    } else if a[i] < b[i] {
        assert(sa[0] == a@[i as int] && sb[0] == b@[i as int]);
        KeyOrder::Less
    } else {
        assert(sa[0] == a@[i as int] && sb[0] == b@[i as int]);
        KeyOrder::Greater
    }
}

// ---------------------------------------------------------------------------
// Entries and the map they stand for
// ---------------------------------------------------------------------------

/// Keys in strictly increasing order.
pub open spec fn sorted_keys(es: Seq<(Seq<char>, Seq<char>)>) -> bool {
    forall|i: int, j: int| #![trigger es[i], es[j]] 0 <= i < j < es.len() ==> key_lt(es[i].0, es[j].0)
}

/// The map from keys to values that a list of entries with distinct keys
/// stands for.
pub open spec fn entries_map(es: Seq<(Seq<char>, Seq<char>)>) -> Map<Seq<char>, Seq<char>> {
    Map::new(
        |k: Seq<char>| exists|i: int| 0 <= i < es.len() && es[i].0 == k,
        |k: Seq<char>| es[entry_index(es, k)].1,
    )
}

/// The position of an entry whose key is `k`.
pub open spec fn entry_index(es: Seq<(Seq<char>, Seq<char>)>, k: Seq<char>) -> int {
    choose|j: int| 0 <= j < es.len() && es[j].0 == k
}

/// Entries at different positions of a sorted list have different keys.
pub proof fn lemma_sorted_distinct(es: Seq<(Seq<char>, Seq<char>)>, a: int, b: int)
    requires
        sorted_keys(es),
        0 <= a < es.len(),
        0 <= b < es.len(),
        a != b,
    ensures
        es[a].0 != es[b].0,
{
    lemma_key_lt_irreflexive(es[a].0);
    if a < b {
        assert(key_lt(es[a].0, es[b].0));
    } else {
        assert(key_lt(es[b].0, es[a].0));
    }
}

/// Each entry of a sorted list is found in its map.
pub proof fn lemma_entries_map_lookup(es: Seq<(Seq<char>, Seq<char>)>, i: int)
    requires
        sorted_keys(es),
        0 <= i < es.len(),
    ensures
        entries_map(es).contains_key(es[i].0),
        entries_map(es)[es[i].0] == es[i].1,
{
    let k = es[i].0;
    assert(es[i].0 == k);
    assert(entries_map(es).dom().contains(k));
    let j = entry_index(es, k);
    if j != i {
        lemma_sorted_distinct(es, i, j);
    }
}

/// A key that no entry has is not in the map.
pub proof fn lemma_entries_map_absent(es: Seq<(Seq<char>, Seq<char>)>, k: Seq<char>)
    requires
        forall|j: int| 0 <= j < es.len() ==> es[j].0 != k,
    ensures
        !entries_map(es).contains_key(k),
{
}

/// One entry of the settings: a key and its value.
#[derive(Debug)]
struct ConfigEntry {
    key: Vec<char>,
    value: String,
}

/// Entries in strictly increasing key order, with the operations on them.
#[derive(Debug)]
struct EntryList {
    entries: Vec<ConfigEntry>,
}

impl EntryList {
    /// The entries, in the order in which they are held and written.
    closed spec fn entries(&self) -> Seq<(Seq<char>, Seq<char>)> {
        self.entries@.map_values(|e: ConfigEntry| (e.key@, e.value@))
    }

    /// The entries are held in strictly increasing key order.
    spec fn wf(&self) -> bool {
        sorted_keys(self.entries())
    }
}

impl View for EntryList {
    type V = Map<Seq<char>, Seq<char>>;

    closed spec fn view(&self) -> Map<Seq<char>, Seq<char>> {
        entries_map(self.entries())
    }
}

// ---------------------------------------------------------------------------
// Reading the settings file
// ---------------------------------------------------------------------------

/// The entry that one line of the settings file gives: the line is split at
/// its first `=`, the key is trimmed and must not be empty, and the value
/// loses its leading whitespace.
pub open spec fn line_entry(line: Seq<char>) -> Option<(Seq<char>, Seq<char>)> {
    match split_once(line, '=') {
        Some((k, v)) => if trim(k).len() == 0 {
            None
        } else {
            Some((trim(k), trim_start(v)))
        },
        None => None,
    }
}

/// The settings after one line of the file is read: a later line overrides
/// what an earlier one set.
pub open spec fn apply_line(m: Map<Seq<char>, Seq<char>>, line: Seq<char>) -> Map<
    Seq<char>,
    Seq<char>,
> {
    match line_entry(line) {
        Some((k, v)) => m.insert(k, v),
        None => m,
    }
}

/// The settings after the lines are read in order.
pub open spec fn apply_lines(m: Map<Seq<char>, Seq<char>>, ls: Seq<Seq<char>>) -> Map<
    Seq<char>,
    Seq<char>,
>
    decreases ls.len(),
{
    if ls.len() == 0 {
        m
    } else {
        apply_line(apply_lines(m, ls.drop_last()), ls.last())
    }
}

/// The settings that a file's text gives, read on top of `m`.
pub open spec fn parse_config_text(m: Map<Seq<char>, Seq<char>>, text: Seq<char>) -> Map<
    Seq<char>,
    Seq<char>,
> {
    apply_lines(m, lines_of(text))
}

/// The default of each setting, in the order in which they are filled in.
pub open spec fn default_settings() -> Seq<(Seq<char>, Seq<char>)> {
    seq![
        ("hotkey"@, DEFAULT_HOTKEY@),
        ("hotkeyRepeat"@, decimal_text(DEFAULT_HOTKEY_REPEAT as int)),
        ("indicatorDuration"@, decimal_text(DEFAULT_INDICATOR_DURATION as int)),
        ("indicatorSize"@, decimal_text(DEFAULT_INDICATOR_SIZE as int)),
        ("indicatorTransparency"@, decimal_text(DEFAULT_INDICATOR_TRANSPARENCY as int)),
        ("indicatorForegroundTransparency"@, decimal_text(DEFAULT_INDICATOR_FOREGROUND_TRANSPARENCY as int)),
    ]
}

/// `m` with `(k, v)` added unless `k` already has a value.
pub open spec fn with_default(m: Map<Seq<char>, Seq<char>>, d: (Seq<char>, Seq<char>)) -> Map<
    Seq<char>,
    Seq<char>,
> {
    if m.contains_key(d.0) {
        m
    } else {
        m.insert(d.0, d.1)
    }
}

/// `m` with each default filled in where its key has no value.
pub open spec fn with_defaults(m: Map<Seq<char>, Seq<char>>, ds: Seq<(Seq<char>, Seq<char>)>) -> Map<
    Seq<char>,
    Seq<char>,
>
    decreases ds.len(),
{
    if ds.len() == 0 {
        m
    } else {
        with_default(with_defaults(m, ds.drop_last()), ds.last())
    }
}

/// The settings that starting up gives: those of the file, if it could be
/// read, completed with the defaults.
pub open spec fn startup_settings(existing: Option<Seq<char>>) -> Map<Seq<char>, Seq<char>> {
    let read = match existing {
        Some(text) => parse_config_text(Map::empty(), text),
        None => Map::empty(),
    };
    with_defaults(read, default_settings())
}

// ---------------------------------------------------------------------------
// Writing the settings file
// ---------------------------------------------------------------------------

/// How one entry is written, without its line feed.
pub open spec fn entry_line(e: (Seq<char>, Seq<char>)) -> Seq<char> {
    e.0 + seq![' ', '=', ' '] + e.1
}

/// The text of the settings file: one `key = value` line per entry.
pub open spec fn file_text_of(es: Seq<(Seq<char>, Seq<char>)>) -> Seq<char>
    decreases es.len(),
{
    if es.len() == 0 {
        Seq::empty()
    } else {
        entry_line(es[0]) + seq!['\n'] + file_text_of(es.drop_first())
    }
}

proof fn lemma_file_text_push(es: Seq<(Seq<char>, Seq<char>)>, e: (Seq<char>, Seq<char>))
    ensures
        file_text_of(es.push(e)) == file_text_of(es) + entry_line(e) + seq!['\n'],
    decreases es.len(),
{
    if es.len() == 0 {
        let t = es.push(e);
        assert(t.drop_first() =~= Seq::<(Seq<char>, Seq<char>)>::empty());
        assert(t[0] == e);
        assert(file_text_of(t.drop_first()) == Seq::<char>::empty());
        assert(file_text_of(es) == Seq::<char>::empty());
        assert(file_text_of(t) == entry_line(e) + seq!['\n'] + Seq::<char>::empty());
        assert(file_text_of(es.push(e)) =~= file_text_of(es) + entry_line(e) + seq!['\n']);
    } else {
        lemma_file_text_push(es.drop_first(), e);
        assert(es.push(e).drop_first() =~= es.drop_first().push(e));
        assert(file_text_of(es.push(e)) =~= file_text_of(es) + entry_line(e) + seq!['\n']);
    }
}

// ---------------------------------------------------------------------------
// Executable functions
// ---------------------------------------------------------------------------

/// A copy of `chars[lo..hi]`.
fn chars_between(chars: &Vec<char>, lo: usize, hi: usize) -> (v: Vec<char>)
    requires
        lo <= hi <= chars.len(),
    ensures
        v@ == chars@.subrange(lo as int, hi as int),
{
    let mut v: Vec<char> = Vec::new();
    let mut i = lo;
    while i < hi
        invariant
            lo <= i <= hi <= chars.len(),
            v@ == chars@.subrange(lo as int, i as int),
        decreases hi - i,
    {
        v.push(chars[i]);
        i += 1;
        assert(v@ =~= chars@.subrange(lo as int, i as int));
    }
    v
}

impl EntryList {
    proof fn lemma_entries_len(&self)
        ensures
            self.entries().len() == self.entries@.len(),
            forall|i: int|
                0 <= i < self.entries@.len() ==> #[trigger] self.entries()[i] == (
                self.entries@[i].key@,
                self.entries@[i].value@,
            ),
    {
    }

    /// Where `key` stands among the entries: the index of the first entry
    /// whose key is not below it, and whether that entry's key is `key`.
    fn find_slot(&self, key: &Vec<char>) -> (r: (usize, bool))
        requires
            self.wf(),
        ensures
            r.0 <= self.entries().len(),
            forall|j: int| 0 <= j < r.0 ==> key_lt(#[trigger] self.entries()[j].0, key@),
            r.1 ==> r.0 < self.entries().len() && self.entries()[r.0 as int].0 == key@,
            !r.1 ==> forall|j: int|
                r.0 <= j < self.entries().len() ==> key_lt(key@, #[trigger] self.entries()[j].0),
    {
        proof {
            self.lemma_entries_len();
        }
        let n = self.entries.len();
        let mut i: usize = 0;
        while i < n
            invariant
                i <= n == self.entries@.len(),
                self.entries().len() == n,
                self.wf(),
                forall|j: int| 0 <= j < i ==> key_lt(#[trigger] self.entries()[j].0, key@),
            decreases n - i,
        {
            match compare_keys(&self.entries[i].key, key) {
                KeyOrder::Less => {},
                KeyOrder::Equal => {
                    return (i, true);
                },
                KeyOrder::Greater => {
                    proof {
                        let es = self.entries();
                        assert forall|j: int| i <= j < n implies key_lt(
                            key@,
                            #[trigger] es[j].0,
                        ) by {
                            if j > i {
                                assert(key_lt(es[i as int].0, es[j].0));
                                lemma_key_lt_transitive(key@, es[i as int].0, es[j].0);
                            }
                        }
                    }
                    return (i, false);
                },
            }
            i += 1;
        }
        (i, false)
    }

    /// Sets `key` to `value`, replacing what it held.
    fn set_entry(&mut self, key: Vec<char>, value: String)
        requires
            old(self).wf(),
        ensures
            final(self).wf(),
            final(self)@ == old(self)@.insert(key@, value@),
    {
        let (i, found) = self.find_slot(&key);
        let ghost old_es = self.entries();
        let ghost k = key@;
        let ghost v = value@;
        proof {
            self.lemma_entries_len();
        }
        if found {
            self.entries.set(i, ConfigEntry { key, value });
            proof {
                self.lemma_entries_len();
                assert(self.entries() =~= old_es.update(i as int, (k, v)));
                lemma_entries_map_update(old_es, i as int, v);
            }
        } else {
            self.entries.insert(i, ConfigEntry { key, value });
            proof {
                self.lemma_entries_len();
                assert(self.entries() =~= old_es.insert(i as int, (k, v)));
                lemma_entries_map_insert(old_es, i as int, k, v);
            }
        }
    }
}

impl EntryList {
    /// Reads the line `text[lo..hi]` into the settings.
    fn load_line(&mut self, text: &Vec<char>, lo: usize, hi: usize)
        requires
            old(self).wf(),
            lo <= hi <= text.len(),
        ensures
            final(self).wf(),
            final(self)@ == apply_line(old(self)@, text@.subrange(lo as int, hi as int)),
    {
        let ghost line = text@.subrange(lo as int, hi as int);
        proof {
            lemma_first_index(line, '=');
        }
        match find_char(text, lo, hi, '=') {
            None => {},
            Some(eq) => {
                let ghost i = eq - lo;
                assert(line.take(i) =~= text@.subrange(lo as int, eq as int));
                assert(line.skip(i + 1) =~= text@.subrange(eq + 1, hi as int));
                let key_start = skip_leading_whitespace(text, lo, eq);
                let key_end = skip_trailing_whitespace(text, key_start, eq);
                if key_start == key_end {
                    return;
                }
                let value_start = skip_leading_whitespace(text, eq + 1, hi);
                let key = chars_between(text, key_start, key_end);
                let value = string_from(text, value_start, hi);
                self.set_entry(key, value);
            },
        }
    }

    /// Reads the text of a settings file on top of the settings: each line
    /// `key = value` sets `key`, later lines overriding earlier ones.
    fn load(&mut self, contents: &str)
        requires
            old(self).wf(),
        ensures
            final(self).wf(),
            final(self)@ == parse_config_text(old(self)@, contents@),
    {
        let text = chars_of(contents);
        let n = text.len();
        let mut start: usize = 0;
        let ghost mut done: Seq<Seq<char>> = Seq::empty();
        assert(text@.subrange(0, n as int) =~= text@);
        while start < n
            invariant
                start <= n == text.len(),
                text@ == contents@,
                self.wf(),
                lines_of(text@) == done + lines_of(text@.subrange(start as int, n as int)),
                self@ == apply_lines(old(self)@, done),
            decreases n - start,
        {
            let ghost rest = text@.subrange(start as int, n as int);
            proof {
                lemma_first_index(rest, '\n');
            }
            let (end, next) = match find_char(&text, start, n, '\n') {
                Some(i) => {
                    assert(rest.take(i - start) =~= text@.subrange(start as int, i as int));
                    assert(rest.skip(i - start + 1) =~= text@.subrange(i + 1, n as int));
                    if i > start && text[i - 1] == '\r' {
                        assert(text@.subrange(start as int, i as int).drop_last()
                            =~= text@.subrange(start as int, i - 1));
                        (i - 1, i + 1)
                    } else {
                        (i, i + 1)
                    }
                },
                None => {
                    assert(text@.subrange(n as int, n as int) =~= Seq::<char>::empty());
                    (n, n)
                },
            };
            let ghost line = text@.subrange(start as int, end as int);
            assert(lines_of(rest) == seq![line] + lines_of(text@.subrange(next as int, n as int)));
            self.load_line(&text, start, end);
            proof {
                let d2 = done.push(line);
                assert(d2.drop_last() =~= done);
                assert(done + (seq![line] + lines_of(text@.subrange(next as int, n as int))) =~= d2
                    + lines_of(text@.subrange(next as int, n as int)));
                done = d2;
            }
            start = next;
        }
        assert(text@.subrange(n as int, n as int) =~= Seq::<char>::empty());
        assert(done + Seq::<Seq<char>>::empty() =~= done);
    }

    /// Gives `key` the value `value` unless it already has one.
    fn set_default(&mut self, key: &str, value: String)
        requires
            old(self).wf(),
        ensures
            final(self).wf(),
            final(self)@ == with_default(old(self)@, (key@, value@)),
    {
        let key = chars_of(key);
        let (i, found) = self.find_slot(&key);
        if found {
            proof {
                lemma_entries_map_lookup(self.entries(), i as int);
            }
        } else {
            proof {
                assert forall|j: int| 0 <= j < self.entries().len() implies #[trigger] self.entries()[j].0
                    != key@ by {
                    if j < i {
                        assert(key_lt(self.entries()[j].0, key@));
                    } else {
                        assert(key_lt(key@, self.entries()[j].0));
                    }
                    lemma_key_lt_irreflexive(key@);
                }
                lemma_entries_map_absent(self.entries(), key@);
            }
            self.set_entry(key, value);
        }
    }

    /// The value of `key`, if it has one.
    fn str_value(&self, key: &str) -> (r: Option<&str>)
        requires
            self.wf(),
        ensures
            match r {
                Some(v) => self@.contains_key(key@) && v@ == self@[key@],
                None => !self@.contains_key(key@),
            },
    {
        let key = chars_of(key);
        let (i, found) = self.find_slot(&key);
        proof {
            self.lemma_entries_len();
        }
        if found {
            proof {
                lemma_entries_map_lookup(self.entries(), i as int);
            }
            Some(self.entries[i].value.as_str())
        } else {
            proof {
                assert forall|j: int| 0 <= j < self.entries().len() implies #[trigger] self.entries()[j].0
                    != key@ by {
                    if j < i {
                        assert(key_lt(self.entries()[j].0, key@));
                    } else {
                        assert(key_lt(key@, self.entries()[j].0));
                    }
                    lemma_key_lt_irreflexive(key@);
                }
                lemma_entries_map_absent(self.entries(), key@);
            }
            None
        }
    }

    /// The value of `key` read as a decimal `i32`, if it has a value and
    /// the value is one.
    fn int_value(&self, key: &str) -> (r: Option<i32>)
        requires
            self.wf(),
        ensures
            r == (if self@.contains_key(key@) {
                parse_i32_text(self@[key@])
            } else {
                None
            }),
    {
        match self.str_value(key) {
            Some(v) => parse_i32(v),
            None => None,
        }
    }

    /// The text of the settings file: a line `key = value` for each setting,
    /// in increasing key order.
    fn file_text(&self) -> (s: String)
        ensures
            s@ == file_text_of(self.entries()),
    {
        proof {
            self.lemma_entries_len();
        }
        let mut s = String::new();
        let n = self.entries.len();
        let mut i: usize = 0;
        assert(self.entries().take(0) =~= Seq::<(Seq<char>, Seq<char>)>::empty());
        while i < n
            invariant
                i <= n == self.entries@.len() == self.entries().len(),
                s@ == file_text_of(self.entries().take(i as int)),
                forall|j: int|
                    0 <= j < self.entries@.len() ==> #[trigger] self.entries()[j] == (
                    self.entries@[j].key@,
                    self.entries@[j].value@,
                ),
            decreases n - i,
        {
            let entry = &self.entries[i];
            proof {
                let es = self.entries();
                assert(es.take(i + 1) =~= es.take(i as int).push(es[i as int]));
                lemma_file_text_push(es.take(i as int), es[i as int]);
            }
            push_chars(&mut s, &entry.key, 0, entry.key.len());
            assert(entry.key@.subrange(0, entry.key@.len() as int) =~= entry.key@);
            push_char(&mut s, ' ');
            push_char(&mut s, '=');
            push_char(&mut s, ' ');
            s.append(entry.value.as_str());
            push_char(&mut s, '\n');
            i += 1;
            assert(s@ =~= file_text_of(self.entries().take(i as int)));
        }
        assert(self.entries().take(n as int) =~= self.entries());
        s
    }
}


impl EntryList {
    fn empty() -> (r: EntryList)
        ensures
            r.wf(),
            r.entries() == Seq::<(Seq<char>, Seq<char>)>::empty(),
            r@ == Map::<Seq<char>, Seq<char>>::empty(),
    {
        let r = EntryList { entries: Vec::new() };
        assert(r.entries() =~= Seq::<(Seq<char>, Seq<char>)>::empty());
        assert(r@ =~= Map::<Seq<char>, Seq<char>>::empty());
        r
    }
}

/// The settings, held as entries in increasing key order.
#[derive(Debug)]
pub struct Config {
    list: EntryList,
}

impl Config {
    #[verifier::type_invariant]
    spec fn entries_sorted(self) -> bool {
        self.list.wf()
    }

    /// The entries, in the order in which they are held and written.
    pub closed spec fn entries(&self) -> Seq<(Seq<char>, Seq<char>)> {
        self.list.entries()
    }

    /// The entries are held in strictly increasing key order; every
    /// `Config` is so.
    pub open spec fn wf(&self) -> bool {
        sorted_keys(self.entries())
    }
}

impl View for Config {
    type V = Map<Seq<char>, Seq<char>>;

    open spec fn view(&self) -> Map<Seq<char>, Seq<char>> {
        entries_map(self.entries())
    }
}

impl Config {
    /// Reads the text of a settings file on top of the settings: each line
    /// `key = value` sets `key`, later lines overriding earlier ones.
    pub fn load(&mut self, contents: &str)
        ensures
            final(self).wf(),
            final(self)@ == parse_config_text(old(self)@, contents@),
    {
        proof {
            use_type_invariant(&*self);
        }
        let mut list = EntryList::empty();
        std::mem::swap(&mut list, &mut self.list);
        list.load(contents);
        self.list = list;
    }

    /// Gives `key` the value `value` unless it already has one.
    pub fn set_default(&mut self, key: &str, value: String)
        ensures
            final(self).wf(),
            final(self)@ == with_default(old(self)@, (key@, value@)),
    {
        proof {
            use_type_invariant(&*self);
        }
        let mut list = EntryList::empty();
        std::mem::swap(&mut list, &mut self.list);
        list.set_default(key, value);
        self.list = list;
    }

    /// The value of `key`, if it has one.
    pub fn str_value(&self, key: &str) -> (r: Option<&str>)
        ensures
            match r {
                Some(v) => self@.contains_key(key@) && v@ == self@[key@],
                None => !self@.contains_key(key@),
            },
    {
        proof {
            use_type_invariant(self);
        }
        self.list.str_value(key)
    }

    /// The value of `key` read as a decimal `i32`, if it has a value and
    /// the value is one.
    pub fn int_value(&self, key: &str) -> (r: Option<i32>)
        ensures
            r == (if self@.contains_key(key@) {
                parse_i32_text(self@[key@])
            } else {
                None
            }),
    {
        proof {
            use_type_invariant(self);
        }
        self.list.int_value(key)
    }

    /// The text of the settings file: a line `key = value` for each setting,
    /// in increasing key order.
    pub fn file_text(&self) -> (s: String)
        ensures
            s@ == file_text_of(self.entries()),
    {
        proof {
            use_type_invariant(self);
        }
        self.list.file_text()
    }

    /// The settings at start-up: those that the settings file holds, when
    /// it could be read, with each missing setting set to its default.
    pub fn load_or_create(existing: Option<&str>) -> (config: Config)
        ensures
            config.wf(),
            config@ == startup_settings(match existing {
                Some(text) => Some(text@),
                None => None,
            }),
    {
        let mut config = Config { list: EntryList::empty() };
        match existing {
            Some(text) => config.load(text),
            None => {},
        }
        let ghost read = config@;
        config.set_default("hotkey", String::from_str(DEFAULT_HOTKEY));
        config.set_default("hotkeyRepeat", format_i32(DEFAULT_HOTKEY_REPEAT));
        config.set_default("indicatorDuration", format_i32(DEFAULT_INDICATOR_DURATION));
        config.set_default("indicatorSize", format_i32(DEFAULT_INDICATOR_SIZE));
        config.set_default("indicatorTransparency", format_i32(DEFAULT_INDICATOR_TRANSPARENCY));
        config.set_default(
            "indicatorForegroundTransparency",
            format_i32(DEFAULT_INDICATOR_FOREGROUND_TRANSPARENCY),
        );
        proof {
            let ds = default_settings();
            assert(ds.drop_last().drop_last().drop_last().drop_last().drop_last().drop_last()
                =~= Seq::<(Seq<char>, Seq<char>)>::empty());
            assert(with_defaults(read, ds) == config@) by {
                reveal_with_fuel(with_defaults, 7);
                assert(ds.drop_last().drop_last().drop_last().drop_last().drop_last().last() == ds[0]);
                assert(ds.drop_last().drop_last().drop_last().drop_last().last() == ds[1]);
                assert(ds.drop_last().drop_last().drop_last().last() == ds[2]);
                assert(ds.drop_last().drop_last().last() == ds[3]);
                assert(ds.drop_last().last() == ds[4]);
                assert(ds.last() == ds[5]);
            }
        }
        config
    }

}

/// Replacing the value of an entry updates the map and keeps the order.
pub proof fn lemma_entries_map_update(es: Seq<(Seq<char>, Seq<char>)>, i: int, v: Seq<char>)
    requires
        sorted_keys(es),
        0 <= i < es.len(),
    ensures
        sorted_keys(es.update(i, (es[i].0, v))),
        entries_map(es.update(i, (es[i].0, v))) == entries_map(es).insert(es[i].0, v),
{
    let k = es[i].0;
    let es2 = es.update(i, (k, v));
    assert forall|a: int, b: int| 0 <= a < b < es2.len() implies key_lt(
        #[trigger] es2[a].0,
        #[trigger] es2[b].0,
    ) by {
        assert(key_lt(es[a].0, es[b].0));
    }
    let m1 = entries_map(es2);
    let m2 = entries_map(es).insert(k, v);
    assert forall|x: Seq<char>| m1.contains_key(x) <==> m2.contains_key(x) by {
        if m1.contains_key(x) {
            let j = choose|j: int| 0 <= j < es2.len() && es2[j].0 == x;
            assert(es[j].0 == x);
        }
        if m2.contains_key(x) && x != k {
            let j = choose|j: int| 0 <= j < es.len() && es[j].0 == x;
            assert(es2[j].0 == x);
        }
        if x == k {
            assert(es2[i].0 == k);
        }
    }
    assert forall|x: Seq<char>| m1.contains_key(x) implies m1[x] == m2[x] by {
        let j = entry_index(es2, x);
        lemma_entries_map_lookup(es2, j);
        if j != i {
            lemma_entries_map_lookup(es, j);
            lemma_sorted_distinct(es2, i, j);
        }
    }
    assert(m1 =~= m2);
}

/// Inserting an entry at its place in key order adds it to the map and
/// keeps the order.
pub proof fn lemma_entries_map_insert(
    es: Seq<(Seq<char>, Seq<char>)>,
    i: int,
    k: Seq<char>,
    v: Seq<char>,
)
    requires
        sorted_keys(es),
        0 <= i <= es.len(),
        forall|j: int| 0 <= j < i ==> key_lt(#[trigger] es[j].0, k),
        forall|j: int| i <= j < es.len() ==> key_lt(k, #[trigger] es[j].0),
    ensures
        sorted_keys(es.insert(i, (k, v))),
        entries_map(es.insert(i, (k, v))) == entries_map(es).insert(k, v),
{
    let es2 = es.insert(i, (k, v));
    assert forall|a: int, b: int| 0 <= a < b < es2.len() implies key_lt(
        #[trigger] es2[a].0,
        #[trigger] es2[b].0,
    ) by {
        if b < i {
            assert(key_lt(es[a].0, es[b].0));
        } else if b == i {
            assert(key_lt(es[a].0, k));
        } else if a < i {
            assert(key_lt(es[a].0, k));
            assert(key_lt(k, es[b - 1].0));
            lemma_key_lt_transitive(es[a].0, k, es[b - 1].0);
        } else if a == i {
            assert(key_lt(k, es[b - 1].0));
        } else {
            assert(key_lt(es[a - 1].0, es[b - 1].0));
        }
    }
    let m1 = entries_map(es2);
    let m2 = entries_map(es).insert(k, v);
    assert forall|x: Seq<char>| m1.contains_key(x) <==> m2.contains_key(x) by {
        if m1.contains_key(x) && x != k {
            let j = choose|j: int| 0 <= j < es2.len() && es2[j].0 == x;
            if j < i {
                assert(es[j].0 == x);
            } else {
                assert(es[j - 1].0 == x);
            }
        }
        if m2.contains_key(x) && x != k {
            let j = choose|j: int| 0 <= j < es.len() && es[j].0 == x;
            if j < i {
                assert(es2[j].0 == x);
            } else {
                assert(es2[j + 1].0 == x);
            }
        }
        if x == k {
            assert(es2[i].0 == k);
        }
    }
    assert forall|x: Seq<char>| m1.contains_key(x) implies m1[x] == m2[x] by {
        let j = entry_index(es2, x);
        lemma_entries_map_lookup(es2, j);
        if j != i {
            lemma_sorted_distinct(es2, i, j);
        }
        if j < i {
            lemma_entries_map_lookup(es, j);
        } else if j > i {
            lemma_entries_map_lookup(es, j - 1);
        }
    }
    assert(m1 =~= m2);
}

// ---------------------------------------------------------------------------
// Laws
// ---------------------------------------------------------------------------

/// A key that a line of the settings file gives back unchanged: not empty,
/// not starting or ending with whitespace, without `=` and line feeds.
pub open spec fn storable_key(k: Seq<char>) -> bool {
    &&& k.len() > 0
    &&& !is_whitespace(k[0])
    &&& !is_whitespace(k.last())
    &&& forall|i: int| 0 <= i < k.len() ==> #[trigger] k[i] != '=' && k[i] != '\n'
}

/// A value that a line of the settings file gives back unchanged: without
/// line feeds, not starting with whitespace and not ending with a carriage
/// return.
pub open spec fn storable_value(v: Seq<char>) -> bool {
    &&& forall|i: int| 0 <= i < v.len() ==> #[trigger] v[i] != '\n'
    &&& v.len() > 0 ==> !is_whitespace(v[0]) && v.last() != '\r'
}

/// Settings whose keys and values the settings file gives back unchanged.
pub open spec fn storable(m: Map<Seq<char>, Seq<char>>) -> bool {
    forall|k: Seq<char>| #[trigger] m.contains_key(k) ==> storable_key(k) && storable_value(m[k])
}

proof fn lemma_first_index_after(a: Seq<char>, b: Seq<char>, c: char)
    requires
        forall|i: int| 0 <= i < a.len() ==> a[i] != c,
    ensures
        first_index(a + b, c) == match first_index(b, c) {
            Some(i) => Some(i + a.len()),
            None => None::<int>,
        },
    decreases a.len(),
{
    if a.len() > 0 {
        assert((a + b).drop_first() =~= a.drop_first() + b);
        lemma_first_index_after(a.drop_first(), b, c);
    } else {
        assert(a + b =~= b);
    }
}

/// The line of an entry reads back as that entry.
proof fn lemma_line_entry_of_entry_line(k: Seq<char>, v: Seq<char>)
    requires
        storable_key(k),
        storable_value(v),
    ensures
        line_entry(entry_line((k, v))) == Some((k, v)),
{
    let line = entry_line((k, v));
    let tail = seq![' ', '=', ' '] + v;
    assert(line =~= k + tail);
    assert(first_index(tail, '=') == Some(1int)) by {
        assert(tail[0] == ' ');
        assert(tail.drop_first()[0] == '=');
        assert(first_index(tail.drop_first(), '=') == Some(0int));
    }
    lemma_first_index_after(k, tail, '=');
    let i: int = k.len() as int + 1;
    assert(line.take(i) =~= k.push(' '));
    assert(line.skip(i + 1) =~= seq![' '] + v);
    let kp = k.push(' ');
    assert(trim_start(kp) == kp);
    assert(kp.drop_last() =~= k);
    assert(trim_end(kp) == trim_end(k));
    assert(trim_end(k) == k);
    assert((seq![' '] + v).drop_first() =~= v);
    assert(trim_start(seq![' '] + v) == trim_start(v));
    assert(trim_start(v) == v);
}

/// The lines of a settings file are the lines of its entries.
proof fn lemma_lines_of_file_text(es: Seq<(Seq<char>, Seq<char>)>)
    requires
        forall|i: int| 0 <= i < es.len() ==> storable_key(#[trigger] es[i].0) && storable_value(es[i].1),
    ensures
        lines_of(file_text_of(es)) == es.map_values(|e: (Seq<char>, Seq<char>)| entry_line(e)),
    decreases es.len(),
{
    if es.len() == 0 {
        assert(es.map_values(|e: (Seq<char>, Seq<char>)| entry_line(e)) =~= Seq::<Seq<char>>::empty());
    } else {
        let l = entry_line(es[0]);
        let r = file_text_of(es.drop_first());
        let x = file_text_of(es);
        assert(x =~= l + (seq!['\n'] + r));
        assert forall|i: int| 0 <= i < l.len() implies l[i] != '\n' by {
            let k = es[0].0;
            if i < k.len() {
                assert(l[i] == k[i]);
            } else if i >= k.len() + 3 {
                assert(l[i] == es[0].1[i - k.len() - 3]);
            }
        }
        assert(first_index(seq!['\n'] + r, '\n') == Some(0int));
        lemma_first_index_after(l, seq!['\n'] + r, '\n');
        assert(x.take(l.len() as int) =~= l);
        assert(x.skip(l.len() as int + 1) =~= r);
        let v = es[0].1;
        if v.len() > 0 {
            assert(l.last() == v.last());
        }
        assert(strip_carriage_return(l) == l);
        assert forall|i: int| 0 <= i < es.drop_first().len() implies storable_key(
            #[trigger] es.drop_first()[i].0,
        ) && storable_value(es.drop_first()[i].1) by {
            assert(es.drop_first()[i] == es[i + 1]);
            assert(storable_key(es[i + 1].0) && storable_value(es[i + 1].1));
        }
        lemma_lines_of_file_text(es.drop_first());
        assert(es.map_values(|e: (Seq<char>, Seq<char>)| entry_line(e)) =~= seq![l]
            + es.drop_first().map_values(|e: (Seq<char>, Seq<char>)| entry_line(e)));
    }
}

/// Reading the lines of sorted, storable entries gives their map.
proof fn lemma_apply_entry_lines(es: Seq<(Seq<char>, Seq<char>)>)
    requires
        sorted_keys(es),
        forall|i: int| 0 <= i < es.len() ==> storable_key(#[trigger] es[i].0) && storable_value(es[i].1),
    ensures
        apply_lines(Map::empty(), es.map_values(|e: (Seq<char>, Seq<char>)| entry_line(e)))
            == entries_map(es),
    decreases es.len(),
{
    let ls = es.map_values(|e: (Seq<char>, Seq<char>)| entry_line(e));
    if es.len() == 0 {
        assert(entries_map(es) =~= Map::<Seq<char>, Seq<char>>::empty());
    } else {
        let n = es.len() - 1;
        let front = es.drop_last();
        let e = es.last();
        assert(ls.drop_last() =~= front.map_values(|e: (Seq<char>, Seq<char>)| entry_line(e)));
        assert forall|a: int, b: int| 0 <= a < b < front.len() implies key_lt(
            #[trigger] front[a].0,
            #[trigger] front[b].0,
        ) by {
            assert(key_lt(es[a].0, es[b].0));
        }
        assert forall|i: int| 0 <= i < front.len() implies storable_key(#[trigger] front[i].0)
            && storable_value(front[i].1) by {
            assert(front[i] == es[i]);
        }
        lemma_apply_entry_lines(front);
        assert(storable_key(es[n].0) && storable_value(es[n].1));
        lemma_line_entry_of_entry_line(e.0, e.1);
        assert(ls.last() == entry_line(e));
        assert forall|j: int| 0 <= j < n implies key_lt(#[trigger] front[j].0, e.0) by {
            assert(key_lt(es[j].0, es[n].0));
        }
        lemma_entries_map_insert(front, n, e.0, e.1);
        assert(front.insert(n, (e.0, e.1)) =~= es);
    }
}

/// What is written is read back: reading the settings file that
/// `file_text` writes gives the same settings, when every key and value is
/// storable.
pub proof fn lemma_file_text_reads_back(config: &Config)
    requires
        config.wf(),
        storable(config@),
    ensures
        parse_config_text(Map::empty(), file_text_of(config.entries())) == config@,
{
    let es = config.entries();
    assert forall|i: int| 0 <= i < es.len() implies storable_key(#[trigger] es[i].0)
        && storable_value(es[i].1) by {
        lemma_entries_map_lookup(es, i);
        assert(config@.contains_key(es[i].0));
    }
    lemma_lines_of_file_text(es);
    lemma_apply_entry_lines(es);
}

proof fn lemma_drop_first_map(es: Seq<(Seq<char>, Seq<char>)>)
    requires
        sorted_keys(es),
        es.len() > 0,
    ensures
        sorted_keys(es.drop_first()),
        entries_map(es.drop_first()) == entries_map(es).remove(es[0].0),
{
    let rest = es.drop_first();
    let k = es[0].0;
    assert forall|a: int, b: int| 0 <= a < b < rest.len() implies key_lt(
        #[trigger] rest[a].0,
        #[trigger] rest[b].0,
    ) by {
        assert(key_lt(es[a + 1].0, es[b + 1].0));
    }
    assert forall|j: int| 0 <= j < rest.len() implies key_lt(k, #[trigger] rest[j].0) by {
        assert(key_lt(es[0].0, es[j + 1].0));
    }
    assert forall|j: int| 0 <= j < rest.len() implies #[trigger] rest[j].0 != k by {
        assert(key_lt(k, rest[j].0));
        lemma_key_lt_irreflexive(k);
    }
    lemma_entries_map_absent(rest, k);
    lemma_entries_map_insert(rest, 0, k, es[0].1);
    assert(rest.insert(0, (k, es[0].1)) =~= es);
    assert(entries_map(rest) =~= entries_map(rest).insert(k, es[0].1).remove(k));
}

/// Two lists of entries in strictly increasing key order that stand for
/// the same map are the same list.
pub proof fn lemma_sorted_entries_unique(
    a: Seq<(Seq<char>, Seq<char>)>,
    b: Seq<(Seq<char>, Seq<char>)>,
)
    requires
        sorted_keys(a),
        sorted_keys(b),
        entries_map(a) == entries_map(b),
    ensures
        a == b,
    decreases a.len(),
{
    if a.len() == 0 || b.len() == 0 {
        if b.len() > 0 {
            lemma_entries_map_lookup(b, 0);
            assert(entries_map(a).contains_key(b[0].0));
        }
        if a.len() > 0 {
            lemma_entries_map_lookup(a, 0);
            assert(entries_map(b).contains_key(a[0].0));
        }
        assert(a =~= b);
    } else {
        let k1 = a[0].0;
        let k2 = b[0].0;
        lemma_entries_map_lookup(a, 0);
        lemma_entries_map_lookup(b, 0);
        let j = entry_index(b, k1);
        let i = entry_index(a, k2);
        assert(entries_map(b).contains_key(k1));
        assert(entries_map(a).contains_key(k2));
        if j > 0 && i > 0 {
            assert(key_lt(b[0].0, b[j].0));
            assert(key_lt(a[0].0, a[i].0));
            lemma_key_lt_transitive(k1, k2, k1);
            lemma_key_lt_irreflexive(k1);
        }
        assert(k1 == k2);
        assert(a[0] == b[0]);
        lemma_drop_first_map(a);
        lemma_drop_first_map(b);
        lemma_sorted_entries_unique(a.drop_first(), b.drop_first());
        assert(a =~= seq![a[0]] + a.drop_first());
        assert(b =~= seq![b[0]] + b.drop_first());
    }
}

/// The settings file is a function of the settings alone: two settings
/// that hold the same keys and values are written alike.
pub proof fn lemma_file_text_determined(a: &Config, b: &Config)
    requires
        a.wf(),
        b.wf(),
        a@ == b@,
    ensures
        a.entries() == b.entries(),
        file_text_of(a.entries()) == file_text_of(b.entries()),
{
    lemma_sorted_entries_unique(a.entries(), b.entries());
}

/// A value as reading a line can give it: without line feeds and not
/// starting with whitespace.
pub open spec fn readable_value(v: Seq<char>) -> bool {
    &&& forall|i: int| 0 <= i < v.len() ==> #[trigger] v[i] != '\n'
    &&& v.len() > 0 ==> !is_whitespace(v[0])
}

/// Settings as reading a file can give them.
pub open spec fn readable(m: Map<Seq<char>, Seq<char>>) -> bool {
    forall|k: Seq<char>| #[trigger] m.contains_key(k) ==> storable_key(k) && readable_value(m[k])
}

proof fn lemma_lines_have_no_line_feed(s: Seq<char>)
    ensures
        forall|i: int, j: int|
            0 <= i < lines_of(s).len() && 0 <= j < lines_of(s)[i].len() ==> #[trigger] lines_of(
                s,
            )[i][j] != '\n',
    decreases s.len(),
{
    if s.len() > 0 {
        lemma_first_index(s, '\n');
        match first_index(s, '\n') {
            Some(k) => {
                lemma_lines_have_no_line_feed(s.skip(k + 1));
                let first = strip_carriage_return(s.take(k));
                assert forall|j: int| 0 <= j < first.len() implies first[j] != '\n' by {
                    assert(first[j] == s[j]);
                }
                let rest = lines_of(s.skip(k + 1));
                assert forall|i: int, j: int|
                    0 <= i < lines_of(s).len() && 0 <= j < lines_of(s)[i].len() implies #[trigger] lines_of(
                    s,
                )[i][j] != '\n' by {
                    if i > 0 {
                        assert(lines_of(s)[i] == rest[i - 1]);
                    }
                }
            },
            None => {},
        }
    }
}

proof fn lemma_trim_start_shape(s: Seq<char>) -> (j: int)
    ensures
        0 <= j <= s.len(),
        trim_start(s) == s.skip(j),
        trim_start(s).len() > 0 ==> !is_whitespace(trim_start(s)[0]),
    decreases s.len(),
{
    if s.len() > 0 && is_whitespace(s[0]) {
        let j = lemma_trim_start_shape(s.drop_first());
        assert(s.drop_first().skip(j) =~= s.skip(j + 1));
        j + 1
    } else {
        assert(s.skip(0) =~= s);
        0
    }
}

proof fn lemma_trim_end_shape(s: Seq<char>) -> (j: int)
    ensures
        0 <= j <= s.len(),
        trim_end(s) == s.take(j),
        trim_end(s).len() > 0 ==> !is_whitespace(trim_end(s).last()),
    decreases s.len(),
{
    if s.len() > 0 && is_whitespace(s.last()) {
        let j = lemma_trim_end_shape(s.drop_last());
        assert(s.drop_last().take(j) =~= s.take(j));
        j
    } else {
        assert(s.take(s.len() as int) =~= s);
        s.len() as int
    }
}

/// The entry that a line without line feeds gives has a storable key and a
/// readable value.
proof fn lemma_line_entry_readable(line: Seq<char>)
    requires
        forall|j: int| 0 <= j < line.len() ==> line[j] != '\n',
    ensures
        line_entry(line) matches Some((k, v)) ==> storable_key(k) && readable_value(v),
{
    lemma_first_index(line, '=');
    if let Some(i) = first_index(line, '=') {
        let k0 = line.take(i);
        let v0 = line.skip(i + 1);
        let a = lemma_trim_start_shape(k0);
        let t = trim_start(k0);
        let b = lemma_trim_end_shape(t);
        let k = trim(k0);
        if k.len() > 0 {
            assert forall|x: int| 0 <= x < k.len() implies #[trigger] k[x] != '=' && k[x] != '\n' by {
                assert(k[x] == t[x]);
                assert(t[x] == k0[x + a]);
            }
            assert(k[0] == t[0]);
        }
        let c = lemma_trim_start_shape(v0);
        let v = trim_start(v0);
        assert forall|x: int| 0 <= x < v.len() implies #[trigger] v[x] != '\n' by {
            assert(v[x] == line[i + 1 + c + x]);
        }
    }
}

proof fn lemma_apply_lines_readable(m: Map<Seq<char>, Seq<char>>, ls: Seq<Seq<char>>)
    requires
        readable(m),
        forall|i: int, j: int|
            0 <= i < ls.len() && 0 <= j < ls[i].len() ==> #[trigger] ls[i][j] != '\n',
    ensures
        readable(apply_lines(m, ls)),
    decreases ls.len(),
{
    if ls.len() > 0 {
        let front = ls.drop_last();
        assert forall|i: int, j: int|
            0 <= i < front.len() && 0 <= j < front[i].len() implies #[trigger] front[i][j]
            != '\n' by {
            assert(front[i] == ls[i]);
        }
        lemma_apply_lines_readable(m, front);
        let line = ls.last();
        assert forall|j: int| 0 <= j < line.len() implies line[j] != '\n' by {
            assert(ls[ls.len() - 1][j] != '\n');
        }
        lemma_line_entry_readable(line);
    }
}

proof fn lemma_decimal_text_storable(n: int)
    requires
        0 <= n,
    ensures
        storable_value(decimal_text(n)),
{
    lemma_natural_digits(n as nat);
    let d = decimal_text(n);
    assert forall|i: int| 0 <= i < d.len() implies #[trigger] d[i] != '\n' by {
        assert(is_digit(d[i]));
    }
    assert(is_digit(d[0]));
    assert(is_digit(d.last()));
}

proof fn lemma_defaults_storable()
    ensures
        forall|i: int|
            0 <= i < default_settings().len() ==> storable_key(#[trigger] default_settings()[i].0)
                && storable_value(default_settings()[i].1),
{
    reveal_strlit("hotkey");
    reveal_strlit("hotkeyRepeat");
    reveal_strlit("indicatorDuration");
    reveal_strlit("indicatorSize");
    reveal_strlit("indicatorTransparency");
    reveal_strlit("indicatorForegroundTransparency");
    reveal_strlit("Ctrl+Shift+F8");
    lemma_decimal_text_storable(0);
    lemma_decimal_text_storable(1000);
    lemma_decimal_text_storable(240);
    lemma_decimal_text_storable(200);
    lemma_decimal_text_storable(255);
    let ds = default_settings();
    assert(storable_key(ds[0].0) && storable_value(ds[0].1));
    assert(storable_key(ds[1].0));
    assert(storable_key(ds[2].0));
    assert(storable_key(ds[3].0));
    assert(storable_key(ds[4].0));
    assert(storable_key(ds[5].0));
}

proof fn lemma_with_defaults_facts(m: Map<Seq<char>, Seq<char>>, ds: Seq<(Seq<char>, Seq<char>)>)
    ensures
        forall|i: int| 0 <= i < ds.len() ==> with_defaults(m, ds).contains_key(#[trigger] ds[i].0),
        forall|k: Seq<char>| #[trigger]
            with_defaults(m, ds).contains_key(k) ==> (m.contains_key(k) && with_defaults(m, ds)[k]
                == m[k]) || exists|i: int| 0 <= i < ds.len() && ds[i] == (k, with_defaults(m, ds)[k]),
        (forall|i: int| 0 <= i < ds.len() ==> m.contains_key(#[trigger] ds[i].0)) ==> with_defaults(
            m,
            ds,
        ) == m,
    decreases ds.len(),
{
    if ds.len() > 0 {
        let front = ds.drop_last();
        lemma_with_defaults_facts(m, front);
        let w = with_defaults(m, front);
        let d = ds.last();
        assert forall|i: int| 0 <= i < ds.len() implies with_defaults(m, ds).contains_key(
            #[trigger] ds[i].0,
        ) by {
            if i < ds.len() - 1 {
                assert(ds[i] == front[i]);
            }
        }
        assert forall|k: Seq<char>| #[trigger] with_defaults(m, ds).contains_key(k) implies (
        m.contains_key(k) && with_defaults(m, ds)[k] == m[k]) || exists|i: int|
            0 <= i < ds.len() && ds[i] == (k, with_defaults(m, ds)[k]) by {
            if !w.contains_key(d.0) && k == d.0 {
                assert(ds[ds.len() - 1] == (k, with_defaults(m, ds)[k]));
            } else if !((m.contains_key(k) && w[k] == m[k])) {
                let i = choose|i: int| 0 <= i < front.len() && front[i] == (k, w[k]);
                assert(ds[i] == front[i]);
            }
        }
        if forall|i: int| 0 <= i < ds.len() ==> m.contains_key(#[trigger] ds[i].0) {
            assert forall|i: int| 0 <= i < front.len() implies m.contains_key(#[trigger] front[i].0) by {
                assert(front[i] == ds[i]);
            }
            assert(m.contains_key(ds[ds.len() - 1].0));
        }
    }
}

/// The settings after start-up hold every setting, with a storable key and
/// a readable value.
pub proof fn lemma_startup_settings_complete(existing: Option<Seq<char>>)
    ensures
        forall|i: int|
            0 <= i < default_settings().len() ==> startup_settings(existing).contains_key(
                #[trigger] default_settings()[i].0,
            ),
        readable(startup_settings(existing)),
{
    let read = match existing {
        Some(text) => parse_config_text(Map::empty(), text),
        None => Map::empty(),
    };
    assert(readable(Map::<Seq<char>, Seq<char>>::empty()));
    if let Some(text) = existing {
        lemma_lines_have_no_line_feed(text);
        lemma_apply_lines_readable(Map::empty(), lines_of(text));
    }
    lemma_defaults_storable();
    let ds = default_settings();
    lemma_with_defaults_facts(read, ds);
    let w = with_defaults(read, ds);
    assert forall|k: Seq<char>| #[trigger] w.contains_key(k) implies storable_key(k)
        && readable_value(w[k]) by {
        if !(read.contains_key(k) && w[k] == read[k]) {
            let i = choose|i: int| 0 <= i < ds.len() && ds[i] == (k, w[k]);
            assert(0 <= i < ds.len());
            assert(ds[i] == (k, w[k]));
            assert(storable_key(ds[i].0));
            assert(storable_value(ds[i].1));
        }
    }
}

/// What start-up writes, the next start-up reads back: the settings that
/// start-up gives are those that reading the file it writes gives, unless
/// a value ends with a carriage return (which only the last line of a file
/// without a final line feed can give).
pub proof fn lemma_restart_reads_back(config: &Config, existing: Option<Seq<char>>)
    requires
        config.wf(),
        config@ == startup_settings(existing),
        forall|k: Seq<char>| #[trigger]
            config@.contains_key(k) ==> !(config@[k].len() > 0 && config@[k].last() == '\r'),
    ensures
        startup_settings(Some(file_text_of(config.entries()))) == config@,
{
    lemma_startup_settings_complete(existing);
    lemma_file_text_reads_back(config);
    let m = config@;
    lemma_with_defaults_facts(m, default_settings());
}

} // verus!
