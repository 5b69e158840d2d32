//! Character-level text handling: whitespace trimming, searching, line
//! splitting, and decimal `i32` parsing and formatting, each stated over the
//! characters of the text.
use vstd::prelude::*;

verus! {

// ---------------------------------------------------------------------------
// Specifications
// ---------------------------------------------------------------------------

/// The characters with the Unicode `White_Space` property.
pub open spec fn is_whitespace(c: char) -> bool {
    ||| c == '\t'
    ||| c == '\n'
    ||| c == '\u{0B}'
    ||| c == '\u{0C}'
    ||| c == '\r'
    ||| c == ' '
    ||| c == '\u{85}'
    ||| c == '\u{A0}'
    ||| c == '\u{1680}'
    ||| ('\u{2000}' <= c && c <= '\u{200A}')
    ||| c == '\u{2028}'
    ||| c == '\u{2029}'
    ||| c == '\u{202F}'
    ||| c == '\u{205F}'
    ||| c == '\u{3000}'
}

/// `s` without its leading whitespace.
pub open spec fn trim_start(s: Seq<char>) -> Seq<char>
    decreases s.len(),
{
    if s.len() > 0 && is_whitespace(s[0]) {
        trim_start(s.drop_first())
    } else {
        s
    }
}

/// `s` without its trailing whitespace.
pub open spec fn trim_end(s: Seq<char>) -> Seq<char>
    decreases s.len(),
{
    if s.len() > 0 && is_whitespace(s.last()) {
        trim_end(s.drop_last())
    } else {
        s
    }
}

/// `s` without its leading and trailing whitespace.
pub open spec fn trim(s: Seq<char>) -> Seq<char> {
    trim_end(trim_start(s))
}

/// The index of the first occurrence of `c` in `s`.
pub open spec fn first_index(s: Seq<char>, c: char) -> Option<int>
    decreases s.len(),
{
    if s.len() == 0 {
        None
    } else if s[0] == c {
        Some(0)
    } else {
        match first_index(s.drop_first(), c) {
            Some(i) => Some(i + 1),
            None => None,
        }
    }
}

/// Where `first_index` points: at an occurrence of `c` with none before it.
pub proof fn lemma_first_index(s: Seq<char>, c: char)
    ensures
        match first_index(s, c) {
            Some(i) => 0 <= i < s.len() && s[i] == c && forall|j: int| 0 <= j < i ==> s[j] != c,
            None => forall|j: int| 0 <= j < s.len() ==> s[j] != c,
        },
    decreases s.len(),
{
    if s.len() > 0 && s[0] != c {
        lemma_first_index(s.drop_first(), c);
        assert forall|j: int| 0 < j < s.len() implies s[j] == s.drop_first()[j - 1] by {}
    }
}

/// The parts of `s` before and after the first occurrence of `c`.
pub open spec fn split_once(s: Seq<char>, c: char) -> Option<(Seq<char>, Seq<char>)> {
    match first_index(s, c) {
        Some(i) => Some((s.take(i), s.skip(i + 1))),
        None => None,
    }
}

/// A line that was ended by a line feed, without the carriage return that
/// may precede the line feed.
pub open spec fn strip_carriage_return(line: Seq<char>) -> Seq<char> {
    if line.len() > 0 && line.last() == '\r' {
        line.drop_last()
    } else {
        line
    }
}

/// The lines of a text: it is split at each line feed, a carriage return
/// directly before a line feed is dropped, and a final line feed does not
/// start another line. A carriage return at the very end of the text stays.
pub open spec fn lines_of(s: Seq<char>) -> Seq<Seq<char>>
    decreases s.len(),
{
    if s.len() == 0 {
        Seq::empty()
    } else {
        proof {
            lemma_first_index(s, '\n');
        }
        match first_index(s, '\n') {
            Some(i) => seq![strip_carriage_return(s.take(i))] + lines_of(s.skip(i + 1)),
            None => seq![s],
        }
    }
}

pub open spec fn is_digit(c: char) -> bool {
    '0' <= c && c <= '9'
}

pub open spec fn all_digits(s: Seq<char>) -> bool {
    forall|i: int| 0 <= i < s.len() ==> is_digit(#[trigger] s[i])
}

pub open spec fn digit_value(c: char) -> int {
    c as int - '0' as int
}

/// The number that a sequence of decimal digits denotes.
pub open spec fn digits_value(s: Seq<char>) -> int
    decreases s.len(),
{
    if s.len() == 0 {
        0
    } else {
        digits_value(s.drop_last()) * 10 + digit_value(s.last())
    }
}

/// What `i32`'s `FromStr` gives for a text: an optional `+` or `-`, then one
/// or more ASCII digits, whose signed value must lie in the range of `i32`.
pub open spec fn parse_i32_text(s: Seq<char>) -> Option<i32> {
    let negative = s.len() > 0 && s[0] == '-';
    let digits = if s.len() > 0 && (s[0] == '-' || s[0] == '+') {
        s.drop_first()
    } else {
        s
    };
    if digits.len() == 0 || !all_digits(digits) {
        None
    } else {
        let v = if negative {
            -digits_value(digits)
        } else {
            digits_value(digits)
        };
        if i32::MIN <= v <= i32::MAX {
            Some(v as i32)
        } else {
            None
        }
    }
}

pub open spec fn digit_char(d: int) -> char {
    (d + 48) as char
}

/// The decimal digits of `n`, most significant first, without leading zeros.
pub open spec fn natural_digits(n: nat) -> Seq<char>
    decreases n,
{
    if n < 10 {
        seq![digit_char(n as int)]
    } else {
        natural_digits(n / 10).push(digit_char((n % 10) as int))
    }
}

/// How `i32`'s `Display` writes a number: a minus sign for a negative
/// number, then the decimal digits of its magnitude.
pub open spec fn decimal_text(n: int) -> Seq<char> {
    if n < 0 {
        seq!['-'] + natural_digits((-n) as nat)
    } else {
        natural_digits(n as nat)
    }
}

// ---------------------------------------------------------------------------
// Executable functions
// ---------------------------------------------------------------------------

/// Appends one character to a string by calling std's `String::push`; the
/// contract claims what its documentation says: the character is added at
/// the end and the rest of the string is unchanged.
#[verifier::external_body]
pub(crate) fn push_char(s: &mut String, c: char)
    ensures
        final(s)@ == old(s)@.push(c),
{
    s.push(c);
}

/// The characters of `s`, in order.
pub fn chars_of(s: &str) -> (v: Vec<char>)
    ensures
        v@ == s@,
{
    let mut v: Vec<char> = Vec::new();
    for c in it: s.chars()
        invariant
            v@ == it.seq().take(it.index() as int),
    {
        v.push(c);
    }
    v
}

/// Appends `chars[lo..hi]` to `s`.
pub fn push_chars(s: &mut String, chars: &Vec<char>, lo: usize, hi: usize)
    requires
        lo <= hi <= chars.len(),
    ensures
        final(s)@ == old(s)@ + chars@.subrange(lo as int, hi as int),
{
    let mut i = lo;
    while i < hi
        invariant
            lo <= i <= hi <= chars.len(),
            s@ == old(s)@ + chars@.subrange(lo as int, i as int),
        decreases hi - i,
    {
        push_char(s, chars[i]);
        i += 1;
        assert(chars@.subrange(lo as int, i as int) =~= chars@.subrange(lo as int, i - 1).push(
            chars@[i - 1],
        ));
    }
}

/// A new string holding `chars[lo..hi]`.
pub fn string_from(chars: &Vec<char>, lo: usize, hi: usize) -> (s: String)
    requires
        lo <= hi <= chars.len(),
    ensures
        s@ == chars@.subrange(lo as int, hi as int),
{
    let mut s = String::new();
    push_chars(&mut s, chars, lo, hi);
    s
}

/// Whether `c` has the Unicode `White_Space` property.
pub fn is_whitespace_char(c: char) -> (b: bool)
    ensures
        b == is_whitespace(c),
{
    c == '\t' || c == '\n' || c == '\u{0B}' || c == '\u{0C}' || c == '\r' || c == ' ' || c
        == '\u{85}' || c == '\u{A0}' || c == '\u{1680}' || (c >= '\u{2000}' && c <= '\u{200A}')
        || c == '\u{2028}' || c == '\u{2029}' || c == '\u{202F}' || c == '\u{205F}' || c
        == '\u{3000}'
}

/// The start of `chars[lo..hi]` once its leading whitespace is skipped.
pub fn skip_leading_whitespace(chars: &Vec<char>, lo: usize, hi: usize) -> (r: usize)
    requires
        lo <= hi <= chars.len(),
    ensures
        lo <= r <= hi,
        trim_start(chars@.subrange(lo as int, hi as int)) == chars@.subrange(r as int, hi as int),
{
    let mut i = lo;
    while i < hi && is_whitespace_char(chars[i])
        invariant
            lo <= i <= hi <= chars.len(),
            trim_start(chars@.subrange(lo as int, hi as int)) == trim_start(
                chars@.subrange(i as int, hi as int),
            ),
        decreases hi - i,
    {
        assert(chars@.subrange(i as int, hi as int).drop_first() =~= chars@.subrange(
            i + 1,
            hi as int,
        ));
        i += 1;
    }
    i
}

/// The end of `chars[lo..hi]` once its trailing whitespace is dropped.
pub fn skip_trailing_whitespace(chars: &Vec<char>, lo: usize, hi: usize) -> (r: usize)
    requires
        lo <= hi <= chars.len(),
    ensures
        lo <= r <= hi,
        trim_end(chars@.subrange(lo as int, hi as int)) == chars@.subrange(lo as int, r as int),
{
    let mut j = hi;
    while j > lo && is_whitespace_char(chars[j - 1])
        invariant
            lo <= j <= hi <= chars.len(),
            trim_end(chars@.subrange(lo as int, hi as int)) == trim_end(
                chars@.subrange(lo as int, j as int),
            ),
        decreases j - lo,
    {
        assert(chars@.subrange(lo as int, j as int).drop_last() =~= chars@.subrange(
            lo as int,
            j - 1,
        ));
        j -= 1;
    }
    j
}

/// The position of the first `c` in `chars[lo..hi]`, counted from the start
/// of `chars`.
pub fn find_char(chars: &Vec<char>, lo: usize, hi: usize, c: char) -> (r: Option<usize>)
    requires
        lo <= hi <= chars.len(),
    ensures
        match first_index(chars@.subrange(lo as int, hi as int), c) {
            Some(i) => r == Some((lo + i) as usize),
            None => r is None,
        },
{
    let mut i = lo;
    while i < hi
        invariant
            lo <= i <= hi <= chars.len(),
            first_index(chars@.subrange(lo as int, hi as int), c) == match first_index(
                chars@.subrange(i as int, hi as int),
                c,
            ) {
                Some(k) => Some(k + (i - lo)),
                None => None::<int>,
            },
        decreases hi - i,
    {
        if chars[i] == c {
            return Some(i);
        }
        assert(chars@.subrange(i as int, hi as int).drop_first() =~= chars@.subrange(
            i + 1,
            hi as int,
        ));
        i += 1;
    }
    None
}

/// Parses a decimal `i32` the way `str::parse::<i32>` does.
pub fn parse_i32(s: &str) -> (r: Option<i32>)
    ensures
        r == parse_i32_text(s@),
{
    let chars = chars_of(s);
    let n = chars.len();
    let negative = n > 0 && chars[0] == '-';
    let start: usize = if n > 0 && (chars[0] == '-' || chars[0] == '+') {
        1
    } else {
        0
    };
    let ghost digits = chars@.subrange(start as int, n as int);
    assert(digits =~= if s@.len() > 0 && (s@[0] == '-' || s@[0] == '+') {
        s@.drop_first()
    } else {
        s@
    });
    if start == n {
        return None;
    }
    // The value of the digits read so far, capped at one above the largest
    // magnitude an `i32` can have.
    let cap: u64 = 2147483649;
    let mut acc: u64 = 0;
    let mut i = start;
    while i < n
        invariant
            start <= i <= n == chars.len(),
            digits == chars@.subrange(start as int, n as int),
            chars@ == s@,
            digits =~= if s@.len() > 0 && (s@[0] == '-' || s@[0] == '+') {
                s@.drop_first()
            } else {
                s@
            },
            all_digits(chars@.subrange(start as int, i as int)),
            digits_value(chars@.subrange(start as int, i as int)) >= 0,
            cap == 2147483649,
            acc as int == if digits_value(chars@.subrange(start as int, i as int)) < cap {
                digits_value(chars@.subrange(start as int, i as int))
            } else {
                cap as int
            },
        decreases n - i,
    {
        let c = chars[i];
        if !(c >= '0' && c <= '9') {
            assert(digits[i - start] == c);
            return None;
        }
        let d = (c as u32 - '0' as u32) as u64;
        let ghost prefix = chars@.subrange(start as int, i + 1);
        assert(prefix.drop_last() =~= chars@.subrange(start as int, i as int));
        assert(prefix.last() == c);
        if acc >= cap {
            acc = cap;
        } else {
            let next = acc * 10 + d;
            acc = if next >= cap {
                cap
            } else {
                next
            };
        }
        i += 1;
    }
    assert(chars@.subrange(start as int, n as int) == digits);
    if negative {
        if acc > 2147483648 {
            None
        } else {
            Some((0 - acc as i64) as i32)
        }
    } else {
        if acc > 2147483647 {
            None
        } else {
            Some(acc as i32)
        }
    }
}

/// Appends the decimal digits of `n` to `s`.
fn push_natural_digits(s: &mut String, n: u32)
    ensures
        final(s)@ == old(s)@ + natural_digits(n as nat),
    decreases n,
{
    if n >= 10 {
        push_natural_digits(s, n / 10);
    }
    let d = (n % 10) as u8;
    let c = (48u8 + d) as char;
    assert(c == digit_char((n % 10) as int));
    push_char(s, c);
    assert(n < 10 ==> n % 10 == n);
}

/// Writes `n` in decimal, the way `i32`'s `Display` does.
pub fn format_i32(n: i32) -> (s: String)
    ensures
        s@ == decimal_text(n as int),
{
    let mut s = String::new();
    if n < 0 {
        push_char(&mut s, '-');
        let magnitude = (0 - n as i64) as u32;
        push_natural_digits(&mut s, magnitude);
    } else {
        push_natural_digits(&mut s, n as u32);
    }
    s
}

// ---------------------------------------------------------------------------
// Laws
// ---------------------------------------------------------------------------

/// The decimal digits of a number are digits, and they denote the number.
pub proof fn lemma_natural_digits(n: nat)
    ensures
        natural_digits(n).len() > 0,
        all_digits(natural_digits(n)),
        digits_value(natural_digits(n)) == n,
    decreases n,
{
    if n >= 10 {
        lemma_natural_digits(n / 10);
        let p = natural_digits(n / 10);
        assert(natural_digits(n).drop_last() =~= p);
        assert(natural_digits(n).last() == digit_char((n % 10) as int));
        assert(digit_value(digit_char((n % 10) as int)) == n % 10);
        assert((n / 10) * 10 + n % 10 == n);
        let q = natural_digits(n);
        assert(digits_value(q) == digits_value(q.drop_last()) * 10 + digit_value(q.last()));
        assert(digits_value(q) == (n / 10) * 10 + n % 10);
        assert(forall|i: int| 0 <= i < p.len() ==> natural_digits(n)[i] == p[i]);
    } else {
        assert(natural_digits(n).drop_last() =~= Seq::<char>::empty());
        assert(digit_value(digit_char(n as int)) == n);
        let q = natural_digits(n);
        assert(digits_value(q) == digits_value(q.drop_last()) * 10 + digit_value(q.last()));
    }
}

/// Parsing what `format_i32` writes gives the number back.
pub proof fn lemma_parse_format_i32(n: i32)
    ensures
        parse_i32_text(decimal_text(n as int)) == Some(n),
{
    if n < 0 {
        let m = (-n) as nat;
        lemma_natural_digits(m);
        assert((seq!['-'] + natural_digits(m)).drop_first() =~= natural_digits(m));
    } else {
        lemma_natural_digits(n as nat);
        let d = natural_digits(n as nat);
        assert(is_digit(d[0]));
    }
}

} // verus!
