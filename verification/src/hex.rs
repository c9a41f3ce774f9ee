//! CSS hex colour parsing: `#rgb`, `#rgba`, `#rrggbb` and `#rrggbbaa`,
//! with the leading `#` optional and surrounding whitespace ignored.
//!
//! The parser yields the four 8-bit channels `[r, g, b, a]`.

use vstd::prelude::*;
use vstd::utf8::encode_utf8;

verus! {

/// Why a hex colour string was refused.
#[derive(Debug, Clone, Copy, PartialEq, Eq, Structural)]
pub enum HexError {
    /// The text after the optional `#` is not 3, 4, 6 or 8 bytes long.
    InvalidLength(usize),
    /// A character that is not a hexadecimal digit.
    InvalidDigit(char),
    /// A character index past the end of the text.
    IndexOutOfBounds(usize),
}

/// The value of a hexadecimal digit (`0-9`, `a-f`, `A-F`), as `char::to_digit(16)` defines it.
pub open spec fn hex_digit_value(c: char) -> Option<u8> {
    if '0' <= c && c <= '9' {
        Some((c as u32 - '0' as u32) as u8)
    } else if 'a' <= c && c <= 'f' {
        Some((c as u32 - 'a' as u32 + 10) as u8)
    } else if 'A' <= c && c <= 'F' {
        Some((c as u32 - 'A' as u32 + 10) as u8)
    } else {
        None
    }
}

/// The nibble at character index `i` of `s`.
pub open spec fn nibble_at(s: Seq<char>, i: usize) -> Result<u8, HexError> {
    if i < s.len() {
        match hex_digit_value(s[i as int]) {
            Some(d) => Ok(d),
            None => Err(HexError::InvalidDigit(s[i as int])),
        }
    } else {
        Err(HexError::IndexOutOfBounds(i))
    }
}

/// The byte spelled by the two hex digits at character indices `i` and `i + 1`.
pub open spec fn byte_at(s: Seq<char>, i: usize) -> Result<u8, HexError> {
    match nibble_at(s, i) {
        Err(e) => Err(e),
        Ok(hi) => match nibble_at(s, (i + 1) as usize) {
            Err(e) => Err(e),
            Ok(lo) => Ok((hi * 16 + lo) as u8),
        },
    }
}

/// The nibbles at character indices `0 .. k`, or the error of the first bad one.
pub open spec fn nibbles(s: Seq<char>, k: nat) -> Result<Seq<u8>, HexError>
    decreases k,
{
    if k == 0 {
        Ok(Seq::empty())
    } else {
        match nibbles(s, (k - 1) as nat) {
            Err(e) => Err(e),
            Ok(p) => match nibble_at(s, (k - 1) as usize) {
                Err(e) => Err(e),
                Ok(d) => Ok(p.push(d)),
            },
        }
    }
}

/// Once a digit fails, every longer run of digits fails with the same error.
proof fn lemma_nibbles_err_persists(s: Seq<char>, k: nat, m: nat)
    requires
        k <= m,
        nibbles(s, k) is Err,
    ensures
        nibbles(s, m) == nibbles(s, k),
    decreases m - k,
{
    if k < m {
        lemma_nibbles_err_persists(s, k, (m - 1) as nat);
    }
}

/// A successful run of `k` digits holds `k` nibbles, each below 16.
proof fn lemma_nibbles_ok(s: Seq<char>, k: nat)
    requires
        nibbles(s, k) is Ok,
    ensures
        nibbles(s, k)->Ok_0.len() == k,
        forall|i: int| 0 <= i < k ==> #[trigger] nibbles(s, k)->Ok_0[i] < 16,
    decreases k,
{
    if k > 0 {
        lemma_nibbles_ok(s, (k - 1) as nat);
    }
}

/// The text with one leading `#` removed, if it has one.
pub open spec fn strip_hash(s: Seq<char>) -> Seq<char> {
    if s.len() > 0 && s[0] == '#' {
        s.subrange(1, s.len() as int)
    } else {
        s
    }
}

/// The channels `[r, g, b, a]` that the already-trimmed text `t` spells, or the reason it spells none.
///
/// The length that selects the form is the byte length (as `str::len` reports it)
/// of the text after the `#`;
/// digits are then read by character index. Shorthand nibbles are doubled
/// (`f` is `ff`); forms without alpha are fully opaque.
pub open spec fn hex_channels(t: Seq<char>) -> Result<Seq<u8>, HexError> {
    let u = strip_hash(t);
    let n: usize = encode_utf8(u).len() as usize;
    if n == 3 || n == 4 {
        match nibbles(u, n as nat) {
            Err(e) => Err(e),
            Ok(d) => Ok(seq![
                (d[0] * 17) as u8,
                (d[1] * 17) as u8,
                (d[2] * 17) as u8,
                if n == 4 { (d[3] * 17) as u8 } else { 255u8 },
            ]),
        }
    } else if n == 6 || n == 8 {
        match nibbles(u, n as nat) {
            Err(e) => Err(e),
            Ok(d) => Ok(seq![
                (d[0] * 16 + d[1]) as u8,
                (d[2] * 16 + d[3]) as u8,
                (d[4] * 16 + d[5]) as u8,
                if n == 8 { (d[6] * 16 + d[7]) as u8 } else { 255u8 },
            ]),
        }
    } else {
        Err(HexError::InvalidLength(n))
    }
}

/// Whether `c` has the Unicode `White_Space` property: U+0009 to U+000D,
/// U+0020, U+0085, U+00A0, U+1680, U+2000 to U+200A, U+2028, U+2029, U+202F,
/// U+205F and U+3000.
pub open spec fn is_white_space(c: char) -> bool {
    ||| ('\u{9}' <= c && c <= '\u{d}')
    ||| c == ' '
    ||| c == '\u{85}'
    ||| c == '\u{a0}'
    ||| c == '\u{1680}'
    ||| ('\u{2000}' <= c && c <= '\u{200a}')
    ||| c == '\u{2028}'
    ||| c == '\u{2029}'
    ||| c == '\u{202f}'
    ||| c == '\u{205f}'
    ||| c == '\u{3000}'
}

/// How many white-space characters `s` starts with.
pub open spec fn leading_white_space(s: Seq<char>) -> nat
    decreases s.len(),
{
    if s.len() > 0 && is_white_space(s[0]) {
        1 + leading_white_space(s.drop_first())
    } else {
        0
    }
}

/// How many white-space characters `s` ends with.
pub open spec fn trailing_white_space(s: Seq<char>) -> nat
    decreases s.len(),
{
    if s.len() > 0 && is_white_space(s.last()) {
        1 + trailing_white_space(s.drop_last())
    } else {
        0
    }
}

/// `s` with its leading and then its trailing white space removed.
pub open spec fn trimmed(s: Seq<char>) -> Seq<char> {
    let rest = s.subrange(leading_white_space(s) as int, s.len() as int);
    rest.subrange(0, rest.len() - trailing_white_space(rest))
}

/// Calls `str::trim`, which removes the leading and trailing characters
/// with the Unicode `White_Space` property.
#[verifier::external_body]
fn trim_str(s: &str) -> (r: &str)
    ensures
        r@ == trimmed(s@),
{
    s.trim()
}

/// The value of a hexadecimal digit, or `None` for any other character.
pub fn hex_digit(c: char) -> (r: Option<u8>)
    ensures
        r == hex_digit_value(c),
{
    if '0' <= c && c <= '9' {
        Some((c as u32 - '0' as u32) as u8)
    } else if 'a' <= c && c <= 'f' {
        Some((c as u32 - 'a' as u32 + 10) as u8)
    } else if 'A' <= c && c <= 'F' {
        Some((c as u32 - 'A' as u32 + 10) as u8)
    } else {
        None
    }
}

/// Parse the single hex digit at character index `char_index` of `s`.
pub fn hex_nibble(s: &str, char_index: usize) -> (r: Result<u8, HexError>)
    ensures
        r == nibble_at(s@, char_index),
{
    if char_index < s.unicode_len() {
        let ch = s.get_char(char_index);
        match hex_digit(ch) {
            Some(d) => Ok(d),
            None => Err(HexError::InvalidDigit(ch)),
        }
    } else {
        Err(HexError::IndexOutOfBounds(char_index))
    }
}

/// Expand a nibble to a full byte by repeating it (`0xA` becomes `0xAA`).
pub fn expand_nibble(n: u8) -> (r: u8)
    ensures
        r == ((n << 4u8) | n),
        n < 16 ==> r == n * 17,
{
    assert(n < 16 ==> ((n << 4u8) | n) == n * 17) by (bit_vector);
    (n << 4u8) | n
}

/// Joins a high and a low nibble into one byte.
fn hex_pair(hi: u8, lo: u8) -> (r: u8)
    requires
        hi < 16,
        lo < 16,
    ensures
        r == hi * 16 + lo,
{
    assert(hi < 16 && lo < 16 ==> ((hi << 4u8) | lo) == hi * 16 + lo) by (bit_vector);
    (hi << 4u8) | lo
}

/// Parse the byte spelled by the hex digits at character indices `char_index` and `char_index + 1`.
pub fn hex_byte(s: &str, char_index: usize) -> (r: Result<u8, HexError>)
    requires
        char_index < usize::MAX,
    ensures
        r == byte_at(s@, char_index),
{
    let hi = match hex_nibble(s, char_index) {
        Ok(d) => d,
        Err(e) => return Err(e),
    };
    let lo = match hex_nibble(s, char_index + 1) {
        Ok(d) => d,
        Err(e) => return Err(e),
    };
    Ok(hex_pair(hi, lo))
}

/// Reads the first `k` nibbles of `s` one by one, stopping at the first failure.
fn read_nibbles(s: &str, k: usize) -> (r: Result<Vec<u8>, HexError>)
    ensures
        match r {
            Ok(d) => nibbles(s@, k as nat) == Ok::<Seq<u8>, HexError>(d@),
            Err(e) => nibbles(s@, k as nat) == Err::<Seq<u8>, HexError>(e),
        },
{
    let mut d: Vec<u8> = Vec::new();
    let mut i: usize = 0;
    while i < k
        invariant
            i <= k,
            nibbles(s@, i as nat) == Ok::<Seq<u8>, HexError>(d@),
        decreases k - i,
    {
        match hex_nibble(s, i) {
            Ok(v) => d.push(v),
            Err(e) => {
                proof {
                    lemma_nibbles_err_persists(s@, (i + 1) as nat, k as nat);
                }
                return Err(e);
            },
        }
        i = i + 1;
    }
    Ok(d)
}

/// Parse a hex colour whose surrounding whitespace is already gone.
pub fn parse_trimmed_hex(t: &str) -> (r: Result<[u8; 4], HexError>)
    ensures
        match r {
            Ok(c) => hex_channels(t@) == Ok::<Seq<u8>, HexError>(c@),
            Err(e) => hex_channels(t@) == Err::<Seq<u8>, HexError>(e),
        },
{
    let s = if t.unicode_len() > 0 && t.get_char(0) == '#' {
        t.substring_char(1, t.unicode_len())
    } else {
        t
    };
    assert(s@ == strip_hash(t@));
    let n = s.len();
    if n == 3 || n == 4 {
        let d = match read_nibbles(s, n) {
            Ok(d) => d,
            Err(e) => return Err(e),
        };
        proof { lemma_nibbles_ok(s@, n as nat); }
        let r = expand_nibble(d[0]);
        let g = expand_nibble(d[1]);
        let b = expand_nibble(d[2]);
        let a = if n == 4 { expand_nibble(d[3]) } else { 255u8 };
        let c = [r, g, b, a];
        assert(c@ =~= seq![r, g, b, a]);
        Ok(c)
    } else if n == 6 || n == 8 {
        let d = match read_nibbles(s, n) {
            Ok(d) => d,
            Err(e) => return Err(e),
        };
        proof { lemma_nibbles_ok(s@, n as nat); }
        let r = hex_pair(d[0], d[1]);
        let g = hex_pair(d[2], d[3]);
        let b = hex_pair(d[4], d[5]);
        let a = if n == 8 { hex_pair(d[6], d[7]) } else { 255u8 };
        let c = [r, g, b, a];
        assert(c@ =~= seq![r, g, b, a]);
        Ok(c)
    } else {
        Err(HexError::InvalidLength(n))
    }
}

/// Parse a CSS hex colour string into its channels `[r, g, b, a]`.
///
/// Surrounding whitespace is trimmed and one leading `#` is optional.
/// Accepted forms: `rgb`, `rgba` (each nibble doubled), `rrggbb`, `rrggbbaa`;
/// the forms without alpha are fully opaque (`a == 255`).
pub fn try_hex(s: &str) -> (r: Result<[u8; 4], HexError>)
    ensures
        match r {
            Ok(c) => hex_channels(trimmed(s@)) == Ok::<Seq<u8>, HexError>(c@),
            Err(e) => hex_channels(trimmed(s@)) == Err::<Seq<u8>, HexError>(e),
        },
{
    let t = trim_str(s);
    parse_trimmed_hex(t)
}

// ── Laws of the hex colour parser ────────────────────────────────────────

/// Two characters that are equal, or a lowercase hex letter and its capital.
pub open spec fn same_but_case(a: char, b: char) -> bool {
    ||| a == b
    ||| ('a' <= a && a <= 'f' && b as u32 == a as u32 - 32)
    ||| ('a' <= b && b <= 'f' && a as u32 == b as u32 - 32)
}

/// Two texts that differ at most in the case of their hex letters.
pub open spec fn case_variants(s: Seq<char>, t: Seq<char>) -> bool {
    &&& s.len() == t.len()
    &&& forall|i: int| 0 <= i < s.len() ==> same_but_case(#[trigger] s[i], t[i])
}

/// Each character of a shorthand spelled twice: `abc` becomes `aabbcc`.
pub open spec fn doubled(u: Seq<char>) -> Seq<char> {
    Seq::new(2 * u.len(), |i: int| u[i / 2])
}

/// Every character of `s` has a one-byte UTF-8 encoding.
pub open spec fn all_ascii(s: Seq<char>) -> bool {
    forall|i: int| 0 <= i < s.len() ==> (#[trigger] s[i] as u32) < 0x80
}

/// A UTF-8 encoding has at least one byte per character, and exactly one
/// per character when every character is ASCII.
proof fn lemma_utf8_len(s: Seq<char>)
    ensures
        encode_utf8(s).len() >= s.len(),
        encode_utf8(s).len() == s.len() <==> all_ascii(s),
    decreases s.len(),
{
    if s.len() > 0 {
        let r = s.drop_first();
        lemma_utf8_len(r);
        if all_ascii(s) {
            assert forall|i: int| 0 <= i < r.len() implies (#[trigger] r[i] as u32) < 0x80 by {
                assert(r[i] == s[i + 1]);
            }
        }
        if encode_utf8(s).len() == s.len() {
            assert(encode_utf8(r).len() == r.len());
            assert forall|i: int| 0 <= i < s.len() implies (#[trigger] s[i] as u32) < 0x80 by {
                if i > 0 {
                    assert(s[i] == r[i - 1]);
                }
            }
        }
    }
}

/// Texts whose characters pair up as equal or both ASCII have UTF-8
/// encodings of the same length.
proof fn lemma_utf8_len_matches(s: Seq<char>, t: Seq<char>)
    requires
        s.len() == t.len(),
        forall|i: int| 0 <= i < s.len() ==> #[trigger] s[i] == t[i] || ((s[i] as u32) < 0x80 && (t[i] as u32) < 0x80),
    ensures
        encode_utf8(s).len() == encode_utf8(t).len(),
    decreases s.len(),
{
    if s.len() > 0 {
        let (rs, rt) = (s.drop_first(), t.drop_first());
        assert forall|i: int| 0 <= i < rs.len() implies #[trigger] rs[i] == rt[i] || ((rs[i] as u32) < 0x80 && (rt[i] as u32) < 0x80) by {
            assert(rs[i] == s[i + 1] && rt[i] == t[i + 1]);
        }
        lemma_utf8_len_matches(rs, rt);
        assert(s[0] == t[0] || ((s[0] as u32) < 0x80 && (t[0] as u32) < 0x80));
    }
}

/// A successful run of `k` digits lies inside the text and is made of hex digits.
proof fn lemma_nibbles_ok_digits(s: Seq<char>, k: nat)
    requires
        k <= usize::MAX,
        nibbles(s, k) is Ok,
    ensures
        k <= s.len(),
        forall|i: int| 0 <= i < k ==> (#[trigger] hex_digit_value(s[i])) is Some,
        forall|i: int| 0 <= i < k ==> #[trigger] nibbles(s, k)->Ok_0[i] == hex_digit_value(s[i])->Some_0,
        nibbles(s, k)->Ok_0.len() == k,
    decreases k,
{
    if k > 0 {
        lemma_nibbles_ok_digits(s, (k - 1) as nat);
        let i = (k - 1) as usize;
        assert(nibble_at(s, i) is Ok);
        assert(i < s.len());
        assert(hex_digit_value(s[k - 1]) is Some);
        assert(nibbles(s, k)->Ok_0 == nibbles(s, (k - 1) as nat)->Ok_0.push(hex_digit_value(s[k - 1])->Some_0));
    }
}

/// A run of digits that runs off the end of the text has read every
/// character as a hex digit first.
proof fn lemma_nibbles_out_of_bounds(s: Seq<char>, k: nat, j: usize)
    requires
        k <= usize::MAX,
        nibbles(s, k) == Err::<Seq<u8>, HexError>(HexError::IndexOutOfBounds(j)),
    ensures
        j == s.len(),
        s.len() < k,
        forall|i: int| 0 <= i < s.len() ==> (#[trigger] hex_digit_value(s[i])) is Some,
    decreases k,
{
    let p = nibbles(s, (k - 1) as nat);
    if p is Err {
        lemma_nibbles_out_of_bounds(s, (k - 1) as nat, j);
    } else {
        lemma_nibbles_ok_digits(s, (k - 1) as nat);
    }
}

/// A hex digit is an ASCII character.
proof fn lemma_digit_is_ascii(c: char)
    requires
        hex_digit_value(c) is Some,
    ensures
        (c as u32) < 0x80,
{
}

/// A hex letter reads the same in either case; any other character has
/// no case variant but itself.
proof fn lemma_digit_ignores_case(a: char, b: char)
    requires
        same_but_case(a, b),
    ensures
        hex_digit_value(a) == hex_digit_value(b),
        hex_digit_value(a) is None ==> a == b,
{
    assert((a as u32) as char == a && (b as u32) as char == b);
}

/// Only a character's case can differ between case variants, so they read
/// the same nibbles and fail on the same character.
proof fn lemma_nibbles_ignore_case(s: Seq<char>, t: Seq<char>, k: nat)
    requires
        k <= usize::MAX,
        case_variants(s, t),
    ensures
        nibbles(s, k) == nibbles(t, k),
    decreases k,
{
    if k > 0 {
        lemma_nibbles_ignore_case(s, t, (k - 1) as nat);
        let i = (k - 1) as usize;
        if i < s.len() {
            lemma_digit_ignores_case(s[i as int], t[i as int]);
        }
        assert(nibble_at(s, i) == nibble_at(t, i));
    }
}

/// Surrounding text aside, the leading `#` is optional: with or without it
/// the text spells the same colour, or fails the same way.
pub proof fn law_hash_is_optional(t: Seq<char>)
    requires
        t.len() == 0 || t[0] != '#',
    ensures
        hex_channels(seq!['#'] + t) == hex_channels(t),
{
    assert((seq!['#'] + t).subrange(1, t.len() + 1 as int) =~= t);
}

/// Hex letters may be written in either case.
pub proof fn law_case_is_ignored(s: Seq<char>, t: Seq<char>)
    requires
        case_variants(s, t),
    ensures
        hex_channels(s) == hex_channels(t),
{
    let (us, ut) = (strip_hash(s), strip_hash(t));
    if s.len() > 0 {
        assert(same_but_case(s[0], t[0]));
        assert(s[0] == '#' <==> t[0] == '#');
    }
    assert(case_variants(us, ut)) by {
        if s.len() > 0 && s[0] == '#' {
            assert forall|i: int| 0 <= i < us.len() implies same_but_case(#[trigger] us[i], ut[i]) by {
                assert(us[i] == s[i + 1] && ut[i] == t[i + 1]);
            }
        }
    }
    assert forall|i: int| 0 <= i < us.len() implies #[trigger] us[i] == ut[i] || ((us[i] as u32) < 0x80 && (ut[i] as u32) < 0x80) by {
        assert(same_but_case(us[i], ut[i]));
    }
    lemma_utf8_len_matches(us, ut);
    let n: usize = encode_utf8(us).len() as usize;
    lemma_nibbles_ignore_case(us, ut, n as nat);
}

/// A shorthand spells the colour of its long form: `#f0a` is `#ff00aa`, and
/// `#f0a8` is `#ff00aa88`. A shorthand with a bad digit fails on the same
/// character as its long form.
pub proof fn law_shorthand_doubles_each_digit(u: Seq<char>)
    requires
        u.len() == 3 || u.len() == 4,
        all_ascii(u),
        u[0] != '#',
    ensures
        hex_channels(u) == hex_channels(doubled(u)),
        (forall|i: int| 0 <= i < u.len() ==> (#[trigger] hex_digit_value(u[i])) is Some)
            ==> hex_channels(u) is Ok,
{
    let w = doubled(u);
    assert(strip_hash(u) == u);
    assert(w[0] == u[0]);
    assert(strip_hash(w) == w);
    assert forall|i: int| 0 <= i < w.len() implies (#[trigger] w[i] as u32) < 0x80 by {
        assert(w[i] == u[i / 2]);
    }
    lemma_utf8_len(u);
    lemma_utf8_len(w);
    reveal_with_fuel(nibbles, 9);
    assert(w[0] == u[0] && w[1] == u[0] && w[2] == u[1] && w[3] == u[1] && w[4] == u[2] && w[5] == u[2]);
    if u.len() == 4 {
        assert(w[6] == u[3] && w[7] == u[3]);
    }
}

/// The forms without an alpha digit are fully opaque, and every colour has
/// four channels.
pub proof fn law_missing_alpha_is_opaque(t: Seq<char>)
    requires
        hex_channels(t) is Ok,
    ensures
        hex_channels(t)->Ok_0.len() == 4,
        encode_utf8(strip_hash(t)).len() == 3 || encode_utf8(strip_hash(t)).len() == 6
            ==> hex_channels(t)->Ok_0[3] == 255,
{
}

/// Digits are read by character only where the byte length allowed it, yet
/// a read never runs past the end: a text that is too short in characters
/// holds a multi-byte character, which fails as a digit first.
pub proof fn law_never_out_of_bounds(t: Seq<char>)
    ensures
        !(hex_channels(t) matches Err(HexError::IndexOutOfBounds(_))),
{
    let u = strip_hash(t);
    let n: usize = encode_utf8(u).len() as usize;
    if n == 3 || n == 4 || n == 6 || n == 8 {
        if let Err(HexError::IndexOutOfBounds(j)) = nibbles(u, n as nat) {
            lemma_nibbles_out_of_bounds(u, n as nat, j);
            assert forall|i: int| 0 <= i < u.len() implies (#[trigger] u[i] as u32) < 0x80 by {
                assert(hex_digit_value(u[i]) is Some);
                lemma_digit_is_ascii(u[i]);
            }
            lemma_utf8_len(u);
        }
    }
}

/// The value of a character known to be a hex digit.
pub open spec fn digit(c: char) -> int {
    hex_digit_value(c)->Some_0 as int
}

/// A hex digit's value is below 16.
proof fn lemma_digit_below_16(c: char)
    requires
        hex_digit_value(c) is Some,
    ensures
        0 <= digit(c) < 16,
{
}

/// A run of hex digits reads as their values, in order.
proof fn lemma_nibbles_of_digits(s: Seq<char>, k: nat)
    requires
        k <= s.len(),
        k <= usize::MAX,
        forall|i: int| 0 <= i < k ==> (#[trigger] hex_digit_value(s[i])) is Some,
    ensures
        nibbles(s, k) is Ok,
        nibbles(s, k)->Ok_0.len() == k,
        forall|i: int| 0 <= i < k ==> #[trigger] nibbles(s, k)->Ok_0[i] == digit(s[i]),
    decreases k,
{
    if k > 0 {
        lemma_nibbles_of_digits(s, (k - 1) as nat);
        assert(hex_digit_value(s[k - 1]) is Some);
        assert(nibble_at(s, (k - 1) as usize) == Ok::<u8, HexError>(hex_digit_value(s[k - 1])->Some_0));
    }
}

/// The channels are read in order: in the long forms channel `k` (red,
/// green, blue, alpha) is the byte spelled by digits `2k` and `2k + 1`; in
/// the shorthands it is digit `k` doubled; a form without alpha digits is
/// opaque. This holds with or without the leading `#`.
pub proof fn law_channels_are_read_in_order(u: Seq<char>)
    requires
        u.len() == 3 || u.len() == 4 || u.len() == 6 || u.len() == 8,
        forall|i: int| 0 <= i < u.len() ==> (#[trigger] hex_digit_value(u[i])) is Some,
    ensures
        hex_channels(u) is Ok,
        hex_channels(seq!['#'] + u) == hex_channels(u),
        hex_channels(u)->Ok_0.len() == 4,
        u.len() <= 4 ==> forall|k: int| 0 <= k < 3 ==> #[trigger] hex_channels(u)->Ok_0[k] == 17 * digit(u[k]),
        u.len() >= 6 ==> forall|k: int| 0 <= k < 3 ==> #[trigger] hex_channels(u)->Ok_0[k] == 16 * digit(u[2 * k]) + digit(u[2 * k + 1]),
        hex_channels(u)->Ok_0[3] == if u.len() == 4 {
            17 * digit(u[3])
        } else if u.len() == 8 {
            16 * digit(u[6]) + digit(u[7])
        } else {
            255
        },
{
    assert forall|i: int| 0 <= i < u.len() implies (#[trigger] u[i] as u32) < 0x80 by {
        lemma_digit_is_ascii(u[i]);
    }
    assert forall|i: int| 0 <= i < u.len() implies 0 <= #[trigger] digit(u[i]) < 16 by {
        lemma_digit_below_16(u[i]);
    }
    assert(hex_digit_value(u[0]) is Some);
    assert(u[0] != '#');
    law_hash_is_optional(u);
    assert(strip_hash(u) == u);
    lemma_utf8_len(u);
    lemma_nibbles_of_digits(u, u.len());
    let d = nibbles(u, u.len())->Ok_0;
    assert(hex_digit_value(u[0]) is Some && hex_digit_value(u[1]) is Some && hex_digit_value(u[2]) is Some);
    assert(0 <= digit(u[0]) < 16 && 0 <= digit(u[1]) < 16 && 0 <= digit(u[2]) < 16);
    if u.len() >= 4 {
        assert(hex_digit_value(u[3]) is Some);
        assert(0 <= digit(u[3]) < 16);
    }
    if u.len() >= 6 {
        assert(hex_digit_value(u[4]) is Some && hex_digit_value(u[5]) is Some);
        assert(0 <= digit(u[4]) < 16 && 0 <= digit(u[5]) < 16);
    }
    if u.len() == 8 {
        assert(hex_digit_value(u[6]) is Some && hex_digit_value(u[7]) is Some);
        assert(0 <= digit(u[6]) < 16 && 0 <= digit(u[7]) < 16);
    }
}

/// The alpha digits change only the alpha channel: a `rrggbbaa` text spells
/// the red, green and blue of its `rrggbb` prefix.
pub proof fn law_alpha_digits_change_only_alpha(u: Seq<char>)
    requires
        u.len() == 8,
        forall|i: int| 0 <= i < u.len() ==> (#[trigger] hex_digit_value(u[i])) is Some,
    ensures
        hex_channels(u)->Ok_0.subrange(0, 3) == hex_channels(u.subrange(0, 6))->Ok_0.subrange(0, 3),
        hex_channels(u.subrange(0, 6))->Ok_0[3] == 255,
{
    let p = u.subrange(0, 6);
    assert forall|i: int| 0 <= i < p.len() implies (#[trigger] hex_digit_value(p[i])) is Some by {
        assert(p[i] == u[i]);
    }
    law_channels_are_read_in_order(u);
    law_channels_are_read_in_order(p);
    let (a, b) = (hex_channels(u)->Ok_0, hex_channels(p)->Ok_0);
    assert forall|k: int| 0 <= k < 3 implies a[k] == b[k] by {
        assert(p[2 * k] == u[2 * k] && p[2 * k + 1] == u[2 * k + 1]);
        assert(a[k] == 16 * digit(u[2 * k]) + digit(u[2 * k + 1]));
        assert(b[k] == 16 * digit(p[2 * k]) + digit(p[2 * k + 1]));
    }
    assert(a.subrange(0, 3) =~= b.subrange(0, 3));
}

} // verus!
