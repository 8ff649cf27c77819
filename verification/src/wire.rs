//! The `.rpack.json` wire format: a JSON grammar specialised to the atlas
//! schema, with a canonical emitter, a parser, and proofs that parsing a
//! canonically emitted document gives back its value. The parser tolerates
//! whitespace anywhere between tokens but expects the members in their
//! canonical order (`size`, `filename`, `frames`, then optionally
//! `metadata`) and accepts no unknown members.
use vstd::prelude::*;

use crate::atlas::{frames_model, AtlasAsset, AtlasFrame, AtlasMetadata, AtlasModel, FrameModel, MetaModel, SerializableRect};
use crate::text::{dec_digits, digit_char, push_str_chars, push_u32};

verus! {

/// JSON whitespace.
pub open spec fn is_ws(c: char) -> bool {
    c == ' ' || c == '\t' || c == '\n' || c == '\r'
}

/// The position of the first non-whitespace character at or after `i`.
pub open spec fn skip_ws(s: Seq<char>, i: int) -> int
    decreases s.len() - i,
{
    if 0 <= i < s.len() && is_ws(s[i]) {
        skip_ws(s, i + 1)
    } else {
        i
    }
}

/// A decimal digit.
pub open spec fn is_digit(c: char) -> bool {
    ||| c == '0'
    ||| c == '1'
    ||| c == '2'
    ||| c == '3'
    ||| c == '4'
    ||| c == '5'
    ||| c == '6'
    ||| c == '7'
    ||| c == '8'
    ||| c == '9'
}

/// The value of a decimal digit.
pub open spec fn digit_val(c: char) -> int {
    if c == '0' {
        0
    } else if c == '1' {
        1
    } else if c == '2' {
        2
    } else if c == '3' {
        3
    } else if c == '4' {
        4
    } else if c == '5' {
        5
    } else if c == '6' {
        6
    } else if c == '7' {
        7
    } else if c == '8' {
        8
    } else {
        9
    }
}

/// The value of a decimal digit, or `None` for any other character.
pub fn digit_of(c: char) -> (r: Option<u32>)
    ensures
        is_digit(c) ==> r == Some((digit_val(c) as u32)),
        !is_digit(c) ==> r is None,
{
    match c {
        '0' => Some(0),
        '1' => Some(1),
        '2' => Some(2),
        '3' => Some(3),
        '4' => Some(4),
        '5' => Some(5),
        '6' => Some(6),
        '7' => Some(7),
        '8' => Some(8),
        '9' => Some(9),
        _ => None,
    }
}

/// Folds decimal digits into a value, failing when it would exceed `u32`.
pub open spec fn digits_fold(d: Seq<char>, acc: int) -> Option<int>
    decreases d.len(),
{
    if d.len() == 0 {
        Some(acc)
    } else {
        let acc2 = acc * 10 + digit_val(d[0]);
        if acc2 > u32::MAX {
            None
        } else {
            digits_fold(d.skip(1), acc2)
        }
    }
}

/// Parses the longest run of digits starting at `i`, folding from `acc`.
pub open spec fn parse_u32_rest(s: Seq<char>, i: int, acc: int) -> Option<(u32, int)>
    decreases s.len() - i,
{
    if 0 <= i < s.len() && is_digit(s[i]) {
        let acc2 = acc * 10 + digit_val(s[i]);
        if acc2 > u32::MAX {
            None
        } else {
            parse_u32_rest(s, i + 1, acc2)
        }
    } else if 0 <= acc <= u32::MAX {
        Some((acc as u32, i))
    } else {
        None
    }
}

/// Parses a JSON unsigned number that fits in `u32`: at least one digit, no
/// leading zero, no sign, no fraction or exponent.
pub open spec fn parse_u32(s: Seq<char>, i: int) -> Option<(u32, int)> {
    if 0 <= i < s.len() && is_digit(s[i]) {
        if s[i] == '0' {
            if i + 1 < s.len() && is_digit(s[i + 1]) {
                None
            } else {
                Some((0u32, i + 1))
            }
        } else {
            parse_u32_rest(s, i, 0)
        }
    } else {
        None
    }
}

/// Every character of a canonical decimal rendering is a digit.
pub proof fn lemma_dec_digits_are_digits(n: int)
    requires
        n >= 0,
    ensures
        dec_digits(n).len() >= 1,
        forall|j: int| 0 <= j < dec_digits(n).len() ==> is_digit(#[trigger] dec_digits(n)[j]),
    decreases n,
{
    if n >= 10 {
        lemma_dec_digits_are_digits(n / 10);
    }
}

/// A canonical decimal rendering of a positive number does not start with '0'.
pub proof fn lemma_dec_digits_first(n: int)
    requires
        n >= 1,
    ensures
        dec_digits(n)[0] != '0',
    decreases n,
{
    if n >= 10 {
        lemma_dec_digits_first(n / 10);
        lemma_dec_digits_are_digits(n / 10);
        assert(dec_digits(n)[0] == dec_digits(n / 10)[0]);
    }
}

proof fn lemma_digits_fold_push(d: Seq<char>, c: char, acc: int)
    ensures
        digits_fold(d.push(c), acc) == (match digits_fold(d, acc) {
            Some(v) => if v * 10 + digit_val(c) > u32::MAX {
                None
            } else {
                Some(v * 10 + digit_val(c))
            },
            None => None,
        }),
    decreases d.len(),
{
    let e = d.push(c);
    assert(e.len() == d.len() + 1);
    if d.len() == 0 {
        assert(e[0] == c);
        assert(e.skip(1) =~= Seq::<char>::empty());
        let acc2 = acc * 10 + digit_val(c);
        if acc2 > u32::MAX {
            assert(digits_fold(e, acc) is None);
        } else {
            assert(digits_fold(e.skip(1), acc2) == Some(acc2));
            assert(digits_fold(e, acc) == Some(acc2));
        }
        assert(digits_fold(d, acc) == Some(acc));
    } else {
        assert(e[0] == d[0]);
        assert(e.skip(1) =~= d.skip(1).push(c));
        let acc2 = acc * 10 + digit_val(d[0]);
        if acc2 <= u32::MAX {
            lemma_digits_fold_push(d.skip(1), c, acc2);
            assert(digits_fold(e, acc) == digits_fold(d.skip(1).push(c), acc2));
            assert(digits_fold(d, acc) == digits_fold(d.skip(1), acc2));
        } else {
            assert(digits_fold(e, acc) is None);
            assert(digits_fold(d, acc) is None);
        }
    }
}

/// Folding the canonical digits of `n` yields `n`.
pub proof fn lemma_digits_fold_dec(n: int)
    requires
        0 <= n <= u32::MAX,
    ensures
        digits_fold(dec_digits(n), 0) == Some(n),
    decreases n,
{
    if n < 10 {
        let d = dec_digits(n);
        assert(d =~= seq![digit_char(n)]);
        assert(d[0] == digit_char(n));
        assert(d.skip(1) =~= Seq::<char>::empty());
        assert(digit_val(digit_char(n)) == n);
        assert(digits_fold(d.skip(1), n) == Some(n));
        assert(digits_fold(d, 0) == Some(n));
    } else {
        lemma_digits_fold_dec(n / 10);
        lemma_digits_fold_push(dec_digits(n / 10), digit_char(n % 10), 0);
        assert(digit_val(digit_char(n % 10)) == n % 10);
        assert((n / 10) * 10 + n % 10 == n) by (nonlinear_arith);
        assert(dec_digits(n) == dec_digits(n / 10).push(digit_char(n % 10)));
        assert(digits_fold(dec_digits(n), 0) == Some((n / 10) * 10 + n % 10));
    }
}

/// Parsing the digit run equals folding it, when the run ends at `i + k`.
proof fn lemma_parse_u32_rest_run(s: Seq<char>, i: int, k: int, acc: int)
    requires
        0 <= i,
        i + k <= s.len(),
        k >= 0,
        0 <= acc <= u32::MAX,
        forall|j: int| i <= j < i + k ==> is_digit(#[trigger] s[j]),
        i + k == s.len() || !is_digit(s[i + k]),
    ensures
        parse_u32_rest(s, i, acc) == (match digits_fold(s.subrange(i, i + k), acc) {
            Some(v) => Some((v as u32, i + k)),
            None => None,
        }),
    decreases k,
{
    let d = s.subrange(i, i + k);
    if k == 0 {
        assert(d.len() == 0);
    } else {
        assert(is_digit(s[i]));
        assert(d[0] == s[i]);
        let acc2 = acc * 10 + digit_val(s[i]);
        if acc2 <= u32::MAX {
            lemma_parse_u32_rest_run(s, i + 1, k - 1, acc2);
            assert(d.skip(1) =~= s.subrange(i + 1, i + k));
        }
    }
}

/// Parsing a canonically rendered number recovers it, provided the next
/// character is not a digit.
pub proof fn lemma_parse_u32_of_dec(s: Seq<char>, i: int, n: u32)
    requires
        0 <= i,
        i + dec_digits(n as int).len() <= s.len(),
        s.subrange(i, i + dec_digits(n as int).len()) =~= dec_digits(n as int),
        i + dec_digits(n as int).len() == s.len() || !is_digit(
            s[i + dec_digits(n as int).len()]),
    ensures
        parse_u32(s, i) == Some((n, i + dec_digits(n as int).len())),
{
    let k = dec_digits(n as int).len() as int;
    lemma_dec_digits_are_digits(n as int);
    assert(forall|j: int| i <= j < i + k ==> is_digit(#[trigger] s[j])) by {
        assert(forall|j: int| i <= j < i + k ==> s[j] == dec_digits(n as int)[j - i]);
    }
    if n == 0 {
        assert(dec_digits(0) =~= seq![digit_char(0)]);
        assert(s[i] == s.subrange(i, i + k)[0]);
        assert(s[i] == '0');
    } else {
        lemma_dec_digits_first(n as int);
        assert(s[i] == dec_digits(n as int)[0]);
        assert(s[i] != '0');
        lemma_parse_u32_rest_run(s, i, k, 0);
        lemma_digits_fold_dec(n as int);
        assert(s.subrange(i, i + k) =~= dec_digits(n as int));
    }
}

/// Parses a number, mirroring `parse_u32`.
pub fn parse_u32_exec(s: &Vec<char>, i: usize) -> (r: Option<(u32, usize)>)
    ensures
        r is Some ==> r.unwrap().1 <= s@.len() && parse_u32(s@, i as int) == Some(
            (r.unwrap().0, r.unwrap().1 as int)),
        r is None ==> parse_u32(s@, i as int) is None,
{
    if !(i < s.len()) {
        return None;
    }
    let c = s[i];
    let d0 = digit_of(c);
    match d0 {
        None => None,
        Some(d) => {
            if c == '0' {
                if i + 1 < s.len() && digit_of(s[i + 1]).is_some() {
                    None
                } else {
                    Some((0u32, i + 1))
                }
            } else {
                let mut acc: u64 = 0;
                let mut j: usize = i;
                loop
                    invariant
                        i <= j <= s@.len(),
                        0 <= acc <= u32::MAX,
                        parse_u32(s@, i as int) == parse_u32_rest(s@, j as int, acc as int),
                    decreases s@.len() - j,
                {
                    if !(j < s.len()) {
                        return Some((acc as u32, j));
                    }
                    let dj = digit_of(s[j]);
                    match dj {
                        None => {
                            return Some((acc as u32, j));
                        },
                        Some(dv) => {
                            let acc2: u64 = acc * 10 + (dv as u64);
                            if acc2 > (u32::MAX as u64) {
                                return None;
                            }
                            acc = acc2;
                            j = j + 1;
                        },
                    }
                }
            }
        },
    }
}

/// The lowercase hexadecimal digit for a value below 16.
pub open spec fn hex_char(d: int) -> char {
    if d == 0 {
        '0'
    } else if d == 1 {
        '1'
    } else if d == 2 {
        '2'
    } else if d == 3 {
        '3'
    } else if d == 4 {
        '4'
    } else if d == 5 {
        '5'
    } else if d == 6 {
        '6'
    } else if d == 7 {
        '7'
    } else if d == 8 {
        '8'
    } else if d == 9 {
        '9'
    } else if d == 10 {
        'a'
    } else if d == 11 {
        'b'
    } else if d == 12 {
        'c'
    } else if d == 13 {
        'd'
    } else if d == 14 {
        'e'
    } else {
        'f'
    }
}

/// A hexadecimal digit, in either case.
pub open spec fn is_hex(c: char) -> bool {
    ||| is_digit(c)
    ||| c == 'a' || c == 'b' || c == 'c' || c == 'd' || c == 'e' || c == 'f'
    ||| c == 'A' || c == 'B' || c == 'C' || c == 'D' || c == 'E' || c == 'F'
}

/// The value of a hexadecimal digit.
pub open spec fn hex_val(c: char) -> int {
    if c == 'a' || c == 'A' {
        10
    } else if c == 'b' || c == 'B' {
        11
    } else if c == 'c' || c == 'C' {
        12
    } else if c == 'd' || c == 'D' {
        13
    } else if c == 'e' || c == 'E' {
        14
    } else if c == 'f' || c == 'F' {
        15
    } else {
        digit_val(c)
    }
}

fn hex_char_of(d: u32) -> (c: char)
    requires
        d < 16,
    ensures
        c == hex_char(d as int),
{
    match d {
        0 => '0',
        1 => '1',
        2 => '2',
        3 => '3',
        4 => '4',
        5 => '5',
        6 => '6',
        7 => '7',
        8 => '8',
        9 => '9',
        10 => 'a',
        11 => 'b',
        12 => 'c',
        13 => 'd',
        14 => 'e',
        _ => 'f',
    }
}

fn hex_of(c: char) -> (r: Option<u32>)
    ensures
        is_hex(c) ==> r == Some((hex_val(c) as u32)),
        !is_hex(c) ==> r is None,
{
    match c {
        '0' => Some(0),
        '1' => Some(1),
        '2' => Some(2),
        '3' => Some(3),
        '4' => Some(4),
        '5' => Some(5),
        '6' => Some(6),
        '7' => Some(7),
        '8' => Some(8),
        '9' => Some(9),
        'a' | 'A' => Some(10),
        'b' | 'B' => Some(11),
        'c' | 'C' => Some(12),
        'd' | 'D' => Some(13),
        'e' | 'E' => Some(14),
        'f' | 'F' => Some(15),
        _ => None,
    }
}

/// How one character is written inside a JSON string: quotes and backslashes
/// get a short escape, control characters a `\u00XX` escape, everything else
/// stands as itself.
pub open spec fn escape_char(c: char) -> Seq<char> {
    if c == '"' {
        seq!['\\', '"']
    } else if c == '\\' {
        seq!['\\', '\\']
    } else if c == '\u{8}' {
        seq!['\\', 'b']
    } else if c == '\u{c}' {
        seq!['\\', 'f']
    } else if c == '\n' {
        seq!['\\', 'n']
    } else if c == '\r' {
        seq!['\\', 'r']
    } else if c == '\t' {
        seq!['\\', 't']
    } else if (c as u32) < 32 {
        seq!['\\', 'u', '0', '0', hex_char(((c as u32) / 16) as int), hex_char(((c as u32) % 16) as int)]
    } else {
        seq![c]
    }
}

/// The body of a JSON string: each character escaped as needed.
pub open spec fn escape_seq(s: Seq<char>) -> Seq<char>
    decreases s.len(),
{
    if s.len() == 0 {
        Seq::<char>::empty()
    } else {
        escape_char(s[0]) + escape_seq(s.skip(1))
    }
}

/// A complete JSON string token for the character sequence `s`.
pub open spec fn emit_string(s: Seq<char>) -> Seq<char> {
    seq!['"'] + escape_seq(s) + seq!['"']
}

pub proof fn lemma_escape_seq_push(s: Seq<char>, c: char)
    ensures
        escape_seq(s.push(c)) == escape_seq(s) + escape_char(c),
    decreases s.len(),
{
    if s.len() == 0 {
        assert(s.push(c)[0] == c);
        assert(s.push(c).skip(1) =~= Seq::<char>::empty());
        assert(escape_seq(s.push(c).skip(1)) =~= Seq::<char>::empty());
        assert(escape_seq(s.push(c)) =~= escape_char(c) + escape_seq(s.push(c).skip(1)));
        assert(escape_seq(s.push(c)) =~= escape_char(c));
        assert(escape_seq(s) + escape_char(c) =~= escape_char(c));
    } else {
        assert(s.push(c)[0] == s[0]);
        assert(s.push(c).skip(1) =~= s.skip(1).push(c));
        lemma_escape_seq_push(s.skip(1), c);
        assert(escape_char(s[0]) + (escape_seq(s.skip(1)) + escape_char(c)) =~= (escape_char(s[0])
            + escape_seq(s.skip(1))) + escape_char(c));
    }
}

/// Appends the escaped form of one character.
fn push_escaped(out: &mut Vec<char>, c: char)
    ensures
        final(out)@ == old(out)@ + escape_char(c),
{
    if c == '"' {
        out.push('\\');
        out.push('"');
    } else if c == '\\' {
        out.push('\\');
        out.push('\\');
    } else if c == '\u{8}' {
        out.push('\\');
        out.push('b');
    } else if c == '\u{c}' {
        out.push('\\');
        out.push('f');
    } else if c == '\n' {
        out.push('\\');
        out.push('n');
    } else if c == '\r' {
        out.push('\\');
        out.push('r');
    } else if c == '\t' {
        out.push('\\');
        out.push('t');
    } else if (c as u32) < 32 {
        let code = c as u32;
        out.push('\\');
        out.push('u');
        out.push('0');
        out.push('0');
        out.push(hex_char_of(code / 16));
        out.push(hex_char_of(code % 16));
        proof {
            assert(out@ =~= old(out)@ + escape_char(c));
        }
    } else {
        out.push(c);
    }
    proof {
        assert(out@ =~= old(out)@ + escape_char(c));
    }
}

/// Appends the JSON string token for `s`.
pub fn push_json_string(out: &mut Vec<char>, s: &str)
    ensures
        final(out)@ == old(out)@ + emit_string(s@),
{
    out.push('"');
    let n = s.unicode_len();
    let mut i: usize = 0;
    while i < n
        invariant
            i <= n,
            n == s@.len(),
            out@ == old(out)@ + seq!['"'] + escape_seq(s@.take(i as int)),
        decreases n - i,
    {
        let c = s.get_char(i);
        push_escaped(out, c);
        proof {
            assert(s@.take(i + 1) =~= s@.take(i as int).push(s@[i as int]));
            lemma_escape_seq_push(s@.take(i as int), s@[i as int]);
            assert(old(out)@ + seq!['"'] + escape_seq(s@.take(i as int)) + escape_char(s@[i as int])
                =~= old(out)@ + seq!['"'] + escape_seq(s@.take(i + 1)));
        }
        i = i + 1;
    }
    out.push('"');
    proof {
        assert(s@.take(n as int) =~= s@);
        assert(old(out)@ + seq!['"'] + escape_seq(s@) + seq!['"'] =~= old(out)@ + emit_string(s@));
    }
}

/// A control character that equals the character rebuilt from its own code
/// point. Every character Rust can put in a string satisfies this; the
/// hypothesis only rules out degenerate models of `char`.
pub open spec fn char_code_reflects(c: char) -> bool {
    (c as u32) < 32 ==> ((((c as u32) as u8) as char) == c)
}

/// All characters of the sequence reflect their code points.
pub open spec fn chars_reflect(k: Seq<char>) -> bool {
    forall|j: int| 0 <= j < k.len() ==> char_code_reflects(#[trigger] k[j])
}

/// Prepends one decoded character to a partial parse.
pub open spec fn cons_char(c: char, r: Option<(Seq<char>, int)>) -> Option<(Seq<char>, int)> {
    match r {
        Some((k, j)) => Some((seq![c] + k, j)),
        None => None,
    }
}

/// Parses the remainder of a JSON string after the opening quote: characters
/// and escapes up to the closing quote.
pub open spec fn parse_string_rest(s: Seq<char>, i: int) -> Option<(Seq<char>, int)>
    decreases s.len() - i,
{
    if !(0 <= i < s.len()) {
        None
    } else if s[i] == '"' {
        Some((Seq::<char>::empty(), i + 1))
    } else if s[i] == '\\' {
        if i + 2 > s.len() {
            None
        } else {
            let e = s[i + 1];
            if e == 'u' {
                if i + 6 <= s.len() && is_hex(s[i + 2]) && is_hex(s[i + 3]) && is_hex(s[i + 4])
                    && is_hex(s[i + 5]) {
                    let code = hex_val(s[i + 2]) * 4096 + hex_val(s[i + 3]) * 256 + hex_val(
                        s[i + 4]) * 16 + hex_val(s[i + 5]);
                    if code < 128 {
                        cons_char(((code as u8) as char), parse_string_rest(s, i + 6))
                    } else {
                        None
                    }
                } else {
                    None
                }
            } else if e == '"' {
                cons_char('"', parse_string_rest(s, i + 2))
            } else if e == '\\' {
                cons_char('\\', parse_string_rest(s, i + 2))
            } else if e == '/' {
                cons_char('/', parse_string_rest(s, i + 2))
            } else if e == 'b' {
                cons_char('\u{8}', parse_string_rest(s, i + 2))
            } else if e == 'f' {
                cons_char('\u{c}', parse_string_rest(s, i + 2))
            } else if e == 'n' {
                cons_char('\n', parse_string_rest(s, i + 2))
            } else if e == 'r' {
                cons_char('\r', parse_string_rest(s, i + 2))
            } else if e == 't' {
                cons_char('\t', parse_string_rest(s, i + 2))
            } else {
                None
            }
        }
    } else if (s[i] as u32) < 32 {
        None
    } else {
        cons_char(s[i], parse_string_rest(s, i + 1))
    }
}

/// Parses a JSON string token starting at `i`.
pub open spec fn parse_string(s: Seq<char>, i: int) -> Option<(Seq<char>, int)> {
    if 0 <= i < s.len() && s[i] == '"' {
        parse_string_rest(s, i + 1)
    } else {
        None
    }
}

/// Parsing an escaped string body followed by a closing quote recovers the
/// original characters.
pub proof fn lemma_parse_string_rest_of_escape(s: Seq<char>, i: int, k: Seq<char>)
    requires
        chars_reflect(k),
        0 <= i,
        i + escape_seq(k).len() + 1 <= s.len(),
        s.subrange(i, i + escape_seq(k).len() + 1) =~= escape_seq(k) + seq!['"'],
    ensures
        parse_string_rest(s, i) == Some((k, i + escape_seq(k).len() + 1)),
    decreases k.len(),
{
    let full = escape_seq(k) + seq!['"'];
    let lk = escape_seq(k).len() as int;
    assert forall|j: int| 0 <= j < lk + 1 implies s[i + j] == full[j] by {
        assert(s.subrange(i, i + lk + 1)[j] == s[i + j]);
    }
    if k.len() == 0 {
        assert(escape_seq(k) =~= Seq::<char>::empty());
        assert(full[0] == '"');
        assert(s[i + 0] == full[0]);
        assert(s[i] == '"');
    } else {
        let c = k[0];
        let e0 = escape_char(c);
        let rest = escape_seq(k.skip(1));
        assert(escape_seq(k) == e0 + rest);
        let l0 = e0.len() as int;
        assert forall|j: int| 0 <= j < l0 implies s[i + j] == e0[j] by {
            assert(full[j] == (e0 + rest)[j]);
        }
        // The recursion sees the tail of the escaped body.
        assert(s.subrange(i + l0, i + lk + 1) =~= rest + seq!['"']) by {
            assert forall|j: int| 0 <= j < lk + 1 - l0 implies s.subrange(i + l0, i + lk + 1)[j]
                == (rest + seq!['"'])[j] by {
                assert(s.subrange(i + l0, i + lk + 1)[j] == s[i + l0 + j]);
                assert(s[i + l0 + j] == full[l0 + j]);
            }
        }
        assert(chars_reflect(k.skip(1))) by {
            assert(forall|j: int| 0 <= j < k.skip(1).len() ==> k.skip(1)[j] == k[j + 1]);
        }
        lemma_parse_string_rest_of_escape(s, i + l0, k.skip(1));
        assert(seq![c] + k.skip(1) =~= k);
        if c == '"' {
            assert(s[i] == '\\' && s[i + 1] == '"');
            assert(parse_string_rest(s, i) == cons_char('"', parse_string_rest(s, i + 2)));
        } else if c == '\\' {
            assert(s[i] == '\\' && s[i + 1] == '\\');
        } else if c == '\u{8}' {
            assert(s[i] == '\\' && s[i + 1] == 'b');
        } else if c == '\u{c}' {
            assert(s[i] == '\\' && s[i + 1] == 'f');
        } else if c == '\n' {
            assert(s[i] == '\\' && s[i + 1] == 'n');
        } else if c == '\r' {
            assert(s[i] == '\\' && s[i + 1] == 'r');
        } else if c == '\t' {
            assert(s[i] == '\\' && s[i + 1] == 't');
        } else if (c as u32) < 32 {
            let code = (c as u32) as int;
            assert(s[i] == '\\' && s[i + 1] == 'u' && s[i + 2] == '0' && s[i + 3] == '0');
            assert(s[i + 4] == hex_char(code / 16));
            assert(s[i + 5] == hex_char(code % 16));
            assert(0 <= code < 32);
            assert(0 <= code / 16 < 16 && 0 <= code % 16 < 16);
            assert(is_hex(hex_char(code / 16)));
            assert(is_hex(hex_char(code % 16)));
            assert(hex_val(hex_char(code / 16)) == code / 16);
            assert(hex_val(hex_char(code % 16)) == code % 16);
            assert(hex_val(s[i + 2]) == 0 && hex_val(s[i + 3]) == 0);
            let decoded = hex_val(s[i + 2]) * 4096 + hex_val(s[i + 3]) * 256 + hex_val(s[i + 4])
                * 16 + hex_val(s[i + 5]);
            assert(decoded == (code / 16) * 16 + code % 16);
            assert(decoded == code);
            assert(0 <= decoded < 128);
            assert(char_code_reflects(c));
            assert(((decoded as u8) as char) == c);
        } else {
            assert(s[i] == c);
            assert(s[i] != '"' && s[i] != '\\' && !((s[i] as u32) < 32));
        }
    }
}

/// Parsing an emitted string token recovers the original characters.
pub proof fn lemma_parse_string_of_emit(s: Seq<char>, i: int, k: Seq<char>)
    requires
        chars_reflect(k),
        0 <= i,
        i + emit_string(k).len() <= s.len(),
        s.subrange(i, i + emit_string(k).len()) =~= emit_string(k),
    ensures
        parse_string(s, i) == Some((k, i + emit_string(k).len())),
{
    let lk = escape_seq(k).len() as int;
    assert(emit_string(k).len() == lk + 2);
    assert(s[i] == emit_string(k)[0]) by {
        assert(s.subrange(i, i + lk + 2)[0] == s[i]);
    }
    assert(emit_string(k)[0] == '"');
    assert(s.subrange(i + 1, i + lk + 2) =~= escape_seq(k) + seq!['"']) by {
        assert forall|j: int| 0 <= j < lk + 1 implies s.subrange(i + 1, i + lk + 2)[j] == (
        escape_seq(k) + seq!['"'])[j] by {
            assert(s.subrange(i + 1, i + lk + 2)[j] == s[i + 1 + j]);
            assert(s[i + 1 + j] == s.subrange(i, i + lk + 2)[j + 1]);
            assert(emit_string(k)[j + 1] == (escape_seq(k) + seq!['"'])[j]);
        }
    }
    lemma_parse_string_rest_of_escape(s, i + 1, k);
}

/// Parses a string token, mirroring `parse_string`.
pub fn parse_string_exec(s: &Vec<char>, i: usize) -> (r: Option<(Vec<char>, usize)>)
    ensures
        r is Some ==> r.unwrap().1 <= s@.len() && parse_string(s@, i as int) == Some(
            (r.unwrap().0@, r.unwrap().1 as int)),
        r is None ==> parse_string(s@, i as int) is None,
{
    if !(i < s.len() && s[i] == '"') {
        return None;
    }
    let mut acc: Vec<char> = Vec::new();
    let mut j: usize = i + 1;
    loop
        invariant
            i + 1 <= j <= s@.len(),
            parse_string(s@, i as int) == (match parse_string_rest(s@, j as int) {
                Some((k, e)) => Some((acc@ + k, e)),
                None => None::<(Seq<char>, int)>,
            }),
        decreases s@.len() - j,
    {
        if !(j < s.len()) {
            return None;
        }
        let c = s[j];
        if c == '"' {
            proof {
                assert(acc@ + Seq::<char>::empty() =~= acc@);
            }
            return Some((acc, j + 1));
        }
        let ghost j0 = j as int;
        let ghost acc0 = acc@;
        if c == '\\' {
            if !(j + 1 < s.len()) {
                return None;
            }
            let e = s[j + 1];
            if e == 'u' {
                if s.len() - j < 6 {
                    return None;
                }
                let h2 = hex_of(s[j + 2]);
                let h3 = hex_of(s[j + 3]);
                let h4 = hex_of(s[j + 4]);
                let h5 = hex_of(s[j + 5]);
                match (h2, h3, h4, h5) {
                    (Some(v2), Some(v3), Some(v4), Some(v5)) => {
                        let code: u32 = v2 * 4096 + v3 * 256 + v4 * 16 + v5;
                        if code < 128 {
                            acc.push((code as u8) as char);
                            j = j + 6;
                        } else {
                            return None;
                        }
                    },
                    _ => {
                        return None;
                    },
                }
            } else {
                let decoded: Option<char> = match e {
                    '"' => Some('"'),
                    '\\' => Some('\\'),
                    '/' => Some('/'),
                    'b' => Some('\u{8}'),
                    'f' => Some('\u{c}'),
                    'n' => Some('\n'),
                    'r' => Some('\r'),
                    't' => Some('\t'),
                    _ => None,
                };
                match decoded {
                    Some(d) => {
                        acc.push(d);
                        j = j + 2;
                    },
                    None => {
                        return None;
                    },
                }
            }
        } else if (c as u32) < 32 {
            return None;
        } else {
            acc.push(c);
            j = j + 1;
        }
        proof {
            if parse_string_rest(s@, j as int) is Some {
                let (k2, e2) = parse_string_rest(s@, j as int).unwrap();
                assert(parse_string_rest(s@, j0) == cons_char(acc@[acc@.len() - 1], parse_string_rest(
                    s@, j as int)));
                assert(acc0 + (seq![acc@[acc@.len() - 1]] + k2) =~= acc@ + k2);
            }
        }
    }
}

/// The literal `lit` stands at position `i`.
pub open spec fn match_lit(s: Seq<char>, i: int, lit: Seq<char>) -> Option<int> {
    if 0 <= i && i + lit.len() <= s.len() && s.subrange(i, i + lit.len()) == lit {
        Some(i + lit.len())
    } else {
        None
    }
}

/// Skips whitespace, then expects the literal `lit`.
pub open spec fn tok(s: Seq<char>, i: int, lit: Seq<char>) -> Option<int> {
    match_lit(s, skip_ws(s, i), lit)
}

/// Skips whitespace starting at `i`, mirroring `skip_ws`.
pub fn skip_ws_exec(s: &Vec<char>, i: usize) -> (j: usize)
    requires
        i <= s@.len(),
    ensures
        j as int == skip_ws(s@, i as int),
        i <= j <= s@.len(),
{
    let mut j = i;
    loop
        invariant
            i <= j <= s@.len(),
            skip_ws(s@, i as int) == skip_ws(s@, j as int),
        decreases s@.len() - j,
    {
        if j < s.len() {
            let c = s[j];
            if c == ' ' || c == '\t' || c == '\n' || c == '\r' {
                j = j + 1;
                continue;
            }
        }
        return j;
    }
}

/// Expects `lit` at position `i` (no whitespace skipping), mirroring
/// `match_lit`.
pub fn match_lit_exec(s: &Vec<char>, i: usize, lit: &str) -> (r: Option<usize>)
    requires
        i <= s@.len(),
    ensures
        r is Some ==> r.unwrap() <= s@.len() && match_lit(s@, i as int, lit@) == Some(
            r.unwrap() as int),
        r is None ==> match_lit(s@, i as int, lit@) is None,
{
    let n = lit.unicode_len();
    let slen = s.len();
    if slen - i < n {
        proof {
            assert(match_lit(s@, i as int, lit@) is None);
        }
        return None;
    }
    let mut k: usize = 0;
    while k < n
        invariant
            0 <= k <= n,
            n == lit@.len(),
            slen == s@.len(),
            i + n <= slen,
            forall|j: int| 0 <= j < k ==> s@[i + j] == lit@[j],
        decreases n - k,
    {
        let c = s[i + k];
        let l = lit.get_char(k);
        if c != l {
            proof {
                assert(s@.subrange(i as int, i + n) != lit@) by {
                    assert(s@.subrange(i as int, i + n)[k as int] == s@[i + k]);
                }
            }
            return None;
        }
        k = k + 1;
    }
    proof {
        assert(s@.subrange(i as int, i + n) =~= lit@);
    }
    Some(i + n)
}

/// Skips whitespace, then expects `lit`, mirroring `tok`.
pub fn tok_exec(s: &Vec<char>, i: usize, lit: &str) -> (r: Option<usize>)
    requires
        i <= s@.len(),
    ensures
        r is Some ==> r.unwrap() <= s@.len() && tok(s@, i as int, lit@) == Some(r.unwrap() as int),
        r is None ==> tok(s@, i as int, lit@) is None,
{
    let j = skip_ws_exec(s, i);
    match_lit_exec(s, j, lit)
}

/// A sub-piece of a matched region is itself matched.
pub proof fn lemma_subrange_split(s: Seq<char>, i: int, a: Seq<char>, b: Seq<char>)
    requires
        0 <= i,
        i + a.len() + b.len() <= s.len(),
        s.subrange(i, i + a.len() + b.len()) == a + b,
    ensures
        s.subrange(i, i + a.len()) == a,
        s.subrange(i + a.len(), i + a.len() + b.len()) == b,
{
    let la = a.len() as int;
    let lb = b.len() as int;
    assert forall|j: int| 0 <= j < la + lb implies s[i + j] == (a + b)[j] by {
        assert(s.subrange(i, i + la + lb)[j] == s[i + j]);
    }
    assert(s.subrange(i, i + la) =~= a) by {
        assert forall|j: int| 0 <= j < la implies s.subrange(i, i + la)[j] == a[j] by {
            assert(s.subrange(i, i + la)[j] == s[i + j]);
        }
    }
    assert(s.subrange(i + la, i + la + lb) =~= b) by {
        assert forall|j: int| 0 <= j < lb implies s.subrange(i + la, i + la + lb)[j] == b[j] by {
            assert(s.subrange(i + la, i + la + lb)[j] == s[i + la + j]);
            assert(s[i + (la + j)] == (a + b)[la + j]);
            assert((a + b)[la + j] == b[j]);
        }
    }
}

/// A literal placed at `i` is consumed by `tok` with no whitespace before it.
pub proof fn lemma_tok_at(s: Seq<char>, i: int, lit: Seq<char>)
    requires
        0 <= i,
        i + lit.len() <= s.len(),
        s.subrange(i, i + lit.len()) == lit,
        lit.len() > 0,
        !is_ws(lit[0]),
    ensures
        tok(s, i, lit) == Some(i + lit.len()),
{
    assert(s[i] == lit[0]) by {
        assert(s.subrange(i, i + lit.len())[0] == s[i]);
    }
    assert(skip_ws(s, i) == i);
}


// ---------------------------------------------------------------------------
// Rectangles on the wire
// ---------------------------------------------------------------------------
/// The canonical wire form of a rectangle.
pub open spec fn emit_rect(r: SerializableRect) -> Seq<char> {
    "{"@ + "\"x\":"@ + dec_digits(r.x as int) + ","@ + "\"y\":"@ + dec_digits(r.y as int) + ","@
        + "\"w\":"@ + dec_digits(r.w as int) + ","@ + "\"h\":"@ + dec_digits(r.h as int) + "}"@
}

/// Parses a rectangle object: the fields `x`, `y`, `w`, `h` in that order.
pub open spec fn parse_rect(s: Seq<char>, i: int) -> Option<(SerializableRect, int)> {
    match tok(s, i, "{"@) {
        None => None,
        Some(i1) => match tok(s, i1, "\"x\":"@) {
            None => None,
            Some(i2) => match parse_u32(s, skip_ws(s, i2)) {
                None => None,
                Some((x, i3)) => match tok(s, i3, ","@) {
                    None => None,
                    Some(i4) => match tok(s, i4, "\"y\":"@) {
                        None => None,
                        Some(i5) => match parse_u32(s, skip_ws(s, i5)) {
                            None => None,
                            Some((y, i6)) => match tok(s, i6, ","@) {
                                None => None,
                                Some(i7) => match tok(s, i7, "\"w\":"@) {
                                    None => None,
                                    Some(i8) => match parse_u32(s, skip_ws(s, i8)) {
                                        None => None,
                                        Some((w, i9)) => match tok(s, i9, ","@) {
                                            None => None,
                                            Some(i10) => match tok(s, i10, "\"h\":"@) {
                                                None => None,
                                                Some(i11) => match parse_u32(
                                                    s,
                                                    skip_ws(s, i11),
                                                ) {
                                                    None => None,
                                                    Some((h, i12)) => match tok(s, i12, "}"@) {
                                                        None => None,
                                                        Some(i13) => Some(
                                                            (SerializableRect { x, y, w, h }, i13),
                                                        ),
                                                    },
                                                },
                                            },
                                        },
                                    },
                                },
                            },
                        },
                    },
                },
            },
        },
    }
}

/// A literal piece at the front of a matched region is consumed by `tok`.
pub proof fn lemma_tok_piece(s: Seq<char>, i: int, end: int, piece: Seq<char>, rest: Seq<char>)
    requires
        0 <= i,
        end <= s.len(),
        end - i == piece.len() + rest.len(),
        s.subrange(i, end) == piece + rest,
        piece.len() > 0,
        !is_ws(piece[0]),
    ensures
        tok(s, i, piece) == Some(i + piece.len()),
        s.subrange(i + piece.len(), end) == rest,
{
    lemma_subrange_split(s, i, piece, rest);
    lemma_tok_at(s, i, piece);
}

/// A number piece at the front of a matched region is consumed by
/// `parse_u32` after skipping (no) whitespace.
pub proof fn lemma_num_piece(s: Seq<char>, i: int, end: int, n: u32, rest: Seq<char>)
    requires
        0 <= i,
        end <= s.len(),
        end - i == dec_digits(n as int).len() + rest.len(),
        s.subrange(i, end) == dec_digits(n as int) + rest,
        rest.len() > 0,
        !is_digit(rest[0]),
    ensures
        skip_ws(s, i) == i,
        parse_u32(s, i) == Some((n, i + dec_digits(n as int).len())),
        s.subrange(i + dec_digits(n as int).len(), end) == rest,
{
    let d = dec_digits(n as int);
    lemma_subrange_split(s, i, d, rest);
    lemma_dec_digits_are_digits(n as int);
    assert(s[i] == d[0]) by {
        assert(s.subrange(i, i + d.len())[0] == s[i]);
    }
    assert(is_digit(s[i]));
    assert(!is_ws(s[i]));
    assert(skip_ws(s, i) == i);
    assert(s[i + d.len()] == rest[0]) by {
        assert(s.subrange(i + d.len(), end)[0] == s[i + d.len()]);
    }
    lemma_parse_u32_of_dec(s, i, n);
}

/// A string piece at the front of a matched region is consumed by
/// `parse_string`.
pub proof fn lemma_str_piece(s: Seq<char>, i: int, end: int, k: Seq<char>, rest: Seq<char>)
    requires
        chars_reflect(k),
        0 <= i,
        end <= s.len(),
        end - i == emit_string(k).len() + rest.len(),
        s.subrange(i, end) == emit_string(k) + rest,
    ensures
        skip_ws(s, i) == i,
        parse_string(s, i) == Some((k, i + emit_string(k).len())),
        s.subrange(i + emit_string(k).len(), end) == rest,
{
    lemma_subrange_split(s, i, emit_string(k), rest);
    assert(s[i] == emit_string(k)[0]) by {
        assert(s.subrange(i, i + emit_string(k).len())[0] == s[i]);
    }
    assert(emit_string(k)[0] == '"');
    assert(skip_ws(s, i) == i);
    lemma_parse_string_of_emit(s, i, k);
}

/// Parsing an emitted rectangle recovers it.
#[verifier::rlimit(60)]
pub proof fn lemma_parse_rect_of_emit(s: Seq<char>, i: int, r: SerializableRect)
    requires
        0 <= i,
        i + emit_rect(r).len() <= s.len(),
        s.subrange(i, i + emit_rect(r).len()) == emit_rect(r),
    ensures
        parse_rect(s, i) == Some((r, i + emit_rect(r).len())),
{
    reveal_strlit("{");
    reveal_strlit("\"x\":");
    reveal_strlit("\"y\":");
    reveal_strlit("\"w\":");
    reveal_strlit("\"h\":");
    reveal_strlit(",");
    reveal_strlit("}");
    let dx = dec_digits(r.x as int);
    let dy = dec_digits(r.y as int);
    let dw = dec_digits(r.w as int);
    let dh = dec_digits(r.h as int);
    lemma_dec_digits_are_digits(r.x as int);
    lemma_dec_digits_are_digits(r.y as int);
    lemma_dec_digits_are_digits(r.w as int);
    lemma_dec_digits_are_digits(r.h as int);
    let r12 = "}"@;
    let r11 = dh + r12;
    let r10 = "\"h\":"@ + r11;
    let r9 = ","@ + r10;
    let r8 = dw + r9;
    let r7 = "\"w\":"@ + r8;
    let r6 = ","@ + r7;
    let r5 = dy + r6;
    let r4 = "\"y\":"@ + r5;
    let r3 = ","@ + r4;
    let r2 = dx + r3;
    let r1 = "\"x\":"@ + r2;
    assert(emit_rect(r) =~= "{"@ + r1);
    let end = i + emit_rect(r).len();
    lemma_tok_piece(s, i, end, "{"@, r1);
    let i1 = i + 1;
    lemma_tok_piece(s, i1, end, "\"x\":"@, r2);
    let i2 = i1 + 4;
    assert(r2 =~= dx + r3);
    lemma_num_piece(s, i2, end, r.x, r3);
    let i3 = i2 + dx.len() as int;
    lemma_tok_piece(s, i3, end, ","@, r4);
    let i4 = i3 + 1;
    lemma_tok_piece(s, i4, end, "\"y\":"@, r5);
    let i5 = i4 + 4;
    lemma_num_piece(s, i5, end, r.y, r6);
    let i6 = i5 + dy.len() as int;
    lemma_tok_piece(s, i6, end, ","@, r7);
    let i7 = i6 + 1;
    lemma_tok_piece(s, i7, end, "\"w\":"@, r8);
    let i8 = i7 + 4;
    lemma_num_piece(s, i8, end, r.w, r9);
    let i9 = i8 + dw.len() as int;
    lemma_tok_piece(s, i9, end, ","@, r10);
    let i10 = i9 + 1;
    lemma_tok_piece(s, i10, end, "\"h\":"@, r11);
    let i11 = i10 + 4;
    lemma_num_piece(s, i11, end, r.h, r12);
    let i12 = i11 + dh.len() as int;
    lemma_tok_piece(s, i12, end, "}"@, Seq::<char>::empty());
    assert(r12 =~= "}"@ + Seq::<char>::empty());
    assert(parse_rect(s, i) == Some((SerializableRect { x: r.x, y: r.y, w: r.w, h: r.h }, end)));
    assert(SerializableRect { x: r.x, y: r.y, w: r.w, h: r.h } == r);
}

/// Appends the canonical wire form of a rectangle.
pub fn push_rect(out: &mut Vec<char>, r: &SerializableRect)
    ensures
        final(out)@ == old(out)@ + emit_rect(*r),
{
    push_str_chars(out, "{");
    push_str_chars(out, "\"x\":");
    push_u32(out, r.x);
    push_str_chars(out, ",");
    push_str_chars(out, "\"y\":");
    push_u32(out, r.y);
    push_str_chars(out, ",");
    push_str_chars(out, "\"w\":");
    push_u32(out, r.w);
    push_str_chars(out, ",");
    push_str_chars(out, "\"h\":");
    push_u32(out, r.h);
    push_str_chars(out, "}");
    proof {
        assert(out@ =~= old(out)@ + emit_rect(*r));
    }
}

/// Parses a rectangle, mirroring `parse_rect`.
pub fn parse_rect_exec(s: &Vec<char>, i: usize) -> (r: Option<(SerializableRect, usize)>)
    requires
        i <= s@.len(),
    ensures
        r is Some ==> r.unwrap().1 <= s@.len() && parse_rect(s@, i as int) == Some(
            (r.unwrap().0, r.unwrap().1 as int)),
        r is None ==> parse_rect(s@, i as int) is None,
{
    let i1 = match tok_exec(s, i, "{") {
        Some(j) => j,
        None => {
            return None;
        },
    };
    let i2 = match tok_exec(s, i1, "\"x\":") {
        Some(j) => j,
        None => {
            return None;
        },
    };
    let (x, i3) = match parse_u32_exec(s, skip_ws_exec(s, i2)) {
        Some(p) => p,
        None => {
            return None;
        },
    };
    let i4 = match tok_exec(s, i3, ",") {
        Some(j) => j,
        None => {
            return None;
        },
    };
    let i5 = match tok_exec(s, i4, "\"y\":") {
        Some(j) => j,
        None => {
            return None;
        },
    };
    let (y, i6) = match parse_u32_exec(s, skip_ws_exec(s, i5)) {
        Some(p) => p,
        None => {
            return None;
        },
    };
    let i7 = match tok_exec(s, i6, ",") {
        Some(j) => j,
        None => {
            return None;
        },
    };
    let i8 = match tok_exec(s, i7, "\"w\":") {
        Some(j) => j,
        None => {
            return None;
        },
    };
    let (w, i9) = match parse_u32_exec(s, skip_ws_exec(s, i8)) {
        Some(p) => p,
        None => {
            return None;
        },
    };
    let i10 = match tok_exec(s, i9, ",") {
        Some(j) => j,
        None => {
            return None;
        },
    };
    let i11 = match tok_exec(s, i10, "\"h\":") {
        Some(j) => j,
        None => {
            return None;
        },
    };
    let (h, i12) = match parse_u32_exec(s, skip_ws_exec(s, i11)) {
        Some(p) => p,
        None => {
            return None;
        },
    };
    let i13 = match tok_exec(s, i12, "}") {
        Some(j) => j,
        None => {
            return None;
        },
    };
    Some((SerializableRect { x, y, w, h }, i13))
}

// ---------------------------------------------------------------------------
// Frames on the wire
// ---------------------------------------------------------------------------
/// The canonical wire form of one frame.
pub open spec fn emit_frame(f: FrameModel) -> Seq<char> {
    "{"@ + "\"key\":"@ + emit_string(f.key) + ","@ + "\"frame\":"@ + emit_rect(f.frame) + "}"@
}

/// Parses one frame object: the fields `key` and `frame` in that order.
pub open spec fn parse_frame(s: Seq<char>, i: int) -> Option<(FrameModel, int)> {
    match tok(s, i, "{"@) {
        None => None,
        Some(i1) => match tok(s, i1, "\"key\":"@) {
            None => None,
            Some(i2) => match parse_string(s, skip_ws(s, i2)) {
                None => None,
                Some((key, i3)) => match tok(s, i3, ","@) {
                    None => None,
                    Some(i4) => match tok(s, i4, "\"frame\":"@) {
                        None => None,
                        Some(i5) => match parse_rect(s, i5) {
                            None => None,
                            Some((rect, i6)) => match tok(s, i6, "}"@) {
                                None => None,
                                Some(i7) => Some((FrameModel { key, frame: rect }, i7)),
                            },
                        },
                    },
                },
            },
        },
    }
}

/// Every key in the sequence of frames reflects its code points.
pub open spec fn frames_reflect(fs: Seq<FrameModel>) -> bool {
    forall|j: int| 0 <= j < fs.len() ==> chars_reflect((#[trigger] fs[j]).key)
}

/// Parsing an emitted frame recovers it.
#[verifier::rlimit(60)]
pub proof fn lemma_parse_frame_of_emit(s: Seq<char>, i: int, f: FrameModel)
    requires
        chars_reflect(f.key),
        0 <= i,
        i + emit_frame(f).len() <= s.len(),
        s.subrange(i, i + emit_frame(f).len()) == emit_frame(f),
    ensures
        parse_frame(s, i) == Some((f, i + emit_frame(f).len())),
{
    reveal_strlit("{");
    reveal_strlit("\"key\":");
    reveal_strlit(",");
    reveal_strlit("\"frame\":");
    reveal_strlit("}");
    let ks = emit_string(f.key);
    let rs = emit_rect(f.frame);
    let r6 = "}"@;
    let r5 = rs + r6;
    let r4 = "\"frame\":"@ + r5;
    let r3 = ","@ + r4;
    let r2 = ks + r3;
    let r1 = "\"key\":"@ + r2;
    assert(emit_frame(f) =~= "{"@ + r1);
    let end = i + emit_frame(f).len();
    lemma_tok_piece(s, i, end, "{"@, r1);
    let i1 = i + 1;
    lemma_tok_piece(s, i1, end, "\"key\":"@, r2);
    let i2 = i1 + 6;
    lemma_str_piece(s, i2, end, f.key, r3);
    let i3 = i2 + ks.len() as int;
    lemma_tok_piece(s, i3, end, ","@, r4);
    let i4 = i3 + 1;
    lemma_tok_piece(s, i4, end, "\"frame\":"@, r5);
    let i5 = i4 + 8;
    lemma_subrange_split(s, i5, rs, r6);
    lemma_parse_rect_of_emit(s, i5, f.frame);
    let i6 = i5 + rs.len() as int;
    lemma_tok_piece(s, i6, end, "}"@, Seq::<char>::empty());
    assert(r6 =~= "}"@ + Seq::<char>::empty());
    assert(FrameModel { key: f.key, frame: f.frame } == f);
}

/// The comma-separated continuation of a frame list, including the closing
/// bracket.
pub open spec fn emit_frames_seg(fs: Seq<FrameModel>) -> Seq<char>
    decreases fs.len(),
{
    if fs.len() == 0 {
        Seq::<char>::empty()
    } else {
        ","@ + emit_frame(fs[0]) + emit_frames_seg(fs.skip(1))
    }
}

/// The canonical wire form of the frame list.
pub open spec fn emit_frames(fs: Seq<FrameModel>) -> Seq<char> {
    if fs.len() == 0 {
        "["@ + "]"@
    } else {
        "["@ + emit_frame(fs[0]) + emit_frames_seg(fs.skip(1)) + "]"@
    }
}

pub proof fn lemma_emit_frames_seg_push(fs: Seq<FrameModel>, f: FrameModel)
    ensures
        emit_frames_seg(fs.push(f)) == emit_frames_seg(fs) + ","@ + emit_frame(f),
    decreases fs.len(),
{
    if fs.len() == 0 {
        assert(fs.push(f)[0] == f);
        assert(fs.push(f).skip(1) =~= Seq::<FrameModel>::empty());
        assert(emit_frames_seg(fs.push(f).skip(1)) =~= Seq::<char>::empty());
        assert(emit_frames_seg(fs.push(f)) =~= ","@ + emit_frame(f));
        assert(emit_frames_seg(fs) + ","@ + emit_frame(f) =~= ","@ + emit_frame(f));
    } else {
        assert(fs.push(f)[0] == fs[0]);
        assert(fs.push(f).skip(1) =~= fs.skip(1).push(f));
        lemma_emit_frames_seg_push(fs.skip(1), f);
        assert(","@ + emit_frame(fs[0]) + (emit_frames_seg(fs.skip(1)) + ","@ + emit_frame(f))
            =~= (","@ + emit_frame(fs[0]) + emit_frames_seg(fs.skip(1))) + ","@ + emit_frame(f));
    }
}

/// Prepends one parsed frame to a partial parse of the list.
pub open spec fn cons_frame(f: FrameModel, r: Option<(Seq<FrameModel>, int)>) -> Option<
    (Seq<FrameModel>, int),
> {
    match r {
        Some((fs, j)) => Some((seq![f] + fs, j)),
        None => None,
    }
}

/// Parses the continuation of a frame list: either the closing bracket or a
/// comma followed by another frame.
pub open spec fn parse_frames_rest(s: Seq<char>, i: int) -> Option<(Seq<FrameModel>, int)>
    decreases s.len() - i,
{
    match tok(s, i, "]"@) {
        Some(j) => Some((Seq::<FrameModel>::empty(), j)),
        None => match tok(s, i, ","@) {
            None => None,
            Some(i1) => match parse_frame(s, i1) {
                None => None,
                Some((f, i2)) => if i2 <= i || i2 > s.len() {
                    None
                } else {
                    cons_frame(f, parse_frames_rest(s, i2))
                },
            },
        },
    }
}

/// Parses a frame list: `[` then frames separated by commas, or `[]`.
pub open spec fn parse_frames(s: Seq<char>, i: int) -> Option<(Seq<FrameModel>, int)> {
    match tok(s, i, "["@) {
        None => None,
        Some(i1) => match tok(s, i1, "]"@) {
            Some(j) => Some((Seq::<FrameModel>::empty(), j)),
            None => match parse_frame(s, i1) {
                None => None,
                Some((f, i2)) => if i2 > s.len() {
                    None
                } else {
                    cons_frame(f, parse_frames_rest(s, i2))
                },
            },
        },
    }
}

/// Parsing an emitted frame-list continuation recovers the frames.
#[verifier::rlimit(60)]
pub proof fn lemma_parse_frames_rest_of_emit(s: Seq<char>, i: int, fs: Seq<FrameModel>)
    requires
        frames_reflect(fs),
        0 <= i,
        i + emit_frames_seg(fs).len() + 1 <= s.len(),
        s.subrange(i, i + emit_frames_seg(fs).len() + 1) == emit_frames_seg(fs) + "]"@,
    ensures
        parse_frames_rest(s, i) == Some((fs, i + emit_frames_seg(fs).len() + 1)),
    decreases fs.len(),
{
    reveal_strlit("]");
    reveal_strlit(",");
    reveal_strlit("{");
    let end = i + emit_frames_seg(fs).len() + 1;
    if fs.len() == 0 {
        assert(emit_frames_seg(fs) =~= Seq::<char>::empty());
        assert(emit_frames_seg(fs) + "]"@ =~= "]"@);
        lemma_tok_piece(s, i, end, "]"@, Seq::<char>::empty());
    } else {
        let f0 = emit_frame(fs[0]);
        let r2 = emit_frames_seg(fs.skip(1)) + "]"@;
        let r1 = f0 + r2;
        assert(emit_frames_seg(fs) + "]"@ =~= ","@ + r1);
        lemma_tok_piece(s, i, end, ","@, r1);
        let i1 = i + 1;
        lemma_subrange_split(s, i1, f0, r2);
        assert(chars_reflect(fs[0].key));
        lemma_parse_frame_of_emit(s, i1, fs[0]);
        let i2 = i1 + f0.len() as int;
        assert(frames_reflect(fs.skip(1))) by {
            assert(forall|j: int| 0 <= j < fs.skip(1).len() ==> fs.skip(1)[j] == fs[j + 1]);
        }
        lemma_parse_frames_rest_of_emit(s, i2, fs.skip(1));
        // The list did not open with the closing bracket.
        assert(s[i] == ',') by {
            assert(s.subrange(i, end)[0] == s[i]);
        }
        assert(skip_ws(s, i) == i);
        assert(tok(s, i, "]"@) is None) by {
            if i + 1 <= s.len() && s.subrange(i, i + 1) == "]"@ {
                assert(s.subrange(i, i + 1)[0] == s[i]);
            }
        }
        assert(seq![fs[0]] + fs.skip(1) =~= fs);
        assert(emit_frames_seg(fs).len() == 1 + f0.len() + emit_frames_seg(fs.skip(1)).len());
    }
}

/// Parsing an emitted frame list recovers the frames.
#[verifier::rlimit(60)]
pub proof fn lemma_parse_frames_of_emit(s: Seq<char>, i: int, fs: Seq<FrameModel>)
    requires
        frames_reflect(fs),
        0 <= i,
        i + emit_frames(fs).len() <= s.len(),
        s.subrange(i, i + emit_frames(fs).len()) == emit_frames(fs),
    ensures
        parse_frames(s, i) == Some((fs, i + emit_frames(fs).len())),
{
    reveal_strlit("[");
    reveal_strlit("]");
    reveal_strlit("{");
    let end = i + emit_frames(fs).len();
    if fs.len() == 0 {
        assert(emit_frames(fs) =~= "["@ + "]"@);
        lemma_tok_piece(s, i, end, "["@, "]"@);
        lemma_tok_piece(s, i + 1, end, "]"@, Seq::<char>::empty());
        assert("]"@ =~= "]"@ + Seq::<char>::empty());
    } else {
        let f0 = emit_frame(fs[0]);
        let r2 = emit_frames_seg(fs.skip(1)) + "]"@;
        let r1 = f0 + r2;
        assert(emit_frames(fs) =~= "["@ + r1);
        lemma_tok_piece(s, i, end, "["@, r1);
        let i1 = i + 1;
        lemma_subrange_split(s, i1, f0, r2);
        assert(chars_reflect(fs[0].key));
        lemma_parse_frame_of_emit(s, i1, fs[0]);
        let i2 = i1 + f0.len() as int;
        assert(frames_reflect(fs.skip(1))) by {
            assert(forall|j: int| 0 <= j < fs.skip(1).len() ==> fs.skip(1)[j] == fs[j + 1]);
        }
        lemma_parse_frames_rest_of_emit(s, i2, fs.skip(1));
        // The list did not open with the closing bracket.
        assert(s[i1] == '{') by {
            assert(s.subrange(i1, end)[0] == s[i1]);
            assert(emit_frame(fs[0])[0] == '{');
        }
        assert(skip_ws(s, i1) == i1);
        assert(tok(s, i1, "]"@) is None) by {
            if i1 + 1 <= s.len() && s.subrange(i1, i1 + 1) == "]"@ {
                assert(s.subrange(i1, i1 + 1)[0] == s[i1]);
            }
        }
        assert(seq![fs[0]] + fs.skip(1) =~= fs);
    }
}

// ---------------------------------------------------------------------------
// Metadata and the atlas document
// ---------------------------------------------------------------------------
/// The canonical wire form of the metadata object.
pub open spec fn emit_meta(m: MetaModel) -> Seq<char> {
    "{"@ + "\"format_version\":"@ + dec_digits(m.format_version as int) + ","@ + "\"app\":"@
        + emit_string(m.app) + ","@ + "\"app_version\":"@ + emit_string(m.app_version) + "}"@
}

/// The metadata strings reflect their code points.
pub open spec fn meta_reflects(m: MetaModel) -> bool {
    chars_reflect(m.app) && chars_reflect(m.app_version)
}

/// Parses the metadata object: `format_version`, `app`, `app_version`.
pub open spec fn parse_meta(s: Seq<char>, i: int) -> Option<(MetaModel, int)> {
    match tok(s, i, "{"@) {
        None => None,
        Some(i1) => match tok(s, i1, "\"format_version\":"@) {
            None => None,
            Some(i2) => match parse_u32(s, skip_ws(s, i2)) {
                None => None,
                Some((fv, i3)) => match tok(s, i3, ","@) {
                    None => None,
                    Some(i4) => match tok(s, i4, "\"app\":"@) {
                        None => None,
                        Some(i5) => match parse_string(s, skip_ws(s, i5)) {
                            None => None,
                            Some((app, i6)) => match tok(s, i6, ","@) {
                                None => None,
                                Some(i7) => match tok(s, i7, "\"app_version\":"@) {
                                    None => None,
                                    Some(i8) => match parse_string(s, skip_ws(s, i8)) {
                                        None => None,
                                        Some((av, i9)) => match tok(s, i9, "}"@) {
                                            None => None,
                                            Some(i10) => Some(
                                                (
                                                    MetaModel {
                                                        format_version: fv,
                                                        app,
                                                        app_version: av,
                                                    },
                                                    i10,
                                                ),
                                            ),
                                        },
                                    },
                                },
                            },
                        },
                    },
                },
            },
        },
    }
}

/// Parsing an emitted metadata object recovers it.
#[verifier::rlimit(60)]
pub proof fn lemma_parse_meta_of_emit(s: Seq<char>, i: int, m: MetaModel)
    requires
        meta_reflects(m),
        0 <= i,
        i + emit_meta(m).len() <= s.len(),
        s.subrange(i, i + emit_meta(m).len()) == emit_meta(m),
    ensures
        parse_meta(s, i) == Some((m, i + emit_meta(m).len())),
{
    reveal_strlit("{");
    reveal_strlit("\"format_version\":");
    reveal_strlit(",");
    reveal_strlit("\"app\":");
    reveal_strlit("\"app_version\":");
    reveal_strlit("}");
    let dv = dec_digits(m.format_version as int);
    lemma_dec_digits_are_digits(m.format_version as int);
    let ap = emit_string(m.app);
    let av = emit_string(m.app_version);
    let r8 = "}"@;
    let r7 = av + r8;
    let r6 = "\"app_version\":"@ + r7;
    let r5 = ","@ + r6;
    let r4 = ap + r5;
    let r3 = "\"app\":"@ + r4;
    let r2 = ","@ + r3;
    let r1 = dv + r2;
    let r0 = "\"format_version\":"@ + r1;
    assert(emit_meta(m) =~= "{"@ + r0);
    let end = i + emit_meta(m).len();
    lemma_tok_piece(s, i, end, "{"@, r0);
    let i1 = i + 1;
    lemma_tok_piece(s, i1, end, "\"format_version\":"@, r1);
    let i2 = i1 + 17;
    lemma_num_piece(s, i2, end, m.format_version, r2);
    let i3 = i2 + dv.len() as int;
    lemma_tok_piece(s, i3, end, ","@, r3);
    let i4 = i3 + 1;
    lemma_tok_piece(s, i4, end, "\"app\":"@, r4);
    let i5 = i4 + 6;
    lemma_str_piece(s, i5, end, m.app, r5);
    let i6 = i5 + ap.len() as int;
    lemma_tok_piece(s, i6, end, ","@, r6);
    let i7 = i6 + 1;
    lemma_tok_piece(s, i7, end, "\"app_version\":"@, r7);
    let i8 = i7 + 14;
    lemma_str_piece(s, i8, end, m.app_version, r8);
    let i9 = i8 + av.len() as int;
    lemma_tok_piece(s, i9, end, "}"@, Seq::<char>::empty());
    assert(r8 =~= "}"@ + Seq::<char>::empty());
    assert(MetaModel { format_version: m.format_version, app: m.app, app_version: m.app_version }
        == m);
}

/// The optional metadata member of the atlas object.
pub open spec fn emit_meta_member(m: Option<MetaModel>) -> Seq<char> {
    match m {
        Some(md) => ","@ + "\"metadata\":"@ + emit_meta(md),
        None => Seq::<char>::empty(),
    }
}

/// The canonical wire form of an atlas document.
pub open spec fn emit_atlas(m: AtlasModel) -> Seq<char> {
    "{"@ + "\"size\":"@ + "["@ + dec_digits(m.width as int) + ","@ + dec_digits(m.height as int)
        + "]"@ + ","@ + "\"filename\":"@ + emit_string(m.filename) + ","@ + "\"frames\":"@
        + emit_frames(m.frames) + emit_meta_member(m.metadata) + "}"@
}

/// All strings of the atlas model reflect their code points.
pub open spec fn atlas_reflects(m: AtlasModel) -> bool {
    &&& chars_reflect(m.filename)
    &&& frames_reflect(m.frames)
    &&& (match m.metadata {
        Some(md) => meta_reflects(md),
        None => true,
    })
}

/// Parses the end of the atlas object: either the closing brace, or the
/// metadata member and then the closing brace.
pub open spec fn parse_atlas_end(
    s: Seq<char>,
    i: int,
    width: u32,
    height: u32,
    filename: Seq<char>,
    frames: Seq<FrameModel>,
) -> Option<(AtlasModel, int)> {
    match tok(s, i, "}"@) {
        Some(j) => Some((AtlasModel { width, height, filename, frames, metadata: None }, j)),
        None => match tok(s, i, ","@) {
            None => None,
            Some(i1) => match tok(s, i1, "\"metadata\":"@) {
                None => None,
                Some(i2) => match parse_meta(s, i2) {
                    None => None,
                    Some((md, i3)) => match tok(s, i3, "}"@) {
                        None => None,
                        Some(j) => Some(
                            (AtlasModel { width, height, filename, frames, metadata: Some(md) }, j),
                        ),
                    },
                },
            },
        },
    }
}

/// The opening of the atlas object up to and including the comma after the
/// size member.
pub open spec fn emit_size_member(width: u32, height: u32) -> Seq<char> {
    "{"@ + "\"size\":"@ + "["@ + dec_digits(width as int) + ","@ + dec_digits(height as int)
        + "]"@ + ","@
}

/// Parses the opening of the atlas object: `{"size":[w,h],`.
pub open spec fn parse_size_member(s: Seq<char>, i: int) -> Option<((u32, u32), int)> {
    match tok(s, i, "{"@) {
        None => None,
        Some(i1) => match tok(s, i1, "\"size\":"@) {
            None => None,
            Some(i2) => match tok(s, i2, "["@) {
                None => None,
                Some(i3) => match parse_u32(s, skip_ws(s, i3)) {
                    None => None,
                    Some((w, i4)) => match tok(s, i4, ","@) {
                        None => None,
                        Some(i5) => match parse_u32(s, skip_ws(s, i5)) {
                            None => None,
                            Some((h, i6)) => match tok(s, i6, "]"@) {
                                None => None,
                                Some(i7) => match tok(s, i7, ","@) {
                                    None => None,
                                    Some(i8) => Some(((w, h), i8)),
                                },
                            },
                        },
                    },
                },
            },
        },
    }
}

/// Parsing the emitted size member recovers the dimensions.
#[verifier::rlimit(60)]
pub proof fn lemma_parse_size_member_of_emit(
    s: Seq<char>,
    i: int,
    end: int,
    width: u32,
    height: u32,
    rest: Seq<char>,
)
    requires
        0 <= i,
        end <= s.len(),
        end - i == emit_size_member(width, height).len() + rest.len(),
        s.subrange(i, end) == emit_size_member(width, height) + rest,
    ensures
        parse_size_member(s, i) == Some(
            ((width, height), i + emit_size_member(width, height).len()),
        ),
        s.subrange(i + emit_size_member(width, height).len(), end) == rest,
{
    reveal_strlit("{");
    reveal_strlit("\"size\":");
    reveal_strlit("[");
    reveal_strlit(",");
    reveal_strlit("]");
    let dw = dec_digits(width as int);
    let dh = dec_digits(height as int);
    lemma_dec_digits_are_digits(width as int);
    lemma_dec_digits_are_digits(height as int);
    let r7 = rest;
    let r6 = ","@ + r7;
    let r5 = "]"@ + r6;
    let r4 = dh + r5;
    let r3 = ","@ + r4;
    let r2 = dw + r3;
    let r1 = "["@ + r2;
    let r0 = "\"size\":"@ + r1;
    assert(emit_size_member(width, height) + rest =~= "{"@ + r0);
    lemma_tok_piece(s, i, end, "{"@, r0);
    let i1 = i + 1;
    lemma_tok_piece(s, i1, end, "\"size\":"@, r1);
    let i2 = i1 + 7;
    lemma_tok_piece(s, i2, end, "["@, r2);
    let i3 = i2 + 1;
    lemma_num_piece(s, i3, end, width, r3);
    let i4 = i3 + dw.len() as int;
    lemma_tok_piece(s, i4, end, ","@, r4);
    let i5 = i4 + 1;
    lemma_num_piece(s, i5, end, height, r5);
    let i6 = i5 + dh.len() as int;
    lemma_tok_piece(s, i6, end, "]"@, r6);
    let i7 = i6 + 1;
    lemma_tok_piece(s, i7, end, ","@, r7);
}

/// Parses an atlas object: `size`, `filename`, `frames`, and optionally
/// `metadata`, in that order.
pub open spec fn parse_atlas(s: Seq<char>, i: int) -> Option<(AtlasModel, int)> {
    match parse_size_member(s, i) {
        None => None,
        Some(((w, h), i8)) => match tok(s, i8, "\"filename\":"@) {
            None => None,
            Some(i9) => match parse_string(s, skip_ws(s, i9)) {
                None => None,
                Some((fname, i10)) => match tok(s, i10, ","@) {
                    None => None,
                    Some(i11) => match tok(s, i11, "\"frames\":"@) {
                        None => None,
                        Some(i12) => match parse_frames(s, i12) {
                            None => None,
                            Some((fs, i13)) => parse_atlas_end(s, i13, w, h, fname, fs),
                        },
                    },
                },
            },
        },
    }
}

/// Parses a whole atlas document: one atlas object and nothing else but
/// whitespace.
pub open spec fn parse_atlas_doc(s: Seq<char>) -> Option<AtlasModel> {
    match parse_atlas(s, 0) {
        None => None,
        Some((m, j)) => if skip_ws(s, j) == s.len() {
            Some(m)
        } else {
            None
        },
    }
}

/// Parsing the end of an emitted atlas object recovers the metadata member.
#[verifier::rlimit(60)]
pub proof fn lemma_parse_atlas_end_of_emit(
    s: Seq<char>,
    i: int,
    width: u32,
    height: u32,
    filename: Seq<char>,
    frames: Seq<FrameModel>,
    md: Option<MetaModel>,
)
    requires
        (match md {
            Some(m) => meta_reflects(m),
            None => true,
        }),
        0 <= i,
        i + emit_meta_member(md).len() + 1 <= s.len(),
        s.subrange(i, i + emit_meta_member(md).len() + 1) == emit_meta_member(md) + "}"@,
    ensures
        parse_atlas_end(s, i, width, height, filename, frames) == Some(
            (AtlasModel { width, height, filename, frames, metadata: md }, i + emit_meta_member(
                md,
            ).len() + 1),
        ),
{
    reveal_strlit("}");
    reveal_strlit(",");
    reveal_strlit("\"metadata\":");
    let end = i + emit_meta_member(md).len() + 1;
    match md {
        None => {
            assert(emit_meta_member(md) =~= Seq::<char>::empty());
            assert(emit_meta_member(md) + "}"@ =~= "}"@);
            lemma_tok_piece(s, i, end, "}"@, Seq::<char>::empty());
        },
        Some(m) => {
            let ms = emit_meta(m);
            let r3 = "}"@;
            let r2 = ms + r3;
            let r1 = "\"metadata\":"@ + r2;
            assert(emit_meta_member(md) + "}"@ =~= ","@ + r1);
            lemma_tok_piece(s, i, end, ","@, r1);
            let i1 = i + 1;
            lemma_tok_piece(s, i1, end, "\"metadata\":"@, r2);
            let i2 = i1 + 11;
            lemma_subrange_split(s, i2, ms, r3);
            lemma_parse_meta_of_emit(s, i2, m);
            let i3 = i2 + ms.len() as int;
            lemma_tok_piece(s, i3, end, "}"@, Seq::<char>::empty());
            assert(r3 =~= "}"@ + Seq::<char>::empty());
            // The object did not close before the metadata member.
            assert(s[i] == ',') by {
                assert(s.subrange(i, end)[0] == s[i]);
            }
            assert(skip_ws(s, i) == i);
            assert(tok(s, i, "}"@) is None) by {
                if i + 1 <= s.len() && s.subrange(i, i + 1) == "}"@ {
                    assert(s.subrange(i, i + 1)[0] == s[i]);
                }
            }
        },
    }
}

/// Parsing the middle of an emitted atlas object: the filename and frames
/// members.
#[verifier::rlimit(100)]
proof fn lemma_parse_atlas_middle(s: Seq<char>, i8: int, end: int, m: AtlasModel)
    requires
        atlas_reflects(m),
        0 <= i8,
        end <= s.len(),
        end - i8 == 11 + emit_string(m.filename).len() + 1 + 9 + emit_frames(m.frames).len()
            + emit_meta_member(m.metadata).len() + 1,
        s.subrange(i8, end) == "\"filename\":"@ + emit_string(m.filename) + ","@ + "\"frames\":"@
            + emit_frames(m.frames) + emit_meta_member(m.metadata) + "}"@,
    ensures
        ({
            let i9 = i8 + 11;
            let i10 = i9 + emit_string(m.filename).len() as int;
            let i11 = i10 + 1;
            let i12 = i11 + 9;
            let i13 = i12 + emit_frames(m.frames).len() as int;
            &&& tok(s, i8, "\"filename\":"@) == Some(i9)
            &&& skip_ws(s, i9) == i9
            &&& parse_string(s, i9) == Some((m.filename, i10))
            &&& tok(s, i10, ","@) == Some(i11)
            &&& tok(s, i11, "\"frames\":"@) == Some(i12)
            &&& parse_frames(s, i12) == Some((m.frames, i13))
            &&& s.subrange(i13, end) == emit_meta_member(m.metadata) + "}"@
        }),
{
    reveal_strlit("\"filename\":");
    reveal_strlit(",");
    reveal_strlit("\"frames\":");
    reveal_strlit("}");
    let fn_s = emit_string(m.filename);
    let fr_s = emit_frames(m.frames);
    let r13 = emit_meta_member(m.metadata) + "}"@;
    let r12 = fr_s + r13;
    let r11 = "\"frames\":"@ + r12;
    let r10 = ","@ + r11;
    let r9 = fn_s + r10;
    let r8 = "\"filename\":"@ + r9;
    assert(s.subrange(i8, end) == r8);
    lemma_tok_piece(s, i8, end, "\"filename\":"@, r9);
    let i9 = i8 + 11;
    lemma_str_piece(s, i9, end, m.filename, r10);
    let i10 = i9 + fn_s.len() as int;
    lemma_tok_piece(s, i10, end, ","@, r11);
    let i11 = i10 + 1;
    lemma_tok_piece(s, i11, end, "\"frames\":"@, r12);
    let i12 = i11 + 9;
    lemma_subrange_split(s, i12, fr_s, r13);
    lemma_parse_frames_of_emit(s, i12, m.frames);
}

/// Parsing an emitted atlas document recovers its model.
#[verifier::rlimit(100)]
pub proof fn lemma_parse_atlas_of_emit(s: Seq<char>, i: int, m: AtlasModel)
    requires
        atlas_reflects(m),
        0 <= i,
        i + emit_atlas(m).len() <= s.len(),
        s.subrange(i, i + emit_atlas(m).len()) == emit_atlas(m),
    ensures
        parse_atlas(s, i) == Some((m, i + emit_atlas(m).len())),
{
    let fn_s = emit_string(m.filename);
    let fr_s = emit_frames(m.frames);
    let r8 = "\"filename\":"@ + fn_s + ","@ + "\"frames\":"@ + fr_s + emit_meta_member(m.metadata)
        + "}"@;
    assert(emit_atlas(m) =~= emit_size_member(m.width, m.height) + r8);
    let end = i + emit_atlas(m).len();
    lemma_parse_size_member_of_emit(s, i, end, m.width, m.height, r8);
    let i8 = i + emit_size_member(m.width, m.height).len() as int;
    reveal_strlit("\"filename\":");
    reveal_strlit(",");
    reveal_strlit("\"frames\":");
    reveal_strlit("}");
    assert(s.subrange(i8, end) =~= "\"filename\":"@ + fn_s + ","@ + "\"frames\":"@ + fr_s
        + emit_meta_member(m.metadata) + "}"@);
    lemma_parse_atlas_middle(s, i8, end, m);
    let i9 = i8 + 11;
    let i10 = i9 + fn_s.len() as int;
    let i11 = i10 + 1;
    let i12 = i11 + 9;
    let i13 = i12 + fr_s.len() as int;
    lemma_parse_atlas_end_of_emit(s, i13, m.width, m.height, m.filename, m.frames, m.metadata);
    assert(AtlasModel {
        width: m.width,
        height: m.height,
        filename: m.filename,
        frames: m.frames,
        metadata: m.metadata,
    } == m);
}

/// Parsing a canonically emitted atlas document recovers its model.
pub proof fn lemma_parse_atlas_doc_of_emit(m: AtlasModel)
    requires
        atlas_reflects(m),
    ensures
        parse_atlas_doc(emit_atlas(m)) == Some(m),
{
    let s = emit_atlas(m);
    assert(s.subrange(0, s.len() as int) =~= s);
    lemma_parse_atlas_of_emit(s, 0, m);
    assert(skip_ws(s, s.len() as int) == s.len());
}

// ---------------------------------------------------------------------------
// Executable emitter
// ---------------------------------------------------------------------------
/// Appends the canonical wire form of one frame.
pub fn push_frame(out: &mut Vec<char>, f: &AtlasFrame)
    ensures
        final(out)@ == old(out)@ + emit_frame(f.model()),
{
    push_str_chars(out, "{");
    push_str_chars(out, "\"key\":");
    push_json_string(out, f.key.as_str());
    push_str_chars(out, ",");
    push_str_chars(out, "\"frame\":");
    push_rect(out, &f.frame);
    push_str_chars(out, "}");
    proof {
        assert(out@ =~= old(out)@ + emit_frame(f.model()));
    }
}

/// Appends the canonical wire form of the frame list.
pub fn push_frames(out: &mut Vec<char>, fs: &Vec<AtlasFrame>)
    ensures
        final(out)@ == old(out)@ + emit_frames(frames_model(fs@)),
{
    let ghost models = frames_model(fs@);
    push_str_chars(out, "[");
    if fs.len() == 0 {
        push_str_chars(out, "]");
        proof {
            assert(out@ =~= old(out)@ + emit_frames(models));
        }
        return;
    }
    proof {
        assert(models[0] == fs@[0].model());
    }
    push_frame(out, &fs[0]);
    let n = fs.len();
    let mut k: usize = 1;
    while k < n
        invariant
            1 <= k <= n,
            n == fs@.len(),
            models == frames_model(fs@),
            models.len() == n,
            out@ == old(out)@ + "["@ + emit_frame(models[0]) + emit_frames_seg(
                models.subrange(1, k as int),
            ),
        decreases n - k,
    {
        push_str_chars(out, ",");
        proof {
            assert(models[k as int] == fs@[k as int].model());
        }
        push_frame(out, &fs[k]);
        proof {
            lemma_emit_frames_seg_push(models.subrange(1, k as int), models[k as int]);
            assert(models.subrange(1, k as int).push(models[k as int]) =~= models.subrange(
                1,
                k + 1,
            ));
            assert(out@ =~= old(out)@ + "["@ + emit_frame(models[0]) + emit_frames_seg(
                models.subrange(1, k + 1),
            ));
        }
        k = k + 1;
    }
    push_str_chars(out, "]");
    proof {
        assert(models.subrange(1, n as int) =~= models.skip(1));
        assert(out@ =~= old(out)@ + emit_frames(models));
    }
}

/// Appends the canonical wire form of the metadata object.
pub fn push_meta(out: &mut Vec<char>, md: &AtlasMetadata)
    ensures
        final(out)@ == old(out)@ + emit_meta(md.model()),
{
    push_str_chars(out, "{");
    push_str_chars(out, "\"format_version\":");
    push_u32(out, md.format_version);
    push_str_chars(out, ",");
    push_str_chars(out, "\"app\":");
    push_json_string(out, md.app.as_str());
    push_str_chars(out, ",");
    push_str_chars(out, "\"app_version\":");
    push_json_string(out, md.app_version.as_str());
    push_str_chars(out, "}");
    proof {
        assert(out@ =~= old(out)@ + emit_meta(md.model()));
    }
}

/// The canonical serialized document for an atlas asset, as characters.
pub fn atlas_json_chars(a: &AtlasAsset) -> (v: Vec<char>)
    ensures
        v@ == emit_atlas(a.model()),
{
    let mut out: Vec<char> = Vec::new();
    push_str_chars(&mut out, "{");
    push_str_chars(&mut out, "\"size\":");
    push_str_chars(&mut out, "[");
    push_u32(&mut out, a.size[0]);
    push_str_chars(&mut out, ",");
    push_u32(&mut out, a.size[1]);
    push_str_chars(&mut out, "]");
    push_str_chars(&mut out, ",");
    push_str_chars(&mut out, "\"filename\":");
    push_json_string(&mut out, a.filename.as_str());
    push_str_chars(&mut out, ",");
    push_str_chars(&mut out, "\"frames\":");
    push_frames(&mut out, &a.frames);
    if !a.metadata.skip_serialization() {
        push_str_chars(&mut out, ",");
        push_str_chars(&mut out, "\"metadata\":");
        push_meta(&mut out, &a.metadata);
    }
    push_str_chars(&mut out, "}");
    proof {
        assert(out@ =~= emit_atlas(a.model()));
    }
    out
}

/// The canonical serialized document for an atlas asset.
pub fn atlas_to_json(a: &AtlasAsset) -> (s: String)
    ensures
        s@ == emit_atlas(a.model()),
{
    let v = atlas_json_chars(a);
    crate::text::chars_to_string(&v)
}

// ---------------------------------------------------------------------------
// Executable parser
// ---------------------------------------------------------------------------
/// Parses one frame, mirroring `parse_frame`.
pub fn parse_frame_exec(s: &Vec<char>, i: usize) -> (r: Option<(AtlasFrame, usize)>)
    requires
        i <= s@.len(),
    ensures
        r is Some ==> r.unwrap().1 <= s@.len() && parse_frame(s@, i as int) == Some(
            (r.unwrap().0.model(), r.unwrap().1 as int)),
        r is None ==> parse_frame(s@, i as int) is None,
{
    let i1 = match tok_exec(s, i, "{") {
        Some(j) => j,
        None => {
            return None;
        },
    };
    let i2 = match tok_exec(s, i1, "\"key\":") {
        Some(j) => j,
        None => {
            return None;
        },
    };
    let (key_chars, i3) = match parse_string_exec(s, skip_ws_exec(s, i2)) {
        Some(p) => p,
        None => {
            return None;
        },
    };
    let i4 = match tok_exec(s, i3, ",") {
        Some(j) => j,
        None => {
            return None;
        },
    };
    let i5 = match tok_exec(s, i4, "\"frame\":") {
        Some(j) => j,
        None => {
            return None;
        },
    };
    let (rect, i6) = match parse_rect_exec(s, i5) {
        Some(p) => p,
        None => {
            return None;
        },
    };
    let i7 = match tok_exec(s, i6, "}") {
        Some(j) => j,
        None => {
            return None;
        },
    };
    let key = crate::text::chars_to_string(&key_chars);
    Some((AtlasFrame { key, frame: rect }, i7))
}

/// Parses the frame list, mirroring `parse_frames`.
pub fn parse_frames_exec(s: &Vec<char>, i: usize) -> (r: Option<(Vec<AtlasFrame>, usize)>)
    requires
        i <= s@.len(),
    ensures
        r is Some ==> r.unwrap().1 <= s@.len() && parse_frames(s@, i as int) == Some(
            (frames_model(r.unwrap().0@), r.unwrap().1 as int)),
        r is None ==> parse_frames(s@, i as int) is None,
{
    let i1 = match tok_exec(s, i, "[") {
        Some(j) => j,
        None => {
            return None;
        },
    };
    match tok_exec(s, i1, "]") {
        Some(j) => {
            let empty: Vec<AtlasFrame> = Vec::new();
            proof {
                assert(frames_model(empty@) =~= Seq::<FrameModel>::empty());
            }
            return Some((empty, j));
        },
        None => {},
    }
    let (f0, j0) = match parse_frame_exec(s, i1) {
        Some(p) => p,
        None => {
            return None;
        },
    };
    let mut acc: Vec<AtlasFrame> = Vec::new();
    acc.push(f0);
    let mut j: usize = j0;
    proof {
        assert(frames_model(acc@) =~= seq![f0.model()]);
    }
    loop
        invariant
            j <= s@.len(),
            acc@.len() >= 1,
            parse_frames(s@, i as int) == (match parse_frames_rest(s@, j as int) {
                Some((fs2, e)) => Some((frames_model(acc@) + fs2, e)),
                None => None::<(Seq<FrameModel>, int)>,
            }),
        decreases s@.len() - j,
    {
        match tok_exec(s, j, "]") {
            Some(e) => {
                proof {
                    assert(frames_model(acc@) + Seq::<FrameModel>::empty() =~= frames_model(
                        acc@,
                    ));
                }
                return Some((acc, e));
            },
            None => {},
        }
        let j1 = match tok_exec(s, j, ",") {
            Some(x) => x,
            None => {
                return None;
            },
        };
        let (f, j2) = match parse_frame_exec(s, j1) {
            Some(p) => p,
            None => {
                return None;
            },
        };
        if j2 <= j {
            proof {
                assert(parse_frames_rest(s@, j as int) is None);
            }
            return None;
        }
        let ghost jprev = j as int;
        let ghost accprev = acc@;
        acc.push(f);
        j = j2;
        proof {
            if parse_frames_rest(s@, j as int) is Some {
                let (fs2, e) = parse_frames_rest(s@, j as int).unwrap();
                assert(frames_model(acc@) =~= frames_model(accprev).push(f.model()));
                assert(frames_model(accprev) + (seq![f.model()] + fs2) =~= frames_model(acc@)
                    + fs2);
            }
        }
    }
}

/// Parses the metadata object, mirroring `parse_meta`.
pub fn parse_meta_exec(s: &Vec<char>, i: usize) -> (r: Option<(AtlasMetadata, usize)>)
    requires
        i <= s@.len(),
    ensures
        r is Some ==> r.unwrap().1 <= s@.len() && parse_meta(s@, i as int) == Some(
            (r.unwrap().0.model(), r.unwrap().1 as int)) && !r.unwrap().0.skip_serialization,
        r is None ==> parse_meta(s@, i as int) is None,
{
    let i1 = match tok_exec(s, i, "{") {
        Some(j) => j,
        None => {
            return None;
        },
    };
    let i2 = match tok_exec(s, i1, "\"format_version\":") {
        Some(j) => j,
        None => {
            return None;
        },
    };
    let (fv, i3) = match parse_u32_exec(s, skip_ws_exec(s, i2)) {
        Some(p) => p,
        None => {
            return None;
        },
    };
    let i4 = match tok_exec(s, i3, ",") {
        Some(j) => j,
        None => {
            return None;
        },
    };
    let i5 = match tok_exec(s, i4, "\"app\":") {
        Some(j) => j,
        None => {
            return None;
        },
    };
    let (app_chars, i6) = match parse_string_exec(s, skip_ws_exec(s, i5)) {
        Some(p) => p,
        None => {
            return None;
        },
    };
    let i7 = match tok_exec(s, i6, ",") {
        Some(j) => j,
        None => {
            return None;
        },
    };
    let i8 = match tok_exec(s, i7, "\"app_version\":") {
        Some(j) => j,
        None => {
            return None;
        },
    };
    let (av_chars, i9) = match parse_string_exec(s, skip_ws_exec(s, i8)) {
        Some(p) => p,
        None => {
            return None;
        },
    };
    let i10 = match tok_exec(s, i9, "}") {
        Some(j) => j,
        None => {
            return None;
        },
    };
    let md = AtlasMetadata {
        format_version: fv,
        app: crate::text::chars_to_string(&app_chars),
        app_version: crate::text::chars_to_string(&av_chars),
        skip_serialization: false,
    };
    Some((md, i10))
}

/// The relation between a parsed in-memory asset and the document's model: a
/// missing metadata member yields the default metadata.
pub open spec fn asset_matches_model(a: AtlasAsset, m: AtlasModel) -> bool {
    &&& a.size[0] == m.width
    &&& a.size[1] == m.height
    &&& a.filename@ == m.filename
    &&& frames_model(a.frames@) == m.frames
    &&& !a.metadata.skip_serialization
    &&& (match m.metadata {
        Some(md) => a.metadata.model() == md,
        None => a.metadata.format_version == 1 && a.metadata.app@ == "rpack"@
            && a.metadata.app_version@ == "0.1.0"@,
    })
}

/// Parses a whole atlas document, mirroring `parse_atlas_doc`.
pub fn parse_atlas_doc_exec(s: &Vec<char>) -> (r: Option<AtlasAsset>)
    ensures
        r is Some ==> parse_atlas_doc(s@) is Some && asset_matches_model(
            r.unwrap(),
            parse_atlas_doc(s@).unwrap(),
        ),
        r is None ==> parse_atlas_doc(s@) is None,
{
    let i1 = match tok_exec(s, 0, "{") {
        Some(j) => j,
        None => {
            return None;
        },
    };
    let i2 = match tok_exec(s, i1, "\"size\":") {
        Some(j) => j,
        None => {
            return None;
        },
    };
    let i3 = match tok_exec(s, i2, "[") {
        Some(j) => j,
        None => {
            return None;
        },
    };
    let (w, i4) = match parse_u32_exec(s, skip_ws_exec(s, i3)) {
        Some(p) => p,
        None => {
            return None;
        },
    };
    let i5 = match tok_exec(s, i4, ",") {
        Some(j) => j,
        None => {
            return None;
        },
    };
    let (h, i6) = match parse_u32_exec(s, skip_ws_exec(s, i5)) {
        Some(p) => p,
        None => {
            return None;
        },
    };
    let i7 = match tok_exec(s, i6, "]") {
        Some(j) => j,
        None => {
            return None;
        },
    };
    let i8 = match tok_exec(s, i7, ",") {
        Some(j) => j,
        None => {
            return None;
        },
    };
    let i9 = match tok_exec(s, i8, "\"filename\":") {
        Some(j) => j,
        None => {
            return None;
        },
    };
    let (fname_chars, i10) = match parse_string_exec(s, skip_ws_exec(s, i9)) {
        Some(p) => p,
        None => {
            return None;
        },
    };
    let i11 = match tok_exec(s, i10, ",") {
        Some(j) => j,
        None => {
            return None;
        },
    };
    let i12 = match tok_exec(s, i11, "\"frames\":") {
        Some(j) => j,
        None => {
            return None;
        },
    };
    let (frames, i13) = match parse_frames_exec(s, i12) {
        Some(p) => p,
        None => {
            return None;
        },
    };
    let filename = crate::text::chars_to_string(&fname_chars);
    let (metadata, end) = match tok_exec(s, i13, "}") {
        Some(j) => (AtlasMetadata::default(), j),
        None => {
            let j1 = match tok_exec(s, i13, ",") {
                Some(x) => x,
                None => {
                    return None;
                },
            };
            let j2 = match tok_exec(s, j1, "\"metadata\":") {
                Some(x) => x,
                None => {
                    return None;
                },
            };
            let (md, j3) = match parse_meta_exec(s, j2) {
                Some(p) => p,
                None => {
                    return None;
                },
            };
            let j4 = match tok_exec(s, j3, "}") {
                Some(x) => x,
                None => {
                    return None;
                },
            };
            (md, j4)
        },
    };
    let fin = skip_ws_exec(s, end);
    if fin != s.len() {
        return None;
    }
    Some(AtlasAsset { size: [w, h], filename, frames, metadata })
}

} // verus!
