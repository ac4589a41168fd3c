//! Low-level text primitives of the JSON file format: whitespace, decimal
//! numbers, fixed tokens, and string literals with their escapes. Each piece
//! has a spec-level writer and parser and a lemma that parsing inverts
//! writing; the executable code is proved against those spec functions.

use vstd::prelude::*;

verus! {

/// JSON insignificant whitespace.
pub open spec fn is_ws(c: char) -> bool {
    c == ' ' || c == '\n' || c == '\r' || c == '\t'
}

/// The first position at or after `i` holding a non-whitespace character.
pub open spec fn spec_skip_ws(s: Seq<char>, i: int) -> int
    decreases s.len() - i,
{
    if 0 <= i && i < s.len() && is_ws(s[i]) {
        spec_skip_ws(s, i + 1)
    } else {
        i
    }
}

pub proof fn lemma_skip_ws_bounds(s: Seq<char>, i: int)
    requires
        0 <= i <= s.len(),
    ensures
        i <= spec_skip_ws(s, i) <= s.len(),
        spec_skip_ws(s, i) < s.len() ==> !is_ws(s[spec_skip_ws(s, i)]),
    decreases s.len() - i,
{
    if i < s.len() && is_ws(s[i]) {
        lemma_skip_ws_bounds(s, i + 1);
    }
}

/// Skipping stops exactly at `j` when everything before `j` is whitespace
/// and `j` holds none (or is the end).
pub proof fn lemma_skip_ws_exact(s: Seq<char>, i: int, j: int)
    requires
        0 <= i <= j <= s.len(),
        forall|k: int| i <= k < j ==> is_ws(s[k]),
        j < s.len() ==> !is_ws(s[j]),
    ensures
        spec_skip_ws(s, i) == j,
    decreases j - i,
{
    if i < j {
        lemma_skip_ws_exact(s, i + 1, j);
    }
}

/// Executable counterpart of `spec_skip_ws`.
pub fn skip_ws(s: &Vec<char>, i: usize) -> (j: usize)
    requires
        i <= s@.len(),
    ensures
        j == spec_skip_ws(s@, i as int),
        i <= j <= s@.len(),
    decreases s@.len() - i,
{
    if i < s.len() {
        let c = s[i];
        if c == ' ' || c == '\n' || c == '\r' || c == '\t' {
            return skip_ws(s, i + 1);
        }
    }
    i
}

/// Whether the text at `i` starts with `tok`; `Some` holds the position
/// just past it. No whitespace is skipped here.
pub open spec fn spec_expect(s: Seq<char>, i: int, tok: Seq<char>) -> Option<int> {
    if 0 <= i && i + tok.len() <= s.len() && s.subrange(i, i + tok.len()) == tok {
        Some(i + tok.len())
    } else {
        None
    }
}

/// Executable counterpart of `spec_expect`; `lit` carries the token.
pub fn expect_lit(s: &Vec<char>, i: usize, lit: &str) -> (r: Option<usize>)
    requires
        i <= s@.len(),
    ensures
        r matches Some(j) ==> spec_expect(s@, i as int, lit@) == Some(j as int) && i <= j
            <= s@.len(),
        r is None ==> spec_expect(s@, i as int, lit@) is None,
{
    let n = lit.unicode_len();
    if n > s.len() - i {
        proof {
            assert(spec_expect(s@, i as int, lit@) is None);
        }
        return None;
    }
    let mut k: usize = 0;
    while k < n
        invariant
            i + n <= s@.len(),
            s@.len() == s.len(),
            n == lit@.len(),
            k <= n,
            forall|m: int| 0 <= m < k ==> s@[i + m] == lit@[m],
        decreases n - k,
    {
        proof {
            assert(i + k < s.len());
        }
        if s[i + k] != lit.get_char(k) {
            proof {
                assert(s@.subrange(i as int, i + lit@.len())[k as int] != lit@[k as int]);
            }
            return None;
        }
        k = k + 1;
    }
    proof {
        assert(s@.subrange(i as int, i + lit@.len()) =~= lit@);
    }
    Some(i + n)
}

/// Decimal digits.
pub open spec fn is_digit(c: char) -> bool {
    48 <= c as u32 <= 57
}

/// The numeric value of a digit character.
pub open spec fn digit_val(c: char) -> int {
    c as u32 - 48
}

/// The character of a digit value in `0..=9`.
pub open spec fn digit_char(d: int) -> char {
    (48 + d) as char
}

pub proof fn lemma_digit_char_val(d: int)
    requires
        0 <= d <= 9,
    ensures
        is_digit(digit_char(d)),
        digit_val(digit_char(d)) == d,
{
}

/// Executable counterpart of `digit_char`.
pub fn digit_to_char(d: u8) -> (c: char)
    requires
        d <= 9,
    ensures
        c == digit_char(d as int),
{
    (48 + d) as char
}

/// The shortest decimal writing of `v >= 0`, most significant digit first.
pub open spec fn spec_dec_seq(v: int) -> Seq<char>
    decreases v,
{
    if v < 10 {
        seq![digit_char(v)]
    } else {
        spec_dec_seq(v / 10).push(digit_char(v % 10))
    }
}

pub proof fn lemma_dec_seq_digits(v: int)
    requires
        v >= 0,
    ensures
        spec_dec_seq(v).len() >= 1,
        forall|k: int| 0 <= k < spec_dec_seq(v).len() ==> is_digit(#[trigger] spec_dec_seq(v)[k]),
    decreases v,
{
    if v < 10 {
        lemma_digit_char_val(v);
    } else {
        lemma_dec_seq_digits(v / 10);
        lemma_digit_char_val(v % 10);
        assert(forall|k: int|
            0 <= k < spec_dec_seq(v / 10).len() ==> spec_dec_seq(v)[k] == spec_dec_seq(v / 10)[k]);
        assert(spec_dec_seq(v).last() == digit_char(v % 10));
    }
}

/// Append the decimal writing of `v`.
pub fn write_dec(out: &mut Vec<char>, v: u64)
    ensures
        final(out)@ == old(out)@ + spec_dec_seq(v as int),
    decreases v,
{
    if v < 10 {
        out.push(digit_to_char(v as u8));
        proof {
            assert(out@ =~= old(out)@ + spec_dec_seq(v as int));
        }
    } else {
        write_dec(out, v / 10);
        out.push(digit_to_char((v % 10) as u8));
        proof {
            assert(out@ =~= old(out)@ + spec_dec_seq(v as int));
        }
    }
}

/// Greedily consume digits from `i`, folding them onto `acc`; yields the
/// value and the first position past the digits.
pub open spec fn spec_dec_fold(s: Seq<char>, i: int, acc: int) -> (int, int)
    decreases s.len() - i,
{
    if 0 <= i && i < s.len() && is_digit(s[i]) {
        spec_dec_fold(s, i + 1, acc * 10 + digit_val(s[i]))
    } else {
        (acc, i)
    }
}

/// A decimal number at `i`: at least one digit, value of the maximal digit
/// run. No whitespace is skipped here.
pub open spec fn spec_parse_dec(s: Seq<char>, i: int) -> Option<(int, int)> {
    if 0 <= i && i < s.len() && is_digit(s[i]) {
        Some(spec_dec_fold(s, i, 0))
    } else {
        None
    }
}

pub proof fn lemma_dec_fold_bounds(s: Seq<char>, i: int, acc: int)
    requires
        0 <= i <= s.len(),
        acc >= 0,
    ensures
        ({
            let (v, j) = spec_dec_fold(s, i, acc);
            &&& i <= j <= s.len()
            &&& v >= acc
            &&& (j < s.len() ==> !is_digit(s[j]))
        }),
    decreases s.len() - i,
{
    if i < s.len() && is_digit(s[i]) {
        lemma_dec_fold_bounds(s, i + 1, acc * 10 + digit_val(s[i]));
    }
}

/// Folding over the writing of `v` continues at its end with the folded
/// value carried in: parsing inverts writing, one digit at a time.
pub proof fn lemma_dec_fold_of_dec_seq(s: Seq<char>, i: int, j: int, v: int, acc: int)
    requires
        v >= 0,
        acc >= 0,
        0 <= i,
        j <= s.len(),
        j - i == spec_dec_seq(v).len(),
        s.subrange(i, j) == spec_dec_seq(v),
    ensures
        spec_dec_fold(s, i, acc) == spec_dec_fold(
            s,
            j,
            acc * pow10(spec_dec_seq(v).len() as nat) + v,
        ),
    decreases v,
{
    let q = spec_dec_seq(v);
    if v < 10 {
        assert(s[i] == q[0]);
        lemma_digit_char_val(v);
        assert(digit_val(s[i]) == v);
        assert(spec_dec_fold(s, i, acc) == spec_dec_fold(s, i + 1, acc * 10 + v));
        assert(pow10(0) == 1);
        assert(pow10(1) == 10);
        assert(acc * pow10(1nat) + v == acc * 10 + v);
    } else {
        let qf = spec_dec_seq(v / 10);
        assert(q == qf.push(digit_char(v % 10)));
        assert(s.subrange(i, j - 1) =~= qf) by {
            assert(forall|k: int| 0 <= k < qf.len() ==> q[k] == qf[k]);
        }
        lemma_dec_fold_of_dec_seq(s, i, j - 1, v / 10, acc);
        let accf = acc * pow10(qf.len() as nat) + v / 10;
        assert(s[j - 1] == q[q.len() - 1]);
        lemma_digit_char_val(v % 10);
        lemma_dec_seq_digits(v / 10);
        assert(spec_dec_fold(s, j - 1, accf) == spec_dec_fold(s, j, accf * 10 + v % 10));
        assert(accf * 10 + v % 10 == acc * pow10(q.len() as nat) + v) by {
            assert(pow10(q.len() as nat) == 10 * pow10(qf.len() as nat));
            assert((acc * pow10(qf.len() as nat) + v / 10) * 10 == acc * (pow10(qf.len() as nat)
                * 10) + (v / 10) * 10) by (nonlinear_arith);
            assert(v == (v / 10) * 10 + v % 10);
        }
    }
}

/// Parsing the writing of `v` yields `v` back, provided no digit follows.
pub proof fn lemma_parse_dec_of_dec_seq(s: Seq<char>, i: int, v: int)
    requires
        v >= 0,
        0 <= i,
        i + spec_dec_seq(v).len() <= s.len(),
        s.subrange(i, i + spec_dec_seq(v).len()) == spec_dec_seq(v),
        i + spec_dec_seq(v).len() < s.len() ==> !is_digit(s[i + spec_dec_seq(v).len()]),
    ensures
        spec_parse_dec(s, i) == Some((v, i + spec_dec_seq(v).len())),
{
    let j = i + spec_dec_seq(v).len();
    lemma_dec_seq_digits(v);
    assert(s[i] == spec_dec_seq(v)[0]);
    lemma_dec_fold_of_dec_seq(s, i, j, v, 0);
    assert(spec_dec_fold(s, j, 0 * pow10(spec_dec_seq(v).len() as nat) + v) == (v, j));
}

/// Ten to the `n`.
pub open spec fn pow10(n: nat) -> int
    decreases n,
{
    if n == 0 {
        1
    } else {
        10 * pow10((n - 1) as nat)
    }
}

/// Executable counterpart of `spec_parse_dec`, with the value capped at
/// `u64`: a longer run of digits is a malformed number.
pub fn parse_dec(s: &Vec<char>, i: usize) -> (r: Option<(u64, usize)>)
    requires
        i <= s@.len(),
    ensures
        r matches Some((v, j)) ==> spec_parse_dec(s@, i as int) == Some((v as int, j as int))
            && i <= j <= s@.len(),
        r is None ==> (spec_parse_dec(s@, i as int) matches Some((v, _)) ==> v > u64::MAX),
{
    if i >= s.len() || !char_is_digit(s[i]) {
        return None;
    }
    let mut acc: u64 = 0;
    let mut j: usize = i;
    while j < s.len() && char_is_digit(s[j])
        invariant
            i <= j <= s@.len(),
            spec_dec_fold(s@, i as int, 0) == spec_dec_fold(s@, j as int, acc as int),
        decreases s@.len() - j,
    {
        let d = (s[j] as u32 - 48) as u8;
        proof {
            assert(d == digit_val(s@[j as int]));
        }
        if acc > (u64::MAX - d as u64) / 10 {
            proof {
                lemma_dec_fold_bounds(s@, j as int, acc as int);
                let (v, _) = spec_dec_fold(s@, j as int, acc as int);
                assert(spec_dec_fold(s@, j as int, acc as int) == spec_dec_fold(
                    s@,
                    j + 1,
                    acc as int * 10 + d,
                ));
                lemma_dec_fold_bounds(s@, j + 1, acc as int * 10 + d);
                assert(acc as int * 10 + d > u64::MAX) by {
                    assert(acc as int >= (u64::MAX - d) / 10 + 1);
                    assert(((u64::MAX - d) / 10 + 1) * 10 >= u64::MAX - d + 1) by (nonlinear_arith)
                        requires
                            acc as int >= (u64::MAX - d) / 10 + 1,
                            0 <= d <= 9,
                    ;
                    assert(acc as int * 10 >= ((u64::MAX - d) / 10 + 1) * 10) by (nonlinear_arith)
                        requires
                            acc as int >= (u64::MAX - d) / 10 + 1,
                    ;
                }
            }
            return None;
        }
        acc = acc * 10 + d as u64;
        j = j + 1;
    }
    proof {
        assert(spec_dec_fold(s@, j as int, acc as int) == (acc as int, j as int));
    }
    Some((acc, j))
}

/// Executable counterpart of `is_digit`.
pub fn char_is_digit(c: char) -> (r: bool)
    ensures
        r == is_digit(c),
{
    let u = c as u32;
    48 <= u && u <= 57
}

/// Hexadecimal digits, either case.
pub open spec fn is_hex(c: char) -> bool {
    is_digit(c) || 97 <= c as u32 <= 102 || 65 <= c as u32 <= 70
}

/// The numeric value of a hexadecimal digit.
pub open spec fn hex_val(c: char) -> int {
    if is_digit(c) {
        digit_val(c)
    } else if 97 <= c as u32 {
        c as u32 - 87
    } else {
        c as u32 - 55
    }
}

/// The lowercase character of a hexadecimal digit value in `0..=15`.
pub open spec fn hex_char(d: int) -> char {
    if d < 10 {
        digit_char(d)
    } else {
        (87 + d) as char
    }
}

pub proof fn lemma_hex_char_val(d: int)
    requires
        0 <= d <= 15,
    ensures
        is_hex(hex_char(d)),
        hex_val(hex_char(d)) == d,
{
}

/// Executable counterpart of `hex_char`.
pub fn hex_to_char(d: u8) -> (c: char)
    requires
        d <= 15,
    ensures
        c == hex_char(d as int),
{
    if d < 10 {
        (48 + d) as char
    } else {
        (87 + d) as char
    }
}

/// Executable counterpart of `is_hex` / `hex_val`.
pub fn char_hex_val(c: char) -> (r: Option<u8>)
    ensures
        r matches Some(d) ==> is_hex(c) && d == hex_val(c) && d <= 15,
        r is None ==> !is_hex(c),
{
    let u = c as u32;
    if 48 <= u && u <= 57 {
        Some((u - 48) as u8)
    } else if 97 <= u && u <= 102 {
        Some((u - 87) as u8)
    } else if 65 <= u && u <= 70 {
        Some((u - 55) as u8)
    } else {
        None
    }
}

/// The JSON writing of one character inside a string literal: the short
/// escapes for quote, backslash and the common controls, `\u00XX` for the
/// other controls, the character itself otherwise.
pub open spec fn spec_escape_char(c: char) -> Seq<char> {
    if c == '"' {
        seq!['\\', '"']
    } else if c == '\\' {
        seq!['\\', '\\']
    } else if c == '\n' {
        seq!['\\', 'n']
    } else if c == '\r' {
        seq!['\\', 'r']
    } else if c == '\t' {
        seq!['\\', 't']
    } else if (c as u32) < 32 {
        seq!['\\', 'u', '0', '0', hex_char(c as u32 as int / 16), hex_char(c as u32 as int % 16)]
    } else {
        seq![c]
    }
}

/// The JSON writing of string contents, character by character.
pub open spec fn spec_escape(t: Seq<char>) -> Seq<char>
    decreases t.len(),
{
    if t.len() == 0 {
        Seq::empty()
    } else {
        spec_escape_char(t[0]) + spec_escape(t.drop_first())
    }
}

/// Escaping distributes over concatenation.
pub proof fn lemma_escape_append(a: Seq<char>, b: Seq<char>)
    ensures
        spec_escape(a + b) == spec_escape(a) + spec_escape(b),
    decreases a.len(),
{
    if a.len() == 0 {
        assert(a + b =~= b);
        assert(spec_escape(a) + spec_escape(b) =~= spec_escape(b));
    } else {
        assert((a + b).drop_first() =~= a.drop_first() + b);
        lemma_escape_append(a.drop_first(), b);
        assert((a + b)[0] == a[0]);
        assert(spec_escape_char(a[0]) + (spec_escape(a.drop_first()) + spec_escape(b)) =~= (
        spec_escape_char(a[0]) + spec_escape(a.drop_first())) + spec_escape(b));
    }
}

/// The whole string literal, quotes included.
pub open spec fn spec_str_lit(t: Seq<char>) -> Seq<char> {
    seq!['"'] + spec_escape(t) + seq!['"']
}

/// The character a short escape stands for.
pub open spec fn spec_short_escape(e: char) -> char {
    if e == 'n' {
        '\n'
    } else if e == 'r' {
        '\r'
    } else if e == 't' {
        '\t'
    } else if e == 'b' {
        8 as char
    } else if e == 'f' {
        12 as char
    } else {
        e
    }
}

/// String contents from just inside the opening quote: characters and
/// escapes up to the closing quote, which is consumed. Unescaped controls,
/// unknown escapes, surrogate code points and an unterminated literal are
/// malformed.
pub open spec fn spec_parse_str_chars(s: Seq<char>, i: int) -> Option<(Seq<char>, int)>
    decreases s.len() - i,
{
    if i < 0 || i >= s.len() {
        None
    } else if s[i] == '"' {
        Some((Seq::empty(), i + 1))
    } else if s[i] == '\\' {
        if i + 2 <= s.len() {
            let e = s[i + 1];
            if e == 'u' {
                if i + 6 <= s.len() && is_hex(s[i + 2]) && is_hex(s[i + 3]) && is_hex(s[i + 4])
                    && is_hex(s[i + 5]) {
                    let v = hex_val(s[i + 2]) * 4096 + hex_val(s[i + 3]) * 256 + hex_val(s[i + 4])
                        * 16 + hex_val(s[i + 5]);
                    if 0xD800 <= v < 0xE000 {
                        None
                    } else {
                        match spec_parse_str_chars(s, i + 6) {
                            Some((rest, j)) => Some((seq![v as char] + rest, j)),
                            None => None,
                        }
                    }
                } else {
                    None
                }
            } else if e == '"' || e == '\\' || e == '/' || e == 'n' || e == 'r' || e == 't' || e
                == 'b' || e == 'f' {
                match spec_parse_str_chars(s, i + 2) {
                    Some((rest, j)) => Some((seq![spec_short_escape(e)] + rest, j)),
                    None => None,
                }
            } else {
                None
            }
        } else {
            None
        }
    } else if (s[i] as u32) < 32 {
        None
    } else {
        match spec_parse_str_chars(s, i + 1) {
            Some((rest, j)) => Some((seq![s[i]] + rest, j)),
            None => None,
        }
    }
}

pub proof fn lemma_parse_str_chars_bounds(s: Seq<char>, i: int)
    requires
        0 <= i <= s.len(),
    ensures
        spec_parse_str_chars(s, i) matches Some((_, j)) ==> i < j <= s.len(),
    decreases s.len() - i,
{
    if i < s.len() {
        if s[i] == '\\' && i + 2 <= s.len() && s[i + 1] == 'u' {
            if i + 6 <= s.len() {
                lemma_parse_str_chars_bounds(s, i + 6);
            }
        } else if s[i] == '\\' && i + 2 <= s.len() {
            lemma_parse_str_chars_bounds(s, i + 2);
        } else if s[i] != '"' && s[i] != '\\' {
            lemma_parse_str_chars_bounds(s, i + 1);
        }
    }
}

/// Parsing string contents inverts escaping: from just inside the opening
/// quote, the escaped text followed by a closing quote parses back to the
/// original text.
pub proof fn lemma_parse_str_of_escape(s: Seq<char>, i: int, j: int, t: Seq<char>)
    requires
        0 <= i,
        j < s.len(),
        j - i == spec_escape(t).len(),
        s.subrange(i, j) == spec_escape(t),
        s[j] == '"',
    ensures
        spec_parse_str_chars(s, i) == Some((t, j + 1)),
    decreases t.len(),
{
    if t.len() == 0 {
        assert(i == j);
    } else {
        let c = t[0];
        let e1 = spec_escape_char(c);
        let rest = t.drop_first();
        assert(spec_escape(t) == e1 + spec_escape(rest));
        let i2 = i + e1.len();
        assert forall|k: int| 0 <= k < e1.len() implies s[i + k] == e1[k] by {
            assert(s.subrange(i, j)[k] == s[i + k]);
            assert(s.subrange(i, j)[k] == (e1 + spec_escape(rest))[k]);
            assert((e1 + spec_escape(rest))[k] == e1[k]);
        }
        assert forall|k: int|
            0 <= k < spec_escape(rest).len() implies s.subrange(i2, j)[k] == spec_escape(
            rest,
        )[k] by {
            assert(s.subrange(i2, j)[k] == s[i2 + k]);
            assert(s.subrange(i, j)[e1.len() + k] == s[i2 + k]);
            assert(s.subrange(i, j)[e1.len() + k] == (e1 + spec_escape(rest))[e1.len() + k]);
            assert((e1 + spec_escape(rest))[e1.len() + k] == spec_escape(rest)[k]);
        }
        assert(s.subrange(i2, j) =~= spec_escape(rest));
        lemma_parse_str_of_escape(s, i2, j, rest);
        if c == '"' || c == '\\' || c == '\n' || c == '\r' || c == '\t' {
            assert(s[i] == '\\');
            assert(spec_parse_str_chars(s, i) == Some((seq![c] + rest, j + 1)));
            assert(seq![c] + rest =~= t);
        } else if (c as u32) < 32 {
            assert(s[i + 0] == e1[0] && s[i + 1] == e1[1] && s[i + 2] == e1[2] && s[i + 3]
                == e1[3] && s[i + 4] == e1[4] && s[i + 5] == e1[5]);
            assert(s[i] == '\\' && s[i + 1] == 'u' && s[i + 2] == '0' && s[i + 3] == '0');
            assert(s[i + 4] == hex_char(c as u32 as int / 16) && s[i + 5] == hex_char(c as u32 as int % 16));
            lemma_hex_char_val(c as u32 as int / 16);
            lemma_hex_char_val(c as u32 as int % 16);
            let v = hex_val(s[i + 2]) * 4096 + hex_val(s[i + 3]) * 256 + hex_val(s[i + 4]) * 16
                + hex_val(s[i + 5]);
            assert(v == (c as u32 as int / 16) * 16 + c as u32 as int % 16);
            assert(v == c as u32);
            vstd::utf8::char_u32_cast(c, c as u32);
            assert(v as char == c);
            assert(spec_parse_str_chars(s, i) == Some((seq![v as char] + rest, j + 1)));
            assert(seq![v as char] + rest =~= t);
        } else {
            assert(s[i + 0] == e1[0]);
            assert(s[i] == c);
            assert(spec_parse_str_chars(s, i) == Some((seq![c] + rest, j + 1)));
            assert(seq![c] + rest =~= t);
        }
    }
}

/// Relies on std's `String::push`: appends the character to the end of the
/// string.
#[verifier::external_body]
fn push_char(s: &mut String, c: char)
    ensures
        final(s)@ == old(s)@.push(c),
{
    s.push(c);
}

/// Relies on std's `char::from_u32`: `Some` exactly for values that are
/// Unicode scalar values (not a surrogate, at most 0x10FFFF), and then the
/// character with that value.
#[verifier::external_body]
fn char_from_u32(v: u32) -> (r: Option<char>)
    ensures
        r is Some <==> (v < 0xD800 || (0xE000 <= v && v <= 0x10FFFF)),
        r matches Some(c) ==> c as u32 == v && c as int == v as int,
{
    char::from_u32(v)
}

/// Collect a string's characters into a vector.
pub fn str_to_chars(s: &str) -> (r: Vec<char>)
    ensures
        r@ == s@,
{
    let n = s.unicode_len();
    let mut r: Vec<char> = Vec::new();
    let mut i: usize = 0;
    while i < n
        invariant
            n == s@.len(),
            i <= n,
            r@ == s@.take(i as int),
        decreases n - i,
    {
        r.push(s.get_char(i));
        proof {
            assert(r@ =~= s@.take(i + 1));
        }
        i = i + 1;
    }
    proof {
        assert(s@.take(n as int) =~= s@);
    }
    r
}

/// Build a string from a vector of characters.
pub fn chars_to_string(v: &Vec<char>) -> (r: String)
    ensures
        r@ == v@,
{
    let mut r = String::new();
    let n = v.len();
    let mut i: usize = 0;
    while i < n
        invariant
            n == v@.len(),
            i <= n,
            r@ == v@.take(i as int),
        decreases n - i,
    {
        push_char(&mut r, v[i]);
        proof {
            assert(r@ =~= v@.take(i + 1));
        }
        i = i + 1;
    }
    proof {
        assert(v@.take(n as int) =~= v@);
    }
    r
}

/// Append the escaped writing of `t`, without the surrounding quotes.
pub fn write_escaped(out: &mut Vec<char>, t: &str)
    ensures
        final(out)@ == old(out)@ + spec_escape(t@),
{
    let n = t.unicode_len();
    let mut i: usize = 0;
    proof {
        assert(old(out)@ + spec_escape(t@.take(0)) =~= old(out)@);
    }
    while i < n
        invariant
            n == t@.len(),
            i <= n,
            out@ == old(out)@ + spec_escape(t@.take(i as int)),
        decreases n - i,
    {
        let c = t.get_char(i);
        proof {
            lemma_escape_append(t@.take(i as int), seq![c]);
            assert(t@.take(i as int) + seq![c] =~= t@.take(i + 1));
            assert(seq![c].len() == 1 && seq![c][0] == c);
            assert(seq![c].drop_first().len() == 0);
            assert(spec_escape(seq![c].drop_first()) == Seq::<char>::empty());
            assert(spec_escape(seq![c]) =~= spec_escape_char(c));
        }
        if c == '"' {
            out.push('\\');
            out.push('"');
        } else if c == '\\' {
            out.push('\\');
            out.push('\\');
        } else if c == '\n' {
            out.push('\\');
            out.push('n');
        } else if c == '\r' {
            out.push('\\');
            out.push('r');
        } else if c == '\t' {
            out.push('\\');
            out.push('t');
        } else {
            let u = c as u32;
            if u < 32 {
                out.push('\\');
                out.push('u');
                out.push('0');
                out.push('0');
                out.push(hex_to_char((u / 16) as u8));
                out.push(hex_to_char((u % 16) as u8));
            } else {
                out.push(c);
            }
        }
        proof {
            assert(out@ =~= old(out)@ + spec_escape(t@.take(i + 1)));
        }
        i = i + 1;
    }
    proof {
        assert(t@.take(n as int) =~= t@);
    }
}

/// Executable counterpart of `spec_parse_str_chars`: the contents of a
/// string literal from just inside its opening quote.
pub fn parse_str_chars(s: &Vec<char>, i: usize) -> (r: Option<(Vec<char>, usize)>)
    requires
        i <= s@.len(),
    ensures
        r matches Some((t, j)) ==> spec_parse_str_chars(s@, i as int) == Some((t@, j as int))
            && i < j <= s@.len(),
        r is None ==> spec_parse_str_chars(s@, i as int) is None,
{
    let mut acc: Vec<char> = Vec::new();
    let mut cur: usize = i;
    proof {
        assert(acc@ =~= Seq::<char>::empty());
        lemma_parse_str_chars_bounds(s@, i as int);
        match spec_parse_str_chars(s@, i as int) {
            Some((rest, j)) => {
                assert(acc@ + rest =~= rest);
            },
            None => {},
        }
    }
    loop
        invariant
            i <= cur <= s@.len(),
            s@.len() == s.len(),
            (match spec_parse_str_chars(s@, cur as int) {
                Some((rest, j)) => spec_parse_str_chars(s@, i as int) == Some((acc@ + rest, j))
                    && cur < j <= s@.len(),
                None => spec_parse_str_chars(s@, i as int) is None,
            }),
        decreases s@.len() - cur,
    {
        if cur >= s.len() {
            return None;
        }
        let c = s[cur];
        let ghost acc0 = acc@;
        let ghost cur0 = cur as int;
        if c == '"' {
            proof {
                assert(spec_parse_str_chars(s@, cur0) == Some((Seq::<char>::empty(), cur0 + 1)));
                assert(acc0 + Seq::<char>::empty() =~= acc0);
            }
            return Some((acc, cur + 1));
        }
        if c == '\\' {
            if s.len() - cur < 2 {
                return None;
            }
            let e = s[cur + 1];
            if e == 'u' {
                if s.len() - cur < 6 {
                    return None;
                }
                let h2 = char_hex_val(s[cur + 2]);
                let h3 = char_hex_val(s[cur + 3]);
                let h4 = char_hex_val(s[cur + 4]);
                let h5 = char_hex_val(s[cur + 5]);
                match (h2, h3, h4, h5) {
                    (Some(a), Some(b), Some(d), Some(e2)) => {
                        let v: u32 = a as u32 * 4096 + b as u32 * 256 + d as u32 * 16 + e2 as u32;
                        if 0xD800 <= v && v < 0xE000 {
                            return None;
                        }
                        match char_from_u32(v) {
                            Some(ch) => {
                                proof {
                                    let vs = hex_val(s@[cur0 + 2]) * 4096 + hex_val(s@[cur0 + 3])
                                        * 256 + hex_val(s@[cur0 + 4]) * 16 + hex_val(s@[cur0 + 5]);
                                    assert(vs == v as int);
                                    assert((ch as int) as char == ch);
                                    assert(vs as char == ch);
                                }
                                acc.push(ch);
                                cur = cur + 6;
                                proof {
                                    lemma_str_chars_step(s@, i as int, cur0, acc0, seq![ch], cur as int);
                                }
                            },
                            None => {
                                proof {
                                    assert(false);
                                }
                                return None;
                            },
                        }
                    },
                    _ => {
                        return None;
                    },
                }
            } else if e == '"' || e == '\\' || e == '/' {
                acc.push(e);
                cur = cur + 2;
                proof {
                    assert(spec_short_escape(s@[cur0 + 1]) == s@[cur0 + 1]);
                    lemma_str_chars_step(s@, i as int, cur0, acc0, seq![e], cur as int);
                }
            } else if e == 'n' {
                acc.push('\n');
                cur = cur + 2;
                proof {
                    lemma_str_chars_step(s@, i as int, cur0, acc0, seq!['\n'], cur as int);
                }
            } else if e == 'r' {
                acc.push('\r');
                cur = cur + 2;
                proof {
                    lemma_str_chars_step(s@, i as int, cur0, acc0, seq!['\r'], cur as int);
                }
            } else if e == 't' {
                acc.push('\t');
                cur = cur + 2;
                proof {
                    lemma_str_chars_step(s@, i as int, cur0, acc0, seq!['\t'], cur as int);
                }
            } else if e == 'b' {
                acc.push('\u{8}');
                cur = cur + 2;
                proof {
                    lemma_str_chars_step(s@, i as int, cur0, acc0, seq!['\u{8}'], cur as int);
                }
            } else if e == 'f' {
                acc.push('\u{c}');
                cur = cur + 2;
                proof {
                    lemma_str_chars_step(s@, i as int, cur0, acc0, seq!['\u{c}'], cur as int);
                }
            } else {
                return None;
            }
        } else {
            let u = c as u32;
            if u < 32 {
                return None;
            }
            acc.push(c);
            cur = cur + 1;
            proof {
                lemma_str_chars_step(s@, i as int, cur0, acc0, seq![c], cur as int);
            }
        }
    }
}

/// One parsing step: if the contents at `cur0` are one unit (`unit`)
/// followed by what parses from `cur1`, the accumulated result composes.
proof fn lemma_str_chars_step(
    s: Seq<char>,
    i: int,
    cur0: int,
    acc0: Seq<char>,
    unit: Seq<char>,
    cur1: int,
)
    requires
        0 <= cur1 <= s.len(),
        (match spec_parse_str_chars(s, cur0) {
            Some((rest, j)) => spec_parse_str_chars(s, i) == Some((acc0 + rest, j)) && cur0 < j
                <= s.len(),
            None => spec_parse_str_chars(s, i) is None,
        }),
        (match spec_parse_str_chars(s, cur1) {
            Some((rest, j)) => spec_parse_str_chars(s, cur0) == Some((unit + rest, j)),
            None => spec_parse_str_chars(s, cur0) is None,
        }),
    ensures
        (match spec_parse_str_chars(s, cur1) {
            Some((rest, j)) => spec_parse_str_chars(s, i) == Some(((acc0 + unit) + rest, j))
                && cur1 < j <= s.len(),
            None => spec_parse_str_chars(s, i) is None,
        }),
{
    lemma_parse_str_chars_bounds(s, cur1);
    match spec_parse_str_chars(s, cur1) {
        Some((rest, j)) => {
            assert(acc0 + (unit + rest) =~= (acc0 + unit) + rest);
        },
        None => {},
    }
}



/// Append a fixed piece of text.
pub fn write_lit(out: &mut Vec<char>, lit: &str)
    ensures
        final(out)@ == old(out)@ + lit@,
{
    let n = lit.unicode_len();
    let mut i: usize = 0;
    proof {
        assert(old(out)@ + lit@.take(0) =~= old(out)@);
    }
    while i < n
        invariant
            n == lit@.len(),
            i <= n,
            out@ == old(out)@ + lit@.take(i as int),
        decreases n - i,
    {
        out.push(lit.get_char(i));
        proof {
            assert(out@ =~= old(out)@ + lit@.take(i + 1));
        }
        i = i + 1;
    }
    proof {
        assert(lit@.take(n as int) =~= lit@);
    }
}

/// Append a string literal: quotes around the escaped text.
pub fn write_string(out: &mut Vec<char>, t: &str)
    ensures
        final(out)@ == old(out)@ + spec_str_lit(t@),
{
    out.push('"');
    write_escaped(out, t);
    out.push('"');
    proof {
        assert(out@ =~= old(out)@ + spec_str_lit(t@));
    }
}

} // verus!
