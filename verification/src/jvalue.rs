//! The two fixed-width values of the file format: hyphenated hexadecimal
//! identifiers and calendar timestamps. Both are written and parsed
//! digit-field by digit-field, with no string escapes involved.

use vstd::prelude::*;

use crate::jtext::{
    digit_char, digit_val, hex_char, hex_val, is_digit, is_hex, lemma_digit_char_val,
    lemma_hex_char_val,
};
use crate::model::Timestamp;

verus! {

/// Sixteen to the `n`.
pub open spec fn pow16(n: nat) -> int
    decreases n,
{
    if n == 0 {
        1
    } else {
        16 * pow16((n - 1) as nat)
    }
}

pub proof fn lemma_pow16_pos(n: nat)
    ensures
        pow16(n) >= 1,
    decreases n,
{
    if n > 0 {
        lemma_pow16_pos((n - 1) as nat);
    }
}

/// The low `digits` hexadecimal digits of `v`, most significant first,
/// lowercase.
pub open spec fn spec_hex_fixed(v: int, digits: nat) -> Seq<char>
    decreases digits,
{
    if digits == 0 {
        Seq::empty()
    } else {
        spec_hex_fixed(v / 16, (digits - 1) as nat).push(hex_char(v % 16))
    }
}

pub proof fn lemma_hex_fixed_len(v: int, digits: nat)
    ensures
        spec_hex_fixed(v, digits).len() == digits,
        v >= 0 ==> forall|k: int|
            0 <= k < digits ==> is_hex(#[trigger] spec_hex_fixed(v, digits)[k]),
    decreases digits,
{
    if digits > 0 {
        lemma_hex_fixed_len(v / 16, (digits - 1) as nat);
        if v >= 0 {
            lemma_hex_char_val(v % 16);
            assert(forall|k: int|
                0 <= k < digits - 1 ==> spec_hex_fixed(v, digits)[k] == spec_hex_fixed(
                    v / 16,
                    (digits - 1) as nat,
                )[k]);
            assert(spec_hex_fixed(v, digits).last() == hex_char(v % 16));
        }
    }
}

/// Consume exactly `n` hexadecimal digits from `i`, folding them onto
/// `acc`.
pub open spec fn spec_hex_fold(s: Seq<char>, i: int, n: nat, acc: int) -> Option<(int, int)>
    decreases n,
{
    if n == 0 {
        Some((acc, i))
    } else if 0 <= i && i < s.len() && is_hex(s[i]) {
        spec_hex_fold(s, i + 1, (n - 1) as nat, acc * 16 + hex_val(s[i]))
    } else {
        None
    }
}
/// Folding over the fixed-width writing of `v` yields the folded value:
/// parsing inverts writing, one digit at a time.
pub proof fn lemma_hex_fold_of_hex_fixed(s: Seq<char>, i: int, v: int, n: nat, acc: int)
    requires
        0 <= v < pow16(n),
        acc >= 0,
        0 <= i,
        i + n <= s.len(),
        s.subrange(i, i + n) == spec_hex_fixed(v, n),
    ensures
        spec_hex_fold(s, i, n, acc) == Some((acc * pow16(n) + v, i + n)),
    decreases n,
{
    lemma_hex_fixed_len(v, n);
    if n == 0 {
        assert(acc * 1 + v == acc);
    } else {
        let q = spec_hex_fixed(v, n);
        // The fold runs from the front, so peel the leading digit.
        let p = pow16((n - 1) as nat);
        lemma_pow16_pos((n - 1) as nat);
        let hi = v / p;
        let lo = v % p;
        vstd::arithmetic::div_mod::lemma_fundamental_div_mod(v, p);
        assert(v == p * hi + lo);
        vstd::arithmetic::div_mod::lemma_mod_bound(v, p);
        assert(0 <= lo < p);
        assert(0 <= hi <= 15) by {
            assert(v < 16 * p);
            assert(hi < 16) by (nonlinear_arith)
                requires
                    v < 16 * p,
                    p >= 1,
                    hi == v / p,
            ;
            assert(hi >= 0) by (nonlinear_arith)
                requires
                    v >= 0,
                    p >= 1,
                    hi == v / p,
            ;
        }
        lemma_hex_fixed_first(v, n);
        assert(q[0] == hex_char(hi));
        assert(s[i] == q[0]);
        lemma_hex_char_val(hi);
        assert(spec_hex_fold(s, i, n, acc) == spec_hex_fold(
            s,
            i + 1,
            (n - 1) as nat,
            acc * 16 + hi,
        ));
        lemma_hex_fixed_drop_first(v, n);
        assert(s.subrange(i + 1, i + n) =~= spec_hex_fixed(lo, (n - 1) as nat)) by {
            assert(forall|k: int|
                0 <= k < n - 1 ==> s.subrange(i + 1, i + n)[k] == #[trigger] s.subrange(
                    i,
                    i + n,
                )[k + 1]);
            assert(forall|k: int|
                0 <= k < n - 1 ==> #[trigger] q.drop_first()[k] == q[k + 1]);
        }
        lemma_hex_fold_of_hex_fixed(s, i + 1, lo, (n - 1) as nat, acc * 16 + hi);
        assert((acc * 16 + hi) * p + lo == acc * pow16(n) + v) by {
            assert(pow16(n) == 16 * p);
            assert((acc * 16 + hi) * p == acc * (16 * p) + hi * p) by (nonlinear_arith);
            assert(hi * p == p * hi) by (nonlinear_arith);
        }
    }
}

/// The first digit of a fixed-width writing is the high digit.
proof fn lemma_hex_fixed_first(v: int, n: nat)
    requires
        n >= 1,
        0 <= v < pow16(n),
    ensures
        spec_hex_fixed(v, n)[0] == hex_char(v / pow16((n - 1) as nat)),
    decreases n,
{
    lemma_hex_fixed_len(v, n);
    lemma_pow16_pos((n - 1) as nat);
    if n == 1 {
        assert(v / pow16(0nat) == v / 1);
        assert(spec_hex_fixed(v, 1nat)[0] == hex_char(v % 16));
        assert(v % 16 == v) by {
            vstd::arithmetic::div_mod::lemma_small_mod(v as nat, 16nat);
        }
        assert(v / 1 == v);
    } else {
        lemma_hex_fixed_len(v / 16, (n - 1) as nat);
        assert(spec_hex_fixed(v, n)[0] == spec_hex_fixed(v / 16, (n - 1) as nat)[0]);
        assert(0 <= v / 16 < pow16((n - 1) as nat)) by {
            assert(pow16(n) == 16 * pow16((n - 1) as nat));
            assert(v / 16 < pow16((n - 1) as nat)) by (nonlinear_arith)
                requires
                    0 <= v,
                    v < 16 * pow16((n - 1) as nat),
            ;
            assert(v / 16 >= 0) by (nonlinear_arith)
                requires
                    v >= 0,
            ;
        }
        lemma_hex_fixed_first(v / 16, (n - 1) as nat);
        assert(v / 16 / pow16((n - 2) as nat) == v / pow16((n - 1) as nat)) by {
            vstd::arithmetic::div_mod::lemma_div_denominator(
                v,
                16,
                pow16((n - 2) as nat),
            );
            assert(pow16((n - 1) as nat) == 16 * pow16((n - 2) as nat));
            lemma_pow16_pos((n - 2) as nat);
        }
    }
}

/// Dropping the first digit of a fixed-width writing leaves the writing of
/// the value modulo one fewer digit.
proof fn lemma_hex_fixed_drop_first(v: int, n: nat)
    requires
        n >= 1,
        0 <= v < pow16(n),
    ensures
        spec_hex_fixed(v, n).drop_first() == spec_hex_fixed(
            v % pow16((n - 1) as nat),
            (n - 1) as nat,
        ),
    decreases n,
{
    lemma_hex_fixed_len(v, n);
    let p = pow16((n - 1) as nat);
    lemma_pow16_pos((n - 1) as nat);
    if n == 1 {
        assert(spec_hex_fixed(v, 1nat).drop_first() =~= Seq::<char>::empty());
        assert(spec_hex_fixed(v % 1, 0nat) =~= Seq::<char>::empty());
    } else {
        let pm = pow16((n - 2) as nat);
        lemma_pow16_pos((n - 2) as nat);
        assert(0 <= v / 16 < pow16((n - 1) as nat)) by (nonlinear_arith)
            requires
                0 <= v,
                v < pow16(n),
                pow16(n) == 16 * pow16((n - 1) as nat),
        ;
        lemma_hex_fixed_drop_first(v / 16, (n - 1) as nat);
        lemma_hex_fixed_len(v / 16, (n - 1) as nat);
        lemma_hex_fixed_len(v % p, (n - 1) as nat);
        // (v % p) / 16 == (v / 16) % pm  and  (v % p) % 16 == v % 16
        vstd::arithmetic::div_mod::lemma_mod_breakdown(v, 16, pm);
        assert(p == 16 * pm);
        assert(v % p == 16 * ((v / 16) % pm) + v % 16);
        assert((v % p) / 16 == (v / 16) % pm) by {
            let w = (v / 16) % pm;
            let r = v % 16;
            assert(0 <= r < 16) by {
                vstd::arithmetic::div_mod::lemma_mod_bound(v, 16);
            }
            assert((16 * w + r) / 16 == w) by (nonlinear_arith)
                requires
                    0 <= r < 16,
                    w >= 0,
            ;
            assert(w >= 0) by {
                vstd::arithmetic::div_mod::lemma_mod_bound(v / 16, pm);
            }
        }
        assert((v % p) % 16 == v % 16) by {
            let w = (v / 16) % pm;
            let r = v % 16;
            assert(0 <= r < 16) by {
                vstd::arithmetic::div_mod::lemma_mod_bound(v, 16);
            }
            assert(w >= 0) by {
                vstd::arithmetic::div_mod::lemma_mod_bound(v / 16, pm);
            }
            assert((16 * w + r) % 16 == r) by (nonlinear_arith)
                requires
                    0 <= r < 16,
                    w >= 0,
            ;
        }
        assert(spec_hex_fixed(v % p, (n - 1) as nat) == spec_hex_fixed(
            (v / 16) % pm,
            (n - 2) as nat,
        ).push(hex_char(v % 16)));
        assert(spec_hex_fixed(v, n).drop_first() =~= spec_hex_fixed(v % p, (n - 1) as nat)) by {
            assert(spec_hex_fixed(v, n) == spec_hex_fixed(v / 16, (n - 1) as nat).push(
                hex_char(v % 16),
            ));
            assert(spec_hex_fixed(v / 16, (n - 1) as nat).drop_first() == spec_hex_fixed(
                (v / 16) % pm,
                (n - 2) as nat,
            ));
            assert(forall|k: int|
                0 <= k < n - 1 ==> #[trigger] spec_hex_fixed(v, n).drop_first()[k]
                    == spec_hex_fixed(v, n)[k + 1]);
        }
    }
}

pub proof fn lemma_pow16_add(m: nat, n: nat)
    ensures
        pow16(m + n) == pow16(m) * pow16(n),
    decreases n,
{
    if n == 0 {
        assert(pow16(m + 0) == pow16(m) * 1);
    } else {
        lemma_pow16_add(m, (n - 1) as nat);
        assert(pow16(m + n) == 16 * pow16((m + n - 1) as nat));
        assert(pow16(m) * pow16(n) == pow16(m) * (16 * pow16((n - 1) as nat)));
        assert(pow16(m) * (16 * pow16((n - 1) as nat)) == 16 * (pow16(m) * pow16(
            (n - 1) as nat,
        ))) by (nonlinear_arith);
    }
}

pub proof fn lemma_pow16_mono(m: nat, n: nat)
    requires
        m <= n,
    ensures
        pow16(m) <= pow16(n),
{
    lemma_pow16_add(m, (n - m) as nat);
    lemma_pow16_pos(m);
    lemma_pow16_pos((n - m) as nat);
    assert(pow16(m) * 1 <= pow16(m) * pow16((n - m) as nat)) by (nonlinear_arith)
        requires
            pow16(m) >= 1,
            pow16((n - m) as nat) >= 1,
    ;
}

pub proof fn lemma_pow16_values()
    ensures
        pow16(12) == 0x1000000000000,
        pow16(16) == 0x10000000000000000,
        pow16(20) == 0x100000000000000000000,
        pow16(24) == 0x1000000000000000000000000,
        pow16(32) == 0x100000000000000000000000000000000,
{
    assert(pow16(0nat) == 1);
    assert(pow16(1nat) == 0x10);
    assert(pow16(2nat) == 0x100);
    assert(pow16(3nat) == 0x1000);
    assert(pow16(4nat) == 0x10000);
    assert(pow16(5nat) == 0x100000);
    assert(pow16(6nat) == 0x1000000);
    assert(pow16(7nat) == 0x10000000);
    assert(pow16(8nat) == 0x100000000);
    assert(pow16(9nat) == 0x1000000000);
    assert(pow16(10nat) == 0x10000000000);
    assert(pow16(11nat) == 0x100000000000);
    assert(pow16(12nat) == 0x1000000000000);
    assert(pow16(13nat) == 0x10000000000000);
    assert(pow16(14nat) == 0x100000000000000);
    assert(pow16(15nat) == 0x1000000000000000);
    assert(pow16(16nat) == 0x10000000000000000);
    assert(pow16(17nat) == 0x100000000000000000);
    assert(pow16(18nat) == 0x1000000000000000000);
    assert(pow16(19nat) == 0x10000000000000000000);
    assert(pow16(20nat) == 0x100000000000000000000);
    assert(pow16(21nat) == 0x1000000000000000000000);
    assert(pow16(22nat) == 0x10000000000000000000000);
    assert(pow16(23nat) == 0x100000000000000000000000);
    assert(pow16(24nat) == 0x1000000000000000000000000);
    assert(pow16(25nat) == 0x10000000000000000000000000);
    assert(pow16(26nat) == 0x100000000000000000000000000);
    assert(pow16(27nat) == 0x1000000000000000000000000000);
    assert(pow16(28nat) == 0x10000000000000000000000000000);
    assert(pow16(29nat) == 0x100000000000000000000000000000);
    assert(pow16(30nat) == 0x1000000000000000000000000000000);
    assert(pow16(31nat) == 0x10000000000000000000000000000000);
    assert(pow16(32nat) == 0x100000000000000000000000000000000);
}

/// The fixed-width writing only depends on the low digits.
pub proof fn lemma_hex_fixed_mod(v: int, n: nat)
    requires
        v >= 0,
    ensures
        spec_hex_fixed(v, n) == spec_hex_fixed(v % pow16(n), n),
    decreases n,
{
    lemma_pow16_pos(n);
    if n == 0 {
    } else {
        let p = pow16(n);
        let pm = pow16((n - 1) as nat);
        lemma_pow16_pos((n - 1) as nat);
        vstd::arithmetic::div_mod::lemma_mod_breakdown(v, 16, pm);
        assert(p == 16 * pm);
        assert(v % p == 16 * ((v / 16) % pm) + v % 16);
        let w = (v / 16) % pm;
        let r = v % 16;
        vstd::arithmetic::div_mod::lemma_mod_bound(v, 16);
        vstd::arithmetic::div_mod::lemma_mod_bound(v / 16, pm);
        assert((v % p) / 16 == w) by (nonlinear_arith)
            requires
                v % p == 16 * w + r,
                0 <= r < 16,
                w >= 0,
        ;
        assert((v % p) % 16 == r) by (nonlinear_arith)
            requires
                v % p == 16 * w + r,
                0 <= r < 16,
                w >= 0,
        ;
        assert(v / 16 >= 0) by (nonlinear_arith)
            requires
                v >= 0,
        ;
        lemma_hex_fixed_mod(v / 16, (n - 1) as nat);
        assert(spec_hex_fixed(v, n) == spec_hex_fixed(v / 16, (n - 1) as nat).push(
            hex_char(v % 16),
        ));
        assert(spec_hex_fixed(v % p, n) == spec_hex_fixed((v % p) / 16, (n - 1) as nat).push(
            hex_char((v % p) % 16),
        ));
    }
}

/// The hyphenated 36-character writing of a 128-bit identifier, lowercase,
/// in groups of 8, 4, 4, 4 and 12 hexadecimal digits.
pub open spec fn spec_uuid_seq(v: int) -> Seq<char> {
    spec_hex_fixed(v / pow16(24), 8) + (seq!['-'] + (spec_hex_fixed(v / pow16(20), 4) + (
    seq!['-'] + (spec_hex_fixed(v / pow16(16), 4) + (seq!['-'] + (spec_hex_fixed(
        v / pow16(12),
        4,
    ) + (seq!['-'] + spec_hex_fixed(v, 12))))))))
}

pub proof fn lemma_uuid_seq_len(v: int)
    ensures
        spec_uuid_seq(v).len() == 36,
{
    lemma_hex_fixed_len(v / pow16(24), 8);
    lemma_hex_fixed_len(v / pow16(20), 4);
    lemma_hex_fixed_len(v / pow16(16), 4);
    lemma_hex_fixed_len(v / pow16(12), 4);
    lemma_hex_fixed_len(v, 12);
}

/// A hyphenated identifier at `i`: five fixed-width digit groups, folded
/// into one value.
pub open spec fn spec_parse_uuid(s: Seq<char>, i: int) -> Option<(int, int)> {
    match spec_hex_fold(s, i, 8, 0) {
        Some((a1, j1)) => {
            if j1 < s.len() && s[j1] == '-' {
                match spec_hex_fold(s, j1 + 1, 4, a1) {
                    Some((a2, j2)) => {
                        if j2 < s.len() && s[j2] == '-' {
                            match spec_hex_fold(s, j2 + 1, 4, a2) {
                                Some((a3, j3)) => {
                                    if j3 < s.len() && s[j3] == '-' {
                                        match spec_hex_fold(s, j3 + 1, 4, a3) {
                                            Some((a4, j4)) => {
                                                if j4 < s.len() && s[j4] == '-' {
                                                    spec_hex_fold(s, j4 + 1, 12, a4)
                                                } else {
                                                    None
                                                }
                                            },
                                            None => None,
                                        }
                                    } else {
                                        None
                                    }
                                },
                                None => None,
                            }
                        } else {
                            None
                        }
                    },
                    None => None,
                }
            } else {
                None
            }
        },
        None => None,
    }
}

/// Splitting a known subrange at a concatenation boundary.
pub proof fn lemma_subrange_split(s: Seq<char>, i: int, j: int, a: Seq<char>, b: Seq<char>)
    requires
        0 <= i <= j <= s.len(),
        j - i == a.len() + b.len(),
        s.subrange(i, j) == a + b,
    ensures
        s.subrange(i, i + a.len()) == a,
        s.subrange(i + a.len(), j) == b,
{
    assert forall|k: int| 0 <= k < a.len() implies s.subrange(i, i + a.len())[k] == a[k] by {
        assert(s.subrange(i, j)[k] == (a + b)[k]);
        assert(s.subrange(i, j)[k] == s[i + k]);
    }
    assert(s.subrange(i, i + a.len()) =~= a);
    assert forall|k: int| 0 <= k < b.len() implies s.subrange(i + a.len(), j)[k] == b[k] by {
        assert(s.subrange(i, j)[a.len() + k] == (a + b)[a.len() + k]);
        assert(s.subrange(i, j)[a.len() + k] == s[i + a.len() + k]);
    }
    assert(s.subrange(i + a.len(), j) =~= b);
}

/// Parsing a written identifier yields the identifier back.
pub proof fn lemma_parse_uuid_of_uuid_seq(s: Seq<char>, i: int, v: int)
    requires
        0 <= v < pow16(32),
        0 <= i,
        i + 36 <= s.len(),
        s.subrange(i, i + 36) == spec_uuid_seq(v),
    ensures
        spec_parse_uuid(s, i) == Some((v, i + 36)),
{
    let d24 = v / pow16(24);
    let d20 = v / pow16(20);
    let d16 = v / pow16(16);
    let d12 = v / pow16(12);
    let g1 = spec_hex_fixed(d24, 8);
    let g2 = spec_hex_fixed(d20, 4);
    let g3 = spec_hex_fixed(d16, 4);
    let g4 = spec_hex_fixed(d12, 4);
    let g5 = spec_hex_fixed(v, 12);
    let hy = seq!['-'];
    lemma_hex_fixed_len(d24, 8);
    lemma_hex_fixed_len(d20, 4);
    lemma_hex_fixed_len(d16, 4);
    lemma_hex_fixed_len(d12, 4);
    lemma_hex_fixed_len(v, 12);
    lemma_pow16_pos(12);
    lemma_pow16_pos(16);
    lemma_pow16_pos(20);
    lemma_pow16_pos(24);
    lemma_pow16_pos(4);
    lemma_pow16_pos(8);
    // Carve the text into the five groups and four hyphens.
    lemma_subrange_split(s, i, i + 36, g1, hy + (g2 + (hy + (g3 + (hy + (g4 + (hy + g5)))))));
    lemma_subrange_split(s, i + 8, i + 36, hy, g2 + (hy + (g3 + (hy + (g4 + (hy + g5))))));
    lemma_subrange_split(s, i + 9, i + 36, g2, hy + (g3 + (hy + (g4 + (hy + g5)))));
    lemma_subrange_split(s, i + 13, i + 36, hy, g3 + (hy + (g4 + (hy + g5))));
    lemma_subrange_split(s, i + 14, i + 36, g3, hy + (g4 + (hy + g5)));
    lemma_subrange_split(s, i + 18, i + 36, hy, g4 + (hy + g5));
    lemma_subrange_split(s, i + 19, i + 36, g4, hy + g5);
    lemma_subrange_split(s, i + 23, i + 36, hy, g5);
    assert(s[i + 8] == '-') by {
        assert(s.subrange(i + 8, i + 9)[0] == s[i + 8]);
    }
    assert(s[i + 13] == '-') by {
        assert(s.subrange(i + 13, i + 14)[0] == s[i + 13]);
    }
    assert(s[i + 18] == '-') by {
        assert(s.subrange(i + 18, i + 19)[0] == s[i + 18]);
    }
    assert(s[i + 23] == '-') by {
        assert(s.subrange(i + 23, i + 24)[0] == s[i + 23]);
    }
    // Group values and the fold chain.
    assert(pow16(32) == pow16(24) * pow16(8)) by {
        lemma_pow16_add(24, 8);
    }
    assert(0 <= d24 < pow16(8)) by (nonlinear_arith)
        requires
            0 <= v < pow16(24) * pow16(8),
            pow16(24) >= 1,
            d24 == v / pow16(24),
    ;
    lemma_hex_fold_of_hex_fixed(s, i, d24, 8, 0);
    assert(0 * pow16(8) + d24 == d24);

    let m2 = d20 % pow16(4);
    lemma_hex_fixed_mod(d20, 4);
    vstd::arithmetic::div_mod::lemma_mod_bound(d20, pow16(4));
    lemma_hex_fold_of_hex_fixed(s, i + 9, m2, 4, d24);
    assert(d24 * pow16(4) + m2 == d20) by {
        assert(d20 / pow16(4) == d24) by {
            vstd::arithmetic::div_mod::lemma_div_denominator(v, pow16(20), pow16(4));
            lemma_pow16_add(20, 4);
        }
        vstd::arithmetic::div_mod::lemma_fundamental_div_mod(d20, pow16(4));
        assert(d20 == pow16(4) * (d20 / pow16(4)) + d20 % pow16(4));
        assert(pow16(4) * d24 == d24 * pow16(4)) by (nonlinear_arith);
    }

    let m3 = d16 % pow16(4);
    lemma_hex_fixed_mod(d16, 4);
    vstd::arithmetic::div_mod::lemma_mod_bound(d16, pow16(4));
    lemma_hex_fold_of_hex_fixed(s, i + 14, m3, 4, d20);
    assert(d20 * pow16(4) + m3 == d16) by {
        assert(d16 / pow16(4) == d20) by {
            vstd::arithmetic::div_mod::lemma_div_denominator(v, pow16(16), pow16(4));
            lemma_pow16_add(16, 4);
        }
        vstd::arithmetic::div_mod::lemma_fundamental_div_mod(d16, pow16(4));
        assert(pow16(4) * d20 == d20 * pow16(4)) by (nonlinear_arith);
    }

    let m4 = d12 % pow16(4);
    lemma_hex_fixed_mod(d12, 4);
    vstd::arithmetic::div_mod::lemma_mod_bound(d12, pow16(4));
    lemma_hex_fold_of_hex_fixed(s, i + 19, m4, 4, d16);
    assert(d16 * pow16(4) + m4 == d12) by {
        assert(d12 / pow16(4) == d16) by {
            vstd::arithmetic::div_mod::lemma_div_denominator(v, pow16(12), pow16(4));
            lemma_pow16_add(12, 4);
        }
        vstd::arithmetic::div_mod::lemma_fundamental_div_mod(d12, pow16(4));
        assert(pow16(4) * d16 == d16 * pow16(4)) by (nonlinear_arith);
    }

    let m5 = v % pow16(12);
    lemma_hex_fixed_mod(v, 12);
    vstd::arithmetic::div_mod::lemma_mod_bound(v, pow16(12));
    lemma_hex_fold_of_hex_fixed(s, i + 24, m5, 12, d12);
    assert(d12 * pow16(12) + m5 == v) by {
        vstd::arithmetic::div_mod::lemma_fundamental_div_mod(v, pow16(12));
        assert(pow16(12) * d12 == d12 * pow16(12)) by (nonlinear_arith);
    }

    assert(d24 >= 0);
    assert(d20 >= 0) by (nonlinear_arith)
        requires
            v >= 0,
            pow16(20) >= 1,
            d20 == v / pow16(20),
    ;
    assert(d16 >= 0) by (nonlinear_arith)
        requires
            v >= 0,
            pow16(16) >= 1,
            d16 == v / pow16(16),
    ;
    assert(d12 >= 0) by (nonlinear_arith)
        requires
            v >= 0,
            pow16(12) >= 1,
            d12 == v / pow16(12),
    ;
}

/// A value folded over `n` digits stays under `(acc + 1) * 16^n`.
pub proof fn lemma_hex_fold_bound(s: Seq<char>, i: int, n: nat, acc: int)
    requires
        acc >= 0,
    ensures
        spec_hex_fold(s, i, n, acc) matches Some((v, _)) ==> acc * pow16(n) <= v < (acc + 1)
            * pow16(n),
    decreases n,
{
    lemma_pow16_pos(n);
    if n == 0 {
    } else if 0 <= i && i < s.len() && is_hex(s[i]) {
        let d = hex_val(s[i]);
        assert(0 <= d <= 15);
        lemma_hex_fold_bound(s, i + 1, (n - 1) as nat, acc * 16 + d);
        match spec_hex_fold(s, i, n, acc) {
            Some((v, _)) => {
                let pm = pow16((n - 1) as nat);
                lemma_pow16_pos((n - 1) as nat);
                assert((acc * 16 + d) * pm <= v < (acc * 16 + d + 1) * pm);
                assert(pow16(n) == 16 * pm);
                assert(acc * (16 * pm) <= (acc * 16 + d) * pm) by (nonlinear_arith)
                    requires
                        d >= 0,
                        pm >= 1,
                ;
                assert((acc * 16 + d + 1) * pm <= (acc + 1) * (16 * pm)) by (nonlinear_arith)
                    requires
                        d <= 15,
                        pm >= 1,
                ;
            },
            None => {},
        }
    }
}

/// Append the fixed-width hexadecimal writing of `v`.
pub fn write_hex_fixed(out: &mut Vec<char>, v: u128, digits: usize)
    ensures
        final(out)@ == old(out)@ + spec_hex_fixed(v as int, digits as nat),
    decreases digits,
{
    if digits == 0 {
        proof {
            assert(out@ =~= old(out)@ + spec_hex_fixed(v as int, 0));
        }
    } else {
        write_hex_fixed(out, v / 16, digits - 1);
        out.push(crate::jtext::hex_to_char((v % 16) as u8));
        proof {
            assert(out@ =~= old(out)@ + spec_hex_fixed(v as int, digits as nat));
        }
    }
}

/// Append the hyphenated writing of a 128-bit identifier.
pub fn write_uuid(out: &mut Vec<char>, v: u128)
    ensures
        final(out)@ == old(out)@ + spec_uuid_seq(v as int),
{
    proof {
        lemma_pow16_values();
    }
    write_hex_fixed(out, v / 0x1000000000000000000000000u128, 8);
    out.push('-');
    write_hex_fixed(out, v / 0x100000000000000000000u128, 4);
    out.push('-');
    write_hex_fixed(out, v / 0x10000000000000000u128, 4);
    out.push('-');
    write_hex_fixed(out, v / 0x1000000000000u128, 4);
    out.push('-');
    write_hex_fixed(out, v, 12);
    proof {
        assert(out@ =~= old(out)@ + spec_uuid_seq(v as int));
    }
}

/// Executable counterpart of `spec_hex_fold`: exactly `n` digits.
fn parse_hex_fixed(s: &Vec<char>, i: usize, n: usize, acc: u128) -> (r: Option<(u128, usize)>)
    requires
        i <= s@.len(),
        n <= 32,
        (acc as int) < pow16((32 - n) as nat),
    ensures
        r matches Some((v, j)) ==> spec_hex_fold(s@, i as int, n as nat, acc as int) == Some(
            (v as int, j as int),
        ) && i <= j <= s@.len() && (v as int) < pow16(32),
        r is None ==> spec_hex_fold(s@, i as int, n as nat, acc as int) is None,
    decreases n,
{
    proof {
        lemma_pow16_pos((32 - n) as nat);
        lemma_hex_fold_bound(s@, i as int, n as nat, acc as int);
        assert(pow16((32 - n) as nat) * pow16(n as nat) == pow16(32)) by {
            lemma_pow16_add((32 - n) as nat, n as nat);
        }
        lemma_pow16_pos(n as nat);
        assert((acc as int + 1) * pow16(n as nat) <= pow16(32)) by (nonlinear_arith)
            requires
                acc as int + 1 <= pow16((32 - n) as nat),
                pow16(n as nat) >= 1,
                pow16((32 - n) as nat) * pow16(n as nat) == pow16(32),
        ;
        lemma_pow16_values();
    }
    if n == 0 {
        return Some((acc, i));
    }
    if i >= s.len() {
        return None;
    }
    match crate::jtext::char_hex_val(s[i]) {
        None => None,
        Some(d) => {
            proof {
                assert(pow16((32 - n) as nat) * 16 == pow16((32 - (n - 1)) as nat)) by {
                    lemma_pow16_add((32 - n) as nat, 1);
                    assert(pow16(0nat) == 1);
                    assert(pow16(1nat) == 16);
                }
                assert((acc as int * 16 + d) < pow16((32 - (n - 1)) as nat)) by (nonlinear_arith)
                    requires
                        acc as int + 1 <= pow16((32 - n) as nat),
                        d < 16,
                        pow16((32 - n) as nat) * 16 == pow16((32 - (n - 1)) as nat),
                ;
                lemma_pow16_pos((32 - (n - 1)) as nat);
                assert(pow16((32 - (n - 1)) as nat) <= pow16(32)) by {
                    lemma_pow16_add((32 - (n - 1)) as nat, (n - 1) as nat);
                    lemma_pow16_pos((n - 1) as nat);
                    assert(pow16((32 - (n - 1)) as nat) * pow16((n - 1) as nat) == pow16(32));
                    assert(pow16((32 - (n - 1)) as nat) * 1 <= pow16((32 - (n - 1)) as nat)
                        * pow16((n - 1) as nat)) by (nonlinear_arith)
                        requires
                            pow16((32 - (n - 1)) as nat) >= 1,
                            pow16((n - 1) as nat) >= 1,
                    ;
                }
            }
            parse_hex_fixed(s, i + 1, n - 1, acc * 16 + d as u128)
        },
    }
}

/// Executable counterpart of `spec_parse_uuid`.
pub fn parse_uuid(s: &Vec<char>, i: usize) -> (r: Option<(u128, usize)>)
    requires
        i <= s@.len(),
    ensures
        r matches Some((v, j)) ==> spec_parse_uuid(s@, i as int) == Some((v as int, j as int))
            && i <= j <= s@.len(),
        r is None ==> spec_parse_uuid(s@, i as int) is None,
{
    proof {
        lemma_pow16_pos(24nat);
    }
    let r1 = parse_hex_fixed(s, i, 8, 0);
    match r1 {
        None => None,
        Some((a1, j1)) => {
            proof {
                lemma_hex_fold_bound(s@, i as int, 8, 0);
                lemma_pow16_mono(8nat, 28nat);
            }
            if j1 >= s.len() || s[j1] != '-' {
                return None;
            }
            let r2 = parse_hex_fixed(s, j1 + 1, 4, a1);
            match r2 {
                None => None,
                Some((a2, j2)) => {
                    proof {
                        lemma_hex_fold_bound(s@, j1 + 1, 4, a1 as int);
                        lemma_pow16_add(8nat, 4nat);
                        lemma_pow16_pos(4nat);
                        lemma_pow16_mono(12nat, 28nat);
                        assert((a2 as int) < pow16(12nat)) by (nonlinear_arith)
                            requires
                                (a2 as int) < (a1 as int + 1) * pow16(4nat),
                                a1 as int + 1 <= pow16(8nat),
                                pow16(4nat) >= 1,
                                pow16(8nat) * pow16(4nat) == pow16(12nat),
                        ;
                    }
                    if j2 >= s.len() || s[j2] != '-' {
                        return None;
                    }
                    let r3 = parse_hex_fixed(s, j2 + 1, 4, a2);
                    match r3 {
                        None => None,
                        Some((a3, j3)) => {
                            proof {
                                lemma_hex_fold_bound(s@, j2 + 1, 4, a2 as int);
                                lemma_pow16_add(12nat, 4nat);
                                lemma_pow16_pos(4nat);
                                lemma_pow16_mono(16nat, 28nat);
                                assert((a3 as int) < pow16(16nat)) by (nonlinear_arith)
                                    requires
                                        (a3 as int) < (a2 as int + 1) * pow16(4nat),
                                        a2 as int + 1 <= pow16(12nat),
                                        pow16(4nat) >= 1,
                                        pow16(12nat) * pow16(4nat) == pow16(16nat),
                                ;
                            }
                            if j3 >= s.len() || s[j3] != '-' {
                                return None;
                            }
                            let r4 = parse_hex_fixed(s, j3 + 1, 4, a3);
                            match r4 {
                                None => None,
                                Some((a4, j4)) => {
                                    proof {
                                        lemma_hex_fold_bound(s@, j3 + 1, 4, a3 as int);
                                        lemma_pow16_add(16nat, 4nat);
                                        lemma_pow16_pos(4nat);
                                        lemma_pow16_mono(20nat, 28nat);
                                        assert((a4 as int) < pow16(20nat)) by (nonlinear_arith)
                                            requires
                                                (a4 as int) < (a3 as int + 1) * pow16(4nat),
                                                a3 as int + 1 <= pow16(16nat),
                                                pow16(4nat) >= 1,
                                                pow16(16nat) * pow16(4nat) == pow16(20nat),
                                        ;
                                    }
                                    if j4 >= s.len() || s[j4] != '-' {
                                        return None;
                                    }
                                    parse_hex_fixed(s, j4 + 1, 12, a4)
                                },
                            }
                        },
                    }
                },
            }
        },
    }
}

/// The 20-character writing of a timestamp: `YYYY-MM-DDThh:mm:ssZ`.
pub open spec fn spec_ts_seq(ts: Timestamp) -> Seq<char> {
    seq![
        digit_char(ts.year as int / 1000),
        digit_char((ts.year as int / 100) % 10),
        digit_char((ts.year as int / 10) % 10),
        digit_char(ts.year as int % 10),
        '-',
        digit_char(ts.month as int / 10),
        digit_char(ts.month as int % 10),
        '-',
        digit_char(ts.day as int / 10),
        digit_char(ts.day as int % 10),
        'T',
        digit_char(ts.hour as int / 10),
        digit_char(ts.hour as int % 10),
        ':',
        digit_char(ts.minute as int / 10),
        digit_char(ts.minute as int % 10),
        ':',
        digit_char(ts.second as int / 10),
        digit_char(ts.second as int % 10),
        'Z',
    ]
}

/// A timestamp at `i`: four digit fields with their separators, fields in
/// range; anything else is malformed.
pub open spec fn spec_parse_ts(s: Seq<char>, i: int) -> Option<(Timestamp, int)> {
    if 0 <= i && i + 20 <= s.len() && is_digit(s[i]) && is_digit(s[i + 1]) && is_digit(s[i + 2])
        && is_digit(s[i + 3]) && s[i + 4] == '-' && is_digit(s[i + 5]) && is_digit(s[i + 6]) && s[i
        + 7] == '-' && is_digit(s[i + 8]) && is_digit(s[i + 9]) && s[i + 10] == 'T' && is_digit(
        s[i + 11],
    ) && is_digit(s[i + 12]) && s[i + 13] == ':' && is_digit(s[i + 14]) && is_digit(s[i + 15])
        && s[i + 16] == ':' && is_digit(s[i + 17]) && is_digit(s[i + 18]) && s[i + 19] == 'Z' {
        let y = 1000 * digit_val(s[i]) + 100 * digit_val(s[i + 1]) + 10 * digit_val(s[i + 2])
            + digit_val(s[i + 3]);
        let mo = 10 * digit_val(s[i + 5]) + digit_val(s[i + 6]);
        let d = 10 * digit_val(s[i + 8]) + digit_val(s[i + 9]);
        let h = 10 * digit_val(s[i + 11]) + digit_val(s[i + 12]);
        let mi = 10 * digit_val(s[i + 14]) + digit_val(s[i + 15]);
        let sec = 10 * digit_val(s[i + 17]) + digit_val(s[i + 18]);
        if 1 <= mo <= 12 && 1 <= d <= 31 && h <= 23 && mi <= 59 && sec <= 59 {
            Some(
                (
                    Timestamp {
                        year: y as u16,
                        month: mo as u8,
                        day: d as u8,
                        hour: h as u8,
                        minute: mi as u8,
                        second: sec as u8,
                    },
                    i + 20,
                ),
            )
        } else {
            None
        }
    } else {
        None
    }
}

/// A two-digit field reads back as its value.
proof fn lemma_two_digits(v: int)
    requires
        0 <= v <= 99,
    ensures
        10 * digit_val(digit_char(v / 10)) + digit_val(digit_char(v % 10)) == v,
        is_digit(digit_char(v / 10)),
        is_digit(digit_char(v % 10)),
{
    vstd::arithmetic::div_mod::lemma_fundamental_div_mod(v, 10);
    vstd::arithmetic::div_mod::lemma_mod_bound(v, 10);
    lemma_digit_char_val(v / 10);
    lemma_digit_char_val(v % 10);
}

/// A four-digit field reads back as its value.
proof fn lemma_four_digits(v: int)
    requires
        0 <= v <= 9999,
    ensures
        1000 * digit_val(digit_char(v / 1000)) + 100 * digit_val(digit_char((v / 100) % 10)) + 10
            * digit_val(digit_char((v / 10) % 10)) + digit_val(digit_char(v % 10)) == v,
        is_digit(digit_char(v / 1000)),
        is_digit(digit_char((v / 100) % 10)),
        is_digit(digit_char((v / 10) % 10)),
        is_digit(digit_char(v % 10)),
{
    vstd::arithmetic::div_mod::lemma_fundamental_div_mod(v, 10);
    vstd::arithmetic::div_mod::lemma_mod_bound(v, 10);
    vstd::arithmetic::div_mod::lemma_fundamental_div_mod(v / 10, 10);
    vstd::arithmetic::div_mod::lemma_mod_bound(v / 10, 10);
    vstd::arithmetic::div_mod::lemma_fundamental_div_mod(v / 100, 10);
    vstd::arithmetic::div_mod::lemma_mod_bound(v / 100, 10);
    vstd::arithmetic::div_mod::lemma_div_denominator(v, 10, 10);
    vstd::arithmetic::div_mod::lemma_div_denominator(v, 100, 10);
    assert(v / 10 / 10 == v / 100);
    assert(v / 100 / 10 == v / 1000);
    lemma_digit_char_val(v / 1000);
    lemma_digit_char_val((v / 100) % 10);
    lemma_digit_char_val((v / 10) % 10);
    lemma_digit_char_val(v % 10);
}

/// Parsing a written timestamp yields the timestamp back.
pub proof fn lemma_parse_ts_of_ts_seq(s: Seq<char>, i: int, ts: Timestamp)
    requires
        ts.wf(),
        0 <= i,
        i + 20 <= s.len(),
        s.subrange(i, i + 20) == spec_ts_seq(ts),
    ensures
        spec_parse_ts(s, i) == Some((ts, i + 20)),
{
    let q = spec_ts_seq(ts);
    assert(forall|k: int| 0 <= k < 20 ==> s[i + k] == #[trigger] q[k]) by {
        assert(forall|k: int| 0 <= k < 20 ==> s.subrange(i, i + 20)[k] == #[trigger] q[k]);
    }
    lemma_four_digits(ts.year as int);
    lemma_two_digits(ts.month as int);
    lemma_two_digits(ts.day as int);
    lemma_two_digits(ts.hour as int);
    lemma_two_digits(ts.minute as int);
    lemma_two_digits(ts.second as int);
    assert(s[i + 0] == q[0]);
    assert(s[i + 1] == q[1]);
    assert(s[i + 2] == q[2]);
    assert(s[i + 3] == q[3]);
    assert(s[i + 4] == q[4]);
    assert(s[i + 5] == q[5]);
    assert(s[i + 6] == q[6]);
    assert(s[i + 7] == q[7]);
    assert(s[i + 8] == q[8]);
    assert(s[i + 9] == q[9]);
    assert(s[i + 10] == q[10]);
    assert(s[i + 11] == q[11]);
    assert(s[i + 12] == q[12]);
    assert(s[i + 13] == q[13]);
    assert(s[i + 14] == q[14]);
    assert(s[i + 15] == q[15]);
    assert(s[i + 16] == q[16]);
    assert(s[i + 17] == q[17]);
    assert(s[i + 18] == q[18]);
    assert(s[i + 19] == q[19]);
    match spec_parse_ts(s, i) {
        Some((t2, j)) => {
            assert(t2.year == ts.year);
            assert(t2.month == ts.month);
            assert(t2.day == ts.day);
            assert(t2.hour == ts.hour);
            assert(t2.minute == ts.minute);
            assert(t2.second == ts.second);
        },
        None => {
            assert(false);
        },
    }
}

/// Append the writing of a timestamp.
#[verifier::spinoff_prover]
#[verifier::rlimit(100)]
pub fn write_ts(out: &mut Vec<char>, ts: &Timestamp)
    requires
        ts.wf(),
    ensures
        final(out)@ == old(out)@ + spec_ts_seq(*ts),
{
    out.push(crate::jtext::digit_to_char((ts.year / 1000) as u8));
    out.push(crate::jtext::digit_to_char(((ts.year / 100) % 10) as u8));
    out.push(crate::jtext::digit_to_char(((ts.year / 10) % 10) as u8));
    out.push(crate::jtext::digit_to_char((ts.year % 10) as u8));
    out.push('-');
    out.push(crate::jtext::digit_to_char(ts.month / 10));
    out.push(crate::jtext::digit_to_char(ts.month % 10));
    out.push('-');
    out.push(crate::jtext::digit_to_char(ts.day / 10));
    out.push(crate::jtext::digit_to_char(ts.day % 10));
    out.push('T');
    out.push(crate::jtext::digit_to_char(ts.hour / 10));
    out.push(crate::jtext::digit_to_char(ts.hour % 10));
    out.push(':');
    out.push(crate::jtext::digit_to_char(ts.minute / 10));
    out.push(crate::jtext::digit_to_char(ts.minute % 10));
    out.push(':');
    out.push(crate::jtext::digit_to_char(ts.second / 10));
    out.push(crate::jtext::digit_to_char(ts.second % 10));
    out.push('Z');
    proof {
        assert(out@ =~= old(out)@ + spec_ts_seq(*ts));
    }
}

/// The numeric value of a decimal digit character.
fn char_digit(c: char) -> (r: Option<u8>)
    ensures
        r matches Some(d) ==> is_digit(c) && d == digit_val(c) && d <= 9,
        r is None ==> !is_digit(c),
{
    let u = c as u32;
    if 48 <= u && u <= 57 {
        Some((u - 48) as u8)
    } else {
        None
    }
}

/// Executable counterpart of `spec_parse_ts`.
pub fn parse_ts(s: &Vec<char>, i: usize) -> (r: Option<(Timestamp, usize)>)
    requires
        i <= s@.len(),
    ensures
        r matches Some((ts, j)) ==> spec_parse_ts(s@, i as int) == Some((ts, j as int)) && i <= j
            <= s@.len() && ts.wf(),
        r is None ==> spec_parse_ts(s@, i as int) is None,
{
    if s.len() - i < 20 {
        return None;
    }
    let d0 = char_digit(s[i]);
    let d1 = char_digit(s[i + 1]);
    let d2 = char_digit(s[i + 2]);
    let d3 = char_digit(s[i + 3]);
    let d5 = char_digit(s[i + 5]);
    let d6 = char_digit(s[i + 6]);
    let d8 = char_digit(s[i + 8]);
    let d9 = char_digit(s[i + 9]);
    let d11 = char_digit(s[i + 11]);
    let d12 = char_digit(s[i + 12]);
    let d14 = char_digit(s[i + 14]);
    let d15 = char_digit(s[i + 15]);
    let d17 = char_digit(s[i + 17]);
    let d18 = char_digit(s[i + 18]);
    if s[i + 4] != '-' || s[i + 7] != '-' || s[i + 10] != 'T' || s[i + 13] != ':' || s[i + 16]
        != ':' || s[i + 19] != 'Z' {
        return None;
    }
    match (d0, d1, d2, d3, d5, d6, d8, d9, d11, d12, d14, d15, d17, d18) {
        (
            Some(a0),
            Some(a1),
            Some(a2),
            Some(a3),
            Some(a5),
            Some(a6),
            Some(a8),
            Some(a9),
            Some(a11),
            Some(a12),
            Some(a14),
            Some(a15),
            Some(a17),
            Some(a18),
        ) => {
            let y: u16 = a0 as u16 * 1000 + a1 as u16 * 100 + a2 as u16 * 10 + a3 as u16;
            let mo: u8 = 10 * a5 + a6;
            let d: u8 = 10 * a8 + a9;
            let h: u8 = 10 * a11 + a12;
            let mi: u8 = 10 * a14 + a15;
            let sec: u8 = 10 * a17 + a18;
            if 1 <= mo && mo <= 12 && 1 <= d && d <= 31 && h <= 23 && mi <= 59 && sec <= 59 {
                Some((Timestamp { year: y, month: mo, day: d, hour: h, minute: mi, second: sec },
                    i + 20))
            } else {
                None
            }
        },
        _ => None,
    }
}

} // verus!
