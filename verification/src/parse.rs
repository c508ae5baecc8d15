//! The dataset loader's text format: one record per line, each line
//! holding the feature values as plain decimals and a final 1-based class
//! label, separated by blanks.
//!
//! The grammar is on bytes. A feature token is one to seven digits,
//! optionally followed by a point and one to four fraction digits; its
//! value is fixed point at `SCALE`. A label token is one to nine digits
//! whose value names a class. Reading the file itself is the caller's
//! concern; everything from bytes to records happens here.

use vstd::prelude::*;
use crate::{Error, ClassLabel, Record, spec_label_of, SCALE, VAL_MAX};
use crate::classify::{row_ok, rows_ok, valid_dataset, MAX_FEATURES};

verus! {

/// Blank bytes that separate tokens: space, tab, carriage return.
pub open spec fn is_space(b: u8) -> bool {
    b == 32 || b == 9 || b == 13
}

/// ASCII digit.
pub open spec fn is_digit(b: u8) -> bool {
    48 <= b <= 57
}

/// Length of the leading run of non-blank bytes.
pub open spec fn prefix_len(s: Seq<u8>) -> nat
    decreases s.len(),
{
    if s.len() == 0 || is_space(s[0]) {
        0
    } else {
        1 + prefix_len(s.drop_first())
    }
}

pub proof fn lemma_prefix_len_le(s: Seq<u8>)
    ensures
        prefix_len(s) <= s.len(),
        s.len() > 0 && !is_space(s[0]) ==> prefix_len(s) >= 1,
    decreases s.len(),
{
    if s.len() > 0 && !is_space(s[0]) {
        lemma_prefix_len_le(s.drop_first());
    }
}

/// The blank-separated tokens of `s`, in order.
pub open spec fn spec_tokens(s: Seq<u8>) -> Seq<Seq<u8>>
    decreases s.len(),
    via spec_tokens_decreases
{
    if s.len() == 0 {
        Seq::empty()
    } else if is_space(s[0]) {
        spec_tokens(s.drop_first())
    } else {
        seq![s.take(prefix_len(s) as int)] + spec_tokens(s.skip(prefix_len(s) as int))
    }
}

#[via_fn]
proof fn spec_tokens_decreases(s: Seq<u8>) {
    lemma_prefix_len_le(s);
}

/// The views of a vector of byte tokens.
pub open spec fn views_of(toks: Seq<Vec<u8>>) -> Seq<Seq<u8>> {
    toks.map_values(|t: Vec<u8>| t@)
}

proof fn lemma_tokens_skip_space(s: Seq<u8>, i: int)
    requires
        0 <= i < s.len(),
        is_space(s[i]),
    ensures
        spec_tokens(s.skip(i)) == spec_tokens(s.skip(i + 1)),
{
    assert(s.skip(i)[0] == s[i]);
    assert(s.skip(i).drop_first() =~= s.skip(i + 1));
}

proof fn lemma_prefix_len_char(s: Seq<u8>, k: int)
    requires
        0 <= k <= s.len(),
        forall|j: int| 0 <= j < k ==> !is_space(#[trigger] s[j]),
        k == s.len() || is_space(s[k]),
    ensures
        prefix_len(s) == k,
    decreases k,
{
    if k == 0 {
    } else {
        assert(!is_space(s[0]));
        let t = s.drop_first();
        assert(forall|j: int| 0 <= j < k - 1 ==> #[trigger] t[j] == s[j + 1]);
        lemma_prefix_len_char(t, k - 1);
    }
}

proof fn lemma_tokens_word(s: Seq<u8>, i: int, j: int)
    requires
        0 <= i < j <= s.len(),
        forall|k: int| i <= k < j ==> !is_space(#[trigger] s[k]),
        j == s.len() || is_space(s[j]),
    ensures
        spec_tokens(s.skip(i)) == seq![s.subrange(i, j)] + spec_tokens(s.skip(j)),
{
    let t = s.skip(i);
    assert(forall|m: int| 0 <= m < t.len() ==> #[trigger] t[m] == s[i + m]);
    assert(forall|m: int| 0 <= m < j - i ==> !is_space(#[trigger] t[m]));
    lemma_prefix_len_char(t, j - i);
    assert(!is_space(t[0]));
    assert(t.take(j - i) =~= s.subrange(i, j));
    assert(t.skip(j - i) =~= s.skip(j));
}

fn is_space_byte(b: u8) -> (r: bool)
    ensures
        r == is_space(b),
{
    b == 32 || b == 9 || b == 13
}

/// Splits `s` into its blank-separated tokens, exact per `spec_tokens`.
pub fn tokenize(s: &[u8]) -> (toks: Vec<Vec<u8>>)
    ensures
        views_of(toks@) == spec_tokens(s@),
{
    let mut toks: Vec<Vec<u8>> = Vec::new();
    let mut i: usize = 0;
    proof {
        assert(s@.skip(0) =~= s@);
        assert(views_of(toks@) =~= Seq::<Seq<u8>>::empty());
    }
    while i < s.len()
        invariant
            0 <= i <= s@.len(),
            spec_tokens(s@) == views_of(toks@) + spec_tokens(s@.skip(i as int)),
        decreases s@.len() - i,
    {
        if is_space_byte(s[i]) {
            proof {
                lemma_tokens_skip_space(s@, i as int);
            }
            i = i + 1;
        } else {
            let start = i;
            let mut j = i + 1;
            while j < s.len() && !is_space_byte(s[j])
                invariant
                    0 <= start < j <= s@.len(),
                    forall|k: int| start <= k < j ==> !is_space(#[trigger] s@[k]),
                decreases s@.len() - j,
            {
                j = j + 1;
            }
            let mut tok: Vec<u8> = Vec::new();
            let mut k = start;
            proof {
                assert(tok@ =~= s@.subrange(start as int, start as int));
            }
            while k < j
                invariant
                    start <= k <= j <= s@.len(),
                    tok@ =~= s@.subrange(start as int, k as int),
                decreases j - k,
            {
                tok.push(s[k]);
                proof {
                    assert(tok@ =~= s@.subrange(start as int, k as int + 1));
                }
                k = k + 1;
            }
            proof {
                lemma_tokens_word(s@, start as int, j as int);
                assert(views_of(toks@.push(tok)) =~= views_of(toks@).push(tok@));
                assert(views_of(toks@).push(tok@) =~= views_of(toks@) + seq![tok@]);
            }
            toks.push(tok);
            i = j;
        }
    }
    proof {
        assert(s@.skip(s@.len() as int) =~= Seq::<u8>::empty());
        assert(spec_tokens(Seq::<u8>::empty()) =~= Seq::<Seq<u8>>::empty());
        assert(views_of(toks@) =~= views_of(toks@) + Seq::<Seq<u8>>::empty());
    }
    toks
}


/// `10^k` for the small exponents the grammar uses.
pub open spec fn pow10(k: nat) -> int
    decreases k,
{
    if k == 0 {
        1
    } else {
        10 * pow10((k - 1) as nat)
    }
}

/// Every byte is a digit.
pub open spec fn all_digits(t: Seq<u8>) -> bool {
    forall|i: int| 0 <= i < t.len() ==> is_digit(#[trigger] t[i])
}

/// Value of a digit string read most significant first.
pub open spec fn digits_val(t: Seq<u8>) -> int
    decreases t.len(),
{
    if t.len() == 0 {
        0
    } else {
        digits_val(t.drop_last()) * 10 + (t.last() - 48)
    }
}

proof fn lemma_digits_val_bound(t: Seq<u8>)
    requires
        all_digits(t),
    ensures
        0 <= digits_val(t) < pow10(t.len()),
    decreases t.len(),
{
    if t.len() > 0 {
        assert(all_digits(t.drop_last()));
        lemma_digits_val_bound(t.drop_last());
        assert(is_digit(t.last()));
        assert(digits_val(t.drop_last()) * 10 + 10 <= pow10((t.len() - 1) as nat) * 10)
            by (nonlinear_arith)
            requires digits_val(t.drop_last()) < pow10((t.len() - 1) as nat);
        assert(digits_val(t.drop_last()) * 10 >= 0) by (nonlinear_arith)
            requires digits_val(t.drop_last()) >= 0;
    }
}

proof fn lemma_pow10_vals()
    ensures
        pow10(0) == 1,
        pow10(1) == 10,
        pow10(2) == 100,
        pow10(3) == 1000,
        pow10(4) == 10_000,
        pow10(7) == 10_000_000,
        pow10(9) == 1_000_000_000,
{
    assert(pow10(0) == 1);
    assert(pow10(1) == 10);
    assert(pow10(2) == 100);
    assert(pow10(3) == 1000);
    assert(pow10(4) == 10_000);
    assert(pow10(5) == 100_000);
    assert(pow10(6) == 1_000_000);
    assert(pow10(7) == 10_000_000);
    assert(pow10(8) == 100_000_000);
    assert(pow10(9) == 1_000_000_000);
}

/// Index of the first decimal point in `t`, or its length.
pub open spec fn dot_pos(t: Seq<u8>) -> int
    decreases t.len(),
{
    if t.len() == 0 {
        0
    } else if t[0] == 46 {
        0
    } else {
        1 + dot_pos(t.drop_first())
    }
}

proof fn lemma_dot_pos_char(t: Seq<u8>, k: int)
    requires
        0 <= k <= t.len(),
        forall|j: int| 0 <= j < k ==> #[trigger] t[j] != 46,
        k == t.len() || t[k] == 46,
    ensures
        dot_pos(t) == k,
    decreases k,
{
    if k > 0 {
        let u = t.drop_first();
        assert(forall|j: int| 0 <= j < u.len() ==> #[trigger] u[j] == t[j + 1]);
        lemma_dot_pos_char(u, k - 1);
    }
}

/// Most integer digits a feature token may have.
pub const MAX_INT_DIGITS: usize = 7;

/// Most fraction digits a feature token may have.
pub const MAX_FRAC_DIGITS: usize = 4;

/// A well-formed feature token: digits, optionally a point and more
/// digits, within the digit-count limits.
pub open spec fn valid_decimal(t: Seq<u8>) -> bool {
    let d = dot_pos(t);
    &&& 1 <= d <= MAX_INT_DIGITS
    &&& all_digits(t.take(d))
    &&& (d == t.len() || (d + 2 <= t.len() && t.len() - d - 1 <= MAX_FRAC_DIGITS && all_digits(
        t.skip(d + 1),
    )))
}

/// What a fraction of `m` digits is worth per unit at `SCALE`.
pub open spec fn frac_scale(m: int) -> int {
    if m == 1 {
        1000
    } else if m == 2 {
        100
    } else if m == 3 {
        10
    } else {
        1
    }
}

/// Fixed-point value of a well-formed feature token.
pub open spec fn dec_value(t: Seq<u8>) -> int {
    let d = dot_pos(t);
    if d == t.len() {
        digits_val(t) * SCALE
    } else {
        digits_val(t.take(d)) * SCALE + digits_val(t.skip(d + 1)) * frac_scale(t.len() - d - 1)
    }
}

/// What parsing a feature token returns.
pub open spec fn spec_parse_decimal(t: Seq<u8>) -> Option<u64> {
    if valid_decimal(t) {
        Some(dec_value(t) as u64)
    } else {
        None
    }
}

/// The value of a well-formed feature token is within range.
pub proof fn lemma_dec_value_bounds(t: Seq<u8>)
    requires
        valid_decimal(t),
    ensures
        0 <= dec_value(t) <= VAL_MAX,
{
    let d = dot_pos(t);
    lemma_pow10_vals();
    lemma_digits_val_bound(t.take(d));
    assert(t.take(d).len() == d);
    assert(digits_val(t.take(d)) * SCALE <= 9_999_999 * 10_000) by (nonlinear_arith)
        requires 0 <= digits_val(t.take(d)) <= 9_999_999;
    if d == t.len() {
        assert(t.take(d) =~= t);
        assert(digits_val(t) * SCALE >= 0) by (nonlinear_arith)
            requires digits_val(t) >= 0;
    } else {
        let f = t.skip(d + 1);
        let m = t.len() - d - 1;
        lemma_digits_val_bound(f);
        assert(f.len() == m && 1 <= m <= 4);
        assert(pow10(m as nat) <= 10_000);
        assert(digits_val(f) * frac_scale(m) < 10_000) by (nonlinear_arith)
            requires
                0 <= digits_val(f) && digits_val(f) < pow10(m as nat) && ((m == 1 && pow10(
                    m as nat,
                ) == 10 && frac_scale(m) == 1000) || (m == 2 && pow10(m as nat) == 100
                    && frac_scale(m) == 100) || (m == 3 && pow10(m as nat) == 1000 && frac_scale(m)
                    == 10) || (m == 4 && pow10(m as nat) == 10_000 && frac_scale(m) == 1));
        assert(digits_val(f) * frac_scale(m) >= 0) by (nonlinear_arith)
            requires digits_val(f) >= 0 && frac_scale(m) >= 1;
    }
}

/// Reads the digit string `t[from..to]` as a number.
fn digits_value_range(t: &Vec<u8>, from: usize, to: usize) -> (r: Option<u64>)
    requires
        0 <= from <= to <= t@.len(),
        to - from <= 9,
    ensures
        r is Some <==> all_digits(t@.subrange(from as int, to as int)),
        r is Some ==> r->0 == digits_val(t@.subrange(from as int, to as int))
            && r->0 < pow10((to - from) as nat),
{
    let ghost whole = t@.subrange(from as int, to as int);
    let mut val: u64 = 0;
    let mut k = from;
    proof {
        lemma_pow10_vals();
        assert(t@.subrange(from as int, from as int) =~= Seq::<u8>::empty());
    }
    while k < to
        invariant
            from <= k <= to <= t@.len(),
            to - from <= 9,
            whole == t@.subrange(from as int, to as int),
            all_digits(t@.subrange(from as int, k as int)),
            val == digits_val(t@.subrange(from as int, k as int)),
            val < pow10((k - from) as nat),
            pow10((k - from) as nat) <= 1_000_000_000,
        decreases to - k,
    {
        let b = t[k];
        if b < 48 || b > 57 {
            proof {
                assert(whole[k - from as int] == t@[k as int]);
                assert(!all_digits(whole));
            }
            return None;
        }
        proof {
            assert(t@.subrange(from as int, k as int + 1).drop_last() =~= t@.subrange(
                from as int,
                k as int,
            ));
            assert(t@.subrange(from as int, k as int + 1).last() == t@[k as int]);
            assert(pow10((k + 1 - from) as nat) == 10 * pow10((k - from) as nat));
            assert(val * 10 + 10 <= pow10((k - from) as nat) * 10) by (nonlinear_arith)
                requires val < pow10((k - from) as nat);
            assert(val * 10 >= 0) by (nonlinear_arith)
                requires val >= 0;
            assert(pow10((k + 1 - from) as nat) <= 1_000_000_000) by {
                lemma_pow10_vals();
                lemma_pow10_mono((k + 1 - from) as nat, 9);
            }
        }
        val = val * 10 + ((b - 48) as u64);
        k = k + 1;
    }
    proof {
        assert(t@.subrange(from as int, to as int) == whole);
    }
    Some(val)
}

proof fn lemma_pow10_mono(a: nat, b: nat)
    requires
        a <= b,
    ensures
        pow10(a) <= pow10(b),
        pow10(a) >= 1,
    decreases b,
{
    if b > 0 {
        if a == b {
            lemma_pow10_mono((a - 1) as nat, (b - 1) as nat);
        } else {
            lemma_pow10_mono(a, (b - 1) as nat);
        }
        assert(pow10(b) == 10 * pow10((b - 1) as nat));
    }
}

/// Parses one feature token to its fixed-point value.
pub fn parse_decimal(t: &Vec<u8>) -> (r: Option<u64>)
    ensures
        r == spec_parse_decimal(t@),
        r is Some ==> r->0 <= VAL_MAX,
{
    let n = t.len();
    let mut d: usize = 0;
    while d < n && t[d] != 46
        invariant
            0 <= d <= n,
            n == t@.len(),
            forall|j: int| 0 <= j < d ==> #[trigger] t@[j] != 46,
        decreases n - d,
    {
        d = d + 1;
    }
    proof {
        lemma_dot_pos_char(t@, d as int);
    }
    if d < 1 || d > MAX_INT_DIGITS {
        return None;
    }
    let intpart = match digits_value_range(t, 0, d) {
        Some(v) => v,
        None => {
            proof {
                assert(t@.subrange(0, d as int) =~= t@.take(d as int));
            }
            return None;
        },
    };
    proof {
        assert(t@.subrange(0, d as int) =~= t@.take(d as int));
        lemma_pow10_vals();
        lemma_pow10_mono(d as nat, 7);
        assert(intpart * SCALE <= 9_999_999 * 10_000) by (nonlinear_arith)
            requires 0 <= (intpart as int) && intpart as int <= 9_999_999;
    }
    if d == n {
        proof {
            assert(t@.take(d as int) =~= t@);
            lemma_dec_value_bounds(t@);
        }
        return Some(intpart * SCALE);
    }
    if n - d - 1 < 1 || n - d - 1 > MAX_FRAC_DIGITS {
        return None;
    }
    let m = n - d - 1;
    let fracpart = match digits_value_range(t, d + 1, n) {
        Some(v) => v,
        None => {
            proof {
                assert(t@.subrange(d as int + 1, n as int) =~= t@.skip(d as int + 1));
            }
            return None;
        },
    };
    proof {
        assert(t@.subrange(d as int + 1, n as int) =~= t@.skip(d as int + 1));
        lemma_dec_value_bounds(t@);
    }
    let fs: u64 = if m == 1 {
        1000
    } else if m == 2 {
        100
    } else if m == 3 {
        10
    } else {
        1
    };
    Some(intpart * SCALE + fracpart * fs)
}

/// What parsing a label token returns: the class named by the digits.
pub open spec fn spec_parse_label(t: Seq<u8>) -> Option<ClassLabel> {
    if all_digits(t) && 1 <= t.len() <= 9 && 1 <= digits_val(t) <= 3 {
        Some(spec_label_of(digits_val(t)))
    } else {
        None
    }
}

/// Parses one label token to its class.
pub fn parse_label(t: &Vec<u8>) -> (r: Option<ClassLabel>)
    ensures
        r == spec_parse_label(t@),
{
    let n = t.len();
    if n < 1 || n > 9 {
        return None;
    }
    let v = match digits_value_range(t, 0, n) {
        Some(v) => v,
        None => {
            proof {
                assert(t@.subrange(0, n as int) =~= t@);
            }
            return None;
        },
    };
    proof {
        assert(t@.subrange(0, n as int) =~= t@);
    }
    if v < 1 || v > 3 {
        return None;
    }
    if v == 1 {
        Some(ClassLabel::Setosa)
    } else if v == 2 {
        Some(ClassLabel::Versicolor)
    } else {
        Some(ClassLabel::Virginica)
    }
}


/// A line parses when it splits into exactly `n + 1` tokens: `n`
/// well-formed feature tokens and one well-formed label token.
pub open spec fn record_line_ok(line: Seq<u8>, n: int) -> bool {
    let toks = spec_tokens(line);
    &&& toks.len() == n + 1
    &&& forall|i: int| 0 <= i < n ==> (spec_parse_decimal(#[trigger] toks[i]) is Some)
    &&& (spec_parse_label(toks[n]) is Some)
}

/// The record a well-formed line denotes: the parsed feature values in
/// token order, and the parsed label.
pub open spec fn record_matches_line(rec: Record, line: Seq<u8>, n: int) -> bool {
    let toks = spec_tokens(line);
    &&& rec.features@.len() == n
    &&& forall|i: int| 0 <= i < n ==> #[trigger] rec.features@[i] == spec_parse_decimal(toks[i])->0
    &&& Some(rec.label) == spec_parse_label(toks[n])
}

/// Parses one line into a record, or nothing where the line is not a
/// well-formed record of `n_features` features.
pub fn parse_record(line: &Vec<u8>, n_features: usize) -> (r: Option<Record>)
    requires
        1 <= n_features <= MAX_FEATURES,
    ensures
        (r is Some) <==> record_line_ok(line@, n_features as int),
        r is Some ==> record_matches_line(r->0, line@, n_features as int) && row_ok(r->0.features@),
{
    let toks = tokenize(line.as_slice());
    let ghost st = spec_tokens(line@);
    proof {
        assert(st.len() == toks@.len());
        assert(forall|k: int| 0 <= k < toks@.len() ==> st[k] == (#[trigger] toks@[k])@);
    }
    if toks.len() != n_features + 1 {
        return None;
    }
    let mut feats: Vec<u64> = Vec::new();
    let mut i: usize = 0;
    while i < n_features
        invariant
            0 <= i <= n_features,
            1 <= n_features <= MAX_FEATURES,
            st == spec_tokens(line@),
            toks@.len() == n_features + 1,
            st.len() == toks@.len(),
            forall|k: int| 0 <= k < toks@.len() ==> st[k] == (#[trigger] toks@[k])@,
            feats@.len() == i,
            forall|k: int|
                0 <= k < i ==> (spec_parse_decimal(#[trigger] st[k]) is Some) && feats@[k]
                    == spec_parse_decimal(st[k])->0,
            forall|k: int| 0 <= k < i ==> #[trigger] feats@[k] <= VAL_MAX,
        decreases n_features - i,
    {
        match parse_decimal(&toks[i]) {
            Some(v) => {
                feats.push(v);
            },
            None => {
                proof {
                    assert(spec_parse_decimal(st[i as int]) is None);
                }
                return None;
            },
        }
        i = i + 1;
    }
    match parse_label(&toks[n_features]) {
        Some(label) => {
            proof {
                assert(spec_parse_label(st[n_features as int]) is Some);
                assert(row_ok(feats@));
            }
            Some(Record { features: feats, label })
        },
        None => {
            proof {
                assert(spec_parse_label(st[n_features as int]) is None);
            }
            None
        },
    }
}

/// Index of the first line feed in `s`, or its length.
pub open spec fn nl_pos(s: Seq<u8>) -> int
    decreases s.len(),
{
    if s.len() == 0 {
        0
    } else if s[0] == 10 {
        0
    } else {
        1 + nl_pos(s.drop_first())
    }
}

proof fn lemma_nl_pos_le(s: Seq<u8>)
    ensures
        0 <= nl_pos(s) <= s.len(),
    decreases s.len(),
{
    if s.len() > 0 && s[0] != 10 {
        lemma_nl_pos_le(s.drop_first());
    }
}

/// The line-feed-separated segments of `s`, empties kept.
pub open spec fn split_nl(s: Seq<u8>) -> Seq<Seq<u8>>
    decreases s.len(),
    via split_nl_decreases
{
    let p = nl_pos(s);
    if p == s.len() {
        seq![s]
    } else {
        seq![s.take(p)] + split_nl(s.skip(p + 1))
    }
}

#[via_fn]
proof fn split_nl_decreases(s: Seq<u8>) {
    lemma_nl_pos_le(s);
}

/// The lines of `s`: line-feed-separated segments, one final line feed
/// ending the last line rather than opening an empty one.
pub open spec fn spec_lines(s: Seq<u8>) -> Seq<Seq<u8>> {
    if s.len() == 0 {
        Seq::empty()
    } else if s.last() == 10 {
        split_nl(s.drop_last())
    } else {
        split_nl(s)
    }
}

proof fn lemma_nl_pos_char(s: Seq<u8>, k: int)
    requires
        0 <= k <= s.len(),
        forall|j: int| 0 <= j < k ==> #[trigger] s[j] != 10,
        k == s.len() || s[k] == 10,
    ensures
        nl_pos(s) == k,
    decreases k,
{
    if k > 0 {
        let u = s.drop_first();
        assert(forall|j: int| 0 <= j < u.len() ==> #[trigger] u[j] == s[j + 1]);
        lemma_nl_pos_char(u, k - 1);
    }
}

proof fn lemma_split_nl_word(u: Seq<u8>, i: int, j: int)
    requires
        0 <= i <= j < u.len(),
        forall|k: int| i <= k < j ==> #[trigger] u[k] != 10,
        u[j] == 10,
    ensures
        split_nl(u.skip(i)) == seq![u.subrange(i, j)] + split_nl(u.skip(j + 1)),
{
    let v = u.skip(i);
    assert(forall|m: int| 0 <= m < v.len() ==> #[trigger] v[m] == u[i + m]);
    lemma_nl_pos_char(v, j - i);
    assert(v.take(j - i) =~= u.subrange(i, j));
    assert(v.skip(j - i + 1) =~= u.skip(j + 1));
}

proof fn lemma_split_nl_last(u: Seq<u8>, i: int)
    requires
        0 <= i <= u.len(),
        forall|k: int| i <= k < u.len() ==> #[trigger] u[k] != 10,
    ensures
        split_nl(u.skip(i)) == seq![u.subrange(i, u.len() as int)],
{
    let v = u.skip(i);
    assert(forall|m: int| 0 <= m < v.len() ==> #[trigger] v[m] == u[i + m]);
    lemma_nl_pos_char(v, v.len() as int);
    assert(v =~= u.subrange(i, u.len() as int));
}

/// Splits `s` into its lines, exact per `spec_lines`.
pub fn split_lines(s: &[u8]) -> (lines: Vec<Vec<u8>>)
    ensures
        views_of(lines@) == spec_lines(s@),
{
    let n = s.len();
    let mut lines: Vec<Vec<u8>> = Vec::new();
    if n == 0 {
        proof {
            assert(views_of(lines@) =~= Seq::<Seq<u8>>::empty());
        }
        return lines;
    }
    let m = if s[n - 1] == 10 {
        n - 1
    } else {
        n
    };
    let ghost t = s@.take(m as int);
    proof {
        if s@.last() == 10 {
            assert(s@.drop_last() =~= t);
        } else {
            assert(t =~= s@);
        }
        assert(spec_lines(s@) == split_nl(t));
        assert(t.skip(0) =~= t);
        assert(views_of(lines@) =~= Seq::<Seq<u8>>::empty());
    }
    let mut start: usize = 0;
    let mut done = false;
    while !done
        invariant
            0 <= start <= m <= n == s@.len(),
            t == s@.take(m as int),
            !done ==> split_nl(t) == views_of(lines@) + split_nl(t.skip(start as int)),
            done ==> split_nl(t) == views_of(lines@),
        decreases m - start + (if done { 0int } else { 1int }),
    {
        let mut j = start;
        while j < m && s[j] != 10
            invariant
                start <= j <= m <= s@.len(),
                forall|k: int| start <= k < j ==> #[trigger] s@[k] != 10,
            decreases m - j,
        {
            j = j + 1;
        }
        let mut seg: Vec<u8> = Vec::new();
        let mut k = start;
        proof {
            assert(seg@ =~= s@.subrange(start as int, start as int));
        }
        while k < j
            invariant
                start <= k <= j <= s@.len(),
                seg@ =~= s@.subrange(start as int, k as int),
            decreases j - k,
        {
            seg.push(s[k]);
            proof {
                assert(seg@ =~= s@.subrange(start as int, k as int + 1));
            }
            k = k + 1;
        }
        proof {
            assert(forall|q: int| 0 <= q < m ==> #[trigger] t[q] == s@[q]);
            assert(seg@ =~= t.subrange(start as int, j as int));
            if j < m {
                assert(t[j as int] == 10);
                assert(forall|q: int| start <= q < j ==> #[trigger] t[q] != 10);
                lemma_split_nl_word(t, start as int, j as int);
            } else {
                assert(forall|q: int| start <= q < t.len() ==> #[trigger] t[q] != 10);
                lemma_split_nl_last(t, start as int);
                assert(t.subrange(start as int, t.len() as int) == t.subrange(
                    start as int,
                    j as int,
                ));
            }
            assert(views_of(lines@.push(seg)) =~= views_of(lines@).push(seg@));
            assert(views_of(lines@).push(seg@) =~= views_of(lines@) + seq![seg@]);
        }
        lines.push(seg);
        if j < m {
            start = j + 1;
        } else {
            done = true;
        }
    }
    lines
}

/// Every line of `s` is a well-formed record line of `n` features.
pub open spec fn dataset_ok(s: Seq<u8>, n: int) -> bool {
    forall|i: int|
        0 <= i < spec_lines(s).len() ==> record_line_ok(#[trigger] spec_lines(s)[i], n)
}

/// Parses a whole dataset: one record per line, in file order. The first
/// line that is not a well-formed record stops the parse with its 0-based
/// index.
pub fn parse_dataset(s: &[u8], n_features: usize) -> (r: Result<Vec<Record>, Error>)
    requires
        1 <= n_features <= MAX_FEATURES,
    ensures
        (r is Ok) <==> dataset_ok(s@, n_features as int),
        r is Ok ==> r->Ok_0@.len() == spec_lines(s@).len() && valid_dataset(
            r->Ok_0@,
            n_features as int,
        ) && forall|i: int|
            0 <= i < spec_lines(s@).len() ==> record_matches_line(
                #[trigger] r->Ok_0@[i],
                spec_lines(s@)[i],
                n_features as int,
            ),
        r is Err ==> (r->Err_0 matches Error::Parse { line } && 0 <= line
            < spec_lines(s@).len() && !record_line_ok(spec_lines(s@)[line as int], n_features as int)
            && (forall|j: int|
            0 <= j < line ==> record_line_ok(#[trigger] spec_lines(s@)[j], n_features as int))),
{
    let lines = split_lines(s);
    let ghost sl = spec_lines(s@);
    proof {
        assert(sl.len() == lines@.len());
        assert(forall|k: int| 0 <= k < lines@.len() ==> sl[k] == (#[trigger] lines@[k])@);
    }
    let mut recs: Vec<Record> = Vec::new();
    let mut i: usize = 0;
    while i < lines.len()
        invariant
            0 <= i <= lines@.len(),
            1 <= n_features <= MAX_FEATURES,
            sl == spec_lines(s@),
            sl.len() == lines@.len(),
            forall|k: int| 0 <= k < lines@.len() ==> sl[k] == (#[trigger] lines@[k])@,
            recs@.len() == i,
            forall|k: int| 0 <= k < i ==> record_line_ok(#[trigger] sl[k], n_features as int),
            forall|k: int|
                0 <= k < i ==> record_matches_line(#[trigger] recs@[k], sl[k], n_features as int),
            forall|k: int| 0 <= k < i ==> row_ok((#[trigger] recs@[k]).features@),
        decreases lines@.len() - i,
    {
        match parse_record(&lines[i], n_features) {
            Some(rec) => {
                recs.push(rec);
            },
            None => {
                return Err(Error::Parse { line: i });
            },
        }
        i = i + 1;
    }
    proof {
        assert(rows_ok(recs@));
        assert(forall|k: int|
            0 <= k < recs@.len() ==> (#[trigger] recs@[k]).features@.len() == n_features);
    }
    Ok(recs)
}

} // verus!


