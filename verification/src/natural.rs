//! Number-aware string order: `TC-2` < `TC-10`. A string is cut into maximal
//! runs of ASCII digits and of other characters; digit runs compare by value,
//! other runs by characters, and a digit run sorts before a text run.
use vstd::prelude::*;
use std::cmp::Ordering;
use crate::text::{chars_of, is_ascii_digit, is_digit_char};

verus! {

/// A token of the number-aware order: a digit run by its value, or a run
/// of other characters.
pub enum NatTok {
    Num(nat),
    Str(Seq<char>),
}

/// A token as computed: the characters of the run.
pub enum NatToken {
    Num(Vec<char>),
    Str(Vec<char>),
}

pub open spec fn tok_view(t: NatToken) -> NatTok {
    match t {
        NatToken::Num(v) => NatTok::Num(digits_value(v@)),
        NatToken::Str(v) => NatTok::Str(v@),
    }
}

/// A computed digit token holds digits only.
pub open spec fn token_ok(t: NatToken) -> bool {
    match t {
        NatToken::Num(v) => all_digits(v@),
        NatToken::Str(_) => true,
    }
}

/// Every character is an ASCII digit.
pub open spec fn all_digits(s: Seq<char>) -> bool {
    forall|i: int| 0 <= i < s.len() ==> is_ascii_digit(#[trigger] s[i])
}

/// Ten to the power `n`.
pub open spec fn pow10(n: nat) -> nat
    decreases n,
{
    if n == 0 {
        1
    } else {
        10 * pow10((n - 1) as nat)
    }
}

/// Length of the leading run of characters whose digit-ness is `d`.
pub open spec fn run_len(s: Seq<char>, d: bool) -> nat
    decreases s.len(),
{
    if s.len() > 0 && is_ascii_digit(s[0]) == d {
        1 + run_len(s.drop_first(), d)
    } else {
        0
    }
}

pub proof fn lemma_run_len_bound(s: Seq<char>, d: bool)
    ensures
        run_len(s, d) <= s.len(),
        s.len() > 0 && is_ascii_digit(s[0]) == d ==> run_len(s, d) >= 1,
    decreases s.len(),
{
    if s.len() > 0 && is_ascii_digit(s[0]) == d {
        lemma_run_len_bound(s.drop_first(), d);
    }
}

pub open spec fn digit_val(c: char) -> nat {
    ((c as u32) - ('0' as u32)) as nat
}

/// The decimal value of a run of digits.
pub open spec fn digits_value(d: Seq<char>) -> nat
    decreases d.len(),
{
    if d.len() == 0 {
        0
    } else {
        digits_value(d.drop_last()) * 10 + digit_val(d.last())
    }
}

/// The tokens of a string.
pub open spec fn tokens(s: Seq<char>) -> Seq<NatTok>
    decreases s.len(),
{
    if s.len() == 0 {
        Seq::empty()
    } else {
        let d = is_ascii_digit(s[0]);
        let n = run_len(s, d);
        proof {
            lemma_run_len_bound(s, d);
        }
        let t = if d {
            NatTok::Num(digits_value(s.take(n as int)))
        } else {
            NatTok::Str(s.take(n as int))
        };
        seq![t] + tokens(s.skip(n as int))
    }
}

/// Lexicographic comparison by code point (the order of `String`): -1, 0 or 1.
pub open spec fn chars_order(x: Seq<char>, y: Seq<char>) -> int
    decreases x.len(),
{
    if x.len() == 0 && y.len() == 0 {
        0
    } else if x.len() == 0 {
        -1
    } else if y.len() == 0 {
        1
    } else if x[0] < y[0] {
        -1
    } else if x[0] > y[0] {
        1
    } else {
        chars_order(x.drop_first(), y.drop_first())
    }
}

pub open spec fn tok_order(a: NatTok, b: NatTok) -> int {
    match (a, b) {
        (NatTok::Num(x), NatTok::Num(y)) => if x < y {
            -1
        } else if x > y {
            1
        } else {
            0
        },
        (NatTok::Num(_), NatTok::Str(_)) => -1,
        (NatTok::Str(_), NatTok::Num(_)) => 1,
        (NatTok::Str(x), NatTok::Str(y)) => chars_order(x, y),
    }
}

/// Token sequences compare pairwise; when one runs out, the shorter is smaller.
pub open spec fn toks_order(ta: Seq<NatTok>, tb: Seq<NatTok>) -> int
    decreases ta.len(),
{
    if ta.len() == 0 || tb.len() == 0 {
        if ta.len() < tb.len() {
            -1
        } else if ta.len() > tb.len() {
            1
        } else {
            0
        }
    } else {
        let o = tok_order(ta[0], tb[0]);
        if o != 0 {
            o
        } else {
            toks_order(ta.drop_first(), tb.drop_first())
        }
    }
}

/// The number-aware order of two strings: -1, 0 or 1.
pub open spec fn natural_order(a: Seq<char>, b: Seq<char>) -> int {
    toks_order(tokens(a), tokens(b))
}

pub open spec fn ordering_from_sign(x: int) -> Ordering {
    if x < 0 {
        Ordering::Less
    } else if x > 0 {
        Ordering::Greater
    } else {
        Ordering::Equal
    }
}

proof fn lemma_pow10_pos(n: nat)
    ensures
        pow10(n) >= 1,
    decreases n,
{
    if n > 0 {
        lemma_pow10_pos((n - 1) as nat);
    }
}

proof fn lemma_pow10_mono(a: nat, b: nat)
    requires
        a <= b,
    ensures
        pow10(a) <= pow10(b),
    decreases b,
{
    if a < b {
        lemma_pow10_mono(a, (b - 1) as nat);
        lemma_pow10_pos((b - 1) as nat);
    }
}

proof fn lemma_all_digits_sub(s: Seq<char>, i: int, j: int)
    requires
        all_digits(s),
        0 <= i <= j <= s.len(),
    ensures
        all_digits(s.subrange(i, j)),
{
    assert forall|k: int| 0 <= k < s.subrange(i, j).len() implies is_ascii_digit(#[trigger] s.subrange(i, j)[k]) by {
        assert(s.subrange(i, j)[k] == s[i + k]);
    }
}

/// A run of `n` digits is worth less than `10^n`.
proof fn lemma_digits_bound(s: Seq<char>)
    requires
        all_digits(s),
    ensures
        digits_value(s) < pow10(s.len()),
    decreases s.len(),
{
    if s.len() > 0 {
        assert(s.drop_last() =~= s.subrange(0, s.len() - 1));
        lemma_all_digits_sub(s, 0, s.len() - 1);
        lemma_digits_bound(s.drop_last());
        assert(is_ascii_digit(s[s.len() - 1]));
        assert(digit_val(s.last()) <= 9);
    }
}

/// The value of `a` followed by `b`.
proof fn lemma_digits_concat(a: Seq<char>, b: Seq<char>)
    ensures
        digits_value(a + b) == digits_value(a) * pow10(b.len()) + digits_value(b),
    decreases b.len(),
{
    let va = digits_value(a);
    if b.len() == 0 {
        assert(a + b =~= a);
        assert(pow10(0) == 1);
        assert(va * 1 == va) by (nonlinear_arith);
    } else {
        let bd = b.drop_last();
        assert((a + b).drop_last() =~= a + bd);
        assert((a + b).last() == b.last());
        lemma_digits_concat(a, bd);
        let p = pow10(bd.len());
        let vb = digits_value(bd);
        let d = digit_val(b.last());
        let whole = digits_value(a + bd);
        assert(whole == va * p + vb);
        assert(digits_value(a + b) == whole * 10 + d);
        assert(digits_value(b) == vb * 10 + d);
        assert(pow10(b.len()) == 10 * p);
        let q = pow10(b.len());
        assert(whole * 10 + d == va * q + (vb * 10 + d)) by (nonlinear_arith)
            requires
                whole == va * p + vb,
                q == 10 * p,
        ;
    }
}

proof fn lemma_zeros_value(z: Seq<char>)
    requires
        forall|i: int| 0 <= i < z.len() ==> #[trigger] z[i] == '0',
    ensures
        digits_value(z) == 0,
    decreases z.len(),
{
    if z.len() > 0 {
        assert(z.last() == z[z.len() - 1]);
        assert forall|i: int| 0 <= i < z.drop_last().len() implies #[trigger] z.drop_last()[i] == '0' by {
            assert(z.drop_last()[i] == z[i]);
        }
        lemma_zeros_value(z.drop_last());
    }
}

/// Leading zeros do not change the value.
proof fn lemma_strip_zeros(s: Seq<char>, k: int)
    requires
        0 <= k <= s.len(),
        forall|i: int| 0 <= i < k ==> #[trigger] s[i] == '0',
    ensures
        digits_value(s) == digits_value(s.skip(k)),
{
    assert(s =~= s.take(k) + s.skip(k));
    assert forall|i: int| 0 <= i < s.take(k).len() implies #[trigger] s.take(k)[i] == '0' by {
        assert(s.take(k)[i] == s[i]);
    }
    lemma_zeros_value(s.take(k));
    lemma_digits_concat(s.take(k), s.skip(k));
    let p = pow10(s.skip(k).len());
    assert(0 * p == 0) by (nonlinear_arith);
}

/// A run that starts with a non-zero digit is worth at least `10^(n-1)`.
proof fn lemma_lead_digit(s: Seq<char>)
    requires
        s.len() > 0,
        all_digits(s),
        s[0] != '0',
    ensures
        digits_value(s) >= pow10((s.len() - 1) as nat),
{
    assert(s =~= seq![s[0]] + s.drop_first());
    lemma_digits_concat(seq![s[0]], s.drop_first());
    assert(seq![s[0]].drop_last() =~= Seq::<char>::empty());
    assert(seq![s[0]].last() == s[0]);
    assert(digits_value(Seq::<char>::empty()) == 0);
    assert(is_ascii_digit(s[0]));
    let d = digits_value(seq![s[0]]);
    assert(d == digit_val(s[0]));
    assert(d >= 1);
    let p = pow10(s.drop_first().len());
    assert(d * p >= p) by (nonlinear_arith)
        requires
            d >= 1,
    ;
}

/// Two runs of the same length that agree before `k` and differ at `k`
/// compare as their digits at `k`.
proof fn lemma_lex_less(x: Seq<char>, y: Seq<char>, k: int)
    requires
        all_digits(x),
        all_digits(y),
        x.len() == y.len(),
        0 <= k < x.len(),
        forall|m: int| 0 <= m < k ==> #[trigger] x[m] == y[m],
        x[k] < y[k],
    ensures
        digits_value(x) < digits_value(y),
{
    let hx = x.take(k + 1);
    let hy = y.take(k + 1);
    let rx = x.skip(k + 1);
    let ry = y.skip(k + 1);
    assert(x =~= hx + rx);
    assert(y =~= hy + ry);
    lemma_digits_concat(hx, rx);
    lemma_digits_concat(hy, ry);
    assert(hx.drop_last() =~= x.take(k));
    assert(hy.drop_last() =~= y.take(k));
    assert(x.take(k) =~= y.take(k));
    assert(hx.last() == x[k] && hy.last() == y[k]);
    assert(is_ascii_digit(x[k]) && is_ascii_digit(y[k]));
    let a = digits_value(hx);
    let b = digits_value(hy);
    assert(a + 1 <= b);
    assert(rx =~= x.subrange(k + 1, x.len() as int));
    lemma_all_digits_sub(x, k + 1, x.len() as int);
    lemma_digits_bound(rx);
    let p = pow10(rx.len());
    let vr = digits_value(rx);
    let wr = digits_value(ry);
    assert(ry.len() == rx.len());
    assert(a * p + vr < b * p + wr) by (nonlinear_arith)
        requires
            a + 1 <= b,
            vr < p,
    ;
}

/// The sign of the difference of the values of two digit runs.
pub open spec fn value_order(x: Seq<char>, y: Seq<char>) -> int {
    if digits_value(x) < digits_value(y) {
        -1
    } else if digits_value(x) > digits_value(y) {
        1
    } else {
        0
    }
}

fn leading_zeros(v: &Vec<char>) -> (z: usize)
    ensures
        z <= v@.len(),
        forall|i: int| 0 <= i < z ==> #[trigger] v@[i] == '0',
        z < v@.len() ==> v@[z as int] != '0',
{
    let mut z: usize = 0;
    while z < v.len() && v[z] == '0'
        invariant
            z <= v@.len(),
            forall|i: int| 0 <= i < z ==> #[trigger] v@[i] == '0',
        decreases v.len() - z,
    {
        z = z + 1;
    }
    z
}

/// Compares two digit runs by value, however long: leading zeros aside, the
/// longer run is larger, and runs of one length compare digit by digit.
fn digits_compare(x: &Vec<char>, y: &Vec<char>) -> (r: i8)
    requires
        all_digits(x@),
        all_digits(y@),
    ensures
        r == value_order(x@, y@),
{
    let zx = leading_zeros(x);
    let zy = leading_zeros(y);
    let ghost sx = x@.skip(zx as int);
    let ghost sy = y@.skip(zy as int);
    proof {
        lemma_strip_zeros(x@, zx as int);
        lemma_strip_zeros(y@, zy as int);
        assert(sx =~= x@.subrange(zx as int, x@.len() as int));
        assert(sy =~= y@.subrange(zy as int, y@.len() as int));
        lemma_all_digits_sub(x@, zx as int, x@.len() as int);
        lemma_all_digits_sub(y@, zy as int, y@.len() as int);
    }
    let lx = x.len() - zx;
    let ly = y.len() - zy;
    if lx < ly {
        proof {
            lemma_digits_bound(sx);
            lemma_lead_digit(sy);
            lemma_pow10_mono(lx as nat, (ly - 1) as nat);
        }
        return -1;
    }
    if lx > ly {
        proof {
            lemma_digits_bound(sy);
            lemma_lead_digit(sx);
            lemma_pow10_mono(ly as nat, (lx - 1) as nat);
        }
        return 1;
    }
    let mut k: usize = 0;
    while k < lx
        invariant
            k <= lx,
            lx == ly,
            lx == x@.len() - zx,
            ly == y@.len() - zy,
            zx <= x@.len(),
            zy <= y@.len(),
            zx + lx == x.len(),
            zy + ly == y.len(),
            digits_value(x@) == digits_value(sx),
            digits_value(y@) == digits_value(sy),
            all_digits(sx),
            all_digits(sy),
            sx == x@.skip(zx as int),
            sy == y@.skip(zy as int),
            forall|m: int| 0 <= m < k ==> #[trigger] sx[m] == sy[m],
        decreases lx - k,
    {
        let cx = x[zx + k];
        let cy = y[zy + k];
        assert(sx[k as int] == cx && sy[k as int] == cy);
        if cx < cy {
            proof {
                lemma_lex_less(sx, sy, k as int);
            }
            return -1;
        }
        if cx > cy {
            proof {
                lemma_lex_less(sy, sx, k as int);
            }
            return 1;
        }
        k = k + 1;
    }
    assert(sx =~= sy);
    0
}

/// The tokens of `s`.
pub fn tokens_of(s: &str) -> (r: Vec<NatToken>)
    ensures
        r@.map_values(|t: NatToken| tok_view(t)) == tokens(s@),
        forall|i: int| 0 <= i < r@.len() ==> token_ok(#[trigger] r@[i]),
{
    let v = chars_of(s);
    let n = v.len();
    let mut out: Vec<NatToken> = Vec::new();
    let mut i: usize = 0;
    assert(v@.skip(0) =~= v@);
    while i < n
        invariant
            n == v@.len(),
            v@ == s@,
            i <= n,
            tokens(v@) == out@.map_values(|t: NatToken| tok_view(t)) + tokens(v@.skip(i as int)),
            forall|x: int| 0 <= x < out@.len() ==> token_ok(#[trigger] out@[x]),
        decreases n - i,
    {
        let d = is_digit_char(v[i]);
        let ghost rest = v@.skip(i as int);
        let mut j = i + 1;
        assert(rest.drop_first() =~= v@.skip(j as int));
        while j < n && is_digit_char(v[j]) == d
            invariant
                n == v@.len(),
                i < j <= n,
                d == is_ascii_digit(v@[i as int]),
                rest == v@.skip(i as int),
                forall|k: int| i <= k < j ==> is_ascii_digit(#[trigger] v@[k]) == d,
                run_len(rest, d) == (j - i) + run_len(v@.skip(j as int), d),
            decreases n - j,
        {
            assert(v@.skip(j as int).drop_first() =~= v@.skip(j + 1));
            j = j + 1;
        }
        assert(run_len(v@.skip(j as int), d) == 0);
        assert(run_len(rest, d) == j - i);
        assert(rest.take((j - i) as int) =~= v@.subrange(i as int, j as int));
        assert(rest.skip((j - i) as int) =~= v@.skip(j as int));
        let mut w: Vec<char> = Vec::new();
        let mut k = i;
        while k < j
            invariant
                i <= k <= j <= n,
                n == v@.len(),
                w@ == v@.subrange(i as int, k as int),
            decreases j - k,
        {
            w.push(v[k]);
            k = k + 1;
            assert(w@ =~= v@.subrange(i as int, k as int));
        }
        let tok = if d {
            assert forall|x: int| 0 <= x < w@.len() implies is_ascii_digit(#[trigger] w@[x]) by {
                assert(w@[x] == v@[i + x]);
            }
            NatToken::Num(w)
        } else {
            NatToken::Str(w)
        };
        let ghost old_out = out@;
        out.push(tok);
        assert(out@.map_values(|t: NatToken| tok_view(t)) =~= old_out.map_values(
            |t: NatToken| tok_view(t),
        ) + seq![tok_view(tok)]);
        assert(tokens(rest) == seq![tok_view(tok)] + tokens(rest.skip((j - i) as int)));
        i = j;
    }
    assert(v@.skip(n as int) =~= Seq::<char>::empty());
    assert(out@.map_values(|t: NatToken| tok_view(t)) + Seq::<NatTok>::empty() =~= out@.map_values(
        |t: NatToken| tok_view(t),
    ));
    out
}

/// Code point order of two character vectors.
pub fn chars_compare(x: &Vec<char>, y: &Vec<char>) -> (r: i8)
    ensures
        r == chars_order(x@, y@),
{
    let mut k: usize = 0;
    assert(x@.skip(0) =~= x@);
    assert(y@.skip(0) =~= y@);
    while k < x.len() && k < y.len()
        invariant
            k <= x@.len(),
            k <= y@.len(),
            chars_order(x@, y@) == chars_order(x@.skip(k as int), y@.skip(k as int)),
            forall|m: int| 0 <= m < k ==> x@[m] == y@[m],
        decreases x.len() - k,
    {
        if x[k] < y[k] {
            return -1;
        }
        if x[k] > y[k] {
            return 1;
        }
        assert(x@.skip(k as int).drop_first() =~= x@.skip(k + 1));
        assert(y@.skip(k as int).drop_first() =~= y@.skip(k + 1));
        k = k + 1;
    }
    if x.len() == y.len() {
        0
    } else if k == x.len() {
        -1
    } else {
        1
    }
}

fn token_compare(a: &NatToken, b: &NatToken) -> (r: i8)
    requires
        token_ok(*a),
        token_ok(*b),
    ensures
        r == tok_order(tok_view(*a), tok_view(*b)),
{
    match (a, b) {
        (NatToken::Num(x), NatToken::Num(y)) => digits_compare(x, y),
        (NatToken::Num(_), NatToken::Str(_)) => -1,
        (NatToken::Str(_), NatToken::Num(_)) => 1,
        (NatToken::Str(x), NatToken::Str(y)) => chars_compare(x, y),
    }
}

/// The sign (-1, 0, 1) of the number-aware comparison of `a` and `b`.
pub fn natural_sign(a: &str, b: &str) -> (r: i8)
    ensures
        r == natural_order(a@, b@),
{
    let ta = tokens_of(a);
    let tb = tokens_of(b);
    let ghost sa = ta@.map_values(|t: NatToken| tok_view(t));
    let ghost sb = tb@.map_values(|t: NatToken| tok_view(t));
    let mut k: usize = 0;
    assert(sa.skip(0) =~= sa);
    assert(sb.skip(0) =~= sb);
    while k < ta.len() && k < tb.len()
        invariant
            k <= ta@.len(),
            k <= tb@.len(),
            sa == ta@.map_values(|t: NatToken| tok_view(t)),
            sb == tb@.map_values(|t: NatToken| tok_view(t)),
            sa == tokens(a@),
            sb == tokens(b@),
            toks_order(sa, sb) == toks_order(sa.skip(k as int), sb.skip(k as int)),
            forall|x: int| 0 <= x < ta@.len() ==> token_ok(#[trigger] ta@[x]),
            forall|x: int| 0 <= x < tb@.len() ==> token_ok(#[trigger] tb@[x]),
        decreases ta.len() - k,
    {
        let o = token_compare(&ta[k], &tb[k]);
        assert(sa.skip(k as int)[0] == tok_view(ta@[k as int]));
        assert(sb.skip(k as int)[0] == tok_view(tb@[k as int]));
        assert(sa.skip(k as int).len() > 0 && sb.skip(k as int).len() > 0);
        assert(o != 0 ==> toks_order(sa.skip(k as int), sb.skip(k as int)) == o);
        if o != 0 {
            return o;
        }
        assert(sa.skip(k as int).drop_first() =~= sa.skip(k + 1));
        assert(sb.skip(k as int).drop_first() =~= sb.skip(k + 1));
        k = k + 1;
    }
    if ta.len() < tb.len() {
        -1
    } else if ta.len() > tb.len() {
        1
    } else {
        0
    }
}

/// Number-aware comparison: digit runs by value, other runs by characters,
/// digits before text; a string that runs out of tokens first is smaller.
pub fn natural_cmp(a: &str, b: &str) -> (r: Ordering)
    ensures
        r == ordering_from_sign(natural_order(a@, b@)),
{
    let o = natural_sign(a, b);
    if o < 0 {
        Ordering::Less
    } else if o > 0 {
        Ordering::Greater
    } else {
        Ordering::Equal
    }
}

pub proof fn lemma_chars_order_antisym(x: Seq<char>, y: Seq<char>)
    ensures
        chars_order(y, x) == -chars_order(x, y),
        -1 <= chars_order(x, y) <= 1,
    decreases x.len(),
{
    if x.len() > 0 && y.len() > 0 && x[0] == y[0] {
        lemma_chars_order_antisym(x.drop_first(), y.drop_first());
    }
}

pub proof fn lemma_toks_order_antisym(ta: Seq<NatTok>, tb: Seq<NatTok>)
    ensures
        toks_order(tb, ta) == -toks_order(ta, tb),
        -1 <= toks_order(ta, tb) <= 1,
    decreases ta.len(),
{
    if ta.len() > 0 && tb.len() > 0 {
        match (ta[0], tb[0]) {
            (NatTok::Str(x), NatTok::Str(y)) => {
                lemma_chars_order_antisym(x, y);
            },
            _ => {},
        }
        lemma_toks_order_antisym(ta.drop_first(), tb.drop_first());
    }
}

/// Swapping the arguments of the number-aware order negates it.
pub proof fn lemma_natural_order_antisym(a: Seq<char>, b: Seq<char>)
    ensures
        natural_order(b, a) == -natural_order(a, b),
        -1 <= natural_order(a, b) <= 1,
{
    lemma_toks_order_antisym(tokens(a), tokens(b));
}


pub proof fn lemma_chars_order_eq(x: Seq<char>, y: Seq<char>)
    ensures
        chars_order(x, y) == 0 ==> x == y,
    decreases x.len(),
{
    if x.len() > 0 && y.len() > 0 && x[0] == y[0] {
        lemma_chars_order_eq(x.drop_first(), y.drop_first());
        if chars_order(x, y) == 0 {
            assert(x =~= seq![x[0]] + x.drop_first());
            assert(y =~= seq![y[0]] + y.drop_first());
        }
    } else if x.len() == 0 && y.len() == 0 {
        assert(x =~= y);
    }
}

pub proof fn lemma_chars_order_trans(x: Seq<char>, y: Seq<char>, z: Seq<char>)
    requires
        chars_order(x, y) <= 0,
        chars_order(y, z) <= 0,
    ensures
        chars_order(x, z) <= 0,
    decreases x.len(),
{
    if x.len() > 0 && y.len() > 0 && z.len() > 0 && x[0] == y[0] && y[0] == z[0] {
        lemma_chars_order_trans(x.drop_first(), y.drop_first(), z.drop_first());
    }
}

proof fn lemma_tok_order_facts(a: NatTok, b: NatTok, c: NatTok)
    ensures
        tok_order(a, a) == 0,
        tok_order(a, b) == 0 ==> a == b,
        tok_order(a, b) <= 0 && tok_order(b, c) <= 0 ==> tok_order(a, c) <= 0,
{
    match (a, b, c) {
        (NatTok::Str(x), NatTok::Str(y), NatTok::Str(z)) => {
            lemma_chars_order_eq(x, y);
            lemma_chars_order_eq(x, x);
            lemma_chars_order_antisym(x, x);
            if tok_order(a, b) <= 0 && tok_order(b, c) <= 0 {
                lemma_chars_order_trans(x, y, z);
            }
        },
        (NatTok::Str(x), NatTok::Str(y), _) => {
            lemma_chars_order_eq(x, y);
            lemma_chars_order_antisym(x, x);
        },
        (NatTok::Str(x), _, _) => {
            lemma_chars_order_antisym(x, x);
        },
        _ => {},
    }
}

proof fn lemma_toks_order_refl(ta: Seq<NatTok>)
    ensures
        toks_order(ta, ta) == 0,
    decreases ta.len(),
{
    if ta.len() > 0 {
        lemma_tok_order_facts(ta[0], ta[0], ta[0]);
        lemma_toks_order_refl(ta.drop_first());
    }
}

proof fn lemma_toks_order_trans(ta: Seq<NatTok>, tb: Seq<NatTok>, tc: Seq<NatTok>)
    requires
        toks_order(ta, tb) <= 0,
        toks_order(tb, tc) <= 0,
    ensures
        toks_order(ta, tc) <= 0,
    decreases ta.len(),
{
    if ta.len() > 0 && tb.len() > 0 && tc.len() > 0 {
        lemma_tok_order_facts(ta[0], tb[0], tc[0]);
        lemma_tok_order_facts(tb[0], tc[0], ta[0]);
        lemma_tok_order_facts(ta[0], tc[0], tb[0]);
        lemma_tok_order_facts(tc[0], ta[0], tb[0]);
        lemma_tok_order_facts(tb[0], ta[0], tc[0]);
        match (ta[0], tb[0]) {
            (NatTok::Str(x), NatTok::Str(y)) => {
                lemma_chars_order_antisym(x, y);
            },
            _ => {},
        }
        match (tb[0], tc[0]) {
            (NatTok::Str(x), NatTok::Str(y)) => {
                lemma_chars_order_antisym(x, y);
            },
            _ => {},
        }
        match (ta[0], tc[0]) {
            (NatTok::Str(x), NatTok::Str(y)) => {
                lemma_chars_order_antisym(x, y);
            },
            _ => {},
        }
        if tok_order(ta[0], tb[0]) == 0 && tok_order(tb[0], tc[0]) == 0 {
            lemma_toks_order_trans(ta.drop_first(), tb.drop_first(), tc.drop_first());
        }
    }
}

/// The number-aware order is a total preorder, as the sorts that use it need:
/// every string is equal to itself, and `a <= b`, `b <= c` give `a <= c`
/// (with `lemma_natural_order_antisym`, any two strings compare one way).
pub proof fn law_natural_order_preorder(a: Seq<char>, b: Seq<char>, c: Seq<char>)
    ensures
        natural_order(a, a) == 0,
        natural_order(a, b) <= 0 && natural_order(b, c) <= 0 ==> natural_order(a, c) <= 0,
{
    lemma_toks_order_refl(tokens(a));
    if natural_order(a, b) <= 0 && natural_order(b, c) <= 0 {
        lemma_toks_order_trans(tokens(a), tokens(b), tokens(c));
    }
}


proof fn lemma_run_len_concat(p: Seq<char>, q: Seq<char>, b: bool)
    ensures
        run_len(p + q, b) == if run_len(p, b) < p.len() {
            run_len(p, b)
        } else {
            p.len() + run_len(q, b)
        },
    decreases p.len(),
{
    lemma_run_len_bound(p, b);
    if p.len() == 0 {
        assert(p + q =~= q);
    } else {
        assert((p + q)[0] == p[0]);
        assert((p + q).drop_first() =~= p.drop_first() + q);
        lemma_run_len_concat(p.drop_first(), q, b);
    }
}

proof fn lemma_run_len_all(d: Seq<char>)
    requires
        all_digits(d),
    ensures
        run_len(d, true) == d.len(),
    decreases d.len(),
{
    if d.len() > 0 {
        assert forall|i: int| 0 <= i < d.drop_first().len() implies is_ascii_digit(#[trigger] d.drop_first()[i]) by {
            assert(d.drop_first()[i] == d[i + 1]);
        }
        lemma_run_len_all(d.drop_first());
    }
}

proof fn lemma_tokens_digits(d: Seq<char>)
    requires
        d.len() > 0,
        all_digits(d),
    ensures
        tokens(d) == seq![NatTok::Num(digits_value(d))],
{
    lemma_run_len_all(d);
    assert(is_ascii_digit(d[0]));
    assert(d.take(d.len() as int) =~= d);
    assert(d.skip(d.len() as int) =~= Seq::<char>::empty());
    assert(tokens(Seq::<char>::empty()) =~= Seq::<NatTok>::empty());
    assert(tokens(d) == seq![NatTok::Num(digits_value(d.take(d.len() as int)))] + tokens(d.skip(d.len() as int)));
    assert(seq![NatTok::Num(digits_value(d))] + Seq::<NatTok>::empty() =~= seq![NatTok::Num(digits_value(d))]);
}

/// Where the last character of `p` and the first of `d` differ in digit-ness,
/// no run crosses the seam: the tokens of `p + d` are those of `p`, then those of `d`.
proof fn lemma_tokens_concat(p: Seq<char>, d: Seq<char>)
    requires
        d.len() > 0,
        p.len() == 0 || is_ascii_digit(p.last()) != is_ascii_digit(d[0]),
    ensures
        tokens(p + d) == tokens(p) + tokens(d),
    decreases p.len(),
{
    if p.len() == 0 {
        assert(p + d =~= d);
        assert(tokens(p) =~= Seq::<NatTok>::empty());
        assert(Seq::<NatTok>::empty() + tokens(d) =~= tokens(d));
    } else {
        let x = p + d;
        let b = is_ascii_digit(p[0]);
        assert(x[0] == p[0]);
        lemma_run_len_bound(p, b);
        lemma_run_len_concat(p, d, b);
        let n = run_len(p, b);
        if n < p.len() {
            assert(x.take(n as int) =~= p.take(n as int));
            assert(x.skip(n as int) =~= p.skip(n as int) + d);
            let ps = p.skip(n as int);
            assert(ps.last() == p.last());
            lemma_tokens_concat(ps, d);
            let tk = if b {
                NatTok::Num(digits_value(p.take(n as int)))
            } else {
                NatTok::Str(p.take(n as int))
            };
            assert(tokens(x) == seq![tk] + tokens(ps + d));
            assert(tokens(p) == seq![tk] + tokens(ps));
            assert(seq![tk] + (tokens(ps) + tokens(d)) =~= (seq![tk] + tokens(ps)) + tokens(d));
        } else {
            lemma_run_len_all_same(p, b);
            assert(is_ascii_digit(p[p.len() - 1]) == b);
            assert(run_len(d, b) == 0);
            assert(run_len(x, b) == p.len());
            assert(x.take(p.len() as int) =~= p);
            assert(x.skip(p.len() as int) =~= d);
            assert(p.take(p.len() as int) =~= p);
            assert(p.skip(p.len() as int) =~= Seq::<char>::empty());
            assert(tokens(Seq::<char>::empty()) =~= Seq::<NatTok>::empty());
            let tk = if b {
                NatTok::Num(digits_value(p))
            } else {
                NatTok::Str(p)
            };
            assert(tokens(p) == seq![tk] + tokens(p.skip(p.len() as int)));
            assert(tokens(p) =~= seq![tk] + Seq::<NatTok>::empty());
            assert(tokens(x) == seq![tk] + tokens(d));
            assert(tokens(p) + tokens(d) =~= seq![tk] + tokens(d));
        }
    }
}

/// A whole sequence that is one run has the run's digit-ness throughout.
proof fn lemma_run_len_all_same(s: Seq<char>, b: bool)
    requires
        run_len(s, b) == s.len(),
    ensures
        forall|i: int| 0 <= i < s.len() ==> is_ascii_digit(#[trigger] s[i]) == b,
    decreases s.len(),
{
    if s.len() > 0 {
        lemma_run_len_all_same(s.drop_first(), b);
        assert forall|i: int| 0 <= i < s.len() implies is_ascii_digit(#[trigger] s[i]) == b by {
            if i > 0 {
                assert(s[i] == s.drop_first()[i - 1]);
            }
        }
    }
}

proof fn lemma_toks_common_prefix(ts: Seq<NatTok>, x: NatTok, y: NatTok)
    requires
        tok_order(x, y) != 0,
    ensures
        toks_order(ts + seq![x], ts + seq![y]) == tok_order(x, y),
    decreases ts.len(),
{
    if ts.len() == 0 {
        assert(ts + seq![x] =~= seq![x]);
        assert(ts + seq![y] =~= seq![y]);
    } else {
        lemma_tok_order_facts(ts[0], ts[0], ts[0]);
        assert((ts + seq![x]).drop_first() =~= ts.drop_first() + seq![x]);
        assert((ts + seq![y]).drop_first() =~= ts.drop_first() + seq![y]);
        assert((ts + seq![x])[0] == ts[0] && (ts + seq![y])[0] == ts[0]);
        lemma_toks_common_prefix(ts.drop_first(), x, y);
    }
}

/// Digit runs compare by value, however long: after a common prefix that is
/// empty or ends in a non-digit, the string whose digit run is worth less
/// comes first (`A-2` before `A-10`, and likewise for runs past any integer
/// width).
pub proof fn law_natural_order_digit_runs(p: Seq<char>, dm: Seq<char>, dn: Seq<char>)
    requires
        p.len() == 0 || !is_ascii_digit(p.last()),
        dm.len() > 0,
        dn.len() > 0,
        all_digits(dm),
        all_digits(dn),
        digits_value(dm) < digits_value(dn),
    ensures
        natural_order(p + dm, p + dn) == -1,
{
    assert(is_ascii_digit(dm[0]) && is_ascii_digit(dn[0]));
    lemma_tokens_concat(p, dm);
    lemma_tokens_concat(p, dn);
    lemma_tokens_digits(dm);
    lemma_tokens_digits(dn);
    lemma_toks_common_prefix(tokens(p), NatTok::Num(digits_value(dm)), NatTok::Num(digits_value(dn)));
}

/// A token sequence compares below any longer sequence that it begins.
proof fn lemma_toks_proper_prefix(ta: Seq<NatTok>, tu: Seq<NatTok>)
    requires
        tu.len() > 0,
    ensures
        toks_order(ta, ta + tu) == -1,
        toks_order(ta + tu, ta) == 1,
    decreases ta.len(),
{
    if ta.len() > 0 {
        lemma_tok_order_facts(ta[0], ta[0], ta[0]);
        assert((ta + tu)[0] == ta[0]);
        assert((ta + tu).drop_first() =~= ta.drop_first() + tu);
        lemma_toks_proper_prefix(ta.drop_first(), tu);
    }
}

/// A string that another one extends by further tokens comes first: when the
/// added text `q` is not empty and does not continue the last run of `p`
/// (one is a digit and the other not, as in `SR-1` and `SR-1.1`), `p` sorts
/// strictly before `p + q` (and `p + q` strictly after `p`).
pub proof fn law_natural_order_prefix_smaller(p: Seq<char>, q: Seq<char>)
    requires
        q.len() > 0,
        p.len() == 0 || is_ascii_digit(p.last()) != is_ascii_digit(q[0]),
    ensures
        natural_order(p, p + q) == -1,
        natural_order(p + q, p) == 1,
{
    lemma_tokens_concat(p, q);
    assert(tokens(q).len() > 0);
    lemma_toks_proper_prefix(tokens(p), tokens(q));
}

/// A digit run sorts before a text run: a string that starts with a digit
/// comes before one that starts with any other character (`1A` before `A1`).
pub proof fn law_natural_order_digit_first(a: Seq<char>, b: Seq<char>)
    requires
        a.len() > 0,
        b.len() > 0,
        is_ascii_digit(a[0]),
        !is_ascii_digit(b[0]),
    ensures
        natural_order(a, b) == -1,
        natural_order(b, a) == 1,
{
    let ta = tokens(a);
    let tb = tokens(b);
    assert(ta[0] is Num);
    assert(tb[0] is Str);
}

} // verus!
