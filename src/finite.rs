use vstd::prelude::*;

use crate::text::{all_digits, chars_of, digit_value, digits_value, is_digit, is_exp_mark, is_exponent, is_mantissa, is_number, unsigned};

verus! {

pub open spec fn pow10(n: nat) -> nat
    decreases n,
{
    if n == 0 {
        1
    } else {
        10 * pow10((n - 1) as nat)
    }
}

/// Decimal digits of 2^1024 - 2^970, the least magnitude that rounds to an
/// infinite double.
pub open spec fn limit_digits() -> Seq<char> {
    "179769313486231580793728971405303415079934132710037826936173778980444968292764750946649017977587207096330286416692887910946555547851940402630657488671505820681908902000708383676273854845817711531764475730270069855571366959622842914819860834936475292719074168444365510704342711559699508093042880177904174497792"@
}

pub open spec fn limit() -> nat {
    digits_value(limit_digits())
}

/// Whether `d * 10^t` lies below `limit()`, that is rounds to a finite double.
pub open spec fn below_limit(d: nat, t: int) -> bool {
    if t >= 0 {
        d * pow10(t as nat) < limit()
    } else {
        d < limit() * pow10((-t) as nat)
    }
}

/// Position of the first `a` or `b` in `s`; `s.len()` where there is none.
pub open spec fn first_index(s: Seq<char>, a: char, b: char) -> int
    decreases s.len(),
{
    if s.len() == 0 {
        0
    } else if s[0] == a || s[0] == b {
        0
    } else {
        1 + first_index(s.drop_first(), a, b)
    }
}

/// The mantissa of a number's text: after the sign, before the exponent.
pub open spec fn mantissa_of(s: Seq<char>) -> Seq<char> {
    unsigned(s).take(first_index(unsigned(s), 'e', 'E'))
}

/// The exponent of a number's text, after `e` or `E`; empty where there is none.
pub open spec fn exponent_text(s: Seq<char>) -> Seq<char> {
    let b = unsigned(s);
    let k = first_index(b, 'e', 'E');
    if k < b.len() {
        b.skip(k + 1)
    } else {
        seq![]
    }
}

/// The digits of a mantissa, its decimal point left out.
pub open spec fn digits_of(m: Seq<char>) -> Seq<char> {
    let p = first_index(m, '.', '.');
    if p < m.len() {
        m.take(p) + m.skip(p + 1)
    } else {
        m
    }
}

/// Number of digits after a mantissa's decimal point.
pub open spec fn fraction_len(m: Seq<char>) -> int {
    let p = first_index(m, '.', '.');
    if p < m.len() {
        m.len() - p - 1
    } else {
        0
    }
}

pub open spec fn exponent_value(x: Seq<char>) -> int {
    if x.len() > 0 && x[0] == '-' {
        -digits_value(unsigned(x))
    } else {
        digits_value(unsigned(x)) as int
    }
}

/// The magnitude of the number that `s` writes is `digits * 10^scale`.
pub open spec fn scale_of(s: Seq<char>) -> int {
    exponent_value(exponent_text(s)) - fraction_len(mantissa_of(s))
}

/// A decimal number whose exact value rounds to a finite double.
pub open spec fn is_finite_number(s: Seq<char>) -> bool {
    &&& is_number(s)
    &&& below_limit(digits_value(digits_of(mantissa_of(s))), scale_of(s))
}

// ----- powers of ten and digit strings -----

proof fn lemma_pow10_add(a: nat, b: nat)
    ensures
        pow10(a + b) == pow10(a) * pow10(b),
    decreases b,
{
    if b == 0 {
        assert(pow10(a) * 1 == pow10(a));
    } else {
        let bb = (b - 1) as nat;
        lemma_pow10_add(a, bb);
        assert((a + b - 1) as nat == a + bb);
        assert(pow10(a + b) == 10 * pow10(a + bb));
        assert(pow10(b) == 10 * pow10(bb));
        let x = pow10(a);
        let y = pow10(bb);
        assert(x * (10 * y) == 10 * (x * y)) by (nonlinear_arith);
    }
}

proof fn lemma_pow10_pos(n: nat)
    ensures
        pow10(n) >= 1,
    decreases n,
{
    if n > 0 {
        lemma_pow10_pos((n - 1) as nat);
    }
}

proof fn lemma_pow10_mono(a: nat, b: nat)
    requires
        a <= b,
    ensures
        pow10(a) <= pow10(b),
{
    lemma_pow10_add(a, (b - a) as nat);
    lemma_pow10_pos((b - a) as nat);
    let x = pow10(a);
    let y = pow10((b - a) as nat);
    assert(x <= x * y) by (nonlinear_arith)
        requires
            y >= 1,
    ;
}

proof fn lemma_digits_concat(a: Seq<char>, b: Seq<char>)
    ensures
        digits_value(a + b) == digits_value(a) * pow10(b.len()) + digits_value(b),
    decreases b.len(),
{
    if b.len() == 0 {
        assert(a + b =~= a);
        assert(digits_value(b) == 0);
        assert(pow10(0) == 1);
        assert(digits_value(a) * 1 == digits_value(a));
    } else {
        let b1 = b.drop_last();
        assert((a + b).drop_last() =~= a + b1);
        assert((a + b).last() == b.last());
        lemma_digits_concat(a, b1);
        let va = digits_value(a);
        let p = pow10(b1.len());
        let vb = digits_value(b1);
        let d = digit_value(b.last());
        assert(digits_value(a + b) == digits_value(a + b1) * 10 + d);
        assert(digits_value(b) == vb * 10 + d);
        assert(pow10(b.len()) == 10 * p);
        assert((va * p + vb) * 10 + d == va * (10 * p) + (vb * 10 + d)) by (nonlinear_arith);
    }
}

proof fn lemma_digits_upper(s: Seq<char>)
    requires
        all_digits(s),
    ensures
        digits_value(s) < pow10(s.len()),
    decreases s.len(),
{
    if s.len() > 0 {
        let s1 = s.drop_last();
        assert(all_digits(s1)) by {
            assert forall|i: int| 0 <= i < s1.len() implies is_digit(#[trigger] s1[i]) by {
                assert(s1[i] == s[i]);
            }
        }
        lemma_digits_upper(s1);
        assert(is_digit(s[s.len() - 1]));
        assert(digit_value(s.last()) <= 9);
    }
}

proof fn lemma_digits_zero(s: Seq<char>)
    requires
        forall|i: int| 0 <= i < s.len() ==> digit_value(#[trigger] s[i]) == 0,
    ensures
        digits_value(s) == 0,
    decreases s.len(),
{
    if s.len() > 0 {
        let s1 = s.drop_last();
        assert forall|i: int| 0 <= i < s1.len() implies digit_value(#[trigger] s1[i]) == 0 by {
            assert(s1[i] == s[i]);
        }
        lemma_digits_zero(s1);
        assert(digit_value(s[s.len() - 1]) == 0);
    }
}

proof fn lemma_digits_lower(s: Seq<char>)
    requires
        all_digits(s),
        s.len() > 0,
        digit_value(s[0]) != 0,
    ensures
        pow10((s.len() - 1) as nat) <= digits_value(s),
{
    let r = s.drop_first();
    assert(s =~= seq![s[0]] + r);
    lemma_digits_concat(seq![s[0]], r);
    let one = seq![s[0]];
    assert(one.drop_last() =~= Seq::<char>::empty());
    assert(one.last() == s[0]);
    assert(digits_value(one) == digits_value(one.drop_last()) * 10 + digit_value(one.last()));
    assert(digits_value(one) == digit_value(s[0]));
    assert(digit_value(s[0]) >= 1);
    let p = pow10(r.len());
    let d = digit_value(s[0]);
    assert(p <= d * p) by (nonlinear_arith)
        requires
            d >= 1,
    ;
}

proof fn lemma_limit_bounds()
    ensures
        pow10(308) <= limit(),
        limit() < pow10(309),
        all_digits(limit_digits()),
        limit_digits().len() == 309,
{
    reveal_strlit("179769313486231580793728971405303415079934132710037826936173778980444968292764750946649017977587207096330286416692887910946555547851940402630657488671505820681908902000708383676273854845817711531764475730270069855571366959622842914819860834936475292719074168444365510704342711559699508093042880177904174497792");
    assert(limit_digits().len() == 309);
    assert(limit_digits()[0] == '1');
    assert(all_digits(limit_digits()));
    lemma_digits_lower(limit_digits());
    lemma_digits_upper(limit_digits());
}

proof fn lemma_all_digits_sub(s: Seq<char>, lo: int, hi: int)
    requires
        all_digits(s),
        0 <= lo <= hi <= s.len(),
    ensures
        all_digits(s.subrange(lo, hi)),
{
    assert forall|i: int| 0 <= i < hi - lo implies is_digit(#[trigger] s.subrange(lo, hi)[i]) by {
        assert(s.subrange(lo, hi)[i] == s[lo + i]);
    }
}

proof fn lemma_single_digit(c: char)
    ensures
        digits_value(seq![c]) == digit_value(c),
{
    let one = seq![c];
    assert(one.drop_last() =~= Seq::<char>::empty());
    assert(one.last() == c);
    assert(digits_value(one) == digits_value(one.drop_last()) * 10 + digit_value(one.last()));
}

/// Numbers with fewer than 309 digits before the point are finite.
proof fn lemma_small(sg: Seq<char>, t: int)
    requires
        all_digits(sg),
        sg.len() + t <= 308,
    ensures
        below_limit(digits_value(sg), t),
{
    lemma_limit_bounds();
    lemma_digits_upper(sg);
    let d = digits_value(sg);
    let n = sg.len();
    if t >= 0 {
        let tt = t as nat;
        lemma_pow10_add(n, tt);
        lemma_pow10_mono(n + tt, 308);
        let p = pow10(tt);
        let q = pow10(n);
        lemma_pow10_pos(tt);
        assert(d * p < q * p) by (nonlinear_arith)
            requires
                d < q,
                p >= 1,
        ;
    } else {
        let u = (-t) as nat;
        lemma_pow10_mono(n, 308 + u);
        lemma_pow10_add(308, u);
        let p = pow10(u);
        lemma_pow10_pos(u);
        let l = limit();
        assert(pow10(308) * p <= l * p) by (nonlinear_arith)
            requires
                pow10(308) <= l,
        ;
    }
}

/// Numbers with more than 309 digits before the point are not.
proof fn lemma_large(sg: Seq<char>, t: int)
    requires
        all_digits(sg),
        sg.len() > 0,
        digit_value(sg[0]) != 0,
        sg.len() + t >= 310,
    ensures
        !below_limit(digits_value(sg), t),
{
    lemma_limit_bounds();
    lemma_digits_lower(sg);
    let d = digits_value(sg);
    let n1 = (sg.len() - 1) as nat;
    let l = limit();
    if t >= 0 {
        let tt = t as nat;
        lemma_pow10_add(n1, tt);
        lemma_pow10_mono(309, n1 + tt);
        let p = pow10(tt);
        let q = pow10(n1);
        assert(q * p <= d * p) by (nonlinear_arith)
            requires
                q <= d,
        ;
    } else {
        let u = (-t) as nat;
        lemma_pow10_mono(309 + u, n1);
        lemma_pow10_add(309, u);
        let p = pow10(u);
        lemma_pow10_pos(u);
        assert(l * p < pow10(309) * p) by (nonlinear_arith)
            requires
                l < pow10(309),
                p >= 1,
        ;
    }
}

/// The first 309 digits of `sg`, padded with zeros.
pub open spec fn window(sg: Seq<char>) -> Seq<char> {
    if sg.len() <= 309 {
        sg + Seq::new((309 - sg.len()) as nat, |i: int| '0')
    } else {
        sg.take(309)
    }
}

/// With 309 digits before the point, the first 309 digits decide.
proof fn lemma_window(sg: Seq<char>)
    requires
        all_digits(sg),
    ensures
        below_limit(digits_value(sg), 309 - sg.len()) <==> digits_value(window(sg)) < limit(),
{
    let n = sg.len();
    let d = digits_value(sg);
    let l = limit();
    if n <= 309 {
        let z = Seq::new((309 - n) as nat, |i: int| '0');
        assert forall|i: int| 0 <= i < z.len() implies digit_value(#[trigger] z[i]) == 0 by {
            assert(z[i] == '0');
        }
        lemma_digits_zero(z);
        lemma_digits_concat(sg, z);
    } else {
        let w = sg.take(309);
        let r = sg.skip(309);
        assert(sg =~= w + r);
        lemma_digits_concat(w, r);
        lemma_all_digits_sub(sg, 309, n as int);
        assert(r == sg.subrange(309, n as int));
        lemma_digits_upper(r);
        let p = pow10(r.len());
        let vw = digits_value(w);
        let vr = digits_value(r);
        assert(r.len() == (-(309 - n)) as nat);
        if vw < l {
            assert(vw * p + vr < l * p) by (nonlinear_arith)
                requires
                    vw + 1 <= l,
                    vr < p,
            ;
        } else {
            assert(l * p <= vw * p + vr) by (nonlinear_arith)
                requires
                    l <= vw,
            ;
        }
    }
}

/// Two digit strings of one length compare as their first differing digits.
proof fn lemma_first_diff(a: Seq<char>, b: Seq<char>, i: int)
    requires
        all_digits(a),
        all_digits(b),
        a.len() == b.len(),
        0 <= i < a.len(),
        forall|j: int| 0 <= j < i ==> digit_value(#[trigger] a[j]) == digit_value(b[j]),
        digit_value(a[i]) != digit_value(b[i]),
    ensures
        digits_value(a) < digits_value(b) <==> digit_value(a[i]) < digit_value(b[i]),
{
    let n = a.len();
    let ra = a.skip(i + 1);
    let rb = b.skip(i + 1);
    let pre = a.take(i);
    let preb = b.take(i);
    assert(a =~= pre + (seq![a[i]] + ra));
    assert(b =~= preb + (seq![b[i]] + rb));
    lemma_same_values(pre, preb);
    lemma_digits_concat(pre, seq![a[i]] + ra);
    lemma_digits_concat(preb, seq![b[i]] + rb);
    lemma_digits_concat(seq![a[i]], ra);
    lemma_digits_concat(seq![b[i]], rb);
    lemma_single_digit(a[i]);
    lemma_single_digit(b[i]);
    lemma_all_digits_sub(a, i + 1, n as int);
    lemma_all_digits_sub(b, i + 1, n as int);
    assert(ra == a.subrange(i + 1, n as int));
    assert(rb == b.subrange(i + 1, n as int));
    lemma_digits_upper(ra);
    lemma_digits_upper(rb);
    let p = pow10(ra.len());
    let x = digits_value(pre) * pow10((ra.len() + 1) as nat);
    let da = digit_value(a[i]);
    let db = digit_value(b[i]);
    let va = digits_value(ra);
    let vb = digits_value(rb);
    assert(digits_value(a) == x + (da * p + va));
    assert(digits_value(b) == x + (db * p + vb));
    if da < db {
        assert(da * p + va < db * p + vb) by (nonlinear_arith)
            requires
                da + 1 <= db,
                va < p,
        ;
    } else {
        assert(db * p + vb < da * p + va) by (nonlinear_arith)
            requires
                db + 1 <= da,
                vb < p,
        ;
    }
}

proof fn lemma_same_values(a: Seq<char>, b: Seq<char>)
    requires
        a.len() == b.len(),
        forall|j: int| 0 <= j < a.len() ==> digit_value(#[trigger] a[j]) == digit_value(b[j]),
    ensures
        digits_value(a) == digits_value(b),
    decreases a.len(),
{
    if a.len() > 0 {
        let a1 = a.drop_last();
        let b1 = b.drop_last();
        assert forall|j: int| 0 <= j < a1.len() implies digit_value(#[trigger] a1[j])
            == digit_value(b1[j]) by {
            assert(a1[j] == a[j] && b1[j] == b[j]);
        }
        lemma_same_values(a1, b1);
        assert(digit_value(a[a.len() - 1]) == digit_value(b[b.len() - 1]));
    }
}

proof fn lemma_first_index_props(s: Seq<char>, a: char, b: char)
    ensures
        0 <= first_index(s, a, b) <= s.len(),
        forall|j: int| 0 <= j < first_index(s, a, b) ==> #[trigger] s[j] != a && s[j] != b,
        first_index(s, a, b) < s.len() ==> s[first_index(s, a, b)] == a || s[first_index(
            s,
            a,
            b,
        )] == b,
    decreases s.len(),
{
    if s.len() > 0 && s[0] != a && s[0] != b {
        let s1 = s.drop_first();
        lemma_first_index_props(s1, a, b);
        assert forall|j: int| 0 <= j < first_index(s, a, b) implies #[trigger] s[j] != a && s[j]
            != b by {
            if j > 0 {
                assert(s[j] == s1[j - 1]);
            }
        }
    }
}

proof fn lemma_first_index(s: Seq<char>, a: char, b: char, k: int)
    requires
        0 <= k <= s.len(),
        forall|j: int| 0 <= j < k ==> #[trigger] s[j] != a && s[j] != b,
        k < s.len() ==> s[k] == a || s[k] == b,
    ensures
        first_index(s, a, b) == k,
    decreases k,
{
    if k > 0 {
        let s1 = s.drop_first();
        assert(s[0] != a && s[0] != b);
        assert forall|j: int| 0 <= j < k - 1 implies #[trigger] s1[j] != a && s1[j] != b by {
            assert(s1[j] == s[j + 1]);
        }
        if k < s.len() {
            assert(s1[k - 1] == s[k]);
        }
        lemma_first_index(s1, a, b, k - 1);
    }
}

/// The mantissa of a decimal number is one, and so is its exponent, if any.
proof fn lemma_number_parts(w: Seq<char>)
    requires
        is_number(w),
    ensures
        is_mantissa(mantissa_of(w)),
        exponent_text(w).len() > 0 ==> is_exponent(exponent_text(w)),
{
    let b = unsigned(w);
    let k = first_index(b, 'e', 'E');
    lemma_first_index_props(b, 'e', 'E');
    if k < b.len() {
        assert(!is_mantissa(b)) by {
            assert(!is_digit(b[k]) && b[k] != '.');
        }
        let j = choose|j: int|
            0 <= j < b.len() && is_exp_mark(#[trigger] b[j]) && is_mantissa(b.take(j))
                && is_exponent(b.skip(j + 1));
        if j > k {
            assert(b.take(j)[k] == b[k]);
            assert(!is_digit(b.take(j)[k]) && b.take(j)[k] != '.');
        }
        assert(j == k);
    } else {
        assert(b.take(k) =~= b);
        if !is_mantissa(b) {
            let j = choose|j: int|
                0 <= j < b.len() && is_exp_mark(#[trigger] b[j]) && is_mantissa(b.take(j))
                    && is_exponent(b.skip(j + 1));
            assert(b[j] != 'e' && b[j] != 'E');
        }
    }
}

/// The digits of a mantissa are digits.
proof fn lemma_mantissa_digits(m: Seq<char>)
    requires
        is_mantissa(m),
    ensures
        all_digits(digits_of(m)),
{
    let p = first_index(m, '.', '.');
    lemma_first_index_props(m, '.', '.');
    let d = digits_of(m);
    assert forall|i: int| 0 <= i < d.len() implies is_digit(#[trigger] d[i]) by {
        if i < p {
            assert(d[i] == m[i]);
        } else {
            assert(p < m.len());
            assert(d[i] == m[i + 1]);
            if m[i + 1] == '.' {
                assert(m[p] == '.');
            }
        }
    }
}

fn push_range(d: &mut Vec<char>, s: &Vec<char>, lo: usize, hi: usize)
    requires
        lo <= hi <= s@.len(),
    ensures
        final(d)@ == old(d)@ + s@.subrange(lo as int, hi as int),
{
    let mut i = lo;
    while i < hi
        invariant
            lo <= i <= hi <= s@.len(),
            d@ == old(d)@ + s@.subrange(lo as int, i as int),
        decreases hi - i,
    {
        d.push(s[i]);
        assert(s@.subrange(lo as int, i + 1) == s@.subrange(lo as int, i as int).push(s@[i as int]));
        i = i + 1;
    }
}

/// Bound on an exponent's magnitude past which only its sign matters.
pub const EXPONENT_CAP: u128 = 1180591620717411303424;

/// Digits of the mantissa `s[lo..hi]` without its point, and the number of
/// digits after the point.
fn mantissa_digits(s: &Vec<char>, lo: usize, hi: usize) -> (r: (Vec<char>, usize))
    requires
        lo <= hi <= s@.len(),
        is_mantissa(s@.subrange(lo as int, hi as int)),
    ensures
        r.0@ == digits_of(s@.subrange(lo as int, hi as int)),
        r.1 as int == fraction_len(s@.subrange(lo as int, hi as int)),
        all_digits(r.0@),
{
    let ghost m = s@.subrange(lo as int, hi as int);
    let mut pd = lo;
    while pd < hi && s[pd] != '.'
        invariant
            lo <= pd <= hi <= s@.len(),
            forall|j: int| lo <= j < pd ==> #[trigger] s@[j] != '.',
        decreases hi - pd,
    {
        pd = pd + 1;
    }
    proof {
        assert forall|j: int| 0 <= j < pd - lo implies #[trigger] m[j] != '.' && m[j] != '.' by {
            assert(m[j] == s@[lo + j]);
        }
        if pd < hi {
            assert(m[pd - lo] == s@[pd as int]);
        }
        lemma_first_index(m, '.', '.', pd - lo);
        lemma_mantissa_digits(m);
    }
    let mut d: Vec<char> = Vec::new();
    push_range(&mut d, s, lo, pd);
    let f: usize;
    if pd < hi {
        push_range(&mut d, s, pd + 1, hi);
        f = hi - pd - 1;
        assert(d@ =~= m.take(pd - lo) + m.skip(pd - lo + 1));
    } else {
        f = 0;
        assert(d@ =~= m);
    }
    (d, f)
}

/// Sign and magnitude of the exponent `s[lo..hi]` (empty: zero); a magnitude
/// over `EXPONENT_CAP` is reported as such.
fn read_exponent(s: &Vec<char>, lo: usize, hi: usize) -> (r: (bool, u128, bool))
    requires
        lo <= hi <= s@.len(),
        lo < hi ==> is_exponent(s@.subrange(lo as int, hi as int)),
    ensures
        ({
            let e = exponent_value(s@.subrange(lo as int, hi as int));
            &&& !r.2 ==> r.1 <= EXPONENT_CAP
            &&& !r.2 ==> e == (if r.0 {
                -(r.1 as int)
            } else {
                r.1 as int
            })
            &&& r.2 ==> (if r.0 {
                e < -(EXPONENT_CAP as int)
            } else {
                e > EXPONENT_CAP as int
            })
        }),
{
    let ghost x = s@.subrange(lo as int, hi as int);
    if lo == hi {
        assert(x =~= Seq::<char>::empty());
        assert(unsigned(x) =~= Seq::<char>::empty());
        return (false, 0, false);
    }
    let mut neg = false;
    let mut mag: u128 = 0;
    let mut sat = false;
    let mut xi = lo;
    if s[xi] == '+' || s[xi] == '-' {
        neg = s[xi] == '-';
        xi = xi + 1;
    }
    let ghost xd = s@.subrange(xi as int, hi as int);
    assert(xd == unsigned(x));
    let xs = xi;
    assert(xd.take(0) =~= Seq::<char>::empty());
    while xi < hi
        invariant
            xs <= xi <= hi <= s@.len(),
            xd == s@.subrange(xs as int, hi as int),
            all_digits(xd),
            !sat ==> mag as nat == digits_value(xd.take(xi - xs)) && mag <= EXPONENT_CAP,
            sat ==> digits_value(xd.take(xi - xs)) > EXPONENT_CAP,
        decreases hi - xi,
    {
        let ghost i = xi - xs;
        proof {
            assert(xd.take(i + 1).drop_last() =~= xd.take(i));
            assert(xd.take(i + 1).last() == xd[i]);
            assert(xd[i] == s@[xi as int]);
            assert(is_digit(xd[i]));
        }
        let dv = (s[xi] as u32 - 48) as u128;
        if !sat {
            let next = mag * 10 + dv;
            if next > EXPONENT_CAP {
                sat = true;
            } else {
                mag = next;
            }
        }
        xi = xi + 1;
    }
    assert(xd.take(hi - xs) =~= xd);
    (neg, mag, sat)
}

/// Whether the first 309 digits of `d[z..]`, padded with zeros, lie below the
/// limit's digits.
fn window_below(d: &Vec<char>, z: usize) -> (r: bool)
    requires
        z <= d@.len(),
        all_digits(d@),
    ensures
        r == (digits_value(window(d@.skip(z as int))) < limit()),
{
    let ghost sg = d@.skip(z as int);
    let n = d.len() - z;
    let mut win: Vec<char> = Vec::new();
    let mut j: usize = 0;
    while j < 309
        invariant
            j <= 309,
            z + n == d.len(),
            sg == d@.skip(z as int),
            win@.len() == j,
            forall|q: int| 0 <= q < j ==> #[trigger] win@[q] == window(sg)[q],
        decreases 309 - j,
    {
        if j < n {
            win.push(d[z + j]);
        } else {
            win.push('0');
        }
        j = j + 1;
    }
    assert(win@ =~= window(sg));
    let lim = chars_of("179769313486231580793728971405303415079934132710037826936173778980444968292764750946649017977587207096330286416692887910946555547851940402630657488671505820681908902000708383676273854845817711531764475730270069855571366959622842914819860834936475292719074168444365510704342711559699508093042880177904174497792");
    proof {
        lemma_limit_bounds();
        assert(all_digits(window(sg))) by {
            assert forall|q: int| 0 <= q < 309 implies is_digit(#[trigger] window(sg)[q]) by {
                if q < sg.len() {
                    assert(sg[q] == d@[z + q]);
                }
            }
        }
    }
    assert(lim@ == limit_digits());
    let mut i: usize = 0;
    while i < 309 && (win[i] as u32) == (lim[i] as u32)
        invariant
            i <= 309,
            win@.len() == 309,
            lim@.len() == 309,
            forall|q: int| 0 <= q < i ==> digit_value(#[trigger] win@[q]) == digit_value(lim@[q]),
        decreases 309 - i,
    {
        i = i + 1;
    }
    if i == 309 {
        proof {
            lemma_same_values(win@, lim@);
        }
        false
    } else {
        proof {
            lemma_first_diff(win@, lim@, i as int);
        }
        (win[i] as u32) < (lim[i] as u32)
    }
}

/// Whether `d * 10^(e - f)` rounds to a finite double, for the exponent `e`
/// that `read_exponent` describes by `neg`, `mag` and `sat`.
fn digits_below_limit(d: &Vec<char>, f: usize, neg: bool, mag: u128, sat: bool, Ghost(e): Ghost<int>) -> (r: bool)
    requires
        all_digits(d@),
        !sat ==> mag <= EXPONENT_CAP,
        !sat ==> e == (if neg {
            -(mag as int)
        } else {
            mag as int
        }),
        sat ==> (if neg {
            e < -(EXPONENT_CAP as int)
        } else {
            e > EXPONENT_CAP as int
        }),
    ensures
        r == below_limit(digits_value(d@), e - f),
{
    let ghost t = e - f;
    let mut z: usize = 0;
    while z < d.len() && (d[z] as u32) == 48
        invariant
            z <= d@.len(),
            forall|j: int| 0 <= j < z ==> digit_value(#[trigger] d@[j]) == 0,
        decreases d@.len() - z,
    {
        z = z + 1;
    }
    let ghost sg = d@.skip(z as int);
    proof {
        let zs = d@.take(z as int);
        assert forall|j: int| 0 <= j < zs.len() implies digit_value(#[trigger] zs[j]) == 0 by {
            assert(zs[j] == d@[j]);
        }
        lemma_digits_zero(zs);
        assert(d@ =~= zs + sg);
        lemma_digits_concat(zs, sg);
        lemma_all_digits_sub(d@, z as int, d@.len() as int);
        assert(sg == d@.subrange(z as int, d@.len() as int));
        lemma_limit_bounds();
    }
    assert(digits_value(d@) == digits_value(sg));
    if z == d.len() {
        proof {
            assert(sg.len() == 0);
            if t < 0 {
                let p = pow10((-t) as nat);
                lemma_pow10_pos((-t) as nat);
                let l = limit();
                assert(0 < l * p) by (nonlinear_arith)
                    requires
                        l >= 1,
                        p >= 1,
                ;
            }
        }
        return true;
    }
    let n = d.len() - z;
    assert(sg[0] == d@[z as int]);
    assert(digit_value(sg[0]) != 0);
    if sat {
        if neg {
            proof {
                lemma_small(sg, t);
            }
            return true;
        } else {
            proof {
                lemma_large(sg, t);
            }
            return false;
        }
    }
    let k: i128 = n as i128 + (if neg {
        -(mag as i128)
    } else {
        mag as i128
    }) - f as i128;
    assert(k == sg.len() + t);
    if k <= 308 {
        proof {
            lemma_small(sg, t);
        }
        return true;
    }
    if k >= 310 {
        proof {
            lemma_large(sg, t);
        }
        return false;
    }
    proof {
        lemma_window(sg);
    }
    window_below(d, z)
}

/// Whether the decimal number `s[lo..hi]` rounds to a finite double.
pub fn number_is_finite(s: &Vec<char>, lo: usize, hi: usize) -> (r: bool)
    requires
        lo <= hi <= s@.len(),
        is_number(s@.subrange(lo as int, hi as int)),
    ensures
        r == is_finite_number(s@.subrange(lo as int, hi as int)),
{
    let ghost w = s@.subrange(lo as int, hi as int);
    let mut b0 = lo;
    if lo < hi && (s[lo] == '+' || s[lo] == '-') {
        b0 = lo + 1;
    }
    let ghost b = s@.subrange(b0 as int, hi as int);
    assert(b == unsigned(w));
    let mut ke = b0;
    while ke < hi && s[ke] != 'e' && s[ke] != 'E'
        invariant
            b0 <= ke <= hi <= s@.len(),
            forall|j: int| b0 <= j < ke ==> #[trigger] s@[j] != 'e' && s@[j] != 'E',
        decreases hi - ke,
    {
        ke = ke + 1;
    }
    proof {
        assert forall|j: int| 0 <= j < ke - b0 implies #[trigger] b[j] != 'e' && b[j] != 'E' by {
            assert(b[j] == s@[b0 + j]);
        }
        if ke < hi {
            assert(b[ke - b0] == s@[ke as int]);
        }
        lemma_first_index(b, 'e', 'E', ke - b0);
        lemma_number_parts(w);
    }
    assert(s@.subrange(b0 as int, ke as int) == mantissa_of(w));
    let (d, f) = mantissa_digits(s, b0, ke);
    let xlo = if ke < hi { ke + 1 } else { hi };
    assert(s@.subrange(xlo as int, hi as int) == exponent_text(w));
    let (neg, mag, sat) = read_exponent(s, xlo, hi);
    digits_below_limit(&d, f, neg, mag, sat, Ghost(exponent_value(exponent_text(w))))
}

} // verus!
