use vstd::prelude::*;

verus! {

// ----- characters -----

/// White space as Unicode's `White_Space` property has it.
pub open spec fn is_space(c: char) -> bool {
    let u = c as u32;
    (9 <= u && u <= 13) || u == 32 || u == 0x85 || u == 0xA0 || u == 0x1680 || (0x2000 <= u
        && u <= 0x200A) || u == 0x2028 || u == 0x2029 || u == 0x202F || u == 0x205F || u
        == 0x3000
}

pub open spec fn is_digit(c: char) -> bool {
    48 <= (c as u32) && (c as u32) <= 57
}

pub open spec fn all_digits(s: Seq<char>) -> bool {
    forall|i: int| 0 <= i < s.len() ==> is_digit(#[trigger] s[i])
}

pub fn space(c: char) -> (r: bool)
    ensures
        r == is_space(c),
{
    let u = c as u32;
    (9 <= u && u <= 13) || u == 32 || u == 0x85 || u == 0xA0 || u == 0x1680 || (0x2000 <= u
        && u <= 0x200A) || u == 0x2028 || u == 0x2029 || u == 0x202F || u == 0x205F || u
        == 0x3000
}

fn digit(c: char) -> (r: bool)
    ensures
        r == is_digit(c),
{
    48 <= (c as u32) && (c as u32) <= 57
}

/// The characters of `s`, in order.
pub fn chars_of(s: &str) -> (r: Vec<char>)
    ensures
        r@ == s@,
{
    let mut r: Vec<char> = Vec::new();
    for c in it: s.chars()
        invariant
            r@ == it.seq().take(it.index() as int),
    {
        r.push(c);
    }
    r
}

/// Relies on `String::push`: appends one character.
#[verifier::external_body]
pub(crate) fn push_char(s: &mut String, c: char)
    ensures
        final(s)@ == old(s)@.push(c),
{
    s.push(c)
}

/// Appends the characters of `t`.
pub(crate) fn push_str(s: &mut String, t: &str)
    ensures
        final(s)@ == old(s)@ + t@,
{
    s.append(t)
}

/// Appends `s[lo..hi]` to `out`.
pub(crate) fn push_span(out: &mut String, s: &Vec<char>, lo: usize, hi: usize)
    requires
        lo <= hi <= s@.len(),
    ensures
        final(out)@ == old(out)@ + s@.subrange(lo as int, hi as int),
{
    let mut i = lo;
    while i < hi
        invariant
            lo <= i <= hi <= s@.len(),
            out@ == old(out)@ + s@.subrange(lo as int, i as int),
        decreases hi - i,
    {
        push_char(out, s[i]);
        assert(s@.subrange(lo as int, i + 1) == s@.subrange(lo as int, i as int).push(s@[i as int]));
        i = i + 1;
    }
}

// ----- fields separated by white space -----

/// Start and end of each maximal run of non-space characters of `s`, left to right.
pub open spec fn spans(s: Seq<char>) -> Seq<(int, int)>
    decreases s.len(),
{
    if s.len() == 0 {
        seq![]
    } else {
        let p = spans(s.drop_last());
        let n = s.len() as int;
        if is_space(s[n - 1]) {
            p
        } else if n >= 2 && !is_space(s[n - 2]) {
            p.update(p.len() - 1, (p.last().0, n))
        } else {
            p.push((n - 1, n))
        }
    }
}

/// The whitespace-separated fields of `s`.
pub open spec fn fields(s: Seq<char>) -> Seq<Seq<char>> {
    spans(s).map_values(|p: (int, int)| s.subrange(p.0, p.1))
}

/// `s` without leading and trailing white space.
pub open spec fn trim(s: Seq<char>) -> Seq<char> {
    let p = spans(s);
    if p.len() == 0 {
        seq![]
    } else {
        s.subrange(p[0].0, p.last().1)
    }
}

/// Spans of the fields of `s`, as `spans` gives them.
pub fn field_spans(s: &Vec<char>) -> (r: Vec<(usize, usize)>)
    ensures
        r@.len() == spans(s@).len(),
        forall|j: int|
            0 <= j < r@.len() ==> (#[trigger] r@[j]).0 as int == spans(s@)[j].0 && r@[j].1 as int
                == spans(s@)[j].1,
        forall|j: int|
            0 <= j < r@.len() ==> (#[trigger] r@[j]).0 < r@[j].1 <= s@.len(),
        r@.len() > 0 ==> r@[0].0 < r@.last().1,
{
    let mut r: Vec<(usize, usize)> = Vec::new();
    let mut i: usize = 0;
    while i < s.len()
        invariant
            i <= s@.len(),
            r@.len() == spans(s@.take(i as int)).len(),
            forall|j: int|
                0 <= j < r@.len() ==> (#[trigger] r@[j]).0 as int == spans(s@.take(i as int))[j].0
                    && r@[j].1 as int == spans(s@.take(i as int))[j].1,
            forall|j: int| 0 <= j < r@.len() ==> (#[trigger] r@[j]).0 < r@[j].1 <= i,
            i > 0 && !is_space(s@[i - 1]) ==> r@.len() > 0 && r@.last().1 == i,
            r@.len() > 0 ==> r@[0].0 < r@.last().1,
        decreases s@.len() - i,
    {
        let ghost t = s@.take(i + 1);
        assert(t.drop_last() == s@.take(i as int));
        assert(t[i as int] == s@[i as int]);
        if space(s[i]) {
        } else if i >= 1 && !space(s[i - 1]) {
            assert(t[i - 1] == s@[i - 1]);
            let k = r.len() - 1;
            let a = r[k].0;
            r.set(k, (a, i + 1));
        } else {
            if i >= 1 {
                assert(t[i - 1] == s@[i - 1]);
            }
            r.push((i, i + 1));
        }
        i = i + 1;
    }
    assert(s@.take(s@.len() as int) == s@);
    r
}

// ----- integers -----

pub open spec fn digit_value(c: char) -> nat {
    ((c as u32) - 48) as nat
}

/// Value of a string of decimal digits.
pub open spec fn digits_value(s: Seq<char>) -> nat
    decreases s.len(),
{
    if s.len() == 0 {
        0
    } else {
        digits_value(s.drop_last()) * 10 + digit_value(s.last())
    }
}

/// `s` without one leading sign.
pub open spec fn unsigned(s: Seq<char>) -> Seq<char> {
    if s.len() > 0 && (s[0] == '+' || s[0] == '-') {
        s.drop_first()
    } else {
        s
    }
}

/// Value of `s` read as a signed 64-bit decimal integer: an optional sign and at
/// least one ASCII digit, in range.
pub open spec fn int_of(s: Seq<char>) -> Option<i64> {
    let d = unsigned(s);
    let v: int = if s.len() > 0 && s[0] == '-' {
        -digits_value(d)
    } else {
        digits_value(d) as int
    };
    if d.len() == 0 || !all_digits(d) || v < i64::MIN || v > i64::MAX {
        None
    } else {
        Some(v as i64)
    }
}

proof fn lemma_digits_step(s: Seq<char>, i: int)
    requires
        0 <= i < s.len(),
    ensures
        digits_value(s.take(i + 1)) == digits_value(s.take(i)) * 10 + digit_value(s[i]),
{
    assert(s.take(i + 1).drop_last() == s.take(i));
}

/// Reads `s[lo..hi]` as a signed 64-bit decimal integer.
pub fn parse_int(s: &Vec<char>, lo: usize, hi: usize) -> (r: Option<i64>)
    requires
        lo <= hi <= s@.len(),
    ensures
        r == int_of(s@.subrange(lo as int, hi as int)),
{
    let ghost w = s@.subrange(lo as int, hi as int);
    let mut start = lo;
    let neg = lo < hi && s[lo] == '-';
    if lo < hi && (s[lo] == '+' || s[lo] == '-') {
        start = lo + 1;
    }
    let ghost d = s@.subrange(start as int, hi as int);
    assert(d == unsigned(w));
    if start == hi {
        return None;
    }
    let mut v: u64 = 0;
    let mut over = false;
    let mut i = start;
    while i < hi
        invariant
            lo <= start <= i <= hi <= s@.len(),
            d == s@.subrange(start as int, hi as int),
            d == unsigned(w),
            w == s@.subrange(lo as int, hi as int),
            over ==> digits_value(d.take(i - start)) > 9223372036854775808,
            !over ==> v as nat == digits_value(d.take(i - start)),
            all_digits(d.take(i - start)),
        decreases hi - i,
    {
        if !digit(s[i]) {
            assert(d[i - start] == s@[i as int]);
            assert(!all_digits(d));
            return None;
        }
        proof {
            lemma_digits_step(d, i - start);
            assert(d[i - start] == s@[i as int]);
            assert(d.take(i - start + 1) == d.take(i - start).push(s@[i as int]));
        }
        let dv = (s[i] as u32 - 48) as u64;
        if !over {
            if v > 922337203685477580 {
                over = true;
            } else {
                v = v * 10 + dv;
            }
        }
        i = i + 1;
    }
    assert(d.take(hi - start) == d);
    if over {
        None
    } else if neg {
        if v > 9223372036854775808 {
            None
        } else if v == 9223372036854775808 {
            Some(i64::MIN)
        } else {
            Some(-(v as i64))
        }
    } else if v > 9223372036854775807 {
        None
    } else {
        Some(v as i64)
    }
}

/// Decimal digits of `n`, most significant first, without leading zeros.
pub open spec fn nat_digits(n: nat) -> Seq<char>
    decreases n,
{
    if n < 10 {
        seq![(n + 48) as char]
    } else {
        nat_digits(n / 10).push(((n % 10) + 48) as char)
    }
}

/// Decimal text of `i`, with a minus sign when negative.
pub open spec fn decimal(i: int) -> Seq<char> {
    if i < 0 {
        seq!['-'] + nat_digits((-i) as nat)
    } else {
        nat_digits(i as nat)
    }
}

fn push_nat(out: &mut String, n: u64)
    ensures
        final(out)@ == old(out)@ + nat_digits(n as nat),
    decreases n,
{
    if n >= 10 {
        push_nat(out, n / 10);
    }
    let c = ((n % 10) as u8 + 48) as char;
    push_char(out, c);
    proof {
        if n >= 10 {
            assert(old(out)@ + nat_digits(n as nat) == old(out)@ + nat_digits((n / 10) as nat)
                + seq![c]);
        } else {
            assert(old(out)@ + nat_digits(n as nat) == old(out)@.push(c));
        }
    }
}

/// Appends the decimal text of `v`.
pub fn push_decimal(out: &mut String, v: i64)
    ensures
        final(out)@ == old(out)@ + decimal(v as int),
{
    if v < 0 {
        push_char(out, '-');
        let m = (-(v as i128)) as u64;
        push_nat(out, m);
        assert(old(out)@ + decimal(v as int) == old(out)@.push('-') + nat_digits(m as nat));
    } else {
        push_nat(out, v as u64);
    }
}

// ----- decimal numbers -----

/// Digits with at most one decimal point, and at least one digit.
pub open spec fn is_mantissa(m: Seq<char>) -> bool {
    &&& forall|i: int| 0 <= i < m.len() ==> is_digit(#[trigger] m[i]) || m[i] == '.'
    &&& forall|i: int, j: int| 0 <= i < m.len() && 0 <= j < m.len() && #[trigger] m[i] == '.'
        && #[trigger] m[j] == '.' ==> i == j
    &&& exists|i: int| 0 <= i < m.len() && is_digit(#[trigger] m[i])
}

/// An optional sign and at least one digit.
pub open spec fn is_exponent(x: Seq<char>) -> bool {
    unsigned(x).len() > 0 && all_digits(unsigned(x))
}

pub open spec fn is_exp_mark(c: char) -> bool {
    c == 'e' || c == 'E'
}

/// The shape of a decimal number: an optional sign, a mantissa, and an
/// optional exponent introduced by `e` or `E` (`-0.4`, `1.`, `.5`, `+2.5E-3`).
pub open spec fn is_number(s: Seq<char>) -> bool {
    let b = unsigned(s);
    is_mantissa(b) || exists|k: int|
        0 <= k < b.len() && is_exp_mark(#[trigger] b[k]) && is_mantissa(b.take(k)) && is_exponent(
            b.skip(k + 1),
        )
}

fn mantissa_ok(s: &Vec<char>, lo: usize, hi: usize) -> (r: bool)
    requires
        lo <= hi <= s@.len(),
    ensures
        r == is_mantissa(s@.subrange(lo as int, hi as int)),
{
    let ghost m = s@.subrange(lo as int, hi as int);
    let mut dot: Option<usize> = None;
    let mut seen_digit = false;
    let mut i = lo;
    while i < hi
        invariant
            lo <= i <= hi <= s@.len(),
            m == s@.subrange(lo as int, hi as int),
            forall|k: int| lo <= k < i ==> is_digit(#[trigger] s@[k]) || s@[k] == '.',
            dot is None ==> forall|k: int| lo <= k < i ==> #[trigger] s@[k] != '.',
            dot matches Some(p) ==> lo <= p < i && s@[p as int] == '.' && forall|k: int|
                lo <= k < i && #[trigger] s@[k] == '.' ==> k == p,
            seen_digit <==> exists|k: int| lo <= k < i && is_digit(#[trigger] s@[k]),
        decreases hi - i,
    {
        let c = s[i];
        if digit(c) {
            seen_digit = true;
        } else if c == '.' {
            if dot.is_some() {
                proof {
                    let p = dot->0;
                    assert(m[p - lo] == '.' && m[i - lo] == '.');
                }
                return false;
            }
            dot = Some(i);
        } else {
            assert(m[i - lo] == c);
            return false;
        }
        i = i + 1;
    }
    proof {
        assert forall|k: int| 0 <= k < m.len() implies is_digit(#[trigger] m[k]) || m[k] == '.' by {
            assert(m[k] == s@[lo + k]);
        }
        assert forall|a: int, b: int|
            0 <= a < m.len() && 0 <= b < m.len() && #[trigger] m[a] == '.' && #[trigger] m[b]
                == '.' implies a == b by {
            assert(m[a] == s@[lo + a] && m[b] == s@[lo + b]);
        }
        if seen_digit {
            let k = choose|k: int| lo <= k < i && is_digit(#[trigger] s@[k]);
            assert(m[k - lo] == s@[k]);
        } else {
            assert forall|k: int| 0 <= k < m.len() implies !is_digit(#[trigger] m[k]) by {
                assert(m[k] == s@[lo + k]);
            }
        }
    }
    seen_digit
}

fn exponent_ok(s: &Vec<char>, lo: usize, hi: usize) -> (r: bool)
    requires
        lo <= hi <= s@.len(),
    ensures
        r == is_exponent(s@.subrange(lo as int, hi as int)),
{
    let ghost x = s@.subrange(lo as int, hi as int);
    let mut i = lo;
    if lo < hi && (s[lo] == '+' || s[lo] == '-') {
        i = lo + 1;
    }
    assert(unsigned(x) == s@.subrange(i as int, hi as int));
    if i == hi {
        return false;
    }
    let start = i;
    while i < hi
        invariant
            lo <= start <= i <= hi <= s@.len(),
            x == s@.subrange(lo as int, hi as int),
            unsigned(x) == s@.subrange(start as int, hi as int),
            forall|k: int| start <= k < i ==> is_digit(#[trigger] s@[k]),
        decreases hi - i,
    {
        if !digit(s[i]) {
            assert(unsigned(x)[i - start] == s@[i as int]);
            return false;
        }
        i = i + 1;
    }
    assert forall|k: int| 0 <= k < unsigned(x).len() implies is_digit(#[trigger] unsigned(x)[k]) by {
        assert(unsigned(x)[k] == s@[start + k]);
    }
    true
}

/// Whether `s[lo..hi]` has the shape of a decimal number.
pub fn check_number(s: &Vec<char>, lo: usize, hi: usize) -> (r: bool)
    requires
        lo <= hi <= s@.len(),
    ensures
        r == is_number(s@.subrange(lo as int, hi as int)),
{
    let ghost w = s@.subrange(lo as int, hi as int);
    let mut b0 = lo;
    if lo < hi && (s[lo] == '+' || s[lo] == '-') {
        b0 = lo + 1;
    }
    let ghost b = s@.subrange(b0 as int, hi as int);
    assert(b == unsigned(w));
    let mut k = b0;
    while k < hi && s[k] != 'e' && s[k] != 'E'
        invariant
            b0 <= k <= hi <= s@.len(),
            forall|j: int| b0 <= j < k ==> !is_exp_mark(#[trigger] s@[j]),
        decreases hi - k,
    {
        k = k + 1;
    }
    if k == hi {
        let r = mantissa_ok(s, b0, hi);
        assert forall|j: int| 0 <= j < b.len() implies !is_exp_mark(#[trigger] b[j]) by {
            assert(b[j] == s@[b0 + j]);
        }
        r
    } else {
        let ghost kk = k - b0;
        assert(b[kk] == s@[k as int]);
        assert(b.take(kk) == s@.subrange(b0 as int, k as int));
        assert(b.skip(kk + 1) == s@.subrange(k + 1, hi as int));
        let r = mantissa_ok(s, b0, k) && exponent_ok(s, k + 1, hi);
        proof {
            assert(!is_mantissa(b)) by {
                assert(!is_digit(b[kk]) && b[kk] != '.');
            }
            assert forall|j: int|
                0 <= j < b.len() && is_exp_mark(#[trigger] b[j]) && is_mantissa(b.take(j))
                    && is_exponent(b.skip(j + 1)) implies j == kk by {
                if j < kk {
                    assert(b[j] == s@[b0 + j]);
                } else if j > kk {
                    assert(b.take(j)[kk] == b[kk]);
                    assert(!is_digit(b.take(j)[kk]) && b.take(j)[kk] != '.');
                }
            }
        }
        r
    }
}

// ----- finding text -----

/// First position at or after `i` where `p` occurs in `s`.
pub open spec fn find_from(s: Seq<char>, p: Seq<char>, i: int) -> Option<int>
    decreases s.len() - i,
{
    if i < 0 || i + p.len() > s.len() {
        None
    } else if s.subrange(i, i + p.len()) =~= p {
        Some(i)
    } else {
        find_from(s, p, i + 1)
    }
}

/// Position of the first occurrence of `p` in `s`.
pub fn find_text(s: &Vec<char>, p: &Vec<char>) -> (r: Option<usize>)
    ensures
        r matches Some(k) ==> find_from(s@, p@, 0) == Some(k as int),
        r is None ==> find_from(s@, p@, 0) is None,
{
    let mut i: usize = 0;
    while i <= s.len() && p.len() <= s.len() - i
        invariant
            find_from(s@, p@, 0) == find_from(s@, p@, i as int),
        decreases s@.len() - i,
    {
        let mut j: usize = 0;
        let mut same = true;
        while j < p.len()
            invariant
                0 <= j <= p@.len(),
                i + p@.len() <= s.len(),
                same <==> forall|k: int| 0 <= k < j ==> s@[i + k] == p@[k],
            decreases p@.len() - j,
        {
            if s[i + j] != p[j] {
                same = false;
            }
            j = j + 1;
        }
        if same {
            assert(s@.subrange(i as int, i + p@.len()) == p@);
            return Some(i);
        }
        assert(s@.subrange(i as int, i + p@.len()) != p@) by {
            let k = choose|k: int| 0 <= k < p@.len() && s@[i + k] != p@[k];
            assert(s@.subrange(i as int, i + p@.len())[k] != p@[k]);
        }
        i = i + 1;
    }
    None
}

} // verus!
