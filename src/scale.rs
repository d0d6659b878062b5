//! Resize factor for the transcoder, held exactly as a positive decimal
//! fraction, and the even-dimension rule that the video codec needs.
use vstd::prelude::*;

verus! {

pub open spec fn is_digit(c: char) -> bool {
    '0' <= c && c <= '9'
}

pub open spec fn digit_value(c: char) -> nat {
    (c as u32 - '0' as u32) as nat
}

pub open spec fn all_digits(s: Seq<char>) -> bool {
    forall|i: int| 0 <= i < s.len() ==> #[trigger] is_digit(s[i])
}

pub open spec fn pow10(n: nat) -> nat
    decreases n,
{
    if n == 0 {
        1
    } else {
        10 * pow10((n - 1) as nat)
    }
}

/// The number written by a string of decimal digits.
pub open spec fn digits_value(s: Seq<char>) -> nat
    decreases s.len(),
{
    if s.len() == 0 {
        0
    } else {
        digits_value(s.drop_last()) * 10 + digit_value(s.last())
    }
}

/// `s` is a decimal numeral whose integer part ends at `p`: either `p == s.len()`
/// (no fraction), or `s[p]` is the point and at least one digit follows it.
pub open spec fn decimal_at(s: Seq<char>, p: int) -> bool {
    &&& 1 <= p <= s.len()
    &&& all_digits(s.take(p))
    &&& (p == s.len() || (p + 1 < s.len() && s[p] == '.' && all_digits(s.skip(p + 1))))
}

/// The digits of the numeral with the point taken out.
pub open spec fn decimal_digits(s: Seq<char>, p: int) -> Seq<char> {
    if p == s.len() {
        s
    } else {
        s.take(p) + s.skip(p + 1)
    }
}

/// The power of ten that the digits are divided by.
pub open spec fn decimal_den(s: Seq<char>, p: int) -> nat {
    pow10((s.len() - p - 1) as nat)
}

pub open spec fn decimal_den_at(s: Seq<char>, p: int) -> nat {
    if p == s.len() {
        1
    } else {
        decimal_den(s, p)
    }
}

/// Longest run of digits a scale may have, so that its numerator fits in 64 bits.
pub const MAX_SCALE_DIGITS: usize = 18;

/// `s` writes a positive scale factor, with its integer part ending at `p`.
pub open spec fn positive_scale_at(s: Seq<char>, p: int) -> bool {
    &&& decimal_at(s, p)
    &&& decimal_digits(s, p).len() <= MAX_SCALE_DIGITS
    &&& digits_value(decimal_digits(s, p)) > 0
}

/// The text of a scale factor together with its exact value `num / den`.
pub open spec fn scale_parts(text: Seq<char>, num: nat, den: nat) -> bool {
    exists|p: int|
        #![trigger positive_scale_at(text, p)]
        positive_scale_at(text, p) && num == digits_value(decimal_digits(text, p))
            && den == decimal_den_at(text, p)
}

/// A positive resize factor, written as a decimal numeral (`0.75`, `2`, `1.5`).
pub struct Scale {
    text: String,
    num: u64,
    den: u64,
}

impl View for Scale {
    /// The numeral, its numerator and its denominator.
    type V = (Seq<char>, nat, nat);

    closed spec fn view(&self) -> (Seq<char>, nat, nat) {
        (self.text@, self.num as nat, self.den as nat)
    }
}

impl Scale {
    #[verifier::type_invariant]
    spec fn inv(&self) -> bool {
        scale_parts(self.text@, self.num as nat, self.den as nat)
    }

    /// The numeral as written.
    pub fn text(&self) -> (r: &String)
        ensures
            r@ == self@.0,
    {
        &self.text
    }

    /// Numerator of the exact value.
    pub fn num(&self) -> (r: u64)
        ensures
            r == self@.1,
            scale_parts(self@.0, self@.1, self@.2),
    {
        proof {
            use_type_invariant(self);
        }
        self.num
    }

    /// Denominator of the exact value.
    pub fn den(&self) -> (r: u64)
        ensures
            r == self@.2,
            scale_parts(self@.0, self@.1, self@.2),
    {
        proof {
            use_type_invariant(self);
        }
        self.den
    }
}

/// The value of a scale numeral is positive, with numerator and denominator
/// at most `10^18`.
pub proof fn lemma_scale_parts_bounds(s: Seq<char>, num: nat, den: nat)
    requires
        scale_parts(s, num, den),
    ensures
        0 < num < pow10(18),
        0 < den <= pow10(18),
{
    let p = choose|p: int| #![trigger positive_scale_at(s, p)]
        positive_scale_at(s, p) && num == digits_value(decimal_digits(s, p))
            && den == decimal_den_at(s, p);
    lemma_decimal_digits_are_digits(s, p);
    lemma_digits_value_bound(decimal_digits(s, p));
    lemma_pow10_mono(decimal_digits(s, p).len(), 18);
    if p < s.len() {
        assert(decimal_digits(s, p).len() == s.len() - 1);
        lemma_pow10_mono((s.len() - p - 1) as nat, 18);
        lemma_pow10_pos((s.len() - p - 1) as nat);
    }
    lemma_pow10_pos(18);
}

proof fn lemma_decimal_digits_are_digits(s: Seq<char>, p: int)
    requires
        decimal_at(s, p),
    ensures
        all_digits(decimal_digits(s, p)),
{
    let d = decimal_digits(s, p);
    assert forall|i: int| 0 <= i < d.len() implies #[trigger] is_digit(d[i]) by {
        if i < p {
            assert(d[i] == s.take(p)[i]);
        } else {
            assert(d[i] == s.skip(p + 1)[i - p]);
        }
    }
}

pub proof fn lemma_pow10_pos(n: nat)
    ensures
        pow10(n) > 0,
    decreases n,
{
    if n > 0 {
        lemma_pow10_pos((n - 1) as nat);
    }
}

pub proof fn lemma_pow10_mono(a: nat, b: nat)
    requires
        a <= b,
    ensures
        pow10(a) <= pow10(b),
    decreases b,
{
    if a < b {
        lemma_pow10_mono(a, (b - 1) as nat);
        lemma_pow10_pos((b - 1) as nat);
    }
}

pub proof fn lemma_digits_value_bound(s: Seq<char>)
    requires
        all_digits(s),
    ensures
        digits_value(s) < pow10(s.len()),
    decreases s.len(),
{
    if s.len() > 0 {
        let t = s.drop_last();
        assert(all_digits(t)) by {
            assert forall|i: int| 0 <= i < t.len() implies #[trigger] is_digit(t[i]) by {
                assert(is_digit(s[i]));
            }
        }
        lemma_digits_value_bound(t);
        assert(is_digit(s[s.len() - 1]));
    }
}

/// Reads a positive scale factor written as a decimal numeral: digits, then
/// optionally a point and more digits, at most eighteen digits in all.
/// Anything else, and a value of zero, gives `None`.
pub fn parse_scale(s: &str) -> (r: Option<Scale>)
    ensures
        r is None <==> !exists|p: int| #[trigger] positive_scale_at(s@, p),
        r matches Some(sc) ==> sc@.0 == s@ && scale_parts(s@, sc@.1, sc@.2),
{
    let n = s.unicode_len();
    let mut p: usize = 0;
    while p < n && is_digit_exec(s.get_char(p))
        invariant
            n == s@.len(),
            p <= n,
            all_digits(s@.take(p as int)),
        decreases n - p,
    {
        proof {
            assert(s@.take(p + 1) =~= s@.take(p as int).push(s@[p as int]));
        }
        p = p + 1;
    }
    // every candidate split other than `p` fails
    assert forall|q: int| #[trigger] decimal_at(s@, q) implies q == p by {
        if q < p {
            assert(s@.take(p as int)[q] == s@[q]);
            assert(is_digit(s@.take(p as int)[q]));
        } else if q > p {
            assert(s@.take(q)[p as int] == s@[p as int]);
            assert(is_digit(s@.take(q)[p as int]));
        }
    }
    if p == 0 {
        return None;
    }
    let m: usize;
    if p < n {
        if s.get_char(p) != '.' || p + 1 >= n {
            return None;
        }
        let mut k: usize = p + 1;
        while k < n
            invariant
                n == s@.len(),
                p + 1 <= k <= n,
                forall|q: int| #[trigger] decimal_at(s@, q) ==> q == p,
                forall|j: int| p + 1 <= j < k ==> #[trigger] is_digit(s@[j]),
            decreases n - k,
        {
            if !is_digit_exec(s.get_char(k)) {
                assert(!is_digit(s@.skip(p + 1)[k - p - 1]));
                assert(!decimal_at(s@, p as int));
                assert(forall|q: int| #[trigger] positive_scale_at(s@, q) ==> decimal_at(s@, q));
                return None;
            }
            k = k + 1;
        }
        assert(all_digits(s@.skip(p + 1 as int))) by {
            assert forall|i: int| 0 <= i < s@.skip(p + 1 as int).len() implies #[trigger] is_digit(
                s@.skip(p + 1 as int)[i],
            ) by {
                assert(is_digit(s@[p + 1 + i]));
            }
        }
        m = n - 1;
    } else {
        m = n;
    }
    assert(decimal_at(s@, p as int));
    let ghost d = decimal_digits(s@, p as int);
    assert(d.len() == m);
    if m > MAX_SCALE_DIGITS {
        return None;
    }
    proof {
        lemma_decimal_digits_are_digits(s@, p as int);
    }
    let mut num: u64 = 0;
    let mut k: usize = 0;
    while k < m
        invariant
            n == s@.len(),
            d == decimal_digits(s@, p as int),
            d.len() == m,
            m <= MAX_SCALE_DIGITS,
            p <= n,
            p == n || m == n - 1,
            all_digits(d),
            k <= m,
            num == digits_value(d.take(k as int)),
        decreases m - k,
    {
        let idx: usize = if k < p { k } else { k + 1 };
        assert(d[k as int] == s@[idx as int]);
        let c = s.get_char(idx);
        proof {
            assert(is_digit(d[k as int]));
            lemma_digits_value_bound(d.take(k as int));
            lemma_pow10_mono(k as nat, 17);
            reveal_with_fuel(pow10, 18);
            assert(d.take(k + 1).drop_last() =~= d.take(k as int));
        }
        num = num * 10 + (c as u32 - '0' as u32) as u64;
        k = k + 1;
    }
    assert(d.take(m as int) =~= d);
    if num == 0 {
        return None;
    }
    let mut den: u64 = 1;
    if p < n {
        let e: usize = n - p - 1;
        let mut j: usize = 0;
        while j < e
            invariant
                e <= MAX_SCALE_DIGITS,
                j <= e,
                den == pow10(j as nat),
            decreases e - j,
        {
            proof {
                lemma_pow10_mono(j as nat, 17);
                reveal_with_fuel(pow10, 18);
            }
            den = den * 10;
            j = j + 1;
        }
    }
    assert(positive_scale_at(s@, p as int));
    Some(Scale { text: String::from_str(s), num, den })
}

impl Scale {
    /// The factor used when none is given: `0.75`.
    pub fn standard() -> (r: Scale)
        ensures
            r@ == ("0.75"@, 75nat, 100nat),
    {
        let text = String::from_str("0.75");
        proof {
            reveal_strlit("0.75");
            let s = text@;
            assert(s.take(1) =~= seq!['0']);
            assert(s.skip(2) =~= seq!['7', '5']);
            assert(decimal_at(s, 1));
            let d = decimal_digits(s, 1);
            assert(d =~= seq!['0', '7', '5']);
            assert(d.drop_last() =~= seq!['0', '7']);
            assert(d.drop_last().drop_last() =~= seq!['0']);
            assert(d.drop_last().drop_last().drop_last() =~= Seq::<char>::empty());
            assert(digit_value('0') == 0 && digit_value('7') == 7 && digit_value('5') == 5);
            let e = d.drop_last().drop_last();
            assert(e.len() == 1 && e.last() == '0');
            assert(digits_value(e.drop_last()) == 0);
            assert(digits_value(e) == 0);
            assert(digits_value(d.drop_last()) == 7);
            assert(digits_value(d) == 75);
            reveal_with_fuel(pow10, 3);
            assert(positive_scale_at(s, 1));
        }
        Scale { text, num: 75, den: 100 }
    }
}

/// Even-truncated scaled dimension: `2 * floor(d * s / 2)` for a rational scale `s = num / den`.
pub open spec fn scaled_spec(d: int, num: int, den: int) -> int {
    2 * ((d * num) / (2 * den))
}

/// Even-truncated scaled dimension: `2 * floor(d * s / 2)` for the exact scale `s = num / den`.
pub fn scaled(d: u64, sc: &Scale) -> (r: u128)
    ensures
        r == scaled_spec(d as int, sc@.1 as int, sc@.2 as int),
{
    let num = sc.num();
    let den = sc.den();
    proof {
        lemma_scale_parts_bounds(sc@.0, sc@.1, sc@.2);
        reveal_with_fuel(pow10, 19);
        assert((d as int) * (num as int) <= 0xffff_ffff_ffff_ffff * 1000000000000000000) by (nonlinear_arith)
            requires
                d <= 0xffff_ffff_ffff_ffff,
                num <= 1000000000000000000,
        ;
    }
    let prod: u128 = (d as u128) * (num as u128);
    2 * (prod / (2 * den as u128))
}

/// The scaled dimension is always even, and never larger than the exact product `d * s`.
pub proof fn lemma_scaled_even(d: int, num: int, den: int)
    requires
        d > 0,
        num > 0,
        den > 0,
    ensures
        scaled_spec(d, num, den) % 2 == 0,
        0 <= scaled_spec(d, num, den),
        scaled_spec(d, num, den) * den <= d * num,
{
    let q = (d * num) / (2 * den);
    assert(d * num >= 0) by (nonlinear_arith)
        requires
            d > 0,
            num > 0,
    ;
    assert(q >= 0 && q * (2 * den) <= d * num) by (nonlinear_arith)
        requires
            d * num >= 0,
            den > 0,
            q == (d * num) / (2 * den),
    ;
    assert((2 * q) * den == q * (2 * den)) by (nonlinear_arith);
}

fn is_digit_exec(c: char) -> (r: bool)
    ensures
        r == is_digit(c),
{
    '0' <= c && c <= '9'
}

} // verus!
