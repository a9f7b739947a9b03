//! Decimal text: rendering of integers and fixed-point decimals, and
//! parsing of the numeric columns of the feed.

use vstd::prelude::*;
use vstd::string::StrSliceExecFns;
use vstd::string::StringExecFns;
use crate::text::push_char;

verus! {

/// The character of decimal digit `d`.
pub open spec fn digit_char(d: int) -> char {
    seq!['0', '1', '2', '3', '4', '5', '6', '7', '8', '9'][d]
}

/// Decimal digits of `n`, most significant first, without leading zeros.
pub open spec fn digits(n: nat) -> Seq<char>
    decreases n,
{
    if n < 10 {
        seq![digit_char(n as int)]
    } else {
        digits(n / 10).push(digit_char((n % 10) as int))
    }
}

/// Decimal text of `v`, with a leading `-` when negative.
pub open spec fn signed_digits(v: int) -> Seq<char> {
    if v < 0 {
        seq!['-'] + digits((-v) as nat)
    } else {
        digits(v as nat)
    }
}

/// Ten to the power `k`.
pub open spec fn pow10(k: nat) -> nat
    decreases k,
{
    if k == 0 {
        1
    } else {
        10 * pow10((k - 1) as nat)
    }
}

fn digit_to_char(d: u128) -> (c: char)
    requires
        d < 10,
    ensures
        c == digit_char(d as int),
{
    if d == 0 {
        '0'
    } else if d == 1 {
        '1'
    } else if d == 2 {
        '2'
    } else if d == 3 {
        '3'
    } else if d == 4 {
        '4'
    } else if d == 5 {
        '5'
    } else if d == 6 {
        '6'
    } else if d == 7 {
        '7'
    } else if d == 8 {
        '8'
    } else {
        '9'
    }
}

/// Appends the decimal digits of `n`.
pub fn push_digits(out: &mut String, n: u128)
    ensures
        final(out)@ == old(out)@ + digits(n as nat),
    decreases n,
{
    if n >= 10 {
        push_digits(out, n / 10);
    }
    push_char(out, digit_to_char(n % 10));
    proof {
        if n >= 10 {
            assert(digits(n as nat) == digits((n / 10) as nat).push(digit_char((n % 10) as int)));
        }
    }
    assert(final(out)@ =~= old(out)@ + digits(n as nat));
}

/// Appends the decimal text of `v`, with a leading `-` when negative.
pub fn push_signed(out: &mut String, v: i128)
    ensures
        final(out)@ == old(out)@ + signed_digits(v as int),
{
    if v < 0 {
        push_char(out, '-');
        let m: u128 = ((-(v + 1)) as u128) + 1;
        push_digits(out, m);
    } else {
        push_digits(out, v as u128);
    }
    assert(final(out)@ =~= old(out)@ + signed_digits(v as int));
}

/// A fixed-point decimal number: `mantissa / 10^scale`.
#[derive(Clone, Copy, Debug, PartialEq, Eq, Structural)]
pub struct Decimal {
    pub mantissa: i128,
    pub scale: u32,
}

impl Decimal {
    /// The scale stays within what a 128-bit mantissa can carry.
    pub open spec fn wf(&self) -> bool {
        self.scale <= 38
    }

    /// Whether the number is below zero.
    pub fn is_negative(&self) -> (r: bool)
        ensures
            r == (self.mantissa < 0),
    {
        self.mantissa < 0
    }
}

pub open spec fn abs(v: int) -> nat {
    if v < 0 {
        (-v) as nat
    } else {
        v as nat
    }
}

/// `a / 10^k` with trailing zero digits of the fraction removed.
pub open spec fn normal(a: nat, k: nat) -> (nat, nat)
    decreases k,
{
    if k > 0 && a % 10 == 0 {
        normal(a / 10, (k - 1) as nat)
    } else {
        (a, k)
    }
}

/// `d` with zeros in front up to length `k`.
pub open spec fn zero_padded(d: Seq<char>, k: nat) -> Seq<char> {
    if d.len() < k {
        Seq::new((k - d.len()) as nat, |i: int| '0') + d
    } else {
        d
    }
}

/// Text of `a / 10^k`: integer digits, then a point and exactly `k`
/// fraction digits when `k > 0`.
pub open spec fn unsigned_text(a: nat, k: nat) -> Seq<char> {
    if k == 0 {
        digits(a)
    } else {
        digits(a / pow10(k)) + seq!['.'] + zero_padded(digits(a % pow10(k)), k)
    }
}

/// Shortest decimal text of `m / 10^k`: no trailing zeros in the fraction,
/// and no point at all for a whole number.
pub open spec fn decimal_text(m: int, k: nat) -> Seq<char> {
    let n = normal(abs(m), k);
    (if m < 0 {
        seq!['-']
    } else {
        seq![]
    }) + unsigned_text(n.0, n.1)
}

proof fn lemma_pow10_bound(k: nat)
    requires
        k <= 38,
    ensures
        1 <= pow10(k) <= pow10(38),
{
    lemma_pow10_mono(k, 38);
    lemma_pow10_mono(0, k);
}

pub(crate) proof fn lemma_pow10_mono(j: nat, k: nat)
    requires
        j <= k,
    ensures
        pow10(j) <= pow10(k),
    decreases k,
{
    if j < k {
        lemma_pow10_mono(j, (k - 1) as nat);
        assert(pow10(k) == 10 * pow10((k - 1) as nat));
    }
}

pub(crate) proof fn lemma_pow10_38()
    ensures
        pow10(38) == 100000000000000000000000000000000000000nat,
        pow10(36) == 1000000000000000000000000000000000000nat,
{
    reveal_with_fuel(pow10, 39);
}

/// Ten to the power `k`, for `k <= 38`.
pub(crate) fn pow10_exec(k: u32) -> (r: u128)
    requires
        k <= 38,
    ensures
        r == pow10(k as nat),
{
    let mut r: u128 = 1;
    let mut i: u32 = 0;
    while i < k
        invariant
            i <= k <= 38,
            r == pow10(i as nat),
        decreases k - i,
    {
        proof {
            lemma_pow10_bound((i + 1) as nat);
            lemma_pow10_38();
        }
        r = r * 10;
        i = i + 1;
    }
    r
}

/// Appends `n` zeros.
fn push_zeros(out: &mut String, n: usize)
    ensures
        final(out)@ == old(out)@ + Seq::new(n as nat, |i: int| '0'),
{
    let mut i: usize = 0;
    while i < n
        invariant
            i <= n,
            out@ == old(out)@ + Seq::new(i as nat, |j: int| '0'),
        decreases n - i,
    {
        push_char(out, '0');
        i = i + 1;
        assert(out@ =~= old(out)@ + Seq::new(i as nat, |j: int| '0'));
    }
}

/// Appends the shortest decimal text of `d`.
pub fn push_decimal(out: &mut String, d: Decimal)
    requires
        d.wf(),
    ensures
        final(out)@ == old(out)@ + decimal_text(d.mantissa as int, d.scale as nat),
{
    let mut a: u128 = if d.mantissa < 0 {
        ((-(d.mantissa + 1)) as u128) + 1
    } else {
        d.mantissa as u128
    };
    let mut k: u32 = d.scale;
    while k > 0 && a % 10 == 0
        invariant
            k <= 38,
            normal(a as nat, k as nat) == normal(abs(d.mantissa as int), d.scale as nat),
        decreases k,
    {
        a = a / 10;
        k = k - 1;
    }
    let ghost start = out@;
    if d.mantissa < 0 {
        push_char(out, '-');
    }
    let ghost mid = out@;
    if k == 0 {
        push_digits(out, a);
    } else {
        let p = pow10_exec(k);
        proof {
            lemma_pow10_bound(k as nat);
        }
        push_digits(out, a / p);
        push_char(out, '.');
        let mut t = String::new();
        push_digits(&mut t, a % p);
        let len = t.as_str().unicode_len();
        if len < k as usize {
            push_zeros(out, k as usize - len);
        }
        out.append(t.as_str());
        assert(out@ =~= mid + unsigned_text(a as nat, k as nat));
    }
    assert(final(out)@ =~= old(out)@ + decimal_text(d.mantissa as int, d.scale as nat));
}

/// Most significant digits a number of the feed may have.
pub const MAX_DIGITS: usize = 36;

pub open spec fn is_digit(c: char) -> bool {
    '0' <= c && c <= '9'
}

pub open spec fn digit_val(c: char) -> int {
    (c as u32) - ('0' as u32)
}

pub open spec fn all_digits(s: Seq<char>) -> bool {
    forall|i: int| 0 <= i < s.len() ==> is_digit(#[trigger] s[i])
}

/// Value of a string of decimal digits.
pub open spec fn digits_value(s: Seq<char>) -> nat
    decreases s.len(),
{
    if s.len() == 0 {
        0
    } else {
        (digits_value(s.drop_last()) * 10 + digit_val(s.last())) as nat
    }
}

pub open spec fn has_sign(s: Seq<char>) -> bool {
    s.len() > 0 && (s[0] == '+' || s[0] == '-')
}

/// The text after an optional leading sign.
pub open spec fn unsigned_part(s: Seq<char>) -> Seq<char> {
    if has_sign(s) {
        s.drop_first()
    } else {
        s
    }
}

/// Number of leading `0` characters.
pub open spec fn zero_count(s: Seq<char>) -> int
    decreases s.len(),
{
    if s.len() > 0 && s[0] == '0' {
        1 + zero_count(s.drop_first())
    } else {
        0
    }
}

/// The digits after the leading zeros.
pub open spec fn significant(s: Seq<char>) -> Seq<char> {
    s.skip(zero_count(s))
}

/// An optional sign, then at least one decimal digit, with at most
/// `MAX_DIGITS` of them after the leading zeros.
pub open spec fn int_syntax(s: Seq<char>) -> bool {
    let b = unsigned_part(s);
    1 <= b.len() && all_digits(b) && significant(b).len() <= MAX_DIGITS
}

pub open spec fn int_value(s: Seq<char>) -> int {
    if s.len() > 0 && s[0] == '-' {
        -digits_value(unsigned_part(s))
    } else {
        digits_value(unsigned_part(s)) as int
    }
}

/// Position of the first `.`, or the length when there is none.
pub open spec fn dot_index(s: Seq<char>) -> int
    decreases s.len(),
{
    if s.len() == 0 || s[0] == '.' {
        0
    } else {
        1 + dot_index(s.drop_first())
    }
}

/// Digits before the point.
pub open spec fn int_digits(s: Seq<char>) -> Seq<char> {
    unsigned_part(s).take(dot_index(unsigned_part(s)))
}

/// Digits after the point.
pub open spec fn frac_digits(s: Seq<char>) -> Seq<char> {
    let b = unsigned_part(s);
    if dot_index(b) < b.len() {
        b.skip(dot_index(b) + 1)
    } else {
        seq![]
    }
}

/// An optional sign, digits, and optionally a point followed by digits;
/// 1 to `MAX_DIGITS` digits in all.
pub open spec fn decimal_syntax(s: Seq<char>) -> bool {
    &&& all_digits(int_digits(s))
    &&& all_digits(frac_digits(s))
    &&& 1 <= int_digits(s).len() + frac_digits(s).len() <= MAX_DIGITS
}

pub open spec fn decimal_value(s: Seq<char>) -> Decimal {
    let m = digits_value(int_digits(s) + frac_digits(s));
    Decimal {
        mantissa: (if s.len() > 0 && s[0] == '-' {
            -m
        } else {
            m as int
        }) as i128,
        scale: frac_digits(s).len() as u32,
    }
}

proof fn lemma_digits_value_bound(s: Seq<char>)
    requires
        all_digits(s),
    ensures
        digits_value(s) < pow10(s.len()),
    decreases s.len(),
{
    if s.len() > 0 {
        lemma_digits_value_bound(s.drop_last());
        assert(is_digit(s.last()));
    }
}

/// The elements of `v` from `lo` up to `hi`.
pub(crate) fn copy_range(v: &Vec<char>, lo: usize, hi: usize) -> (r: Vec<char>)
    requires
        lo <= hi <= v@.len(),
    ensures
        r@ == v@.subrange(lo as int, hi as int),
{
    let mut r: Vec<char> = Vec::new();
    let mut i: usize = lo;
    while i < hi
        invariant
            lo <= i <= hi <= v@.len(),
            r@ == v@.subrange(lo as int, i as int),
        decreases hi - i,
    {
        r.push(v[i]);
        i = i + 1;
        assert(r@ =~= v@.subrange(lo as int, i as int));
    }
    r
}

/// Value of `d` when it holds only digits, and at most `MAX_DIGITS` of them.
fn digits_exec(d: &Vec<char>) -> (r: Option<u128>)
    ensures
        r is Some <==> (all_digits(d@) && d@.len() <= MAX_DIGITS),
        r matches Some(v) ==> v == digits_value(d@) && v < pow10(d@.len()),
{
    if d.len() > MAX_DIGITS {
        return None;
    }
    let mut v: u128 = 0;
    let mut i: usize = 0;
    while i < d.len()
        invariant
            i <= d@.len() <= MAX_DIGITS,
            all_digits(d@.take(i as int)),
            v == digits_value(d@.take(i as int)),
        decreases d@.len() - i,
    {
        let c = d[i];
        if !('0' <= c && c <= '9') {
            return None;
        }
        proof {
            lemma_digits_value_bound(d@.take(i as int));
            lemma_pow10_mono(i as nat, 36);
            lemma_pow10_38();
            assert(d@.take(i + 1).drop_last() =~= d@.take(i as int));
        }
        v = v * 10 + ((c as u32) - ('0' as u32)) as u128;
        i = i + 1;
        assert(all_digits(d@.take(i as int))) by {
            assert forall|j: int| 0 <= j < i implies is_digit(#[trigger] d@.take(i as int)[j]) by {
                if j < i - 1 {
                    assert(d@.take(i - 1)[j] == d@.take(i as int)[j]);
                }
            }
        }
    }
    assert(d@.take(i as int) =~= d@);
    proof {
        lemma_digits_value_bound(d@);
    }
    Some(v)
}

proof fn lemma_leading_zero(s: Seq<char>)
    ensures
        digits_value(seq!['0'] + s) == digits_value(s),
    decreases s.len(),
{
    if s.len() > 0 {
        assert((seq!['0'] + s).drop_last() =~= seq!['0'] + s.drop_last());
        assert((seq!['0'] + s).last() == s.last());
        lemma_leading_zero(s.drop_last());
        let t = seq!['0'] + s;
        assert(digits_value(t) == (digits_value(t.drop_last()) * 10 + digit_val(t.last())) as nat);
        assert(digits_value(s) == (digits_value(s.drop_last()) * 10 + digit_val(s.last())) as nat);
    } else {
        assert((seq!['0'] + s).drop_last() =~= seq![]);
        assert((seq!['0'] + s).last() == '0');
        assert(digit_val('0') == 0);
        let t = seq!['0'] + s;
        assert(digits_value(t) == (digits_value(t.drop_last()) * 10 + digit_val(t.last())) as nat);
    }
}

proof fn lemma_zeros_prefix(b: Seq<char>, z: int)
    requires
        0 <= z <= b.len(),
        forall|i: int| 0 <= i < z ==> b[i] == '0',
    ensures
        digits_value(b) == digits_value(b.skip(z)),
    decreases z,
{
    if z > 0 {
        let r = b.drop_first();
        assert(b[0] == '0');
        assert(b =~= seq!['0'] + r);
        assert forall|i: int| 0 <= i < z - 1 implies r[i] == '0' by {
            assert(r[i] == b[i + 1]);
        }
        lemma_leading_zero(r);
        assert(r.skip(z - 1) =~= b.skip(z));
        lemma_zeros_prefix(r, z - 1);
    } else {
        assert(b.skip(0) =~= b);
    }
}

/// Reads an integer: an optional sign, then digits, at most `MAX_DIGITS`
/// of them after the leading zeros.
pub fn parse_int(s: &Vec<char>) -> (r: Option<i128>)
    ensures
        r is Some <==> int_syntax(s@),
        r matches Some(v) ==> v == int_value(s@),
{
    let start: usize = if s.len() > 0 && (s[0] == '+' || s[0] == '-') {
        1
    } else {
        0
    };
    let b = copy_range(s, start, s.len());
    assert(b@ =~= unsigned_part(s@));
    if b.len() == 0 {
        return None;
    }
    let mut z: usize = 0;
    assert(b@.skip(0) =~= b@);
    while z < b.len() && b[z] == '0'
        invariant
            z <= b@.len(),
            zero_count(b@) == z + zero_count(b@.skip(z as int)),
            forall|i: int| 0 <= i < z ==> b@[i] == '0',
        decreases b@.len() - z,
    {
        assert(b@.skip(z as int).drop_first() =~= b@.skip(z + 1));
        assert(b@.skip(z as int)[0] == b@[z as int]);
        z = z + 1;
    }
    assert(z < b@.len() ==> b@.skip(z as int)[0] == b@[z as int]);
    assert(zero_count(b@) == z);
    let c = copy_range(&b, z, b.len());
    assert(c@ =~= b@.skip(z as int));
    proof {
        lemma_zeros_prefix(b@, z as int);
    }
    match digits_exec(&c) {
        Some(v) => {
            proof {
                lemma_pow10_mono(c@.len(), 36);
                lemma_pow10_38();
                assert forall|i: int| 0 <= i < b@.len() implies is_digit(#[trigger] b@[i]) by {
                    if i >= z {
                        assert(b@[i] == c@[i - z]);
                    }
                }
            }
            if s[0] == '-' {
                Some(-(v as i128))
            } else {
                Some(v as i128)
            }
        },
        None => {
            proof {
                if all_digits(b@) {
                    assert forall|i: int| 0 <= i < c@.len() implies is_digit(#[trigger] c@[i]) by {
                        assert(c@[i] == b@[i + z]);
                    }
                }
            }
            None
        },
    }
}

/// Reads a decimal number: an optional sign, digits, and optionally a
/// point and more digits, with 1 to `MAX_DIGITS` digits in all.
pub fn parse_decimal(s: &Vec<char>) -> (r: Option<Decimal>)
    ensures
        r is Some <==> decimal_syntax(s@),
        r matches Some(d) ==> d == decimal_value(s@) && d.wf(),
{
    let start: usize = if s.len() > 0 && (s[0] == '+' || s[0] == '-') {
        1
    } else {
        0
    };
    let b = copy_range(s, start, s.len());
    assert(b@ =~= unsigned_part(s@));
    let mut p: usize = 0;
    assert(b@.skip(0) =~= b@);
    while p < b.len() && b[p] != '.'
        invariant
            p <= b@.len(),
            dot_index(b@) == p + dot_index(b@.skip(p as int)),
        decreases b@.len() - p,
    {
        assert(b@.skip(p as int).drop_first() =~= b@.skip(p + 1));
        p = p + 1;
    }
    assert(p < b@.len() ==> b@.skip(p as int)[0] == b@[p as int]);
    assert(dot_index(b@) == p);
    let ip = copy_range(&b, 0, p);
    let fp = if p < b.len() {
        copy_range(&b, p + 1, b.len())
    } else {
        Vec::new()
    };
    assert(ip@ =~= int_digits(s@));
    assert(fp@ =~= frac_digits(s@));
    if ip.len() + fp.len() == 0 || ip.len() + fp.len() > MAX_DIGITS {
        return None;
    }
    let mut all = copy_range(&ip, 0, ip.len());
    let mut j: usize = 0;
    while j < fp.len()
        invariant
            j <= fp@.len(),
            all@ == ip@ + fp@.take(j as int),
        decreases fp@.len() - j,
    {
        all.push(fp[j]);
        j = j + 1;
        assert(all@ =~= ip@ + fp@.take(j as int));
    }
    assert(fp@.take(j as int) =~= fp@);
    match digits_exec(&all) {
        Some(v) => {
            proof {
                lemma_pow10_mono(all@.len(), 36);
                lemma_pow10_38();
                if !all_digits(ip@) {
                    let k = choose|k: int| 0 <= k < ip@.len() && !is_digit(ip@[k]);
                    assert(all@[k] == ip@[k]);
                }
                if !all_digits(fp@) {
                    let k = choose|k: int| 0 <= k < fp@.len() && !is_digit(fp@[k]);
                    assert(all@[ip@.len() + k] == fp@[k]);
                }
            }
            let m: i128 = if s[0] == '-' {
                -(v as i128)
            } else {
                v as i128
            };
            Some(Decimal { mantissa: m, scale: fp.len() as u32 })
        },
        None => {
            proof {
                if all_digits(ip@) && all_digits(fp@) {
                    assert forall|k: int| 0 <= k < all@.len() implies is_digit(#[trigger] all@[k]) by {
                        if k < ip@.len() {
                            assert(all@[k] == ip@[k]);
                        } else {
                            assert(all@[k] == fp@[k - ip@.len()]);
                        }
                    }
                }
            }
            None
        },
    }
}

} // verus!
