use num_bigint::BigUint;
use vstd::prelude::*;

verus! {

/// The output alphabet: the printable ASCII characters `' '` to `'~'`.
pub const OUT_MIN: u8 = 32;

pub const OUT_MAX: u8 = 126;

pub const OUT_RADIX: u32 = 95;

/// Output digits written as printable bytes.
pub open spec fn digits_to_bytes(d: Seq<int>) -> Seq<u8> {
    d.map_values(|x: int| (x + OUT_MIN) as u8)
}

/// Printable bytes read as output digits.
pub open spec fn bytes_to_digits(b: Seq<u8>) -> Seq<int> {
    b.map_values(|x: u8| x - OUT_MIN)
}

/// Every value lies in `[lo, hi]`.
pub open spec fn all_within(s: Seq<int>, lo: int, hi: int) -> bool {
    forall|i: int| 0 <= i < s.len() ==> lo <= #[trigger] s[i] <= hi
}

/// Every byte is a printable character of the output alphabet.
pub open spec fn all_printable(b: Seq<u8>) -> bool {
    forall|i: int| 0 <= i < b.len() ==> OUT_MIN <= #[trigger] b[i] <= OUT_MAX
}


/// The radix of one limb of an arbitrary-precision number.
pub open spec fn limb_radix() -> int {
    0x1_0000_0000
}

/// The number that little-endian limbs in radix 2^32 denote.
pub open spec fn limbs_value(s: Seq<u32>) -> nat
    decreases s.len(),
{
    if s.len() == 0 {
        0
    } else {
        (s[0] as nat + limb_radix() * limbs_value(s.drop_first())) as nat
    }
}

/// The number that a little-endian digit sequence in `base` denotes.
pub open spec fn digits_value(d: Seq<int>, base: int) -> int
    decreases d.len(),
{
    if d.len() == 0 {
        0
    } else {
        d[0] + base * digits_value(d.drop_first(), base)
    }
}

/// The shortest little-endian digits of `n` in `base`: empty for zero,
/// otherwise ending in a non-zero digit.
pub open spec fn to_digits(n: nat, base: nat) -> Seq<int>
    decreases n
    via to_digits_decreases
{
    if n == 0 || base < 2 {
        seq![]
    } else {
        seq![(n % base) as int] + to_digits(n / base, base)
    }
}

#[via_fn]
proof fn to_digits_decreases(n: nat, base: nat) {
    if n != 0 && base >= 2 {
        assert(n / base < n) by (nonlinear_arith)
            requires
                n > 0,
                base >= 2,
        ;
    }
}

/// The digits of a slice of machine integers as mathematical integers.
pub open spec fn ints(s: Seq<i32>) -> Seq<int> {
    s.map_values(|x: i32| x as int)
}

/// Every digit lies in `[0, base)`.
pub open spec fn digits_valid(d: Seq<int>, base: int) -> bool {
    forall|i: int| 0 <= i < d.len() ==> 0 <= #[trigger] d[i] < base
}

/// `d` with its most significant zero digits removed.
pub open spec fn strip_high_zeros(d: Seq<int>) -> Seq<int>
    decreases d.len(),
{
    if d.len() == 0 {
        d
    } else if d.last() == 0 {
        strip_high_zeros(d.drop_last())
    } else {
        d
    }
}

/// Relies on `BigUint::from_slice`, `Mul<u32>` and `to_u32_digits` of
/// num-bigint: the limbs of the product of the number and `k`.
#[verifier::external_body]
fn big_mul_small(a: &Vec<u32>, k: u32) -> (r: Vec<u32>)
    ensures
        limbs_value(r@) == limbs_value(a@) * k,
{
    (BigUint::from_slice(a) * k).to_u32_digits()
}

/// Relies on `BigUint::from_slice`, `Add<u32>` and `to_u32_digits` of
/// num-bigint: the limbs of the sum of the number and `k`.
#[verifier::external_body]
fn big_add_small(a: &Vec<u32>, k: u32) -> (r: Vec<u32>)
    ensures
        limbs_value(r@) == limbs_value(a@) + k,
{
    (BigUint::from_slice(a) + k).to_u32_digits()
}

/// Relies on `BigUint::from_slice`, `Div<u32>` and `to_u32_digits` of
/// num-bigint: the limbs of the floor quotient; a zero divisor panics.
#[verifier::external_body]
fn big_div_small(a: &Vec<u32>, k: u32) -> (r: Vec<u32>)
    requires
        k > 0,
    ensures
        limbs_value(r@) == limbs_value(a@) / (k as nat),
{
    (BigUint::from_slice(a) / k).to_u32_digits()
}

/// Relies on `BigUint::from_slice`, `Rem<u32>` and `to_u32_digits` of
/// num-bigint: the limbs of the remainder; a zero divisor panics.
#[verifier::external_body]
fn big_rem_small(a: &Vec<u32>, k: u32) -> (r: Vec<u32>)
    requires
        k > 0,
    ensures
        limbs_value(r@) == limbs_value(a@) % (k as nat),
{
    (&BigUint::from_slice(a) % k).to_u32_digits()
}

proof fn lemma_limbs_zero(s: Seq<u32>)
    ensures
        limbs_value(s) == 0 <==> forall|i: int| 0 <= i < s.len() ==> s[i] == 0,
    decreases s.len(),
{
    if s.len() > 0 {
        lemma_limbs_zero(s.drop_first());
        if limbs_value(s) == 0 {
            assert forall|i: int| 0 <= i < s.len() implies s[i] == 0 by {
                if i > 0 {
                    assert(s.drop_first()[i - 1] == s[i]);
                }
            }
        }
        if forall|i: int| 0 <= i < s.len() ==> s[i] == 0 {
            assert forall|i: int| 0 <= i < s.drop_first().len() implies s.drop_first()[i] == 0 by {
                assert(s.drop_first()[i] == s[i + 1]);
            }
        }
    }
}

fn limbs_are_zero(s: &Vec<u32>) -> (r: bool)
    ensures
        r == (limbs_value(s@) == 0),
{
    proof {
        lemma_limbs_zero(s@);
    }
    let mut i: usize = 0;
    while i < s.len()
        invariant
            i <= s.len(),
            forall|j: int| 0 <= j < i ==> s@[j] == 0,
        decreases s.len() - i,
    {
        if s[i] != 0 {
            proof {
                lemma_limbs_zero(s@);
            }
            assert(s@[i as int] != 0);
            return false;
        }
        i += 1;
    }
    true
}

fn limbs_low(s: &Vec<u32>) -> (r: u32)
    requires
        limbs_value(s@) < limb_radix(),
    ensures
        r as nat == limbs_value(s@),
{
    if s.len() == 0 {
        0
    } else {
        proof {
            let rest = limbs_value(s@.drop_first());
            assert(rest == 0) by (nonlinear_arith)
                requires
                    s@[0] as nat + limb_radix() * rest < limb_radix(),
                    rest >= 0,
            ;
        }
        s[0]
    }
}

/// Why a call of either codec or of the translator failed.
#[derive(Clone, Copy, Debug, PartialEq, Eq, Structural)]
pub enum CodecError {
    /// An input integer lies outside the codec's legal range.
    OutOfRange,
    /// A digit is negative or not below its declared base.
    InvalidDigit,
    /// Encoded bytes that no `encode` call can have produced.
    MalformedInput,
}

pub proof fn lemma_digits_value_nonneg(d: Seq<int>, base: int)
    requires
        base >= 2,
        digits_valid(d, base),
    ensures
        digits_value(d, base) >= 0,
    decreases d.len(),
{
    if d.len() > 0 {
        assert(digits_valid(d.drop_first(), base)) by {
            assert forall|i: int| 0 <= i < d.drop_first().len() implies 0 <= #[trigger] d.drop_first()[i] < base by {
                assert(d.drop_first()[i] == d[i + 1]);
            }
        }
        lemma_digits_value_nonneg(d.drop_first(), base);
        assert(0 <= d[0]);
        assert(base * digits_value(d.drop_first(), base) >= 0) by (nonlinear_arith)
            requires
                base >= 2,
                digits_value(d.drop_first(), base) >= 0,
        ;
    }
}

proof fn lemma_digits_value_suffix(d: Seq<int>, base: int, i: int)
    requires
        0 <= i < d.len(),
    ensures
        digits_value(d.subrange(i, d.len() as int), base) == d[i] + base * digits_value(
            d.subrange(i + 1, d.len() as int),
            base,
        ),
{
    assert(d.subrange(i, d.len() as int).drop_first() =~= d.subrange(i + 1, d.len() as int));
}

proof fn lemma_to_digits_step(n: nat, base: nat)
    requires
        n > 0,
        base >= 2,
    ensures
        to_digits(n, base) == seq![(n % base) as int] + to_digits(n / base, base),
{
}

/// Re-expresses the little-endian digits `input` of base `from` as the
/// shortest little-endian digits of the same number in base `to`.
/// A digit outside `[0, from)` is refused with `InvalidDigit`.
pub fn translate_radix(input: &[i32], from: u32, to: u32) -> (r: Result<Vec<i32>, CodecError>)
    requires
        2 <= from,
        2 <= to <= 0x8000_0000,
    ensures
        match r {
            Ok(v) => digits_valid(ints(input@), from as int) && ints(v@) == to_digits(
                digits_value(ints(input@), from as int) as nat,
                to as nat,
            ),
            Err(e) => !digits_valid(ints(input@), from as int) && e == CodecError::InvalidDigit,
        },
{
    let ghost d = ints(input@);
    let mut k: usize = 0;
    while k < input.len()
        invariant
            k <= input.len(),
            d == ints(input@),
            forall|j: int| 0 <= j < k ==> 0 <= #[trigger] d[j] < from,
        decreases input.len() - k,
    {
        if input[k] < 0 || input[k] as u32 >= from {
            assert(!(0 <= d[k as int] < from));
            return Err(CodecError::InvalidDigit);
        }
        k += 1;
    }
    assert(digits_valid(d, from as int));
    let mut num: Vec<u32> = Vec::new();
    let mut i: usize = input.len();
    while i > 0
        invariant
            i <= input.len(),
            d == ints(input@),
            digits_valid(d, from as int),
            limbs_value(num@) == digits_value(d.subrange(i as int, d.len() as int), from as int),
        decreases i,
    {
        i -= 1;
        proof {
            lemma_digits_value_suffix(d, from as int, i as int);
        }
        let m = big_mul_small(&num, from);
        assert(0 <= d[i as int] < from);
        assert(d[i as int] == input[i as int] as int);
        let ghost prev = limbs_value(num@) as int;
        num = big_add_small(&m, input[i] as u32);
        assert(prev * from == from * prev) by (nonlinear_arith);
    }
    assert(d.subrange(0, d.len() as int) =~= d);
    let ghost n0: nat = limbs_value(num@);
    let mut out: Vec<i32> = Vec::new();
    while !limbs_are_zero(&num)
        invariant
            2 <= to <= 0x8000_0000,
            ints(out@) + to_digits(limbs_value(num@), to as nat) == to_digits(n0, to as nat),
        decreases limbs_value(num@),
    {
        let ghost v = limbs_value(num@);
        proof {
            lemma_to_digits_step(v, to as nat);
            assert(v / (to as nat) < v) by (nonlinear_arith)
                requires
                    v > 0,
                    to >= 2,
            ;
        }
        let rem = big_rem_small(&num, to);
        let digit = limbs_low(&rem);
        num = big_div_small(&num, to);
        let ghost prev = ints(out@);
        out.push(digit as i32);
        assert(ints(out@) =~= prev.push(digit as int));
        assert(ints(out@) + to_digits(limbs_value(num@), to as nat) =~= prev + to_digits(v, to as nat));
    }
    Ok(out)
}

proof fn lemma_valid_drop_first(d: Seq<int>, base: int)
    requires
        d.len() > 0,
        digits_valid(d, base),
    ensures
        digits_valid(d.drop_first(), base),
{
    assert forall|i: int| 0 <= i < d.drop_first().len() implies 0 <= #[trigger] d.drop_first()[i] < base by {
        assert(d.drop_first()[i] == d[i + 1]);
    }
}

pub proof fn lemma_to_digits_value(n: nat, base: nat)
    requires
        base >= 2,
    ensures
        digits_value(to_digits(n, base), base as int) == n,
        digits_valid(to_digits(n, base), base as int),
    decreases n,
{
    if n > 0 {
        let t = to_digits(n, base);
        assert(n / base < n) by (nonlinear_arith)
            requires
                n > 0,
                base >= 2,
        ;
        lemma_to_digits_value(n / base, base);
        assert(t.drop_first() =~= to_digits(n / base, base));
        assert(n == n % base + base * (n / base)) by (nonlinear_arith)
            requires
                base >= 2,
        ;
        assert forall|i: int| 0 <= i < t.len() implies 0 <= #[trigger] t[i] < base by {
            if i > 0 {
                assert(t[i] == to_digits(n / base, base)[i - 1]);
            }
        }
    }
}

proof fn lemma_value_drop_high_zero(d: Seq<int>, base: int)
    requires
        d.len() > 0,
        d.last() == 0,
    ensures
        digits_value(d, base) == digits_value(d.drop_last(), base),
    decreases d.len(),
{
    if d.len() > 1 {
        assert(d.drop_first().last() == d.last());
        lemma_value_drop_high_zero(d.drop_first(), base);
        assert(d.drop_first().drop_last() =~= d.drop_last().drop_first());
        assert(d.drop_last()[0] == d[0]);
    } else {
        assert(digits_value(d.drop_first(), base) == 0);
        assert(d[0] == d.last());
        assert(digits_value(d.drop_last(), base) == 0);
    }
}

proof fn lemma_strip_high_zeros(d: Seq<int>, base: int)
    requires
        base >= 2,
        digits_valid(d, base),
    ensures
        digits_value(strip_high_zeros(d), base) == digits_value(d, base),
        digits_valid(strip_high_zeros(d), base),
        strip_high_zeros(d).len() == 0 || strip_high_zeros(d).last() != 0,
    decreases d.len(),
{
    if d.len() > 0 && d.last() == 0 {
        lemma_value_drop_high_zero(d, base);
        assert forall|i: int| 0 <= i < d.drop_last().len() implies 0 <= #[trigger] d.drop_last()[i] < base by {
            assert(d.drop_last()[i] == d[i]);
        }
        lemma_strip_high_zeros(d.drop_last(), base);
    }
}

proof fn lemma_normalized_positive(e: Seq<int>, base: int)
    requires
        base >= 2,
        digits_valid(e, base),
        e.len() > 0,
        e.last() != 0,
    ensures
        digits_value(e, base) > 0,
    decreases e.len(),
{
    lemma_valid_drop_first(e, base);
    let t = e.drop_first();
    assert(0 <= e[0]);
    if t.len() == 0 {
        assert(e.last() == e[0]);
        assert(digits_value(t, base) == 0);
    } else {
        assert(t.last() == e.last());
        lemma_normalized_positive(t, base);
        assert(base * digits_value(t, base) > 0) by (nonlinear_arith)
            requires
                base >= 2,
                digits_value(t, base) > 0,
        ;
    }
}

proof fn lemma_normalized_unique(e: Seq<int>, base: int)
    requires
        base >= 2,
        digits_valid(e, base),
        e.len() == 0 || e.last() != 0,
    ensures
        to_digits(digits_value(e, base) as nat, base as nat) == e,
    decreases e.len(),
{
    if e.len() > 0 {
        lemma_normalized_positive(e, base);
        lemma_valid_drop_first(e, base);
        let t = e.drop_first();
        if t.len() > 0 {
            assert(t.last() == e.last());
        }
        lemma_normalized_unique(t, base);
        if t.len() > 0 {
            lemma_normalized_positive(t, base);
        }
        let v = digits_value(e, base);
        let w = digits_value(t, base);
        assert(w >= 0);
        assert(0 <= e[0] < base);
        assert(v % base == e[0] && v / base == w) by (nonlinear_arith)
            requires
                v == e[0] + base * w,
                0 <= e[0] < base,
                w >= 0,
        ;
        lemma_to_digits_step(v as nat, base as nat);
        assert(e =~= seq![e[0]] + t);
    }
}

/// Translating valid digits from `b1` to `b2` and back to `b1` gives the
/// starting digits without their most significant zeros.
pub proof fn lemma_radix_round_trip(d: Seq<int>, b1: nat, b2: nat)
    requires
        b1 >= 2,
        b2 >= 2,
        digits_valid(d, b1 as int),
    ensures
        digits_valid(to_digits(digits_value(d, b1 as int) as nat, b2), b2 as int),
        to_digits(
            digits_value(to_digits(digits_value(d, b1 as int) as nat, b2), b2 as int) as nat,
            b1,
        ) == strip_high_zeros(d),
{
    lemma_digits_value_nonneg(d, b1 as int);
    let n = digits_value(d, b1 as int) as nat;
    lemma_to_digits_value(n, b2);
    lemma_strip_high_zeros(d, b1 as int);
    lemma_normalized_unique(strip_high_zeros(d), b1 as int);
}

/// Writes output digits as printable bytes.
pub fn digits_to_text(ds: &Vec<i32>) -> (r: Vec<u8>)
    requires
        digits_valid(ints(ds@), OUT_RADIX as int),
    ensures
        r@ == digits_to_bytes(ints(ds@)),
        all_printable(r@),
{
    let ghost d = ints(ds@);
    let mut out: Vec<u8> = Vec::new();
    let mut k: usize = 0;
    while k < ds.len()
        invariant
            d == ints(ds@),
            digits_valid(d, OUT_RADIX as int),
            k <= ds.len(),
            out@ == digits_to_bytes(d.take(k as int)),
        decreases ds.len() - k,
    {
        assert(0 <= d[k as int] < OUT_RADIX);
        out.push(ds[k] as u8 + OUT_MIN);
        assert(d.take(k + 1) =~= d.take(k as int).push(d[k as int]));
        assert(out@ =~= digits_to_bytes(d.take(k + 1)));
        k += 1;
    }
    assert(d.take(d.len() as int) =~= d);
    out
}

/// Reads printable bytes as output digits; any other byte is malformed.
pub fn text_to_digits(b: &[u8]) -> (r: Result<Vec<i32>, CodecError>)
    ensures
        match r {
            Ok(ds) => all_printable(b@) && ints(ds@) == bytes_to_digits(b@) && digits_valid(
                ints(ds@),
                OUT_RADIX as int,
            ),
            Err(e) => !all_printable(b@) && e == CodecError::MalformedInput,
        },
{
    let mut out: Vec<i32> = Vec::new();
    let mut k: usize = 0;
    while k < b.len()
        invariant
            k <= b.len(),
            ints(out@) == bytes_to_digits(b@.take(k as int)),
            forall|j: int| 0 <= j < k ==> OUT_MIN <= #[trigger] b@[j] <= OUT_MAX,
        decreases b.len() - k,
    {
        let x = b[k];
        if x < OUT_MIN || x > OUT_MAX {
            return Err(CodecError::MalformedInput);
        }
        let ghost before = out@;
        out.push((x - OUT_MIN) as i32);
        assert(b@.take(k + 1) =~= b@.take(k as int).push(x));
        assert(ints(out@) =~= ints(before).push(x - OUT_MIN));
        assert(ints(out@) =~= bytes_to_digits(b@.take(k + 1)));
        k += 1;
    }
    assert(b@.take(b.len() as int) =~= b@);
    proof {
        let d = ints(out@);
        assert forall|j: int| 0 <= j < d.len() implies 0 <= #[trigger] d[j] < OUT_RADIX by {
            assert(d[j] == b@[j] - OUT_MIN);
        }
    }
    Ok(out)
}

} // verus!
