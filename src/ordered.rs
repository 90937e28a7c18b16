//! Order-preserving codec for integers in `[1, 300]`.
//!
//! Runs of one value are folded into a marker above the legal range and the
//! value; the fold limit travels in a self-terminating header in front of
//! the payload.
use crate::util::{
    digits_valid, digits_value, ints, lemma_radix_round_trip, lemma_to_digits_value,
    strip_high_zeros, to_digits, translate_radix, CodecError, OUT_MIN, OUT_MAX, OUT_RADIX,
    digits_to_bytes, bytes_to_digits, all_within, all_printable,
};
use vstd::prelude::*;

verus! {

pub const IN_MIN: i32 = 1;

pub const IN_MAX: i32 = 300;

pub const IN_RADIX: u32 = 300;

/// The radix of one header digit: half of the output alphabet.
pub const HEADER_RADIX: u32 = 47;

pub fn in_from_user(i: i32) -> (r: i32)
    requires
        i > i32::MIN,
    ensures
        r == i - IN_MIN,
{
    i - IN_MIN
}

pub fn in_to_user(i: i32) -> (r: i32)
    requires
        i < i32::MAX,
    ensures
        r == i + IN_MIN,
{
    i + IN_MIN
}

pub fn out_from_user(i: u8) -> (r: u8)
    requires
        i >= OUT_MIN,
    ensures
        r == i - OUT_MIN,
{
    i - OUT_MIN
}

pub fn out_to_user(i: u8) -> (r: u8)
    requires
        i < OUT_RADIX,
    ensures
        r == i + OUT_MIN,
{
    i + OUT_MIN
}

/// The header bytes of `n`: little-endian digits in radix 47, each final
/// digit written as `' ' + d` and every other one as `' ' + 47 + d`.
pub open spec fn header_bytes(n: nat) -> Seq<u8>
    decreases n,
{
    if n < 47 {
        seq![(32 + n) as u8]
    } else {
        seq![(32 + 47 + n % 47) as u8] + header_bytes(n / 47)
    }
}

/// The number and the byte count of the header at the front of `b`, or
/// `None` where a byte is outside the output alphabet or no final byte comes.
/// A continuation byte holds the digit `(b - ' ') % 47`, so `'~'` holds 0.
pub open spec fn header_read(b: Seq<u8>) -> Option<(nat, nat)>
    decreases b.len(),
{
    if b.len() == 0 || b[0] < 32 || b[0] > 126 {
        None
    } else if b[0] < 32 + 47 {
        Some(((b[0] - 32) as nat, 1))
    } else {
        match header_read(b.drop_first()) {
            Some((v, c)) => Some(((((b[0] - 32) as int) % 47 + 47 * v) as nat, c + 1)),
            None => None,
        }
    }
}

/// Writes `input` as a self-terminating header.
pub fn leb_encode(input: u32) -> (r: Vec<u8>)
    ensures
        r@ == header_bytes(input as nat),
{
    let mut n: u32 = input;
    let mut result: Vec<u8> = Vec::new();
    loop
        invariant
            result@ + header_bytes(n as nat) == header_bytes(input as nat),
        decreases n,
    {
        let rem = (n % HEADER_RADIX) as u8;
        let ghost prev = result@;
        let ghost m = n as nat;
        n = n / HEADER_RADIX;
        if n == 0 {
            result.push(OUT_MIN + rem);
            assert(result@ =~= prev + header_bytes(m));
            return result;
        } else {
            result.push(OUT_MIN + HEADER_RADIX as u8 + rem);
            assert(result@ + header_bytes(n as nat) =~= prev + header_bytes(m));
        }
    }
}

/// A byte that announces more header bytes to follow.
pub open spec fn is_continuation(x: u8) -> bool {
    32 + 47 <= x <= 126
}

proof fn lemma_header_step(b: Seq<u8>, i: int)
    requires
        0 <= i < b.len(),
        is_continuation(b[i]),
    ensures
        header_read(b.subrange(i, b.len() as int)) == match header_read(
            b.subrange(i + 1, b.len() as int),
        ) {
            Some((v, c)) => Some(((((b[i] - 32) as int) % 47 + 47 * v) as nat, c + 1)),
            None => None,
        },
{
    assert(b.subrange(i, b.len() as int).drop_first() =~= b.subrange(i + 1, b.len() as int));
}

proof fn lemma_header_prefix(b: Seq<u8>, j: int, i: int)
    requires
        0 <= j <= i <= b.len(),
        forall|k: int| j <= k < i ==> is_continuation(#[trigger] b[k]),
    ensures
        header_read(b.subrange(i, b.len() as int)) is None ==> header_read(
            b.subrange(j, b.len() as int),
        ) is None,
        header_read(b.subrange(i, b.len() as int)) is Some ==> {
            &&& header_read(b.subrange(j, b.len() as int)) is Some
            &&& header_read(b.subrange(j, b.len() as int)).unwrap().0 >= header_read(
                b.subrange(i, b.len() as int),
            ).unwrap().0
            &&& header_read(b.subrange(j, b.len() as int)).unwrap().1 == header_read(
                b.subrange(i, b.len() as int),
            ).unwrap().1 + (i - j)
        },
    decreases i - j,
{
    if j < i {
        lemma_header_prefix(b, j + 1, i);
        lemma_header_step(b, j);
    }
}

/// Reads the header at the front of `input`: its number and its length.
/// A header that never ends, holds a byte outside the alphabet, or whose
/// number exceeds `u32` is malformed.
pub fn leb_decode(input: &[u8]) -> (r: Result<(u32, usize), CodecError>)
    ensures
        match r {
            Ok((v, c)) => header_read(input@) == Some((v as nat, c as nat)),
            Err(e) => e == CodecError::MalformedInput && (header_read(input@) is None
                || header_read(input@).unwrap().0 > u32::MAX),
        },
{
    let ghost b = input@;
    let n = input.len();
    assert(b.subrange(0, n as int) =~= b);
    let mut t: usize = 0;
    loop
        invariant
            b == input@,
            n == b.len(),
            t <= n,
            forall|k: int| 0 <= k < t ==> is_continuation(#[trigger] b[k]),
        ensures
            t < n,
            32 <= b[t as int] < 32 + 47,
            forall|k: int| 0 <= k < t ==> is_continuation(#[trigger] b[k]),
        decreases n - t,
    {
        if t == n {
            proof {
                lemma_header_prefix(b, 0, t as int);
            }
            assert(b.subrange(0, n as int) =~= b);
            return Err(CodecError::MalformedInput);
        }
        let x = input[t];
        if x < OUT_MIN || x > OUT_MAX {
            proof {
                assert(header_read(b.subrange(t as int, n as int)) is None);
                lemma_header_prefix(b, 0, t as int);
                assert(b.subrange(0, n as int) =~= b);
            }
            return Err(CodecError::MalformedInput);
        }
        if x < OUT_MIN + HEADER_RADIX as u8 {
            break;
        }
        t += 1;
    }
    assert(header_read(b.subrange(t as int, n as int)) == Some(((b[t as int] - 32) as nat, 1nat)));
    let mut v: u32 = (input[t] - OUT_MIN) as u32;
    let mut i: usize = t;
    while i > 0
        invariant
            b == input@,
            n == b.len(),
            i <= t < n,
            forall|k: int| 0 <= k < t ==> is_continuation(#[trigger] b[k]),
            header_read(b.subrange(i as int, n as int)) == Some((v as nat, (t + 1 - i) as nat)),
        decreases i,
    {
        assert(is_continuation(b[i - 1]));
        proof {
            lemma_header_step(b, i - 1);
        }
        let d = ((input[i - 1] - OUT_MIN) % HEADER_RADIX as u8) as u64;
        let next: u64 = d + 47 * (v as u64);
        if next > u32::MAX as u64 {
            proof {
                lemma_header_prefix(b, 0, i - 1);
                assert(b.subrange(0, n as int) =~= b);
            }
            return Err(CodecError::MalformedInput);
        }
        v = next as u32;
        i -= 1;
    }
    assert(b.subrange(0, n as int) =~= b);
    Ok((v, t + 1))
}

/// A header followed by any bytes reads back as its number and its length.
pub proof fn lemma_header_round_trip(n: nat, rest: Seq<u8>)
    ensures
        header_read(header_bytes(n) + rest) == Some((n, header_bytes(n).len())),
    decreases n,
{
    let b = header_bytes(n) + rest;
    if n >= 47 {
        lemma_header_round_trip(n / 47, rest);
        assert(b.drop_first() =~= header_bytes(n / 47) + rest);
    }
}

/// How many leading elements of `s` equal `v`, counting at most `limit`.
pub open spec fn run_len(s: Seq<int>, v: int, limit: int) -> nat
    decreases s.len(),
{
    if s.len() == 0 || s[0] != v || limit <= 0 {
        0
    } else {
        1 + run_len(s.drop_first(), v, limit - 1)
    }
}

/// `c` copies of `v`.
pub open spec fn repeat(v: int, c: nat) -> Seq<int> {
    Seq::new(c, |_i: int| v)
}

/// What a run of `c` copies of `v` becomes: itself when shorter than three,
/// else the marker `IN_MAX + c - 2` followed by `v`.
pub open spec fn fold_token(v: int, c: nat) -> Seq<int> {
    if c < 3 {
        repeat(v, c)
    } else {
        seq![IN_MAX + c - 2, v]
    }
}

proof fn lemma_run_len_bounds(s: Seq<int>, v: int, limit: int)
    ensures
        run_len(s, v, limit) <= s.len(),
        limit >= 0 ==> run_len(s, v, limit) <= limit,
        forall|k: int| 0 <= k < run_len(s, v, limit) ==> s[k] == v,
    decreases s.len(),
{
    if s.len() > 0 && s[0] == v && limit > 0 {
        lemma_run_len_bounds(s.drop_first(), v, limit - 1);
        assert forall|k: int| 0 <= k < run_len(s, v, limit) implies s[k] == v by {
            if k > 0 {
                assert(s[k] == s.drop_first()[k - 1]);
            }
        }
    }
}

#[via_fn]
proof fn fold_runs_decreases(s: Seq<int>, limit: int) {
    if s.len() > 0 && limit >= 1 {
        lemma_run_len_bounds(s, s[0], limit);
    }
}

/// `s` cut greedily into runs of one value of at most `limit` elements,
/// each run replaced by its `fold_token`.
pub open spec fn fold_runs(s: Seq<int>, limit: int) -> Seq<int>
    decreases s.len()
    via fold_runs_decreases
{
    if s.len() == 0 || limit < 1 {
        seq![]
    } else {
        let c = run_len(s, s[0], limit);
        fold_token(s[0], c) + fold_runs(s.skip(c as int), limit)
    }
}

/// Expands folded runs: a value above `IN_MAX` announces that the next
/// value below it stands `marker - IN_MAX + 2` times; `pending` is the
/// announcement not yet used.
pub open spec fn unfold_runs(s: Seq<int>, pending: Option<int>) -> Seq<int>
    decreases s.len(),
{
    if s.len() == 0 {
        seq![]
    } else if s[0] > IN_MAX {
        unfold_runs(s.drop_first(), Some(s[0] - IN_MAX + 2))
    } else {
        match pending {
            Some(k) => repeat(s[0], k as nat) + unfold_runs(s.drop_first(), None),
            None => seq![s[0]] + unfold_runs(s.drop_first(), None),
        }
    }
}

proof fn lemma_run_len_exact(t: Seq<int>, v: int, limit: int, c: int)
    requires
        0 <= c <= limit,
        c <= t.len(),
        forall|k: int| 0 <= k < c ==> t[k] == v,
        c == t.len() || t[c] != v || c == limit,
    ensures
        run_len(t, v, limit) == c,
    decreases c,
{
    if c > 0 {
        assert(t[0] == v);
        assert forall|k: int| 0 <= k < c - 1 implies t.drop_first()[k] == v by {
            assert(t.drop_first()[k] == t[k + 1]);
        }
        if c < t.len() {
            assert(t.drop_first()[c - 1] == t[c]);
        }
        lemma_run_len_exact(t.drop_first(), v, limit - 1, c - 1);
    }
}

/// Folds runs of one value of more than two elements, at most `limit` to a
/// run, into a marker above `IN_MAX` and the value.
pub fn count_with_limit(input: &[i32], limit: i32) -> (r: Vec<i32>)
    requires
        2 <= limit <= i32::MAX - IN_MAX,
    ensures
        ints(r@) == fold_runs(ints(input@), limit as int),
{
    let ghost d = ints(input@);
    let n = input.len();
    let mut out: Vec<i32> = Vec::new();
    let mut i: usize = 0;
    assert(d.skip(0) =~= d);
    while i < n
        invariant
            d == ints(input@),
            n == d.len(),
            i <= n,
            2 <= limit <= i32::MAX - IN_MAX,
            ints(out@) + fold_runs(d.skip(i as int), limit as int) == fold_runs(d, limit as int),
        decreases n - i,
    {
        let v = input[i];
        let mut j: usize = i + 1;
        while j < n && input[j] == v && ((j - i) as i32) < limit
            invariant
                d == ints(input@),
                n == d.len(),
                i < j <= n,
                j - i <= limit,
                v == input@[i as int],
                forall|k: int| i <= k < j ==> d[k] == v,
            decreases n - j,
        {
            j += 1;
        }
        let c: usize = j - i;
        let ghost t = d.skip(i as int);
        proof {
            assert forall|k: int| 0 <= k < c implies t[k] == v by {
                assert(t[k] == d[i + k]);
            }
            if j < n {
                assert(t[c as int] == d[j as int]);
            }
            lemma_run_len_exact(t, v as int, limit as int, c as int);
            assert(t.skip(c as int) =~= d.skip(j as int));
            assert(t[0] == v);
        }
        let ghost prev = ints(out@);
        if c < 3 {
            let mut k: usize = 0;
            while k < c
                invariant
                    k <= c,
                    ints(out@) == prev + repeat(v as int, k as nat),
                decreases c - k,
            {
                let ghost before = out@;
                out.push(v);
                assert(ints(out@) =~= ints(before).push(v as int));
                assert(ints(out@) =~= prev + repeat(v as int, (k + 1) as nat));
                k += 1;
            }
        } else {
            out.push(IN_MAX + c as i32 - 2);
            out.push(v);
            assert(ints(out@) =~= prev + fold_token(v as int, c as nat));
        }
        assert(ints(out@) + fold_runs(d.skip(j as int), limit as int) =~= prev + fold_runs(t, limit as int));
        i = j;
    }
    assert(d.skip(n as int) =~= Seq::<int>::empty());
    assert(ints(out@) =~= ints(out@) + fold_runs(d.skip(n as int), limit as int));
    out
}

/// The pending announcement as a mathematical integer.
pub open spec fn pending_int(p: Option<i32>) -> Option<int> {
    match p {
        Some(k) => Some(k as int),
        None => None,
    }
}

/// Every value is at most `bound`.
pub open spec fn all_at_most(s: Seq<int>, bound: int) -> bool {
    forall|i: int| 0 <= i < s.len() ==> #[trigger] s[i] <= bound
}

/// Expands what `count_with_limit` folded: a marker above `IN_MAX` makes
/// the next value stand `marker - IN_MAX + 2` times.
pub fn uncount_with_limit(input: &[i32], limit: i32) -> (r: Vec<i32>)
    requires
        2 <= limit <= i32::MAX - IN_MAX,
        all_at_most(ints(input@), IN_MAX + limit - 2),
    ensures
        ints(r@) == unfold_runs(ints(input@), None),
{
    let ghost d = ints(input@);
    let n = input.len();
    let mut result: Vec<i32> = Vec::new();
    let mut repeat_next: Option<i32> = None;
    let mut i: usize = 0;
    assert(d.skip(0) =~= d);
    while i < n
        invariant
            d == ints(input@),
            n == d.len(),
            i <= n,
            all_at_most(d, IN_MAX + limit - 2),
            2 <= limit <= i32::MAX - IN_MAX,
            match repeat_next {
                Some(k) => 3 <= k <= limit,
                None => true,
            },
            ints(result@) + unfold_runs(d.skip(i as int), pending_int(repeat_next))
                == unfold_runs(d, None),
        decreases n - i,
    {
        let it = input[i];
        let ghost t = d.skip(i as int);
        let ghost prev = ints(result@);
        assert(t.drop_first() =~= d.skip(i + 1));
        assert(t[0] == it);
        assert(d[i as int] <= IN_MAX + limit - 2);
        if it > IN_MAX {
            repeat_next = Some(it - IN_MAX + 2);
        } else if let Some(k) = repeat_next {
            let mut c: i32 = 0;
            while c < k
                invariant
                    0 <= c <= k,
                    ints(result@) == prev + repeat(it as int, c as nat),
                decreases k - c,
            {
                let ghost before = result@;
                result.push(it);
                assert(ints(result@) =~= ints(before).push(it as int));
                assert(ints(result@) =~= prev + repeat(it as int, (c + 1) as nat));
                c += 1;
            }
            repeat_next = None;
            assert(ints(result@) + unfold_runs(d.skip(i + 1), None) =~= prev + unfold_runs(t, Some(k as int)));
        } else {
            let ghost before = result@;
            result.push(it);
            assert(ints(result@) =~= ints(before).push(it as int));
            assert(ints(result@) + unfold_runs(d.skip(i + 1), None) =~= prev + unfold_runs(t, None));
        }
        i += 1;
    }
    assert(d.skip(n as int) =~= Seq::<int>::empty());
    assert(ints(result@) =~= ints(result@) + unfold_runs(d.skip(n as int), pending_int(repeat_next)));
    result
}

proof fn lemma_unfold_token(v: int, c: nat, rest: Seq<int>)
    requires
        v <= IN_MAX,
        c >= 1,
    ensures
        unfold_runs(fold_token(v, c) + rest, None) == repeat(v, c) + unfold_runs(rest, None),
{
    let s = fold_token(v, c) + rest;
    if c == 1 {
        assert(s.drop_first() =~= rest);
        assert(repeat(v, c) =~= seq![v]);
        assert(s[0] == v);
    } else if c == 2 {
        assert(s.drop_first().drop_first() =~= rest);
        assert(s.drop_first()[0] == v);
        assert(unfold_runs(s.drop_first(), None) == seq![v] + unfold_runs(rest, None));
        assert(repeat(v, c) + unfold_runs(rest, None) =~= seq![v] + (seq![v] + unfold_runs(rest, None)));
    } else {
        assert(s.drop_first().drop_first() =~= rest);
        assert(s.drop_first()[0] == v);
        assert(s[0] == IN_MAX + c - 2);
        assert(unfold_runs(s, None) == unfold_runs(s.drop_first(), Some(c as int)));
        assert(unfold_runs(s.drop_first(), Some(c as int)) == repeat(v, c) + unfold_runs(rest, None));
    }
}

/// Unfolding what folding gave returns the sequence, for every limit of at
/// least two and every sequence of values not above `IN_MAX`.
pub proof fn lemma_fold_unfold(x: Seq<int>, limit: int)
    requires
        limit >= 2,
        all_at_most(x, IN_MAX as int),
    ensures
        unfold_runs(fold_runs(x, limit), None) == x,
    decreases x.len(),
{
    if x.len() > 0 {
        let v = x[0];
        let c = run_len(x, v, limit);
        lemma_run_len_bounds(x, v, limit);
        assert(c >= 1);
        let rest = x.skip(c as int);
        assert(all_at_most(rest, IN_MAX as int)) by {
            assert forall|i: int| 0 <= i < rest.len() implies #[trigger] rest[i] <= IN_MAX by {
                assert(rest[i] == x[i + c]);
            }
        }
        lemma_fold_unfold(rest, limit);
        assert(x[0] <= IN_MAX);
        lemma_unfold_token(v, c, fold_runs(rest, limit));
        assert(x =~= repeat(v, c) + rest);
    }
}

/// The largest header number that `decode` accepts: the fold limit it
/// gives must leave room for every marker in an `i32`.
pub const MAX_HEADER: u32 = 0x7fff_fed1;

/// The length of the run of equal values that ends at index `i`.
pub open spec fn run_end(s: Seq<int>, i: int) -> nat
    decreases i,
{
    if i <= 0 {
        1
    } else if s[i] == s[i - 1] {
        1 + run_end(s, i - 1)
    } else {
        1
    }
}

/// The length of the longest run of equal values among the first `n`
/// elements of `s`.
pub open spec fn max_run(s: Seq<int>, n: int) -> nat
    decreases n,
{
    if n <= 0 {
        0
    } else if run_end(s, n - 1) > max_run(s, n - 1) {
        run_end(s, n - 1)
    } else {
        max_run(s, n - 1)
    }
}

/// The fold limit that `encode` picks: the longest run, but at least two.
pub open spec fn limit_of(x: Seq<int>) -> int {
    if max_run(x, x.len() as int) < 2 {
        2
    } else {
        max_run(x, x.len() as int) as int
    }
}

/// The radix of the intermediate numeral for a fold limit.
pub open spec fn mid_radix(limit: int) -> int {
    IN_RADIX + limit - 2
}

/// The intermediate digits: the folded values shifted to start at zero,
/// then the sentinel digit 1.
pub open spec fn payload_digits(x: Seq<int>, limit: int) -> Seq<int> {
    fold_runs(x, limit).map_values(|v: int| v - IN_MIN).push(1)
}

/// What `encode` writes for `x`.
pub open spec fn encode_spec(x: Seq<int>) -> Seq<u8> {
    encoded(x, limit_of(x))
}

/// The header of `limit - 2`, then the folded payload in the output alphabet.
pub open spec fn encoded(x: Seq<int>, limit: int) -> Seq<u8> {
    header_bytes((limit - 2) as nat) + digits_to_bytes(
        to_digits(digits_value(payload_digits(x, limit), mid_radix(limit)) as nat, OUT_RADIX as nat),
    )
}

/// What `decode` gives for `b`.
pub open spec fn decode_spec(b: Seq<u8>) -> Result<Seq<int>, CodecError> {
    match header_read(b) {
        None => Err(CodecError::MalformedInput),
        Some((h, start)) => {
            let payload = b.skip(start as int);
            if h > MAX_HEADER || !all_printable(payload) {
                Err(CodecError::MalformedInput)
            } else {
                let limit = h + 2int;
                let ds = to_digits(
                    digits_value(bytes_to_digits(payload), OUT_RADIX as int) as nat,
                    mid_radix(limit) as nat,
                );
                if ds.len() == 0 || ds.last() != 1 {
                    Err(CodecError::MalformedInput)
                } else {
                    Ok(unfold_runs(ds.drop_last().map_values(|v: int| v + IN_MIN), None))
                }
            }
        },
    }
}

proof fn lemma_run_end_bound(s: Seq<int>, i: int)
    requires
        0 <= i,
    ensures
        1 <= run_end(s, i) <= i + 1,
    decreases i,
{
    if i > 0 {
        lemma_run_end_bound(s, i - 1);
    }
}

proof fn lemma_max_run_bound(s: Seq<int>, n: int)
    requires
        0 <= n,
    ensures
        max_run(s, n) <= n,
    decreases n,
{
    if n > 0 {
        lemma_max_run_bound(s, n - 1);
        lemma_run_end_bound(s, n - 1);
    }
}

proof fn lemma_fold_range(x: Seq<int>, limit: int)
    requires
        limit >= 2,
        all_within(x, IN_MIN as int, IN_MAX as int),
    ensures
        all_within(fold_runs(x, limit), IN_MIN as int, IN_MAX + limit - 2),
    decreases x.len(),
{
    if x.len() > 0 {
        let c = run_len(x, x[0], limit);
        lemma_run_len_bounds(x, x[0], limit);
        let rest = x.skip(c as int);
        assert(all_within(rest, IN_MIN as int, IN_MAX as int)) by {
            assert forall|i: int| 0 <= i < rest.len() implies IN_MIN <= #[trigger] rest[i] <= IN_MAX by {
                assert(rest[i] == x[i + c]);
            }
        }
        lemma_fold_range(rest, limit);
        let tok = fold_token(x[0], c);
        let f = fold_runs(x, limit);
        assert(f == tok + fold_runs(rest, limit));
        assert(x[0] >= IN_MIN && x[0] <= IN_MAX);
        assert forall|i: int| 0 <= i < f.len() implies IN_MIN <= #[trigger] f[i] <= IN_MAX + limit - 2 by {
            if i < tok.len() {
                assert(f[i] == tok[i]);
            } else {
                assert(f[i] == fold_runs(rest, limit)[i - tok.len()]);
            }
        }
    }
}

proof fn lemma_payload_valid(x: Seq<int>, limit: int)
    requires
        limit >= 2,
        all_within(x, IN_MIN as int, IN_MAX as int),
    ensures
        digits_valid(payload_digits(x, limit), mid_radix(limit)),
{
    lemma_fold_range(x, limit);
    let f = fold_runs(x, limit);
    let p = payload_digits(x, limit);
    assert forall|i: int| 0 <= i < p.len() implies 0 <= #[trigger] p[i] < mid_radix(limit) by {
        if i < f.len() {
            assert(p[i] == f[i] - IN_MIN);
            assert(IN_MIN <= f[i] <= IN_MAX + limit - 2);
        }
    }
}

proof fn lemma_header_printable(n: nat)
    ensures
        all_printable(header_bytes(n)),
    decreases n,
{
    if n >= 47 {
        lemma_header_printable(n / 47);
        let h = header_bytes(n);
        assert forall|i: int| 0 <= i < h.len() implies OUT_MIN <= #[trigger] h[i] <= OUT_MAX by {
            if i > 0 {
                assert(h[i] == header_bytes(n / 47)[i - 1]);
            }
        }
    }
}

/// Writes `input`, whose values lie in `[1, 300]`, with runs folded at
/// `limit` (at least two).
pub fn encode_with_limit(input: &[i32], limit: i32) -> (r: Vec<u8>)
    requires
        all_within(ints(input@), IN_MIN as int, IN_MAX as int),
        limit <= i32::MAX - IN_MAX,
    ensures
        r@ == encoded(ints(input@), if limit < 3 { 2 } else { limit as int }),
        all_printable(r@),
{
    let limit = if limit < 3 {
        2
    } else {
        limit
    };
    let ghost x = ints(input@);
    let folded = count_with_limit(input, limit);
    proof {
        lemma_payload_valid(x, limit as int);
        lemma_fold_range(x, limit as int);
    }
    let ghost f = ints(folded@);
    let mut mid: Vec<i32> = Vec::new();
    let mut i: usize = 0;
    while i < folded.len()
        invariant
            f == ints(folded@),
            f == fold_runs(x, limit as int),
            all_within(f, IN_MIN as int, IN_MAX + limit - 2),
            i <= folded.len(),
            ints(mid@) == f.take(i as int).map_values(|v: int| v - IN_MIN),
        decreases folded.len() - i,
    {
        assert(IN_MIN <= f[i as int] <= IN_MAX + limit - 2);
        let ghost before = mid@;
        mid.push(in_from_user(folded[i]));
        assert(f.take(i + 1) =~= f.take(i as int).push(f[i as int]));
        assert(ints(mid@) =~= ints(before).push(f[i as int] - IN_MIN));
        assert(ints(mid@) =~= f.take(i + 1).map_values(|v: int| v - IN_MIN));
        i += 1;
    }
    let ghost before = mid@;
    mid.push(1);
    assert(f.take(f.len() as int) =~= f);
    assert(ints(mid@) =~= payload_digits(x, limit as int));
    let radix: u32 = IN_RADIX + limit as u32 - 2;
    let digits = match translate_radix(&mid, radix, OUT_RADIX) {
        Ok(d) => d,
        Err(_) => {
            return Vec::new();
        },
    };
    let ghost ds = ints(digits@);
    proof {
        lemma_to_digits_value(
            digits_value(payload_digits(x, limit as int), mid_radix(limit as int)) as nat,
            OUT_RADIX as nat,
        );
    }
    let mut result = leb_encode((limit - 2) as u32);
    proof {
        lemma_header_printable((limit - 2) as nat);
    }
    let ghost header = result@;
    let mut k: usize = 0;
    while k < digits.len()
        invariant
            ds == ints(digits@),
            digits_valid(ds, OUT_RADIX as int),
            k <= digits.len(),
            result@ == header + digits_to_bytes(ds.take(k as int)),
            all_printable(header),
        decreases digits.len() - k,
    {
        assert(0 <= ds[k as int] < OUT_RADIX);
        let ghost prev = result@;
        result.push(out_to_user(digits[k] as u8));
        assert(ds.take(k + 1) =~= ds.take(k as int).push(ds[k as int]));
        assert(result@ =~= header + digits_to_bytes(ds.take(k + 1)));
        k += 1;
    }
    assert(ds.take(ds.len() as int) =~= ds);
    result
}

/// Writes `input` with its fold limit set to its longest run of equal
/// values (at least two). A value outside `[1, 300]` is refused with
/// `OutOfRange`; an empty input is written as a header and a sentinel.
pub fn encode(input: &[i32]) -> (r: Result<Vec<u8>, CodecError>)
    requires
        input@.len() <= i32::MAX - IN_MAX,
    ensures
        match r {
            Ok(v) => all_within(ints(input@), IN_MIN as int, IN_MAX as int) && v@ == encode_spec(
                ints(input@),
            ) && all_printable(v@),
            Err(e) => !all_within(ints(input@), IN_MIN as int, IN_MAX as int) && e
                == CodecError::OutOfRange,
        },
{
    let ghost x = ints(input@);
    let n = input.len();
    let mut i: usize = 0;
    while i < n
        invariant
            x == ints(input@),
            n == x.len(),
            i <= n,
            forall|k: int| 0 <= k < i ==> IN_MIN <= #[trigger] x[k] <= IN_MAX,
        decreases n - i,
    {
        if input[i] < IN_MIN || input[i] > IN_MAX {
            assert(!(IN_MIN <= x[i as int] <= IN_MAX));
            return Err(CodecError::OutOfRange);
        }
        i += 1;
    }
    let mut cur: usize = 0;
    let mut best: usize = 0;
    let mut j: usize = 0;
    while j < n
        invariant
            x == ints(input@),
            n == x.len(),
            j <= n,
            j > 0 ==> cur == run_end(x, j - 1),
            best == max_run(x, j as int),
            cur <= j,
            best <= j,
        decreases n - j,
    {
        if j > 0 && input[j] == input[j - 1] {
            cur = cur + 1;
        } else {
            cur = 1;
        }
        if cur > best {
            best = cur;
        }
        j += 1;
    }
    Ok(encode_with_limit(input, best as i32))
}

proof fn lemma_header_len(b: Seq<u8>)
    requires
        header_read(b) is Some,
    ensures
        1 <= header_read(b).unwrap().1 <= b.len(),
    decreases b.len(),
{
    if b[0] >= 32 + 47 {
        lemma_header_len(b.drop_first());
    }
}

/// Reads back what `encode` wrote. Bytes that no `encode` call writes are
/// refused with `MalformedInput`: a missing or oversized header, a byte
/// outside the alphabet, or a payload that does not end in the sentinel.
pub fn decode(input: &[u8]) -> (r: Result<Vec<i32>, CodecError>)
    ensures
        match r {
            Ok(v) => decode_spec(input@) == Ok::<Seq<int>, CodecError>(ints(v@)),
            Err(e) => decode_spec(input@) == Err::<Seq<int>, CodecError>(e),
        },
{
    let ghost b = input@;
    let (h, start) = match leb_decode(input) {
        Ok(p) => p,
        Err(e) => {
            return Err(e);
        },
    };
    proof {
        lemma_header_len(b);
    }
    if h > MAX_HEADER {
        return Err(CodecError::MalformedInput);
    }
    let ghost payload_bytes = b.skip(start as int);
    let n = input.len();
    let mut payload: Vec<i32> = Vec::new();
    let mut i: usize = start;
    while i < n
        invariant
            b == input@,
            n == b.len(),
            start <= i <= n,
            header_read(b) == Some((h as nat, start as nat)),
            h <= MAX_HEADER,
            payload_bytes == b.skip(start as int),
            ints(payload@) == bytes_to_digits(payload_bytes.take(i - start)),
            forall|k: int| 0 <= k < i - start ==> OUT_MIN <= #[trigger] payload_bytes[k] <= OUT_MAX,
        decreases n - i,
    {
        let x = input[i];
        assert(payload_bytes[i - start] == x);
        if x < OUT_MIN || x > OUT_MAX {
            assert(!all_printable(payload_bytes));
            return Err(CodecError::MalformedInput);
        }
        let ghost before = payload@;
        payload.push(out_from_user(x) as i32);
        assert(payload_bytes.take(i + 1 - start) =~= payload_bytes.take(i - start).push(x));
        assert(ints(payload@) =~= ints(before).push(x - OUT_MIN));
        assert(ints(payload@) =~= bytes_to_digits(payload_bytes.take(i + 1 - start)));
        i += 1;
    }
    assert(payload_bytes.take(n - start) =~= payload_bytes);
    assert(all_printable(payload_bytes));
    let ghost pd = ints(payload@);
    assert(digits_valid(pd, OUT_RADIX as int)) by {
        assert forall|k: int| 0 <= k < pd.len() implies 0 <= #[trigger] pd[k] < OUT_RADIX by {
            assert(pd[k] == payload_bytes[k] - OUT_MIN);
        }
    }
    let limit: u32 = h + 2;
    let radix: u32 = IN_RADIX + h;
    let ds = match translate_radix(&payload, OUT_RADIX, radix) {
        Ok(d) => d,
        Err(e) => {
            return Err(e);
        },
    };
    let ghost d = ints(ds@);
    proof {
        lemma_to_digits_value(digits_value(pd, OUT_RADIX as int) as nat, radix as nat);
    }
    if ds.len() == 0 || ds[ds.len() - 1] != 1 {
        return Err(CodecError::MalformedInput);
    }
    let m = ds.len() - 1;
    let ghost body = d.drop_last();
    let mut vals: Vec<i32> = Vec::new();
    let mut k: usize = 0;
    while k < m
        invariant
            d == ints(ds@),
            m == d.len() - 1,
            body == d.drop_last(),
            digits_valid(d, radix as int),
            radix == IN_RADIX + h,
            limit == h + 2,
            h <= MAX_HEADER,
            k <= m,
            ints(vals@) == body.take(k as int).map_values(|v: int| v + IN_MIN),
            all_at_most(ints(vals@), IN_MAX + limit - 2),
        decreases m - k,
    {
        assert(0 <= d[k as int] < radix);
        let ghost before = vals@;
        vals.push(in_to_user(ds[k]));
        assert(body.take(k + 1) =~= body.take(k as int).push(d[k as int]));
        assert(ints(vals@) =~= ints(before).push(d[k as int] + IN_MIN));
        assert(ints(vals@) =~= body.take(k + 1).map_values(|v: int| v + IN_MIN));
        assert forall|j: int| 0 <= j < ints(vals@).len() implies #[trigger] ints(vals@)[j] <= IN_MAX
            + limit - 2 by {
            if j < k {
                assert(ints(vals@)[j] == ints(before)[j]);
            }
        }
        k += 1;
    }
    assert(body.take(m as int) =~= body);
    Ok(uncount_with_limit(&vals, limit as i32))
}

/// Decoding what `encode` wrote for a sequence of values in `[1, 300]`
/// gives back that sequence, element for element and in order.
pub proof fn lemma_ordered_round_trip(x: Seq<int>)
    requires
        all_within(x, IN_MIN as int, IN_MAX as int),
        x.len() <= i32::MAX - IN_MAX,
    ensures
        decode_spec(encode_spec(x)) == Ok::<Seq<int>, CodecError>(x),
{
    let limit = limit_of(x);
    lemma_max_run_bound(x, x.len() as int);
    assert(limit - 2 <= MAX_HEADER);
    let p = payload_digits(x, limit);
    let base = mid_radix(limit);
    lemma_payload_valid(x, limit);
    let n = digits_value(p, base) as nat;
    let d = to_digits(n, OUT_RADIX as nat);
    lemma_to_digits_value(n, OUT_RADIX as nat);
    let pb = digits_to_bytes(d);
    let h = header_bytes((limit - 2) as nat);
    let enc = encode_spec(x);
    assert(enc == h + pb);
    lemma_header_round_trip((limit - 2) as nat, pb);
    assert(enc.skip(h.len() as int) =~= pb);
    assert forall|i: int| 0 <= i < pb.len() implies OUT_MIN <= #[trigger] pb[i] <= OUT_MAX by {
        assert(0 <= d[i] < OUT_RADIX);
    }
    assert(bytes_to_digits(pb) =~= d) by {
        assert forall|i: int| 0 <= i < d.len() implies bytes_to_digits(pb)[i] == d[i] by {
            assert(0 <= d[i] < OUT_RADIX);
        }
    }
    lemma_radix_round_trip(p, base as nat, OUT_RADIX as nat);
    assert(strip_high_zeros(p) == p);
    let f = fold_runs(x, limit);
    assert(p.drop_last().map_values(|v: int| v + IN_MIN) =~= f);
    assert(all_at_most(x, IN_MAX as int));
    lemma_fold_unfold(x, limit);
}

} // verus!
