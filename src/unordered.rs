//! Codec for integers in `[1, 1000]` that keeps their multiset, not their
//! order.
//!
//! Distinct values are grouped by how often they occur; each group lists its
//! values as ranges of consecutive integers, then its shared count.
use crate::util::{
    all_printable, bytes_to_digits, digits_to_bytes, digits_to_text, digits_valid, digits_value,
    ints, lemma_radix_round_trip, lemma_to_digits_value, strip_high_zeros, text_to_digits,
    to_digits, translate_radix, CodecError, OUT_RADIX,
};
use vstd::multiset::Multiset;
use vstd::prelude::*;

verus! {

pub const IN_MIN: i32 = 1;

pub const IN_MAX: i32 = 1000;

/// The digit that closes a group; its shared count follows it.
pub const IN_MARKER: i32 = 1001;

pub const IN_RADIX: u32 = 1000;

pub fn in_from_user(i: i32) -> (r: i32)
    requires
        i > i32::MIN,
    ensures
        r == i - IN_MIN,
{
    i - IN_MIN
}

pub fn in_to_user(i: i32) -> (r: i32)
    requires
        i < i32::MAX,
    ensures
        r == i + IN_MIN,
{
    i + IN_MIN
}

/// A range of consecutive integers: its first value and how many follow it.
pub type Run = (i32, i32);

/// Value ranges that occur the same number of times, and that number.
pub type Group = (Vec<Run>, usize);

/// Runs as pairs of mathematical integers.
pub open spec fn runs_view(rs: Seq<Run>) -> Seq<(int, int)> {
    rs.map_values(|r: Run| (r.0 as int, r.1 as int))
}

/// Groups as sequences of mathematical integers.
pub open spec fn groups_view(gs: Seq<Group>) -> Seq<(Seq<(int, int)>, int)> {
    gs.map_values(|g: Group| (runs_view(g.0@), g.1 as int))
}

/// The intermediate digits of some runs: for each, its first value shifted
/// to start at zero, then how many follow it.
pub open spec fn runs_digits(rs: Seq<(int, int)>) -> Seq<int>
    decreases rs.len(),
{
    if rs.len() == 0 {
        seq![]
    } else {
        seq![rs[0].0 - IN_MIN, rs[0].1] + runs_digits(rs.drop_first())
    }
}

/// The intermediate digits of groups: each group's runs, the marker, and
/// the group's count.
pub open spec fn groups_digits(gs: Seq<(Seq<(int, int)>, int)>) -> Seq<int>
    decreases gs.len(),
{
    if gs.len() == 0 {
        seq![]
    } else {
        runs_digits(gs[0].0) + seq![IN_MARKER - IN_MIN, gs[0].1] + groups_digits(gs.drop_first())
    }
}

/// Reads groups from intermediate digits, `cur` holding the runs of the
/// group not yet closed. Digits after the last marker are ignored; an odd
/// digit at the end makes the digits unreadable.
pub open spec fn parse_groups(ds: Seq<int>, cur: Seq<(int, int)>) -> Option<
    Seq<(Seq<(int, int)>, int)>,
>
    decreases ds.len(),
{
    if ds.len() == 0 {
        Some(seq![])
    } else if ds.len() == 1 {
        None
    } else if ds[0] == IN_MARKER - IN_MIN {
        match parse_groups(ds.skip(2), seq![]) {
            Some(t) => Some(seq![(cur, ds[1])] + t),
            None => None,
        }
    } else {
        parse_groups(ds.skip(2), cur.push((ds[0] + IN_MIN, ds[1])))
    }
}

/// `a` in front of what `o` holds, if anything.
pub open spec fn prepend_some<A>(a: Seq<A>, o: Option<Seq<A>>) -> Option<Seq<A>> {
    match o {
        Some(t) => Some(a + t),
        None => None,
    }
}

/// Every run starts in `[1, 1000]` and has at most 1000 values after its first.
pub open spec fn runs_in_range(rs: Seq<(int, int)>) -> bool {
    forall|j: int|
        0 <= j < rs.len() ==> IN_MIN <= (#[trigger] rs[j]).0 <= IN_MAX && 0 <= rs[j].1 <= IN_MAX
}

/// The groups' runs are in range and no count is negative.
pub open spec fn groups_in_range(gs: Seq<(Seq<(int, int)>, int)>) -> bool {
    forall|i: int|
        0 <= i < gs.len() ==> runs_in_range((#[trigger] gs[i]).0) && 0 <= gs[i].1
}

/// Writes groups as intermediate digits, translated to the output alphabet.
/// A count above 1000 is no digit of the intermediate radix: `InvalidDigit`.
pub fn encode_after(input: &[Group]) -> (r: Result<Vec<u8>, CodecError>)
    requires
        groups_in_range(groups_view(input@)),
    ensures
        match r {
            Ok(v) => digits_valid(groups_digits(groups_view(input@)), IN_RADIX + 1)
                && all_printable(v@) && v@ == digits_to_bytes(
                to_digits(
                    digits_value(groups_digits(groups_view(input@)), IN_RADIX + 1) as nat,
                    OUT_RADIX as nat,
                ),
            ),
            Err(e) => !digits_valid(groups_digits(groups_view(input@)), IN_RADIX + 1) && e
                == CodecError::InvalidDigit,
        },
{
    let ghost gs = groups_view(input@);
    let mut output: Vec<i32> = Vec::new();
    let mut i: usize = 0;
    assert(gs.skip(0) =~= gs);
    while i < input.len()
        invariant
            gs == groups_view(input@),
            groups_in_range(gs),
            i <= input.len(),
            ints(output@) + groups_digits(gs.skip(i as int)) == groups_digits(gs),
        decreases input.len() - i,
    {
        let ghost g = gs[i as int];
        let ghost prev = ints(output@);
        assert(gs.skip(i as int).drop_first() =~= gs.skip(i + 1));
        assert(runs_in_range(g.0));
        let runs = &input[i].0;
        assert(g.0 == runs_view(runs@));
        let mut j: usize = 0;
        assert(g.0.skip(0) =~= g.0);
        while j < runs.len()
            invariant
                g.0 == runs_view(runs@),
                runs_in_range(g.0),
                j <= runs.len(),
                ints(output@) + runs_digits(g.0.skip(j as int)) == prev + runs_digits(g.0),
            decreases runs.len() - j,
        {
            let (n, repeat) = runs[j];
            assert(g.0[j as int] == (n as int, repeat as int));
            assert(g.0.skip(j as int).drop_first() =~= g.0.skip(j + 1));
            let ghost before = ints(output@);
            output.push(in_from_user(n));
            output.push(repeat);
            assert(ints(output@) =~= before + seq![n - IN_MIN, repeat as int]);
            assert(ints(output@) + runs_digits(g.0.skip(j + 1)) =~= before + runs_digits(
                g.0.skip(j as int),
            ));
            j += 1;
        }
        assert(g.0.skip(runs.len() as int) =~= Seq::<(int, int)>::empty());
        let ghost before = ints(output@);
        assert(before + runs_digits(g.0.skip(runs.len() as int)) =~= before);
        assert(groups_digits(gs.skip(i as int)) == runs_digits(g.0) + seq![IN_MARKER - IN_MIN, g.1]
            + groups_digits(gs.skip(i + 1)));
        if input[i].1 > IN_RADIX as usize {
            proof {
                let all = groups_digits(gs);
                assert(all =~= before + seq![IN_MARKER - IN_MIN, g.1] + groups_digits(gs.skip(i + 1)));
                assert(all[before.len() + 1int] == g.1);
            }
            return Err(CodecError::InvalidDigit);
        }
        output.push(in_from_user(IN_MARKER));
        output.push(input[i].1 as i32);
        assert(ints(output@) =~= before + seq![IN_MARKER - IN_MIN, g.1]);
        assert(ints(output@) + groups_digits(gs.skip(i + 1)) =~= prev + groups_digits(
            gs.skip(i as int),
        ));
        i += 1;
    }
    assert(gs.skip(input.len() as int) =~= Seq::<(Seq<(int, int)>, int)>::empty());
    assert(ints(output@) =~= groups_digits(gs));
    let digits = match translate_radix(&output, IN_RADIX + 1, OUT_RADIX) {
        Ok(d) => d,
        Err(e) => {
            return Err(e);
        },
    };
    proof {
        lemma_to_digits_value(
            digits_value(groups_digits(gs), IN_RADIX + 1) as nat,
            OUT_RADIX as nat,
        );
    }
    Ok(digits_to_text(&digits))
}

/// Reads groups back from bytes: printable bytes, translated to the
/// intermediate radix, then split at each marker. A byte outside the
/// alphabet or digits that end in the middle of a pair are malformed.
pub fn decode_after(input: &[u8]) -> (r: Result<Vec<Group>, CodecError>)
    ensures
        match r {
            Ok(gs) => all_printable(input@) && parse_groups(
                to_digits(
                    digits_value(bytes_to_digits(input@), OUT_RADIX as int) as nat,
                    (IN_RADIX + 1) as nat,
                ),
                seq![],
            ) == Some(groups_view(gs@)),
            Err(e) => e == CodecError::MalformedInput && (!all_printable(input@) || parse_groups(
                to_digits(
                    digits_value(bytes_to_digits(input@), OUT_RADIX as int) as nat,
                    (IN_RADIX + 1) as nat,
                ),
                seq![],
            ) is None),
        },
{
    let digits = match text_to_digits(input) {
        Ok(d) => d,
        Err(e) => {
            return Err(e);
        },
    };
    let ds = match translate_radix(&digits, OUT_RADIX, IN_RADIX + 1) {
        Ok(d) => d,
        Err(_) => {
            return Err(CodecError::MalformedInput);
        },
    };
    let ghost d = ints(ds@);
    proof {
        lemma_to_digits_value(digits_value(ints(digits@), OUT_RADIX as int) as nat, (IN_RADIX + 1) as nat);
    }
    let mut result: Vec<Group> = Vec::new();
    let mut coll: Vec<Run> = Vec::new();
    let mut i: usize = 0;
    assert(d.skip(0) =~= d);
    assert(groups_view(result@) =~= Seq::<(Seq<(int, int)>, int)>::empty());
    assert(runs_view(coll@) =~= Seq::<(int, int)>::empty());
    while i < ds.len()
        invariant
            d == ints(ds@),
            d == to_digits(
                digits_value(bytes_to_digits(input@), OUT_RADIX as int) as nat,
                (IN_RADIX + 1) as nat,
            ),
            all_printable(input@),
            digits_valid(d, IN_RADIX + 1),
            i <= ds.len(),
            i % 2 == 0,
            ds.len() % 2 == 0 ==> i <= ds.len(),
            parse_groups(d, seq![]) == prepend_some(
                groups_view(result@),
                parse_groups(d.skip(i as int), runs_view(coll@)),
            ),
        decreases ds.len() - i,
    {
        let ghost t = d.skip(i as int);
        if i + 1 == ds.len() {
            assert(t.len() == 1);
            return Err(CodecError::MalformedInput);
        }
        let x = ds[i];
        let y = ds[i + 1];
        assert(t[0] == x && t[1] == y);
        assert(0 <= x < IN_RADIX + 1 && 0 <= y < IN_RADIX + 1);
        assert(t.skip(2) =~= d.skip(i + 2));
        let ghost before = groups_view(result@);
        if x == IN_MARKER - IN_MIN {
            let ghost cv = runs_view(coll@);
            result.push((coll, y as usize));
            coll = Vec::new();
            assert(groups_view(result@) =~= before.push((cv, y as int)));
            assert(runs_view(coll@) =~= Seq::<(int, int)>::empty());
            assert(prepend_some(before, parse_groups(t, cv)) == prepend_some(
                groups_view(result@),
                parse_groups(d.skip(i + 2), runs_view(coll@)),
            )) by {
                match parse_groups(d.skip(i + 2), seq![]) {
                    Some(rest) => {
                        assert(before + (seq![(cv, y as int)] + rest) =~= groups_view(result@)
                            + rest);
                    },
                    None => {},
                }
            }
        } else {
            let ghost cv = runs_view(coll@);
            coll.push((in_to_user(x), y));
            assert(runs_view(coll@) =~= cv.push((x + IN_MIN, y as int)));
            assert(groups_view(result@) == before);
        }
        i += 2;
    }
    assert(d.skip(ds.len() as int) =~= Seq::<int>::empty());
    assert(groups_view(result@) + seq![] =~= groups_view(result@));
    Ok(result)
}

proof fn lemma_parse_runs(rs: Seq<(int, int)>, rest: Seq<int>, cur: Seq<(int, int)>)
    requires
        runs_in_range(rs),
    ensures
        parse_groups(runs_digits(rs) + rest, cur) == parse_groups(rest, cur + rs),
    decreases rs.len(),
{
    if rs.len() == 0 {
        assert(runs_digits(rs) + rest =~= rest);
        assert(cur + rs =~= cur);
    } else {
        let ds = runs_digits(rs) + rest;
        assert(runs_in_range(rs.drop_first())) by {
            assert forall|j: int| 0 <= j < rs.drop_first().len() implies IN_MIN <= (
            #[trigger] rs.drop_first()[j]).0 <= IN_MAX && 0 <= rs.drop_first()[j].1 <= IN_MAX by {
                assert(rs.drop_first()[j] == rs[j + 1]);
            }
        }
        assert(IN_MIN <= rs[0].0 <= IN_MAX);
        assert(ds.skip(2) =~= runs_digits(rs.drop_first()) + rest);
        lemma_parse_runs(rs.drop_first(), rest, cur.push((rs[0].0, rs[0].1)));
        assert(cur.push((rs[0].0, rs[0].1)) + rs.drop_first() =~= cur + rs);
    }
}

/// Reading the digits that a list of groups was written as gives back
/// those groups.
pub proof fn lemma_groups_digits_round_trip(gs: Seq<(Seq<(int, int)>, int)>)
    requires
        groups_in_range(gs),
    ensures
        parse_groups(groups_digits(gs), seq![]) == Some(gs),
    decreases gs.len(),
{
    if gs.len() > 0 {
        let rest = gs.drop_first();
        assert(groups_in_range(rest)) by {
            assert forall|i: int| 0 <= i < rest.len() implies runs_in_range((#[trigger] rest[i]).0)
                && 0 <= rest[i].1 by {
                assert(rest[i] == gs[i + 1]);
            }
        }
        assert(runs_in_range(gs[0].0));
        lemma_groups_digits_round_trip(rest);
        let tail = seq![IN_MARKER - IN_MIN, gs[0].1] + groups_digits(rest);
        assert(groups_digits(gs) =~= runs_digits(gs[0].0) + tail);
        lemma_parse_runs(gs[0].0, tail, seq![]);
        assert(Seq::<(int, int)>::empty() + gs[0].0 =~= gs[0].0);
        assert(tail.skip(2) =~= groups_digits(rest));
        assert(seq![(gs[0].0, gs[0].1)] + rest =~= gs);
    }
}

/// The values of a run: its first value and the `extra` that follow it.
pub open spec fn run_values(r: (int, int)) -> Seq<i32> {
    Seq::new((r.1 + 1) as nat, |k: int| (r.0 + k) as i32)
}

/// The values of runs, one run after another.
pub open spec fn runs_values(rs: Seq<(int, int)>) -> Seq<i32>
    decreases rs.len(),
{
    if rs.len() == 0 {
        seq![]
    } else {
        run_values(rs[0]) + runs_values(rs.drop_first())
    }
}

/// `c` copies of `v`.
pub open spec fn copies(v: i32, c: nat) -> Seq<i32> {
    Seq::new(c, |_k: int| v)
}

/// Each of `vals` written `c` times in a row.
pub open spec fn spread(vals: Seq<i32>, c: nat) -> Seq<i32>
    decreases vals.len(),
{
    if vals.len() == 0 {
        seq![]
    } else {
        copies(vals[0], c) + spread(vals.drop_first(), c)
    }
}

/// The values that groups stand for: each value of a group's runs as many
/// times as the group's count says.
pub open spec fn groups_values(gs: Seq<(Seq<(int, int)>, int)>) -> Seq<i32>
    decreases gs.len(),
{
    if gs.len() == 0 {
        seq![]
    } else {
        spread(runs_values(gs[0].0), gs[0].1 as nat) + groups_values(gs.drop_first())
    }
}

/// The elements of `s` rise strictly.
pub open spec fn strictly_ascending(s: Seq<i32>) -> bool {
    forall|i: int, j: int| 0 <= i < j < s.len() ==> s[i] < s[j]
}

/// The elements of `s` are in ascending order.
pub open spec fn sorted(s: Seq<i32>) -> bool {
    forall|i: int, j: int| 0 <= i < j < s.len() ==> s[i] <= s[j]
}

/// Relies on `slice::sort`: the same elements, in ascending order.
#[verifier::external_body]
fn sort_values(v: &mut Vec<i32>)
    ensures
        final(v)@.to_multiset() == old(v)@.to_multiset(),
        sorted(final(v)@),
{
    v.sort();
}

/// Whether `vals` all lie in `[lo, hi]`.
pub open spec fn values_within(vals: Seq<i32>, lo: int, hi: int) -> bool {
    forall|i: int| 0 <= i < vals.len() ==> lo <= #[trigger] vals[i] <= hi
}

/// Appends the values of `rs`, each `c` times, to `out`.
fn push_spread_runs(rs: &Vec<Run>, c: usize, out: &mut Vec<i32>)
    requires
        runs_in_range(runs_view(rs@)),
    ensures
        final(out)@ == old(out)@ + spread(runs_values(runs_view(rs@)), c as nat),
{
    let ghost rv = runs_view(rs@);
    let ghost start = old(out)@;
    let mut j: usize = 0;
    assert(rv.skip(0) =~= rv);
    assert(start =~= start + Seq::<i32>::empty());
    while j < rs.len()
        invariant
            rv == runs_view(rs@),
            runs_in_range(rv),
            j <= rs.len(),
            out@ + spread(runs_values(rv.skip(j as int)), c as nat) == start + spread(
                runs_values(rv),
                c as nat,
            ),
        decreases rs.len() - j,
    {
        let (n, extra) = rs[j];
        let ghost r = rv[j as int];
        assert(r == (n as int, extra as int));
        assert(IN_MIN <= n <= IN_MAX && 0 <= extra <= IN_MAX);
        assert(rv.skip(j as int).drop_first() =~= rv.skip(j + 1));
        let ghost rest = runs_values(rv.skip(j + 1));
        let ghost block = out@;
        let mut t: i32 = 0;
        assert(run_values(r).skip(0) =~= run_values(r));
        while t <= extra
            invariant
                0 <= t <= extra + 1,
                IN_MIN <= n <= IN_MAX && 0 <= extra <= IN_MAX,
                out@ + spread(run_values(r).skip(t as int) + rest, c as nat) == block + spread(
                    run_values(r) + rest,
                    c as nat,
                ),
                r == (n as int, extra as int),
            decreases extra + 1 - t,
        {
            let v = n + t;
            let ghost tail = run_values(r).skip(t as int) + rest;
            assert(tail[0] == v);
            assert(tail.drop_first() =~= run_values(r).skip(t + 1) + rest);
            let ghost mid = out@;
            let mut k: usize = 0;
            while k < c
                invariant
                    k <= c,
                    out@ == mid + copies(v, k as nat),
                decreases c - k,
            {
                out.push(v);
                assert(out@ =~= mid + copies(v, (k + 1) as nat));
                k += 1;
            }
            assert(mid + spread(tail, c as nat) =~= out@ + spread(tail.drop_first(), c as nat));
            t += 1;
        }
        assert(run_values(r).skip(extra + 1) =~= Seq::<i32>::empty());
        assert(Seq::<i32>::empty() + rest =~= rest);
        assert(runs_values(rv.skip(j as int)) == run_values(r) + rest);
        j += 1;
    }
    assert(rv.skip(rs.len() as int) =~= Seq::<(int, int)>::empty());
    assert(out@ =~= out@ + spread(runs_values(rv.skip(rs.len() as int)), c as nat));
}

/// Expands groups into the values they stand for, in ascending order.
pub fn decode_inner(input: &[Group]) -> (r: Vec<i32>)
    requires
        groups_in_range(groups_view(input@)),
    ensures
        sorted(r@),
        r@.to_multiset() == groups_values(groups_view(input@)).to_multiset(),
{
    let ghost gs = groups_view(input@);
    let mut out: Vec<i32> = Vec::new();
    let mut i: usize = 0;
    assert(gs.skip(0) =~= gs);
    while i < input.len()
        invariant
            gs == groups_view(input@),
            groups_in_range(gs),
            i <= input.len(),
            out@ + groups_values(gs.skip(i as int)) == groups_values(gs),
        decreases input.len() - i,
    {
        let ghost prev = out@;
        assert(gs.skip(i as int).drop_first() =~= gs.skip(i + 1));
        assert(runs_in_range(gs[i as int].0));
        push_spread_runs(&input[i].0, input[i].1, &mut out);
        assert(out@ + groups_values(gs.skip(i + 1)) =~= prev + groups_values(gs.skip(i as int)));
        i += 1;
    }
    assert(gs.skip(input.len() as int) =~= Seq::<(Seq<(int, int)>, int)>::empty());
    assert(out@ =~= out@ + groups_values(gs.skip(input.len() as int)));
    sort_values(&mut out);
    out
}

proof fn lemma_parse_in_range(ds: Seq<int>, cur: Seq<(int, int)>)
    requires
        digits_valid(ds, IN_RADIX + 1),
        runs_in_range(cur),
        parse_groups(ds, cur) is Some,
    ensures
        groups_in_range(parse_groups(ds, cur).unwrap()),
    decreases ds.len(),
{
    if ds.len() >= 2 {
        assert(digits_valid(ds.skip(2), IN_RADIX + 1)) by {
            assert forall|i: int| 0 <= i < ds.skip(2).len() implies 0 <= #[trigger] ds.skip(2)[i]
                < IN_RADIX + 1 by {
                assert(ds.skip(2)[i] == ds[i + 2]);
            }
        }
        assert(0 <= ds[0] < IN_RADIX + 1 && 0 <= ds[1] < IN_RADIX + 1);
        if ds[0] == IN_MARKER - IN_MIN {
            assert(runs_in_range(Seq::<(int, int)>::empty()));
            lemma_parse_in_range(ds.skip(2), seq![]);
            let t = parse_groups(ds.skip(2), seq![]).unwrap();
            let all = seq![(cur, ds[1])] + t;
            assert forall|i: int| 0 <= i < all.len() implies runs_in_range((#[trigger] all[i]).0)
                && 0 <= all[i].1 by {
                if i > 0 {
                    assert(all[i] == t[i - 1]);
                }
            }
        } else {
            let next = cur.push((ds[0] + IN_MIN, ds[1]));
            assert(runs_in_range(next)) by {
                assert forall|j: int| 0 <= j < next.len() implies IN_MIN <= (#[trigger] next[j]).0
                    <= IN_MAX && 0 <= next[j].1 <= IN_MAX by {
                    if j < cur.len() {
                        assert(next[j] == cur[j]);
                    }
                }
            }
            lemma_parse_in_range(ds.skip(2), next);
        }
    }
}

/// The groups that `bytes` stand for, if they are readable.
pub open spec fn decode_groups(b: Seq<u8>) -> Option<Seq<(Seq<(int, int)>, int)>> {
    if all_printable(b) {
        parse_groups(
            to_digits(
                digits_value(bytes_to_digits(b), OUT_RADIX as int) as nat,
                (IN_RADIX + 1) as nat,
            ),
            seq![],
        )
    } else {
        None
    }
}

/// Reads back the values that `encode` wrote, in ascending order. Bytes
/// outside the alphabet, or whose digits end in the middle of a pair, are
/// refused with `MalformedInput`.
pub fn decode(input: &[u8]) -> (r: Result<Vec<i32>, CodecError>)
    ensures
        match r {
            Ok(v) => decode_groups(input@) is Some && sorted(v@) && v@.to_multiset()
                == groups_values(decode_groups(input@).unwrap()).to_multiset(),
            Err(e) => decode_groups(input@) is None && e == CodecError::MalformedInput,
        },
{
    let groups = match decode_after(input) {
        Ok(g) => g,
        Err(e) => {
            return Err(e);
        },
    };
    proof {
        let n = digits_value(bytes_to_digits(input@), OUT_RADIX as int);
        lemma_to_digits_value(n as nat, (IN_RADIX + 1) as nat);
        assert(runs_in_range(Seq::<(int, int)>::empty()));
        lemma_parse_in_range(to_digits(n as nat, (IN_RADIX + 1) as nat), seq![]);
    }
    Ok(decode_inner(&groups))
}

/// The values that (value, count) pairs stand for, in order.
pub open spec fn pairs_seq(ps: Seq<(i32, usize)>) -> Seq<i32>
    decreases ps.len(),
{
    if ps.len() == 0 {
        seq![]
    } else {
        pairs_seq(ps.drop_last()) + copies(ps.last().0, ps.last().1 as nat)
    }
}

/// Adds the multiset of a pair's values to `acc`.
pub open spec fn add_pair(acc: Multiset<i32>, p: (i32, usize)) -> Multiset<i32> {
    acc.add(copies(p.0, p.1 as nat).to_multiset())
}

/// The multiset of the values that pairs stand for, in any order.
pub open spec fn pairs_ms(ps: Seq<(i32, usize)>) -> Multiset<i32> {
    ps.fold_left(Multiset::empty(), |acc: Multiset<i32>, p: (i32, usize)| add_pair(acc, p))
}

proof fn lemma_pairs_seq_ms(ps: Seq<(i32, usize)>)
    ensures
        pairs_seq(ps).to_multiset() == pairs_ms(ps),
    decreases ps.len(),
{
    broadcast use vstd::seq_lib::lemma_multiset_commutative;

    if ps.len() == 0 {
        let e = Seq::<i32>::empty();
        assert(e + e =~= e);
        vstd::seq_lib::lemma_multiset_commutative(e, e);
        assert(e.to_multiset() =~= Multiset::empty()) by {
            assert forall|x: i32| e.to_multiset().count(x) == 0 by {
                assert(e.to_multiset().count(x) == e.to_multiset().count(x) + e.to_multiset().count(
                    x,
                ));
            }
        }
        assert(pairs_seq(ps) == e);
    } else {
        lemma_pairs_seq_ms(ps.drop_last());
    }
}

proof fn lemma_pairs_permutation(a: Seq<(i32, usize)>, b: Seq<(i32, usize)>)
    requires
        a.to_multiset() == b.to_multiset(),
    ensures
        pairs_seq(a).to_multiset() == pairs_seq(b).to_multiset(),
{
    let f = |acc: Multiset<i32>, p: (i32, usize)| add_pair(acc, p);
    assert(vstd::seq_lib::commutative_foldl(f)) by {
        assert forall|x: (i32, usize), y: (i32, usize), v: Multiset<i32>| #[trigger]
            f(f(v, x), y) == f(f(v, y), x) by {
            assert(f(f(v, x), y) =~= f(f(v, y), x));
        }
    }
    vstd::seq_lib::lemma_fold_left_permutation(a, b, f, Multiset::empty());
    lemma_pairs_seq_ms(a);
    lemma_pairs_seq_ms(b);
}

proof fn lemma_spread_push(vals: Seq<i32>, v: i32, c: nat)
    ensures
        spread(vals.push(v), c) == spread(vals, c) + copies(v, c),
    decreases vals.len(),
{
    if vals.len() == 0 {
        assert(vals.push(v).drop_first() =~= Seq::<i32>::empty());
        assert(spread(vals.push(v).drop_first(), c) == Seq::<i32>::empty());
        assert(spread(vals.push(v), c) =~= copies(v, c));
        assert(spread(vals, c) == Seq::<i32>::empty());
    } else {
        lemma_spread_push(vals.drop_first(), v, c);
        assert(vals.push(v).drop_first() =~= vals.drop_first().push(v));
        assert(spread(vals.push(v), c) =~= spread(vals, c) + copies(v, c));
    }
}

proof fn lemma_runs_values_push(rs: Seq<(int, int)>, r: (int, int))
    ensures
        runs_values(rs.push(r)) == runs_values(rs) + run_values(r),
    decreases rs.len(),
{
    if rs.len() == 0 {
        assert(rs.push(r).drop_first() =~= Seq::<(int, int)>::empty());
        assert(runs_values(rs.push(r).drop_first()) == Seq::<i32>::empty());
        assert(runs_values(rs.push(r)) =~= run_values(r));
        assert(runs_values(rs) == Seq::<i32>::empty());
    } else {
        lemma_runs_values_push(rs.drop_first(), r);
        assert(rs.push(r).drop_first() =~= rs.drop_first().push(r));
        assert(runs_values(rs.push(r)) =~= runs_values(rs) + run_values(r));
    }
}

proof fn lemma_groups_values_push(gs: Seq<(Seq<(int, int)>, int)>, g: (Seq<(int, int)>, int))
    ensures
        groups_values(gs.push(g)) == groups_values(gs) + spread(runs_values(g.0), g.1 as nat),
    decreases gs.len(),
{
    if gs.len() == 0 {
        assert(gs.push(g).drop_first() =~= Seq::<(Seq<(int, int)>, int)>::empty());
        assert(groups_values(gs.push(g).drop_first()) == Seq::<i32>::empty());
        assert(groups_values(gs.push(g)) =~= spread(runs_values(g.0), g.1 as nat));
        assert(groups_values(gs) == Seq::<i32>::empty());
    } else {
        lemma_groups_values_push(gs.drop_first(), g);
        assert(gs.push(g).drop_first() =~= gs.drop_first().push(g));
        assert(groups_values(gs.push(g)) =~= groups_values(gs) + spread(
            runs_values(g.0),
            g.1 as nat,
        ));
    }
}

/// Folds consecutive integers among the ascending `vals` into runs: a
/// value one above the end of the current run extends it, so each run
/// starts more than one above the end of the run before it.
pub fn fold_ranges(vals: &Vec<i32>) -> (r: Vec<Run>)
    requires
        values_within(vals@, IN_MIN as int, IN_MAX as int),
        strictly_ascending(vals@),
    ensures
        runs_values(runs_view(r@)) == vals@,
        runs_in_range(runs_view(r@)),
        runs_gapped(runs_view(r@)),
{
    let mut out: Vec<Run> = Vec::new();
    if vals.len() == 0 {
        assert(runs_view(out@) =~= Seq::<(int, int)>::empty());
        assert(vals@ =~= Seq::<i32>::empty());
        return out;
    }
    let mut a: i32 = vals[0];
    let mut e: i32 = 0;
    let mut i: usize = 1;
    assert(run_values((a as int, 0int)) =~= vals@.take(1));
    assert(runs_view(out@) =~= Seq::<(int, int)>::empty());
    while i < vals.len()
        invariant
            values_within(vals@, IN_MIN as int, IN_MAX as int),
            1 <= i <= vals.len(),
            IN_MIN <= a && 0 <= e && a + e <= IN_MAX,
            runs_in_range(runs_view(out@)),
            runs_values(runs_view(out@)) + run_values((a as int, e as int)) == vals@.take(i as int),
            strictly_ascending(vals@),
            a + e == vals@[i - 1],
            forall|j: int| 0 <= j < out@.len() - 1 ==> #[trigger] out@[j + 1].0 > out@[j].0 + out@[j].1
                + 1,
            out@.len() > 0 ==> a > out@[out@.len() - 1].0 + out@[out@.len() - 1].1 + 1,
        decreases vals.len() - i,
    {
        let b = vals[i];
        assert(IN_MIN <= b <= IN_MAX);
        assert(vals@[i - 1] < vals@[i as int]);
        assert(vals@.take(i + 1) =~= vals@.take(i as int).push(b));
        if b == a + e + 1 {
            assert(run_values((a as int, (e + 1) as int)) =~= run_values((a as int, e as int)).push(b));
            e = e + 1;
        } else {
            let ghost prev = runs_view(out@);
            let ghost before = out@;
            out.push((a, e));
            proof {
                assert forall|j: int| 0 <= j < out@.len() - 1 implies #[trigger] out@[j + 1].0
                    > out@[j].0 + out@[j].1 + 1 by {
                    if j + 1 < before.len() {
                        assert(out@[j] == before[j] && out@[j + 1] == before[j + 1]);
                    } else {
                        assert(out@[j] == before[j]);
                    }
                }
                lemma_runs_values_push(prev, (a as int, e as int));
                assert(runs_view(out@) =~= prev.push((a as int, e as int)));
                assert(run_values((b as int, 0int)) =~= seq![b]);
            }
            a = b;
            e = 0;
        }
        i += 1;
    }
    let ghost prev = runs_view(out@);
    let ghost before = out@;
    out.push((a, e));
    proof {
        lemma_runs_values_push(prev, (a as int, e as int));
        assert(runs_view(out@) =~= prev.push((a as int, e as int)));
        assert(vals@.take(vals.len() as int) =~= vals@);
        assert forall|j: int| 0 <= j < out@.len() - 1 implies #[trigger] out@[j + 1].0 > out@[j].0
            + out@[j].1 + 1 by {
            if j + 1 < before.len() {
                assert(out@[j] == before[j] && out@[j + 1] == before[j + 1]);
            } else {
                assert(out@[j] == before[j]);
            }
        }
        let rv = runs_view(out@);
        assert forall|j: int| 0 <= j < rv.len() - 1 implies (#[trigger] rv[j + 1]).0 > rv[j].0
            + rv[j].1 + 1 by {
            assert(out@[j + 1].0 > out@[j].0 + out@[j].1 + 1);
        }
    }
    out
}

/// Relies on `slice::sort_by_key` with a key that picks the count: the
/// same pairs, in ascending order of count. The sort is stable, so pairs of
/// equal count keep their order, which here is ascending by value.
#[verifier::external_body]
fn sort_pairs_by_count(v: &mut Vec<(i32, usize)>)
    requires
        forall|i: int, j: int| 0 <= i < j < old(v)@.len() ==> old(v)@[i].0 < old(v)@[j].0,
    ensures
        final(v)@.to_multiset() == old(v)@.to_multiset(),
        forall|i: int, j: int| 0 <= i < j < final(v)@.len() ==> final(v)@[i].1 <= final(v)@[j].1,
        forall|i: int, j: int|
            0 <= i < j < final(v)@.len() && final(v)@[i].1 == final(v)@[j].1 ==> final(v)@[i].0
                < final(v)@[j].0,
{
    v.sort_by_key(|p| p.1);
}

/// Every pair holds a value in `[1, 1000]` and a count of at least one.
pub open spec fn pairs_in_range(ps: Seq<(i32, usize)>) -> bool {
    forall|i: int|
        0 <= i < ps.len() ==> IN_MIN <= (#[trigger] ps[i]).0 <= IN_MAX && ps[i].1 >= 1
}

/// Each value of each group occurs in `m` as often as the group's count says.
pub open spec fn counts_match(gs: Seq<(Seq<(int, int)>, int)>, m: Multiset<i32>) -> bool {
    forall|i: int, j: int|
        0 <= i < gs.len() && 0 <= j < runs_values(gs[i].0).len() ==> m.count(
            #[trigger] runs_values(gs[i].0)[j],
        ) == gs[i].1
}

/// Each run starts more than one above the end of the run before it: the
/// runs ascend, are disjoint, and no two of them touch.
pub open spec fn runs_gapped(rs: Seq<(int, int)>) -> bool {
    forall|j: int| 0 <= j < rs.len() - 1 ==> (#[trigger] rs[j + 1]).0 > rs[j].0 + rs[j].1 + 1
}

/// Within every group the runs are gapped.
pub open spec fn runs_maximal(gs: Seq<(Seq<(int, int)>, int)>) -> bool {
    forall|i: int| 0 <= i < gs.len() ==> runs_gapped((#[trigger] gs[i]).0)
}

/// The groups come in strictly ascending order of count.
pub open spec fn counts_ascending(gs: Seq<(Seq<(int, int)>, int)>) -> bool {
    forall|i: int, j: int| 0 <= i < j < gs.len() ==> gs[i].1 < gs[j].1
}

/// Every group has a count of at least one and stands for some value.
pub open spec fn counts_positive(gs: Seq<(Seq<(int, int)>, int)>) -> bool {
    forall|i: int|
        0 <= i < gs.len() ==> (#[trigger] gs[i]).1 >= 1 && runs_values(gs[i].0).len() > 0
}

/// Counts the equal values of `s`, which is sorted: one pair of value and
/// count for each distinct value, in order.
fn count_sorted(s: &Vec<i32>) -> (r: Vec<(i32, usize)>)
    requires
        values_within(s@, IN_MIN as int, IN_MAX as int),
        sorted(s@),
    ensures
        pairs_seq(r@) == s@,
        pairs_in_range(r@),
        forall|i: int, j: int| 0 <= i < j < r@.len() ==> r@[i].0 < r@[j].0,
    s@.len() == 0 ==> r@.len() == 0,
{
    let mut pairs: Vec<(i32, usize)> = Vec::new();
    if s.len() == 0 {
        assert(s@ =~= Seq::<i32>::empty());
        return pairs;
    }
    let mut a: i32 = s[0];
    let mut c: usize = 1;
    let mut i: usize = 1;
    assert(copies(a, 1) =~= s@.take(1));
    assert(pairs_seq(pairs@) + copies(a, 1) =~= copies(a, 1));
    while i < s.len()
        invariant
            values_within(s@, IN_MIN as int, IN_MAX as int),
            1 <= i <= s.len(),
            1 <= c <= i,
            IN_MIN <= a <= IN_MAX,
            sorted(s@),
            a == s@[i - 1],
            forall|k: int| 0 <= k < pairs@.len() ==> (#[trigger] pairs@[k]).0 < a,
            forall|k: int, j: int| 0 <= k < j < pairs@.len() ==> pairs@[k].0 < pairs@[j].0,
            pairs_in_range(pairs@),
            pairs_seq(pairs@) + copies(a, c as nat) == s@.take(i as int),
        decreases s.len() - i,
    {
        let b = s[i];
        assert(s@.take(i + 1) =~= s@.take(i as int).push(b));
        assert(s@[i - 1] <= s@[i as int]);
        if b == a {
            assert(copies(a, (c + 1) as nat) =~= copies(a, c as nat).push(b));
            c = c + 1;
        } else {
            let ghost prev = pairs@;
            pairs.push((a, c));
            assert(pairs@.drop_last() =~= prev);
            assert(copies(b, 1) =~= seq![b]);
            assert forall|k: int| 0 <= k < pairs@.len() implies (#[trigger] pairs@[k]).0 < b by {
                if k < prev.len() {
                    assert(pairs@[k] == prev[k]);
                }
            }
            assert forall|k: int, j: int| 0 <= k < j < pairs@.len() implies pairs@[k].0
                < pairs@[j].0 by {
                if j < prev.len() {
                    assert(pairs@[k] == prev[k] && pairs@[j] == prev[j]);
                } else {
                    assert(pairs@[k] == prev[k]);
                }
            }
            assert(pairs_in_range(pairs@)) by {
                assert forall|k: int| 0 <= k < pairs@.len() implies IN_MIN <= (
                #[trigger] pairs@[k]).0 <= IN_MAX && pairs@[k].1 >= 1 by {
                    if k < prev.len() {
                        assert(pairs@[k] == prev[k]);
                    }
                }
            }
            a = b;
            c = 1;
        }
        i += 1;
    }
    let ghost prev = pairs@;
    pairs.push((a, c));
    assert(pairs@.drop_last() =~= prev);
    assert(s@.take(s.len() as int) =~= s@);
    assert forall|k: int, j: int| 0 <= k < j < pairs@.len() implies pairs@[k].0 < pairs@[j].0 by {
        if j < prev.len() {
            assert(pairs@[k] == prev[k] && pairs@[j] == prev[j]);
        } else {
            assert(pairs@[k] == prev[k]);
        }
    }
    assert(pairs_in_range(pairs@)) by {
        assert forall|k: int| 0 <= k < pairs@.len() implies IN_MIN <= (#[trigger] pairs@[k]).0
            <= IN_MAX && pairs@[k].1 >= 1 by {
            if k < prev.len() {
                assert(pairs@[k] == prev[k]);
            }
        }
    }
    pairs
}

proof fn lemma_group_push(groups: Seq<Group>, runs: Vec<Run>, c: usize)
    ensures
        groups_view(groups.push((runs, c))) == groups_view(groups).push((runs_view(runs@), c as int)),
{
    assert(groups_view(groups.push((runs, c))) =~= groups_view(groups).push(
        (runs_view(runs@), c as int),
    ));
}

proof fn lemma_spread_single(v: i32, c: nat)
    ensures
        spread(seq![v], c) == copies(v, c),
{
    assert(seq![v].drop_first() =~= Seq::<i32>::empty());
    assert(spread(seq![v].drop_first(), c) == Seq::<i32>::empty());
    assert(copies(v, c) + Seq::<i32>::empty() =~= copies(v, c));
}

proof fn lemma_pairs_count(ps: Seq<(i32, usize)>)
    requires
        forall|i: int, j: int| 0 <= i < j < ps.len() ==> ps[i].0 < ps[j].0,
    ensures
        forall|k: int|
            0 <= k < ps.len() ==> pairs_seq(ps).to_multiset().count((#[trigger] ps[k]).0)
                == ps[k].1,
        forall|u: i32|
            (forall|k: int| 0 <= k < ps.len() ==> (#[trigger] ps[k]).0 != u) ==> pairs_seq(
                ps,
            ).to_multiset().count(u) == 0,
    decreases ps.len(),
{
    broadcast use vstd::seq_lib::lemma_multiset_commutative;
    broadcast use vstd::seq_lib::group_to_multiset_ensures;

    if ps.len() == 0 {
        assert forall|u: i32| pairs_seq(ps).to_multiset().count(u) == 0 by {
            assert(pairs_seq(ps).to_multiset().len() == 0);
        }
    } else {
        let init = ps.drop_last();
        let l = ps.last();
        lemma_pairs_count(init);
        lemma_copies_count(l.0, l.1 as nat);
        assert(pairs_seq(ps) == pairs_seq(init) + copies(l.0, l.1 as nat));
        assert forall|k: int| 0 <= k < ps.len() implies pairs_seq(ps).to_multiset().count(
            (#[trigger] ps[k]).0,
        ) == ps[k].1 by {
            if k < init.len() {
                assert(init[k] == ps[k]);
            } else {
                assert forall|j: int| 0 <= j < init.len() implies (#[trigger] init[j]).0 != l.0 by {
                    assert(init[j] == ps[j]);
                }
            }
        }
        assert forall|u: i32|
            (forall|k: int| 0 <= k < ps.len() ==> (#[trigger] ps[k]).0 != u) implies pairs_seq(
            ps,
        ).to_multiset().count(u) == 0 by {
            assert forall|j: int| 0 <= j < init.len() implies (#[trigger] init[j]).0 != u by {
                assert(init[j] == ps[j]);
            }
            assert(ps[ps.len() - 1].0 != u);
        }
    }
}

proof fn lemma_close_group(
    gv: Seq<(Seq<(int, int)>, int)>,
    rv: Seq<(int, int)>,
    c: int,
    ov: Seq<i32>,
    m: Multiset<i32>,
)
    requires
        groups_in_range(gv),
        counts_positive(gv),
        counts_match(gv, m),
        counts_ascending(gv),
        runs_maximal(gv),
        forall|j: int| 0 <= j < gv.len() ==> (#[trigger] gv[j]).1 < c,
        c >= 1,
        runs_values(rv) == ov,
        ov.len() >= 1,
        runs_in_range(rv),
        runs_gapped(rv),
        forall|j: int| 0 <= j < ov.len() ==> m.count(#[trigger] ov[j]) == c,
    ensures
        groups_values(gv.push((rv, c))) == groups_values(gv) + spread(ov, c as nat),
        groups_in_range(gv.push((rv, c))),
        counts_positive(gv.push((rv, c))),
        counts_match(gv.push((rv, c)), m),
        counts_ascending(gv.push((rv, c))),
        runs_maximal(gv.push((rv, c))),
{
    let ng = gv.push((rv, c));
    lemma_groups_values_push(gv, (rv, c));
    assert forall|j: int| 0 <= j < ng.len() implies runs_in_range((#[trigger] ng[j]).0) && 0
        <= ng[j].1 && ng[j].1 >= 1 && runs_values(ng[j].0).len() > 0 && runs_gapped(ng[j].0) by {
        if j < gv.len() {
            assert(ng[j] == gv[j]);
        }
    }
    assert forall|a: int, b: int|
        0 <= a < ng.len() && 0 <= b < runs_values(ng[a].0).len() implies m.count(
        #[trigger] runs_values(ng[a].0)[b],
    ) == ng[a].1 by {
        if a < gv.len() {
            assert(ng[a] == gv[a]);
        } else {
            assert(runs_values(ng[a].0)[b] == ov[b]);
        }
    }
    assert forall|a: int, b: int| 0 <= a < b < ng.len() implies ng[a].1 < ng[b].1 by {
        assert(ng[a] == gv[a]);
        if b < gv.len() {
            assert(ng[b] == gv[b]);
        }
    }
}

/// Gathers the values of adjacent pairs with equal counts into one group,
/// whose values are folded into runs. The pairs come in ascending order of
/// count, and pairs of equal count in ascending order of value.
fn group_by_count(sp: &Vec<(i32, usize)>, Ghost(m): Ghost<Multiset<i32>>) -> (r: Vec<Group>)
    requires
        pairs_in_range(sp@),
        forall|k: int| 0 <= k < sp@.len() ==> m.count((#[trigger] sp@[k]).0) == sp@[k].1,
        forall|i: int, j: int| 0 <= i < j < sp@.len() ==> sp@[i].1 <= sp@[j].1,
        forall|i: int, j: int| 0 <= i < j < sp@.len() && sp@[i].1 == sp@[j].1 ==> sp@[i].0 < sp@[j].0,
    ensures
        groups_values(groups_view(r@)) == pairs_seq(sp@),
        groups_in_range(groups_view(r@)),
        counts_positive(groups_view(r@)),
        counts_match(groups_view(r@), m),
        counts_ascending(groups_view(r@)),
        runs_maximal(groups_view(r@)),
        sp@.len() == 0 ==> r@.len() == 0,
{
    let mut groups: Vec<Group> = Vec::new();
    assert(groups_view(groups@) =~= Seq::<(Seq<(int, int)>, int)>::empty());
    if sp.len() == 0 {
        assert(sp@ =~= Seq::<(i32, usize)>::empty());
        return groups;
    }
    let mut vals: Vec<i32> = Vec::new();
    vals.push(sp[0].0);
    let mut c: usize = sp[0].1;
    let mut i: usize = 1;
    assert(sp@[0].0 >= IN_MIN && sp@[0].0 <= IN_MAX && sp@[0].1 >= 1);
    assert(sp@.take(1).drop_last() =~= Seq::<(i32, usize)>::empty());
    proof {
        lemma_spread_single(sp@[0].0, c as nat);
        assert(vals@ =~= seq![sp@[0].0]);
        assert(pairs_seq(sp@.take(1).drop_last()) == Seq::<i32>::empty());
    }
    assert(groups_values(groups_view(groups@)) + spread(vals@, c as nat) =~= pairs_seq(sp@.take(1)));
    while i < sp.len()
        invariant
            pairs_in_range(sp@),
            1 <= i <= sp.len(),
            c >= 1,
            vals@.len() >= 1,
            values_within(vals@, IN_MIN as int, IN_MAX as int),
            strictly_ascending(vals@),
            vals@.last() == sp@[i - 1].0,
            forall|k: int| 0 <= k < sp@.len() ==> m.count((#[trigger] sp@[k]).0) == sp@[k].1,
            forall|a: int, b: int| 0 <= a < b < sp@.len() ==> sp@[a].1 <= sp@[b].1,
            forall|a: int, b: int|
                0 <= a < b < sp@.len() && sp@[a].1 == sp@[b].1 ==> sp@[a].0 < sp@[b].0,
            c == sp@[i - 1].1,
            forall|j: int| 0 <= j < vals@.len() ==> m.count(#[trigger] vals@[j]) == c,
            groups_in_range(groups_view(groups@)),
            counts_positive(groups_view(groups@)),
            counts_match(groups_view(groups@), m),
            counts_ascending(groups_view(groups@)),
            runs_maximal(groups_view(groups@)),
            forall|j: int| 0 <= j < groups@.len() ==> (#[trigger] groups@[j]).1 < c,
            groups_values(groups_view(groups@)) + spread(vals@, c as nat) == pairs_seq(
                sp@.take(i as int),
            ),
        decreases sp.len() - i,
    {
        let (v, k) = sp[i];
        assert(sp@[i as int].0 >= IN_MIN && sp@[i as int].0 <= IN_MAX && sp@[i as int].1 >= 1);
        assert(sp@.take(i + 1).drop_last() =~= sp@.take(i as int));
        assert(pairs_seq(sp@.take(i + 1)) == pairs_seq(sp@.take(i as int)) + copies(v, k as nat));
        assert(m.count(sp@[i as int].0) == sp@[i as int].1);
        assert(sp@[i - 1].1 <= sp@[i as int].1);
        if k == c {
            let ghost old_vals = vals@;
            assert(sp@[i - 1].0 < sp@[i as int].0);
            vals.push(v);
            proof {
                lemma_spread_push(old_vals, v, c as nat);
                assert forall|j: int| 0 <= j < vals@.len() implies IN_MIN <= #[trigger] vals@[j]
                    <= IN_MAX && m.count(vals@[j]) == c by {
                    if j < old_vals.len() {
                        assert(vals@[j] == old_vals[j]);
                    }
                }
                assert forall|a: int, b: int| 0 <= a < b < vals@.len() implies vals@[a]
                    < vals@[b] by {
                    assert(vals@[a] == old_vals[a]);
                    if b < old_vals.len() {
                        assert(vals@[b] == old_vals[b]);
                    } else {
                        assert(old_vals[a] <= old_vals.last());
                    }
                }
            }
        } else {
            let ghost ov = vals@;
            let ghost gv = groups_view(groups@);
            let runs = fold_ranges(&vals);
            let ghost rv = runs_view(runs@);
            let ghost old_groups = groups@;
            proof {
                assert forall|j: int| 0 <= j < gv.len() implies (#[trigger] gv[j]).1 < c by {
                    assert(gv[j].1 == old_groups[j].1 as int);
                }
                lemma_close_group(gv, rv, c as int, ov, m);
            }
            groups.push((runs, c));
            proof {
                lemma_group_push(old_groups, runs, c);
            }
            vals = Vec::new();
            vals.push(v);
            c = k;
            proof {
                lemma_spread_single(v, c as nat);
                assert(vals@ =~= seq![v]);
                assert forall|j: int| 0 <= j < groups@.len() implies (#[trigger] groups@[j]).1 < c by {
                    if j < old_groups.len() {
                        assert(groups@[j] == old_groups[j]);
                    }
                }
            }
        }
        i += 1;
    }
    let ghost ov = vals@;
    let ghost gv = groups_view(groups@);
    let runs = fold_ranges(&vals);
    let ghost rv = runs_view(runs@);
    let ghost old_groups = groups@;
    proof {
        assert forall|j: int| 0 <= j < gv.len() implies (#[trigger] gv[j]).1 < c by {
            assert(gv[j].1 == old_groups[j].1 as int);
        }
        lemma_close_group(gv, rv, c as int, ov, m);
    }
    groups.push((runs, c));
    proof {
        lemma_group_push(old_groups, runs, c);
        assert(sp@.take(sp.len() as int) =~= sp@);
    }
    groups
}

proof fn lemma_groups_digits_last(gs: Seq<(Seq<(int, int)>, int)>)
    requires
        gs.len() > 0,
    ensures
        groups_digits(gs).len() > 0,
        groups_digits(gs).last() == gs.last().1,
    decreases gs.len(),
{
    if gs.len() > 1 {
        lemma_groups_digits_last(gs.drop_first());
        assert(gs.drop_first().last() == gs.last());
    } else {
        assert(groups_digits(gs.drop_first()) == Seq::<int>::empty());
    }
}

/// The bytes that `encode_after` writes for groups in range, with positive
/// counts that are digits of the intermediate radix, read back as those
/// groups.
pub proof fn lemma_groups_bytes_round_trip(gs: Seq<(Seq<(int, int)>, int)>)
    requires
        groups_in_range(gs),
        counts_positive(gs),
        digits_valid(groups_digits(gs), IN_RADIX + 1),
    ensures
        decode_groups(
            digits_to_bytes(
                to_digits(digits_value(groups_digits(gs), IN_RADIX + 1) as nat, OUT_RADIX as nat),
            ),
        ) == Some(gs),
{
    let gd = groups_digits(gs);
    crate::util::lemma_digits_value_nonneg(gd, IN_RADIX + 1);
    let n = digits_value(gd, IN_RADIX + 1) as nat;
    let d = to_digits(n, OUT_RADIX as nat);
    lemma_to_digits_value(n, OUT_RADIX as nat);
    let b = digits_to_bytes(d);
    assert forall|i: int| 0 <= i < b.len() implies crate::util::OUT_MIN <= #[trigger] b[i]
        <= crate::util::OUT_MAX by {
        assert(0 <= d[i] < OUT_RADIX);
    }
    assert(bytes_to_digits(b) =~= d) by {
        assert forall|i: int| 0 <= i < d.len() implies bytes_to_digits(b)[i] == d[i] by {
            assert(0 <= d[i] < OUT_RADIX);
        }
    }
    lemma_radix_round_trip(gd, (IN_RADIX + 1) as nat, OUT_RADIX as nat);
    if gs.len() > 0 {
        lemma_groups_digits_last(gs);
        assert(gs.last().1 >= 1);
    } else {
        assert(gd == Seq::<int>::empty());
    }
    assert(strip_high_zeros(gd) == gd);
    lemma_groups_digits_round_trip(gs);
}

/// Groups that stand for the multiset `m`: one group for each count, in
/// ascending order of count, each value of `m` in the group of its own
/// count, a group's values folded into ascending runs of consecutive
/// integers that do not touch.
pub open spec fn groups_of(gs: Seq<(Seq<(int, int)>, int)>, m: Multiset<i32>) -> bool {
    &&& groups_values(gs).to_multiset() == m
    &&& groups_in_range(gs)
    &&& counts_positive(gs)
    &&& counts_match(gs, m)
    &&& counts_ascending(gs)
    &&& runs_maximal(gs)
}

/// Groups that stand for the multiset of `x` (see `groups_of`).
pub open spec fn is_grouping(gs: Seq<(Seq<(int, int)>, int)>, x: Seq<i32>) -> bool {
    groups_of(gs, x.to_multiset())
}

/// The groups of a multiset; `lemma_grouping_unique` shows there is at most
/// one.
pub open spec fn grouping(m: Multiset<i32>) -> Seq<(Seq<(int, int)>, int)> {
    choose|gs: Seq<(Seq<(int, int)>, int)>| groups_of(gs, m)
}

/// The bytes that groups are written as: their intermediate digits,
/// translated to the output alphabet.
pub open spec fn groups_bytes(gs: Seq<(Seq<(int, int)>, int)>) -> Seq<u8> {
    digits_to_bytes(
        to_digits(digits_value(groups_digits(gs), IN_RADIX + 1) as nat, OUT_RADIX as nat),
    )
}

/// Groups the values of `input`, each in `[1, 1000]`, by how often they
/// occur: the one grouping of its multiset (see `groups_of`); no values
/// give no groups.
pub fn encode_inner(input: &[i32]) -> (r: Vec<Group>)
    requires
        values_within(input@, IN_MIN as int, IN_MAX as int),
    ensures
        is_grouping(groups_view(r@), input@),
        groups_view(r@) == grouping(input@.to_multiset()),
        input@.len() == 0 ==> r@.len() == 0,
{
    broadcast use vstd::seq_lib::group_to_multiset_ensures;

    let mut s: Vec<i32> = Vec::new();
    let mut i: usize = 0;
    while i < input.len()
        invariant
            i <= input.len(),
            s@ == input@.take(i as int),
        decreases input.len() - i,
    {
        s.push(input[i]);
        assert(input@.take(i + 1) =~= input@.take(i as int).push(input@[i as int]));
        i += 1;
    }
    assert(input@.take(input.len() as int) =~= input@);
    sort_values(&mut s);
    assert(values_within(s@, IN_MIN as int, IN_MAX as int)) by {
        assert forall|k: int| 0 <= k < s@.len() implies IN_MIN <= #[trigger] s@[k] <= IN_MAX by {
            assert(s@.to_multiset().count(s@[k]) > 0);
            assert(input@.contains(s@[k]));
        }
    }
    let pairs = count_sorted(&s);
    let ghost pv = pairs@;
    let mut sp = pairs;
    sort_pairs_by_count(&mut sp);
    assert(pairs_in_range(sp@)) by {
        assert forall|k: int| 0 <= k < sp@.len() implies IN_MIN <= (#[trigger] sp@[k]).0 <= IN_MAX
            && sp@[k].1 >= 1 by {
            assert(sp@.to_multiset().count(sp@[k]) > 0);
            assert(pv.contains(sp@[k]));
        }
    }
    proof {
        lemma_pairs_permutation(sp@, pv);
        lemma_pairs_count(pv);
        assert forall|k: int| 0 <= k < sp@.len() implies input@.to_multiset().count(
            (#[trigger] sp@[k]).0,
        ) == sp@[k].1 by {
            assert(sp@.to_multiset().count(sp@[k]) > 0);
            assert(pv.contains(sp@[k]));
            let j = choose|j: int| 0 <= j < pv.len() && pv[j] == sp@[k];
            assert(pairs_seq(pv).to_multiset().count(pv[j].0) == pv[j].1);
        }
    }
    let r = group_by_count(&sp, Ghost(input@.to_multiset()));
    proof {
        let g = grouping(input@.to_multiset());
        assert(is_grouping(groups_view(r@), input@));
        assert(groups_of(g, input@.to_multiset()));
        lemma_grouping_unique(g, groups_view(r@), input@);
    }
    r
}

proof fn lemma_runs_digits_valid(rs: Seq<(int, int)>)
    requires
        runs_in_range(rs),
    ensures
        digits_valid(runs_digits(rs), IN_RADIX + 1),
    decreases rs.len(),
{
    if rs.len() > 0 {
        assert(runs_in_range(rs.drop_first())) by {
            assert forall|j: int| 0 <= j < rs.drop_first().len() implies IN_MIN <= (
            #[trigger] rs.drop_first()[j]).0 <= IN_MAX && 0 <= rs.drop_first()[j].1 <= IN_MAX by {
                assert(rs.drop_first()[j] == rs[j + 1]);
            }
        }
        lemma_runs_digits_valid(rs.drop_first());
        assert(IN_MIN <= rs[0].0 <= IN_MAX && 0 <= rs[0].1 <= IN_MAX);
        let d = runs_digits(rs);
        let t = runs_digits(rs.drop_first());
        assert forall|i: int| 0 <= i < d.len() implies 0 <= #[trigger] d[i] < IN_RADIX + 1 by {
            if i >= 2 {
                assert(d[i] == t[i - 2]);
            }
        }
    }
}

proof fn lemma_invalid_count(gs: Seq<(Seq<(int, int)>, int)>) -> (i: int)
    requires
        groups_in_range(gs),
        !digits_valid(groups_digits(gs), IN_RADIX + 1),
    ensures
        0 <= i < gs.len(),
        gs[i].1 > IN_MAX,
    decreases gs.len(),
{
    if gs.len() == 0 {
        assert(false);
        0
    } else {
        let rest = gs.drop_first();
        assert(groups_in_range(rest)) by {
            assert forall|k: int| 0 <= k < rest.len() implies runs_in_range((#[trigger] rest[k]).0)
                && 0 <= rest[k].1 by {
                assert(rest[k] == gs[k + 1]);
            }
        }
        assert(runs_in_range(gs[0].0));
        lemma_runs_digits_valid(gs[0].0);
        if gs[0].1 > IN_MAX {
            0
        } else {
            let rd = runs_digits(gs[0].0);
            let head = rd + seq![IN_MARKER - IN_MIN, gs[0].1];
            let d = groups_digits(gs);
            assert(d == head + groups_digits(rest));
            if digits_valid(groups_digits(rest), IN_RADIX + 1) {
                assert forall|k: int| 0 <= k < d.len() implies 0 <= #[trigger] d[k] < IN_RADIX + 1 by {
                    if k < rd.len() {
                        assert(d[k] == rd[k]);
                    } else if k < head.len() {
                        assert(d[k] == head[k]);
                    } else {
                        assert(d[k] == groups_digits(rest)[k - head.len()]);
                    }
                }
                assert(false);
                0
            } else {
                let j = lemma_invalid_count(rest);
                assert(rest[j] == gs[j + 1]);
                j + 1
            }
        }
    }
}

proof fn lemma_copies_count(v: i32, c: nat)
    ensures
        copies(v, c).to_multiset().count(v) == c,
        forall|u: i32| u != v ==> copies(v, c).to_multiset().count(u) == 0,
    decreases c,
{
    broadcast use vstd::seq_lib::group_to_multiset_ensures;

    if c > 0 {
        lemma_copies_count(v, (c - 1) as nat);
        assert(copies(v, c) =~= copies(v, (c - 1) as nat).push(v));
    } else {
        assert(copies(v, c).to_multiset().len() == 0);
    }
}

proof fn lemma_group_count_bound(gs: Seq<(Seq<(int, int)>, int)>, i: int)
    requires
        0 <= i < gs.len(),
        counts_positive(gs),
    ensures
        groups_values(gs).to_multiset().count(runs_values(gs[i].0)[0]) >= gs[i].1,
    decreases i,
{
    broadcast use vstd::seq_lib::lemma_multiset_commutative;

    let rest = gs.drop_first();
    assert(counts_positive(rest)) by {
        assert forall|k: int| 0 <= k < rest.len() implies (#[trigger] rest[k]).1 >= 1 && runs_values(
            rest[k].0,
        ).len() > 0 by {
            assert(rest[k] == gs[k + 1]);
        }
    }
    assert(gs[0].1 >= 1 && runs_values(gs[0].0).len() > 0);
    let sp = spread(runs_values(gs[0].0), gs[0].1 as nat);
    assert(groups_values(gs) == sp + groups_values(rest));
    if i == 0 {
        let rv = runs_values(gs[0].0);
        assert(sp == copies(rv[0], gs[0].1 as nat) + spread(rv.drop_first(), gs[0].1 as nat));
        lemma_copies_count(rv[0], gs[0].1 as nat);
    } else {
        lemma_group_count_bound(rest, i - 1);
        assert(rest[i - 1] == gs[i]);
    }
}

/// Writes the multiset of `input` in printable bytes. A value outside
/// `[1, 1000]` is refused with `OutOfRange`; a value that occurs more than
/// 1000 times has a count that is no intermediate digit: `InvalidDigit`.
/// What is written is the bytes of the one grouping of `input`'s multiset,
/// so it depends on that multiset alone, and reads back as those groups.
pub fn encode(input: &[i32]) -> (r: Result<Vec<u8>, CodecError>)
    ensures
        match r {
            Ok(v) => values_within(input@, IN_MIN as int, IN_MAX as int) && all_printable(v@)
                && v@ == groups_bytes(grouping(input@.to_multiset())) && decode_groups(v@) is Some && groups_values(
                decode_groups(v@).unwrap(),
            ).to_multiset() == input@.to_multiset() && (input@.len() == 0 ==> v@.len() == 0),
            Err(e) => (e == CodecError::OutOfRange <==> !values_within(
                input@,
                IN_MIN as int,
                IN_MAX as int,
            )) && (e == CodecError::OutOfRange || e == CodecError::InvalidDigit) && (e
                == CodecError::InvalidDigit ==> exists|v: i32| #[trigger]
                input@.to_multiset().count(v) > IN_MAX),
        },
{
    let mut i: usize = 0;
    while i < input.len()
        invariant
            i <= input.len(),
            forall|k: int| 0 <= k < i ==> IN_MIN <= #[trigger] input@[k] <= IN_MAX,
        decreases input.len() - i,
    {
        if input[i] < IN_MIN || input[i] > IN_MAX {
            assert(!(IN_MIN <= input@[i as int] <= IN_MAX));
            return Err(CodecError::OutOfRange);
        }
        i += 1;
    }
    let groups = encode_inner(input);
    let r = encode_after(&groups);
    proof {
        let gs = groups_view(groups@);
        if r is Ok {
            lemma_groups_bytes_round_trip(gs);
            if input@.len() == 0 {
                assert(gs.len() == 0);
                assert(groups_digits(gs) == Seq::<int>::empty());
                assert(digits_value(groups_digits(gs), IN_RADIX + 1) == 0);
            }
        } else {
            let k = lemma_invalid_count(gs);
            lemma_group_count_bound(gs, k);
            let v = runs_values(gs[k].0)[0];
            assert(input@.to_multiset().count(v) > IN_MAX);
        }
    }
    r
}

proof fn lemma_spread_member(vals: Seq<i32>, c: nat, k: int) -> (j: int)
    requires
        0 <= k < spread(vals, c).len(),
    ensures
        0 <= j < vals.len(),
        vals[j] == spread(vals, c)[k],
    decreases vals.len(),
{
    if vals.len() == 0 {
        assert(false);
        0
    } else {
        let sp = spread(vals, c);
        assert(sp == copies(vals[0], c) + spread(vals.drop_first(), c));
        if k < c {
            0
        } else {
            let j = lemma_spread_member(vals.drop_first(), c, k - c);
            j + 1
        }
    }
}

proof fn lemma_groups_member(gs: Seq<(Seq<(int, int)>, int)>, k: int) -> (ij: (int, int))
    requires
        0 <= k < groups_values(gs).len(),
    ensures
        0 <= ij.0 < gs.len(),
        0 <= ij.1 < runs_values(gs[ij.0].0).len(),
        runs_values(gs[ij.0].0)[ij.1] == groups_values(gs)[k],
    decreases gs.len(),
{
    if gs.len() == 0 {
        assert(false);
        (0, 0)
    } else {
        let head = spread(runs_values(gs[0].0), gs[0].1 as nat);
        assert(groups_values(gs) == head + groups_values(gs.drop_first()));
        if k < head.len() {
            let j = lemma_spread_member(runs_values(gs[0].0), gs[0].1 as nat, k);
            (0, j)
        } else {
            let ij = lemma_groups_member(gs.drop_first(), k - head.len());
            assert(gs.drop_first()[ij.0] == gs[ij.0 + 1]);
            (ij.0 + 1, ij.1)
        }
    }
}

proof fn lemma_gapped_ascending(rs: Seq<(int, int)>)
    requires
        runs_in_range(rs),
        runs_gapped(rs),
    ensures
        strictly_ascending(runs_values(rs)),
        forall|k: int| 0 <= k < runs_values(rs).len() ==> runs_values(rs)[k] >= rs[0].0,
    decreases rs.len(),
{
    if rs.len() > 0 {
        let t = rs.drop_first();
        assert(runs_in_range(t)) by {
            assert forall|j: int| 0 <= j < t.len() implies IN_MIN <= (#[trigger] t[j]).0 <= IN_MAX
                && 0 <= t[j].1 <= IN_MAX by {
                assert(t[j] == rs[j + 1]);
            }
        }
        assert(runs_gapped(t)) by {
            assert forall|j: int| 0 <= j < t.len() - 1 implies (#[trigger] t[j + 1]).0 > t[j].0 + t[j].1
                + 1 by {
                assert(t[j] == rs[j + 1] && t[j + 1] == rs[j + 2]);
            }
        }
        lemma_gapped_ascending(t);
        let h = run_values(rs[0]);
        let v = runs_values(rs);
        assert(v == h + runs_values(t));
        assert(IN_MIN <= rs[0].0 <= IN_MAX && 0 <= rs[0].1 <= IN_MAX);
        if t.len() > 0 {
            assert(t[0] == rs[1]);
            assert(rs[1].0 > rs[0].0 + rs[0].1 + 1);
        } else {
            assert(runs_values(t) == Seq::<i32>::empty());
        }
        assert forall|a: int, b: int| 0 <= a < b < v.len() implies v[a] < v[b] by {
            if b < h.len() {
            } else if a < h.len() {
                assert(v[b] == runs_values(t)[b - h.len()]);
            } else {
                assert(v[a] == runs_values(t)[a - h.len()]);
                assert(v[b] == runs_values(t)[b - h.len()]);
            }
        }
        assert forall|k: int| 0 <= k < v.len() implies v[k] >= rs[0].0 by {
            if k >= h.len() {
                assert(v[k] == runs_values(t)[k - h.len()]);
            }
        }
    }
}

proof fn lemma_ascending_unique(a: Seq<int>, b: Seq<int>)
    requires
        forall|i: int, j: int| 0 <= i < j < a.len() ==> a[i] < a[j],
        forall|i: int, j: int| 0 <= i < j < b.len() ==> b[i] < b[j],
        forall|v: int| a.contains(v) <==> b.contains(v),
    ensures
        a == b,
    decreases a.len() + b.len(),
{
    if a.len() == 0 || b.len() == 0 {
        if a.len() > 0 {
            assert(a.contains(a[0]));
        }
        if b.len() > 0 {
            assert(b.contains(b[0]));
        }
        assert(a =~= b);
    } else {
        assert(a.contains(a[0]) && b.contains(b[0]));
        let ia = choose|i: int| 0 <= i < b.len() && b[i] == a[0];
        let ib = choose|i: int| 0 <= i < a.len() && a[i] == b[0];
        assert(a[0] == b[0]) by {
            if ia > 0 {
                assert(b[0] < b[ia]);
            }
            if ib > 0 {
                assert(a[0] < a[ib]);
            }
        }
        let ta = a.drop_first();
        let tb = b.drop_first();
        assert forall|v: int| ta.contains(v) <==> tb.contains(v) by {
            if ta.contains(v) {
                let i = choose|i: int| 0 <= i < ta.len() && ta[i] == v;
                assert(a[0] < a[i + 1]);
                assert(a.contains(v));
                let j = choose|j: int| 0 <= j < b.len() && b[j] == v;
                assert(j != 0);
                assert(tb[j - 1] == v);
            }
            if tb.contains(v) {
                let i = choose|i: int| 0 <= i < tb.len() && tb[i] == v;
                assert(b[0] < b[i + 1]);
                assert(b.contains(v));
                let j = choose|j: int| 0 <= j < a.len() && a[j] == v;
                assert(j != 0);
                assert(ta[j - 1] == v);
            }
        }
        lemma_ascending_unique(ta, tb);
        assert(a =~= seq![a[0]] + ta);
        assert(b =~= seq![b[0]] + tb);
    }
}

proof fn lemma_runs_tail(rs: Seq<(int, int)>)
    requires
        rs.len() > 0,
        runs_in_range(rs),
        runs_gapped(rs),
    ensures
        runs_in_range(rs.drop_first()),
        runs_gapped(rs.drop_first()),
        runs_values(rs) == run_values(rs[0]) + runs_values(rs.drop_first()),
        run_values(rs[0]).len() == rs[0].1 + 1,
        rs.len() > 1 ==> runs_values(rs.drop_first()).len() > 0 && runs_values(rs.drop_first())[0]
            == rs[1].0 && rs[1].0 > rs[0].0 + rs[0].1 + 1,
        rs.len() == 1 ==> runs_values(rs.drop_first()).len() == 0,
{
    let t = rs.drop_first();
    assert forall|j: int| 0 <= j < t.len() implies IN_MIN <= (#[trigger] t[j]).0 <= IN_MAX && 0
        <= t[j].1 <= IN_MAX by {
        assert(t[j] == rs[j + 1]);
    }
    assert forall|j: int| 0 <= j < t.len() - 1 implies (#[trigger] t[j + 1]).0 > t[j].0 + t[j].1
        + 1 by {
        assert(t[j] == rs[j + 1] && t[j + 1] == rs[j + 2]);
    }
    assert(0 <= rs[0].1);
    if rs.len() > 1 {
        assert(t[0] == rs[1]);
        assert(0 <= rs[1].1);
        assert(runs_values(t) == run_values(t[0]) + runs_values(t.drop_first()));
        assert(rs[1].0 > rs[0].0 + rs[0].1 + 1);
    }
}

proof fn lemma_runs_unique(r1: Seq<(int, int)>, r2: Seq<(int, int)>)
    requires
        runs_in_range(r1),
        runs_gapped(r1),
        runs_in_range(r2),
        runs_gapped(r2),
        runs_values(r1) == runs_values(r2),
    ensures
        r1 == r2,
    decreases r1.len() + r2.len(),
{
    if r1.len() == 0 || r2.len() == 0 {
        if r1.len() > 0 {
            lemma_runs_tail(r1);
            assert(runs_values(r1).len() > 0);
            assert(runs_values(r2).len() == 0);
        }
        if r2.len() > 0 {
            lemma_runs_tail(r2);
            assert(runs_values(r2).len() > 0);
            assert(runs_values(r1).len() == 0);
        }
        assert(r1 =~= r2);
    } else {
        lemma_runs_tail(r1);
        lemma_runs_tail(r2);
        let v = runs_values(r1);
        let e1 = r1[0].1;
        let e2 = r2[0].1;
        assert(v[0] == r1[0].0 + 0 && v[0] == r2[0].0 + 0);
        assert(e1 == e2) by {
            if e1 < e2 {
                assert(v[e1 + 1] == runs_values(r2)[e1 + 1]);
                assert(runs_values(r2)[e1 + 1] == r2[0].0 + e1 + 1);
                if r1.len() > 1 {
                    assert(v[e1 + 1] == runs_values(r1.drop_first())[0]);
                }
            }
            if e2 < e1 {
                assert(v[e2 + 1] == runs_values(r1)[e2 + 1]);
                assert(runs_values(r1)[e2 + 1] == r1[0].0 + e2 + 1);
                if r2.len() > 1 {
                    assert(v[e2 + 1] == runs_values(r2.drop_first())[0]);
                }
            }
        }
        assert(r1[0] == r2[0]);
        assert(runs_values(r1.drop_first()) =~= v.skip(e1 + 1));
        assert(runs_values(r2.drop_first()) =~= v.skip(e1 + 1));
        lemma_runs_unique(r1.drop_first(), r2.drop_first());
        assert(r1 =~= seq![r1[0]] + r1.drop_first());
        assert(r2 =~= seq![r2[0]] + r2.drop_first());
    }
}

proof fn lemma_locate(gs: Seq<(Seq<(int, int)>, int)>, x: Seq<i32>, v: i32) -> (i: int)
    requires
        is_grouping(gs, x),
        x.to_multiset().count(v) > 0,
    ensures
        0 <= i < gs.len(),
        runs_values(gs[i].0).contains(v),
        gs[i].1 == x.to_multiset().count(v),
{
    broadcast use vstd::seq_lib::group_to_multiset_ensures;

    let gv = groups_values(gs);
    assert(gv.to_multiset().count(v) > 0);
    assert(gv.contains(v));
    let k = choose|k: int| 0 <= k < gv.len() && gv[k] == v;
    let ij = lemma_groups_member(gs, k);
    assert(runs_values(gs[ij.0].0)[ij.1] == v);
    ij.0
}

/// The groups of a multiset are determined by it: two groupings of the
/// same values are equal.
pub proof fn lemma_grouping_unique(
    g1: Seq<(Seq<(int, int)>, int)>,
    g2: Seq<(Seq<(int, int)>, int)>,
    x: Seq<i32>,
)
    requires
        is_grouping(g1, x),
        is_grouping(g2, x),
    ensures
        g1 == g2,
{
    let m = x.to_multiset();
    let c1 = Seq::new(g1.len(), |i: int| g1[i].1);
    let c2 = Seq::new(g2.len(), |i: int| g2[i].1);
    assert forall|c: int| c1.contains(c) <==> c2.contains(c) by {
        if c1.contains(c) {
            let i = choose|i: int| 0 <= i < c1.len() && c1[i] == c;
            let v = runs_values(g1[i].0)[0];
            assert(m.count(v) == g1[i].1);
            let j = lemma_locate(g2, x, v);
            assert(c2[j] == c);
        }
        if c2.contains(c) {
            let i = choose|i: int| 0 <= i < c2.len() && c2[i] == c;
            let v = runs_values(g2[i].0)[0];
            assert(m.count(v) == g2[i].1);
            let j = lemma_locate(g1, x, v);
            assert(c1[j] == c);
        }
    }
    lemma_ascending_unique(c1, c2);
    assert(g1.len() == g2.len());
    assert forall|i: int| 0 <= i < g1.len() implies g1[i] == g2[i] by {
        assert(c1[i] == c2[i]);
        let v1 = runs_values(g1[i].0);
        let v2 = runs_values(g2[i].0);
        lemma_gapped_ascending(g1[i].0);
        lemma_gapped_ascending(g2[i].0);
        let w1 = v1.map_values(|v: i32| v as int);
        let w2 = v2.map_values(|v: i32| v as int);
        assert forall|v: i32| v1.contains(v) <==> v2.contains(v) by {
            if v1.contains(v) {
                let k = choose|k: int| 0 <= k < v1.len() && v1[k] == v;
                assert(m.count(v1[k]) == g1[i].1);
                let j = lemma_locate(g2, x, v);
                if j < i {
                    assert(g2[j].1 < g2[i].1);
                }
                if i < j {
                    assert(g2[i].1 < g2[j].1);
                }
            }
            if v2.contains(v) {
                let k = choose|k: int| 0 <= k < v2.len() && v2[k] == v;
                assert(m.count(v2[k]) == g2[i].1);
                let j = lemma_locate(g1, x, v);
                if j < i {
                    assert(g1[j].1 < g1[i].1);
                }
                if i < j {
                    assert(g1[i].1 < g1[j].1);
                }
            }
        }
        assert forall|w: int| w1.contains(w) <==> w2.contains(w) by {
            if w1.contains(w) {
                let k = choose|k: int| 0 <= k < w1.len() && w1[k] == w;
                assert(v1.contains(v1[k]));
                let k2 = choose|k2: int| 0 <= k2 < v2.len() && v2[k2] == v1[k];
                assert(w2[k2] == w);
            }
            if w2.contains(w) {
                let k = choose|k: int| 0 <= k < w2.len() && w2[k] == w;
                assert(v2.contains(v2[k]));
                let k1 = choose|k1: int| 0 <= k1 < v1.len() && v1[k1] == v2[k];
                assert(w1[k1] == w);
            }
        }
        lemma_ascending_unique(w1, w2);
        assert(v1 =~= v2) by {
            assert(v1.len() == w1.len() && v2.len() == w2.len());
            assert forall|k: int| 0 <= k < v1.len() implies v1[k] == v2[k] by {
                assert(w1[k] == w2[k]);
            }
        }
        lemma_runs_unique(g1[i].0, g2[i].0);
    }
    assert(g1 =~= g2);
}

} // verus!
