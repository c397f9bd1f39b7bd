use vstd::prelude::*;

use crate::decode::Deserialize;
use crate::error::PatternError;
use crate::pattern::{agree, first_mismatch, Pattern};
use crate::source::ByteSource;
use crate::strategy::{
    any_outcome,
    as_seq,
    check_outcome,
    deferred_outcome,
    first_index,
    get_outcome,
    immediate_outcome,
    run,
    runs_decode,
};

verus! {

/// An immediate match succeeds exactly when the next N items equal the
/// expected ones; at the first mismatch, at position `i`, it fails with
/// `IncorrectValue` having consumed exactly `i + 1` items.
pub proof fn lemma_immediate_match<S: ByteSource, const N: usize>(
    p: Pattern<S>,
    q: Pattern<S>,
    e: Seq<u8>,
    r: Result<[u8; N], PatternError>,
)
    requires
        e.len() == N,
        immediate_outcome(p, q, e, r),
    ensures
        r is Ok <==> p.rest().len() >= N && p.rest().take(N as int) == e,
        r is Ok ==> r->Ok_0@ == e,
        forall|i: int|
            #![trigger first_mismatch(p.rest(), e, i)]
            first_mismatch(p.rest(), e, i) ==> r == Err::<[u8; N], _>(PatternError::IncorrectValue)
                && q.consumed() == p.consumed() + i + 1,
{
    let rest = p.rest();
    if rest.len() >= N && agree(rest, e, N as int) {
        assert(rest.take(N as int) =~= e);
        assert forall|i: int| #![trigger first_mismatch(rest, e, i)] !first_mismatch(rest, e, i) by {}
    } else {
        if rest.len() >= N && rest.take(N as int) == e {
            assert forall|j: int| 0 <= j < N implies rest[j] == e[j] by {
                assert(rest.take(N as int)[j] == rest[j]);
            }
        }
    }
}

/// Scanning for `e` in `[x, y] + e + tail`, where neither `x` nor `y` is the
/// anchor `e[0]`, succeeds with `e` after consuming exactly `2 + N` items.
pub proof fn lemma_deferred_skips_two<S: ByteSource, const N: usize>(
    p: Pattern<S>,
    q: Pattern<S>,
    e: Seq<u8>,
    x: u8,
    y: u8,
    tail: Seq<u8>,
    r: Result<[u8; N], PatternError>,
)
    requires
        e.len() == N,
        N > 0,
        x != e[0],
        y != e[0],
        p.rest() == seq![x, y] + e + tail,
        deferred_outcome(p, q, e, r),
    ensures
        r is Ok,
        r->Ok_0@ == e,
        q.consumed() == p.consumed() + 2 + N,
        q.rest() == tail,
{
    let rest = p.rest();
    assert(rest[2] == e[0]);
    assert(first_index(rest, e[0], 2));
    assert(rest.contains(e[0]));
    let t = rest.skip(3);
    let e1 = e.skip(1);
    assert(t =~= e1 + tail);
    assert(agree(t, e1, e1.len() as int));
    assert(seq![e[0]] + e1 =~= e);
    assert(t.skip(e1.len() as int) =~= tail);
}

/// Scanning for `e` when the anchor `e[0]` never occurs fails with `NotFound`
/// after consuming the whole source.
pub proof fn lemma_deferred_absent<S: ByteSource, const N: usize>(
    p: Pattern<S>,
    q: Pattern<S>,
    e: Seq<u8>,
    r: Result<[u8; N], PatternError>,
)
    requires
        e.len() == N,
        N > 0,
        forall|i: int| 0 <= i < p.rest().len() ==> p.rest()[i] != e[0],
        deferred_outcome(p, q, e, r),
    ensures
        r == Err::<[u8; N], _>(PatternError::NotFound),
        q.consumed() == p.consumed() + p.rest().len(),
        q.rest().len() == 0,
{
}

/// An outcome of `check_outcome` is determined by its inputs.
proof fn lemma_check_outcome_unique(
    rest: Seq<u8>,
    e: Seq<u8>,
    base: Seq<u8>,
    after1: Seq<u8>,
    pulled1: int,
    r1: Result<Seq<u8>, PatternError>,
    after2: Seq<u8>,
    pulled2: int,
    r2: Result<Seq<u8>, PatternError>,
)
    requires
        check_outcome(rest, e, base, after1, pulled1, r1),
        check_outcome(rest, e, base, after2, pulled2, r2),
    ensures
        r1 == r2,
        after1.len() == 0 && after2.len() == 0 || after1 == after2,
        pulled1 == pulled2,
{
    if rest.len() >= e.len() && agree(rest, e, e.len() as int) {
    } else if exists|i: int| #![trigger first_mismatch(rest, e, i)] first_mismatch(rest, e, i) {
        let i = choose|i: int| #![trigger first_mismatch(rest, e, i)] first_mismatch(rest, e, i);
        assert(first_mismatch(rest, e, i));
    } else {
    }
}

/// Scanning is deterministic: two scans for the same `e` from the same cursor
/// give the same result and leave the cursor alike. So converting an immediate
/// match into a scan, which keeps the expected values (see
/// `ImmediateValueStrategy::deferred`), extracts what a scan dispatched
/// directly with those values does.
pub proof fn lemma_deferred_deterministic<S: ByteSource, const N: usize>(
    p: Pattern<S>,
    q1: Pattern<S>,
    r1: Result<[u8; N], PatternError>,
    q2: Pattern<S>,
    r2: Result<[u8; N], PatternError>,
    e: Seq<u8>,
)
    requires
        deferred_outcome(p, q1, e, r1),
        deferred_outcome(p, q2, e, r2),
    ensures
        as_seq(r1) == as_seq(r2),
        q1.consumed() == q2.consumed(),
        q1.rest().len() == q2.rest().len(),
{
    if e.len() != 0 && p.rest().contains(e[0]) {
        let a = choose|a: int| 0 <= a < p.rest().len() && p.rest()[a] == e[0];
        lemma_first_index_exists(p.rest(), e[0], a);
        let b = choose|b: int| #![trigger first_index(p.rest(), e[0], b)] first_index(
            p.rest(),
            e[0],
            b,
        );
        lemma_check_outcome_unique(
            p.rest().skip(b + 1),
            e.skip(1),
            seq![e[0]],
            q1.rest(),
            q1.consumed() - p.consumed() - (b + 1),
            as_seq(r1),
            q2.rest(),
            q2.consumed() - p.consumed() - (b + 1),
            as_seq(r2),
        );
    }
}

/// A value that occurs in `s` has a first occurrence.
proof fn lemma_first_index_exists(s: Seq<u8>, v: u8, a: int)
    requires
        0 <= a < s.len(),
        s[a] == v,
    ensures
        exists|b: int| #![trigger first_index(s, v, b)] first_index(s, v, b),
    decreases a,
{
    if exists|j: int| 0 <= j < a && s[j] == v {
        let j = choose|j: int| 0 <= j < a && s[j] == v;
        lemma_first_index_exists(s, v, j);
    } else {
        assert(first_index(s, v, a));
    }
}

/// Two extractions in a row observe contiguous windows of the source: the
/// first takes its next `n1` items, the second the `n2` after them.
pub proof fn lemma_sequential_windows<S: ByteSource, const N1: usize, const N2: usize>(
    p_first: Pattern<S>,
    p_mid: Pattern<S>,
    p_last: Pattern<S>,
    r1: Result<[u8; N1], PatternError>,
    r2: Result<[u8; N2], PatternError>,
)
    requires
        any_outcome(p_first, p_mid, N1 as nat, r1),
        any_outcome(p_mid, p_last, N2 as nat, r2),
        p_first.rest().len() >= N1 + N2,
    ensures
        r1 is Ok && r2 is Ok,
        r1->Ok_0@ + r2->Ok_0@ == p_first.rest().take(N1 + N2),
        p_last.rest() == p_first.rest().skip(N1 + N2),
        p_last.consumed() == p_first.consumed() + N1 + N2,
{
    assert(r1->Ok_0@ + r2->Ok_0@ =~= p_first.rest().take(N1 + N2));
    assert(p_last.rest() =~= p_first.rest().skip(N1 + N2));
}

/// With a decoder that accepts every run, a source of exactly `N * K` items
/// yields `N` values, each decoded from its consecutive run of `K` items.
pub proof fn lemma_get_all_decode<S: ByteSource, T: Deserialize<K>, const K: usize, const N: usize>(
    p: Pattern<S>,
    q: Pattern<S>,
    r: Result<Vec<T>, PatternError>,
)
    requires
        forall|raw: Seq<u8>| #[trigger] T::decoded(raw) is Some,
        p.rest().len() == N * K,
        get_outcome::<S, T, K>(p, q, N as nat, r),
    ensures
        r is Ok,
        r->Ok_0@.len() == N,
        forall|j: int|
            #![trigger r->Ok_0@[j]]
            0 <= j < N ==> Some(r->Ok_0@[j]) == T::decoded(p.rest().subrange(j * K, j * K + K)),
        q.rest().len() == 0,
        q.consumed() == p.consumed() + N * K,
{
    let rest = p.rest();
    assert forall|i: int|
        #![trigger run(rest, K as nat, i)]
        0 <= i < N implies (i + 1) * K <= rest.len() && T::decoded(run(rest, K as nat, i)) is Some by {
        assert((i + 1) * K <= N * K) by (nonlinear_arith)
            requires
                0 <= i < N,
        ;
    }
    assert(runs_decode::<T, K>(rest, N as int));
    assert forall|j: int| #![trigger r->Ok_0@[j]] 0 <= j < N implies Some(r->Ok_0@[j]) == T::decoded(
        rest.subrange(j * K, j * K + K),
    ) by {
        assert((j + 1) * K == j * K + K) by (nonlinear_arith);
    }
}

/// Where the runs before the `j`-th decode and the `j`-th is there but does
/// not decode, the call fails with `FailedDeserialize` carrying the consumed
/// count, having consumed exactly `(j + 1) * K` items; where the `j`-th run
/// is cut short by the end of the source, it fails with `NotFound` instead.
pub proof fn lemma_get_rejected<S: ByteSource, T: Deserialize<K>, const K: usize, const N: usize>(
    p: Pattern<S>,
    q: Pattern<S>,
    r: Result<Vec<T>, PatternError>,
    j: int,
)
    requires
        0 <= j < N,
        runs_decode::<T, K>(p.rest(), j),
        T::decoded(p.rest().subrange(j * K, j * K + K)) is None,
        get_outcome::<S, T, K>(p, q, N as nat, r),
    ensures
        r is Err,
        (j + 1) * K <= p.rest().len() ==> {
            &&& r == Err::<Vec<T>, _>(PatternError::FailedDeserialize(q.consumed() as usize))
            &&& q.consumed() == p.consumed() + j * K + K
        },
        (j + 1) * K > p.rest().len() ==> r == Err::<Vec<T>, _>(PatternError::NotFound)
            && q.consumed() == p.consumed() + p.rest().len(),
{
    assert((j + 1) * K == j * K + K) by (nonlinear_arith);
    assert(!runs_decode::<T, K>(p.rest(), N as int)) by {
        assert(run(p.rest(), K as nat, j) == p.rest().subrange(j * K, j * K + K));
    }
}

} // verus!
