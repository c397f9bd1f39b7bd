use vstd::prelude::*;

use crate::decode::Deserialize;
use crate::error::PatternError;
use crate::pattern::{agree, first_mismatch, lemma_agree_or_mismatch, Pattern};
use crate::source::ByteSource;

verus! {

/// The outcome of extracting `n` items of any value from cursor `p`, leaving
/// it as `q`: the next `n` items in order when the source holds that many,
/// else `NotFound` with the source drained. Either way every pulled item is
/// counted.
pub open spec fn any_outcome<S: ByteSource, const N: usize>(
    p: Pattern<S>,
    q: Pattern<S>,
    n: nat,
    r: Result<[u8; N], PatternError>,
) -> bool {
    if p.rest().len() >= n {
        &&& r is Ok
        &&& r->Ok_0@ == p.rest().take(n as int)
        &&& q.rest() == p.rest().skip(n as int)
        &&& q.consumed() == p.consumed() + n
    } else {
        &&& r == Err::<[u8; N], _>(PatternError::NotFound)
        &&& q.rest().len() == 0
        &&& q.consumed() == p.consumed() + p.rest().len()
    }
}

/// The outcome of pulling items from `rest` that must equal `e` position by
/// position, leaving `after` and having pulled `pulled` items. When all match,
/// the result is `base` followed by `e`; at the first mismatch the call fails
/// with `IncorrectValue` just past it; if the items run out before, it fails
/// with `NotFound` with the source drained.
pub open spec fn check_outcome(
    rest: Seq<u8>,
    e: Seq<u8>,
    base: Seq<u8>,
    after: Seq<u8>,
    pulled: int,
    r: Result<Seq<u8>, PatternError>,
) -> bool {
    if rest.len() >= e.len() && agree(rest, e, e.len() as int) {
        &&& r == Ok::<Seq<u8>, PatternError>(base + e)
        &&& after == rest.skip(e.len() as int)
        &&& pulled == e.len()
    } else if exists|i: int| #![trigger first_mismatch(rest, e, i)] first_mismatch(rest, e, i) {
        &&& r == Err::<Seq<u8>, _>(PatternError::IncorrectValue)
        &&& forall|i: int|
            #![trigger first_mismatch(rest, e, i)]
            first_mismatch(rest, e, i) ==> after == rest.skip(i + 1) && pulled == i + 1
    } else {
        &&& r == Err::<Seq<u8>, _>(PatternError::NotFound)
        &&& after.len() == 0
        &&& pulled == rest.len()
    }
}

/// An extraction result, with the array seen as a sequence.
pub open spec fn as_seq<const N: usize>(r: Result<[u8; N], PatternError>) -> Result<
    Seq<u8>,
    PatternError,
> {
    match r {
        Ok(a) => Ok(a@),
        Err(e) => Err(e),
    }
}

/// The outcome of matching `e` immediately against cursor `p`, leaving it as `q`.
pub open spec fn immediate_outcome<S: ByteSource, const N: usize>(
    p: Pattern<S>,
    q: Pattern<S>,
    e: Seq<u8>,
    r: Result<[u8; N], PatternError>,
) -> bool {
    check_outcome(
        p.rest(),
        e,
        Seq::empty(),
        q.rest(),
        q.consumed() - p.consumed(),
        as_seq(r),
    )
}

/// Position `a` holds the first occurrence of `v` in `s`.
pub open spec fn first_index(s: Seq<u8>, v: u8, a: int) -> bool {
    &&& 0 <= a < s.len()
    &&& s[a] == v
    &&& forall|j: int| 0 <= j < a ==> s[j] != v
}

/// The outcome of scanning cursor `p` for `e`, leaving it as `q`: the items
/// before the first occurrence of `e[0]` are skipped, then the rest of `e` must
/// follow immediately. Without an occurrence the call fails with `NotFound`
/// after draining the source. An empty `e` matches at once.
pub open spec fn deferred_outcome<S: ByteSource, const N: usize>(
    p: Pattern<S>,
    q: Pattern<S>,
    e: Seq<u8>,
    r: Result<[u8; N], PatternError>,
) -> bool {
    if e.len() == 0 {
        &&& r is Ok
        &&& r->Ok_0@ == e
        &&& q.rest() == p.rest()
        &&& q.consumed() == p.consumed()
    } else if !p.rest().contains(e[0]) {
        &&& r == Err::<[u8; N], _>(PatternError::NotFound)
        &&& q.rest().len() == 0
        &&& q.consumed() == p.consumed() + p.rest().len()
    } else {
        forall|a: int|
            #![trigger first_index(p.rest(), e[0], a)]
            first_index(p.rest(), e[0], a) ==> check_outcome(
                p.rest().skip(a + 1),
                e.skip(1),
                seq![e[0]],
                q.rest(),
                q.consumed() - p.consumed() - (a + 1),
                as_seq(r),
            )
    }
}

/// The `j`-th run of `k` bytes of `rest`.
pub open spec fn run(rest: Seq<u8>, k: nat, j: int) -> Seq<u8> {
    rest.subrange(j * k, (j + 1) * k)
}

/// Each of the first `j` runs of `K` bytes of `rest` is there in full and
/// decodes to a value.
pub open spec fn runs_decode<T: Deserialize<K>, const K: usize>(rest: Seq<u8>, j: int) -> bool {
    forall|i: int|
        #![trigger run(rest, K as nat, i)]
        0 <= i < j ==> (i + 1) * K <= rest.len() && T::decoded(run(rest, K as nat, i)) is Some
}

/// The outcome of decoding `n` values of `T`, each from a run of `K` bytes,
/// from cursor `p`, leaving it as `q`. The first run that is not there in full
/// fails the call with `NotFound` (the source drained); the first that does
/// not decode fails it with `FailedDeserialize`, carrying the consumed count
/// just past that run. Otherwise the result holds the decoded values in order.
pub open spec fn get_outcome<S: ByteSource, T: Deserialize<K>, const K: usize>(
    p: Pattern<S>,
    q: Pattern<S>,
    n: nat,
    r: Result<Vec<T>, PatternError>,
) -> bool {
    let rest = p.rest();
    &&& runs_decode::<T, K>(rest, n as int) ==> {
        &&& r is Ok
        &&& r->Ok_0@.len() == n
        &&& forall|j: int|
            #![trigger r->Ok_0@[j]]
            0 <= j < n ==> Some(r->Ok_0@[j]) == T::decoded(run(rest, K as nat, j))
        &&& q.rest() == rest.skip(n * K)
        &&& q.consumed() == p.consumed() + n * K
    }
    &&& forall|j: int|
        #![trigger runs_decode::<T, K>(rest, j)]
        0 <= j < n && runs_decode::<T, K>(rest, j) && (j + 1) * K <= rest.len() && T::decoded(
            run(rest, K as nat, j),
        ) is None ==> {
            &&& r == Err::<Vec<T>, _>(PatternError::FailedDeserialize((p.consumed() + (j + 1) * K) as usize))
            &&& q.rest() == rest.skip((j + 1) * K)
            &&& q.consumed() == p.consumed() + (j + 1) * K
        }
    &&& forall|j: int|
        #![trigger runs_decode::<T, K>(rest, j)]
        0 <= j < n && runs_decode::<T, K>(rest, j) && (j + 1) * K > rest.len() ==> {
            &&& r == Err::<Vec<T>, _>(PatternError::NotFound)
            &&& q.rest().len() == 0
            &&& q.consumed() == p.consumed() + rest.len()
        }
}

/// Expects N items of any value immediately.
pub struct AnyStrategy<'a, S: ByteSource, const N: usize> {
    /// The cursor this handle borrows for its extraction.
    pub pattern: &'a mut Pattern<S>,
}

impl<'a, S: ByteSource, const N: usize> AnyStrategy<'a, S, N> {
    pub(crate) fn new(pattern: &'a mut Pattern<S>) -> (r: Self)
        ensures
            *r.pattern == *old(pattern),
            *final(r.pattern) == *final(pattern),
    {
        AnyStrategy { pattern }
    }

    /// Extracts the next N items, whatever their values, and hands them to
    /// `observer` once they are all there (not on failure).
    pub fn extract_and<F: FnMut(&[u8])>(&mut self, observer: F) -> (r: Result<[u8; N], PatternError>)
        requires
            old(self).pattern.wf(),
            forall|s: &[u8]| #[trigger] call_requires(observer, (s,)),
        ensures
            final(self).pattern.wf(),
            *final(final(self).pattern) == *final(old(self).pattern),
            any_outcome(*old(self).pattern, *final(self).pattern, N as nat, r),
    {
        let mut observer = observer;
        let mut result = [0u8; N];
        let r = self.pattern.collect(&mut result, 0, None);
        match r {
            Ok(()) => {
                assert(result@ =~= old(self).pattern.rest().take(N as int));
                observer(result.as_slice());
                Ok(result)
            },
            Err(e) => Err(e),
        }
    }

    /// Extracts the next N items, whatever their values.
    pub fn extract(&mut self) -> (r: Result<[u8; N], PatternError>)
        requires
            old(self).pattern.wf(),
        ensures
            final(self).pattern.wf(),
            *final(final(self).pattern) == *final(old(self).pattern),
            any_outcome(*old(self).pattern, *final(self).pattern, N as nat, r),
    {
        self.extract_and(|_items: &[u8]| {})
    }
}

/// Expects N given values immediately, in order.
pub struct ImmediateValueStrategy<'a, S: ByteSource, const N: usize> {
    /// The cursor this handle borrows for its extraction.
    pub pattern: &'a mut Pattern<S>,
    /// The values the next N items must equal.
    pub expected: [u8; N],
}

impl<'a, S: ByteSource, const N: usize> ImmediateValueStrategy<'a, S, N> {
    pub(crate) fn new(pattern: &'a mut Pattern<S>, expected: [u8; N]) -> (r: Self)
        ensures
            *r.pattern == *old(pattern),
            *final(r.pattern) == *final(pattern),
            r.expected == expected,
    {
        ImmediateValueStrategy { pattern, expected }
    }

    /// Extracts the next N items, each of which must equal its expected value.
    pub fn extract(&mut self) -> (r: Result<[u8; N], PatternError>)
        requires
            old(self).pattern.wf(),
        ensures
            final(self).pattern.wf(),
            *final(final(self).pattern) == *final(old(self).pattern),
            final(self).expected == old(self).expected,
            immediate_outcome(*old(self).pattern, *final(self).pattern, old(self).expected@, r),
    {
        let ghost rest = self.pattern.rest();
        let ghost e = self.expected@;
        let mut result = [0u8; N];
        let r = self.pattern.collect(&mut result, 0, Some(&self.expected));
        assert(e.skip(0) =~= e);
        proof {
            if rest.len() >= e.len() && agree(rest, e, e.len() as int) {
                assert(result@ =~= e);
            } else if exists|i: int| #![trigger first_mismatch(rest, e, i)] first_mismatch(rest, e, i) {
                let i = choose|i: int| #![trigger first_mismatch(rest, e, i)] first_mismatch(rest, e, i);
                assert(i < N);
            } else {
                if rest.len() >= N {
                    lemma_agree_or_mismatch(rest, e, N as int);
                } else {
                    lemma_agree_or_mismatch(rest, e, rest.len() as int);
                }
            }
        }
        match r {
            Ok(()) => Ok(result),
            Err(err) => Err(err),
        }
    }

    /// The same expected values, matched after scanning for the first one.
    pub fn deferred(self) -> (r: DeferredValueStrategy<'a, S, N>)
        ensures
            r.expected == self.expected,
            *r.pattern == *old(self.pattern),
            *final(r.pattern) == *final(self.pattern),
    {
        DeferredValueStrategy::new(self.pattern, self.expected)
    }
}

/// Scans for the first of N given values, then expects the others immediately.
pub struct DeferredValueStrategy<'a, S: ByteSource, const N: usize> {
    /// The cursor this handle borrows for its extraction.
    pub pattern: &'a mut Pattern<S>,
    /// The values to find; the first one anchors the match.
    pub expected: [u8; N],
}

impl<'a, S: ByteSource, const N: usize> DeferredValueStrategy<'a, S, N> {
    pub(crate) fn new(pattern: &'a mut Pattern<S>, expected: [u8; N]) -> (r: Self)
        ensures
            *r.pattern == *old(pattern),
            *final(r.pattern) == *final(pattern),
            r.expected == expected,
    {
        DeferredValueStrategy { pattern, expected }
    }

    /// Skips items up to the first that equals the anchor `expected[0]`, then
    /// extracts it and the N - 1 items after it, each of which must equal its
    /// expected value.
    pub fn extract(&mut self) -> (r: Result<[u8; N], PatternError>)
        requires
            old(self).pattern.wf(),
        ensures
            final(self).pattern.wf(),
            *final(final(self).pattern) == *final(old(self).pattern),
            final(self).expected == old(self).expected,
            deferred_outcome(*old(self).pattern, *final(self).pattern, old(self).expected@, r),
    {
        self.extract_and(|_items: &[u8]| {})
    }

    /// As `extract`, handing the matched items to `observer` once they are all
    /// there (not on failure).
    pub fn extract_and<F: FnMut(&[u8])>(&mut self, observer: F) -> (r: Result<[u8; N], PatternError>)
        requires
            old(self).pattern.wf(),
            forall|s: &[u8]| #[trigger] call_requires(observer, (s,)),
        ensures
            final(self).pattern.wf(),
            *final(final(self).pattern) == *final(old(self).pattern),
            final(self).expected == old(self).expected,
            deferred_outcome(*old(self).pattern, *final(self).pattern, old(self).expected@, r),
    {
        let ghost start_cursor = *self.pattern;
        let ghost rest = start_cursor.rest();
        let ghost e = self.expected@;
        let mut observer = observer;
        let mut result = [0u8; N];
        assert(e.len() == N);
        if N == 0 {
            assert(result@ =~= e);
            observer(result.as_slice());
            return Ok(result);
        }
        let anchor = self.expected[0];
        let ghost mut skipped: int = 0;
        loop
            invariant_except_break
                0 <= skipped <= rest.len(),
                self.pattern.rest() == rest.skip(skipped),
                self.pattern.consumed() == start_cursor.consumed() + skipped,
            invariant
                self.pattern.wf(),
                self.expected == old(self).expected,
                e == old(self).expected@,
                start_cursor == *old(self).pattern,
                rest == start_cursor.rest(),
                e.len() == N,
                N > 0,
                anchor == e[0],
                *final(self.pattern) == *final(old(self).pattern),
                forall|j: int| 0 <= j < skipped ==> rest[j] != anchor,
            ensures
                0 <= skipped < rest.len(),
                rest[skipped] == anchor,
                self.pattern.rest() == rest.skip(skipped + 1),
                self.pattern.consumed() == start_cursor.consumed() + skipped + 1,
            decreases rest.len() - skipped,
        {
            let mut one = [0u8; 1];
            match self.pattern.collect(&mut one, 0, None) {
                Ok(()) => {
                    assert(one[0] == rest[skipped]);
                    if one[0] == anchor {
                        break ;
                    }
                    proof {
                        skipped = skipped + 1;
                    }
                },
                Err(err) => {
                    proof {
                        assert(agree(rest.skip(skipped), rest.skip(skipped), 0));
                        assert(err == PatternError::NotFound);
                        assert(skipped == rest.len());
                        assert forall|j: int| 0 <= j < rest.len() implies rest[j] != anchor by {}
                        assert(!rest.contains(anchor));
                        assert(self.pattern.consumed() == start_cursor.consumed() + rest.len());
                    }
                    return Err(err);
                },
            }
        }
        let ghost a = skipped;
        let ghost tail = rest.skip(a + 1);
        let ghost before = *self.pattern;
        result[0] = anchor;
        let r = self.pattern.collect(&mut result, 1, Some(&self.expected));
        proof {
            let e1 = e.skip(1);
            assert(first_index(rest, anchor, a));
            assert(rest.contains(anchor));
            assert forall|b: int| #![trigger first_index(rest, e[0], b)] first_index(rest, e[0], b) implies b
                == a by {
                if b < a {
                    assert(rest[b] != anchor);
                } else if b > a {
                    assert(rest[a] != anchor);
                }
            }
            assert(tail == before.rest());
            if tail.len() >= e1.len() && agree(tail, e1, e1.len() as int) {
                assert(result@ =~= seq![e[0]] + e1);
            } else if exists|i: int| #![trigger first_mismatch(tail, e1, i)] first_mismatch(tail, e1, i) {
                let i = choose|i: int| #![trigger first_mismatch(tail, e1, i)] first_mismatch(tail, e1, i);
                assert(i < N - 1);
            } else {
                if tail.len() >= N - 1 {
                    lemma_agree_or_mismatch(tail, e1, N - 1);
                } else {
                    lemma_agree_or_mismatch(tail, e1, tail.len() as int);
                }
            }
        }
        match r {
            Ok(()) => {
                observer(result.as_slice());
                Ok(result)
            },
            Err(err) => Err(err),
        }
    }
}

/// Decodes N values, each from the next run of raw bytes.
pub struct GetStrategy<'a, S: ByteSource, const N: usize> {
    /// The cursor this handle borrows for its extraction.
    pub pattern: &'a mut Pattern<S>,
}

impl<'a, S: ByteSource, const N: usize> GetStrategy<'a, S, N> {
    pub(crate) fn new(pattern: &'a mut Pattern<S>) -> (r: Self)
        ensures
            *r.pattern == *old(pattern),
            *final(r.pattern) == *final(pattern),
    {
        GetStrategy { pattern }
    }

    /// Pulls N runs of `K` bytes in turn and decodes each into a `T`,
    /// stopping at the first run that is missing or does not decode.
    pub fn extract<T: Deserialize<K>, const K: usize>(&mut self) -> (r: Result<Vec<T>, PatternError>)
        requires
            old(self).pattern.wf(),
        ensures
            final(self).pattern.wf(),
            *final(final(self).pattern) == *final(old(self).pattern),
            get_outcome::<S, T, K>(*old(self).pattern, *final(self).pattern, N as nat, r),
    {
        self.extract_and(|_raw: &[u8]| {})
    }

    /// As `extract`, handing each raw run to `observer` once it has been
    /// pulled in full, before it is decoded.
    pub fn extract_and<T: Deserialize<K>, const K: usize, F: Fn(&[u8])>(&mut self, observer: F) -> (r: Result<
        Vec<T>,
        PatternError,
    >)
        requires
            old(self).pattern.wf(),
            forall|s: &[u8]| #[trigger] call_requires(observer, (s,)),
        ensures
            final(self).pattern.wf(),
            *final(final(self).pattern) == *final(old(self).pattern),
            get_outcome::<S, T, K>(*old(self).pattern, *final(self).pattern, N as nat, r),
    {
        let ghost start_cursor = *self.pattern;
        let ghost rest = start_cursor.rest();
        let mut out: Vec<T> = Vec::new();
        let mut i: usize = 0;
        while i < N
            invariant
                self.pattern.wf(),
                *final(self.pattern) == *final(old(self).pattern),
                start_cursor == *old(self).pattern,
                rest == start_cursor.rest(),
                i <= N,
                runs_decode::<T, K>(rest, i as int),
                forall|s: &[u8]| #[trigger] call_requires(observer, (s,)),
                out@.len() == i,
                forall|j: int|
                    #![trigger out@[j]]
                    0 <= j < i ==> Some(out@[j]) == T::decoded(run(rest, K as nat, j)),
                i * K <= rest.len(),
                self.pattern.rest() == rest.skip(i * K),
                self.pattern.consumed() == start_cursor.consumed() + i * K,
            decreases N - i,
        {
            assert((i + 1) * K == i * K + K) by (nonlinear_arith);
            let ghost before = *self.pattern;
            let mut any: AnyStrategy<'_, S, K> = AnyStrategy::new(&mut *self.pattern);
            let raw = any.extract();
            match raw {
                Ok(a) => {
                    assert(a@ =~= run(rest, K as nat, i as int));
                    observer(a.as_slice());
                    assert(self.pattern.rest() =~= rest.skip((i + 1) * K));
                    match T::deserialize(a) {
                        Some(v) => {
                            out.push(v);
                        },
                        None => {
                            proof {
                                assert(T::decoded(run(rest, K as nat, i as int)) is None);
                                lemma_first_failing_run::<T, K>(rest, i as int);
                                assert(!runs_decode::<T, K>(rest, N as int));
                                assert(rest.len() >= (i + 1) * K);
                                assert forall|j: int|
                                    #![trigger runs_decode::<T, K>(rest, j)]
                                    0 <= j < N && runs_decode::<T, K>(rest, j) implies (j + 1) * K
                                    <= rest.len() by {
                                    if j < i {
                                        assert((j + 1) * K <= rest.len() && T::decoded(
                                            run(rest, K as nat, j),
                                        ) is Some);
                                    }
                                }
                            }
                            let c = self.pattern.count();
                            assert(c == start_cursor.consumed() + (i + 1) * K);
                            return Err(PatternError::FailedDeserialize(c));
                        },
                    }
                },
                Err(e) => {
                    proof {
                        assert(rest.len() < (i + 1) * K);
                        assert(!((i + 1) * K <= rest.len() && T::decoded(run(rest, K as nat, i as int)) is Some));
                        lemma_first_failing_run::<T, K>(rest, i as int);
                    }
                    return Err(e);
                },
            }
            i = i + 1;
        }
        proof {
            assert forall|j: int| #![trigger runs_decode::<T, K>(rest, j)] 0 <= j < N implies (j + 1) * K <= rest.len() && T::decoded(run(rest, K as nat, j)) is Some by {
                assert(0 <= j < N);
            }
        }
        Ok(out)
    }
}

/// Where the first `j` runs decode, `j` is the only index below which they all
/// decode and at which one does not.
proof fn lemma_first_failing_run<T: Deserialize<K>, const K: usize>(rest: Seq<u8>, j: int)
    requires
        runs_decode::<T, K>(rest, j),
        !runs_decode::<T, K>(rest, j + 1),
    ensures
        forall|m: int|
            #![trigger runs_decode::<T, K>(rest, m)]
            runs_decode::<T, K>(rest, m) && !(runs_decode::<T, K>(rest, m + 1)) ==> m == j,
        forall|m: int| #![trigger runs_decode::<T, K>(rest, m)] m > j ==> !runs_decode::<T, K>(rest, m),
{
    assert forall|m: int| #![trigger runs_decode::<T, K>(rest, m)] m > j implies !runs_decode::<T, K>(rest, m) by {
        if runs_decode::<T, K>(rest, m) {
            assert forall|i: int| #![trigger run(rest, K as nat, i)] 0 <= i < j + 1 implies (i + 1) * K <= rest.len() && T::decoded(run(rest, K as nat, i)) is Some by {
                assert(i < m);
            }
        }
    }
    assert forall|m: int|
        #![trigger runs_decode::<T, K>(rest, m)]
        runs_decode::<T, K>(rest, m) && !(runs_decode::<T, K>(rest, m + 1)) implies m == j by {
        if m < j {
            assert forall|i: int| #![trigger run(rest, K as nat, i)] 0 <= i < m + 1 implies (i + 1) * K <= rest.len() && T::decoded(run(rest, K as nat, i)) is Some by {
                assert(i < j);
            }
        }
    }
}

impl<S: ByteSource> Pattern<S> {
    /// Dispatches an [AnyStrategy] over this cursor.
    pub fn any<const N: usize>(&mut self) -> (r: AnyStrategy<'_, S, N>)
        ensures
            *r.pattern == *old(self),
            *final(r.pattern) == *final(self),
    {
        AnyStrategy::new(self)
    }

    /// Dispatches an [ImmediateValueStrategy] for `expected` over this cursor.
    pub fn immediate<const N: usize>(&mut self, expected: [u8; N]) -> (r: ImmediateValueStrategy<
        '_,
        S,
        N,
    >)
        ensures
            *r.pattern == *old(self),
            *final(r.pattern) == *final(self),
            r.expected == expected,
    {
        ImmediateValueStrategy::new(self, expected)
    }

    /// Dispatches a [DeferredValueStrategy] for `expected` over this cursor.
    pub fn deferred<const N: usize>(&mut self, expected: [u8; N]) -> (r: DeferredValueStrategy<
        '_,
        S,
        N,
    >)
        ensures
            *r.pattern == *old(self),
            *final(r.pattern) == *final(self),
            r.expected == expected,
    {
        DeferredValueStrategy::new(self, expected)
    }

    /// Dispatches a [GetStrategy] over this cursor.
    pub fn get<const N: usize>(&mut self) -> (r: GetStrategy<'_, S, N>)
        ensures
            *r.pattern == *old(self),
            *final(r.pattern) == *final(self),
    {
        GetStrategy::new(self)
    }
}

} // verus!
