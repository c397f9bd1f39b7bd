use vstd::prelude::*;

use crate::error::PatternError;
use crate::source::ByteSource;

verus! {

/// Whether `r` and `e` hold the same values at every position below `n`.
pub open spec fn agree(r: Seq<u8>, e: Seq<u8>, n: int) -> bool {
    forall|j: int| 0 <= j < n ==> r[j] == e[j]
}

/// Position `i` is the first at which `r` differs from `e`.
pub open spec fn first_mismatch(r: Seq<u8>, e: Seq<u8>, i: int) -> bool {
    &&& 0 <= i < r.len()
    &&& i < e.len()
    &&& r[i] != e[i]
    &&& agree(r, e, i)
}

/// What the items pulled from `rest` must match, position by position: the
/// expected values from `start` on, or, with none, the items themselves.
pub open spec fn target<const N: usize>(expected: Option<&[u8; N]>, start: usize, rest: Seq<
    u8,
>) -> Seq<u8> {
    match expected {
        Some(e) => e@.skip(start as int),
        None => rest,
    }
}

/// A first mismatch is unique, and rules out agreement past it.
pub proof fn lemma_first_mismatch_unique(r: Seq<u8>, e: Seq<u8>, i: int)
    requires
        first_mismatch(r, e, i),
    ensures
        forall|j: int| #![trigger first_mismatch(r, e, j)] first_mismatch(r, e, j) ==> j == i,
        forall|n: int| #![trigger agree(r, e, n)] n > i ==> !agree(r, e, n),
{
    assert forall|j: int| #![trigger first_mismatch(r, e, j)] first_mismatch(r, e, j) implies j
        == i by {
        if j < i {
            assert(r[j] == e[j]);
        } else if j > i {
            assert(r[i] == e[i]);
        }
    }
    assert forall|n: int| #![trigger agree(r, e, n)] n > i implies !agree(r, e, n) by {
        if agree(r, e, n) {
            assert(r[i] == e[i]);
        }
    }
}

/// Two sequences agree up to `n`, or differ first somewhere below it.
pub proof fn lemma_agree_or_mismatch(r: Seq<u8>, e: Seq<u8>, n: int)
    requires
        0 <= n <= r.len(),
        n <= e.len(),
    ensures
        agree(r, e, n) || exists|i: int| #![trigger first_mismatch(r, e, i)] i < n && first_mismatch(r, e, i),
    decreases n,
{
    if n > 0 {
        lemma_agree_or_mismatch(r, e, n - 1);
        if agree(r, e, n - 1) && r[n - 1] != e[n - 1] {
            assert(first_mismatch(r, e, n - 1));
        }
    }
}

/// Facilitates the extraction and validation of sequences of items pulled
/// from a forward-only byte source.
#[derive(Clone)]
pub struct Pattern<S: ByteSource> {
    source: S,
    count: usize,
}

impl<S: ByteSource> Pattern<S> {
    /// The bytes the underlying source has yet to yield.
    pub closed spec fn rest(&self) -> Seq<u8> {
        self.source.rest()
    }

    /// How many items have been pulled from the source so far.
    pub closed spec fn consumed(&self) -> nat {
        self.count as nat
    }

    /// The running count can absorb every item still in the source.
    pub closed spec fn wf(&self) -> bool {
        self.count + self.source.rest().len() <= usize::MAX
    }

    /// Wraps `source`; nothing has been consumed yet.
    pub fn new(source: S) -> (r: Pattern<S>)
        requires
            source.rest().len() <= usize::MAX,
        ensures
            r.wf(),
            r.rest() == source.rest(),
            r.consumed() == 0,
    {
        Pattern { source, count: 0 }
    }

    /// The number of items pulled from the source so far.
    pub fn count(&self) -> (r: usize)
        ensures
            r == self.consumed(),
    {
        self.count
    }

    /// Pulls one item for each of the positions `start..N` of `out`, in order,
    /// storing each at its position. With `expected`, each item must equal the
    /// expected value at its position: pulling stops at the first that does not.
    /// Every pulled item stays consumed, whatever the outcome.
    pub fn collect<const N: usize>(
        &mut self,
        out: &mut [u8; N],
        start: usize,
        expected: Option<&[u8; N]>,
    ) -> (r: Result<(), PatternError>)
        requires
            old(self).wf(),
            start <= N,
        ensures
            final(self).wf(),
            r is Ok <==> old(self).rest().len() >= N - start && agree(
                old(self).rest(),
                target(expected, start, old(self).rest()),
                N - start,
            ),
            r == Err::<(), _>(PatternError::NotFound) <==> old(self).rest().len() < N - start
                && agree(
                old(self).rest(),
                target(expected, start, old(self).rest()),
                old(self).rest().len() as int,
            ),
            r == Err::<(), _>(PatternError::IncorrectValue) <==> exists|i: int|
                #![trigger first_mismatch(old(self).rest(), target(expected, start, old(self).rest()), i)]
                i < N - start && first_mismatch(
                    old(self).rest(),
                    target(expected, start, old(self).rest()),
                    i,
                ),
            r is Ok ==> final(out)@ == old(out)@.take(start as int) + old(self).rest().take(
                N - start,
            ),
            r is Ok ==> final(self).rest() == old(self).rest().skip(N - start),
            r is Ok ==> final(self).consumed() == old(self).consumed() + N - start,
            r == Err::<(), _>(PatternError::NotFound) ==> final(self).rest().len() == 0,
            r == Err::<(), _>(PatternError::NotFound) ==> final(self).consumed() == old(
                self,
            ).consumed() + old(self).rest().len(),
            forall|i: int|
                #![trigger first_mismatch(old(self).rest(), target(expected, start, old(self).rest()), i)]
                i < N - start && first_mismatch(
                    old(self).rest(),
                    target(expected, start, old(self).rest()),
                    i,
                ) ==> final(self).rest() == old(self).rest().skip(i + 1) && final(self).consumed()
                    == old(self).consumed() + i + 1,
    {
        let ghost rest = self.rest();
        let ghost want = target(expected, start, rest);
        let ghost out0 = out@;
        let mut i: usize = start;
        while i < N
            invariant
                start <= i <= N,
                self.wf(),
                rest == old(self).rest(),
                want == target(expected, start, rest),
                rest.len() >= i - start,
                agree(rest, want, i - start),
                self.rest() == rest.skip(i - start),
                self.count == old(self).count + (i - start),
                out@.len() == N,
                out@.take(start as int) == out0.take(start as int),
                forall|j: int| start <= j < i ==> out@[j] == rest[j - start],
            decreases N - i,
        {
            let item = self.source.next_byte();
            match item {
                Some(b) => {
                    proof {
                        assert(self.rest() == rest.skip(i + 1 - start));
                    }
                    self.count = self.count + 1;
                    if let Some(e) = expected {
                        if b != e[i] {
                            proof {
                                assert(rest[i - start] == b);
                                assert(want[i - start] == e@[i as int]);
                                assert(first_mismatch(rest, want, i - start));
                                lemma_first_mismatch_unique(rest, want, i - start);
                                assert(forall|j: int|
                                    #![trigger first_mismatch(rest, want, j)]
                                    j < N - start && first_mismatch(rest, want, j) ==> self.rest()
                                        == rest.skip(j + 1) && self.count == old(self).count + j
                                        + 1);
                            }
                            return Err(PatternError::IncorrectValue);
                        }
                    }
                    out[i] = b;
                    i = i + 1;
                },
                None => {
                    return Err(PatternError::NotFound);
                },
            }
        }
        assert(final(out)@ =~= out0.take(start as int) + rest.take(N - start));
        Ok(())
    }
}

} // verus!
