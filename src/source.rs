use vstd::prelude::*;

verus! {

/// A pull-based, forward-only source of bytes.
///
/// Its state is modelled by `rest`, the bytes it has yet to yield, in order.
pub trait ByteSource {
    /// The bytes this source will yield from now on, in order.
    spec fn rest(&self) -> Seq<u8>;

    /// Pulls the next byte, or `None` once the source is exhausted.
    fn next_byte(&mut self) -> (r: Option<u8>)
        ensures
            old(self).rest().len() == 0 ==> r is None && final(self).rest() == old(self).rest(),
            old(self).rest().len() > 0 ==> r == Some(old(self).rest()[0]) && final(self).rest()
                == old(self).rest().drop_first(),
    ;
}

/// A byte source over an owned buffer.
#[derive(Clone)]
pub struct VecSource {
    data: Vec<u8>,
    pos: usize,
}

impl VecSource {
    pub closed spec fn wf(&self) -> bool {
        self.pos <= self.data.len()
    }

    /// Creates a source that yields the bytes of `data` in order.
    pub fn new(data: Vec<u8>) -> (r: VecSource)
        ensures
            r.rest() == data@,
    {
        let r = VecSource { data, pos: 0 };
        assert(r.data@.subrange(0, r.data@.len() as int) =~= data@);
        r
    }

    /// How many bytes are left to yield.
    pub fn remaining(&self) -> (r: usize)
        ensures
            r == self.rest().len(),
    {
        if self.pos <= self.data.len() {
            self.data.len() - self.pos
        } else {
            0
        }
    }
}

impl ByteSource for VecSource {
    closed spec fn rest(&self) -> Seq<u8> {
        if self.wf() {
            self.data@.subrange(self.pos as int, self.data@.len() as int)
        } else {
            Seq::empty()
        }
    }

    fn next_byte(&mut self) -> (r: Option<u8>) {
        if self.pos < self.data.len() {
            let b = self.data[self.pos];
            self.pos = self.pos + 1;
            assert(self.rest() =~= old(self).rest().drop_first());
            Some(b)
        } else {
            None
        }
    }
}

} // verus!
