use vstd::prelude::*;

verus! {

/// Decodes a value of this type from a fixed-size run of `K` raw bytes.
pub trait Deserialize<const K: usize>: Sized {
    /// The value that `raw` encodes, or `None` where it encodes none.
    spec fn decoded(raw: Seq<u8>) -> Option<Self>;

    /// Decodes `raw`.
    fn deserialize(raw: [u8; K]) -> (r: Option<Self>)
        ensures
            r == Self::decoded(raw@),
    ;
}

/// A byte decodes as itself.
impl Deserialize<1> for u8 {
    open spec fn decoded(raw: Seq<u8>) -> Option<u8> {
        Some(raw[0])
    }

    fn deserialize(raw: [u8; 1]) -> (r: Option<u8>) {
        Some(raw[0])
    }
}

/// `0` decodes as `false` and `1` as `true`; any other byte encodes no value.
impl Deserialize<1> for bool {
    open spec fn decoded(raw: Seq<u8>) -> Option<bool> {
        if raw[0] == 0 {
            Some(false)
        } else if raw[0] == 1 {
            Some(true)
        } else {
            None
        }
    }

    fn deserialize(raw: [u8; 1]) -> (r: Option<bool>) {
        if raw[0] == 0 {
            Some(false)
        } else if raw[0] == 1 {
            Some(true)
        } else {
            None
        }
    }
}

/// Two bytes decode as the pair of them, in order.
impl Deserialize<2> for (u8, u8) {
    open spec fn decoded(raw: Seq<u8>) -> Option<(u8, u8)> {
        Some((raw[0], raw[1]))
    }

    fn deserialize(raw: [u8; 2]) -> (r: Option<(u8, u8)>) {
        Some((raw[0], raw[1]))
    }
}

} // verus!
