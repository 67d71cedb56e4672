//! A cursor over a byte sequence.

use crate::codec::{compact_u32, le_u32, lemma_compact_u32_width, scale_compact_u32, scale_u32};
use crate::error::DecodeError;
use crate::registry::SizeRule;
use vstd::prelude::*;
use vstd::slice::slice_subrange;

verus! {

/// Reads values off the front of a byte slice, one after the other.
///
/// The reader never skips and never goes back: every successful read removes
/// from `rest()` exactly the bytes of the value read, and a failed read
/// leaves the reader where it was.
#[derive(Clone, Copy)]
pub struct BinaryReader<'a> {
    input: &'a [u8],
    pos: usize,
}

impl<'a> BinaryReader<'a> {
    #[verifier::type_invariant]
    spec fn within_input(self) -> bool {
        self.pos <= self.input@.len()
    }

    /// The bytes that have not been read yet.
    pub closed spec fn rest(&self) -> Seq<u8> {
        self.input@.skip(self.pos as int)
    }

    /// A reader at the start of `input`.
    pub fn new(input: &'a [u8]) -> (reader: Self)
        ensures
            reader.rest() == input@,
    {
        BinaryReader { input, pos: 0 }
    }

    /// The number of bytes that have not been read yet.
    pub fn remaining(&self) -> (n: usize)
        ensures
            n == self.rest().len(),
    {
        proof {
            use_type_invariant(self);
        }
        self.input.len() - self.pos
    }

    /// Reads one byte.
    pub fn read_byte(&mut self) -> (r: Result<u8, DecodeError>)
        ensures
            match r {
                Ok(b) => {
                    &&& old(self).rest().len() >= 1
                    &&& b == old(self).rest()[0]
                    &&& final(self).rest() == old(self).rest().skip(1)
                },
                Err(e) => {
                    &&& e is Truncated
                    &&& old(self).rest().len() == 0
                    &&& final(self).rest() == old(self).rest()
                },
            },
    {
        proof {
            use_type_invariant(&*self);
        }
        if self.pos < self.input.len() {
            let b = self.input[self.pos];
            self.pos = self.pos + 1;
            assert(self.rest() =~= old(self).rest().skip(1));
            Ok(b)
        } else {
            Err(DecodeError::Truncated)
        }
    }

    /// Reads a little-endian `u32`.
    pub fn read_u32(&mut self) -> (r: Result<u32, DecodeError>)
        ensures
            match r {
                Ok(x) => {
                    &&& old(self).rest().len() >= 4
                    &&& x == le_u32(old(self).rest())
                    &&& final(self).rest() == old(self).rest().skip(4)
                },
                Err(e) => {
                    &&& e is Truncated
                    &&& old(self).rest().len() < 4
                    &&& final(self).rest() == old(self).rest()
                },
            },
    {
        proof {
            use_type_invariant(&*self);
        }
        let tail = slice_subrange(self.input, self.pos, self.input.len());
        assert(tail@ =~= self.rest());
        match scale_u32(tail) {
            Ok(x) => {
                self.pos = self.pos + 4;
                assert(self.rest() =~= old(self).rest().skip(4));
                Ok(x)
            },
            Err(_) => Err(DecodeError::Truncated),
        }
    }

    /// Reads a compact-encoded `u32`.
    pub fn read_compact(&mut self) -> (r: Result<u32, DecodeError>)
        ensures
            match r {
                Ok(n) => {
                    &&& compact_u32(old(self).rest()) matches Some((value, width))
                    &&& n == value
                    &&& final(self).rest() == old(self).rest().skip(width as int)
                },
                Err(e) => {
                    &&& e is Truncated
                    &&& compact_u32(old(self).rest()) is None
                    &&& final(self).rest() == old(self).rest()
                },
            },
    {
        proof {
            use_type_invariant(&*self);
        }
        let tail = slice_subrange(self.input, self.pos, self.input.len());
        assert(tail@ =~= self.rest());
        proof {
            lemma_compact_u32_width(tail@);
        }
        match scale_compact_u32(tail) {
            Ok((n, after)) => {
                let ghost width = compact_u32(tail@)->Some_0.1;
                self.pos = self.input.len() - after.len();
                assert(self.rest() =~= old(self).rest().skip(width as int));
                Ok(n)
            },
            Err(_) => Err(DecodeError::Truncated),
        }
    }

    /// Takes the next `n` bytes as they are.
    pub fn take(&mut self, n: usize) -> (r: Result<&'a [u8], DecodeError>)
        ensures
            match r {
                Ok(bytes) => {
                    &&& n <= old(self).rest().len()
                    &&& bytes@ == old(self).rest().take(n as int)
                    &&& final(self).rest() == old(self).rest().skip(n as int)
                },
                Err(e) => {
                    &&& e is Truncated
                    &&& n > old(self).rest().len()
                    &&& final(self).rest() == old(self).rest()
                },
            },
    {
        proof {
            use_type_invariant(&*self);
        }
        if n <= self.input.len() - self.pos {
            let bytes = slice_subrange(self.input, self.pos, self.pos + n);
            assert(bytes@ =~= self.rest().take(n as int));
            self.pos = self.pos + n;
            assert(self.rest() =~= old(self).rest().skip(n as int));
            Ok(bytes)
        } else {
            Err(DecodeError::Truncated)
        }
    }

    /// Takes the bytes of one value that `rule` delimits, as they are: for a
    /// sequence, the count together with the items.
    pub fn take_value(&mut self, rule: SizeRule) -> (r: Result<&'a [u8], DecodeError>)
        ensures
            match r {
                Ok(bytes) => {
                    &&& rule.span(old(self).rest()) matches Some(n)
                    &&& bytes@ == old(self).rest().take(n as int)
                    &&& final(self).rest() == old(self).rest().skip(n as int)
                },
                Err(e) => {
                    &&& e is Truncated
                    &&& rule.span(old(self).rest()) is None
                    &&& final(self).rest() == old(self).rest()
                },
            },
    {
        proof {
            use_type_invariant(&*self);
        }
        match rule {
            SizeRule::Fixed(width) => self.take(width),
            SizeRule::Sequence(width) => {
                let tail = slice_subrange(self.input, self.pos, self.input.len());
                assert(tail@ =~= self.rest());
                proof {
                    lemma_compact_u32_width(tail@);
                }
                match scale_compact_u32(tail) {
                    Ok((count, after)) => {
                        let prefix = tail.len() - after.len();
                        match (count as usize).checked_mul(width) {
                            Some(items) => {
                                if items <= after.len() {
                                    self.take(prefix + items)
                                } else {
                                    Err(DecodeError::Truncated)
                                }
                            },
                            None => Err(DecodeError::Truncated),
                        }
                    },
                    Err(_) => Err(DecodeError::Truncated),
                }
            },
        }
    }

}

} // verus!
