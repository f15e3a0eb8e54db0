//! A read position in an immutable byte buffer.
//!
//! The cursor is the one place where offsets are moved. It keeps its
//! position within the buffer, so every offset that the decoder takes from
//! it is a valid bound of a span.

use super::grammar::find_byte;
use super::{BencodeError, ErrorKind};
use vstd::prelude::*;

verus! {

/// A byte buffer and a position in it, at most the buffer's length.
pub struct Cursor<'a> {
    buf: &'a [u8],
    pos: usize,
}

impl<'a> Cursor<'a> {
    #[verifier::type_invariant]
    spec fn in_bounds(self) -> bool {
        self.pos <= self.buf@.len()
    }

    /// The bytes of the buffer.
    pub closed spec fn buffer(&self) -> Seq<u8> {
        self.buf@
    }

    /// The current position.
    pub closed spec fn offset(&self) -> int {
        self.pos as int
    }

    /// A cursor at the start of `buf`.
    pub fn new(buf: &'a [u8]) -> (c: Self)
        ensures
            c.buffer() == buf@,
            c.offset() == 0,
    {
        Cursor { buf, pos: 0 }
    }

    /// The current position, which lies within the buffer.
    pub fn position(&self) -> (p: usize)
        ensures
            p == self.offset(),
            0 <= self.offset() <= self.buffer().len(),
    {
        proof {
            use_type_invariant(self);
        }
        self.pos
    }

    /// The whole buffer.
    pub fn bytes(&self) -> (b: &'a [u8])
        ensures
            b@ == self.buffer(),
    {
        self.buf
    }

    /// The byte at the current position, which stays where it is; `None` at
    /// the end of the buffer.
    pub fn peek(&self) -> (r: Option<u8>)
        ensures
            0 <= self.offset() <= self.buffer().len(),
            r == if self.offset() < self.buffer().len() {
                Some(self.buffer()[self.offset()])
            } else {
                None
            },
    {
        proof {
            use_type_invariant(self);
        }
        if self.pos < self.buf.len() {
            Some(self.buf[self.pos])
        } else {
            None
        }
    }

    /// Moves the position forward by `n` bytes. Where that would pass the
    /// end of the buffer, the position stays and the fault is
    /// `UnexpectedEnd`.
    pub fn advance(&mut self, n: usize) -> (r: Result<(), BencodeError>)
        ensures
            final(self).buffer() == old(self).buffer(),
            0 <= old(self).offset() <= old(self).buffer().len(),
            r is Ok <==> old(self).offset() + n <= old(self).buffer().len(),
            r is Ok ==> final(self).offset() == old(self).offset() + n,
            r matches Err(e) ==> e.kind == ErrorKind::UnexpectedEnd && final(self).offset() == old(
                self,
            ).offset(),
    {
        proof {
            use_type_invariant(&*self);
        }
        if n <= self.buf.len() - self.pos {
            self.pos = self.pos + n;
            Ok(())
        } else {
            Err(BencodeError { kind: ErrorKind::UnexpectedEnd })
        }
    }

    /// Moves the position forward to the first `delimiter` at or after it,
    /// and returns the range that was passed over: from the old position
    /// up to the delimiter, which is not consumed. Where the buffer holds
    /// no such byte from the position on, the position stays and the fault
    /// is `MissingDelimiter`.
    pub fn take_until(&mut self, delimiter: u8) -> (r: Result<(usize, usize), BencodeError>)
        ensures
            final(self).buffer() == old(self).buffer(),
            0 <= old(self).offset() <= old(self).buffer().len(),
            match r {
                Ok((start, end)) => {
                    &&& find_byte(old(self).buffer(), old(self).offset(), delimiter) == Some(
                        end as int,
                    )
                    &&& start == old(self).offset()
                    &&& final(self).offset() == end
                    &&& start <= end < old(self).buffer().len()
                },
                Err(e) => {
                    &&& find_byte(old(self).buffer(), old(self).offset(), delimiter) is None
                    &&& e.kind == ErrorKind::MissingDelimiter
                    &&& final(self).offset() == old(self).offset()
                },
            },
    {
        proof {
            use_type_invariant(&*self);
        }
        let start = self.pos;
        let mut i = self.pos;
        while i < self.buf.len()
            invariant
                start <= i <= self.buf@.len(),
                self.pos == start,
                start == old(self).pos,
                self.buf == old(self).buf,
                find_byte(self.buf@, start as int, delimiter) == find_byte(
                    self.buf@,
                    i as int,
                    delimiter,
                ),
            decreases self.buf@.len() - i,
        {
            if self.buf[i] == delimiter {
                assert(find_byte(self.buf@, i as int, delimiter) == Some(i as int));
                self.pos = i;
                return Ok((start, i));
            }
            i += 1;
        }
        Err(BencodeError { kind: ErrorKind::MissingDelimiter })
    }
}

} // verus!
