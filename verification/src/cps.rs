//! The CPS binary format read by the JIT: a cursor over the encoded bytes
//! (`CpsReader`) and the block bookkeeping that keeps every emitted block
//! terminated exactly once (`BlockTracker`).

use vstd::prelude::*;
use vstd::slice::slice_subrange;
use vstd::utf8::{decode_utf8, valid_utf8};
use vstd::string::*;

verus! {

/// The unsigned value of four little-endian bytes.
pub open spec fn le_u32(b: Seq<u8>) -> int {
    b[0] + 256 * b[1] + 65536 * b[2] + 16777216 * b[3]
}

/// The unsigned value of eight little-endian bytes.
pub open spec fn le_u64(b: Seq<u8>) -> int {
    b[0] + 0x100 * b[1] + 0x10000 * b[2] + 0x1000000 * b[3] + 0x100000000 * b[4]
        + 0x10000000000 * b[5] + 0x1000000000000 * b[6] + 0x100000000000000 * b[7]
}

/// What `String::from_utf8_lossy` makes of `bytes`: the decoded text, with each
/// invalid sequence replaced by U+FFFD.
pub uninterp spec fn utf8_lossy(bytes: Seq<u8>) -> Seq<char>;

/// `String::from_utf8_lossy`: decodes `bytes`. Its documentation promises that
/// valid UTF-8 is decoded as is; for other input only the named result
/// `utf8_lossy` is claimed.
#[verifier::external_body]
pub(crate) fn string_from_utf8_lossy(bytes: &[u8]) -> (s: String)
    ensures
        s@ == utf8_lossy(bytes@),
        valid_utf8(bytes@) ==> s@ == decode_utf8(bytes@),
{
    String::from_utf8_lossy(bytes).into_owned()
}

/// The end-of-input error of every read.
pub open spec fn eof() -> Seq<char> {
    "EOF"@
}

/// A forward-only cursor over an encoded CPS buffer.
pub struct CpsReader<'a> {
    data: &'a [u8],
    pos: usize,
}

impl<'a> CpsReader<'a> {
    #[verifier::type_invariant]
    spec fn inv(self) -> bool {
        self.pos <= self.data@.len()
    }

    /// The bytes being read.
    pub closed spec fn data(self) -> Seq<u8> {
        self.data@
    }

    /// The number of bytes consumed so far.
    pub closed spec fn pos(self) -> int {
        self.pos as int
    }

    /// A position is never negative.
    pub proof fn lemma_pos_nonneg(self)
        ensures
            self.pos() >= 0,
    {
    }

    /// The bytes not yet consumed.
    pub open spec fn rest(self) -> Seq<u8> {
        self.data().subrange(self.pos(), self.data().len() as int)
    }

    /// A reader positioned at the start of `data`.
    pub fn new(data: &'a [u8]) -> (r: Self)
        ensures
            r.data() == data@,
            r.pos() == 0,
    {
        CpsReader { data, pos: 0 }
    }

    /// The number of bytes left.
    pub fn remaining(&self) -> (r: usize)
        ensures
            r == self.data().len() - self.pos(),
    {
        proof { use_type_invariant(self); }
        self.data.len() - self.pos
    }

    /// Reads one byte.
    pub fn read_u8(&mut self) -> (r: Result<u8, String>)
        ensures
            final(self).data() == old(self).data(),
            old(self).pos() < old(self).data().len() ==> r == Ok::<u8, String>(old(self).data()[old(self).pos()])
                && final(self).pos() == old(self).pos() + 1,
            old(self).pos() >= old(self).data().len() ==> (r matches Err(e) && e@ == eof())
                && final(self).pos() == old(self).pos(),
    {
        proof { use_type_invariant(&*self); }
        if self.pos >= self.data.len() {
            return Err(String::from_str("EOF"));
        }
        let val = self.data[self.pos];
        self.pos = self.pos + 1;
        Ok(val)
    }

    /// The next byte, without consuming it.
    pub fn peek_u8(&self) -> (r: Option<u8>)
        ensures
            self.pos() < self.data().len() ==> r == Some(self.data()[self.pos()]),
            self.pos() >= self.data().len() ==> r is None,
    {
        proof { use_type_invariant(self); }
        if self.pos >= self.data.len() {
            None
        } else {
            Some(self.data[self.pos])
        }
    }

    /// Reads a little-endian `u32`.
    pub fn read_u32(&mut self) -> (r: Result<u32, String>)
        ensures
            final(self).data() == old(self).data(),
            old(self).pos() + 4 <= old(self).data().len() ==> (r matches Ok(v)
                && v == le_u32(old(self).data().subrange(old(self).pos(), old(self).pos() + 4)))
                && final(self).pos() == old(self).pos() + 4,
            old(self).pos() + 4 > old(self).data().len() ==> (r matches Err(e) && e@ == eof())
                && final(self).pos() == old(self).pos(),
    {
        proof { use_type_invariant(&*self); }
        if self.data.len() - self.pos < 4 {
            return Err(String::from_str("EOF"));
        }
        let p = self.pos;
        let v: u32 = self.data[p] as u32 + 0x100 * (self.data[p + 1] as u32) + 0x10000 * (self.data[p + 2] as u32)
            + 0x1000000 * (self.data[p + 3] as u32);
        self.pos = p + 4;
        Ok(v)
    }

    /// Reads a little-endian `i64` (two's complement).
    pub fn read_i64(&mut self) -> (r: Result<i64, String>)
        ensures
            final(self).data() == old(self).data(),
            old(self).pos() + 8 <= old(self).data().len() ==> (r matches Ok(v)
                && v == le_u64(old(self).data().subrange(old(self).pos(), old(self).pos() + 8)) as i64)
                && final(self).pos() == old(self).pos() + 8,
            old(self).pos() + 8 > old(self).data().len() ==> (r matches Err(e) && e@ == eof())
                && final(self).pos() == old(self).pos(),
    {
        proof { use_type_invariant(&*self); }
        if self.data.len() - self.pos < 8 {
            return Err(String::from_str("EOF"));
        }
        let p = self.pos;
        let v: u64 = self.data[p] as u64 + 0x100 * (self.data[p + 1] as u64) + 0x10000 * (self.data[p + 2] as u64)
            + 0x1000000 * (self.data[p + 3] as u64) + 0x100000000 * (self.data[p + 4] as u64)
            + 0x10000000000 * (self.data[p + 5] as u64) + 0x1000000000000 * (self.data[p + 6] as u64)
            + 0x100000000000000 * (self.data[p + 7] as u64);
        self.pos = p + 8;
        Ok(v as i64)
    }

    /// Reads a string: a little-endian `u32` byte length, then that many bytes,
    /// decoded as UTF-8 with invalid sequences replaced. When the length can be
    /// read but the bytes cannot, the length stays consumed.
    pub fn read_string(&mut self) -> (r: Result<String, String>)
        ensures
            final(self).data() == old(self).data(),
            old(self).pos() + 4 > old(self).data().len() ==> (r matches Err(e) && e@ == eof())
                && final(self).pos() == old(self).pos(),
            old(self).pos() + 4 <= old(self).data().len() ==> ({
                let len = le_u32(old(self).data().subrange(old(self).pos(), old(self).pos() + 4));
                let start = old(self).pos() + 4;
                &&& start + len <= old(self).data().len() ==> (r matches Ok(s)
                    && s@ == utf8_lossy(old(self).data().subrange(start, start + len))
                    && (valid_utf8(old(self).data().subrange(start, start + len))
                        ==> s@ == decode_utf8(old(self).data().subrange(start, start + len))))
                    && final(self).pos() == start + len
                &&& start + len > old(self).data().len() ==> (r matches Err(e) && e@ == eof())
                    && final(self).pos() == start
            }),
    {
        let len = match self.read_u32() {
            Ok(v) => v as usize,
            Err(e) => return Err(e),
        };
        proof { use_type_invariant(&*self); }
        if len > self.data.len() - self.pos {
            return Err(String::from_str("EOF"));
        }
        let bytes = slice_subrange(self.data, self.pos, self.pos + len);
        let s = string_from_utf8_lossy(bytes);
        self.pos = self.pos + len;
        Ok(s)
    }

    /// Reads `len` raw bytes.
    pub fn read_bytes(&mut self, len: usize) -> (r: Result<&'a [u8], String>)
        ensures
            final(self).data() == old(self).data(),
            old(self).pos() + len <= old(self).data().len() ==> (r matches Ok(b)
                && b@ == old(self).data().subrange(old(self).pos(), old(self).pos() + len))
                && final(self).pos() == old(self).pos() + len,
            old(self).pos() + len > old(self).data().len() ==> (r matches Err(e) && e@ == eof())
                && final(self).pos() == old(self).pos(),
    {
        proof { use_type_invariant(&*self); }
        if len > self.data.len() - self.pos {
            return Err(String::from_str("EOF"));
        }
        let bytes = slice_subrange(self.data, self.pos, self.pos + len);
        self.pos = self.pos + len;
        Ok(bytes)
    }
}

} // verus!

verus! {

/// How the current block is closed when control falls off its end.
#[derive(Clone, Copy, Debug, PartialEq, Eq, Structural)]
pub enum Fallthrough {
    /// It already ends in a terminator: nothing is emitted.
    Nothing,
    /// Jump to the merge block.
    JumpToMerge,
    /// Return the constant 0 (the end of a function body).
    ReturnZero,
}

/// Whether the block being emitted already ends in a terminator; the code
/// generator emits a terminator only through this tracker, so each block gets
/// exactly one.
pub struct BlockTracker {
    terminated: bool,
}

impl BlockTracker {
    pub closed spec fn terminated(self) -> bool {
        self.terminated
    }

    /// A tracker for a function whose entry block is not yet terminated.
    pub fn new() -> (t: Self)
        ensures
            !t.terminated(),
    {
        BlockTracker { terminated: false }
    }

    /// Whether the current block ends in a terminator.
    pub fn is_terminated(&self) -> (r: bool)
        ensures
            r == self.terminated(),
    {
        self.terminated
    }

    /// Another block became current; it has no terminator yet.
    pub fn switch_to_block(&mut self)
        ensures
            !final(self).terminated(),
    {
        self.terminated = false;
    }

    /// Asks to emit a terminator: granted (and the block is from then on
    /// terminated) exactly when the block had none.
    pub fn claim_terminator(&mut self) -> (granted: bool)
        ensures
            granted == !old(self).terminated(),
            final(self).terminated(),
    {
        if self.terminated {
            false
        } else {
            self.terminated = true;
            true
        }
    }

    /// Closes the current block: nothing if it is terminated, else a jump to the
    /// merge block when there is one, else `return 0`.
    pub fn ensure_terminated(&mut self, has_merge: bool) -> (f: Fallthrough)
        ensures
            final(self).terminated(),
            old(self).terminated() ==> f == Fallthrough::Nothing,
            !old(self).terminated() && has_merge ==> f == Fallthrough::JumpToMerge,
            !old(self).terminated() && !has_merge ==> f == Fallthrough::ReturnZero,
    {
        if self.terminated {
            Fallthrough::Nothing
        } else {
            self.terminated = true;
            if has_merge { Fallthrough::JumpToMerge } else { Fallthrough::ReturnZero }
        }
    }
}

} // verus!
