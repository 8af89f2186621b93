//! The growable byte buffer that values are encoded into and decoded from.
use vstd::prelude::*;
use crate::varint::{
    DecodeError, MAX_GROUPS_32, MAX_GROUPS_64, le_bytes, parse_var32, parse_var64,
    parse_varint, parse_varint_upto, pow128, varint_bytes,
};

verus! {

/// Relies on `Vec::capacity`: the number of elements the vector can hold
/// without reallocating, which is never below its length.
#[verifier::external_body]
fn capacity_of(v: &Vec<u8>) -> (r: usize)
    ensures
        r >= v@.len(),
{
    v.capacity()
}

/// An append-only byte buffer with a read cursor.
///
/// Writes append at the end; reads consume from the cursor onwards.
#[derive(Debug)]
pub struct Data {
    buf: Vec<u8>,
    offset: usize,
}

impl Data {
    /// The bytes written so far.
    pub closed spec fn bytes(&self) -> Seq<u8> {
        self.buf@
    }

    /// Where the next read starts.
    pub closed spec fn pos(&self) -> nat {
        self.offset as nat
    }

    /// The read cursor never passes the end of what was written.
    pub open spec fn wf(&self) -> bool {
        self.pos() <= self.bytes().len()
    }

    /// The bytes that are still to be read.
    pub open spec fn unread(&self) -> Seq<u8> {
        self.bytes().subrange(self.pos() as int, self.bytes().len() as int)
    }

    /// An empty buffer with room reserved for `cap` bytes.
    pub fn new(cap: usize) -> (r: Data)
        ensures
            r.wf(),
            r.bytes() == Seq::<u8>::empty(),
            r.pos() == 0,
    {
        Data { buf: Vec::<u8>::with_capacity(cap), offset: 0 }
    }

    /// Forgets what was written and read; the reserved room is kept.
    pub fn Clear(&mut self)
        ensures
            final(self).wf(),
            final(self).bytes() == Seq::<u8>::empty(),
            final(self).pos() == 0,
    {
        self.buf.clear();
        self.offset = 0;
    }

    /// The number of bytes written so far.
    pub fn len(&self) -> (r: usize)
        ensures
            r == self.bytes().len(),
    {
        self.buf.len()
    }

    /// Where the next read starts.
    pub fn read_pos(&self) -> (r: usize)
        ensures
            r == self.pos(),
    {
        self.offset
    }

    /// A copy of the bytes written so far.
    pub fn to_vec(&self) -> (r: Vec<u8>)
        ensures
            r@ == self.bytes(),
    {
        self.buf.clone()
    }

    /// Makes room for `n` more bytes: where the room left is too small, grows
    /// the buffer to at least twice the size then needed.
    fn reserve_for(&mut self, n: usize)
        requires
            old(self).wf(),
        ensures
            final(self).wf(),
            final(self).bytes() == old(self).bytes(),
            final(self).pos() == old(self).pos(),
    {
        let len = self.buf.len();
        let cap = capacity_of(&self.buf);
        if cap - len < n {
            let needed = len.saturating_add(n);
            self.buf.reserve(needed.saturating_add(n));
        }
    }

    /// Appends one byte.
    pub fn WriteByte(&mut self, b: u8)
        requires
            old(self).wf(),
        ensures
            final(self).wf(),
            final(self).bytes() == old(self).bytes().push(b),
            final(self).pos() == old(self).pos(),
    {
        self.buf.push(b);
    }

    /// Appends `v` in base-128 groups, at most ten of them.
    pub fn WriteVar64(&mut self, value: u64)
        requires
            old(self).wf(),
        ensures
            final(self).wf(),
            final(self).bytes() == old(self).bytes() + varint_bytes(value as nat),
            final(self).pos() == old(self).pos(),
    {
        self.reserve_for(MAX_GROUPS_64);
        let mut v: u64 = value;
        while v >= 128
            invariant
                self.wf(),
                self.pos() == old(self).pos(),
                self.bytes() + varint_bytes(v as nat) == old(self).bytes() + varint_bytes(
                    value as nat,
                ),
            decreases v,
        {
            let b: u8 = ((v as u8) & 0x7f) | 0x80;
            assert(b == (v % 128 + 128) as u8) by (bit_vector)
                requires
                    b == ((v as u8) & 0x7f) | 0x80,
            ;
            let ghost before = self.bytes();
            self.buf.push(b);
            let next: u64 = v >> 7u32;
            assert(next == v / 128) by (bit_vector)
                requires
                    next == v >> 7u32,
            ;
            assert(before + varint_bytes(v as nat) =~= self.bytes() + varint_bytes(next as nat));
            v = next;
        }
        let ghost before = self.bytes();
        self.buf.push(v as u8);
        assert(before + varint_bytes(v as nat) =~= self.bytes());
    }
    /// Appends `v` in base-128 groups, at most five of them.
    pub fn WriteVar32(&mut self, value: u32)
        requires
            old(self).wf(),
        ensures
            final(self).wf(),
            final(self).bytes() == old(self).bytes() + varint_bytes(value as nat),
            final(self).pos() == old(self).pos(),
    {
        self.reserve_for(MAX_GROUPS_32);
        let mut v: u32 = value;
        while v >= 128
            invariant
                self.wf(),
                self.pos() == old(self).pos(),
                self.bytes() + varint_bytes(v as nat) == old(self).bytes() + varint_bytes(
                    value as nat,
                ),
            decreases v,
        {
            let b: u8 = ((v as u8) & 0x7f) | 0x80;
            assert(b == (v % 128 + 128) as u8) by (bit_vector)
                requires
                    b == ((v as u8) & 0x7f) | 0x80,
            ;
            let ghost before = self.bytes();
            self.buf.push(b);
            let next: u32 = v >> 7u32;
            assert(next == v / 128) by (bit_vector)
                requires
                    next == v >> 7u32,
            ;
            assert(before + varint_bytes(v as nat) =~= self.bytes() + varint_bytes(next as nat));
            v = next;
        }
        let ghost before = self.bytes();
        self.buf.push(v as u8);
        assert(before + varint_bytes(v as nat) =~= self.bytes());
    }

    /// Appends the bytes of `src` verbatim.
    pub fn WriteBytes(&mut self, src: &[u8])
        requires
            old(self).wf(),
        ensures
            final(self).wf(),
            final(self).bytes() == old(self).bytes() + src@,
            final(self).pos() == old(self).pos(),
    {
        self.reserve_for(src.len());
        let mut i: usize = 0;
        while i < src.len()
            invariant
                i <= src@.len(),
                self.wf(),
                self.pos() == old(self).pos(),
                self.bytes() == old(self).bytes() + src@.take(i as int),
            decreases src@.len() - i,
        {
            self.buf.push(src[i]);
            i = i + 1;
            assert(self.bytes() =~= old(self).bytes() + src@.take(i as int));
        }
        assert(src@.take(i as int) =~= src@);
    }

    /// Appends the low `width` bytes of `value`, least significant first.
    pub fn WriteLe(&mut self, value: u64, width: usize)
        requires
            old(self).wf(),
            width <= 8,
        ensures
            final(self).wf(),
            final(self).bytes() == old(self).bytes() + le_bytes(value as nat, width as nat),
            final(self).pos() == old(self).pos(),
    {
        self.reserve_for(width);
        let mut v: u64 = value;
        let mut i: usize = 0;
        while i < width
            invariant
                i <= width,
                self.wf(),
                self.pos() == old(self).pos(),
                self.bytes() + le_bytes(v as nat, (width - i) as nat) == old(self).bytes()
                    + le_bytes(value as nat, width as nat),
            decreases width - i,
        {
            let b: u8 = (v & 0xff) as u8;
            let next: u64 = v >> 8u32;
            assert(b == (v % 256) as u8 && next == v / 256) by (bit_vector)
                requires
                    b == (v & 0xff) as u8,
                    next == v >> 8u32,
            ;
            let ghost before = self.bytes();
            self.buf.push(b);
            assert(before + le_bytes(v as nat, (width - i) as nat) =~= self.bytes() + le_bytes(
                next as nat,
                (width - i - 1) as nat,
            ));
            v = next;
            i = i + 1;
        }
        assert(self.bytes() + le_bytes(v as nat, 0) =~= self.bytes());
    }

    /// Reads one byte at the cursor.
    pub fn ReadByte(&mut self) -> (r: Result<u8, DecodeError>)
        requires
            old(self).wf(),
        ensures
            final(self).wf(),
            final(self).bytes() == old(self).bytes(),
            old(self).unread().len() == 0 ==> r == Err::<u8, DecodeError>(DecodeError::Truncated)
                && final(self).pos() == old(self).pos(),
            old(self).unread().len() > 0 ==> r == Ok::<u8, DecodeError>(old(self).unread()[0])
                && final(self).pos() == old(self).pos() + 1,
    {
        if self.offset < self.buf.len() {
            let b = self.buf[self.offset];
            self.offset = self.offset + 1;
            Ok(b)
        } else {
            Err(DecodeError::Truncated)
        }
    }

    /// Reads `n` bytes at the cursor.
    pub fn ReadBytes(&mut self, n: usize) -> (r: Result<Vec<u8>, DecodeError>)
        requires
            old(self).wf(),
        ensures
            final(self).wf(),
            final(self).bytes() == old(self).bytes(),
            n > old(self).unread().len() ==> r is Err && r->Err_0 == DecodeError::Truncated
                && final(self).pos() == old(self).pos(),
            n <= old(self).unread().len() ==> r is Ok && r->Ok_0@ == old(self).unread().take(
                n as int,
            ) && final(self).pos() == old(self).pos() + n,
    {
        let len = self.buf.len();
        if len - self.offset < n {
            return Err(DecodeError::Truncated);
        }
        let start = self.offset;
        let mut out: Vec<u8> = Vec::with_capacity(n);
        let mut i: usize = 0;
        while i < n
            invariant
                i <= n,
                start + n <= len,
                len == self.buf@.len(),
                out@ == self.buf@.subrange(start as int, start + i),
            decreases n - i,
        {
            out.push(self.buf[start + i]);
            i = i + 1;
            assert(out@ =~= self.buf@.subrange(start as int, start + i));
        }
        self.offset = start + n;
        assert(out@ =~= old(self).unread().take(n as int));
        Ok(out)
    }

    /// Moves the cursor back to `pos`, where an earlier read started.
    pub(crate) fn Rewind(&mut self, pos: usize)
        requires
            old(self).wf(),
            pos <= old(self).pos(),
        ensures
            final(self).wf(),
            final(self).bytes() == old(self).bytes(),
            final(self).pos() == pos,
    {
        self.offset = pos;
    }
    /// Reads a variable-length integer of at most `groups` bytes and at most
    /// `max` in value.
    fn read_varint(&mut self, groups: usize, max: u64) -> (r: Result<u64, DecodeError>)
        requires
            old(self).wf(),
            1 <= groups <= MAX_GROUPS_64,
        ensures
            final(self).wf(),
            final(self).bytes() == old(self).bytes(),
            match parse_varint_upto(old(self).unread(), groups as nat, max as nat) {
                Ok((v, n)) => r == Ok::<u64, DecodeError>(v as u64) && final(self).pos()
                    == old(self).pos() + n,
                Err(e) => r == Err::<u64, DecodeError>(e) && final(self).pos() == old(self).pos(),
            },
    {
        let ghost s = self.unread();
        let len = self.buf.len();
        let start = self.offset;
        let mut i: usize = 0;
        let mut acc: u128 = 0;
        let mut scale: u128 = 1;
        proof {
            lemma_pow128_bound(0);
            assert(s.subrange(0, s.len() as int) =~= s);
        }
        loop
            invariant
                i <= groups <= MAX_GROUPS_64,
                self.buf@ == old(self).buf@,
                self.offset == start,
                start == old(self).offset,
                len == self.buf@.len(),
                s == self.unread(),
                start + i <= len,
                scale == pow128(i as nat),
                scale <= pow128(MAX_GROUPS_64 as nat),
                acc < scale,
                parse_varint(s, groups as nat) == shifted(
                    parse_varint(s.subrange(i as int, s.len() as int), (groups - i) as nat),
                    acc as nat,
                    scale as nat,
                    i as nat,
                ),
            decreases groups - i,
        {
            if i == groups {
                assert(parse_varint(s.subrange(i as int, s.len() as int), 0) == Err::<
                    (nat, nat),
                    DecodeError,
                >(DecodeError::MalformedVarint));
                return Err(DecodeError::MalformedVarint);
            }
            if start + i == len {
                assert(parse_varint(s.subrange(i as int, s.len() as int), (groups - i) as nat)
                    == Err::<(nat, nat), DecodeError>(DecodeError::Truncated));
                return Err(DecodeError::Truncated);
            }
            let b = self.buf[start + i];
            let ghost rest = s.subrange(i as int, s.len() as int);
            assert(rest[0] == b);
            proof {
                lemma_pow128_bound(i as nat + 1);
                assert(scale * (b as int) <= scale * 255) by (nonlinear_arith)
                    requires
                        b <= 255,
                        scale >= 0,
                ;
            }
            if b < 128 {
                assert(parse_varint(rest, (groups - i) as nat) == Ok::<(nat, nat), DecodeError>(
                    (b as nat, 1),
                ));
                let value: u128 = acc + scale * (b as u128);
                if value > max as u128 {
                    return Err(DecodeError::MalformedVarint);
                }
                self.offset = start + i + 1;
                return Ok(value as u64);
            }
            let low: u128 = (b - 128) as u128;
            proof {
                assert(rest.drop_first() =~= s.subrange(i + 1, s.len() as int));
                let ghost next = parse_varint(
                    s.subrange(i + 1, s.len() as int),
                    (groups - i - 1) as nat,
                );
                if let Ok((v, n)) = next {
                    assert(acc + scale * ((b - 128) + 128 * v) == (acc + scale * low) + (scale
                        * 128) * v) by (nonlinear_arith)
                        requires
                            low == b - 128,
                    ;
                }
                assert(scale * low <= scale * 127) by (nonlinear_arith)
                    requires
                        low <= 127,
                        scale > 0,
                ;
            }
            acc = acc + scale * low;
            scale = scale * 128;
            i = i + 1;
        }
    }

    /// Reads a 64-bit variable-length integer at the cursor.
    pub fn ReadVar64(&mut self) -> (r: Result<u64, DecodeError>)
        requires
            old(self).wf(),
        ensures
            final(self).wf(),
            final(self).bytes() == old(self).bytes(),
            match parse_var64(old(self).unread()) {
                Ok((v, n)) => r == Ok::<u64, DecodeError>(v as u64) && final(self).pos()
                    == old(self).pos() + n,
                Err(e) => r == Err::<u64, DecodeError>(e) && final(self).pos() == old(self).pos(),
            },
    {
        self.read_varint(MAX_GROUPS_64, u64::MAX)
    }

    /// Reads a 32-bit variable-length integer at the cursor.
    pub fn ReadVar32(&mut self) -> (r: Result<u32, DecodeError>)
        requires
            old(self).wf(),
        ensures
            final(self).wf(),
            final(self).bytes() == old(self).bytes(),
            match parse_var32(old(self).unread()) {
                Ok((v, n)) => r == Ok::<u32, DecodeError>(v as u32) && final(self).pos()
                    == old(self).pos() + n,
                Err(e) => r == Err::<u32, DecodeError>(e) && final(self).pos() == old(self).pos(),
            },
    {
        match self.read_varint(MAX_GROUPS_32, u32::MAX as u64) {
            Ok(v) => Ok(v as u32),
            Err(e) => Err(e),
        }
    }
}

/// A read result of the bytes after `i` groups, seen from the start: the value
/// of the groups already read is `acc`, and the rest counts `scale` times.
spec fn shifted(r: Result<(nat, nat), DecodeError>, acc: nat, scale: nat, i: nat) -> Result<
    (nat, nat),
    DecodeError,
> {
    match r {
        Ok((v, n)) => Ok((acc + scale * v, n + i)),
        Err(e) => Err(e),
    }
}

proof fn lemma_pow128_bound(k: nat)
    requires
        k <= MAX_GROUPS_64 + 1,
    ensures
        1 <= pow128(k) <= pow128(MAX_GROUPS_64 as nat + 1),
        pow128(MAX_GROUPS_64 as nat + 1) == 0x2000_0000_0000_0000_0000,
        k <= MAX_GROUPS_64 ==> pow128(k) * 128 <= pow128(MAX_GROUPS_64 as nat + 1),
        k >= 1 ==> pow128(k) == 128 * pow128((k - 1) as nat),
{
    reveal_with_fuel(pow128, 12);
}

} // verus!
