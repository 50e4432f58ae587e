//! Byte streams held in memory, and the variable-length integers written to them.

use vstd::prelude::*;
use crate::error::Error;

verus! {

/// The bytes of a variable-length integer: seven bits to a byte, lowest first,
/// with the top bit set on every byte but the last.
pub open spec fn vint_bytes(value: nat) -> Seq<u8>
    decreases value,
{
    if value < 128 {
        seq![value as u8]
    } else {
        seq![(value % 128 + 128) as u8] + vint_bytes(value / 128)
    }
}

/// The variable-length integer whose byte number `index` stands at `pos`, together
/// with the position after its last byte.
///
/// A fifth byte may carry four bits only, so that the value fits in 32 bits;
/// anything more is `InvalidVInt`.  Running out of bytes is `UnexpectedEof`.
pub open spec fn vint_at(bytes: Seq<u8>, pos: int, index: nat) -> Result<(nat, int), Error>
    decreases 4 - index,
{
    if pos < 0 || pos >= bytes.len() {
        Err(Error::UnexpectedEof)
    } else if index >= 4 {
        if bytes[pos] < 16 {
            Ok((bytes[pos] as nat, pos + 1))
        } else {
            Err(Error::InvalidVInt)
        }
    } else if bytes[pos] < 128 {
        Ok((bytes[pos] as nat, pos + 1))
    } else {
        match vint_at(bytes, pos + 1, index + 1) {
            Ok((high, end)) => Ok(((bytes[pos] - 128 + 128 * high) as nat, end)),
            Err(e) => Err(e),
        }
    }
}

/// The variable-length integer that starts at `pos`, with the position after it.
pub open spec fn parse_vint(bytes: Seq<u8>, pos: int) -> Result<(nat, int), Error> {
    vint_at(bytes, pos, 0)
}

/// `128^index`, for the five bytes that a variable-length integer may have.
pub open spec fn vint_scale(index: nat) -> nat {
    if index == 0 {
        1
    } else if index == 1 {
        0x80
    } else if index == 2 {
        0x4000
    } else if index == 3 {
        0x20_0000
    } else {
        0x1000_0000
    }
}

/// What was written as a variable-length integer is read back as the same number,
/// and reading stops right after its last byte.
pub proof fn lemma_vint_round_trip(before: Seq<u8>, value: nat, after: Seq<u8>)
    requires
        value <= u32::MAX,
    ensures
        parse_vint(before + vint_bytes(value) + after, before.len() as int) == Ok::<
            (nat, int),
            Error,
        >((value, (before.len() + vint_bytes(value).len()) as int)),
{
    let bytes = before + vint_bytes(value) + after;
    assert(bytes.subrange(
        before.len() as int,
        (before.len() + vint_bytes(value).len()) as int,
    ) =~= vint_bytes(value));
    lemma_vint_tail(bytes, before.len() as int, value, 0);
}

/// Where the bytes of a variable-length integer stand at `pos`, that integer is
/// read there, and reading stops right after its last byte.
pub proof fn lemma_vint_at(bytes: Seq<u8>, pos: int, value: nat)
    requires
        value <= u32::MAX,
        0 <= pos,
        pos + vint_bytes(value).len() <= bytes.len(),
        bytes.subrange(pos, pos + vint_bytes(value).len()) == vint_bytes(value),
    ensures
        parse_vint(bytes, pos) == Ok::<(nat, int), Error>((value, pos + vint_bytes(value).len())),
{
    lemma_vint_tail(bytes, pos, value, 0);
}

/// A variable-length integer that can be read fits in 32 bits, takes at least one
/// byte, and ends inside the input.
pub proof fn lemma_vint_bounds(bytes: Seq<u8>, pos: int)
    requires
        parse_vint(bytes, pos) is Ok,
    ensures
        parse_vint(bytes, pos)->Ok_0.0 <= u32::MAX,
        0 <= pos < parse_vint(bytes, pos)->Ok_0.1 <= bytes.len(),
{
    lemma_vint_at_bounds(bytes, pos, 0);
}

/// The bounds from byte `index` of an integer on.
proof fn lemma_vint_at_bounds(bytes: Seq<u8>, pos: int, index: nat)
    requires
        index <= 4,
        vint_at(bytes, pos, index) is Ok,
    ensures
        vint_at(bytes, pos, index)->Ok_0.0 * vint_scale(index) + vint_scale(index) - 1
            <= u32::MAX,
        0 <= pos < vint_at(bytes, pos, index)->Ok_0.1 <= bytes.len(),
    decreases 4 - index,
{
    if index < 4 && bytes[pos] >= 128 {
        lemma_vint_at_bounds(bytes, pos + 1, index + 1);
        let high = vint_at(bytes, pos + 1, index + 1)->Ok_0.0;
        let low = bytes[pos] - 128;
        assert((low + 128 * high) * vint_scale(index) + vint_scale(index) - 1 <= high
            * vint_scale(index + 1) + vint_scale(index + 1) - 1) by (nonlinear_arith)
            requires
                vint_scale(index + 1) == 128 * vint_scale(index),
                0 <= low <= 127,
                vint_scale(index) >= 1,
        ;
    } else {
        assert(bytes[pos] * vint_scale(index) <= 127 * vint_scale(index)) by (nonlinear_arith)
            requires
                bytes[pos] <= 127,
                vint_scale(index) >= 1,
        ;
    }
}

/// The round trip from byte `index` of an integer on.
proof fn lemma_vint_tail(bytes: Seq<u8>, pos: int, value: nat, index: nat)
    requires
        index <= 4,
        value * vint_scale(index) <= u32::MAX,
        0 <= pos,
        pos + vint_bytes(value).len() <= bytes.len(),
        bytes.subrange(pos, pos + vint_bytes(value).len()) == vint_bytes(value),
    ensures
        vint_at(bytes, pos, index) == Ok::<(nat, int), Error>(
            (value, pos + vint_bytes(value).len()),
        ),
    decreases 4 - index,
{
    let own = vint_bytes(value);
    assert(bytes[pos] == own[0]);
    if value >= 128 {
        let rest = vint_bytes(value / 128);
        assert(own =~= seq![(value % 128 + 128) as u8] + rest);
        assert(bytes.subrange(pos + 1, pos + 1 + rest.len()) =~= rest) by {
            assert forall|i: int| 0 <= i < rest.len() implies bytes[pos + 1 + i] == rest[i] by {
                assert(bytes[pos + 1 + i] == own[1 + i]);
            }
        }
        assert(index < 4);
        assert((value / 128) * vint_scale(index + 1) <= value * vint_scale(index))
            by (nonlinear_arith)
            requires
                vint_scale(index + 1) == 128 * vint_scale(index),
                value >= 0,
        ;
        lemma_vint_tail(bytes, pos + 1, value / 128, index + 1);
    }
}

/// A readable, seekable run of bytes held in memory.
pub struct ByteInput {
    data: Vec<u8>,
    pos: usize,
}

impl ByteInput {
    /// All the bytes of the input, read or not.
    pub closed spec fn bytes(&self) -> Seq<u8> {
        self.data@
    }

    /// The position of the next byte to read.
    pub closed spec fn position(&self) -> int {
        self.pos as int
    }

    /// An input over `data`, positioned at its first byte.
    pub fn new(data: Vec<u8>) -> (r: ByteInput)
        ensures
            r.bytes() == data@,
            r.position() == 0,
    {
        ByteInput { data, pos: 0 }
    }

    /// The number of bytes of the input, read or not.
    pub fn len(&self) -> (r: usize)
        ensures
            r == self.bytes().len(),
    {
        self.data.len()
    }

    /// The position of the next byte to read.
    pub fn file_pointer(&self) -> (r: usize)
        ensures
            r == self.position(),
    {
        self.pos
    }

    /// Moves to `pos`, which may be any position up to the end of the input.
    pub fn seek(&mut self, pos: usize) -> (r: Result<(), Error>)
        ensures
            final(self).bytes() == old(self).bytes(),
            pos <= old(self).bytes().len() ==> r is Ok && final(self).position() == pos,
            pos > old(self).bytes().len() ==> r == Err::<(), Error>(Error::UnexpectedEof)
                && final(self).position() == old(self).position(),
    {
        if pos <= self.data.len() {
            self.pos = pos;
            Ok(())
        } else {
            Err(Error::UnexpectedEof)
        }
    }

    /// Reads one byte.
    pub fn read_byte(&mut self) -> (r: Result<u8, Error>)
        ensures
            final(self).bytes() == old(self).bytes(),
            old(self).position() < old(self).bytes().len() ==> r == Ok::<u8, Error>(
                old(self).bytes()[old(self).position()],
            ) && final(self).position() == old(self).position() + 1,
            old(self).position() >= old(self).bytes().len() ==> r == Err::<u8, Error>(
                Error::UnexpectedEof,
            ) && final(self).position() == old(self).position(),
    {
        if self.pos < self.data.len() {
            let byte: u8 = self.data[self.pos];
            self.pos = self.pos + 1;
            Ok(byte)
        } else {
            Err(Error::UnexpectedEof)
        }
    }

    /// Reads one variable-length integer.  Nothing is consumed when it fails.
    pub fn read_vint(&mut self) -> (r: Result<u32, Error>)
        ensures
            final(self).bytes() == old(self).bytes(),
            match parse_vint(old(self).bytes(), old(self).position()) {
                Ok((value, end)) => r == Ok::<u32, Error>(value as u32) && value <= u32::MAX
                    && final(self).position() == end && end <= old(self).bytes().len(),
                Err(e) => r == Err::<u32, Error>(e) && final(self).position() == old(
                    self,
                ).position(),
            },
    {
        let ghost bytes = self.data@;
        let ghost start = self.pos as int;
        let mut at: usize = self.pos;
        let mut low: u32 = 0;
        let mut scale: u32 = 1;
        let mut index: usize = 0;
        while index < 4
            invariant
                bytes == self.data@,
                start == self.pos,
                bytes == old(self).bytes(),
                start == old(self).position(),
                index <= 4,
                start <= at,
                scale == vint_scale(index as nat),
                low < scale,
                at < bytes.len() ==> parse_vint(bytes, start) == match vint_at(
                    bytes,
                    at as int,
                    index as nat,
                ) {
                    Ok((high, end)) => Ok::<(nat, int), Error>(((low + scale * high) as nat, end)),
                    Err(e) => Err::<(nat, int), Error>(e),
                },
                at >= bytes.len() ==> parse_vint(bytes, start) == Err::<(nat, int), Error>(
                    Error::UnexpectedEof,
                ),
            decreases 4 - index,
        {
            if at >= self.data.len() {
                return Err(Error::UnexpectedEof);
            }
            let byte: u8 = self.data[at];
            if byte < 128 {
                assert(scale * byte <= 0x20_0000 * 127) by (nonlinear_arith)
                    requires
                        scale <= 0x20_0000,
                        byte <= 127,
                ;
                self.pos = at + 1;
                return Ok(low + scale * (byte as u32));
            }
            let ghost high_part = vint_at(bytes, at + 1, (index + 1) as nat);
            proof {
                assert(scale * (byte - 128) <= scale * 127) by (nonlinear_arith)
                    requires
                        byte - 128 <= 127,
                        scale >= 0,
                ;
                assert(scale * (byte - 128) + low < scale * 128) by (nonlinear_arith)
                    requires
                        byte - 128 <= 127,
                        low < scale,
                ;
                if high_part is Ok {
                    let high = high_part->Ok_0.0;
                    assert(low + scale * ((byte - 128 + 128 * high) as nat) == (low + scale * (byte
                        - 128)) + (scale * 128) * high) by (nonlinear_arith)
                        requires
                            byte >= 128,
                            high >= 0,
                    ;
                }
            }
            low = low + scale * ((byte - 128) as u32);
            scale = scale * 128;
            at = at + 1;
            index = index + 1;
        }
        if at >= self.data.len() {
            return Err(Error::UnexpectedEof);
        }
        let byte: u8 = self.data[at];
        if byte < 16 {
            self.pos = at + 1;
            Ok(low + scale * (byte as u32))
        } else {
            Err(Error::InvalidVInt)
        }
    }

    /// Reads `len` bytes into the front of `buf`.  The rest of `buf` stays as it
    /// was, and nothing is consumed or written when the input is too short.
    pub fn read_exact(&mut self, buf: &mut [u8], len: usize) -> (r: Result<(), Error>)
        requires
            len <= old(buf)@.len(),
        ensures
            final(self).bytes() == old(self).bytes(),
            old(self).position() + len <= old(self).bytes().len() ==> {
                &&& r is Ok
                &&& final(self).position() == old(self).position() + len
                &&& final(buf)@ == old(self).bytes().subrange(
                    old(self).position(),
                    old(self).position() + len,
                ) + old(buf)@.skip(len as int)
            },
            old(self).position() + len > old(self).bytes().len() ==> {
                &&& r == Err::<(), Error>(Error::UnexpectedEof)
                &&& final(self).position() == old(self).position()
                &&& final(buf)@ == old(buf)@
            },
    {
        if self.pos > self.data.len() || len > self.data.len() - self.pos {
            return Err(Error::UnexpectedEof);
        }
        let start: usize = self.pos;
        let mut i: usize = 0;
        while i < len
            invariant
                i <= len <= buf@.len(),
                buf@.len() == old(buf)@.len(),
                start == self.pos,
                self.data@ == old(self).bytes(),
                start + len <= self.data@.len() <= usize::MAX,
                forall|k: int| 0 <= k < i ==> buf@[k] == self.data@[start + k],
                forall|k: int| len <= k < buf@.len() ==> buf@[k] == old(buf)@[k],
            decreases len - i,
        {
            buf[i] = self.data[start + i];
            i = i + 1;
        }
        self.pos = start + len;
        proof {
            assert(buf@ =~= old(self).bytes().subrange(start as int, start + len) + old(
                buf,
            )@.skip(len as int));
        }
        Ok(())
    }
}

/// A run of bytes held in memory that grows at its end.
pub struct ByteOutput {
    data: Vec<u8>,
}

impl ByteOutput {
    /// The bytes written so far.
    pub closed spec fn bytes(&self) -> Seq<u8> {
        self.data@
    }

    /// An output with nothing written.
    pub fn new() -> (r: ByteOutput)
        ensures
            r.bytes() == Seq::<u8>::empty(),
    {
        ByteOutput { data: Vec::new() }
    }

    /// The number of bytes written so far.
    pub fn file_pointer(&self) -> (r: usize)
        ensures
            r == self.bytes().len(),
    {
        self.data.len()
    }

    /// Gives up the output for the bytes written to it.
    pub fn into_bytes(self) -> (r: Vec<u8>)
        ensures
            r@ == self.bytes(),
    {
        self.data
    }

    /// Appends one byte.
    pub fn write_byte(&mut self, byte: u8)
        ensures
            final(self).bytes() == old(self).bytes().push(byte),
    {
        self.data.push(byte);
    }

    /// Appends `value` as a variable-length integer.
    pub fn write_vint(&mut self, value: u32)
        ensures
            final(self).bytes() == old(self).bytes() + vint_bytes(value as nat),
    {
        let ghost start = self.data@;
        let mut rest: u32 = value;
        while rest >= 128
            invariant
                self.data@ + vint_bytes(rest as nat) == start + vint_bytes(value as nat),
            decreases rest,
        {
            let ghost prior = self.data@;
            self.data.push((rest % 128 + 128) as u8);
            proof {
                assert(prior + vint_bytes(rest as nat) =~= prior.push((rest % 128 + 128) as u8)
                    + vint_bytes((rest / 128) as nat));
            }
            rest = rest / 128;
        }
        let ghost prior = self.data@;
        self.data.push(rest as u8);
        proof {
            assert(prior + vint_bytes(rest as nat) =~= prior.push(rest as u8));
        }
    }

    /// Appends the `len` bytes of `buf` that start at `offset`.
    pub fn write_bytes(&mut self, buf: &[u8], offset: usize, len: usize)
        requires
            offset + len <= buf@.len(),
        ensures
            final(self).bytes() == old(self).bytes() + buf@.subrange(
                offset as int,
                offset + len,
            ),
    {
        let ghost start = self.data@;
        let mut i: usize = 0;
        proof {
            assert(buf.len() == buf@.len());
        }
        while i < len
            invariant
                i <= len,
                offset + len <= buf@.len() <= usize::MAX,
                self.data@ == start + buf@.subrange(offset as int, offset + i),
            decreases len - i,
        {
            let ghost prior = self.data@;
            self.data.push(buf[offset + i]);
            proof {
                assert(prior.push(buf@[offset + i]) =~= start + buf@.subrange(
                    offset as int,
                    offset + i + 1,
                ));
            }
            i = i + 1;
        }
    }
}

} // verus!
