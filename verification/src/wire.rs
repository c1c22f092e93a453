//! Big-endian integers and length-prefixed labels, to and from raw bytes.

use crate::error::{DnsError, Malformation};
use crate::name::{follow, join_dots, labels_at, DOT};
use byteorder::{BigEndian, ByteOrder};
use vstd::prelude::*;
use vstd::slice::{slice_subrange, slice_to_vec};
use vstd::string::StringSliceAdditionalSpecFns;

verus! {

broadcast use vstd::slice::group_slice_axioms;

/// The 16-bit value whose big-endian form starts at `at` in `data`.
pub open spec fn u16_at(data: Seq<u8>, at: int) -> u16 {
    (data[at] as int * 256 + data[at + 1] as int) as u16
}

/// The 32-bit value whose big-endian form starts at `at` in `data`.
pub open spec fn u32_at(data: Seq<u8>, at: int) -> u32 {
    (((data[at] as int * 256 + data[at + 1] as int) * 256 + data[at + 2] as int) * 256 + data[at
        + 3] as int) as u32
}

/// The big-endian form of a 16-bit value.
pub open spec fn u16_bytes(value: u16) -> Seq<u8> {
    seq![(value / 256) as u8, (value % 256) as u8]
}

/// The big-endian form of a 32-bit value.
pub open spec fn u32_bytes(value: u32) -> Seq<u8> {
    seq![
        (value / 0x100_0000) as u8,
        (value / 0x1_0000 % 256) as u8,
        (value / 0x100 % 256) as u8,
        (value % 256) as u8,
    ]
}

/// A 16-bit value is read back from its big-endian form, whatever follows.
pub proof fn lemma_u16_round_trip(value: u16, tail: Seq<u8>)
    ensures
        u16_at(u16_bytes(value) + tail, 0) == value,
{
}

/// A 32-bit value is read back from its big-endian form, whatever follows.
pub proof fn lemma_u32_round_trip(value: u32, tail: Seq<u8>)
    ensures
        u32_at(u32_bytes(value) + tail, 0) == value,
{
}

/// `byteorder::BigEndian::read_u16`: the first two bytes of the slice, taken
/// as a big-endian number. The slice must hold two bytes at least.
#[verifier::external_body]
fn be_read_u16(buf: &[u8]) -> (value: u16)
    requires
        buf@.len() >= 2,
    ensures
        value == u16_at(buf@, 0),
{
    BigEndian::read_u16(buf)
}

/// `byteorder::BigEndian::read_u32`: the first four bytes of the slice, taken
/// as a big-endian number. The slice must hold four bytes at least.
#[verifier::external_body]
fn be_read_u32(buf: &[u8]) -> (value: u32)
    requires
        buf@.len() >= 4,
    ensures
        value == u32_at(buf@, 0),
{
    BigEndian::read_u32(buf)
}

/// `byteorder::BigEndian::write_u16`, on a fresh array of two bytes: the high
/// byte comes first.
#[verifier::external_body]
fn be_write_u16(value: u16) -> (tmp: [u8; 2])
    ensures
        tmp@ == u16_bytes(value),
{
    let mut tmp: [u8; 2] = [0; 2];
    BigEndian::write_u16(&mut tmp, value);
    tmp
}

/// `byteorder::BigEndian::write_u32`, on a fresh array of four bytes: the
/// highest byte comes first.
#[verifier::external_body]
fn be_write_u32(value: u32) -> (tmp: [u8; 4])
    ensures
        tmp@ == u32_bytes(value),
{
    let mut tmp: [u8; 4] = [0; 4];
    BigEndian::write_u32(&mut tmp, value);
    tmp
}

/// Appends one byte.
pub fn push_u8(buffer: &mut Vec<u8>, value: u8)
    ensures
        final(buffer)@ == old(buffer)@.push(value),
{
    buffer.push(value);
}

/// Appends a 16-bit value, high byte first.
pub fn push_u16(buffer: &mut Vec<u8>, value: u16)
    ensures
        final(buffer)@ == old(buffer)@ + u16_bytes(value),
{
    let tmp = be_write_u16(value);
    buffer.push(tmp[0]);
    buffer.push(tmp[1]);
    assert(buffer@ =~= old(buffer)@ + u16_bytes(value));
}

/// Appends a 32-bit value, highest byte first.
pub fn push_u32(buffer: &mut Vec<u8>, value: u32)
    ensures
        final(buffer)@ == old(buffer)@ + u32_bytes(value),
{
    let tmp = be_write_u32(value);
    buffer.push(tmp[0]);
    buffer.push(tmp[1]);
    buffer.push(tmp[2]);
    buffer.push(tmp[3]);
    assert(buffer@ =~= old(buffer)@ + u32_bytes(value));
}

/// Appends a run of bytes.
pub fn push_bytes(buffer: &mut Vec<u8>, bytes: &[u8])
    ensures
        final(buffer)@ == old(buffer)@ + bytes@,
{
    let mut i: usize = 0;
    while i < bytes.len()
        invariant
            i <= bytes@.len(),
            buffer@ == old(buffer)@ + bytes@.take(i as int),
        decreases bytes@.len() - i,
    {
        buffer.push(bytes[i]);
        assert(bytes@.take(i + 1) =~= bytes@.take(i as int).push(bytes@[i as int]));
        i += 1;
    }
    assert(bytes@.take(i as int) =~= bytes@);
}

/// Appends the bytes of a string.
pub fn push_str(buffer: &mut Vec<u8>, value: &str)
    ensures
        final(buffer)@ == old(buffer)@ + value.spec_bytes(),
{
    push_bytes(buffer, value.as_bytes());
}

/// A read position in a byte buffer.
#[derive(Clone, Copy)]
pub struct ByteCursor<'a> {
    data: &'a [u8],
    at: usize,
}

impl<'a> ByteCursor<'a> {
    /// The whole buffer, read or not.
    pub closed spec fn bytes(self) -> Seq<u8> {
        self.data@
    }

    /// How many bytes have been read.
    pub closed spec fn offset(self) -> nat {
        self.at as nat
    }

    /// The bytes that have not been read yet.
    pub open spec fn rest(self) -> Seq<u8> {
        self.bytes().skip(self.offset() as int)
    }

    /// Whether `count` more bytes can be read.
    pub open spec fn has(self, count: nat) -> bool {
        self.offset() + count <= self.bytes().len()
    }

    /// Whether `next` is this cursor, `count` bytes further on.
    pub open spec fn advanced(self, count: nat, next: Self) -> bool {
        next.bytes() == self.bytes() && next.offset() == self.offset() + count
    }

    #[verifier::type_invariant]
    spec fn in_bounds(self) -> bool {
        self.at <= self.data@.len()
    }

    /// A cursor at the start of `data`.
    pub fn new(data: &'a [u8]) -> (cursor: Self)
        ensures
            cursor.bytes() == data@,
            cursor.offset() == 0,
    {
        ByteCursor { data, at: 0 }
    }

    /// How many bytes have been read.
    pub fn position(&self) -> (at: usize)
        ensures
            at == self.offset(),
    {
        self.at
    }

    /// How many bytes are left to read.
    pub fn remaining(&self) -> (left: usize)
        ensures
            left == self.bytes().len() - self.offset(),
            left == self.rest().len(),
    {
        proof {
            use_type_invariant(self);
        }
        self.data.len() - self.at
    }

    /// Reads one byte, or fails where none is left.
    pub fn read_u8(&mut self) -> (r: Result<u8, DnsError>)
        ensures
            match r {
                Ok(value) => {
                    &&& old(self).has(1)
                    &&& value == old(self).bytes()[old(self).offset() as int]
                    &&& old(self).advanced(1, *final(self))
                },
                Err(e) => {
                    &&& !old(self).has(1)
                    &&& e == DnsError::Malformed(Malformation::Truncated)
                    &&& old(self).advanced(0, *final(self))
                },
            },
    {
        pop_u8(self)
    }

    /// Reads a big-endian 16-bit value, or fails where fewer than two bytes
    /// are left.
    pub fn read_u16(&mut self) -> (r: Result<u16, DnsError>)
        ensures
            match r {
                Ok(value) => {
                    &&& old(self).has(2)
                    &&& value == u16_at(old(self).bytes(), old(self).offset() as int)
                    &&& old(self).advanced(2, *final(self))
                },
                Err(e) => {
                    &&& !old(self).has(2)
                    &&& e == DnsError::Malformed(Malformation::Truncated)
                    &&& old(self).advanced(0, *final(self))
                },
            },
    {
        pop_u16(self)
    }

    /// Reads a big-endian 32-bit value, or fails where fewer than four bytes
    /// are left.
    pub fn read_u32(&mut self) -> (r: Result<u32, DnsError>)
        ensures
            match r {
                Ok(value) => {
                    &&& old(self).has(4)
                    &&& value == u32_at(old(self).bytes(), old(self).offset() as int)
                    &&& old(self).advanced(4, *final(self))
                },
                Err(e) => {
                    &&& !old(self).has(4)
                    &&& e == DnsError::Malformed(Malformation::Truncated)
                    &&& old(self).advanced(0, *final(self))
                },
            },
    {
        pop_u32(self)
    }

    /// Reads `count` raw bytes, or fails where fewer are left.
    pub fn read_bytes(&mut self, count: usize) -> (r: Result<Vec<u8>, DnsError>)
        ensures
            match r {
                Ok(run) => {
                    &&& old(self).has(count as nat)
                    &&& run@ == old(self).bytes().subrange(
                        old(self).offset() as int,
                        old(self).offset() + count,
                    )
                    &&& old(self).advanced(count as nat, *final(self))
                },
                Err(e) => {
                    &&& !old(self).has(count as nat)
                    &&& e == DnsError::Malformed(Malformation::Truncated)
                    &&& old(self).advanced(0, *final(self))
                },
            },
    {
        if self.remaining() < count {
            Err(DnsError::Malformed(Malformation::Truncated))
        } else {
            assert(self.data@.len() == self.data.len());
            let run = slice_to_vec(slice_subrange(self.data, self.at, self.at + count));
            self.at = self.at + count;
            Ok(run)
        }
    }

    /// Reads length-prefixed labels up to their zero terminator and returns
    /// them as a dotted name. Fails, and stays where it was, where the buffer
    /// ends before the terminator.
    pub fn read_labels(&mut self) -> (r: Result<Vec<u8>, DnsError>)
        ensures
            match r {
                Ok(name) => {
                    &&& labels_at(old(self).rest()) matches Some((labels, taken))
                    &&& name@ == join_dots(labels)
                    &&& old(self).advanced(taken, *final(self))
                },
                Err(e) => {
                    &&& labels_at(old(self).rest()) is None
                    &&& e == DnsError::Malformed(Malformation::Truncated)
                    &&& old(self).advanced(0, *final(self))
                },
            },
    {
        proof {
            use_type_invariant(&*self);
        }
        let data = self.data;
        let total = data.len();
        let mut name: Vec<u8> = Vec::new();
        let mut at = self.at;
        let ghost mut labels: Seq<Seq<u8>> = Seq::empty();
        assert(follow(labels, 0, labels_at(data@.skip(at as int))) == labels_at(
            data@.skip(at as int),
        )) by {
            let head = labels_at(data@.skip(at as int));
            if let Some((more, count)) = head {
                assert(labels + more =~= more);
            }
        }
        loop
            invariant
                *self == *old(self),
                data == self.data,
                total == data@.len(),
                self.at <= at <= total,
                name@ == join_dots(labels),
                labels.len() == 0 <==> name@.len() == 0,
                forall|i: int| 0 <= i < labels.len() ==> (#[trigger] labels[i]).len() > 0,
                labels_at(old(self).rest()) == follow(
                    labels,
                    (at - self.at) as nat,
                    labels_at(data@.skip(at as int)),
                ),
            decreases total - at,
        {
            let ghost unread = data@.skip(at as int);
            if at >= total {
                return Err(DnsError::Malformed(Malformation::Truncated));
            }
            let size = data[at] as usize;
            assert(unread[0] == data@[at as int]);
            if size == 0 {
                self.at = at + 1;
                proof {
                    assert(labels + Seq::<Seq<u8>>::empty() =~= labels);
                }
                return Ok(name);
            }
            if total - at - 1 < size {
                return Err(DnsError::Malformed(Malformation::Truncated));
            }
            if name.len() > 0 {
                name.push(DOT);
            }
            push_bytes(&mut name, slice_subrange(data, at + 1, at + 1 + size));
            proof {
                let label = data@.subrange(at + 1, at + 1 + size);
                let grown = labels.push(label);
                assert(unread.subrange(1, 1 + size) =~= label);
                assert(unread.skip(1 + size) =~= data@.skip(at + 1 + size));
                assert(grown.drop_last() =~= labels);
                assert(name@ == join_dots(grown));
                let later = labels_at(data@.skip(at + 1 + size));
                if let Some((more, count)) = later {
                    assert(labels + (seq![label] + more) =~= grown + more);
                }
                labels = grown;
            }
            at = at + 1 + size;
        }
    }
}

/// Takes the next byte, or fails where none is left. A read that fails
/// leaves the cursor where it was.
pub fn pop_u8(cursor: &mut ByteCursor) -> (r: Result<u8, DnsError>)
    ensures
        match r {
            Ok(value) => {
                &&& old(cursor).has(1)
                &&& value == old(cursor).bytes()[old(cursor).offset() as int]
                &&& old(cursor).advanced(1, *final(cursor))
            },
            Err(e) => {
                &&& !old(cursor).has(1)
                &&& e == DnsError::Malformed(Malformation::Truncated)
                &&& old(cursor).advanced(0, *final(cursor))
            },
        },
{
    if cursor.remaining() < 1 {
        return Err(DnsError::Malformed(Malformation::Truncated));
    }
    let value = cursor.data[cursor.at];
    cursor.at = cursor.at + 1;
    Ok(value)
}

/// Takes the next two bytes as a big-endian number, or fails where fewer
/// are left. A read that fails leaves the cursor where it was.
pub fn pop_u16(cursor: &mut ByteCursor) -> (r: Result<u16, DnsError>)
    ensures
        match r {
            Ok(value) => {
                &&& old(cursor).has(2)
                &&& value == u16_at(old(cursor).bytes(), old(cursor).offset() as int)
                &&& old(cursor).advanced(2, *final(cursor))
            },
            Err(e) => {
                &&& !old(cursor).has(2)
                &&& e == DnsError::Malformed(Malformation::Truncated)
                &&& old(cursor).advanced(0, *final(cursor))
            },
        },
{
    if cursor.remaining() < 2 {
        return Err(DnsError::Malformed(Malformation::Truncated));
    }
    assert(cursor.data@.len() == cursor.data.len());
    let value = be_read_u16(slice_subrange(cursor.data, cursor.at, cursor.at + 2));
    cursor.at = cursor.at + 2;
    Ok(value)
}

/// Takes the next four bytes as a big-endian number, or fails where fewer
/// are left. A read that fails leaves the cursor where it was.
pub fn pop_u32(cursor: &mut ByteCursor) -> (r: Result<u32, DnsError>)
    ensures
        match r {
            Ok(value) => {
                &&& old(cursor).has(4)
                &&& value == u32_at(old(cursor).bytes(), old(cursor).offset() as int)
                &&& old(cursor).advanced(4, *final(cursor))
            },
            Err(e) => {
                &&& !old(cursor).has(4)
                &&& e == DnsError::Malformed(Malformation::Truncated)
                &&& old(cursor).advanced(0, *final(cursor))
            },
        },
{
    if cursor.remaining() < 4 {
        return Err(DnsError::Malformed(Malformation::Truncated));
    }
    assert(cursor.data@.len() == cursor.data.len());
    let value = be_read_u32(slice_subrange(cursor.data, cursor.at, cursor.at + 4));
    cursor.at = cursor.at + 4;
    Ok(value)
}

} // verus!
