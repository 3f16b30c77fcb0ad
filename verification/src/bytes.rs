//! Little-endian integers in byte buffers, and shared byte buffers.

use std::sync::Arc;

use byteorder::{ByteOrder, LittleEndian, WriteBytesExt};
use vstd::prelude::*;

use crate::error::{Section, VectorError};

verus! {

/// The little-endian 32-bit integer that starts at `pos`.
pub open spec fn u32_at(buf: Seq<u8>, pos: int) -> u32 {
    (buf[pos] + 0x100 * buf[pos + 1] + 0x1_0000 * buf[pos + 2] + 0x100_0000 * buf[pos + 3]) as u32
}

/// The little-endian 64-bit integer that starts at `pos`.
pub open spec fn u64_at(buf: Seq<u8>, pos: int) -> u64 {
    (u32_at(buf, pos) + 0x1_0000_0000 * u32_at(buf, pos + 4)) as u64
}

/// The four little-endian bytes of `v`.
pub open spec fn u32_bytes(v: u32) -> Seq<u8> {
    seq![
        (v % 0x100) as u8,
        (v / 0x100 % 0x100) as u8,
        (v / 0x1_0000 % 0x100) as u8,
        (v / 0x100_0000) as u8,
    ]
}

/// The eight little-endian bytes of `v`.
pub open spec fn u64_bytes(v: u64) -> Seq<u8> {
    u32_bytes((v % 0x1_0000_0000) as u32) + u32_bytes((v / 0x1_0000_0000) as u32)
}

/// The little-endian bytes of a run of 32-bit integers.
pub open spec fn u32s_bytes(values: Seq<u32>) -> Seq<u8>
    decreases values.len(),
{
    if values.len() == 0 {
        Seq::empty()
    } else {
        u32s_bytes(values.drop_last()) + u32_bytes(values.last())
    }
}

/// The run of `n` little-endian 32-bit integers that starts at `pos`.
pub open spec fn u32s_at(buf: Seq<u8>, pos: int, n: nat) -> Seq<u32> {
    Seq::new(n, |i: int| u32_at(buf, pos + 4 * i))
}

/// Reading four written bytes gives back the integer.
pub proof fn u32_round_trip(buf: Seq<u8>, pos: int, v: u32)
    requires
        0 <= pos,
        pos + 4 <= buf.len(),
        buf.subrange(pos, pos + 4) == u32_bytes(v),
    ensures
        u32_at(buf, pos) == v,
{
    let s = buf.subrange(pos, pos + 4);
    assert(s[0] == buf[pos] && s[1] == buf[pos + 1] && s[2] == buf[pos + 2] && s[3] == buf[pos
        + 3]);
    let w = u32_bytes(v);
    assert(w[0] == v % 0x100 && w[1] == v / 0x100 % 0x100 && w[2] == v / 0x1_0000 % 0x100 && w[3]
        == v / 0x100_0000);
    assert(v == v % 0x100 + 0x100 * (v / 0x100 % 0x100) + 0x1_0000 * (v / 0x1_0000 % 0x100)
        + 0x100_0000 * (v / 0x100_0000));
}

/// Reading eight written bytes gives back the integer.
pub proof fn u64_round_trip(buf: Seq<u8>, pos: int, v: u64)
    requires
        0 <= pos,
        pos + 8 <= buf.len(),
        buf.subrange(pos, pos + 8) == u64_bytes(v),
    ensures
        u64_at(buf, pos) == v,
{
    let lo = (v % 0x1_0000_0000) as u32;
    let hi = (v / 0x1_0000_0000) as u32;
    let s = buf.subrange(pos, pos + 8);
    assert(buf.subrange(pos, pos + 4) =~= s.subrange(0, 4));
    assert(buf.subrange(pos + 4, pos + 8) =~= s.subrange(4, 8));
    assert(s.subrange(0, 4) =~= u32_bytes(lo));
    assert(s.subrange(4, 8) =~= u32_bytes(hi));
    u32_round_trip(buf, pos, lo);
    u32_round_trip(buf, pos + 4, hi);
}

/// Reading a written run gives back its integers.
pub proof fn u32s_round_trip(buf: Seq<u8>, pos: int, values: Seq<u32>)
    requires
        0 <= pos,
        pos + 4 * values.len() <= buf.len(),
        buf.subrange(pos, pos + 4 * values.len()) == u32s_bytes(values),
    ensures
        u32s_at(buf, pos, values.len()) == values,
    decreases values.len(),
{
    if values.len() > 0 {
        let init = values.drop_last();
        lemma_u32s_bytes_len(init);
        let n = init.len() as int;
        let s = buf.subrange(pos, pos + 4 * values.len());
        assert(buf.subrange(pos, pos + 4 * n) =~= s.subrange(0, 4 * n));
        assert(s.subrange(0, 4 * n) =~= u32s_bytes(init));
        assert(buf.subrange(pos + 4 * n, pos + 4 * n + 4) =~= s.subrange(
            4 * n,
            4 * n + 4,
        ));
        assert(s.subrange(4 * n, 4 * n + 4) =~= u32_bytes(values.last()));
        u32s_round_trip(buf, pos, init);
        u32_round_trip(buf, pos + 4 * n, values.last());
        assert forall|i: int| 0 <= i < values.len() implies #[trigger] u32s_at(
            buf,
            pos,
            values.len(),
        )[i] == values[i] by {
            if i < n {
                assert(u32s_at(buf, pos, init.len())[i] == init[i]);
            }
        }
    }
    assert(u32s_at(buf, pos, values.len()) =~= values);
}

pub proof fn lemma_u32s_bytes_len(values: Seq<u32>)
    ensures
        u32s_bytes(values).len() == 4 * values.len(),
    decreases values.len(),
{
    if values.len() > 0 {
        lemma_u32s_bytes_len(values.drop_last());
    }
}

pub proof fn lemma_u32s_bytes_push(values: Seq<u32>, v: u32)
    ensures
        u32s_bytes(values.push(v)) == u32s_bytes(values) + u32_bytes(v),
{
    assert(values.push(v).drop_last() =~= values);
}

/// Calls `byteorder::LittleEndian::read_u32`: the value of the first four bytes,
/// least significant first. The call panics on fewer than four bytes.
#[verifier::external_body]
fn read_u32(buf: &[u8]) -> (r: u32)
    requires
        buf@.len() >= 4,
    ensures
        r == u32_at(buf@, 0),
{
    LittleEndian::read_u32(buf)
}

/// Calls `byteorder::LittleEndian::read_u64`: the value of the first eight bytes,
/// least significant first. The call panics on fewer than eight bytes.
#[verifier::external_body]
fn read_u64(buf: &[u8]) -> (r: u64)
    requires
        buf@.len() >= 8,
    ensures
        r == u64_at(buf@, 0),
{
    LittleEndian::read_u64(buf)
}

/// Calls `byteorder::WriteBytesExt::write_u32` on a vector, to which writing
/// never fails: it appends the four bytes of `v`, least significant first.
#[verifier::external_body]
pub(crate) fn put_u32(out: &mut Vec<u8>, v: u32)
    ensures
        final(out)@ == old(out)@ + u32_bytes(v),
{
    out.write_u32::<LittleEndian>(v).unwrap()
}

/// Calls `byteorder::WriteBytesExt::write_u64` on a vector, to which writing
/// never fails: it appends the eight bytes of `v`, least significant first.
#[verifier::external_body]
pub(crate) fn put_u64(out: &mut Vec<u8>, v: u64)
    ensures
        final(out)@ == old(out)@ + u64_bytes(v),
{
    out.write_u64::<LittleEndian>(v).unwrap()
}

/// Appends the little-endian bytes of a run of integers.
pub(crate) fn put_u32s(out: &mut Vec<u8>, values: &[u32])
    ensures
        final(out)@ == old(out)@ + u32s_bytes(values@),
{
    let n: usize = values.len();
    let ghost start = out@;
    assert(out@ =~= start + u32s_bytes(values@.take(0)));
    for i in 0..n
        invariant
            n == values@.len(),
            out@ == start + u32s_bytes(values@.take(i as int)),
    {
        put_u32(out, values[i]);
        proof {
            assert(values@.take(i + 1) =~= values@.take(i as int).push(values@[i as int]));
            lemma_u32s_bytes_push(values@.take(i as int), values@[i as int]);
            assert(out@ =~= start + u32s_bytes(values@.take(i + 1)));
        }
    }
    assert(values@.take(n as int) =~= values@);
}

/// Appends a run of bytes.
pub(crate) fn put_bytes(out: &mut Vec<u8>, bytes: &[u8])
    ensures
        final(out)@ == old(out)@ + bytes@,
{
    out.extend_from_slice(bytes);
    assert(out@ =~= old(out)@ + bytes@);
}

/// The integer that starts at `pos`.
pub(crate) fn get_u32(buf: &[u8], pos: usize) -> (r: u32)
    requires
        pos + 4 <= buf@.len(),
    ensures
        r == u32_at(buf@, pos as int),
{
    assert(buf.len() == buf@.len());
    read_u32(&buf[pos..pos + 4])
}

/// Whether `need` more bytes stand at `pos`.
pub open spec fn has_room(len: nat, pos: int, need: int) -> bool {
    pos + need <= len
}

/// Fails with the name of the part unless `need` more bytes stand at `pos`.
pub fn check_len(buf: &[u8], pos: usize, need: usize, what: Section) -> (r: Result<
    (),
    VectorError,
>)
    ensures
        r == if has_room(buf@.len(), pos as int, need as int) {
            Ok::<(), VectorError>(())
        } else {
            Err(VectorError::Truncated(what))
        },
{
    if need <= buf.len() && pos <= buf.len() - need {
        Ok(())
    } else {
        Err(VectorError::Truncated(what))
    }
}

/// Reads the integer at `pos` and moves `pos` behind it.
pub fn read_u32_le(buf: &[u8], pos: &mut usize) -> (r: Result<u32, VectorError>)
    ensures
        r == if has_room(buf@.len(), *old(pos) as int, 4) {
            Ok::<u32, VectorError>(u32_at(buf@, *old(pos) as int))
        } else {
            Err(VectorError::Truncated(Section::U32))
        },
        *final(pos) == *old(pos) + if r is Ok { 4int } else { 0 },
{
    match check_len(buf, *pos, 4, Section::U32) {
        Ok(()) => {
            assert(buf.len() == buf@.len());
            let v: u32 = get_u32(buf, *pos);
            *pos = *pos + 4;
            Ok(v)
        },
        Err(e) => Err(e),
    }
}

/// Reads the integer at `pos` and moves `pos` behind it.
pub fn read_u64_le(buf: &[u8], pos: &mut usize) -> (r: Result<u64, VectorError>)
    ensures
        r == if has_room(buf@.len(), *old(pos) as int, 8) {
            Ok::<u64, VectorError>(u64_at(buf@, *old(pos) as int))
        } else {
            Err(VectorError::Truncated(Section::U64))
        },
        *final(pos) == *old(pos) + if r is Ok { 8int } else { 0 },
{
    match check_len(buf, *pos, 8, Section::U64) {
        Ok(()) => {
            assert(buf.len() == buf@.len());
            let v: u64 = read_u64(&buf[*pos..*pos + 8]);
            *pos = *pos + 8;
            Ok(v)
        },
        Err(e) => Err(e),
    }
}

/// A range of a byte buffer that several owners share without copying it.
pub struct OwnedBytes {
    data: Arc<Vec<u8>>,
    start: usize,
    end: usize,
}

impl View for OwnedBytes {
    type V = Seq<u8>;

    closed spec fn view(&self) -> Seq<u8> {
        self.data@.subrange(self.start as int, self.end as int)
    }
}

impl OwnedBytes {
    #[verifier::type_invariant]
    spec fn in_range(&self) -> bool {
        self.start <= self.end <= self.data@.len()
    }

    /// Takes over a whole buffer.
    pub fn new(data: Vec<u8>) -> (r: Self)
        ensures
            r@ == data@,
    {
        let end: usize = data.len();
        let r = OwnedBytes { data: Arc::new(data), start: 0, end };
        assert(r@ =~= data@);
        r
    }

    /// The bytes.
    pub fn as_slice(&self) -> (r: &[u8])
        ensures
            r@ == self@,
    {
        proof {
            use_type_invariant(self);
        }
        &self.data[self.start..self.end]
    }

    /// Number of bytes.
    pub fn len(&self) -> (r: usize)
        ensures
            r == self@.len(),
    {
        proof {
            use_type_invariant(self);
        }
        self.end - self.start
    }

    /// A part of the bytes, sharing the buffer.
    pub fn slice(&self, from: usize, to: usize) -> (r: Self)
        requires
            from <= to <= self@.len(),
        ensures
            r@ == self@.subrange(from as int, to as int),
    {
        proof {
            use_type_invariant(self);
        }
        let r = OwnedBytes {
            data: self.data.clone(),
            start: self.start + from,
            end: self.start + to,
        };
        assert(r@ =~= self@.subrange(from as int, to as int));
        r
    }

    /// The same bytes, sharing the buffer.
    pub fn share(&self) -> (r: Self)
        ensures
            r@ == self@,
    {
        proof {
            use_type_invariant(self);
        }
        OwnedBytes { data: self.data.clone(), start: self.start, end: self.end }
    }
}

} // verus!
