//! The on-disk block format, as a mathematical model.
//!
//! ```text
//! record_block := RECORD_MAGIC(8) CRC(4) KEY_LEN(2) KEY VAL_LEN(4) VAL
//! footer_block := FOOTER_MAGIC(8) <payload>
//! segment      := record_block* footer_block
//! ```
//!
//! All integers are big-endian.
use byteorder::{BigEndian, ByteOrder};
use vstd::prelude::*;

verus! {

/// Width in bytes of the leading magic token of every block.
pub const MAGIC_LEN: usize = 8;

/// Leading token of a record block, read as a big-endian integer ("VLGBLOB1").
pub const RECORD_MAGIC: u64 = 0x564c_4742_4c4f_4231;

/// Leading token of the footer block, read as a big-endian integer ("VLGSMETA").
pub const FOOTER_MAGIC: u64 = 0x564c_4753_4d45_5441;

/// Bytes of a record block besides its key and value: magic, checksum and both lengths.
pub const RECORD_OVERHEAD: usize = 18;

/// The value of two bytes read big-endian.
pub open spec fn be_u16(s: Seq<u8>) -> int {
    s[0] as int * 0x100 + s[1] as int
}

/// The value of four bytes read big-endian.
pub open spec fn be_u32(s: Seq<u8>) -> int {
    s[0] as int * 0x100_0000 + s[1] as int * 0x1_0000 + s[2] as int * 0x100 + s[3] as int
}

/// The value of eight bytes read big-endian.
pub open spec fn be_u64(s: Seq<u8>) -> int {
    be_u32(s.subrange(0, 4)) * 0x1_0000_0000 + be_u32(s.subrange(4, 8))
}

/// Two bytes holding `x` big-endian.
pub open spec fn u16_bytes(x: int) -> Seq<u8> {
    seq![(x / 0x100) as u8, (x % 0x100) as u8]
}

/// Four bytes holding `x` big-endian.
pub open spec fn u32_bytes(x: int) -> Seq<u8> {
    seq![
        (x / 0x100 / 0x100 / 0x100) as u8,
        (x / 0x100 / 0x100 % 0x100) as u8,
        (x / 0x100 % 0x100) as u8,
        (x % 0x100) as u8,
    ]
}

/// Eight bytes holding `x` big-endian.
pub open spec fn u64_bytes(x: int) -> Seq<u8> {
    u32_bytes(x / 0x1_0000_0000) + u32_bytes(x % 0x1_0000_0000)
}

/// Encoding `x` in two bytes and reading them back gives `x`.
pub proof fn lemma_u16_round_trip(x: int)
    requires
        0 <= x < 0x1_0000,
    ensures
        u16_bytes(x).len() == 2,
        be_u16(u16_bytes(x)) == x,
{
}

/// Encoding `x` in four bytes and reading them back gives `x`.
pub proof fn lemma_u32_round_trip(x: int)
    requires
        0 <= x < 0x1_0000_0000,
    ensures
        u32_bytes(x).len() == 4,
        be_u32(u32_bytes(x)) == x,
{
}

/// Encoding `x` in eight bytes and reading them back gives `x`.
pub proof fn lemma_u64_round_trip(x: int)
    requires
        0 <= x < 0x1_0000_0000_0000_0000,
    ensures
        u64_bytes(x).len() == 8,
        be_u64(u64_bytes(x)) == x,
{
    let hi = x / 0x1_0000_0000;
    let lo = x % 0x1_0000_0000;
    lemma_u32_round_trip(hi);
    lemma_u32_round_trip(lo);
    assert(u64_bytes(x).subrange(0, 4) =~= u32_bytes(hi));
    assert(u64_bytes(x).subrange(4, 8) =~= u32_bytes(lo));
}

/// What the block starting at a given offset of a segment decodes to.
pub enum Block {
    /// A complete record block; `next` is the offset just past it.
    Record { key: Seq<u8>, val: Seq<u8>, crc: u32, next: int },
    /// The footer magic; `next` is the offset where the footer payload begins.
    Footer { next: int },
    /// The bytes stop before the block is complete: the end of the record stream.
    End,
    /// A complete leading token that is neither magic.
    Corrupt,
}

/// Decodes the fields of a record block whose magic ends at `p`.
pub open spec fn decode_record_body(data: Seq<u8>, p: int) -> Block {
    if p + 6 > data.len() {
        Block::End
    } else {
        let crc = be_u32(data.subrange(p, p + 4));
        let key_len = be_u16(data.subrange(p + 4, p + 6));
        let key_at = p + 6;
        if key_at + key_len + 4 > data.len() {
            Block::End
        } else {
            let val_len = be_u32(data.subrange(key_at + key_len, key_at + key_len + 4));
            let val_at = key_at + key_len + 4;
            if val_at + val_len > data.len() {
                Block::End
            } else {
                Block::Record {
                    key: data.subrange(key_at, key_at + key_len),
                    val: data.subrange(val_at, val_at + val_len),
                    crc: crc as u32,
                    next: val_at + val_len,
                }
            }
        }
    }
}

/// Decodes the block that starts at offset `off` of `data`.
pub open spec fn decode_block(data: Seq<u8>, off: int) -> Block {
    if off < 0 || off + MAGIC_LEN > data.len() {
        Block::End
    } else {
        let magic = be_u64(data.subrange(off, off + MAGIC_LEN));
        if magic == FOOTER_MAGIC {
            Block::Footer { next: off + MAGIC_LEN }
        } else if magic != RECORD_MAGIC {
            Block::Corrupt
        } else {
            decode_record_body(data, off + MAGIC_LEN)
        }
    }
}

/// A record as decoded: key, value and stored checksum.
pub type Entry = (Seq<u8>, Seq<u8>, u32);

/// The record's key and value fit their length fields.
pub open spec fn entry_fits(e: Entry) -> bool {
    e.0.len() <= 0xffff && e.1.len() <= 0xffff_ffff
}

/// The record block that holds `e`.
pub open spec fn encode_record(e: Entry) -> Seq<u8> {
    u64_bytes(RECORD_MAGIC as int) + u32_bytes(e.2 as int) + u16_bytes(e.0.len() as int) + e.0
        + u32_bytes(e.1.len() as int) + e.1
}

/// The footer block's leading token.
pub open spec fn footer_magic_bytes() -> Seq<u8> {
    u64_bytes(FOOTER_MAGIC as int)
}

/// A record block is its key and value plus a fixed overhead.
pub proof fn lemma_encode_record_len(e: Entry)
    ensures
        encode_record(e).len() == RECORD_OVERHEAD + e.0.len() + e.1.len(),
{
}

/// Where the bytes at `off` are the block of a fitting record, that block
/// decodes to the record, and the cursor moves just past it.
pub proof fn lemma_decode_encoded_record(data: Seq<u8>, off: int, e: Entry)
    requires
        entry_fits(e),
        0 <= off,
        off + encode_record(e).len() <= data.len(),
        data.subrange(off, off + encode_record(e).len()) == encode_record(e),
    ensures
        decode_block(data, off) == (Block::Record {
            key: e.0,
            val: e.1,
            crc: e.2,
            next: off + encode_record(e).len(),
        }),
{
    let enc = encode_record(e);
    let kl = e.0.len() as int;
    let vl = e.1.len() as int;
    lemma_u64_round_trip(RECORD_MAGIC as int);
    lemma_u32_round_trip(e.2 as int);
    lemma_u16_round_trip(kl);
    lemma_u32_round_trip(vl);
    let p1 = u64_bytes(RECORD_MAGIC as int) + u32_bytes(e.2 as int);
    let p2 = p1 + u16_bytes(kl);
    let p3 = p2 + e.0;
    let p4 = p3 + u32_bytes(vl);
    assert(enc == p4 + e.1);
    assert(p1.subrange(8, 12) =~= u32_bytes(e.2 as int));
    assert(p2.subrange(8, 12) =~= p1.subrange(8, 12));
    assert(p3.subrange(8, 12) =~= p1.subrange(8, 12));
    assert(p4.subrange(8, 12) =~= p1.subrange(8, 12));
    assert(enc.subrange(8, 12) =~= p1.subrange(8, 12));
    assert(p2.subrange(12, 14) =~= u16_bytes(kl));
    assert(p3.subrange(12, 14) =~= p2.subrange(12, 14));
    assert(p4.subrange(12, 14) =~= p2.subrange(12, 14));
    assert(enc.subrange(12, 14) =~= p2.subrange(12, 14));
    assert(p3.subrange(14, 14 + kl) =~= e.0);
    assert(p4.subrange(14, 14 + kl) =~= p3.subrange(14, 14 + kl));
    assert(enc.subrange(14, 14 + kl) =~= p3.subrange(14, 14 + kl));
    assert(p4.subrange(14 + kl, 18 + kl) =~= u32_bytes(vl));
    assert(enc.subrange(14 + kl, 18 + kl) =~= p4.subrange(14 + kl, 18 + kl));
    assert(enc.subrange(18 + kl, 18 + kl + vl) =~= e.1);
    assert forall|i: int| 0 <= i < enc.len() implies data[off + i] == enc[i] by {
        assert(data.subrange(off, off + enc.len())[i] == enc[i]);
    }
    assert(data.subrange(off, off + 8) =~= u64_bytes(RECORD_MAGIC as int));
    assert(data.subrange(off + 8, off + 12) =~= u32_bytes(e.2 as int));
    assert(data.subrange(off + 12, off + 14) =~= u16_bytes(kl));
    assert(data.subrange(off + 14, off + 14 + kl) =~= e.0);
    assert(data.subrange(off + 14 + kl, off + 18 + kl) =~= u32_bytes(vl));
    assert(data.subrange(off + 18 + kl, off + 18 + kl + vl) =~= e.1);
}

/// Where the bytes at `off` are the footer magic, the block decodes as the
/// footer, and the cursor moves just past the magic.
pub proof fn lemma_decode_footer(data: Seq<u8>, off: int)
    requires
        0 <= off,
        off + MAGIC_LEN <= data.len(),
        data.subrange(off, off + MAGIC_LEN) == footer_magic_bytes(),
    ensures
        decode_block(data, off) == (Block::Footer { next: off + MAGIC_LEN }),
{
    lemma_u64_round_trip(FOOTER_MAGIC as int);
}

/// Relies on byteorder's `BigEndian::read_u16`: the first two bytes, big-endian.
#[verifier::external_body]
fn read_be_u16(b: &[u8]) -> (r: u16)
    requires
        b@.len() == 2,
    ensures
        r as int == be_u16(b@),
{
    BigEndian::read_u16(b)
}

/// Relies on byteorder's `BigEndian::read_u32`: the first four bytes, big-endian.
#[verifier::external_body]
fn read_be_u32(b: &[u8]) -> (r: u32)
    requires
        b@.len() == 4,
    ensures
        r as int == be_u32(b@),
{
    BigEndian::read_u32(b)
}

/// Relies on byteorder's `BigEndian::read_u64`: the first eight bytes, big-endian.
#[verifier::external_body]
fn read_be_u64(b: &[u8]) -> (r: u64)
    requires
        b@.len() == 8,
    ensures
        r as int == be_u64(b@),
{
    BigEndian::read_u64(b)
}

/// Reads the big-endian `u16` stored at `data[at..at + 2]`.
pub(crate) fn u16_at(data: &[u8], at: usize) -> (r: u16)
    requires
        at + 2 <= data@.len() <= usize::MAX,
    ensures
        r as int == be_u16(data@.subrange(at as int, at + 2)),
{
    read_be_u16(vstd::slice::slice_subrange(data, at, at + 2))
}

/// Reads the big-endian `u32` stored at `data[at..at + 4]`.
pub(crate) fn u32_at(data: &[u8], at: usize) -> (r: u32)
    requires
        at + 4 <= data@.len() <= usize::MAX,
    ensures
        r as int == be_u32(data@.subrange(at as int, at + 4)),
{
    read_be_u32(vstd::slice::slice_subrange(data, at, at + 4))
}

/// Reads the big-endian `u64` stored at `data[at..at + 8]`.
pub(crate) fn u64_at(data: &[u8], at: usize) -> (r: u64)
    requires
        at + 8 <= data@.len() <= usize::MAX,
    ensures
        r as int == be_u64(data@.subrange(at as int, at + 8)),
{
    read_be_u64(vstd::slice::slice_subrange(data, at, at + 8))
}

} // verus!
