//! Whole segments: how a list of records is laid out, what a full walk of a
//! segment yields, and the laws that tie the two together.
use crate::format::{
    decode_block, encode_record, entry_fits, footer_magic_bytes, lemma_decode_encoded_record,
    lemma_decode_footer, lemma_encode_record_len, be_u64, Block, Entry, FOOTER_MAGIC, MAGIC_LEN,
    RECORD_MAGIC, RECORD_OVERHEAD,
};
use vstd::prelude::*;

verus! {

/// The record blocks of `es`, in order.
pub open spec fn encode_records(es: Seq<Entry>) -> Seq<u8>
    decreases es.len(),
{
    if es.len() == 0 {
        Seq::empty()
    } else {
        encode_records(es.drop_last()) + encode_record(es.last())
    }
}

/// A segment holding the records `es` and a footer with `payload`.
pub open spec fn encode_segment(es: Seq<Entry>, payload: Seq<u8>) -> Seq<u8> {
    encode_records(es) + footer_magic_bytes() + payload
}

/// Offset of the `i`-th record block of a segment holding `es`: the encoded
/// size of the blocks before it.
pub open spec fn block_start(es: Seq<Entry>, i: int) -> int {
    encode_records(es.take(i)).len() as int
}

/// Every record fits its length fields.
pub open spec fn all_fit(es: Seq<Entry>) -> bool {
    forall|i: int| 0 <= i < es.len() ==> entry_fits(#[trigger] es[i])
}

/// How a walk of a segment stops.
pub enum Stop {
    /// At the footer magic; the footer payload begins at `payload_at`.
    Footer { payload_at: int },
    /// At a block that the bytes end inside of, which starts at `at`.
    End { at: int },
    /// At a leading token that is neither magic, which starts at `at`.
    Corrupt { at: int },
}

/// What repeated decoding from offset `off` yields: the records in order,
/// and how the walk stops.
pub open spec fn scan(data: Seq<u8>, off: int) -> (Seq<Entry>, Stop)
    decreases data.len() - off,
{
    match decode_block(data, off) {
        Block::Record { key, val, crc, next } => {
            if off < next <= data.len() {
                let (rest, stop) = scan(data, next);
                (seq![(key, val, crc)] + rest, stop)
            } else {
                // Not taken: a decoded record ends past its start and within the bytes.
                (Seq::empty(), Stop::End { at: off })
            }
        },
        Block::Footer { next } => (Seq::empty(), Stop::Footer { payload_at: next }),
        Block::End => (Seq::empty(), Stop::End { at: off }),
        Block::Corrupt => (Seq::empty(), Stop::Corrupt { at: off }),
    }
}

/// The first `i + 1` blocks are the first `i` followed by block `i`.
proof fn lemma_encode_step(es: Seq<Entry>, i: int)
    requires
        0 <= i < es.len(),
    ensures
        encode_records(es.take(i + 1)) == encode_records(es.take(i)) + encode_record(es[i]),
        block_start(es, i + 1) == block_start(es, i) + encode_record(es[i]).len(),
{
    assert(es.take(i + 1).drop_last() =~= es.take(i));
}

/// The first `j` blocks are a prefix of the first `i`.
proof fn lemma_encode_prefix(es: Seq<Entry>, i: int, j: int)
    requires
        0 <= j <= i <= es.len(),
    ensures
        block_start(es, j) <= block_start(es, i),
        encode_records(es.take(i)).subrange(0, block_start(es, j)) == encode_records(es.take(j)),
    decreases i - j,
{
    if j == i {
        assert(encode_records(es.take(i)).subrange(0, block_start(es, j)) =~= encode_records(
            es.take(j),
        ));
    } else {
        lemma_encode_prefix(es, i - 1, j);
        lemma_encode_step(es, i - 1);
        let a = encode_records(es.take(i - 1));
        assert((a + encode_record(es[i - 1])).subrange(0, block_start(es, j)) =~= a.subrange(
            0,
            block_start(es, j),
        ));
    }
}

/// Block `k` of a segment holding `es` lies within its first `i` blocks.
proof fn lemma_block_in_prefix(data: Seq<u8>, es: Seq<Entry>, i: int, k: int)
    requires
        0 <= k < i <= es.len(),
        block_start(es, i) <= data.len(),
        data.subrange(0, block_start(es, i)) == encode_records(es.take(i)),
    ensures
        block_start(es, k + 1) <= block_start(es, i),
        data.subrange(block_start(es, k), block_start(es, k + 1)) == encode_record(es[k]),
{
    lemma_encode_prefix(es, i, k + 1);
    lemma_encode_step(es, k);
    let s = block_start(es, k);
    let t = block_start(es, k + 1);
    let whole = encode_records(es.take(i));
    assert(data.subrange(s, t) =~= whole.subrange(0, t).subrange(s, t));
    assert(whole.subrange(0, t).subrange(s, t) =~= encode_record(es[k]));
}

/// Where the bytes begin with the first `i` record blocks of `es`, a walk
/// from block `j` yields records `j` to `i` and then goes on as a walk from
/// block `i` does.
proof fn lemma_scan_through(data: Seq<u8>, es: Seq<Entry>, i: int, j: int)
    requires
        all_fit(es),
        0 <= j <= i <= es.len(),
        block_start(es, i) <= data.len(),
        data.subrange(0, block_start(es, i)) == encode_records(es.take(i)),
    ensures
        scan(data, block_start(es, j)) == (
            es.subrange(j, i) + scan(data, block_start(es, i)).0,
            scan(data, block_start(es, i)).1,
        ),
    decreases i - j,
{
    if j == i {
        assert(es.subrange(j, i) + scan(data, block_start(es, i)).0 =~= scan(
            data,
            block_start(es, i),
        ).0);
    } else {
        lemma_block_in_prefix(data, es, i, j);
        lemma_encode_step(es, j);
        lemma_encode_prefix(es, i, j);
        assert(entry_fits(es[j]));
        lemma_decode_encoded_record(data, block_start(es, j), es[j]);
        lemma_scan_through(data, es, i, j + 1);
        let rest = scan(data, block_start(es, i)).0;
        assert(seq![es[j]] + (es.subrange(j + 1, i) + rest) =~= es.subrange(j, i) + rest);
    }
}

/// Round trip: decoding a segment that holds fitting records `es` and a
/// footer yields exactly `es`, in order, checksums untouched, and stops at the
/// footer with the cursor where its payload begins.
pub proof fn lemma_round_trip(es: Seq<Entry>, payload: Seq<u8>)
    requires
        all_fit(es),
    ensures
        scan(encode_segment(es, payload), 0) == (
            es,
            Stop::Footer { payload_at: encode_records(es).len() + MAGIC_LEN },
        ),
{
    let data = encode_segment(es, payload);
    let n = es.len() as int;
    let at = encode_records(es).len() as int;
    assert(es.take(n) =~= es);
    assert(es.take(0) =~= Seq::<Entry>::empty());
    assert(data.subrange(0, at) =~= encode_records(es));
    assert(data.subrange(at, at + MAGIC_LEN) =~= footer_magic_bytes());
    lemma_decode_footer(data, at);
    lemma_scan_through(data, es, n, 0);
    assert(es.subrange(0, n) =~= es);
    assert(es.subrange(0, n) + Seq::<Entry>::empty() =~= es);
}

/// Offsets: in a segment holding fitting records `es`, block `i` starts at
/// the summed size of the blocks before it, each block being its key and
/// value plus a fixed overhead; it decodes to record `i` and moves the cursor
/// to the start of block `i + 1`. After the last record the footer magic
/// follows, and the cursor then lands where the footer payload begins.
pub proof fn lemma_block_offsets(es: Seq<Entry>, payload: Seq<u8>, i: int)
    requires
        all_fit(es),
        0 <= i <= es.len(),
    ensures
        block_start(es, 0) == 0,
        i < es.len() ==> block_start(es, i + 1) == block_start(es, i) + RECORD_OVERHEAD
            + es[i].0.len() + es[i].1.len(),
        i < es.len() ==> decode_block(encode_segment(es, payload), block_start(es, i)) == (
        Block::Record {
            key: es[i].0,
            val: es[i].1,
            crc: es[i].2,
            next: block_start(es, i + 1),
        }),
        i == es.len() ==> decode_block(encode_segment(es, payload), block_start(es, i)) == (
        Block::Footer { next: block_start(es, i) + MAGIC_LEN }),
        i == es.len() ==> encode_segment(es, payload).subrange(
            block_start(es, i) + MAGIC_LEN,
            encode_segment(es, payload).len() as int,
        ) == payload,
{
    let data = encode_segment(es, payload);
    let n = es.len() as int;
    let at = encode_records(es).len() as int;
    assert(es.take(0) =~= Seq::<Entry>::empty());
    assert(es.take(n) =~= es);
    assert(data.subrange(0, at) =~= encode_records(es));
    if i < n {
        lemma_encode_step(es, i);
        lemma_encode_record_len(es[i]);
        lemma_block_in_prefix(data, es, n, i);
        lemma_decode_encoded_record(data, block_start(es, i), es[i]);
    } else {
        assert(data.subrange(at, at + MAGIC_LEN) =~= footer_magic_bytes());
        lemma_decode_footer(data, at);
        assert(data.subrange(at + MAGIC_LEN, data.len() as int) =~= payload);
    }
}

/// Decoding a record block reads no byte past its end, so cutting the bytes
/// short leaves a record that was decoded whole unchanged.
proof fn lemma_decode_cut(data: Seq<u8>, t: int, off: int)
    requires
        0 <= off,
        0 <= t <= data.len(),
        decode_block(data.take(t), off) is Record,
    ensures
        decode_block(data.take(t), off) == decode_block(data, off),
{
    let cut = data.take(t);
    assert forall|a: int, b: int| 0 <= a <= b <= t implies #[trigger] cut.subrange(a, b)
        == data.subrange(a, b) by {
        assert(cut.subrange(a, b) =~= data.subrange(a, b));
    }
}

/// Truncation: cutting a segment of fitting records short at any byte after
/// the leading magic of block `i` and before that block's end yields the
/// records before block `i`, then a clean end at block `i`, with no error.
pub proof fn lemma_truncated(es: Seq<Entry>, payload: Seq<u8>, i: int, t: int)
    requires
        all_fit(es),
        0 <= i < es.len(),
        block_start(es, i) + MAGIC_LEN <= t < block_start(es, i + 1),
    ensures
        scan(encode_segment(es, payload).take(t), 0) == (
            es.take(i),
            Stop::End { at: block_start(es, i) },
        ),
{
    let full = encode_segment(es, payload);
    let n = es.len() as int;
    let at = encode_records(es).len() as int;
    let s = block_start(es, i);
    assert(es.take(0) =~= Seq::<Entry>::empty());
    assert(es.take(n) =~= es);
    assert(full.subrange(0, at) =~= encode_records(es));
    lemma_block_in_prefix(full, es, n, i);
    lemma_encode_prefix(es, n, i);
    let cut = full.take(t);
    assert(cut.subrange(0, s) =~= full.subrange(0, s));
    assert(encode_records(es.take(n)).subrange(0, s) == encode_records(es.take(i)));
    assert(full.subrange(0, s) =~= full.subrange(0, at).subrange(0, s));
    lemma_scan_through(cut, es, i, 0);
    assert(entry_fits(es[i]));
    lemma_decode_encoded_record(full, s, es[i]);
    lemma_encode_step(es, i);
    // The record magic of block i is whole in the cut bytes.
    assert(cut.subrange(s, s + MAGIC_LEN) =~= full.subrange(s, s + MAGIC_LEN));
    if decode_block(cut, s) is Record {
        lemma_decode_cut(full, t, s);
    }
    assert(decode_block(cut, s) is End);
    assert(es.subrange(0, i) =~= es.take(i));
    assert(es.subrange(0, i) + Seq::<Entry>::empty() =~= es.take(i));
}

/// Corruption: overwriting the leading token of block `i` (the footer magic
/// when `i` is the number of records) with eight bytes that read as neither
/// magic yields the records before it and then stops with exactly one error,
/// at that block's offset.
pub proof fn lemma_corrupted(es: Seq<Entry>, payload: Seq<u8>, i: int, bad: Seq<u8>)
    requires
        all_fit(es),
        0 <= i <= es.len(),
        bad.len() == MAGIC_LEN,
        be_u64(bad) != RECORD_MAGIC,
        be_u64(bad) != FOOTER_MAGIC,
    ensures
        ({
            let full = encode_segment(es, payload);
            let s = block_start(es, i);
            scan(full.take(s) + bad + full.skip(s + MAGIC_LEN), 0) == (
                es.take(i),
                Stop::Corrupt { at: s },
            )
        }),
{
    let full = encode_segment(es, payload);
    let n = es.len() as int;
    let at = encode_records(es).len() as int;
    let s = block_start(es, i);
    assert(es.take(0) =~= Seq::<Entry>::empty());
    assert(es.take(n) =~= es);
    assert(full.subrange(0, at) =~= encode_records(es));
    lemma_encode_prefix(es, n, i);
    if i < n {
        lemma_block_in_prefix(full, es, n, i);
        lemma_encode_record_len(es[i]);
    }
    let data = full.take(s) + bad + full.skip(s + MAGIC_LEN);
    assert(data.subrange(0, s) =~= full.subrange(0, s));
    assert(full.subrange(0, s) =~= full.subrange(0, at).subrange(0, s));
    lemma_scan_through(data, es, i, 0);
    assert(data.subrange(s, s + MAGIC_LEN) =~= bad);
    assert(decode_block(data, s) is Corrupt);
    assert(es.subrange(0, i) =~= es.take(i));
    assert(es.subrange(0, i) + Seq::<Entry>::empty() =~= es.take(i));
}

} // verus!
