//! Forward-only decoding of one segment into its records.
use crate::format::{
    decode_block, u16_at, u32_at, u64_at, Block, FOOTER_MAGIC, MAGIC_LEN, RECORD_MAGIC,
};
use vstd::prelude::*;

verus! {

/// Opaque token naming the segment that a reader walks.
pub type SegmentId = u64;

/// What can go wrong while decoding a segment.
#[derive(Clone, Copy, Debug, PartialEq, Eq, Structural)]
pub enum Error {
    /// A block's leading token was read whole and is neither magic.
    InvalidHeader,
}

/// Abstract state of a [`Reader`].
pub struct ReaderState {
    pub segment_id: SegmentId,
    /// The whole segment.
    pub data: Seq<u8>,
    /// Offset just past the last block that was decoded.
    pub offset: nat,
    /// Set once the end of the record stream was reached; sticky.
    pub terminated: bool,
}

/// Reads through a segment in order.
///
/// The segment is sealed: it never changes once written, so any number of
/// readers may walk it at once, each with its own cursor, without locking.
pub struct Reader {
    segment_id: SegmentId,
    data: Vec<u8>,
    offset: usize,
    is_terminated: bool,
}

impl View for Reader {
    type V = ReaderState;

    closed spec fn view(&self) -> ReaderState {
        ReaderState {
            segment_id: self.segment_id,
            data: self.data@,
            offset: self.offset as nat,
            terminated: self.is_terminated,
        }
    }
}

impl Reader {
    /// The cursor lies within the segment.
    pub closed spec fn wf(&self) -> bool {
        self.offset <= self.data@.len() <= usize::MAX
    }

    /// Initializes a reader over the bytes of a segment, positioned at its start.
    pub fn with_reader(segment_id: SegmentId, data: Vec<u8>) -> (r: Self)
        ensures
            r.wf(),
            r@ == (ReaderState { segment_id, data: data@, offset: 0, terminated: false }),
    {
        let _len = data.len();
        Reader { segment_id, data, offset: 0, is_terminated: false }
    }

    /// Byte offset just past the last block that was decoded.
    ///
    /// Once `next` has met the footer magic this is where the footer payload
    /// begins.
    pub fn get_offset(&self) -> (r: u64)
        requires
            self.wf(),
        ensures
            r as int == self@.offset,
    {
        self.offset as u64
    }

    /// The segment this reader walks.
    pub fn segment_id(&self) -> (r: SegmentId)
        ensures
            r == self@.segment_id,
    {
        self.segment_id
    }

    /// Decodes the next record.
    ///
    /// Returns `None` once the footer magic is met (the cursor then points at
    /// the footer payload) or the segment ends before a block is complete (the
    /// cursor stays after the last whole block); every later call returns
    /// `None` too. A leading token that is neither magic gives
    /// `Error::InvalidHeader`.
    pub fn next(&mut self) -> (r: Option<Result<(Vec<u8>, Vec<u8>, u32), Error>>)
        requires
            old(self).wf(),
        ensures
            final(self).wf(),
            final(self)@.segment_id == old(self)@.segment_id,
            final(self)@.data == old(self)@.data,
            old(self)@.terminated ==> r is None && final(self)@ == old(self)@,
            !old(self)@.terminated ==> match decode_block(old(self)@.data, old(self)@.offset as int) {
                Block::Record { key, val, crc, next } => {
                    &&& r matches Some(Ok((k, v, c)))
                    &&& k@ == key
                    &&& v@ == val
                    &&& c == crc
                    &&& final(self)@.offset == next
                    &&& !final(self)@.terminated
                },
                Block::Footer { next } => {
                    &&& r is None
                    &&& final(self)@.offset == next
                    &&& final(self)@.terminated
                },
                Block::End => {
                    &&& r is None
                    &&& final(self)@.offset == old(self)@.offset
                    &&& final(self)@.terminated
                },
                Block::Corrupt => {
                    &&& r == Some(Err::<(Vec<u8>, Vec<u8>, u32), Error>(Error::InvalidHeader))
                    &&& final(self)@.offset == old(self)@.offset + MAGIC_LEN
                    &&& !final(self)@.terminated
                },
            },
    {
        if self.is_terminated {
            return None;
        }
        let len = self.data.len();
        let off = self.offset;
        let data = self.data.as_slice();
        if len - off < MAGIC_LEN {
            self.is_terminated = true;
            return None;
        }
        let magic = u64_at(data, off);
        if magic == FOOTER_MAGIC {
            self.offset = off + MAGIC_LEN;
            self.is_terminated = true;
            return None;
        }
        if magic != RECORD_MAGIC {
            self.offset = off + MAGIC_LEN;
            return Some(Err(Error::InvalidHeader));
        }
        let p = off + MAGIC_LEN;
        if len - p < 6 {
            self.is_terminated = true;
            return None;
        }
        let crc = u32_at(data, p);
        let key_len = u16_at(data, p + 4) as usize;
        let key_at = p + 6;
        if len - key_at < key_len || len - key_at - key_len < 4 {
            self.is_terminated = true;
            return None;
        }
        let val_len = u32_at(data, key_at + key_len) as usize;
        let val_at = key_at + key_len + 4;
        if len - val_at < val_len {
            self.is_terminated = true;
            return None;
        }
        let key = vstd::slice::slice_to_vec(vstd::slice::slice_subrange(data, key_at, key_at + key_len));
        let val = vstd::slice::slice_to_vec(vstd::slice::slice_subrange(data, val_at, val_at + val_len));
        self.offset = val_at + val_len;
        Some(Ok((key, val, crc)))
    }
}

} // verus!
