use byteorder::{BigEndian, WriteBytesExt};
use value_log::format::{FOOTER_MAGIC, RECORD_MAGIC};
use value_log::reader::{Error, Reader};

fn record(key: &[u8], val: &[u8], crc: u32) -> Vec<u8> {
    let mut out = Vec::new();
    out.write_u64::<BigEndian>(RECORD_MAGIC).unwrap();
    out.write_u32::<BigEndian>(crc).unwrap();
    out.write_u16::<BigEndian>(key.len() as u16).unwrap();
    out.extend_from_slice(key);
    out.write_u32::<BigEndian>(val.len() as u32).unwrap();
    out.extend_from_slice(val);
    out
}

fn footer(payload: &[u8]) -> Vec<u8> {
    let mut out = Vec::new();
    out.write_u64::<BigEndian>(FOOTER_MAGIC).unwrap();
    out.extend_from_slice(payload);
    out
}

type Item = (Vec<u8>, Vec<u8>, u32);

fn drain(reader: &mut Reader) -> Vec<Item> {
    let mut out = Vec::new();
    while let Some(item) = reader.next() {
        out.push(item.expect("no error expected"));
    }
    out
}

#[test]
fn example_scenario() {
    let mut file = record(b"a", b"1", 0xAAAA);
    file.extend(record(b"bb", b"22", 0xBBBB));
    file.extend(footer(b""));
    let mut reader = Reader::with_reader(7, file);
    let items = drain(&mut reader);
    assert_eq!(
        items,
        vec![
            (b"a".to_vec(), b"1".to_vec(), 0xAAAA),
            (b"bb".to_vec(), b"22".to_vec(), 0xBBBB),
        ]
    );
    // Each block's size plus the footer magic that the reader consumed.
    assert_eq!(reader.get_offset(), (8 + 4 + 2 + 1 + 4 + 1) + (8 + 4 + 2 + 2 + 4 + 2) + 8);
    assert_eq!(reader.segment_id(), 7);
}

#[test]
fn immediate_footer() {
    let mut reader = Reader::with_reader(0, footer(b""));
    assert!(reader.next().is_none());
    assert_eq!(reader.get_offset(), 8);
}

#[test]
fn immediate_footer_with_payload_points_at_payload() {
    let mut reader = Reader::with_reader(0, footer(b"meta"));
    assert!(reader.next().is_none());
    assert_eq!(reader.get_offset(), 8);
}

#[test]
fn empty_segment_is_clean_end() {
    let mut reader = Reader::with_reader(0, Vec::new());
    assert!(reader.next().is_none());
    assert_eq!(reader.get_offset(), 0);
    assert!(reader.next().is_none());
}

#[test]
fn round_trip_many_records() {
    let mut records: Vec<Item> = Vec::new();
    for i in 0..50u32 {
        let key: Vec<u8> = (0..(i % 7)).map(|b| b as u8 ^ i as u8).collect();
        let val: Vec<u8> = (0..(i * 13 % 300)).map(|b| (b * 3) as u8).collect();
        records.push((key, val, i.wrapping_mul(0x9E37_79B9)));
    }
    let mut file = Vec::new();
    for (k, v, c) in &records {
        file.extend(record(k, v, *c));
    }
    let records_len = file.len() as u64;
    file.extend(footer(b"trailing footer payload"));
    let mut reader = Reader::with_reader(1, file);
    assert_eq!(drain(&mut reader), records);
    assert_eq!(reader.get_offset(), records_len + 8);
}

#[test]
fn empty_key_and_value() {
    let mut file = record(b"", b"", 0);
    file.extend(footer(b""));
    let mut reader = Reader::with_reader(0, file);
    assert_eq!(reader.next(), Some(Ok((Vec::new(), Vec::new(), 0))));
    assert!(reader.next().is_none());
}

#[test]
fn largest_key() {
    let key = vec![0x5a; 65535];
    let mut file = record(&key, b"v", 1);
    file.extend(footer(b""));
    let mut reader = Reader::with_reader(0, file);
    assert_eq!(reader.next(), Some(Ok((key, b"v".to_vec(), 1))));
    assert!(reader.next().is_none());
}

#[test]
fn fields_are_big_endian() {
    let key = vec![1u8; 0x0102];
    let val = vec![2u8; 0x0304];
    let mut file = record(&key, &val, 0x0102_0304);
    file.extend(footer(b""));
    let mut reader = Reader::with_reader(0, file);
    let (k, v, c) = reader.next().unwrap().unwrap();
    assert_eq!(c, 0x0102_0304);
    assert_eq!(k.len(), 0x0102);
    assert_eq!(v.len(), 0x0304);
    assert_eq!(reader.get_offset(), 18 + 0x0102 + 0x0304);
}

#[test]
fn termination_after_footer_is_sticky() {
    let mut file = footer(b"");
    file.extend(record(b"k", b"v", 3));
    let mut reader = Reader::with_reader(0, file);
    assert!(reader.next().is_none());
    for _ in 0..3 {
        assert!(reader.next().is_none());
        assert_eq!(reader.get_offset(), 8);
    }
}

#[test]
fn termination_after_clean_end_is_sticky() {
    let mut file = record(b"k", b"v", 3);
    file.truncate(file.len() - 1);
    let mut reader = Reader::with_reader(0, file);
    assert!(reader.next().is_none());
    assert!(reader.next().is_none());
    assert_eq!(reader.get_offset(), 0);
}

#[test]
fn truncation_inside_record_is_clean_end() {
    let first = record(b"first", b"one", 11);
    let second = record(b"second", b"two two", 22);
    let mut full = first.clone();
    full.extend(second.iter());
    for cut in (first.len() + 8)..full.len() {
        let mut reader = Reader::with_reader(0, full[..cut].to_vec());
        assert_eq!(
            reader.next(),
            Some(Ok((b"first".to_vec(), b"one".to_vec(), 11))),
            "cut at {cut}"
        );
        assert!(reader.next().is_none(), "cut at {cut}");
        assert_eq!(reader.get_offset(), first.len() as u64, "cut at {cut}");
        assert!(reader.next().is_none(), "cut at {cut}");
    }
}

#[test]
fn truncation_inside_magic_is_clean_end() {
    let first = record(b"a", b"b", 1);
    let mut file = first.clone();
    file.extend_from_slice(&RECORD_MAGIC.to_be_bytes()[..5]);
    let mut reader = Reader::with_reader(0, file);
    assert!(reader.next().unwrap().is_ok());
    assert!(reader.next().is_none());
    assert_eq!(reader.get_offset(), first.len() as u64);
}

#[test]
fn corrupted_magic_is_an_error() {
    let first = record(b"a", b"1", 5);
    let mut file = first.clone();
    let mut bad = record(b"b", b"2", 6);
    bad[..8].copy_from_slice(b"NOTMAGIC");
    file.extend(bad);
    file.extend(footer(b""));
    let mut reader = Reader::with_reader(0, file);
    assert_eq!(reader.next(), Some(Ok((b"a".to_vec(), b"1".to_vec(), 5))));
    assert_eq!(reader.get_offset(), first.len() as u64);
    assert_eq!(reader.next(), Some(Err(Error::InvalidHeader)));
    assert_eq!(reader.get_offset(), first.len() as u64 + 8);
}

#[test]
fn corrupted_footer_magic_is_an_error() {
    let mut file = footer(b"");
    file[0] ^= 0xff;
    let mut reader = Reader::with_reader(0, file);
    assert_eq!(reader.next(), Some(Err(Error::InvalidHeader)));
}

#[test]
fn offsets_are_cumulative_block_sizes() {
    let blocks = [
        record(b"k1", b"", 1),
        record(b"", b"value", 2),
        record(b"key3", b"v3", 3),
    ];
    let mut file = Vec::new();
    for b in &blocks {
        file.extend(b.iter());
    }
    file.extend(footer(b"payload"));
    let mut reader = Reader::with_reader(0, file.clone());
    let mut expected = 0u64;
    assert_eq!(reader.get_offset(), 0);
    for b in &blocks {
        assert!(reader.next().unwrap().is_ok());
        expected += b.len() as u64;
        assert_eq!(reader.get_offset(), expected);
    }
    assert!(reader.next().is_none());
    let payload_at = reader.get_offset() as usize;
    assert_eq!(&file[payload_at..], b"payload");
}

#[test]
fn magic_constants_spell_their_tags() {
    assert_eq!(&RECORD_MAGIC.to_be_bytes(), b"VLGBLOB1");
    assert_eq!(&FOOTER_MAGIC.to_be_bytes(), b"VLGSMETA");
}
