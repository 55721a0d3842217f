use elf2sgxs::error::SgxsError;
use elf2sgxs::stream::{sink_result, CanonicalWriter};

fn le64(x: u64) -> Vec<u8> {
    x.to_le_bytes().to_vec()
}

fn header(tag: u64, fields: &[u8]) -> Vec<u8> {
    let mut v = le64(tag);
    v.extend_from_slice(fields);
    v.resize(64, 0);
    v
}

const ECREATE: u64 = 0x0045544145524345;
const EADD: u64 = 0x0000000044444145;
const EEXTEND: u64 = 0x00444E4554584545;

fn eadd(offset: u64, secinfo: u64) -> Vec<u8> {
    let mut f = le64(offset);
    f.extend(le64(secinfo));
    header(EADD, &f)
}

fn page_with_data(data: &[u8], offset: u64, secinfo: u64) -> Vec<u8> {
    let mut v = eadd(offset, secinfo);
    for c in 0..16u64 {
        v.extend(header(EEXTEND, &le64(offset + 256 * c)));
        for i in 0..256usize {
            let at = (c as usize) * 256 + i;
            v.push(if at < data.len() { data[at] } else { 0 });
        }
    }
    v
}

#[test]
fn stream_opens_with_ecreate_record() {
    let w = CanonicalWriter::new(vec![0xAA], 0x100_0000, 3).unwrap();
    assert_eq!(w.offset(), 0);
    let bytes = w.into_sink();
    let mut fields = 3u32.to_le_bytes().to_vec();
    fields.extend(le64(0x100_0000));
    let mut expected = vec![0xAA];
    expected.extend(header(ECREATE, &fields));
    assert_eq!(bytes, expected);
}

#[test]
fn pages_without_data_are_bare_eadd_records() {
    let mut w = CanonicalWriter::new(Vec::new(), 0x10000, 1).unwrap();
    w.write_pages(None, 2, Some(0x3000), 0x203).unwrap();
    assert_eq!(w.offset(), 0x5000);
    let bytes = w.into_sink();
    let mut expected = eadd(0x3000, 0x203);
    expected.extend(eadd(0x4000, 0x203));
    assert_eq!(&bytes[64..], &expected[..]);
}

#[test]
fn pages_with_data_are_zero_padded() {
    let mut w = CanonicalWriter::new(Vec::new(), 0x10000, 1).unwrap();
    let data: Vec<u8> = (0..5000u32).map(|i| (i % 251) as u8).collect();
    w.write_pages(Some(&data), 2, None, 0x201).unwrap();
    assert_eq!(w.offset(), 0x2000);
    let bytes = w.into_sink();
    let mut expected = page_with_data(&data[..4096], 0, 0x201);
    expected.extend(page_with_data(&data[4096..], 0x1000, 0x201));
    assert_eq!(&bytes[64..], &expected[..]);
}

#[test]
fn single_page_matches_run_of_one() {
    let mut w = CanonicalWriter::new(Vec::new(), 0x10000, 1).unwrap();
    w.write_page(Some(&[1, 2, 3]), Some(0x2000), 0x100).unwrap();
    assert_eq!(w.offset(), 0x3000);
    let bytes = w.into_sink();
    assert_eq!(&bytes[64..], &page_with_data(&[1, 2, 3], 0x2000, 0x100)[..]);
}

#[test]
fn offsets_must_be_aligned_and_ascending() {
    let mut w = CanonicalWriter::new(Vec::new(), 0x10000, 1).unwrap();
    assert_eq!(w.write_pages(None, 1, Some(0x1001), 0x203), Err(SgxsError::InvalidPageOffset));
    w.write_pages(None, 2, Some(0x1000), 0x203).unwrap();
    assert_eq!(w.write_pages(None, 1, Some(0x2000), 0x203), Err(SgxsError::StreamNotCanonical));
    assert_eq!(w.write_page(None, Some(0x2000), 0x203), Err(SgxsError::StreamNotCanonical));
    assert_eq!(w.write_page(None, Some(0x3008), 0x203), Err(SgxsError::InvalidPageOffset));
    assert_eq!(w.offset(), 0x3000);
    w.write_page(None, Some(0x3000), 0x203).unwrap();
    assert_eq!(w.offset(), 0x4000);
    assert_eq!(w.into_sink().len(), 64 * 4);
}

#[test]
fn sink_failure_becomes_a_stream_error() {
    assert_eq!(sink_result(Ok(())), Ok(()));
    assert_eq!(sink_result(Err("disk full".to_string())), Err(SgxsError::Sink("disk full".to_string())));
}

#[test]
fn records_keep_only_known_attribute_bits() {
    let mut w = CanonicalWriter::new(Vec::new(), 0x10000, 1).unwrap();
    w.write_pages(None, 1, Some(0x1000), 0xffff_ffff_ffff_ffff).unwrap();
    w.write_page(None, None, 0x1_0000_02c7).unwrap();
    let bytes = w.into_sink();
    let mut expected = eadd(0x1000, 0xff3f);
    expected.extend(eadd(0x2000, 0x0207));
    assert_eq!(&bytes[64..], &expected[..]);
}

#[test]
fn data_beyond_the_pages_is_left_out() {
    let mut w = CanonicalWriter::new(Vec::new(), 0x10000, 1).unwrap();
    let data = vec![0x5a; 5000];
    w.write_pages(Some(&data), 1, Some(0), 0x201).unwrap();
    w.write_page(Some(&data), None, 0x201).unwrap();
    let bytes = w.into_sink();
    let mut expected = page_with_data(&data[..4096], 0, 0x201);
    expected.extend(page_with_data(&data[..4096], 0x1000, 0x201));
    assert_eq!(&bytes[64..], &expected[..]);
}
