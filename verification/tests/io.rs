use elf2sgxs::io::{
    copy, empty, repeat, sink, BufRead, Chain, ErrorKind, IoError, Read, Take, Write,
};

#[test]
fn copy_copies() {
    let mut r = Take::new(repeat(0), 4);
    let mut w = sink();
    assert_eq!(copy(&mut r, &mut w).unwrap(), 4);

    let mut r = Take::new(repeat(0), 1 << 17);
    assert_eq!(copy(&mut r, &mut w).unwrap(), 1 << 17);
}

#[test]
fn sink_sinks() {
    let mut s = sink();
    assert_eq!(s.write(&[]).unwrap(), 0);
    assert_eq!(s.write(&[0]).unwrap(), 1);
    assert_eq!(s.write(&[0; 1024]).unwrap(), 1024);
    assert_eq!(Write::write(&mut &mut s, &[0; 1024]).unwrap(), 1024);
}

#[test]
fn empty_reads() {
    let mut e = empty();
    assert_eq!(e.read(&mut []).unwrap(), 0);
    assert_eq!(e.read(&mut [0]).unwrap(), 0);
    assert_eq!(e.read(&mut [0; 1024]).unwrap(), 0);
    assert_eq!(Read::read(&mut &mut e, &mut [0; 1024]).unwrap(), 0);
}

#[test]
fn repeat_repeats() {
    let mut r = repeat(4);
    let mut b = [0; 1024];
    assert_eq!(r.read(&mut b).unwrap(), 1024);
    assert!(b.iter().all(|b| *b == 4));
}

#[test]
fn take_limits_a_reader() {
    let mut r = Take::new(repeat(4), 100);
    let mut b = [0u8; 64];
    assert_eq!(r.read(&mut b).unwrap(), 64);
    assert_eq!(b, [4u8; 64]);
    let mut b = [1u8; 64];
    assert_eq!(r.read(&mut b).unwrap(), 36);
    assert_eq!(&b[..36], &[4u8; 36]);
    assert_eq!(&b[36..], &[1u8; 28]);
    assert_eq!(r.read(&mut b).unwrap(), 0);
    let mut r = Take::new(repeat(9), 0);
    assert_eq!(r.read(&mut b).unwrap(), 0);
    assert_eq!(b[0], 4);
}

#[test]
fn take_reads_exactly_or_not_at_all() {
    let mut r = Take::new(repeat(3), 5);
    let mut b = [0u8; 6];
    assert_eq!(r.read_exact(&mut b).unwrap_err().kind(), ErrorKind::UnexpectedEof);
    let mut b = [0u8; 5];
    assert_eq!(r.read_exact(&mut b), Ok(()));
    assert_eq!(b, [3u8; 5]);
    assert_eq!(r.read(&mut b).unwrap(), 0);
    let _inner = r.into_inner();
}

#[test]
fn empty_fills_only_an_empty_buffer() {
    let mut e = empty();
    assert_eq!(e.read_exact(&mut []), Ok(()));
    assert_eq!(
        e.read_exact(&mut [0]),
        Err(IoError::new(ErrorKind::UnexpectedEof, "failed to fill whole buffer"))
    );
    let mut r = repeat(8);
    let mut b = [0u8; 3];
    assert_eq!(r.read_exact(&mut b), Ok(()));
    assert_eq!(b, [8, 8, 8]);
}

#[test]
fn slice_reader_advances() {
    let data = [1u8, 2, 3, 4, 5];
    let mut r: &[u8] = &data;
    let mut b = [0u8; 2];
    assert_eq!(r.read(&mut b).unwrap(), 2);
    assert_eq!(b, [1, 2]);
    assert_eq!(r, &[3, 4, 5]);
    let mut b = [9u8; 4];
    assert_eq!(r.read(&mut b).unwrap(), 3);
    assert_eq!(b, [3, 4, 5, 9]);
    assert_eq!(r.len(), 0);
    assert_eq!(r.read(&mut b).unwrap(), 0);
}

#[test]
fn slice_reader_reads_exactly() {
    let data = [1u8, 2, 3];
    let mut r: &[u8] = &data;
    let mut b = [0u8; 4];
    let e = r.read_exact(&mut b).unwrap_err();
    assert_eq!(e.kind(), ErrorKind::UnexpectedEof);
    assert_eq!(e.message, "failed to fill whole buffer");
    assert_eq!(r, &[1, 2, 3]);
    assert_eq!(b, [0; 4]);
    let mut b = [0u8; 2];
    assert_eq!(r.read_exact(&mut b), Ok(()));
    assert_eq!(b, [1, 2]);
    assert_eq!(r, &[3]);
}

#[test]
fn slice_writer_fills_the_front() {
    let mut store = [0u8; 5];
    {
        let mut w: &mut [u8] = &mut store;
        assert_eq!(w.write(&[1, 2, 3]).unwrap(), 3);
        assert_eq!(w.len(), 2);
        assert_eq!(w.write(&[4, 5, 6]).unwrap(), 2);
        assert_eq!(w.len(), 0);
        assert_eq!(w.write(&[7]).unwrap(), 0);
        assert_eq!(w.flush(), Ok(()));
    }
    assert_eq!(store, [1, 2, 3, 4, 5]);
}

#[test]
fn slice_writer_writes_all_or_fails() {
    let mut store = [0u8; 4];
    {
        let mut w: &mut [u8] = &mut store;
        assert_eq!(w.write_all(&[1, 2, 3]), Ok(()));
        assert_eq!(
            w.write_all(&[4, 5]),
            Err(IoError::new(ErrorKind::WriteZero, "failed to write whole buffer"))
        );
    }
    assert_eq!(store, [1, 2, 3, 4]);
}

#[test]
fn vector_writer_appends() {
    let mut v: Vec<u8> = vec![9];
    assert_eq!(Write::write(&mut v, &[1, 2]).unwrap(), 2);
    assert_eq!(Write::write_all(&mut v, &[3]), Ok(()));
    assert_eq!(Write::flush(&mut v), Ok(()));
    assert_eq!(v, vec![9, 1, 2, 3]);
}

#[test]
fn copy_moves_every_byte() {
    let data: Vec<u8> = (0..200_000u32).map(|i| (i % 256) as u8).collect();
    let mut r: &[u8] = &data;
    let mut w: Vec<u8> = Vec::new();
    assert_eq!(copy(&mut r, &mut w), Ok(200_000));
    assert_eq!(w, data);
    assert_eq!(r.len(), 0);
    let mut e = empty();
    assert_eq!(copy(&mut e, &mut w), Ok(0));
    assert_eq!(w.len(), 200_000);
}

#[test]
fn copy_into_a_full_sink_fails() {
    let mut store = [0u8; 3];
    let mut r = Take::new(repeat(7), 4);
    {
        let mut w: &mut [u8] = &mut store;
        assert_eq!(copy(&mut r, &mut w).unwrap_err().kind(), ErrorKind::WriteZero);
    }
    assert_eq!(store, [7, 7, 7]);
    let mut store = [0u8; 4];
    let mut r = Take::new(repeat(7), 4);
    {
        let mut w: &mut [u8] = &mut store;
        assert_eq!(copy(&mut r, &mut w), Ok(4));
    }
    assert_eq!(store, [7; 4]);
}

#[test]
fn boxes_and_references_forward() {
    let mut r = Box::new(Take::new(repeat(2), 3));
    let mut w: Box<Vec<u8>> = Box::new(Vec::new());
    assert_eq!(copy(&mut r, &mut w), Ok(3));
    assert_eq!(*w, vec![2, 2, 2]);
    let mut inner = Take::new(repeat(5), 2);
    let mut by_ref = &mut inner;
    let mut out: Vec<u8> = Vec::new();
    let mut out_ref = &mut out;
    assert_eq!(copy(&mut by_ref, &mut out_ref), Ok(2));
    assert_eq!(out, vec![5, 5]);
}

#[test]
fn take_some_bytes() {
    let mut bytes: Vec<u8> = Vec::new();
    assert_eq!(copy(&mut Take::new(repeat(4), 100), &mut bytes), Ok(100));
    assert_eq!(bytes.len(), 100);
    assert_eq!(bytes[0], 4);
    let mut bytes: Vec<u8> = Vec::new();
    let mut both = Chain::new(Take::new(repeat(1), 10), Take::new(repeat(2), 10));
    assert_eq!(copy(&mut both, &mut bytes), Ok(20));
    assert_eq!(bytes.len(), 20);
}

#[test]
fn chain_reads_across_the_seam() {
    let a = [1u8, 2, 3];
    let b = [4u8, 5];
    let mut r = Chain::new(&a[..], &b[..]);
    let mut buf = [0u8; 4];
    assert_eq!(r.read(&mut buf).unwrap(), 4);
    assert_eq!(buf, [1, 2, 3, 4]);
    let mut buf = [9u8; 4];
    assert_eq!(r.read(&mut buf).unwrap(), 1);
    assert_eq!(buf, [5, 9, 9, 9]);
    assert_eq!(r.read(&mut buf).unwrap(), 0);
    let (first, second) = r.into_inner();
    assert!(first.is_empty() && second.is_empty());
}

#[test]
fn chain_reads_exactly() {
    let a = [1u8, 2];
    let mut r = Chain::new(&a[..], Take::new(repeat(7), 2));
    let mut buf = [0u8; 3];
    assert_eq!(r.read_exact(&mut buf), Ok(()));
    assert_eq!(buf, [1, 2, 7]);
    assert_eq!(r.read_exact(&mut buf).unwrap_err().kind(), ErrorKind::UnexpectedEof);
}

#[test]
fn buffered_slice_shows_and_consumes() {
    let data = [1u8, 2, 3];
    let mut r: &[u8] = &data;
    assert_eq!(r.fill_buf().unwrap(), &[1, 2, 3]);
    r.consume(2);
    assert_eq!(r.fill_buf().unwrap(), &[3]);
    r.consume(1);
    assert_eq!(r.fill_buf().unwrap(), &[] as &[u8]);
    let mut e = empty();
    assert_eq!(e.fill_buf().unwrap(), &[] as &[u8]);
    e.consume(0);
    let mut boxed: Box<&[u8]> = Box::new(&data);
    assert_eq!(boxed.fill_buf().unwrap(), &[1, 2, 3]);
    boxed.consume(3);
    assert_eq!(boxed.fill_buf().unwrap().len(), 0);
}
