use hpk::{Fragment, FragmentedReader, HpkError, SeekFrom};

fn create_buffer(size: usize, init: u8, runs: &[(u64, u64, u8)]) -> Vec<u8> {
    let mut buf = vec![init; size];
    for &(start, len, val) in runs {
        for b in &mut buf[start as usize..(start + len) as usize] {
            *b = val;
        }
    }
    buf
}

fn create_fragments(runs: &[(u64, u64, u8)]) -> Vec<Fragment> {
    runs.iter().map(|x| Fragment::new(x.0, x.1)).collect()
}

fn sample() -> Vec<(u64, u64, u8)> {
    vec![(10, 12, 0x11), (32, 20, 0x22), (60, 35, 0x33), (100, 22, 0x44)]
}

#[test]
fn fragmented_reader_read() {
    let sample = sample();
    let data = create_buffer(128, 0xFF, &sample);
    let fragments = create_fragments(&sample);
    let mut r = FragmentedReader::new(&data, &fragments);

    assert_eq!(r.len(), 89);

    let mut buf = vec![0; r.len() as usize];

    let n = r.read(&mut buf);
    assert_eq!(n, 12);
    let mut start = n;
    let n = r.read(&mut buf[start..]);
    assert_eq!(n, 20);
    start += n;
    let n = r.read(&mut buf[start..]);
    assert_eq!(n, 35);
    start += n;
    let n = r.read(&mut buf[start..]);
    assert_eq!(n, 22);

    // end of the fragmented file
    let n = r.read(&mut buf);
    assert_eq!(n, 0);

    let inner = r.into_inner();
    assert_eq!(inner.len(), 128);

    assert_eq!(&buf[0..12], [0x11; 12]);
    assert_eq!(&buf[12..32], [0x22; 20]);
    assert_eq!(&buf[32..64], [0x33; 32]);
    assert_eq!(&buf[64..67], [0x33; 3]);
    assert_eq!(&buf[67..89], [0x44; 22]);
}

#[test]
fn fragmented_reader_read_exact() {
    let sample = sample();
    let data = create_buffer(128, 0xFF, &sample);
    let fragments = create_fragments(&sample);
    let mut r = FragmentedReader::new(&data, &fragments);

    assert_eq!(r.len(), 89);

    let mut buf = vec![0; r.len() as usize];

    r.read_exact(&mut buf).unwrap();

    // end of the fragmented file
    let n = r.read(&mut buf);
    assert_eq!(n, 0);

    assert_eq!(&buf[0..12], [0x11; 12]);
    assert_eq!(&buf[12..32], [0x22; 20]);
    assert_eq!(&buf[32..64], [0x33; 32]);
    assert_eq!(&buf[64..67], [0x33; 3]);
    assert_eq!(&buf[67..89], [0x44; 22]);
}

#[test]
fn fragmented_reader_seek() {
    let sample = sample();
    let data = create_buffer(128, 0xFF, &sample);
    let fragments = create_fragments(&sample);
    let mut r = FragmentedReader::new(&data, &fragments);

    assert_eq!(r.len(), 89);

    let mut buf = [0; 2];
    let ret = r.seek(SeekFrom::Start(11)).unwrap();
    assert_eq!(ret, 11);
    r.read_exact(&mut buf).unwrap();
    assert_eq!(buf, [0x11, 0x22]);

    let ret = r.seek(SeekFrom::Current(18)).unwrap();
    assert_eq!(ret, 31);
    r.read_exact(&mut buf).unwrap();
    assert_eq!(buf, [0x22, 0x33]);

    let ret = r.seek(SeekFrom::End(-23)).unwrap();
    assert_eq!(ret, 66);
    r.read_exact(&mut buf).unwrap();
    assert_eq!(buf, [0x33, 0x44]);

    let ret = r.seek(SeekFrom::End(0)).unwrap();
    assert_eq!(ret, 89);

    assert_eq!(r.read(&mut buf), 0);
    let ret = r.seek(SeekFrom::Start(12)).unwrap();
    assert_eq!(ret, 12);

    let mut buf = [0; 20];
    let n = r.read(&mut buf);
    assert_eq!(n, 20);
    assert_eq!(buf, [0x22; 20]);
}

#[test]
fn seek_to_a_negative_position_fails() {
    let sample = sample();
    let data = create_buffer(128, 0xFF, &sample);
    let fragments = create_fragments(&sample);
    let mut r = FragmentedReader::new(&data, &fragments);
    r.seek(SeekFrom::Start(5)).unwrap();
    assert_eq!(r.seek(SeekFrom::Current(-6)), Err(HpkError::InvalidInput));
    assert_eq!(r.position(), 5);
    assert_eq!(r.seek(SeekFrom::End(i64::MIN)), Err(HpkError::InvalidInput));
    assert_eq!(r.seek(SeekFrom::Current(-5)), Ok(0));
}

#[test]
fn split_reads_join_to_one_read() {
    let sample = sample();
    let data = create_buffer(128, 0xFF, &sample);
    let fragments = create_fragments(&sample);
    for p in [0u64, 5, 11, 12, 40, 66] {
        let mut whole = FragmentedReader::new(&data, &fragments);
        whole.seek(SeekFrom::Start(p)).unwrap();
        let mut one = vec![0; 20];
        whole.read_exact(&mut one).unwrap();

        let mut split = FragmentedReader::new(&data, &fragments);
        split.seek(SeekFrom::Start(p)).unwrap();
        let mut a = vec![0; 7];
        let mut b = vec![0; 13];
        split.read_exact(&mut a).unwrap();
        split.read_exact(&mut b).unwrap();
        a.extend_from_slice(&b);
        assert_eq!(a, one);
    }
}

#[test]
fn read_exact_past_the_end_fails() {
    let sample = sample();
    let data = create_buffer(128, 0xFF, &sample);
    let fragments = create_fragments(&sample);
    let mut r = FragmentedReader::new(&data, &fragments);
    r.seek(SeekFrom::Start(80)).unwrap();
    let mut buf = [0; 10];
    assert_eq!(r.read_exact(&mut buf), Err(HpkError::UnexpectedEof));
}

#[test]
fn empty_fragments_are_skipped() {
    let data: Vec<u8> = (0u8..32).collect();
    let fragments = vec![Fragment::new(4, 0), Fragment::new(8, 3), Fragment::new(0, 0), Fragment::new(20, 2)];
    let mut r = FragmentedReader::new(&data, &fragments);
    assert_eq!(r.len(), 5);
    let mut buf = [0; 5];
    r.read_exact(&mut buf).unwrap();
    assert_eq!(buf, [8, 9, 10, 20, 21]);
}

fn create_fragmented_file(data: &[u8]) -> FragmentedReader<'_> {
    let fragments = vec![
        Fragment::new(10, 12),
        Fragment::new(32, 20),
        Fragment::new(60, 35),
        Fragment::new(100, 22),
    ];
    FragmentedReader::new(data, &fragments)
}

#[test]
fn test_fragmented_file_read() {
    let data = create_buffer(128, 0xFF, &sample());
    let mut ff = create_fragmented_file(&data);

    assert_eq!(ff.len(), 89);

    let mut buf = vec![0; ff.len() as usize];

    let n = ff.read(&mut buf);
    assert_eq!(n, 12);
    let n = ff.read(&mut buf);
    assert_eq!(n, 20);
    let n = ff.read(&mut buf);
    assert_eq!(n, 35);
    let n = ff.read(&mut buf);
    assert_eq!(n, 22);

    // end of the fragmented file
    let n = ff.read(&mut buf);
    assert_eq!(n, 0);
}

#[test]
fn test_fragmented_file_read_exact() {
    let data = create_buffer(128, 0xFF, &sample());
    let mut ff = create_fragmented_file(&data);

    assert_eq!(ff.len(), 89);

    let mut buf = vec![0; ff.len() as usize];

    ff.read_exact(&mut buf).unwrap();

    // end of the fragmented file
    let n = ff.read(&mut buf);
    assert_eq!(n, 0);
}
