use proglog::config::Config;
use proglog::error::ErrorKind;
use proglog::record::Record;
use proglog::segment::Segment;

#[test]
fn test_segment() {
    let want = Record { value: b"hello world".to_vec(), offset: 0 };

    let mut c = Config::default();
    c.max_store_bytes = 1024;
    c.max_index_bytes = 12 * 3;

    let mut s = Segment::new(Vec::new(), Vec::new(), 16, c).unwrap();
    assert_eq!(16u64, s.next_offset);
    assert!(!s.is_maxed());

    for i in 0u64..3 {
        let offset = s.append(want.clone()).unwrap().unwrap();
        assert_eq!(16 + i, offset);
        let got = s.read_at_offset(offset).unwrap().unwrap();
        assert_eq!(want.value, got.value);
    }

    let err = s.append(want.clone());
    assert_eq!(err, Err(ErrorKind::EndOfData));

    // maxed index
    assert!(s.is_maxed());

    let (store_bytes, index_bytes) = s.close().unwrap();
    c.max_store_bytes = want.value.len() as u64 * 3;
    c.max_index_bytes = 1024;

    let mut s = Segment::new(store_bytes, index_bytes, 16, c).unwrap();
    // maxed store
    assert!(s.is_maxed());

    s.remove().unwrap();

    let s = Segment::new(Vec::new(), Vec::new(), 16, c).unwrap();
    assert!(!s.is_maxed());
}

#[test]
fn test_segment_reopen_reads_back() {
    let mut c = Config::default();
    c.max_store_bytes = 1024;
    c.max_index_bytes = 1024;

    let mut s = Segment::new(Vec::new(), Vec::new(), 5, c).unwrap();
    let a = Record { value: b"first".to_vec(), offset: 0 };
    let b = Record { value: b"second".to_vec(), offset: 0 };
    assert_eq!(5, s.append(a.clone()).unwrap().unwrap());
    assert_eq!(6, s.append(b.clone()).unwrap().unwrap());
    let (store_bytes, index_bytes) = s.close().unwrap();
    assert_eq!(index_bytes.len(), 2 * 12);

    let mut s = Segment::new(store_bytes, index_bytes, 5, c).unwrap();
    assert_eq!(s.next_offset, 7);
    let got = s.read_at_offset(5).unwrap().unwrap();
    assert_eq!(got.value, a.value);
    assert_eq!(got.offset, 5);
    let got = s.read_at_offset(6).unwrap().unwrap();
    assert_eq!(got.value, b.value);
    assert_eq!(got.offset, 6);
    assert_eq!(s.read_at_offset(7), Err(ErrorKind::EndOfData));
}

#[test]
fn test_segment_closed_behaves_empty() {
    let c = Config { max_store_bytes: 1024, max_index_bytes: 1024, initial_offset: 0 };
    let mut s = Segment::new(Vec::new(), Vec::new(), 0, c).unwrap();
    s.append(Record { value: b"x".to_vec(), offset: 0 }).unwrap().unwrap();
    assert!(s.close().is_some());
    assert!(s.close().is_none());
    assert_eq!(s.append(Record { value: b"y".to_vec(), offset: 0 }), Ok(None));
    assert_eq!(s.read_at_offset(0), Ok(None));
    assert!(!s.is_maxed());
}
