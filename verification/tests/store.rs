use proglog::store::Store;

const DUMMY_MSG: &[u8] = b"hello world";
const WIDTH: u64 = DUMMY_MSG.len() as u64 + 8;

fn test_append(s: &mut Store) {
    for i in 1..4u64 {
        let (n, pos) = s.append(DUMMY_MSG).unwrap();
        assert_eq!(pos + n, WIDTH * i);
    }
}

fn test_read(s: &mut Store) {
    let mut pos: u64 = 0;
    for _ in 1..4u64 {
        let read = s.read_at_offset(pos).unwrap();
        assert_eq!(DUMMY_MSG, read.as_slice());
        pos += WIDTH;
    }
}

fn test_read_at(s: &mut Store) {
    let mut offset: u64 = 0;
    for _ in 1..4u64 {
        let buf = s.read_at(8, offset);
        let nbytes = buf.len() as u64;
        assert_eq!(8, nbytes);

        offset += nbytes;
        let size = u64::from_be_bytes(buf.as_slice().try_into().unwrap()) as usize;
        let buf = s.read_at(size, offset);
        let nbytes = buf.len();
        assert_eq!(DUMMY_MSG, buf.as_slice());
        assert_eq!(size, nbytes);
        offset += nbytes as u64;
    }
}

#[test]
fn test_store_append_read() {
    let mut s = Store::new(Vec::new());
    test_append(&mut s);
    test_read(&mut s);
    test_read_at(&mut s);

    let mut s = Store::new(s.close());
    test_read(&mut s);
}

#[test]
fn test_store_close() {
    let mut s = Store::new(Vec::new());
    let before_size: u64 = 0;
    s.append(DUMMY_MSG).unwrap();

    let persisted = s.close();

    let after_size = persisted.len() as u64;
    println!("after: {:?}, before: {:?}", after_size, before_size);
    assert!(after_size > before_size);
}

#[test]
fn test_store_streaming_read() {
    let mut s = Store::new(Vec::new());
    s.append(DUMMY_MSG).unwrap();
    let first = s.read(8);
    assert_eq!(first.len(), 8);
    assert_eq!(u64::from_be_bytes(first.as_slice().try_into().unwrap()), DUMMY_MSG.len() as u64);
    let rest = s.read(1024);
    assert_eq!(rest.as_slice(), DUMMY_MSG);
    let done = s.read(1024);
    assert!(done.is_empty());
}

#[test]
fn test_store_read_past_end() {
    let s = Store::new(Vec::new());
    assert!(s.read_at_offset(0).is_err());
    let empty = s.read_at(4, 100);
    assert!(empty.is_empty());
}
