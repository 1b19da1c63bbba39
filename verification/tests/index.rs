use proglog::config::Config;
use proglog::error::ErrorKind;
use proglog::index::Index;

#[test]
fn test_index() {
    let mut config = Config::default();
    config.max_index_bytes = 1024;
    let path = String::from("index_test");

    let mut idx = Index::new(Vec::new(), config, path.clone()).unwrap();
    let err = idx.read(-1);
    assert_eq!(path, idx.get_path());
    assert_eq!(err, Err(ErrorKind::EndOfData));
    let entries: Vec<(u32, u64)> = vec![(0, 0), (1, 10)];
    for want in entries.iter() {
        idx.write(want.0, want.1).unwrap();
        let (_, pos) = idx.read(want.0 as i64).unwrap();
        assert_eq!(want.1, pos);
    }
    let err = idx.read(entries.len() as i64);
    assert_eq!(err, Err(ErrorKind::EndOfData));
    let persisted = idx.close();
    assert_eq!(persisted.len(), entries.len() * 12);

    let idx = Index::new(persisted, config, path.clone()).unwrap();
    let (offset, pos) = idx.read(-1).unwrap();
    assert_eq!(offset, entries[1].0);
    assert_eq!(pos, entries[1].1);
}

#[test]
fn test_index_write_until_full() {
    let mut config = Config::default();
    config.max_index_bytes = 36;
    let mut idx = Index::new(Vec::new(), config, String::new()).unwrap();
    for i in 0..3u32 {
        idx.write(i, (i as u64) * 20).unwrap();
    }
    assert_eq!(idx.write(3, 60), Err(ErrorKind::EndOfData));
    assert_eq!(idx.size(), 36);
    for i in 0..3u32 {
        let (off, pos) = idx.read(i as i64).unwrap();
        assert_eq!(off, i);
        assert_eq!(pos, (i as u64) * 20);
    }
}
