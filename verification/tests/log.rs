use proglog::config::Config;
use proglog::error::ErrorKind;
use proglog::log::Log;
use proglog::record::Record;

fn new_log() -> Log {
    let mut c = Config::default();
    c.max_store_bytes = 32;
    Log::new(Vec::new(), c).unwrap()
}

#[test]
fn test_log() {
    let tests: Vec<(&str, fn(Log))> = vec![
        ("append and read a record succeeds", test_append_read),
        ("offset out of range error", test_out_of_range_err),
        ("init with existing segments", test_init_existing),
        ("reader", test_reader),
        ("truncate", test_truncate),
    ];

    for (scen, func) in tests {
        println!("Running: {}", scen);
        func(new_log());
    }
}

fn test_append_read(mut log: Log) {
    let append = Record { value: b"hello world".to_vec(), offset: 0 };
    let offset = log.append(append.clone()).unwrap().unwrap();
    assert_eq!(0u64, offset);
    let read = log.read_at_offset(offset).unwrap().unwrap();
    assert_eq!(append.value, read.value);
}

fn test_out_of_range_err(mut log: Log) {
    let read = log.read_at_offset(1);
    assert!(read.is_err());
    assert_eq!(read, Err(ErrorKind::OffsetOutOfRange));
}

fn test_init_existing(mut log: Log) {
    let append = Record { value: b"hello world".to_vec(), offset: 0 };

    for _ in 0..3 {
        log.append(append.clone()).unwrap().unwrap();
    }
    // the 32-byte store cap forces a rollover during this run
    assert!(log.segments.len() > 1);

    let files = log.close().unwrap();
    let offset = log.lowest_offset().unwrap();
    assert_eq!(0u64, offset);
    let offset = log.highest_offset().unwrap();
    assert_eq!(2u64, offset);

    let log = Log::new(files, log.config).unwrap();
    let offset = log.lowest_offset().unwrap();
    assert_eq!(0u64, offset);
    let offset = log.highest_offset().unwrap();
    assert_eq!(2u64, offset);
}

fn test_reader(mut log: Log) {
    let append = Record { value: b"hello world".to_vec(), offset: 0 };

    let offset = log.append(append.clone()).unwrap();
    assert_eq!(0u64, offset.unwrap());

    let mut buf: Vec<u8> = Vec::new();
    loop {
        let chunk = log.read(1024).unwrap();
        if chunk.is_empty() {
            break;
        }
        buf.extend_from_slice(&chunk);
    }
    let start = 8usize;
    let end = start + append.value.len() + 8;
    let read = proglog::record::decode_record(&buf[start..end].to_vec()).unwrap();
    assert_eq!(append.value, read.value);
}

fn test_truncate(mut log: Log) {
    let append = Record { value: b"hello world".to_vec(), offset: 0 };

    for _ in 0..3u64 {
        log.append(append.clone()).unwrap().unwrap();
    }

    log.truncate(1).unwrap();

    assert!(log.read_at_offset(0).is_err());
    // records past the truncation point in surviving segments remain
    let read = log.read_at_offset(2).unwrap().unwrap();
    assert_eq!(append.value, read.value);
}
