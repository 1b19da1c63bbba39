use proglog::config::Config;
use proglog::endian::{u32_to_be, u64_from_be, u64_to_be};
use proglog::error::ErrorKind;
use proglog::log::Log;
use proglog::record::{decode_record, encode_record, Record};
use proglog::setup::{parse_base_offset, plan_setup};

fn rec(value: &[u8]) -> Record {
    Record { value: value.to_vec(), offset: 0 }
}

#[test]
fn test_append_assigns_highest() {
    let mut c = Config::default();
    c.max_store_bytes = 32;
    let mut log = Log::new(Vec::new(), c).unwrap();
    for want in 0..5u64 {
        let got = log.append(rec(b"payload")).unwrap().unwrap();
        assert_eq!(got, want);
        assert_eq!(log.highest_offset().unwrap(), got);
    }
    assert_eq!(log.lowest_offset().unwrap(), 0);
}

#[test]
fn test_empty_log_out_of_range() {
    let log_err = {
        let log = Log::new(Vec::new(), Config::default()).unwrap();
        log.read_at_offset(1)
    };
    assert_eq!(log_err, Err(ErrorKind::OffsetOutOfRange));
}

#[test]
fn test_rollover_new_segment_base() {
    let mut c = Config::default();
    c.max_index_bytes = 36;
    c.max_store_bytes = 1024;
    c.initial_offset = 16;
    let mut log = Log::new(Vec::new(), c).unwrap();
    for want in 16..19u64 {
        assert_eq!(log.append(rec(b"hello world")).unwrap().unwrap(), want);
    }
    // the third append filled the 3-entry index: a fresh segment is active
    assert_eq!(log.segments.len(), 2);
    assert_eq!(log.segments[1].base_offset, 19);
    assert_eq!(log.segments[1].next_offset, 19);
    assert_eq!(log.append(rec(b"hello world")).unwrap().unwrap(), 19);
}

#[test]
fn test_truncate_all_corrupts_bounds() {
    let mut log = Log::new(Vec::new(), Config::default()).unwrap();
    log.append(rec(b"a")).unwrap().unwrap();
    let removed = log.truncate(u64::MAX).unwrap();
    assert_eq!(removed, vec![0u64]);
    assert_eq!(log.lowest_offset(), Err(ErrorKind::CorruptLog));
    assert_eq!(log.highest_offset(), Err(ErrorKind::CorruptLog));
}

#[test]
fn test_reset_restores_initial() {
    let mut c = Config::default();
    c.initial_offset = 7;
    let mut log = Log::new(Vec::new(), c).unwrap();
    log.append(rec(b"abc")).unwrap().unwrap();
    log.reset().unwrap();
    assert_eq!(log.lowest_offset().unwrap(), 7);
    assert_eq!(log.highest_offset().unwrap(), 6);
    assert_eq!(log.append(rec(b"abc")).unwrap().unwrap(), 7);
}

#[test]
fn test_streaming_across_segments() {
    let mut c = Config::default();
    c.max_store_bytes = 16;
    let mut log = Log::new(Vec::new(), c).unwrap();
    log.append(rec(b"one")).unwrap().unwrap();
    log.append(rec(b"two")).unwrap().unwrap();
    assert_eq!(log.segments.len(), 3);
    let mut buf: Vec<u8> = Vec::new();
    loop {
        let chunk = log.read(1024).unwrap();
        if chunk.is_empty() {
            break;
        }
        buf.extend_from_slice(&chunk);
    }
    // two frames: 8-byte length prefix + (8-byte offset + value) each
    assert_eq!(buf.len(), 2 * (8 + 8 + 3));
    let first = decode_record(&buf[8..19].to_vec()).unwrap();
    assert_eq!(first.value, b"one".to_vec());
    assert_eq!(first.offset, 0);
    let second = decode_record(&buf[27..].to_vec()).unwrap();
    assert_eq!(second.value, b"two".to_vec());
    assert_eq!(second.offset, 1);
}

#[test]
fn test_config_normalisation() {
    let log = Log::new(Vec::new(), Config::default()).unwrap();
    assert_eq!(log.config.max_store_bytes, 1024);
    assert_eq!(log.config.max_index_bytes, 1024);
    assert_eq!(log.config.initial_offset, 0);
}

#[test]
fn test_endian_exact_values() {
    assert_eq!(
        u64_to_be(0x0102030405060708),
        vec![1u8, 2, 3, 4, 5, 6, 7, 8]
    );
    assert_eq!(u32_to_be(0xdeadbeef), vec![0xdeu8, 0xad, 0xbe, 0xef]);
    let bytes = vec![0u8, 0, 0, 0, 0, 0, 0, 42];
    assert_eq!(u64_from_be(&bytes, 0), 42);
}

#[test]
fn test_record_codec() {
    let r = Record { value: b"ab".to_vec(), offset: 5 };
    let enc = encode_record(&r);
    assert_eq!(enc, vec![0u8, 0, 0, 0, 0, 0, 0, 5, b'a', b'b']);
    let dec = decode_record(&enc).unwrap();
    assert_eq!(dec.offset, 5);
    assert_eq!(dec.value, b"ab".to_vec());
    assert_eq!(decode_record(&vec![1u8, 2, 3]), Err(ErrorKind::DecodeError));
}

#[test]
fn test_parse_base_offset() {
    assert_eq!(parse_base_offset("16"), Ok(16));
    assert_eq!(parse_base_offset("0"), Ok(0));
    assert_eq!(parse_base_offset("18446744073709551615"), Ok(u64::MAX));
    assert_eq!(parse_base_offset(""), Err(ErrorKind::ParseError));
    assert_eq!(parse_base_offset("12a"), Err(ErrorKind::ParseError));
    assert_eq!(parse_base_offset("segment"), Err(ErrorKind::ParseError));
    assert_eq!(
        parse_base_offset("18446744073709551616"),
        Err(ErrorKind::ParseError)
    );
}

#[test]
fn test_plan_setup_pairs() {
    let stems = vec![
        String::from("16"),
        String::from("0"),
        String::from("0"),
        String::from("16"),
    ];
    assert_eq!(plan_setup(&stems).unwrap(), vec![0u64, 16]);
    let bad = vec![String::from("0"), String::from("oops")];
    assert_eq!(plan_setup(&bad), Err(ErrorKind::ParseError));
    let empty: Vec<String> = Vec::new();
    assert_eq!(plan_setup(&empty).unwrap(), Vec::<u64>::new());
}

#[test]
fn test_server_log() {
    let mut log = proglog::server::Log::new();
    let r = Record { value: b"hi".to_vec(), offset: 99 };
    assert_eq!(log.append(r.clone()).unwrap(), 0);
    assert_eq!(log.append(r.clone()).unwrap(), 1);
    let got = log.read(0).unwrap();
    assert_eq!(got.value, b"hi".to_vec());
    assert_eq!(got.offset, 0);
    let err = log.read(5);
    assert!(matches!(err, Err(proglog::server::LogError::ErrOffsetNotFound)));
}

#[test]
fn test_many_appends_round_trip() {
    let mut c = Config::default();
    c.max_store_bytes = 40;
    let mut log = Log::new(Vec::new(), c).unwrap();
    let values: Vec<Vec<u8>> = (0..10u8).map(|i| vec![i; (i as usize) + 1]).collect();
    for (i, v) in values.iter().enumerate() {
        let off = log.append(Record { value: v.clone(), offset: 0 }).unwrap().unwrap();
        assert_eq!(off, i as u64);
    }
    assert!(log.segments.len() > 2);
    for (i, v) in values.iter().enumerate() {
        let got = log.read_at_offset(i as u64).unwrap().unwrap();
        assert_eq!(&got.value, v);
        assert_eq!(got.offset, i as u64);
    }
}

#[test]
fn test_reopen_reads_records_back() {
    let mut c = Config::default();
    c.max_store_bytes = 32;
    let mut log = Log::new(Vec::new(), c).unwrap();
    for v in [b"alpha".to_vec(), b"beta".to_vec(), b"gamma".to_vec()] {
        log.append(Record { value: v, offset: 0 }).unwrap().unwrap();
    }
    let files = log.close().unwrap();
    let log = Log::new(files, log.config).unwrap();
    assert_eq!(log.read_at_offset(0).unwrap().unwrap().value, b"alpha".to_vec());
    assert_eq!(log.read_at_offset(1).unwrap().unwrap().value, b"beta".to_vec());
    assert_eq!(log.read_at_offset(2).unwrap().unwrap().value, b"gamma".to_vec());
    assert_eq!(log.read_at_offset(3), Err(ErrorKind::OffsetOutOfRange));
}
