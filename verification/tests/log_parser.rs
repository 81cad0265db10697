use cf_qemu_post::log_parser::{access_size_bytes, LogParser, LogRecord};
use cf_qemu_post::memory_access::MemRecord;

fn bytes_of(insn_count: u64, address: u64, cpu: u8, store: u8, size: u8) -> Vec<u8> {
    let mut v = Vec::new();
    v.extend_from_slice(&insn_count.to_ne_bytes());
    v.extend_from_slice(&address.to_ne_bytes());
    v.extend_from_slice(&[cpu, store, size, 1, 2, 3, 4, 5]);
    v
}

#[test]
fn a_record_is_deserialized() {
    let bytes = bytes_of(0x0102_0304_0506_0708, 0xf0e0_d0c0_b0a0_9080, 7, 1, 3);
    let mut buffer = [0u8; LogRecord::SIZE];
    buffer.copy_from_slice(&bytes);
    let r = LogRecord::deserialize(&mut buffer);
    assert_eq!(r.insn_count, 0x0102_0304_0506_0708);
    assert_eq!(r.address, 0xf0e0_d0c0_b0a0_9080);
    assert_eq!((r.cpu, r.store, r.size), (7, 1, 3));
    assert_eq!(r._padding, [1, 2, 3, 4, 5]);
    assert_eq!(buffer.to_vec(), bytes);
    assert_eq!(
        r.debug_text(),
        "LogRecord { insn_count: 72623859790382856, cpu: 7, store: 1, size: 3, address: 0xf0e0d0c0b0a09080 }"
    );
    let m = MemRecord::of(&r);
    assert_eq!(
        m,
        MemRecord {
            cpu: 7,
            insn_count: 0x0102_0304_0506_0708,
            address: 0xf0e0_d0c0_b0a0_9080,
            store: true
        }
    );
}

#[test]
fn a_record_that_is_cut_off_is_dropped() {
    let mut parser = LogParser::new();
    assert!(parser.next().is_none());
    let mut stream = bytes_of(1, 2, 3, 0, 0);
    stream.extend_from_slice(&bytes_of(4, 5, 6, 1, 1)[..23]);
    parser.feed(&stream);
    assert_eq!(parser.next().map(|r| r.insn_count), Some(1));
    assert!(parser.next().is_none());
    assert!(parser.next().is_none());
}

#[test]
fn pieces_of_a_stream_make_no_difference() {
    let mut stream = Vec::new();
    for i in 0..10u64 {
        stream.extend_from_slice(&bytes_of(i, 100 + i, 1, 0, 3));
    }
    for cut in [1, 23, 24, 25, 47, 100] {
        let mut parser = LogParser::new();
        let mut records = Vec::new();
        for piece in stream.chunks(cut) {
            parser.feed(piece);
            parser.take_all(&mut records);
        }
        let found: Vec<(u64, u64)> = records.iter().map(|r| (r.insn_count, r.address)).collect();
        let expected: Vec<(u64, u64)> = (0..10).map(|i| (i, 100 + i)).collect();
        assert_eq!(found, expected);
    }
}

#[test]
fn sizes_are_powers_of_two() {
    assert_eq!(access_size_bytes(0), 1);
    assert_eq!(access_size_bytes(3), 8);
    assert_eq!(access_size_bytes(63), 1 << 63);
    assert_eq!(access_size_bytes(64), 1);
}
