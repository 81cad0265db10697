use cf_qemu_post::log_parser::LogRecord;
use cf_qemu_post::trace_debug::{
    debug_file_name, is_trace_file, parse_kernel_line, process_single_cpu_trace_debug,
    read_kernel_log, records_of_cpu,
};

fn access(insn_count: u64, address: u64, store: u8, size: u8) -> LogRecord {
    LogRecord { insn_count, address, cpu: 2, store, size, _padding: [0; 5] }
}

#[test]
fn lines_of_three_words_announce_copies() {
    let mut id = 0;
    let r = parse_kernel_line("  2 0x1000\t9000 rest", &mut id).unwrap();
    assert_eq!((r.rec_id, r.cpu, r.size, r.src_address, r.dst_address), (0, 2, 4096, 0x1000, 0x9000));
    assert_eq!(
        r.debug_text(),
        "KernelRecord { cpu: 2, size: 4096, src: 0x0000000000001000, dst: 0x0000000000009000 }"
    );
    assert_eq!(id, 1);
    for line in ["", "   ", "# 2 0x1 0x2", "  #2 0x1 0x2", "2 0x1", "256 0x1 0x2", "2 0x1 zz", "2 zz 0x1"] {
        assert!(parse_kernel_line(line, &mut id).is_none(), "{}", line);
    }
    assert_eq!(id, 1);
}

#[test]
fn records_are_sorted_by_processor() {
    let lines: Vec<Option<String>> = vec![
        Some("1 0x1 0x2".to_string()),
        None,
        Some("# comment".to_string()),
        Some("2 0x3 0x4".to_string()),
        Some("1 0x5 0x6".to_string()),
    ];
    let mut id = 0;
    let records = read_kernel_log(&lines, &mut id);
    assert_eq!(records.len(), 3);
    assert_eq!(id, 3);
    let ones = records_of_cpu(&records, 1);
    assert_eq!(ones.iter().map(|r| (r.rec_id, r.src_address)).collect::<Vec<_>>(), vec![(0, 1), (2, 5)]);
    assert!(records_of_cpu(&records, 7).is_empty());
}

#[test]
fn a_copy_must_be_read_and_written_in_full() {
    let mut id = 0;
    let records = read_kernel_log(&vec![Some("2 0x1000 0x9000".to_string())], &mut id);
    // The page is written, but only half of it is read.
    let history =
        vec![access(1, 0x1000, 0, 11), access(2, 0x9000, 1, 12)];
    let r = process_single_cpu_trace_debug(&history, &records).unwrap();
    assert!(r.events.is_empty());
    assert_eq!(r.report, "");
    let history =
        vec![access(1, 0x1000, 0, 11), access(2, 0x9000, 1, 12), access(3, 0x1800, 0, 11)];
    let r = process_single_cpu_trace_debug(&history, &records).unwrap();
    assert_eq!((r.cpu, r.events.len(), r.total_loads, r.total_stores), (2, 1, 2, 1));
    let expected = "\
=============================================================
ROWCOPY DÉTECTÉ - ID Rec: 0 | CPU: 2 | Index trace: [0 -> 2]
Source (From): 0x0000000000001000 -> Destination (To): 0x0000000000009000
Nombre d'accès interceptés : 3
-------------------------------------------------------------
  [000] CPU: 2 | INSN: 1 | ADDR: 0x0000000000001000 | TYPE: LOAD | SIZE: 2^11
  [001] CPU: 2 | INSN: 2 | ADDR: 0x0000000000009000 | TYPE: STORE | SIZE: 2^12
  [002] CPU: 2 | INSN: 3 | ADDR: 0x0000000000001800 | TYPE: LOAD | SIZE: 2^11

";
    assert_eq!(r.report, expected);
}

#[test]
fn a_copy_starts_anew_until_it_writes() {
    let mut id = 0;
    let records = read_kernel_log(&vec![Some("2 0x1000 0x9000".to_string())], &mut id);
    let history = vec![
        access(1, 0x1000, 0, 11),
        access(2, 0x1000, 0, 12),
        access(3, 0x2000, 0, 3),
        access(4, 0x9000, 1, 12),
    ];
    let r = process_single_cpu_trace_debug(&history, &records).unwrap();
    assert_eq!(r.events.len(), 1);
    let e = &r.events[0];
    assert_eq!((e.rec_id, e.target_global_idx, e.end_global_idx), (0, 1, 3));
    assert_eq!(e.removed_accesses_count, 2);
    assert_eq!(e.records.iter().map(|a| a.insn_count).collect::<Vec<_>>(), vec![2, 4]);
}

#[test]
fn an_empty_trace_has_no_report() {
    assert!(process_single_cpu_trace_debug(&Vec::new(), &Vec::new()).is_none());
}

#[test]
fn files_have_names() {
    assert!(is_trace_file("log.txt.cpu0"));
    assert!(!is_trace_file("alog.txt"));
    assert_eq!(debug_file_name(12), "debug_cpu_12.log");
}

#[test]
fn loads_alone_complete_nothing() {
    let mut id = 0;
    let records = read_kernel_log(&vec![Some("2 0x1000 0x9000".to_string())], &mut id);
    let history = vec![access(1, 0x1000, 0, 12), access(2, 0x2000, 0, 3)];
    let r = process_single_cpu_trace_debug(&history, &records).unwrap();
    assert_eq!((r.events.len(), r.total_loads, r.total_stores), (0, 0, 0));
}
