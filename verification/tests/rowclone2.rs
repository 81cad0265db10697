use cf_qemu_post::copy_window::KernelLine;
use cf_qemu_post::kernel_log::kernel_log_pattern;
use cf_qemu_post::log_parser::LogRecord;
use cf_qemu_post::rowclone2::{
    add_rowclone_info, analyze_copies_only, check_potential_copy_start, parse_kernel_line,
    read_kernel_log, update_copy, KernelRecord, MemCpy,
};

fn access(insn_count: u64, address: u64, cpu: u8, store: u8, size: u8) -> LogRecord {
    LogRecord { insn_count, address, cpu, store, size, _padding: [0; 5] }
}

fn line(cpu: u8, op: &str, src: u64, dst: u64) -> Option<String> {
    Some(format!("cat-12 [{:03}] d..1 5.0: rowclone_{}: [RC] {:#x} {:#x}", cpu, op, src, dst))
}

fn announced(rec_id: u64) -> KernelRecord {
    KernelRecord {
        rec_id,
        command: "cat".to_string(),
        cpu: 0,
        size: 4096,
        operation: 'r',
        kernel_address: 0x1000,
        user_address: 0x9000,
        stale: 0,
    }
}

#[test]
fn the_command_of_a_line_is_kept() {
    let pattern = kernel_log_pattern().unwrap();
    let mut id = 0;
    let r = parse_kernel_line(&pattern, &line(1, "write", 0xa, 0xb).unwrap(), &mut id).unwrap();
    assert_eq!(r.command, "cat-12");
    assert_eq!((r.rec_id, r.cpu, r.operation, r.kernel_address, r.user_address), (0, 1, 'w', 0xb, 0xa));
    assert_eq!(id, 1);
    assert_eq!(
        r.debug_text(),
        "KernelRecord {command: cat-12, cpu: 1, size: 4096, op: w, kernel_address: 0x000000000000000b, user_address: 0x000000000000000a }"
    );
}

#[test]
fn a_copy_is_reported_with_its_accesses() {
    let pattern = kernel_log_pattern().unwrap();
    let lines = vec![line(0, "read", 0x1000, 0x9000)];
    // One load and one store of a whole page.
    let history = vec![
        access(3, 0x1000, 0, 0, 12),
        access(4, 0x7777, 0, 0, 3),
        access(5, 0x9000, 0, 1, 12),
    ];
    let (a, unmatched) = add_rowclone_info(&pattern, &history, &lines, true, &mut 0).unwrap();
    assert_eq!((a.events.len(), a.total_removed_accesses, a.uncompleted, unmatched), (1, 2, 0, 0));
    assert_eq!((a.events[0].target_global_idx, a.events[0].end_global_idx), (0, 2));
    let expected = "\
=============================================================
ROWCOPY DETECTE - ID Rec: 0 | CPU: 0
Source (From): 0x0000000000001000 -> Destination (To): 0x0000000000009000
Nombre d'accès intercepte: 2
-------------------------------------------------------------
  [0] CPU: 0 | INSN: 3 | ADDR: 0x0000000000001000 | TYPE: LOAD | SIZE: 2^12
  [1] CPU: 0 | INSN: 5 | ADDR: 0x0000000000009000 | TYPE: STORE | SIZE: 2^12
";
    assert_eq!(a.report.as_deref(), Some(expected));
    let (b, _) = add_rowclone_info(&pattern, &history, &lines, false, &mut 0).unwrap();
    assert_eq!(b.report, None);
    assert_eq!(b.total_removed_accesses, 2);
    assert!(add_rowclone_info(&pattern, &history, &vec![None], true, &mut 0).is_none());
}

#[test]
fn no_announcement_is_completed_twice() {
    let pattern = kernel_log_pattern().unwrap();
    let lines = vec![line(0, "read", 0x1000, 0x9000)];
    let mut history = Vec::new();
    for _ in 0..3 {
        history.push(access(3, 0x1000, 0, 0, 12));
        history.push(access(5, 0x9000, 0, 1, 12));
    }
    let (a, unmatched) = add_rowclone_info(&pattern, &history, &lines, true, &mut 0).unwrap();
    assert_eq!((a.events.len(), a.uncompleted, unmatched), (1, 0, 0));
}

#[test]
fn an_access_starts_all_its_copies() {
    let mut copies = Vec::new();
    let window = vec![announced(1), announced(2)];
    let load = access(50, 0x1000, 0, 0, 3);
    assert!(check_potential_copy_start(&load, &window, &mut copies, 7));
    assert_eq!(copies.iter().map(|c| c.rec_id).collect::<Vec<u64>>(), vec![1, 2]);
    let again = access(60, 0x1000, 0, 0, 3);
    assert!(check_potential_copy_start(&again, &window, &mut copies, 8));
    for c in &copies {
        assert_eq!(c.associated_indices, vec![7, 8]);
        assert_eq!(c.associated_records.len(), 2);
        assert_eq!((c.insn_count, c.first_insn_count, c.current_from), (60, 50, 0x1008));
    }
}

#[test]
fn a_copy_that_another_processor_takes_over_begins_there() {
    let mut copies = vec![MemCpy {
        rec_id: 1,
        cpu: 0,
        insn_count: 1,
        from: 0x1000,
        to: 0x9000,
        size: 4096,
        current_from: 0x1008,
        current_to: 0x9000,
        associated_indices: vec![0],
        associated_records: vec![access(1, 0x1000, 0, 0, 3)],
        first_insn_count: 1,
        first_global_idx: 0,
    }];
    assert!(!update_copy(&mut copies, 0, &access(9, 0x9000, 3, 1, 3), 4));
    assert_eq!((copies[0].cpu, copies[0].first_insn_count, copies[0].insn_count), (3, 9, 9));
    assert_eq!(copies[0].current_to, 0x9008);
}

#[test]
fn the_commands_of_a_log_are_kept() {
    let pattern = kernel_log_pattern().unwrap();
    let lines = vec![None, line(1, "write", 0xa, 0xb)];
    let (log, ids) = read_kernel_log(&pattern, &lines, 9);
    assert_eq!(ids, vec![9, 9, 10]);
    assert!(matches!(&log[0], KernelLine::Unreadable));
    match &log[1] {
        KernelLine::Record(r) => assert_eq!((r.command.as_str(), r.rec_id), ("cat-12", 9)),
        _ => panic!("no record"),
    }
}

#[test]
fn the_report_changes_nothing_else() {
    let history = vec![access(3, 0x1000, 0, 0, 12), access(5, 0x9000, 0, 1, 12)];
    let other = KernelRecord { command: "dd".to_string(), operation: 'w', ..announced(7) };
    for wanted in [true, false] {
        let mut window =
            vec![announced(1), KernelRecord { command: other.command.clone(), ..other }];
        let mut log = std::collections::VecDeque::new();
        let a = analyze_copies_only(&history, &mut log, &mut window, wanted);
        assert_eq!((a.events.len(), a.total_removed_accesses, a.uncompleted), (1, 2, 0));
        assert_eq!(a.report.is_some(), wanted);
        assert_eq!(window.len(), 1);
        assert_eq!((window[0].rec_id, window[0].operation), (7, 'w'));
        assert_eq!((window[0].kernel_address, window[0].user_address), (0x1000, 0x9000));
        assert_eq!(window[0].command, "dd");
    }
}

#[test]
fn an_analysis_without_stores_completes_nothing() {
    let history = vec![access(3, 0x1000, 0, 0, 12), access(4, 0x2000, 0, 0, 3)];
    let mut window = vec![announced(1)];
    let mut log = std::collections::VecDeque::new();
    log.push_back(KernelLine::Record(announced(2)));
    let a = analyze_copies_only(&history, &mut log, &mut window, true);
    assert_eq!((a.events.len(), a.total_removed_accesses, log.len()), (0, 0, 1));
    assert_eq!(a.report.as_deref(), Some(""));
    assert_eq!(window[0].debug_text(), announced(1).debug_text());
}

#[test]
fn the_report_shows_the_identity_given() {
    let pattern = kernel_log_pattern().unwrap();
    let lines = vec![line(0, "read", 0x1000, 0x9000)];
    let history = vec![access(3, 0x1000, 0, 0, 12), access(5, 0x9000, 0, 1, 12)];
    let mut id = 41;
    let (a, _) = add_rowclone_info(&pattern, &history, &lines, true, &mut id).unwrap();
    assert!(a.report.unwrap().contains("ID Rec: 41 |"));
    assert_eq!(id, 42);
}
