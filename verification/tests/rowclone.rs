use cf_qemu_post::copy_window::KernelLine;
use cf_qemu_post::kernel_log::{kernel_log_pattern, parse_groups, ParsedCopy};
use cf_qemu_post::log_parser::LogRecord;
use cf_qemu_post::memory_access::{MemRecord, MemoryAccess, RowcloneRecord};
use cf_qemu_post::pattern::Pattern;
use cf_qemu_post::rowclone::{
    add_rowclone_info, check_potential_copy_start, copy_done, crop_bounds, mem_copy_match,
    match_copy_to_mem_accesses, parse_kernel_line, read_kernel_log, rowclone_record, track_active_copies, update_copy, KernelRecord, MemCpy,
    RowcloneEvent,
};
use std::collections::VecDeque;

fn access(insn_count: u64, address: u64, cpu: u8, store: u8, size: u8) -> LogRecord {
    LogRecord { insn_count, address, cpu, store, size, _padding: [0; 5] }
}

fn page_copy(insn_count: u64, cpu: u8, from: u64, to: u64) -> Vec<LogRecord> {
    let mut v = Vec::new();
    for i in 0..512u64 {
        v.push(access(insn_count + 2 * i, from + 8 * i, cpu, 0, 3));
        v.push(access(insn_count + 2 * i + 1, to + 8 * i, cpu, 1, 3));
    }
    v
}

fn line(cpu: u8, op: &str, src: u64, dst: u64) -> Option<String> {
    Some(format!("cat-12 [{:03}] d..1 5.0: rowclone_{}: [RC] {:#x} {:#x}", cpu, op, src, dst))
}

fn regular(a: &LogRecord) -> MemoryAccess {
    MemoryAccess::Regular(MemRecord {
        cpu: a.cpu as usize,
        insn_count: a.insn_count,
        address: a.address,
        store: a.store == 1,
    })
}

#[test]
fn kernel_lines_announce_copies() {
    let pattern = kernel_log_pattern().unwrap();
    let mut id = 5;
    let r = parse_kernel_line(&pattern, &line(3, "read", 0x1000, 0x2000).unwrap(), &mut id).unwrap();
    assert_eq!((r.rec_id, r.cpu, r.size, r.operation, r.stale), (5, 3, 4096, 'r', 0));
    assert_eq!((r.kernel_address, r.user_address), (0x1000, 0x2000));
    let w = parse_kernel_line(&pattern, &line(3, "write", 0x1000, 0x2000).unwrap(), &mut id).unwrap();
    assert_eq!((w.rec_id, w.operation), (6, 'w'));
    assert_eq!((w.kernel_address, w.user_address), (0x2000, 0x1000));
    assert_eq!(id, 7);
    assert_eq!(
        w.debug_text(),
        "KernelRecord {cpu: 3, size: 4096, op: w, kernel_address: 0x0000000000002000, user_address: 0x0000000000001000 }"
    );
}

#[test]
fn other_kernel_lines_announce_nothing() {
    let pattern = kernel_log_pattern().unwrap();
    let mut id = 0;
    assert!(parse_kernel_line(&pattern, "", &mut id).is_none());
    assert!(parse_kernel_line(&pattern, "cat [0] rowclone_copy: [RC] 0x1 0x2", &mut id).is_none());
    assert!(parse_kernel_line(&pattern, "cat [0] rowclone_read: [RC] 0x1", &mut id).is_none());
    assert!(parse_kernel_line(
        &pattern,
        "cat [0] rowclone_read: [RC] 0x1 0x11111111111111111",
        &mut id
    )
    .is_none());
    assert_eq!(id, 0);
}

#[test]
fn a_processor_out_of_range_uses_up_an_identity() {
    let pattern = kernel_log_pattern().unwrap();
    let mut id = 0;
    assert!(parse_kernel_line(&pattern, "cat [256] rowclone_read: [RC] 0x1 0x2", &mut id).is_none());
    assert_eq!(id, 1);
    let mut groups: Vec<String> = ["cat", "255", "write", "0xa", "0xb"].map(String::from).to_vec();
    assert_eq!(
        parse_groups(&groups, &mut id),
        Some(ParsedCopy {
            rec_id: 1,
            cpu: 255,
            operation: 'w',
            kernel_address: 0xb,
            user_address: 0xa
        })
    );
    groups[1] = "300".to_string();
    assert_eq!(parse_groups(&groups, &mut id), None);
    assert_eq!(id, 3);
    groups[4] = "0xg".to_string();
    assert_eq!(parse_groups(&groups, &mut id), None);
    assert_eq!(id, 3);
}

#[test]
fn patterns_have_a_fixed_number_of_groups() {
    assert!(Pattern::<1>::new("(").is_none());
    assert!(Pattern::<1>::new("(a)|b").is_none());
    assert!(Pattern::<1>::new("(a)(b)").is_none());
    let p = Pattern::<2>::new("(a+)-(b+)").unwrap();
    assert_eq!(p.groups("xaa-bbaaa-b"), Some(vec!["aa".to_string(), "bb".to_string()]));
    assert_eq!(p.groups("ab"), None);
}

#[test]
fn compiled_expressions_become_patterns() {
    assert!(Pattern::<1>::of_compiled(regex::Regex::new("(")).is_none());
    assert!(Pattern::<1>::of_compiled(regex::Regex::new("(a)|b")).is_none());
    assert!(Pattern::<2>::of_compiled(regex::Regex::new("(a)")).is_none());
    let p = Pattern::<1>::of_compiled(regex::Regex::new("b(a+)b")).unwrap();
    assert_eq!(p.groups("xbaab"), Some(vec!["aa".to_string()]));
}

#[test]
fn without_announcements_the_trace_stays_as_it_is() {
    let pattern = kernel_log_pattern().unwrap();
    let history = page_copy(10, 0, 0x1000, 0x9000);
    let lines = vec![Some("nothing".to_string())];
    let (outcome, unmatched) = add_rowclone_info(&pattern, &history, &lines, true, &mut 0).unwrap();
    assert_eq!((outcome.validated, outcome.uncompleted, unmatched), (0, 0, 0));
    assert_eq!(outcome.rowclone_output, history.iter().map(regular).collect::<Vec<_>>());
}

#[test]
fn completed_copies_stay_as_the_trace_goes_on() {
    let pattern = kernel_log_pattern().unwrap();
    let lines = vec![line(0, "read", 0x1000, 0x9000), line(0, "write", 0x3000, 0x7000)];
    let mut history = page_copy(10, 0, 0x1000, 0x9000);
    let (before, _) = add_rowclone_info(&pattern, &history, &lines, false, &mut 0).unwrap();
    assert_eq!((before.validated, before.rowclone_output.len()), (1, 1));
    history.extend(page_copy(5000, 0, 0x3000, 0x7000));
    let (after, _) = add_rowclone_info(&pattern, &history, &lines, false, &mut 0).unwrap();
    assert_eq!((after.validated, after.rowclone_output.len()), (2, 2));
    assert_eq!(after.rowclone_output[0], before.rowclone_output[0]);
    assert_eq!(
        after.rowclone_output[1],
        MemoryAccess::Rowclone(RowcloneRecord {
            cpu: 0,
            insn_count: 5000,
            from: 0x3000,
            to: 0x7000
        })
    );
}

#[test]
fn a_page_copy_becomes_a_row_copy() {
    let pattern = kernel_log_pattern().unwrap();
    let mut history = vec![access(1, 0x50, 0, 0, 3), access(2, 0x60, 1, 1, 3)];
    history.extend(page_copy(10, 0, 0x1000, 0x9000));
    history.push(access(5000, 0x70, 0, 0, 3));
    let lines = vec![Some("noise".to_string()), line(0, "read", 0x1000, 0x9000)];
    let (outcome, unmatched) = add_rowclone_info(&pattern, &history, &lines, false, &mut 0).unwrap();
    assert_eq!(outcome.validated, 1);
    assert_eq!(outcome.uncompleted, 0);
    assert_eq!(unmatched, 0);
    assert_eq!(outcome.bounds, (0, history.len()));
    assert_eq!(outcome.baseline_output.len(), history.len());
    assert_eq!(
        outcome.rowclone_output,
        vec![
            regular(&history[0]),
            regular(&history[1]),
            MemoryAccess::Rowclone(RowcloneRecord {
                cpu: 0,
                insn_count: 10,
                from: 0x1000,
                to: 0x9000
            }),
            regular(&history[1026]),
        ]
    );

    let (cropped, _) = add_rowclone_info(&pattern, &history, &lines, true, &mut 0).unwrap();
    assert_eq!(cropped.bounds, (2, 1025));
    assert_eq!(cropped.validated, 1);
    assert_eq!(cropped.baseline_output.len(), 1024);
    assert_eq!(cropped.rowclone_output, vec![outcome.rowclone_output[2]]);
}

#[test]
fn an_unfinished_copy_replaces_nothing() {
    let pattern = kernel_log_pattern().unwrap();
    let mut history = page_copy(10, 0, 0x1000, 0x9000);
    history.pop();
    let lines = vec![line(0, "write", 0x1000, 0x9000), line(1, "write", 0x5000, 0x6000)];
    let (outcome, unmatched) = add_rowclone_info(&pattern, &history, &lines, true, &mut 0).unwrap();
    assert_eq!((outcome.validated, outcome.uncompleted, unmatched), (0, 1, 2));
    assert_eq!(outcome.rowclone_output, history.iter().map(regular).collect::<Vec<_>>());
}

#[test]
fn a_copy_of_another_processor_is_not_seen() {
    let pattern = kernel_log_pattern().unwrap();
    let history = page_copy(10, 1, 0x1000, 0x9000);
    let lines = vec![line(0, "read", 0x1000, 0x9000)];
    let (outcome, unmatched) = add_rowclone_info(&pattern, &history, &lines, false, &mut 0).unwrap();
    assert_eq!((outcome.validated, outcome.uncompleted, unmatched), (0, 0, 1));
}

#[test]
fn an_access_starts_one_copy_at_a_time() {
    let pattern = kernel_log_pattern().unwrap();
    // Two copies from one page: the second load of the page start begins the second copy.
    let lines = vec![line(0, "read", 0x1000, 0x9000), line(0, "read", 0x1000, 0xb000)];
    let mut history = page_copy(10, 0, 0x1000, 0x9000);
    history.extend(page_copy(3000, 0, 0x1000, 0xb000));
    let (outcome, unmatched) = add_rowclone_info(&pattern, &history, &lines, false, &mut 0).unwrap();
    assert_eq!((outcome.validated, outcome.uncompleted, unmatched), (2, 0, 0));
    assert_eq!(outcome.rowclone_output.len(), 2);
}

#[test]
fn an_unreadable_line_in_the_first_window_is_refused() {
    let pattern = kernel_log_pattern().unwrap();
    let lines = vec![line(0, "read", 0x1000, 0x9000), None];
    assert!(add_rowclone_info(&pattern, &Vec::new(), &lines, false, &mut 0).is_none());
    let lines = vec![line(0, "read", 0x1000, 0x9000)];
    let (outcome, unmatched) = add_rowclone_info(&pattern, &Vec::new(), &lines, true, &mut 0).unwrap();
    assert_eq!((outcome.validated, outcome.uncompleted, unmatched), (0, 0, 1));
    assert!(outcome.rowclone_output.is_empty() && outcome.baseline_output.is_empty());
}

#[test]
fn identities_go_on_from_one_log_to_the_next() {
    let pattern = kernel_log_pattern().unwrap();
    let mut id = 7;
    let lines = vec![
        line(0, "read", 0x1000, 0x9000),
        Some("noise".to_string()),
        Some("cat [999] rowclone_read: [RC] 0x1 0x2".to_string()),
    ];
    assert!(add_rowclone_info(&pattern, &Vec::new(), &lines, false, &mut id).is_some());
    assert_eq!(id, 9);
    // A line that is not needed uses up nothing.
    let many: Vec<Option<String>> = (0..205).map(|i| line(0, "read", i << 12, i << 20)).collect();
    assert!(add_rowclone_info(&pattern, &Vec::new(), &many, false, &mut id).is_some());
    assert_eq!(id, 209);
    let history = page_copy(10, 0, 0x3000, 3 << 20);
    let (outcome, unmatched) =
        add_rowclone_info(&pattern, &history, &many, false, &mut id).unwrap();
    assert_eq!((outcome.validated, unmatched, id), (1, 200, 410));
    // Lines behind one that could not be read use up nothing.
    let broken = vec![line(0, "read", 1, 2), None, line(0, "read", 3, 4)];
    assert!(add_rowclone_info(&pattern, &history, &broken, false, &mut id).is_none());
    assert_eq!(id, 411);
}

#[test]
fn a_kernel_log_is_read_line_by_line() {
    let pattern = kernel_log_pattern().unwrap();
    let lines = vec![line(3, "write", 0xa, 0xb), None, Some("noise".to_string())];
    let (log, ids) = read_kernel_log(&pattern, &lines, 4);
    assert_eq!(ids, vec![4, 5, 5, 5]);
    assert_eq!(log.len(), 3);
    match &log[0] {
        KernelLine::Record(r) => {
            assert_eq!((r.rec_id, r.cpu, r.operation), (4, 3, 'w'));
            assert_eq!((r.kernel_address, r.user_address), (0xb, 0xa));
        }
        _ => panic!("no record"),
    }
    assert!(matches!(&log[1], KernelLine::Unreadable));
    assert!(matches!(&log[2], KernelLine::NotParsed));
}

#[test]
fn without_stores_nothing_is_completed() {
    let mut history = page_copy(10, 2, 0x1000, 0x9000);
    history.retain(|a| a.store == 0);
    let mut window = vec![announced('r')];
    let mut log = VecDeque::new();
    log.push_back(KernelLine::NotParsed);
    let outcome = match_copy_to_mem_accesses(&history, &mut log, &mut window, true);
    assert_eq!((outcome.validated, outcome.uncompleted, log.len()), (0, 1, 1));
    assert_eq!(window[0].debug_text(), announced('r').debug_text());
}

#[test]
fn the_window_is_refilled_as_copies_complete() {
    let pattern = kernel_log_pattern().unwrap();
    let mut lines = Vec::new();
    let mut history = Vec::new();
    for i in 0..250u64 {
        let (from, to) = (0x10_0000 + 0x1000 * i, 0x80_0000 + 0x1000 * i);
        lines.push(line(0, "read", from, to));
        history.extend(page_copy(10_000 * i, 0, from, to));
    }
    let (outcome, unmatched) = add_rowclone_info(&pattern, &history, &lines, false, &mut 0).unwrap();
    assert_eq!((outcome.validated, outcome.uncompleted, unmatched), (250, 0, 0));
    assert_eq!(outcome.rowclone_output.len(), 250);
}

fn started() -> MemCpy {
    MemCpy {
        rec_id: 4,
        cpu: 2,
        from: 0x1000,
        to: 0x9000,
        size: 4096,
        current_from: 0x1008,
        current_to: 0x9000,
        associated_indices: vec![0],
        first_insn_count: 77,
        first_global_idx: 0,
    }
}

fn announced(operation: char) -> KernelRecord {
    KernelRecord {
        rec_id: 4,
        cpu: 2,
        size: 4096,
        operation,
        kernel_address: 0x1000,
        user_address: 0x9000,
        stale: 0,
    }
}

#[test]
fn the_next_load_or_store_continues_a_copy() {
    let c = started();
    assert!(mem_copy_match(&access(0, 0x1008, 2, 0, 3), &c));
    assert!(mem_copy_match(&access(0, 0x9000, 2, 1, 3), &c));
    assert!(!mem_copy_match(&access(0, 0x1008, 2, 1, 3), &c));
    assert!(!mem_copy_match(&access(0, 0x1008, 1, 0, 3), &c));
    assert!(!mem_copy_match(&access(0, 0x9000, 2, 2, 3), &c));
    assert!(!copy_done(&c));
    assert!(copy_done(&MemCpy { current_to: 0xa000, ..started() }));
}

#[test]
fn a_copy_is_advanced() {
    let mut copies = vec![started()];
    assert!(!update_copy(&mut copies, 0, &access(0, 0x1008, 2, 0, 2), 9));
    assert_eq!((copies[0].current_from, copies[0].current_to), (0x100c, 0x9000));
    assert_eq!(copies[0].associated_indices, vec![0, 9]);
    copies[0].current_to = 0x9ff8;
    assert!(update_copy(&mut copies, 0, &access(0, 0x9ff8, 2, 1, 3), 10));
    assert_eq!(copies[0].current_to, 0xa000);
}

#[test]
fn a_completed_copy_is_recorded() {
    let mut active = vec![MemCpy { current_to: 0x9ff8, ..started() }];
    let mut valid = vec![false; 4];
    let mut events = Vec::new();
    let mut window = vec![announced('r')];
    let mut log = VecDeque::new();
    assert!(track_active_copies(
        &access(90, 0x9ff8, 2, 1, 3),
        &mut active,
        3,
        &mut valid,
        &mut events,
        &mut window,
        &mut log
    ));
    assert!(active.is_empty() && window.is_empty());
    assert_eq!(valid, vec![true, false, false, true]);
    assert_eq!(events.len(), 1);
    assert_eq!((events[0].target_global_idx, events[0].end_global_idx), (0, 3));
    assert_eq!(
        rowclone_record(&events[0]),
        RowcloneRecord { cpu: 2, insn_count: 77, from: 0x1000, to: 0x9000 }
    );
    assert!(!track_active_copies(
        &access(90, 0x9ff8, 2, 1, 3),
        &mut active,
        3,
        &mut valid,
        &mut events,
        &mut window,
        &mut log
    ));
}

#[test]
fn a_repeated_start_belongs_to_the_copy() {
    let mut copies = Vec::new();
    let window = vec![announced('r'), announced('x')];
    let load = access(50, 0x1000, 2, 0, 3);
    assert!(check_potential_copy_start(&load, &window, &mut copies, 7));
    assert_eq!(copies.len(), 1);
    assert_eq!((copies[0].current_from, copies[0].current_to), (0x1008, 0x9000));
    assert!(check_potential_copy_start(&load, &window, &mut copies, 8));
    assert_eq!(copies[0].associated_indices, vec![7, 8]);
    assert_eq!(copies[0].first_global_idx, 7);
    copies[0].current_to = 0x9008;
    assert!(!check_potential_copy_start(&load, &window, &mut copies, 9));
    assert_eq!(copies[0].associated_indices, vec![7, 8]);
    let store = access(50, 0x1000, 2, 1, 3);
    assert!(!check_potential_copy_start(&store, &window, &mut copies, 9));
    assert!(!check_potential_copy_start(&load, &vec![announced('x')], &mut Vec::new(), 9));
    let mut written = Vec::new();
    assert!(check_potential_copy_start(
        &access(50, 0x9000, 2, 0, 3),
        &vec![announced('w')],
        &mut written,
        1
    ));
    assert_eq!((written[0].from, written[0].to), (0x9000, 0x1000));
}

#[test]
fn the_bounds_take_in_all_completed_copies() {
    let event = |a: usize, b: usize| RowcloneEvent {
        target_global_idx: a,
        end_global_idx: b,
        cpu: 0,
        insn_count: 0,
        from: 0,
        to: 0,
    };
    let events = vec![event(5, 9), event(2, 7), event(6, 30)];
    assert_eq!(crop_bounds(&events, 100, true), (2, 30));
    assert_eq!(crop_bounds(&events, 100, false), (0, 100));
    assert_eq!(crop_bounds(&Vec::new(), 100, true), (0, 100));
}
