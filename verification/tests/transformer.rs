use cf_qemu_post::log_parser::LogRecord;
use cf_qemu_post::memory_access::{MemRecord, MemoryAccess, RowcloneRecord};
use cf_qemu_post::transformer::{
    parse_binary_record, ramulator_mem_format, ramulator_rowclone_format, trace_file_name,
    Transformer,
};

fn mem(cpu: usize, insn_count: u64, address: u64, store: bool) -> MemoryAccess {
    MemoryAccess::Regular(MemRecord { cpu, insn_count, address, store })
}

fn row(cpu: usize, insn_count: u64) -> MemoryAccess {
    MemoryAccess::Rowclone(RowcloneRecord { cpu, insn_count, from: 0x1000, to: 0x9000 })
}

#[test]
fn loads_and_stores_have_a_line() {
    let r = MemRecord { cpu: 0, insn_count: 30, address: 0xabc, store: false };
    assert_eq!(ramulator_mem_format(&r, &10), "20 0x0000000000000abc");
    assert_eq!(ramulator_mem_format(&r, &31), "0 0x0000000000000abc");
    let w = MemRecord { store: true, ..r };
    assert_eq!(ramulator_mem_format(&w, &10), "20 -1 0x0000000000000abc");
    let c = RowcloneRecord { cpu: 0, insn_count: 30, from: 1, to: 2 };
    assert_eq!(ramulator_rowclone_format(&c, &25), "5 0x0000000000000001 0x0000000000000002");
    assert_eq!(
        ramulator_rowclone_format(&c, &31),
        "18446744073709551615 0x0000000000000001 0x0000000000000002"
    );
}

#[test]
fn each_processor_counts_for_itself() {
    let mut t = Transformer::new(2);
    assert_eq!(t.cpus(), 2);
    assert_eq!(t.next_line(&mem(0, 100, 1, false)), "0 0x0000000000000001");
    assert_eq!(t.next_line(&row(1, 7)), "0 0x0000000000001000 0x0000000000009000");
    assert_eq!(t.next_line(&row(0, 140)), "40 0x0000000000001000 0x0000000000009000");
    assert_eq!(t.next_line(&mem(1, 9, 2, true)), "2 -1 0x0000000000000002");
    assert_eq!(t.next_line(&mem(0, 130, 3, false)), "0 0x0000000000000003");
    assert_eq!(t.next_line(&mem(0, 131, 3, false)), "1 0x0000000000000003");
}

#[test]
fn instructions_between_entries_add_up() {
    let mut t = Transformer::new(1);
    let counts = [5u64, 5, 9, 30, 31];
    let sum: u64 = counts
        .iter()
        .map(|n| t.next_line(&mem(0, *n, 0, false)))
        .map(|l| l.split(' ').next().unwrap().parse::<u64>().unwrap())
        .sum();
    assert_eq!(sum, 31 - 5);
}

#[test]
fn binary_records_become_entries() {
    let a = LogRecord { insn_count: 4, address: 8, cpu: 3, store: 2, size: 0, _padding: [0; 5] };
    assert_eq!(parse_binary_record(&a), mem(3, 4, 8, false));
    assert_eq!(parse_binary_record(&LogRecord { store: 1, ..a }), mem(3, 4, 8, true));
    assert_eq!(trace_file_name("out", 11), "out/cpu_11.trace");
}

#[test]
fn lines_of_entries_are_read_back() {
    let store = mem(3, 77, 0xabc, true);
    assert_eq!(store.to_line(), "3 77 S 0x0000000000000abc");
    assert_eq!(mem(0, 5, 1, false).to_line(), "0 5 L 0x0000000000000001");
    assert_eq!(row(1, 9).to_line(), "1 9 R 0x0000000000001000 0x0000000000009000");
    for entry in [store, mem(usize::MAX, u64::MAX, u64::MAX, false), row(0, 0)] {
        assert_eq!(MemoryAccess::parse(&entry.to_line()), Some(entry));
    }
}

#[test]
fn other_lines_are_no_entries() {
    for line in [
        "",
        "1 2 L",
        "1 2 L 0x1 0x2",
        "1 2 R 0x1",
        "1 2 R 0x1 0x2 0x3",
        "1 2 X 0x1",
        "1 2 LL 0x1",
        "-1 2 L 0x1",
        "1 x L 0x1",
        "1 2 L 0xg",
        "1 2 R 0x1 0xg",
    ] {
        assert_eq!(MemoryAccess::parse(line), None, "{}", line);
    }
    assert_eq!(MemoryAccess::parse(" 1\t2  S 10 "), Some(mem(1, 2, 0x10, true)));
}
