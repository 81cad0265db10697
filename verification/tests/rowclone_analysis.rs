use cf_qemu_post::rowclone_analysis::{
    address_in_same_subarray, count_copies, filter_non_rowclone, kernel_log_pattern, parse_groups,
    parse_kernel_line, KernelRecord, Stats,
};

const NONE: Stats = Stats { total: 0, not4kb: 0, notaligned: 0, not_same_subarray: 0, rowclone: 0 };

fn copy(size: u64, kernel_address: u64, user_address: u64) -> KernelRecord {
    KernelRecord { size, operation: 'r', kernel_address, user_address }
}

#[test]
fn subarrays_are_seven_bits_of_an_address() {
    assert!(address_in_same_subarray(0, 0x1f_ffff));
    assert!(!address_in_same_subarray(0, 0x20_0000));
    assert!(address_in_same_subarray(0x20_0000, 0x1020_0000));
    assert!(!address_in_same_subarray(0x0fe0_0000, 0));
    assert!(address_in_same_subarray(u64::MAX, 0x0fe0_0000));
}

#[test]
fn copies_are_counted_by_kind() {
    let mut s = NONE;
    filter_non_rowclone(copy(100, 0, 1), &mut s);
    assert_eq!(s, Stats { total: 1, not4kb: 1, ..NONE });
    filter_non_rowclone(copy(4096, 0, 1), &mut s);
    assert_eq!(s, Stats { total: 2, not4kb: 1, notaligned: 1, ..NONE });
    filter_non_rowclone(copy(4096, 0, 0x20_0000), &mut s);
    assert_eq!(s, Stats { total: 3, not4kb: 1, notaligned: 1, not_same_subarray: 1, ..NONE });
    filter_non_rowclone(copy(4096, 1, 0x1000), &mut s);
    assert_eq!(s, Stats { total: 4, not4kb: 1, notaligned: 1, not_same_subarray: 1, rowclone: 1 });
}

#[test]
fn lines_tell_of_copies() {
    let pattern = kernel_log_pattern().unwrap();
    let line = "x N=cat,w,17,4096,0x1,0x2000,0x3,0x4000 y";
    assert_eq!(
        parse_kernel_line(&pattern, line),
        Some(KernelRecord {
            size: 4096,
            operation: 'w',
            kernel_address: 0x2000,
            user_address: 0x4000
        })
    );
    assert_eq!(parse_kernel_line(&pattern, "N=cat,x,17,4096,0x1,0x2,0x3,0x4"), None);
    assert_eq!(
        parse_kernel_line(&pattern, "N=cat,r,17,99999999999999999999,0x1,0x2,0x3,0x4"),
        None
    );
}

#[test]
fn groups_of_a_copy_are_read() {
    let groups = |a: [&str; 8]| a.map(String::from).to_vec();
    let good = ["cat", "rw", "1", "7", "0x1", "0x2", "0x3", "0x4"];
    assert_eq!(
        parse_groups(&groups(good)),
        Some(KernelRecord { size: 7, operation: 'r', kernel_address: 2, user_address: 4 })
    );
    for (i, bad) in [(1, ""), (3, "x"), (5, "0x"), (7, "0xg")] {
        let mut g = good;
        g[i] = bad;
        assert_eq!(parse_groups(&groups(g)), None);
    }
}

#[test]
fn all_kinds_add_up() {
    let pattern = kernel_log_pattern().unwrap();
    let lines: Vec<String> = [
        "N=a,r,0,4096,0x0,0x1000,0x0,0x2000",
        "nothing",
        "N=a,r,0,64,0x0,0x1000,0x0,0x2000",
        "N=a,w,0,4096,0x0,0x1000,0x0,0x2001",
        "N=a,w,0,4096,0x0,0x1000,0x0,0x200000",
    ]
    .map(String::from)
    .to_vec();
    let s = count_copies(&pattern, &lines);
    assert_eq!(s, Stats { total: 4, not4kb: 1, notaligned: 1, not_same_subarray: 1, rowclone: 1 });
    assert_eq!(s.total, s.not4kb + s.notaligned + s.not_same_subarray + s.rowclone);
}
