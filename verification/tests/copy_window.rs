use cf_qemu_post::copy_window::{
    fill_window, first_window, next_kernel_line, remove_record, remove_stale_copies, update_stale,
    Announcement, KernelLine, COPY_WINDOW, COPY_WINDOW_STALE_THRESHOLD,
};
use std::collections::VecDeque;

fn copy(rec_id: u64, stale: usize) -> Announcement {
    Announcement { rec_id, cpu: 0, size: 4096, source: Some(0x1000), target: 0x2000, stale }
}

fn ids(window: &[Announcement]) -> Vec<u64> {
    window.iter().map(|a| a.rec_id).collect()
}

fn log(range: std::ops::Range<u64>) -> VecDeque<KernelLine<Announcement>> {
    range.map(|i| KernelLine::Record(copy(i, 0))).collect()
}

#[test]
fn lines_without_announcement_are_passed_over() {
    let mut lines = VecDeque::new();
    lines.push_back(KernelLine::NotParsed);
    lines.push_back(KernelLine::Record(copy(7, 0)));
    lines.push_back(KernelLine::Unreadable);
    lines.push_back(KernelLine::Record(copy(8, 0)));
    assert_eq!(next_kernel_line(&mut lines).map(|a| a.rec_id), Some(7));
    assert_eq!(next_kernel_line(&mut lines), None);
    assert_eq!(next_kernel_line(&mut lines).map(|a| a.rec_id), Some(8));
    assert_eq!(next_kernel_line(&mut lines), None);
}

#[test]
fn older_announcements_are_overtaken() {
    let mut window = vec![copy(1, 0), copy(5, 3), copy(9, 0)];
    update_stale(5, &mut window);
    assert_eq!(window, vec![copy(1, 1), copy(5, 3), copy(9, 0)]);
    remove_record(5, &mut window);
    assert_eq!(ids(&window), vec![1, 9]);
}

#[test]
fn stale_announcements_are_given_up() {
    let limit = COPY_WINDOW_STALE_THRESHOLD;
    let mut window = vec![copy(1, limit), copy(2, limit - 1), copy(30, limit + 1), copy(31, limit)];
    let mut rest = log(40..42);
    remove_stale_copies(10, &mut window, &mut rest);
    assert_eq!(ids(&window), vec![2, 31, 40, 41]);
    assert_eq!(window[0].stale, limit);
    assert!(rest.is_empty());
}

#[test]
fn the_window_is_filled_in_order() {
    let mut window = vec![copy(0, 0)];
    let mut rest = log(1..500);
    fill_window(&mut window, &mut rest);
    assert_eq!(ids(&window), (0..COPY_WINDOW as u64).collect::<Vec<u64>>());
    assert_eq!(rest.len(), 500 - COPY_WINDOW);
}

#[test]
fn the_first_window_must_be_readable() {
    let mut rest = log(0..199);
    rest.push_back(KernelLine::NotParsed);
    rest.push_back(KernelLine::Unreadable);
    assert!(first_window(&mut rest).is_none());

    let mut rest = log(0..200);
    rest.push_back(KernelLine::Unreadable);
    let window = first_window(&mut rest).unwrap();
    assert_eq!(window.len(), 200);
    assert_eq!(rest.len(), 1);

    let mut rest = log(0..3);
    assert_eq!(ids(&first_window(&mut rest).unwrap()), vec![0, 1, 2]);
}
