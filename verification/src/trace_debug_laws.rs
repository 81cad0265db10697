//! What holds of every search for the copies of a processor in its trace.
use crate::copy_laws;
use crate::copy_window;
use crate::copy_window::{Announcement, KernelLine, WindowRecord};
use crate::log_parser;
use crate::log_parser::LogRecord;
use crate::text;
use crate::trace_debug;
use crate::trace_debug::{Completed, Copying, KernelRecord, Progress};
use crate::report;
use vstd::prelude::*;

verus! {

/// What holds of a started copy after `k` accesses: it was announced, it begins with the load at
/// its source, its accesses are those of the trace, and its loads and its stores go on without a
/// gap from its source and its target.
pub open spec fn copy_sound(
    copy: Copying,
    history: Seq<LogRecord>,
    k: int,
    all: Seq<Announcement>,
) -> bool {
    &&& copy.first_global_idx < k
    &&& copy.records.len() > 0
    &&& copy.records[0] == history[copy.first_global_idx as int]
    &&& copy.records[0].address == copy.from
    &&& copy.records[0].store == 0
    &&& copy_laws::taken_from(copy.records, copy.indices, history, copy.first_global_idx, k)
    &&& copy_laws::without_gap(copy.records, 0, copy.from)
    &&& copy_laws::without_gap(copy.records, 1, copy.to)
    &&& copy.current_from == copy_laws::wrapped(copy.from + copy_laws::moved(copy.records, 0))
    &&& copy.current_to == copy_laws::wrapped(copy.to + copy_laws::moved(copy.records, 1))
    &&& copy_laws::is_announced(all, copy.rec_id, copy.from, copy.to, copy.size)
}

/// What holds of a completed copy: its accesses all stand between its first and its last in the
/// trace and are counted, it begins with the load at its source, its loads and its
/// stores go on without a gap from its source and its target, it was announced, and its loads and
/// its stores each fill what was announced.
pub open spec fn event_sound(
    event: Completed,
    history: Seq<LogRecord>,
    all: Seq<Announcement>,
) -> bool {
    &&& event.target_global_idx <= event.end_global_idx < history.len()
    &&& event.removed_accesses_count == event.records.len()
    &&& event.records.len() > 0
    &&& event.records[0] == history[event.target_global_idx as int]
    &&& event.records[0].address == event.from
    &&& event.records[0].store == 0
    &&& copy_laws::all_within(
        event.records,
        history,
        event.target_global_idx,
        event.end_global_idx,
    )
    &&& copy_laws::without_gap(event.records, 0, event.from)
    &&& copy_laws::without_gap(event.records, 1, event.to)
    &&& copy_laws::fills_announced(
        all,
        event.rec_id,
        event.from,
        event.to,
        Some(copy_laws::moved(event.records, 0)),
        copy_laws::moved(event.records, 1),
    )
}

/// The identities of the started copies.
pub open spec fn active_ids(copies: Seq<Copying>) -> Seq<u64> {
    Seq::new(copies.len(), |i: int| copies[i].rec_id)
}

/// The identities of the completed copies.
pub open spec fn event_ids(events: Seq<Completed>) -> Seq<u64> {
    Seq::new(events.len(), |i: int| events[i].rec_id)
}

/// What holds of the progress after `k` accesses of a trace with the announcements `all`.
pub open spec fn sound(
    p: Progress<Announcement>,
    history: Seq<LogRecord>,
    k: int,
    all: Seq<Announcement>,
) -> bool {
    &&& forall|c: int| 0 <= c < p.active.len() ==> copy_sound(#[trigger] p.active[c], history, k, all)
    &&& forall|e: int| 0 <= e < p.events.len() ==> event_sound(#[trigger] p.events[e], history, all)
    &&& copy_laws::only_announced(all, p.window, p.log)
}

proof fn lemma_advanced_sound(
    copy: Copying,
    history: Seq<LogRecord>,
    idx: usize,
    all: Seq<Announcement>,
)
    requires
        0 <= idx < history.len(),
        copy_sound(copy, history, idx as int, all),
        trace_debug::continues(history[idx as int], copy),
    ensures
        copy_sound(
            trace_debug::advanced(copy, history[idx as int], idx),
            history,
            idx + 1,
            all,
        ),
{
    let access = history[idx as int];
    let more = trace_debug::advanced(copy, access, idx);
    copy_laws::lemma_taken_push(copy.records, copy.indices, history, copy.first_global_idx, idx);
    copy_laws::lemma_without_gap_push(copy.records, access, 0, copy.from);
    copy_laws::lemma_without_gap_push(copy.records, access, 1, copy.to);
    copy_laws::lemma_moved_push(copy.records, access, 0);
    copy_laws::lemma_moved_push(copy.records, access, 1);
    copy_laws::lemma_wrapped_add(
        copy.from + copy_laws::moved(copy.records, 0),
        log_parser::access_bytes(access.size),
    );
    copy_laws::lemma_wrapped_add(
        copy.to + copy_laws::moved(copy.records, 1),
        log_parser::access_bytes(access.size),
    );
    if more.records.len() > copy.records.len() {
        assert(more.records[0] == copy.records[0]);
    }
}

proof fn lemma_restarted_sound(
    copy: Copying,
    history: Seq<LogRecord>,
    window: Seq<Announcement>,
    idx: usize,
    all: Seq<Announcement>,
)
    requires
        0 <= idx < history.len(),
        copy_window::ids_increase(all),
        copy_sound(copy, history, idx + 1, all),
        copy.current_to == copy.to,
        window.len() > 0,
        copy_window::among(all, window[0]),
        window[0].rec_id == copy.rec_id,
        trace_debug::is_start(history[idx as int], window[0]),
    ensures
        copy_sound(
            trace_debug::restarted(copy, history[idx as int], idx),
            history,
            idx + 1,
            all,
        ),
{
    let access = history[idx as int];
    let x = choose|x: int|
        0 <= x < all.len() && (#[trigger] all[x]).rec_id == copy.rec_id && all[x].source == Some(
            copy.from,
        ) && all[x].target == copy.to && all[x].size == copy.size;
    let y = choose|y: int|
        0 <= y < all.len() && copy_window::same_copy(window[0], (#[trigger] all[y]).announced());
    assert(all[x].id() == all[y].id());
    assert(x == y);
    lemma_first_access(access, copy.from, copy.to);
}

/// The first load of a copy, alone.
proof fn lemma_first_access(access: LogRecord, from: u64, to: u64)
    requires
        access.store == 0,
        access.address == from,
    ensures
        copy_laws::without_gap(seq![access], 0, from),
        copy_laws::without_gap(seq![access], 1, to),
        log_parser::access_end(access) == copy_laws::wrapped(
            from + copy_laws::moved(seq![access], 0),
        ),
        to == copy_laws::wrapped(to + copy_laws::moved(seq![access], 1)),
{
    copy_laws::lemma_moved_one(access, 0);
    copy_laws::lemma_moved_one(access, 1);
    copy_laws::lemma_without_gap_one(access, 0, from);
    copy_laws::lemma_without_gap_one(access, 1, to);
    copy_laws::lemma_wrapped_add(from as int, log_parser::access_bytes(access.size));
}

proof fn lemma_new_sound(
    history: Seq<LogRecord>,
    window: Seq<Announcement>,
    idx: usize,
    all: Seq<Announcement>,
)
    requires
        0 <= idx < history.len(),
        window.len() > 0,
        copy_window::among(all, window[0]),
        trace_debug::is_start(history[idx as int], window[0]),
    ensures
        copy_sound(
            trace_debug::new_copy(history[idx as int], window[0], idx),
            history,
            idx + 1,
            all,
        ),
{
    let access = history[idx as int];
    let copy = trace_debug::new_copy(access, window[0], idx);
    copy_laws::lemma_started_announced(all, window, 0, access.address);
    lemma_first_access(access, copy.from, copy.to);
}

proof fn lemma_starting(
    copies: Seq<Copying>,
    history: Seq<LogRecord>,
    window: Seq<Announcement>,
    idx: usize,
    all: Seq<Announcement>,
)
    requires
        0 <= idx < history.len(),
        copy_window::ids_increase(all),
        forall|c: int|
            0 <= c < copies.len() ==> copy_sound(#[trigger] copies[c], history, idx + 1, all),
        forall|w: int| 0 <= w < window.len() ==> copy_window::among(all, #[trigger] window[w]),
    ensures
        ({
            let r = trace_debug::starting(copies, history[idx as int], window, idx).0;
            forall|c: int|
                0 <= c < r.len() ==> copy_sound(#[trigger] r[c], history, idx + 1, all)
        }),
    decreases window.len(),
{
    if window.len() > 0 {
        let access = history[idx as int];
        let m = trace_debug::started(copies, window[0].rec_id, 0);
        trace_debug::lemma_started(copies, window[0].rec_id, 0);
        assert forall|w: int| 0 <= w < window.skip(1).len() implies copy_window::among(
            all,
            #[trigger] window.skip(1)[w],
        ) by {
            assert(window.skip(1)[w] == window[w + 1]);
        }
        assert(copy_window::among(all, window[0]));
        let next = if !trace_debug::is_start(access, window[0]) {
            copies
        } else if m >= copies.len() {
            lemma_new_sound(history, window, idx, all);
            copies.push(trace_debug::new_copy(access, window[0], idx))
        } else if copies[m].current_to == copies[m].to {
            lemma_restarted_sound(copies[m], history, window, idx, all);
            copies.update(m, trace_debug::restarted(copies[m], access, idx))
        } else {
            copies
        };
        lemma_starting(next, history, window.skip(1), idx, all);
        assert(trace_debug::starting(copies, access, window, idx).0 == trace_debug::starting(
            next,
            access,
            window.skip(1),
            idx,
        ).0);
    }
}

proof fn lemma_completed_sound(
    copy: Copying,
    history: Seq<LogRecord>,
    idx: usize,
    all: Seq<Announcement>,
)
    requires
        0 <= idx < history.len(),
        copy_sound(copy, history, idx + 1, all),
        trace_debug::complete(copy),
    ensures
        event_sound(trace_debug::completed(copy, history[idx as int].cpu, idx), history, all),
{
    copy_laws::lemma_taken_within(
        copy.records,
        copy.indices,
        history,
        copy.first_global_idx,
        idx,
    );
    let read = copy_laws::moved(copy.records, 0);
    let written = copy_laws::moved(copy.records, 1);
    if copy.from + copy.size <= u64::MAX {
        copy_laws::lemma_filled(copy.from, copy.size, read);
    }
    if copy.to + copy.size <= u64::MAX {
        copy_laws::lemma_filled(copy.to, copy.size, written);
    }
    copy_laws::lemma_filled_announced(
        all,
        copy.rec_id,
        copy.from,
        copy.to,
        copy.size,
        Some(read),
        written,
    );
}

proof fn lemma_after_access(
    p: Progress<Announcement>,
    history: Seq<LogRecord>,
    idx: usize,
    all: Seq<Announcement>,
)
    requires
        0 <= idx < history.len(),
        copy_window::ids_increase(all),
        sound(p, history, idx as int, all),
    ensures
        sound(trace_debug::after_access(p, history[idx as int], idx), history, idx + 1, all),
{
    let access = history[idx as int];
    let q = trace_debug::after_access(p, access, idx);
    let m = trace_debug::continued(p.active, access, 0);
    trace_debug::lemma_continued(p.active, access, 0);
    assert forall|c: int| 0 <= c < p.active.len() implies copy_sound(
        #[trigger] p.active[c],
        history,
        idx + 1,
        all,
    ) by {
        assert(copy_sound(p.active[c], history, idx as int, all));
    }
    if m >= p.active.len() {
        let w = p.window;
        assert forall|i: int| 0 <= i < w.len() implies copy_window::among(all, #[trigger] w[i]) by {
            assert(copy_window::upcoming(p.window, p.log)[i] == w[i]);
        }
        lemma_starting(p.active, history, w, idx, all);
    } else {
        let copy = trace_debug::advanced(p.active[m], access, idx);
        lemma_advanced_sound(p.active[m], history, idx, all);
        if trace_debug::complete(copy) {
            lemma_completed_sound(copy, history, idx, all);
            copy_laws::lemma_only_announced_completion(all, p.window, p.log, copy.rec_id);
            assert forall|c: int| 0 <= c < q.active.len() implies copy_sound(
                #[trigger] q.active[c],
                history,
                idx + 1,
                all,
            ) by {
                assert(q.active[c] == p.active[if c < m {
                    c
                } else {
                    c + 1
                }]);
            }
            assert forall|e: int| 0 <= e < q.events.len() implies event_sound(
                #[trigger] q.events[e],
                history,
                all,
            ) by {
                if e < p.events.len() {
                    assert(q.events[e] == p.events[e]);
                }
            }
        }
    }
}

/// Law: whatever the trace and the announcements are, as long as no two announcements have one
/// identity, every completed copy was announced, begins with the load at its source, and consists
/// of accesses between its first and its last; its loads and its stores go on without a gap from
/// its source and its target and each fill what was announced; and its accesses are counted.
pub proof fn law_completed_copies(
    history: Seq<LogRecord>,
    window: Seq<Announcement>,
    log: Seq<KernelLine<Announcement>>,
    k: int,
)
    requires
        0 <= k <= history.len() <= usize::MAX,
        copy_window::ids_increase(copy_window::upcoming(window, log)),
    ensures
        sound(
            trace_debug::progress(trace_debug::beginning(window, log), history, k),
            history,
            k,
            copy_window::upcoming(window, log),
        ),
    decreases k,
{
    let all = copy_window::upcoming(window, log);
    if k == 0 {
        copy_laws::lemma_all_announced(all);
    } else {
        law_completed_copies(history, window, log, k - 1);
        lemma_after_access(
            trace_debug::progress(trace_debug::beginning(window, log), history, k - 1),
            history,
            (k - 1) as usize,
            all,
        );
    }
}

proof fn lemma_starting_ids(
    copies: Seq<Copying>,
    access: LogRecord,
    window: Seq<Announcement>,
    idx: usize,
)
    requires
        active_ids(copies).no_duplicates(),
    ensures
        ({
            let r = active_ids(trace_debug::starting(copies, access, window, idx).0);
            &&& r.no_duplicates()
            &&& forall|c: int|
                0 <= c < r.len() ==> active_ids(copies).contains(#[trigger] r[c])
                    || copy_window::has_id(window, r[c])
        }),
    decreases window.len(),
{
    let ids = active_ids(copies);
    let r = active_ids(trace_debug::starting(copies, access, window, idx).0);
    if window.len() == 0 {
        assert forall|c: int| 0 <= c < r.len() implies ids.contains(#[trigger] r[c]) by {
            assert(ids[c] == r[c]);
        }
    } else {
        let rest = window.skip(1);
        let m = trace_debug::started(copies, window[0].rec_id, 0);
        trace_debug::lemma_started(copies, window[0].rec_id, 0);
        let next = if !trace_debug::is_start(access, window[0]) {
            copies
        } else if m >= copies.len() {
            copies.push(trace_debug::new_copy(access, window[0], idx))
        } else if copies[m].current_to == copies[m].to {
            copies.update(m, trace_debug::restarted(copies[m], access, idx))
        } else {
            copies
        };
        let next_ids = active_ids(next);
        if next.len() > copies.len() {
            assert(next_ids =~= ids.push(window[0].rec_id));
            assert forall|i: int, j: int|
                0 <= i < next_ids.len() && 0 <= j < next_ids.len() && i != j implies next_ids[i]
                != next_ids[j] by {
                if i < copies.len() {
                    assert(ids[i] == copies[i].rec_id);
                }
                if j < copies.len() {
                    assert(ids[j] == copies[j].rec_id);
                }
            }
        } else {
            assert(next_ids =~= ids);
        }
        lemma_starting_ids(next, access, rest, idx);
        assert forall|c: int| 0 <= c < r.len() implies ids.contains(#[trigger] r[c])
            || copy_window::has_id(window, r[c]) by {
            if next_ids.contains(r[c]) {
                let i = choose|i: int| 0 <= i < next_ids.len() && next_ids[i] == r[c];
                if i < ids.len() {
                    assert(ids[i] == r[c]);
                } else {
                    assert(window[0].id() == r[c]);
                }
            } else {
                let w = choose|w: int| 0 <= w < rest.len() && (#[trigger] rest[w]).id() == r[c];
                assert(window[w + 1].id() == r[c]);
            }
        }
    }
}

/// Law: no announcement is completed twice, and none that was completed is announced or started
/// again, as long as no two announcements have one identity.
pub proof fn law_completed_once(
    history: Seq<LogRecord>,
    window: Seq<Announcement>,
    log: Seq<KernelLine<Announcement>>,
    k: int,
)
    requires
        0 <= k <= history.len() <= usize::MAX,
        copy_window::ids_increase(copy_window::upcoming(window, log)),
    ensures
        ({
            let p = trace_debug::progress(trace_debug::beginning(window, log), history, k);
            copy_laws::ids_sound(active_ids(p.active), event_ids(p.events), p.window, p.log)
        }),
    decreases k,
{
    if k > 0 {
        law_completed_once(history, window, log, k - 1);
        let p = trace_debug::progress(trace_debug::beginning(window, log), history, k - 1);
        let access = history[k - 1];
        let idx = (k - 1) as usize;
        let q = trace_debug::after_access(p, access, idx);
        let m = trace_debug::continued(p.active, access, 0);
        trace_debug::lemma_continued(p.active, access, 0);
        let ids = active_ids(p.active);
        if m >= p.active.len() {
            lemma_starting_ids(p.active, access, p.window, idx);
            copy_laws::lemma_ids_start(
                ids,
                active_ids(q.active),
                event_ids(p.events),
                p.window,
                p.log,
            );
        } else if trace_debug::complete(trace_debug::advanced(p.active[m], access, idx)) {
            copy_laws::lemma_ids_completion(ids, event_ids(p.events), p.window, p.log, m);
            assert(active_ids(q.active) =~= ids.remove(m));
            assert(event_ids(q.events) =~= event_ids(p.events).push(ids[m]));
        } else {
            assert(active_ids(q.active) =~= ids);
        }
    }
}

/// Law: completed copies are never taken back.
pub proof fn law_completed_stay<R: WindowRecord>(
    p: Progress<R>,
    access: LogRecord,
    idx: usize,
)
    ensures
        p.events.is_prefix_of(trace_debug::after_access(p, access, idx).events),
{
    let q = trace_debug::after_access(p, access, idx);
    assert(p.events =~= q.events.subrange(0, p.events.len() as int));
}

/// Law: the announcements of a log have increasing identities, all below the next one, as long as
/// the identities do not run out.
pub proof fn law_log_ids_increase(lines: Seq<Option<Seq<char>>>, first_id: u64)
    requires
        first_id + lines.len() <= u64::MAX,
    ensures
        copy_window::ids_increase(trace_debug::log_records(lines, first_id).0),
        first_id <= trace_debug::log_records(lines, first_id).1 <= first_id + lines.len(),
        forall|i: int|
            0 <= i < trace_debug::log_records(lines, first_id).0.len() ==> (
            #[trigger] trace_debug::log_records(lines, first_id).0[i]).rec_id
                < trace_debug::log_records(lines, first_id).1,
    decreases lines.len(),
{
    if lines.len() > 0 {
        law_log_ids_increase(lines.drop_last(), first_id);
        let before = trace_debug::log_records(lines.drop_last(), first_id).0;
        let after = trace_debug::log_records(lines, first_id).0;
        assert forall|i: int, j: int| 0 <= i < j < after.len() implies (#[trigger] after[i]).id()
            < (#[trigger] after[j]).id() by {
            assert(after[i] == before[i]);
            if j < before.len() {
                assert(after[j] == before[j]);
            }
        }
    }
}

proof fn lemma_records_of_lines(records: Seq<KernelRecord>)
    ensures
        copy_window::records_of(
            copy_window::announced_log(trace_debug::record_lines(records)),
        ) == copy_window::announced_window(records),
    decreases records.len(),
{
    let lines = copy_window::announced_log(trace_debug::record_lines(records));
    if records.len() > 0 {
        lemma_records_of_lines(records.skip(1));
        assert(lines.skip(1) =~= copy_window::announced_log(
            trace_debug::record_lines(records.skip(1)),
        ));
        assert(lines[0] == KernelLine::Record(records[0].announced()));
    }
    assert(copy_window::records_of(lines) =~= copy_window::announced_window(records));
}

/// Law: no two announcements of a processor have one identity, in the first window and behind it.
pub proof fn law_first_window_ids(lines: Seq<Option<Seq<char>>>, first_id: u64, cpu: u8)
    requires
        first_id + lines.len() <= u64::MAX,
    ensures
        ({
            let records = trace_debug::log_records(lines, first_id).0.filter(
                trace_debug::of_cpu(cpu),
            );
            let (window, rest) = copy_window::refilled(
                Seq::<Announcement>::empty(),
                copy_window::announced_log(trace_debug::record_lines(records)),
            );
            copy_window::ids_increase(copy_window::upcoming(window, rest))
        }),
{
    let records = trace_debug::log_records(lines, first_id).0.filter(trace_debug::of_cpu(cpu));
    let none = Seq::<Announcement>::empty();
    let log = copy_window::announced_log(trace_debug::record_lines(records));
    law_log_ids_increase(lines, first_id);
    copy_window::lemma_filter_keeps_order(
        trace_debug::log_records(lines, first_id).0,
        trace_debug::of_cpu(cpu),
    );
    lemma_records_of_lines(records);
    copy_window::law_refill_keeps_announcements(none, log);
    let all = copy_window::announced_window(records);
    assert(none + all =~= all);
    assert forall|i: int, j: int| 0 <= i < j < all.len() implies (#[trigger] all[i]).id() < (
    #[trigger] all[j]).id() by {
        assert(records[i].id() < records[j].id());
    }
}

proof fn lemma_words_after_space(line: Seq<char>, i: int)
    requires
        0 <= i <= line.len(),
        forall|j: int| 0 <= j < i ==> text::white_space(#[trigger] line[j]),
    ensures
        text::words(line) == text::words(line.skip(i)),
    decreases i,
{
    if i == 0 {
        assert(line.skip(0) =~= line);
    } else {
        let rest = line.skip(1);
        assert(text::white_space(line[0]));
        assert forall|j: int| 0 <= j < i - 1 implies text::white_space(#[trigger] rest[j]) by {
            assert(rest[j] == line[j + 1]);
        }
        lemma_words_after_space(rest, i - 1);
        assert(rest.skip(i - 1) =~= line.skip(i));
    }
}

/// Law: a line that starts with `#`, after any white space, announces nothing.
pub proof fn law_comment(line: Seq<char>, i: int, next_id: u64)
    requires
        0 <= i < line.len(),
        forall|j: int| 0 <= j < i ==> text::white_space(#[trigger] line[j]),
        line[i] == '#',
    ensures
        trace_debug::line_record(line, next_id) is None,
{
    lemma_words_after_space(line, i);
    let rest = line.skip(i);
    assert(rest[0] == '#');
    let n = text::word_len(rest) as int;
    text::lemma_word_len(rest);
    let word = rest.take(n);
    assert(text::words(rest)[0] == word);
    assert(word[0] == '#');
    assert(text::without_plus(word) == word);
    assert(text::digit_value(word[0]) == 16);
    assert(!text::all_digits(word, 10));
}

/// Whether nothing was written by some started copies, and there is something left to write.
spec fn nothing_written(copies: Seq<Copying>) -> bool {
    forall|c: int|
        0 <= c < copies.len() ==> (#[trigger] copies[c]).current_to == copies[c].to
            && copies[c].size > 0 && copies[c].to + copies[c].size <= u64::MAX
}

proof fn lemma_starting_writes_nothing<R: WindowRecord>(
    copies: Seq<Copying>,
    access: LogRecord,
    window: Seq<R>,
    idx: usize,
)
    requires
        nothing_written(copies),
        forall|w: int|
            0 <= w < window.len() ==> (#[trigger] window[w]).announced().size > 0
                && window[w].announced().target + window[w].announced().size <= u64::MAX,
    ensures
        nothing_written(trace_debug::starting(copies, access, window, idx).0),
    decreases window.len(),
{
    if window.len() > 0 {
        let a = window[0].announced();
        let m = trace_debug::started(copies, a.rec_id, 0);
        trace_debug::lemma_started(copies, a.rec_id, 0);
        assert forall|w: int| 0 <= w < window.skip(1).len() implies (
        #[trigger] window.skip(1)[w]).announced().size > 0 && window.skip(1)[w].announced().target
            + window.skip(1)[w].announced().size <= u64::MAX by {
            assert(window.skip(1)[w] == window[w + 1]);
        }
        lemma_starting_writes_nothing(copies, access, window.skip(1), idx);
        if trace_debug::is_start(access, a) {
            if m >= copies.len() {
                lemma_starting_writes_nothing(
                    copies.push(trace_debug::new_copy(access, a, idx)),
                    access,
                    window.skip(1),
                    idx,
                );
            } else {
                let again = trace_debug::restarted(copies[m], access, idx);
                assert(nothing_written(copies.update(m, again)));
                lemma_starting_writes_nothing(
                    copies.update(m, again),
                    access,
                    window.skip(1),
                    idx,
                );
            }
        }
    }
}

/// Law: without a store in the trace no copy is completed, and the window and the log stay as they
/// are. The announced copies are not empty and do not reach beyond the last address.
pub proof fn law_without_stores<R: WindowRecord>(
    history: Seq<LogRecord>,
    window: Seq<R>,
    log: Seq<KernelLine<R>>,
    k: int,
)
    requires
        0 <= k <= history.len(),
        forall|i: int| 0 <= i < history.len() ==> (#[trigger] history[i]).store != 1,
        forall|w: int|
            0 <= w < window.len() ==> (#[trigger] window[w]).announced().size > 0
                && window[w].announced().target + window[w].announced().size <= u64::MAX,
    ensures
        ({
            let start = trace_debug::beginning(window, log);
            let p = trace_debug::progress(start, history, k);
            &&& p.events == start.events
            &&& p.window == window
            &&& p.log == log
        }),
{
    lemma_without_stores(history, window, log, k);
}

proof fn lemma_without_stores<R: WindowRecord>(
    history: Seq<LogRecord>,
    window: Seq<R>,
    log: Seq<KernelLine<R>>,
    k: int,
)
    requires
        0 <= k <= history.len(),
        forall|i: int| 0 <= i < history.len() ==> (#[trigger] history[i]).store != 1,
        forall|w: int|
            0 <= w < window.len() ==> (#[trigger] window[w]).announced().size > 0
                && window[w].announced().target + window[w].announced().size <= u64::MAX,
    ensures
        ({
            let start = trace_debug::beginning(window, log);
            let p = trace_debug::progress(start, history, k);
            p == (Progress { active: p.active, ..start }) && nothing_written(p.active)
        }),
    decreases k,
{
    if k > 0 {
        lemma_without_stores(history, window, log, k - 1);
        let p = trace_debug::progress(trace_debug::beginning(window, log), history, k - 1);
        let access = history[k - 1];
        trace_debug::lemma_continued(p.active, access, 0);
        lemma_starting_writes_nothing(p.active, access, window, (k - 1) as usize);
    }
}

/// Law: a line of a processor and two addresses, one space apart, with any words behind them,
/// announces that the processor copies a page of 4096 bytes from the first address to the second,
/// with the next identity.
pub proof fn law_line_announces(
    cpu: u8,
    src: u64,
    dst: u64,
    more: Seq<Seq<char>>,
    next_id: u64,
)
    requires
        forall|i: int| 0 <= i < more.len() ==> text::is_word(#[trigger] more[i]),
    ensures
        ({
            let parts = seq![
                text::decimal_digits(cpu as nat),
                text::address_text(src),
                text::address_text(dst),
            ] + more;
            trace_debug::line_record(text::joined(parts), next_id) == Some(
                KernelRecord {
                    rec_id: next_id,
                    cpu,
                    size: 4096,
                    src_address: src,
                    dst_address: dst,
                    stale: 0,
                },
            )
        }),
{
    let first = seq![
        text::decimal_digits(cpu as nat),
        text::address_text(src),
        text::address_text(dst),
    ];
    let parts = first + more;
    text::lemma_decimal_is_word(cpu as nat);
    text::lemma_address_is_word(src);
    text::lemma_address_is_word(dst);
    assert forall|i: int| 0 <= i < parts.len() implies text::is_word(#[trigger] parts[i]) by {
        if i >= 3 {
            assert(parts[i] == more[i - 3]);
        }
    }
    text::law_words_of_joined(parts);
    text::law_decimal_round_trip(cpu as nat, 255);
    text::law_address_round_trip(src);
    text::law_address_round_trip(dst);
    assert(parts[0] == first[0] && parts[1] == first[1] && parts[2] == first[2]);
}

/// Law: a line of fewer than three words announces nothing, nor one whose first word is not a
/// number below 256 or whose second or third is not an address.
pub proof fn law_line_announces_nothing(line: Seq<char>, next_id: u64)
    ensures
        ({
            let words = text::words(line);
            trace_debug::line_record(line, next_id) is None <==> words.len() < 3 || text::unsigned(
                words[0],
                10,
                255,
            ) is None || text::hex_address(words[1]) is None || text::hex_address(words[2]) is None
        }),
{
}

/// Law: each line of a log announces its copy whatever the others are, in the order of the lines,
/// with the identity that those before it leave; only lines that announce a copy use one up.
pub proof fn law_log_lines(
    a: Seq<Option<Seq<char>>>,
    b: Seq<Option<Seq<char>>>,
    first_id: u64,
)
    ensures
        ({
            let (log, id) = trace_debug::log_records(a, first_id);
            let (more, next) = trace_debug::log_records(b, id);
            trace_debug::log_records(a + b, first_id) == (log + more, next)
        }),
        b.len() == 1 ==> trace_debug::log_records(b, first_id) == match b[0] {
            Some(line) => match trace_debug::line_record(line, first_id) {
                Some(record) => (seq![record], first_id.wrapping_add(1)),
                None => (Seq::empty(), first_id),
            },
            None => (Seq::empty(), first_id),
        },
    decreases b.len(),
{
    let (log, id) = trace_debug::log_records(a, first_id);
    if b.len() == 0 {
        assert(a + b =~= a);
        assert(log + Seq::<KernelRecord>::empty() =~= log);
    } else {
        law_log_lines(a, b.drop_last(), first_id);
        assert((a + b).drop_last() =~= a + b.drop_last());
        let (more, next) = trace_debug::log_records(b.drop_last(), id);
        if let Some(line) = b.last() {
            if let Some(record) = trace_debug::line_record(line, next) {
                assert((log + more).push(record) =~= log + more.push(record));
            }
        }
        if b.len() == 1 {
            assert(b.drop_last() =~= Seq::<Option<Seq<char>>>::empty());
            assert(trace_debug::log_records(b.drop_last(), first_id) == (
                Seq::<KernelRecord>::empty(),
                first_id,
            ));
            if let Some(line) = b[0] {
                if let Some(record) = trace_debug::line_record(line, first_id) {
                    assert(Seq::<KernelRecord>::empty().push(record) =~= seq![record]);
                }
            }
        }
    }
}

/// Law: a record announces what it holds.
pub proof fn law_record_announces(record: KernelRecord)
    ensures
        record.announced() == (Announcement {
            rec_id: record.rec_id,
            cpu: record.cpu,
            size: record.size,
            source: Some(record.src_address),
            target: record.dst_address,
            stale: record.stale,
        }),
{
}

/// Law: the copies of a processor are those of the log with its number, and no others.
pub proof fn law_records_of_cpu(records: Seq<KernelRecord>, cpu: u8, r: KernelRecord)
    ensures
        records.filter(trace_debug::of_cpu(cpu)).contains(r) <==> records.contains(r) && r.cpu
            == cpu,
    decreases records.len(),
{
    reveal(Seq::filter);
    let p = trace_debug::of_cpu(cpu);
    let f = records.filter(p);
    if records.len() > 0 {
        let rest = records.drop_last();
        let g = rest.filter(p);
        law_records_of_cpu(rest, cpu, r);
        if f.contains(r) {
            let i = choose|i: int| 0 <= i < f.len() && f[i] == r;
            if i < g.len() {
                assert(g[i] == r);
                let j = choose|j: int| 0 <= j < rest.len() && rest[j] == r;
                assert(records[j] == r);
            } else {
                assert(records[records.len() - 1] == r);
            }
        }
        if records.contains(r) && r.cpu == cpu {
            let j = choose|j: int| 0 <= j < records.len() && records[j] == r;
            if j < rest.len() {
                assert(rest[j] == r);
                let i = choose|i: int| 0 <= i < g.len() && g[i] == r;
                assert(f[i] == r);
            } else {
                assert(f[f.len() - 1] == r);
            }
        }
    }
}

/// Law: the accesses and the stores of all completed copies add up over any division of the copies,
/// and of one copy they are its records and the stores among them.
pub proof fn law_totals(a: Seq<Completed>, b: Seq<Completed>)
    ensures
        trace_debug::total_accesses(a + b) == trace_debug::total_accesses(a)
            + trace_debug::total_accesses(b),
        trace_debug::total_stores(a + b) == trace_debug::total_stores(a)
            + trace_debug::total_stores(b),
        b.len() == 0 ==> trace_debug::total_accesses(b) == 0 && trace_debug::total_stores(b) == 0,
        b.len() == 1 ==> trace_debug::total_accesses(b) == b[0].records.len()
            && trace_debug::total_stores(b) == trace_debug::stores(b[0].records),
    decreases b.len(),
{
    if b.len() == 0 {
        assert(a + b =~= a);
    } else {
        law_totals(a, b.drop_last());
        assert((a + b).drop_last() =~= a + b.drop_last());
        if b.len() == 1 {
            assert(b.drop_last() =~= Seq::<Completed>::empty());
            assert(trace_debug::total_accesses(b.drop_last()) == 0);
            assert(trace_debug::total_stores(b.drop_last()) == 0);
        }
    }
}

/// Holds of the stores.
pub open spec fn is_store() -> spec_fn(LogRecord) -> bool {
    |r: LogRecord| r.store == 1
}

/// Law: the stores of some accesses are those with a store flag of 1.
pub proof fn law_stores(records: Seq<LogRecord>)
    ensures
        trace_debug::stores(records) == records.filter(is_store()).len(),
    decreases records.len(),
{
    reveal(Seq::filter);
    if records.len() > 0 {
        law_stores(records.drop_last());
    }
}

/// Law: a completed copy is handed out as it was recorded.
pub proof fn law_completed_view(event: trace_debug::RowcloneEvent)
    ensures
        event@.rec_id == event.rec_id,
        event@.target_global_idx == event.target_global_idx,
        event@.end_global_idx == event.end_global_idx,
        event@.cpu == event.cpu,
        event@.from == event.from,
        event@.to == event.to,
        event@.removed_accesses_count == event.removed_accesses_count,
        event@.records == event.records@,
{
}

/// Law: the trace of a processor is searched from the first 200 announcements on, with the others
/// behind them in order, and nothing started or completed before.
pub proof fn law_search_begins(
    history: Seq<LogRecord>,
    announcements: Seq<KernelLine<Announcement>>,
    window: Seq<Announcement>,
    rest: Seq<KernelLine<Announcement>>,
)
    requires
        window.len() <= 200,
        window.len() < 200 ==> rest.len() == 0,
        announcements == Seq::new(
            window.len(),
            |i: int| KernelLine::Record(window[i]),
        ) + rest,
    ensures
        trace_debug::final_progress(history, announcements) == trace_debug::progress(
            Progress { active: Seq::empty(), events: Seq::empty(), window, log: rest },
            history,
            history.len() as int,
        ),
{
    let none = Seq::<Announcement>::empty();
    lemma_first_filled(none, window, rest);
    assert(none + window =~= window);
}

proof fn lemma_first_filled(
    filled: Seq<Announcement>,
    window: Seq<Announcement>,
    rest: Seq<KernelLine<Announcement>>,
)
    requires
        filled.len() + window.len() <= 200,
        filled.len() + window.len() < 200 ==> rest.len() == 0,
    ensures
        copy_window::refilled(
            filled,
            Seq::new(window.len(), |i: int| KernelLine::Record(window[i])) + rest,
        ) == (filled + window, rest),
    decreases window.len(),
{
    let lines = Seq::new(window.len(), |i: int| KernelLine::Record(window[i])) + rest;
    if window.len() == 0 {
        assert(lines =~= rest);
        assert(filled + window =~= filled);
    } else {
        let tail = window.skip(1);
        assert(lines[0] == KernelLine::Record(window[0]));
        assert(lines.skip(1) =~= Seq::new(tail.len(), |i: int| KernelLine::Record(tail[i])) + rest);
        lemma_first_filled(filled.push(window[0]), tail, rest);
        assert(filled.push(window[0]) + tail =~= filled + window);
    }
}

/// Law: what a report says of the first `k` accesses of a copy are their lines, with their numbers
/// in the copy, one behind the other.
pub proof fn law_accesses_text(records: Seq<LogRecord>, k: int)
    requires
        0 <= k <= records.len(),
    ensures
        ({
            let s = trace_debug::accesses_text(records, k);
            let words = text::words(s);
            &&& words.len() == 15 * k
            &&& forall|j: int|
                0 <= j < k ==> #[trigger] words.subrange(15 * j, 15 * j + 15) == text::words(
                    report::access_line(text::zero_padded(text::decimal_digits(j as nat), 3), records[j]),
                )
            &&& s.len() > 0 ==> text::white_space(s[0]) && s.last() == '\n'
        }),
    decreases k,
{
    let s = trace_debug::accesses_text(records, k);
    let words = text::words(s);
    if k == 0 {
        assert(words =~= Seq::<Seq<char>>::empty());
    } else {
        law_accesses_text(records, k - 1);
        let before = trace_debug::accesses_text(records, k - 1);
        let number = text::zero_padded(text::decimal_digits((k - 1) as nat), 3);
        text::law_padded_round_trip((k - 1) as nat, 3, (k - 1) as nat);
        let line = report::access_line(number, records[k - 1]);
        report::law_access_line(number, records[k - 1]);
        text::law_words_of_two(before, line);
        let first = text::words(before);
        assert(words == first + text::words(line));
        assert(s.last() == line.last());
        assert(s[0] == if before.len() > 0 {
            before[0]
        } else {
            line[0]
        });
        assert forall|j: int| 0 <= j < k implies #[trigger] words.subrange(15 * j, 15 * j + 15)
            == text::words(report::access_line(text::zero_padded(text::decimal_digits(j as nat), 3), records[j])) by {
            if j < k - 1 {
                assert(words.subrange(15 * j, 15 * j + 15) =~= first.subrange(15 * j, 15 * j + 15));
            } else {
                assert(words.subrange(15 * j, 15 * j + 15) =~= text::words(line));
            }
        }
    }
}

/// The words of the part of a report that stands above the accesses of a copy.
#[verifier::spinoff_prover]
#[verifier::rlimit(60)]
proof fn lemma_head(event: Completed) -> (head: Seq<char>)
    ensures
        trace_debug::event_text(event) == head + trace_debug::accesses_text(
            event.records,
            event.records.len() as int,
        ) + "\n"@,
        head.len() > 0,
        text::white_space(head.last()),
        ({
            let words = text::words(head);
            &&& words.len() == 29
            &&& words[5] == "Rec:"@
            &&& words[6] == text::decimal_digits(event.rec_id as nat)
            &&& words[8] == "CPU:"@
            &&& words[9] == text::decimal_digits(event.cpu as nat)
            &&& words[13] == seq!['['] + text::decimal_digits(event.target_global_idx as nat)
            &&& words[14] == "->"@
            &&& words[15] == text::decimal_digits(event.end_global_idx as nat) + seq![']']
            &&& words.subrange(16, 23) == text::words(report::addresses_line(event.from, event.to))
            &&& words[27] == text::decimal_digits(event.removed_accesses_count)
        }),
{
    report::lemma_rules();
    report::law_addresses_line(event.from, event.to);
    let id = text::decimal_digits(event.rec_id as nat);
    let cpu = text::decimal_digits(event.cpu as nat);
    let count = text::decimal_digits(event.removed_accesses_count);
    text::lemma_decimal_is_word(event.rec_id as nat);
    text::lemma_decimal_is_word(event.cpu as nat);
    text::lemma_decimal_is_word(event.removed_accesses_count);
    let none = Seq::<char>::empty();
    assert(text::words(none) =~= Seq::<Seq<char>>::empty());
    let rule = report::DOUBLE_RULE@.drop_last();
    text::lemma_add_word(none, rule, '\n');
    let a = none + rule + seq!['\n'];
    assert(a =~= report::DOUBLE_RULE@);
    reveal_strlit("ROWCOPY DÉTECTÉ - ID Rec: ");
    reveal_strlit("ROWCOPY");
    reveal_strlit("DÉTECTÉ");
    reveal_strlit("-");
    reveal_strlit("ID");
    reveal_strlit("Rec:");
    text::lemma_add_word(a, "ROWCOPY"@, ' ');
    let b1 = a + "ROWCOPY"@ + seq![' '];
    text::lemma_add_word(b1, "DÉTECTÉ"@, ' ');
    let b2 = b1 + "DÉTECTÉ"@ + seq![' '];
    text::lemma_add_word(b2, "-"@, ' ');
    let b3 = b2 + "-"@ + seq![' '];
    text::lemma_add_word(b3, "ID"@, ' ');
    let b4 = b3 + "ID"@ + seq![' '];
    text::lemma_add_word(b4, "Rec:"@, ' ');
    let b5 = b4 + "Rec:"@ + seq![' '];
    assert(a + "ROWCOPY DÉTECTÉ - ID Rec: "@ =~= b5);
    text::lemma_add_word(b5, id, ' ');
    let b6 = b5 + id + seq![' '];
    reveal_strlit(" | CPU: ");
    reveal_strlit("|");
    reveal_strlit("CPU:");
    text::lemma_add_word(b6, "|"@, ' ');
    let b7 = b6 + "|"@ + seq![' '];
    text::lemma_add_word(b7, "CPU:"@, ' ');
    let b8 = b7 + "CPU:"@ + seq![' '];
    assert(b5 + id + " | CPU: "@ =~= b8);
    let start = text::decimal_digits(event.target_global_idx as nat);
    let end = text::decimal_digits(event.end_global_idx as nat);
    text::lemma_decimal_is_word(event.target_global_idx as nat);
    text::lemma_decimal_is_word(event.end_global_idx as nat);
    let opened = seq!['['] + start;
    let closed = end + seq![']'];
    assert(text::is_word(opened)) by {
        assert forall|i: int| 0 <= i < opened.len() implies !text::white_space(
            #[trigger] opened[i],
        ) by {
            if i > 0 {
                assert(opened[i] == start[i - 1]);
            }
        }
    }
    assert(text::is_word(closed)) by {
        assert forall|i: int| 0 <= i < closed.len() implies !text::white_space(
            #[trigger] closed[i],
        ) by {
            if i < end.len() {
                assert(closed[i] == end[i]);
            }
        }
    }
    reveal_strlit(" | Index trace: [");
    reveal_strlit("Index");
    reveal_strlit("trace:");
    reveal_strlit(" -> ");
    reveal_strlit("->");
    reveal_strlit("]\n");
    text::lemma_add_word(b8, cpu, ' ');
    let b9 = b8 + cpu + seq![' '];
    text::lemma_add_word(b9, "|"@, ' ');
    let b10 = b9 + "|"@ + seq![' '];
    text::lemma_add_word(b10, "Index"@, ' ');
    let b11 = b10 + "Index"@ + seq![' '];
    text::lemma_add_word(b11, "trace:"@, ' ');
    let b12 = b11 + "trace:"@ + seq![' '];
    assert(b8 + cpu + " | Index trace: ["@ =~= b12 + seq!['[']);
    let open_text = b8 + cpu + " | Index trace: ["@;
    text::lemma_add_word(b12, opened, ' ');
    let b13 = b12 + opened + seq![' '];
    text::lemma_add_word(b13, "->"@, ' ');
    let b14 = b13 + "->"@ + seq![' '];
    assert(open_text + start + " -> "@ =~= b14);
    text::lemma_add_word(b14, closed, '\n');
    let b15 = b14 + closed + seq!['\n'];
    assert(b14 + end + "]\n"@ =~= b15);
    let first_line = b14 + end + "]\n"@;
    let addresses = report::addresses_line(event.from, event.to);
    text::law_words_of_two(first_line, addresses);
    let g = first_line + addresses;
    assert(g.last() == addresses.last());
    reveal_strlit("Nombre d'accès interceptés : ");
    reveal_strlit("Nombre");
    reveal_strlit("d'accès");
    reveal_strlit("interceptés");
    reveal_strlit(":");
    text::lemma_add_word(g, "Nombre"@, ' ');
    let b16 = g + "Nombre"@ + seq![' '];
    text::lemma_add_word(b16, "d'accès"@, ' ');
    let b17 = b16 + "d'accès"@ + seq![' '];
    text::lemma_add_word(b17, "interceptés"@, ' ');
    let b18 = b17 + "interceptés"@ + seq![' '];
    text::lemma_add_word(b18, ":"@, ' ');
    let b19 = b18 + ":"@ + seq![' '];
    assert(g + "Nombre d'accès interceptés : "@ =~= b19);
    reveal_strlit("\n");
    text::lemma_add_word(b19, count, '\n');
    let b20 = b19 + count + seq!['\n'];
    assert(b19 + count + "\n"@ =~= b20);
    let under = report::RULE@.drop_last();
    text::lemma_add_word(b20, under, '\n');
    let head = b20 + under + seq!['\n'];
    assert(b20 + report::RULE@ =~= head);
    let words = text::words(head);
    assert(words.subrange(16, 23) =~= text::words(addresses));
    head
}

/// Law: what a report says of a completed copy can be read back: its identity, its processor, the
/// positions of its first and its last access, its
/// two whole addresses, the number of its accesses, and then the line of each of its accesses, in
/// order.
pub proof fn law_event_text(event: Completed)
    ensures
        ({
            let words = text::words(trace_debug::event_text(event));
            &&& words.len() == 29 + 15 * event.records.len()
            &&& words[5] == "Rec:"@
            &&& text::unsigned(words[6], 10, u64::MAX as nat) == Some(event.rec_id as nat)
            &&& words[8] == "CPU:"@
            &&& text::unsigned(words[9], 10, u64::MAX as nat) == Some(event.cpu as nat)
            &&& words[13][0] == '['
            &&& text::unsigned(words[13].skip(1), 10, u64::MAX as nat) == Some(
                event.target_global_idx as nat,
            )
            &&& words[15].last() == ']'
            &&& text::unsigned(words[15].drop_last(), 10, u64::MAX as nat) == Some(
                event.end_global_idx as nat,
            )
            &&& text::hex_address(words[18]) == Some(event.from as nat)
            &&& text::hex_address(words[22]) == Some(event.to as nat)
            &&& text::unsigned(words[27], 10, event.removed_accesses_count) == Some(
                event.removed_accesses_count,
            )
            &&& forall|j: int|
                0 <= j < event.records.len() ==> #[trigger] words.subrange(
                    29 + 15 * j,
                    44 + 15 * j,
                ) == text::words(report::access_line(text::zero_padded(text::decimal_digits(j as nat), 3), event.records[j]))
        }),
{
    let n = event.records.len() as int;
    let head = lemma_head(event);
    let all = trace_debug::accesses_text(event.records, n);
    law_accesses_text(event.records, n);
    text::law_words_of_two(head, all);
    let words = text::words(trace_debug::event_text(event));
    let first = text::words(head);
    let lines = text::words(all);
    reveal_strlit("\n");
    text::law_words_of_two(head + all, "\n"@);
    assert("\n"@.skip(1) =~= Seq::<char>::empty());
    assert(text::words("\n"@.skip(1)) =~= Seq::<Seq<char>>::empty());
    assert(text::words("\n"@) =~= Seq::<Seq<char>>::empty());
    assert(words =~= first + lines);
    let addresses = report::addresses_line(event.from, event.to);
    report::law_addresses_line(event.from, event.to);
    assert(words[18] == first.subrange(16, 23)[2]);
    assert(words[22] == first.subrange(16, 23)[6]);
    text::law_decimal_round_trip(event.rec_id as nat, u64::MAX as nat);
    text::law_decimal_round_trip(event.cpu as nat, u64::MAX as nat);
    text::law_decimal_round_trip(event.removed_accesses_count, event.removed_accesses_count);
    text::law_decimal_round_trip(event.target_global_idx as nat, u64::MAX as nat);
    text::law_decimal_round_trip(event.end_global_idx as nat, u64::MAX as nat);
    assert(words[13].skip(1) =~= text::decimal_digits(event.target_global_idx as nat));
    assert(words[15].drop_last() =~= text::decimal_digits(event.end_global_idx as nat));
    assert forall|j: int| 0 <= j < event.records.len() implies #[trigger] words.subrange(
        29 + 15 * j,
        44 + 15 * j,
    ) == text::words(report::access_line(text::zero_padded(text::decimal_digits(j as nat), 3), event.records[j])) by {
        assert(words.subrange(29 + 15 * j, 44 + 15 * j) =~= lines.subrange(15 * j, 15 * j + 15));
    }
}

/// Law: a report says of each completed copy what it says of it alone, in the order of the copies.
pub proof fn law_events_text(a: Seq<Completed>, b: Seq<Completed>)
    ensures
        trace_debug::events_text(a + b) == trace_debug::events_text(a) + trace_debug::events_text(b),
        b.len() == 0 ==> trace_debug::events_text(b) == Seq::<char>::empty(),
        b.len() == 1 ==> trace_debug::events_text(b) == trace_debug::event_text(b[0]),
    decreases b.len(),
{
    if b.len() == 0 {
        assert(a + b =~= a);
        assert(trace_debug::events_text(a) + Seq::<char>::empty() =~= trace_debug::events_text(a));
    } else {
        law_events_text(a, b.drop_last());
        assert((a + b).drop_last() =~= a + b.drop_last());
        assert(trace_debug::events_text(a + b) =~= trace_debug::events_text(a) + trace_debug::events_text(b));
        if b.len() == 1 {
            assert(b.drop_last() =~= Seq::<Completed>::empty());
            assert(trace_debug::events_text(b.drop_last()) =~= Seq::<char>::empty());
            assert(trace_debug::events_text(b) =~= trace_debug::event_text(b[0]));
        }
    }
}

/// Law: the text of a record for messages can be read back: its processor,
/// its size and its two whole addresses stand in it, each behind its label.
pub proof fn law_debug_text(record: KernelRecord)
    ensures
        ({
            let words = text::words(record.debug_view());
            &&& words.len() == 11
            &&& text::unsigned(words[3].drop_last(), 10, u64::MAX as nat) == Some(record.cpu as nat)
            &&& words[4] == "size:"@
            &&& text::unsigned(words[5].drop_last(), 10, u64::MAX as nat) == Some(record.size as nat)
            &&& words[6] == "src:"@
            &&& text::hex_address(words[7].drop_last()) == Some(record.src_address as nat)
            &&& words[8] == "dst:"@
            &&& text::hex_address(words[9]) == Some(record.dst_address as nat)
        }),
{
    reveal_strlit("KernelRecord { cpu: ");
    reveal_strlit("KernelRecord");
    reveal_strlit("{");
    reveal_strlit("cpu:");
    let none = Seq::<char>::empty();
    assert(text::words(none) =~= Seq::<Seq<char>>::empty());
    text::lemma_add_word(none, "KernelRecord"@, ' ');
    let a0 = none + "KernelRecord"@ + seq![' '];
    text::lemma_add_word(a0, "{"@, ' ');
    let a1 = a0 + "{"@ + seq![' '];
    text::lemma_add_word(a1, "cpu:"@, ' ');
    let a2 = a1 + "cpu:"@ + seq![' '];
    assert("KernelRecord { cpu: "@ =~= a2);
    text::lemma_decimal_is_word(record.cpu as nat);
    text::law_decimal_round_trip(record.cpu as nat, u64::MAX as nat);
    let f0 = text::decimal_digits(record.cpu as nat);
    reveal_strlit(", size: ");
    reveal_strlit("size:");
    assert(", size: "@ =~= seq![',', ' '] + "size:"@ + seq![' ']);
    text::lemma_add_item(a2, f0, "size:"@, ", size: "@);
    let t0 = a2 + f0 + ", size: "@;
    text::lemma_decimal_is_word(record.size as nat);
    text::law_decimal_round_trip(record.size as nat, u64::MAX as nat);
    let f1 = text::decimal_digits(record.size as nat);
    reveal_strlit(", src: ");
    reveal_strlit("src:");
    assert(", src: "@ =~= seq![',', ' '] + "src:"@ + seq![' ']);
    text::lemma_add_item(t0, f1, "src:"@, ", src: "@);
    let t1 = t0 + f1 + ", src: "@;
    text::lemma_address_is_word(record.src_address);
    text::law_address_round_trip(record.src_address);
    let f2 = text::address_text(record.src_address);
    reveal_strlit(", dst: ");
    reveal_strlit("dst:");
    assert(", dst: "@ =~= seq![',', ' '] + "dst:"@ + seq![' ']);
    text::lemma_add_item(t1, f2, "dst:"@, ", dst: "@);
    let t2 = t1 + f2 + ", dst: "@;
    text::lemma_address_is_word(record.dst_address);
    text::law_address_round_trip(record.dst_address);
    let f3 = text::address_text(record.dst_address);
    text::lemma_add_end(t2, f3);
    assert(record.debug_view() == t2 + f3 + " }"@);
    let words = text::words(record.debug_view());
    assert(words[3].drop_last() =~= f0);
    assert(words[5].drop_last() =~= f1);
    assert(words[7].drop_last() =~= f2);
}

/// Law: the copy that a line announces is what its first three words are read as, whatever form the
/// numbers have and however the words stand apart.
pub proof fn law_line_values(line: Seq<char>, next_id: u64)
    ensures
        trace_debug::line_record(line, next_id) matches Some(record) ==> {
            let words = text::words(line);
            &&& words.len() >= 3
            &&& text::unsigned(words[0], 10, 255) == Some(record.cpu as nat)
            &&& text::hex_address(words[1]) == Some(record.src_address as nat)
            &&& text::hex_address(words[2]) == Some(record.dst_address as nat)
            &&& record.rec_id == next_id
            &&& record.size == 4096
            &&& record.stale == 0
        },
{
}

/// Law: the lines of some records are the records, in their places.
pub proof fn law_record_lines(records: Seq<KernelRecord>, i: int)
    requires
        0 <= i < records.len(),
    ensures
        trace_debug::record_lines(records).len() == records.len(),
        trace_debug::record_lines(records)[i] == KernelLine::Record(records[i]),
{
}

} // verus!
