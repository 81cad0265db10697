//! What holds of every analysis of the copies of a trace.
use crate::copy_laws;
use crate::copy_window;
use crate::copy_window::{Announcement, KernelLine, WindowRecord};
use crate::log_parser;
use crate::log_parser::LogRecord;
use crate::rowclone2;
use crate::rowclone2::{Completed, Copying, Progress};
use crate::report;
use crate::text;
use vstd::prelude::*;

verus! {

/// What holds of a started copy after `k` accesses: it was announced, it begins with the load at
/// its source, its accesses are those of the trace, and its stores go on without a gap from its
/// target.
pub open spec fn copy_sound(
    copy: Copying,
    history: Seq<LogRecord>,
    k: int,
    all: Seq<Announcement>,
) -> bool {
    &&& copy.first_global_idx < k
    &&& copy.records.len() > 0
    &&& copy.records[0] == history[copy.first_global_idx as int]
    &&& copy.records[0].address == copy.from
    &&& copy.records[0].store == 0
    &&& copy_laws::taken_from(copy.records, copy.indices, history, copy.first_global_idx, k)
    &&& copy_laws::without_gap(copy.records, 1, copy.to)
    &&& copy.current_to == copy_laws::wrapped(copy.to + copy_laws::moved(copy.records, 1))
    &&& copy_laws::is_announced(all, copy.rec_id, copy.from, copy.to, copy.size)
}

/// What holds of a completed copy: its accesses all stand between its first and its last in the
/// trace and are counted, it begins with the load at its source, its stores go on without a gap
/// from its target, it was announced, and its stores fill what was announced.
pub open spec fn event_sound(
    event: Completed,
    history: Seq<LogRecord>,
    all: Seq<Announcement>,
) -> bool {
    &&& event.target_global_idx <= event.end_global_idx < history.len()
    &&& event.removed_accesses_count == event.records.len()
    &&& event.records.len() > 0
    &&& event.records[0] == history[event.target_global_idx as int]
    &&& event.records[0].address == event.from
    &&& event.records[0].store == 0
    &&& copy_laws::all_within(
        event.records,
        history,
        event.target_global_idx,
        event.end_global_idx,
    )
    &&& copy_laws::without_gap(event.records, 1, event.to)
    &&& copy_laws::fills_announced(
        all,
        event.rec_id,
        event.from,
        event.to,
        None,
        copy_laws::moved(event.records, 1),
    )
}

/// The identities of the started copies.
pub open spec fn active_ids(copies: Seq<Copying>) -> Seq<u64> {
    Seq::new(copies.len(), |i: int| copies[i].rec_id)
}

/// The identities of the completed copies.
pub open spec fn event_ids(events: Seq<Completed>) -> Seq<u64> {
    Seq::new(events.len(), |i: int| events[i].rec_id)
}

/// What holds of the progress after `k` accesses of a trace with the announcements `all`.
pub open spec fn sound(
    p: Progress<Announcement>,
    history: Seq<LogRecord>,
    k: int,
    all: Seq<Announcement>,
) -> bool {
    &&& forall|c: int| 0 <= c < p.active.len() ==> copy_sound(#[trigger] p.active[c], history, k, all)
    &&& forall|e: int| 0 <= e < p.events.len() ==> event_sound(#[trigger] p.events[e], history, all)
    &&& copy_laws::only_announced(all, p.window, p.log)
}

proof fn lemma_advanced_sound(
    copy: Copying,
    history: Seq<LogRecord>,
    idx: usize,
    all: Seq<Announcement>,
)
    requires
        0 <= idx < history.len(),
        copy_sound(copy, history, idx as int, all),
        rowclone2::continues(history[idx as int], copy),
    ensures
        copy_sound(
            rowclone2::advanced(copy, history[idx as int], idx),
            history,
            idx + 1,
            all,
        ),
{
    let access = history[idx as int];
    let more = rowclone2::advanced(copy, access, idx);
    copy_laws::lemma_taken_push(copy.records, copy.indices, history, copy.first_global_idx, idx);
    copy_laws::lemma_without_gap_push(copy.records, access, 1, copy.to);
    copy_laws::lemma_moved_push(copy.records, access, 1);
    copy_laws::lemma_wrapped_add(
        copy.to + copy_laws::moved(copy.records, 1),
        log_parser::access_bytes(access.size),
    );
    assert(more.records[0] == copy.records[0]);
}

proof fn lemma_again_sound(
    copy: Copying,
    history: Seq<LogRecord>,
    idx: usize,
    all: Seq<Announcement>,
)
    requires
        0 <= idx < history.len(),
        copy_sound(copy, history, idx + 1, all),
        history[idx as int].store == 0,
    ensures
        copy_sound(
            rowclone2::seen_again(copy, history[idx as int], idx),
            history,
            idx + 1,
            all,
        ),
{
    let access = history[idx as int];
    let more = rowclone2::seen_again(copy, access, idx);
    copy_laws::lemma_taken_push(copy.records, copy.indices, history, copy.first_global_idx, idx);
    copy_laws::lemma_without_gap_push(copy.records, access, 1, copy.to);
    copy_laws::lemma_moved_push(copy.records, access, 1);
    assert(more.records[0] == copy.records[0]);
}

proof fn lemma_new_sound(
    history: Seq<LogRecord>,
    window: Seq<Announcement>,
    idx: usize,
    all: Seq<Announcement>,
)
    requires
        0 <= idx < history.len(),
        window.len() > 0,
        copy_window::among(all, window[0]),
        rowclone2::is_start(history[idx as int], window[0]),
    ensures
        copy_sound(
            rowclone2::new_copy(history[idx as int], window[0], idx),
            history,
            idx + 1,
            all,
        ),
{
    let access = history[idx as int];
    let copy = rowclone2::new_copy(access, window[0], idx);
    copy_laws::lemma_started_announced(all, window, 0, access.address);
    copy_laws::lemma_moved_one(access, 1);
    copy_laws::lemma_without_gap_one(access, 1, copy.to);
}

proof fn lemma_starting(
    copies: Seq<Copying>,
    history: Seq<LogRecord>,
    window: Seq<Announcement>,
    idx: usize,
    all: Seq<Announcement>,
)
    requires
        0 <= idx < history.len(),
        forall|c: int|
            0 <= c < copies.len() ==> copy_sound(#[trigger] copies[c], history, idx + 1, all),
        forall|w: int| 0 <= w < window.len() ==> copy_window::among(all, #[trigger] window[w]),
    ensures
        ({
            let r = rowclone2::starting(copies, history[idx as int], window, idx).0;
            forall|c: int|
                0 <= c < r.len() ==> copy_sound(#[trigger] r[c], history, idx + 1, all)
        }),
    decreases window.len(),
{
    if window.len() > 0 {
        let access = history[idx as int];
        let m = rowclone2::started(copies, window[0].rec_id, 0);
        rowclone2::lemma_started(copies, window[0].rec_id, 0);
        assert forall|w: int| 0 <= w < window.skip(1).len() implies copy_window::among(
            all,
            #[trigger] window.skip(1)[w],
        ) by {
            assert(window.skip(1)[w] == window[w + 1]);
        }
        assert(copy_window::among(all, window[0]));
        let next = if !rowclone2::is_start(access, window[0]) {
            copies
        } else if m >= copies.len() {
            lemma_new_sound(history, window, idx, all);
            copies.push(rowclone2::new_copy(access, window[0], idx))
        } else if copies[m].current_to == copies[m].to {
            lemma_again_sound(copies[m], history, idx, all);
            copies.update(m, rowclone2::seen_again(copies[m], access, idx))
        } else {
            copies
        };
        lemma_starting(next, history, window.skip(1), idx, all);
        assert(rowclone2::starting(copies, access, window, idx).0 == rowclone2::starting(
            next,
            access,
            window.skip(1),
            idx,
        ).0);
    }
}

proof fn lemma_completed_sound(
    copy: Copying,
    history: Seq<LogRecord>,
    idx: usize,
    all: Seq<Announcement>,
)
    requires
        0 <= idx < history.len(),
        copy_sound(copy, history, idx + 1, all),
        rowclone2::complete(copy),
    ensures
        event_sound(rowclone2::completed(copy, idx), history, all),
{
    copy_laws::lemma_taken_within(
        copy.records,
        copy.indices,
        history,
        copy.first_global_idx,
        idx,
    );
    let written = copy_laws::moved(copy.records, 1);
    if copy.to + copy.size <= u64::MAX {
        copy_laws::lemma_filled(copy.to, copy.size, written);
    }
    copy_laws::lemma_filled_announced(
        all,
        copy.rec_id,
        copy.from,
        copy.to,
        copy.size,
        None,
        written,
    );
}

proof fn lemma_after_access(
    p: Progress<Announcement>,
    history: Seq<LogRecord>,
    idx: usize,
    all: Seq<Announcement>,
)
    requires
        0 <= idx < history.len(),
        sound(p, history, idx as int, all),
    ensures
        sound(rowclone2::after_access(p, history[idx as int], idx), history, idx + 1, all),
{
    let access = history[idx as int];
    let q = rowclone2::after_access(p, access, idx);
    let m = rowclone2::continued(p.active, access, 0);
    rowclone2::lemma_continued(p.active, access, 0);
    assert forall|c: int| 0 <= c < p.active.len() implies copy_sound(
        #[trigger] p.active[c],
        history,
        idx + 1,
        all,
    ) by {
        assert(copy_sound(p.active[c], history, idx as int, all));
    }
    if m >= p.active.len() {
        let w = p.window;
        assert forall|i: int| 0 <= i < w.len() implies copy_window::among(all, #[trigger] w[i]) by {
            assert(copy_window::upcoming(p.window, p.log)[i] == w[i]);
        }
        lemma_starting(p.active, history, w, idx, all);
    } else {
        let copy = rowclone2::advanced(p.active[m], access, idx);
        lemma_advanced_sound(p.active[m], history, idx, all);
        if rowclone2::complete(copy) {
            lemma_completed_sound(copy, history, idx, all);
            copy_laws::lemma_only_announced_completion(all, p.window, p.log, copy.rec_id);
            assert forall|c: int| 0 <= c < q.active.len() implies copy_sound(
                #[trigger] q.active[c],
                history,
                idx + 1,
                all,
            ) by {
                assert(q.active[c] == p.active[if c < m {
                    c
                } else {
                    c + 1
                }]);
            }
            assert forall|e: int| 0 <= e < q.events.len() implies event_sound(
                #[trigger] q.events[e],
                history,
                all,
            ) by {
                if e < p.events.len() {
                    assert(q.events[e] == p.events[e]);
                }
            }
        }
    }
}

/// Law: whatever the trace and the announcements are, every completed copy was announced, begins
/// with the load at its source, and consists of accesses between its first and its last; its
/// stores go on without a gap from its target and fill what was announced; and its accesses are
/// counted.
pub proof fn law_completed_copies(
    history: Seq<LogRecord>,
    window: Seq<Announcement>,
    log: Seq<KernelLine<Announcement>>,
    k: int,
)
    requires
        0 <= k <= history.len() <= usize::MAX,
    ensures
        sound(
            rowclone2::progress(rowclone2::beginning(window, log), history, k),
            history,
            k,
            copy_window::upcoming(window, log),
        ),
    decreases k,
{
    let all = copy_window::upcoming(window, log);
    if k == 0 {
        copy_laws::lemma_all_announced(all);
    } else {
        law_completed_copies(history, window, log, k - 1);
        lemma_after_access(
            rowclone2::progress(rowclone2::beginning(window, log), history, k - 1),
            history,
            (k - 1) as usize,
            all,
        );
    }
}

proof fn lemma_starting_ids(
    copies: Seq<Copying>,
    access: LogRecord,
    window: Seq<Announcement>,
    idx: usize,
)
    requires
        active_ids(copies).no_duplicates(),
    ensures
        ({
            let r = active_ids(rowclone2::starting(copies, access, window, idx).0);
            &&& r.no_duplicates()
            &&& forall|c: int|
                0 <= c < r.len() ==> active_ids(copies).contains(#[trigger] r[c])
                    || copy_window::has_id(window, r[c])
        }),
    decreases window.len(),
{
    let ids = active_ids(copies);
    let r = active_ids(rowclone2::starting(copies, access, window, idx).0);
    if window.len() == 0 {
        assert forall|c: int| 0 <= c < r.len() implies ids.contains(#[trigger] r[c]) by {
            assert(ids[c] == r[c]);
        }
    } else {
        let rest = window.skip(1);
        let m = rowclone2::started(copies, window[0].rec_id, 0);
        rowclone2::lemma_started(copies, window[0].rec_id, 0);
        let next = if !rowclone2::is_start(access, window[0]) {
            copies
        } else if m >= copies.len() {
            copies.push(rowclone2::new_copy(access, window[0], idx))
        } else if copies[m].current_to == copies[m].to {
            copies.update(m, rowclone2::seen_again(copies[m], access, idx))
        } else {
            copies
        };
        let next_ids = active_ids(next);
        if next.len() > copies.len() {
            assert(next_ids =~= ids.push(window[0].rec_id));
            assert forall|i: int, j: int|
                0 <= i < next_ids.len() && 0 <= j < next_ids.len() && i != j implies next_ids[i]
                != next_ids[j] by {
                if i < copies.len() {
                    assert(ids[i] == copies[i].rec_id);
                }
                if j < copies.len() {
                    assert(ids[j] == copies[j].rec_id);
                }
            }
        } else {
            assert(next_ids =~= ids);
        }
        lemma_starting_ids(next, access, rest, idx);
        assert forall|c: int| 0 <= c < r.len() implies ids.contains(#[trigger] r[c])
            || copy_window::has_id(window, r[c]) by {
            if next_ids.contains(r[c]) {
                let i = choose|i: int| 0 <= i < next_ids.len() && next_ids[i] == r[c];
                if i < ids.len() {
                    assert(ids[i] == r[c]);
                } else {
                    assert(window[0].id() == r[c]);
                }
            } else {
                let w = choose|w: int| 0 <= w < rest.len() && (#[trigger] rest[w]).id() == r[c];
                assert(window[w + 1].id() == r[c]);
            }
        }
    }
}

/// Law: no announcement is completed twice, and none that was completed is announced or started
/// again, as long as no two announcements have one identity.
pub proof fn law_completed_once(
    history: Seq<LogRecord>,
    window: Seq<Announcement>,
    log: Seq<KernelLine<Announcement>>,
    k: int,
)
    requires
        0 <= k <= history.len() <= usize::MAX,
        copy_window::ids_increase(copy_window::upcoming(window, log)),
    ensures
        ({
            let p = rowclone2::progress(rowclone2::beginning(window, log), history, k);
            copy_laws::ids_sound(active_ids(p.active), event_ids(p.events), p.window, p.log)
        }),
    decreases k,
{
    if k > 0 {
        law_completed_once(history, window, log, k - 1);
        let p = rowclone2::progress(rowclone2::beginning(window, log), history, k - 1);
        let access = history[k - 1];
        let idx = (k - 1) as usize;
        let q = rowclone2::after_access(p, access, idx);
        let m = rowclone2::continued(p.active, access, 0);
        rowclone2::lemma_continued(p.active, access, 0);
        let ids = active_ids(p.active);
        if m >= p.active.len() {
            lemma_starting_ids(p.active, access, p.window, idx);
            copy_laws::lemma_ids_start(
                ids,
                active_ids(q.active),
                event_ids(p.events),
                p.window,
                p.log,
            );
        } else if rowclone2::complete(rowclone2::advanced(p.active[m], access, idx)) {
            copy_laws::lemma_ids_completion(ids, event_ids(p.events), p.window, p.log, m);
            assert(active_ids(q.active) =~= ids.remove(m));
            assert(event_ids(q.events) =~= event_ids(p.events).push(ids[m]));
        } else {
            assert(active_ids(q.active) =~= ids);
        }
    }
}

/// Law: completed copies are never taken back.
pub proof fn law_completed_stay<R: WindowRecord>(
    p: Progress<R>,
    access: LogRecord,
    idx: usize,
)
    ensures
        p.events.is_prefix_of(rowclone2::after_access(p, access, idx).events),
{
    let q = rowclone2::after_access(p, access, idx);
    assert(p.events =~= q.events.subrange(0, p.events.len() as int));
}

/// Whether nothing was written by some started copies, and there is something left to write.
spec fn nothing_written(copies: Seq<Copying>) -> bool {
    forall|c: int|
        0 <= c < copies.len() ==> (#[trigger] copies[c]).current_to == copies[c].to
            && copies[c].size > 0 && copies[c].to + copies[c].size <= u64::MAX
}

proof fn lemma_starting_writes_nothing<R: WindowRecord>(
    copies: Seq<Copying>,
    access: LogRecord,
    window: Seq<R>,
    idx: usize,
)
    requires
        nothing_written(copies),
        forall|w: int|
            0 <= w < window.len() ==> (#[trigger] window[w]).announced().size > 0
                && window[w].announced().target + window[w].announced().size <= u64::MAX,
    ensures
        nothing_written(rowclone2::starting(copies, access, window, idx).0),
    decreases window.len(),
{
    if window.len() > 0 {
        let a = window[0].announced();
        let m = rowclone2::started(copies, a.rec_id, 0);
        rowclone2::lemma_started(copies, a.rec_id, 0);
        assert forall|w: int| 0 <= w < window.skip(1).len() implies (
        #[trigger] window.skip(1)[w]).announced().size > 0 && window.skip(1)[w].announced().target
            + window.skip(1)[w].announced().size <= u64::MAX by {
            assert(window.skip(1)[w] == window[w + 1]);
        }
        lemma_starting_writes_nothing(copies, access, window.skip(1), idx);
        if rowclone2::is_start(access, a) {
            if m >= copies.len() {
                lemma_starting_writes_nothing(
                    copies.push(rowclone2::new_copy(access, a, idx)),
                    access,
                    window.skip(1),
                    idx,
                );
            } else {
                let again = rowclone2::seen_again(copies[m], access, idx);
                assert(nothing_written(copies.update(m, again)));
                lemma_starting_writes_nothing(
                    copies.update(m, again),
                    access,
                    window.skip(1),
                    idx,
                );
            }
        }
    }
}

/// Law: without a store in the trace no copy is completed, and the window and the log stay as they
/// are. The announced copies are not empty and do not reach beyond the last address.
pub proof fn law_without_stores<R: WindowRecord>(
    history: Seq<LogRecord>,
    window: Seq<R>,
    log: Seq<KernelLine<R>>,
    k: int,
)
    requires
        0 <= k <= history.len(),
        forall|i: int| 0 <= i < history.len() ==> (#[trigger] history[i]).store != 1,
        forall|w: int|
            0 <= w < window.len() ==> (#[trigger] window[w]).announced().size > 0
                && window[w].announced().target + window[w].announced().size <= u64::MAX,
    ensures
        ({
            let start = rowclone2::beginning(window, log);
            let p = rowclone2::progress(start, history, k);
            &&& p.events == start.events
            &&& p.window == window
            &&& p.log == log
        }),
{
    lemma_without_stores(history, window, log, k);
}

proof fn lemma_without_stores<R: WindowRecord>(
    history: Seq<LogRecord>,
    window: Seq<R>,
    log: Seq<KernelLine<R>>,
    k: int,
)
    requires
        0 <= k <= history.len(),
        forall|i: int| 0 <= i < history.len() ==> (#[trigger] history[i]).store != 1,
        forall|w: int|
            0 <= w < window.len() ==> (#[trigger] window[w]).announced().size > 0
                && window[w].announced().target + window[w].announced().size <= u64::MAX,
    ensures
        ({
            let start = rowclone2::beginning(window, log);
            let p = rowclone2::progress(start, history, k);
            p == (Progress { active: p.active, ..start }) && nothing_written(p.active)
        }),
    decreases k,
{
    if k > 0 {
        lemma_without_stores(history, window, log, k - 1);
        let p = rowclone2::progress(rowclone2::beginning(window, log), history, k - 1);
        let access = history[k - 1];
        rowclone2::lemma_continued(p.active, access, 0);
        lemma_starting_writes_nothing(p.active, access, window, (k - 1) as usize);
    }
}

/// Law: a record of the kernel log announces a copy between its two addresses: a read goes from the
/// kernel's to the user's, a write the other way; one with another operation starts nowhere.
pub proof fn law_record_announces(record: rowclone2::KernelRecord)
    ensures
        ({
            let a = record.announced();
            &&& a.rec_id == record.rec_id
            &&& a.cpu == record.cpu
            &&& a.size == record.size
            &&& a.stale == record.stale
            &&& record.operation == 'r' ==> a.source == Some(record.kernel_address) && a.target
                == record.user_address
            &&& record.operation == 'w' ==> a.source == Some(record.user_address) && a.target
                == record.kernel_address
            &&& record.operation != 'r' && record.operation != 'w' ==> a.source is None
        }),
{
}

/// Law: a line that is read as a record has its identity, its command, its processor, its operation
/// and its addresses, and is of a page of 4096 bytes that nothing has overtaken.
pub proof fn law_record_read(
    line: KernelLine<rowclone2::KernelRecord>,
    source: Seq<char>,
    text: Option<Seq<char>>,
    id: u64,
)
    requires
        rowclone2::is_line_of(line, source, text, id),
    ensures
        match text {
            None => line is Unreadable,
            Some(chars) => match crate::kernel_log::line_copy(source, chars, id).0 {
                Some(copy) => line matches KernelLine::Record(record) && record.rec_id
                    == copy.rec_id && record.command@ == crate::pattern::regex_groups(
                    source,
                    chars,
                )->0[0] && record.cpu == copy.cpu && record.size == 4096 && record.operation
                    == copy.operation && record.kernel_address == copy.kernel_address
                    && record.user_address == copy.user_address && record.stale == 0,
                None => line is NotParsed,
            },
        },
{
}

/// Law: the accesses of all completed copies add up over any division of the copies, and of one
/// copy they are those that it was recorded with.
pub proof fn law_total_removed(a: Seq<Completed>, b: Seq<Completed>)
    ensures
        rowclone2::total_removed(a + b) == rowclone2::total_removed(a) + rowclone2::total_removed(b),
        b.len() == 0 ==> rowclone2::total_removed(b) == 0,
        b.len() == 1 ==> rowclone2::total_removed(b) == b[0].removed_accesses_count,
    decreases b.len(),
{
    if b.len() == 0 {
        assert(a + b =~= a);
    } else {
        law_total_removed(a, b.drop_last());
        assert((a + b).drop_last() =~= a + b.drop_last());
        if b.len() == 1 {
            assert(b.drop_last() =~= Seq::<Completed>::empty());
            assert(rowclone2::total_removed(b.drop_last()) == 0);
        }
    }
}

/// Law: an analysis hands out all completed copies, the accesses of them all in number, the number
/// of copies that were started and not completed, and a report if and only if one is wanted.
pub proof fn law_analysis<R>(analysis: rowclone2::Analysis, p: Progress<R>, wanted: bool)
    requires
        rowclone2::analysis_of(analysis, p, wanted),
    ensures
        analysis.events@.len() == p.events.len(),
        forall|e: int| 0 <= e < p.events.len() ==> (#[trigger] analysis.events@[e])@ == p.events[e],
        analysis.uncompleted == p.active.len(),
        analysis.total_removed_accesses == rowclone2::total_removed(p.events),
        analysis.report is Some <==> wanted,
        analysis.report matches Some(r) ==> r@ == rowclone2::events_text(p.events),
{
    let c = rowclone2::completions(analysis.events@);
    assert(c.len() == analysis.events@.len());
    assert forall|e: int| 0 <= e < p.events.len() implies (#[trigger] analysis.events@[e])@
        == p.events[e] by {
        assert(c[e] == analysis.events@[e]@);
    }
}

/// Law: a completed copy is handed out as it was recorded.
pub proof fn law_completed_view(event: rowclone2::RowcloneEvent)
    ensures
        event@.rec_id == event.rec_id,
        event@.target_global_idx == event.target_global_idx,
        event@.end_global_idx == event.end_global_idx,
        event@.cpu == event.cpu,
        event@.insn_count == event.insn_count,
        event@.from == event.from,
        event@.to == event.to,
        event@.removed_accesses_count == event.removed_accesses_count,
        event@.records == event.records@,
{
}

/// Law: what a report says of the first `k` accesses of a copy are their lines, with their numbers
/// in the copy, one behind the other.
pub proof fn law_accesses_text(records: Seq<LogRecord>, k: int)
    requires
        0 <= k <= records.len(),
    ensures
        ({
            let s = rowclone2::accesses_text(records, k);
            let words = text::words(s);
            &&& words.len() == 15 * k
            &&& forall|j: int|
                0 <= j < k ==> #[trigger] words.subrange(15 * j, 15 * j + 15) == text::words(
                    report::access_line(text::decimal_digits(j as nat), records[j]),
                )
            &&& s.len() > 0 ==> text::white_space(s[0]) && s.last() == '\n'
        }),
    decreases k,
{
    let s = rowclone2::accesses_text(records, k);
    let words = text::words(s);
    if k == 0 {
        assert(words =~= Seq::<Seq<char>>::empty());
    } else {
        law_accesses_text(records, k - 1);
        let before = rowclone2::accesses_text(records, k - 1);
        let number = text::decimal_digits((k - 1) as nat);
        text::lemma_decimal_is_word((k - 1) as nat);
        let line = report::access_line(number, records[k - 1]);
        report::law_access_line(number, records[k - 1]);
        text::law_words_of_two(before, line);
        let first = text::words(before);
        assert(words == first + text::words(line));
        assert(s.last() == line.last());
        assert(s[0] == if before.len() > 0 {
            before[0]
        } else {
            line[0]
        });
        assert forall|j: int| 0 <= j < k implies #[trigger] words.subrange(15 * j, 15 * j + 15)
            == text::words(report::access_line(text::decimal_digits(j as nat), records[j])) by {
            if j < k - 1 {
                assert(words.subrange(15 * j, 15 * j + 15) =~= first.subrange(15 * j, 15 * j + 15));
            } else {
                assert(words.subrange(15 * j, 15 * j + 15) =~= text::words(line));
            }
        }
    }
}

/// The words of the part of a report that stands above the accesses of a copy.
#[verifier::spinoff_prover]
#[verifier::rlimit(60)]
proof fn lemma_head(event: Completed) -> (head: Seq<char>)
    ensures
        rowclone2::event_text(event) == head + rowclone2::accesses_text(
            event.records,
            event.records.len() as int,
        ),
        head.len() > 0,
        text::white_space(head.last()),
        ({
            let words = text::words(head);
            &&& words.len() == 22
            &&& words[5] == "Rec:"@
            &&& words[6] == text::decimal_digits(event.rec_id as nat)
            &&& words[8] == "CPU:"@
            &&& words[9] == text::decimal_digits(event.cpu as nat)
            &&& words.subrange(10, 17) == text::words(report::addresses_line(event.from, event.to))
            &&& words[20] == text::decimal_digits(event.removed_accesses_count)
        }),
{
    report::lemma_rules();
    report::law_addresses_line(event.from, event.to);
    let id = text::decimal_digits(event.rec_id as nat);
    let cpu = text::decimal_digits(event.cpu as nat);
    let count = text::decimal_digits(event.removed_accesses_count);
    text::lemma_decimal_is_word(event.rec_id as nat);
    text::lemma_decimal_is_word(event.cpu as nat);
    text::lemma_decimal_is_word(event.removed_accesses_count);
    let none = Seq::<char>::empty();
    assert(text::words(none) =~= Seq::<Seq<char>>::empty());
    let rule = report::DOUBLE_RULE@.drop_last();
    text::lemma_add_word(none, rule, '\n');
    let a = none + rule + seq!['\n'];
    assert(a =~= report::DOUBLE_RULE@);
    reveal_strlit("ROWCOPY DETECTE - ID Rec: ");
    reveal_strlit("ROWCOPY");
    reveal_strlit("DETECTE");
    reveal_strlit("-");
    reveal_strlit("ID");
    reveal_strlit("Rec:");
    text::lemma_add_word(a, "ROWCOPY"@, ' ');
    let b1 = a + "ROWCOPY"@ + seq![' '];
    text::lemma_add_word(b1, "DETECTE"@, ' ');
    let b2 = b1 + "DETECTE"@ + seq![' '];
    text::lemma_add_word(b2, "-"@, ' ');
    let b3 = b2 + "-"@ + seq![' '];
    text::lemma_add_word(b3, "ID"@, ' ');
    let b4 = b3 + "ID"@ + seq![' '];
    text::lemma_add_word(b4, "Rec:"@, ' ');
    let b5 = b4 + "Rec:"@ + seq![' '];
    assert(a + "ROWCOPY DETECTE - ID Rec: "@ =~= b5);
    text::lemma_add_word(b5, id, ' ');
    let b6 = b5 + id + seq![' '];
    reveal_strlit(" | CPU: ");
    reveal_strlit("|");
    reveal_strlit("CPU:");
    text::lemma_add_word(b6, "|"@, ' ');
    let b7 = b6 + "|"@ + seq![' '];
    text::lemma_add_word(b7, "CPU:"@, ' ');
    let b8 = b7 + "CPU:"@ + seq![' '];
    assert(b5 + id + " | CPU: "@ =~= b8);
    reveal_strlit("\n");
    text::lemma_add_word(b8, cpu, '\n');
    let b9 = b8 + cpu + seq!['\n'];
    assert(b8 + cpu + "\n"@ =~= b9);
    let first_line = b8 + cpu + "\n"@;
    let addresses = report::addresses_line(event.from, event.to);
    text::law_words_of_two(first_line, addresses);
    let g = first_line + addresses;
    assert(g.last() == addresses.last());
    reveal_strlit("Nombre d'accès intercepte: ");
    reveal_strlit("Nombre");
    reveal_strlit("d'accès");
    reveal_strlit("intercepte:");
    text::lemma_add_word(g, "Nombre"@, ' ');
    let b10 = g + "Nombre"@ + seq![' '];
    text::lemma_add_word(b10, "d'accès"@, ' ');
    let b11 = b10 + "d'accès"@ + seq![' '];
    text::lemma_add_word(b11, "intercepte:"@, ' ');
    let b12 = b11 + "intercepte:"@ + seq![' '];
    assert(g + "Nombre d'accès intercepte: "@ =~= b12);
    reveal_strlit("\n");
    text::lemma_add_word(b12, count, '\n');
    let b13 = b12 + count + seq!['\n'];
    assert(b12 + count + "\n"@ =~= b13);
    let under = report::RULE@.drop_last();
    text::lemma_add_word(b13, under, '\n');
    let head = b13 + under + seq!['\n'];
    assert(b13 + report::RULE@ =~= head);
    let words = text::words(head);
    assert(words.subrange(10, 17) =~= text::words(addresses));
    head
}

/// Law: what a report says of a completed copy can be read back: its identity, its processor, its
/// two whole addresses, the number of its accesses, and then the line of each of its accesses, in
/// order.
pub proof fn law_event_text(event: Completed)
    ensures
        ({
            let words = text::words(rowclone2::event_text(event));
            &&& words.len() == 22 + 15 * event.records.len()
            &&& words[5] == "Rec:"@
            &&& text::unsigned(words[6], 10, u64::MAX as nat) == Some(event.rec_id as nat)
            &&& words[8] == "CPU:"@
            &&& text::unsigned(words[9], 10, u64::MAX as nat) == Some(event.cpu as nat)
            &&& text::hex_address(words[12]) == Some(event.from as nat)
            &&& text::hex_address(words[16]) == Some(event.to as nat)
            &&& text::unsigned(words[20], 10, event.removed_accesses_count) == Some(
                event.removed_accesses_count,
            )
            &&& forall|j: int|
                0 <= j < event.records.len() ==> #[trigger] words.subrange(
                    22 + 15 * j,
                    37 + 15 * j,
                ) == text::words(report::access_line(text::decimal_digits(j as nat), event.records[j]))
        }),
{
    let n = event.records.len() as int;
    let head = lemma_head(event);
    let all = rowclone2::accesses_text(event.records, n);
    law_accesses_text(event.records, n);
    text::law_words_of_two(head, all);
    let words = text::words(rowclone2::event_text(event));
    let first = text::words(head);
    let lines = text::words(all);
    assert(words =~= first + lines);
    let addresses = report::addresses_line(event.from, event.to);
    report::law_addresses_line(event.from, event.to);
    assert(words[12] == first.subrange(10, 17)[2]);
    assert(words[16] == first.subrange(10, 17)[6]);
    text::law_decimal_round_trip(event.rec_id as nat, u64::MAX as nat);
    text::law_decimal_round_trip(event.cpu as nat, u64::MAX as nat);
    text::law_decimal_round_trip(event.removed_accesses_count, event.removed_accesses_count);
    assert forall|j: int| 0 <= j < event.records.len() implies #[trigger] words.subrange(
        22 + 15 * j,
        37 + 15 * j,
    ) == text::words(report::access_line(text::decimal_digits(j as nat), event.records[j])) by {
        assert(words.subrange(22 + 15 * j, 37 + 15 * j) =~= lines.subrange(15 * j, 15 * j + 15));
    }
}

/// Law: a report says of each completed copy what it says of it alone, in the order of the copies.
pub proof fn law_events_text(a: Seq<Completed>, b: Seq<Completed>)
    ensures
        rowclone2::events_text(a + b) == rowclone2::events_text(a) + rowclone2::events_text(b),
        b.len() == 0 ==> rowclone2::events_text(b) == Seq::<char>::empty(),
        b.len() == 1 ==> rowclone2::events_text(b) == rowclone2::event_text(b[0]),
    decreases b.len(),
{
    if b.len() == 0 {
        assert(a + b =~= a);
        assert(rowclone2::events_text(a) + Seq::<char>::empty() =~= rowclone2::events_text(a));
    } else {
        law_events_text(a, b.drop_last());
        assert((a + b).drop_last() =~= a + b.drop_last());
        assert(rowclone2::events_text(a + b) =~= rowclone2::events_text(a) + rowclone2::events_text(b));
        if b.len() == 1 {
            assert(b.drop_last() =~= Seq::<Completed>::empty());
            assert(rowclone2::events_text(b.drop_last()) =~= Seq::<char>::empty());
            assert(rowclone2::events_text(b) =~= rowclone2::event_text(b[0]));
        }
    }
}

/// Law: the text of a record for messages can be read back: its command,
/// its processor, its size, its operation and its two whole addresses stand in it, each behind its
/// label.
pub proof fn law_debug_text(record: rowclone2::KernelRecord)
    requires
        text::is_word(record.command@),
        !text::white_space(record.operation),
    ensures
        ({
            let words = text::words(record.debug_view());
            &&& words.len() == 14
            &&& words[2].drop_last() == record.command@
            &&& words[3] == "cpu:"@
            &&& text::unsigned(words[4].drop_last(), 10, u64::MAX as nat) == Some(record.cpu as nat)
            &&& words[5] == "size:"@
            &&& text::unsigned(words[6].drop_last(), 10, u64::MAX as nat) == Some(record.size as nat)
            &&& words[7] == "op:"@
            &&& words[8] == seq![record.operation, ',']
            &&& words[9] == "kernel_address:"@
            &&& text::hex_address(words[10].drop_last()) == Some(record.kernel_address as nat)
            &&& words[11] == "user_address:"@
            &&& text::hex_address(words[12]) == Some(record.user_address as nat)
        }),
{
    reveal_strlit("KernelRecord {command: ");
    reveal_strlit("KernelRecord");
    reveal_strlit("{command:");
    let none = Seq::<char>::empty();
    assert(text::words(none) =~= Seq::<Seq<char>>::empty());
    text::lemma_add_word(none, "KernelRecord"@, ' ');
    let a0 = none + "KernelRecord"@ + seq![' '];
    text::lemma_add_word(a0, "{command:"@, ' ');
    let a1 = a0 + "{command:"@ + seq![' '];
    assert("KernelRecord {command: "@ =~= a1);
    let command = record.command@;
    let f0 = command;
    reveal_strlit(", cpu: ");
    reveal_strlit("cpu:");
    assert(", cpu: "@ =~= seq![',', ' '] + "cpu:"@ + seq![' ']);
    text::lemma_add_item(a1, f0, "cpu:"@, ", cpu: "@);
    let t0 = a1 + f0 + ", cpu: "@;
    text::lemma_decimal_is_word(record.cpu as nat);
    text::law_decimal_round_trip(record.cpu as nat, u64::MAX as nat);
    let f1 = text::decimal_digits(record.cpu as nat);
    reveal_strlit(", size: ");
    reveal_strlit("size:");
    assert(", size: "@ =~= seq![',', ' '] + "size:"@ + seq![' ']);
    text::lemma_add_item(t0, f1, "size:"@, ", size: "@);
    let t1 = t0 + f1 + ", size: "@;
    text::lemma_decimal_is_word(record.size as nat);
    text::law_decimal_round_trip(record.size as nat, u64::MAX as nat);
    let f2 = text::decimal_digits(record.size as nat);
    reveal_strlit(", op: ");
    reveal_strlit("op:");
    assert(", op: "@ =~= seq![',', ' '] + "op:"@ + seq![' ']);
    text::lemma_add_item(t1, f2, "op:"@, ", op: "@);
    let t2 = t1 + f2 + ", op: "@;
    let op = seq![record.operation];
    assert(text::is_word(op));
    let f3 = op;
    reveal_strlit(", kernel_address: ");
    reveal_strlit("kernel_address:");
    assert(", kernel_address: "@ =~= seq![',', ' '] + "kernel_address:"@ + seq![' ']);
    text::lemma_add_item(t2, f3, "kernel_address:"@, ", kernel_address: "@);
    let t3 = t2 + f3 + ", kernel_address: "@;
    text::lemma_address_is_word(record.kernel_address);
    text::law_address_round_trip(record.kernel_address);
    let f4 = text::address_text(record.kernel_address);
    reveal_strlit(", user_address: ");
    reveal_strlit("user_address:");
    assert(", user_address: "@ =~= seq![',', ' '] + "user_address:"@ + seq![' ']);
    text::lemma_add_item(t3, f4, "user_address:"@, ", user_address: "@);
    let t4 = t3 + f4 + ", user_address: "@;
    text::lemma_address_is_word(record.user_address);
    text::law_address_round_trip(record.user_address);
    let f5 = text::address_text(record.user_address);
    text::lemma_add_end(t4, f5);
    assert(record.debug_view() == t4 + f5 + " }"@);
    let words = text::words(record.debug_view());
    assert(words[8] =~= seq![record.operation, ',']);
    assert(words[2].drop_last() =~= f0);
    assert(words[4].drop_last() =~= f1);
    assert(words[6].drop_last() =~= f2);
    assert(words[10].drop_last() =~= f4);
}

} // verus!
