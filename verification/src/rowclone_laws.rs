//! What holds of every trace that is processed with row copies.
use crate::copy_laws;
use crate::copy_window;
use crate::copy_window::{Announcement, KernelLine, WindowRecord};
use crate::log_parser;
use crate::log_parser::LogRecord;
use crate::memory_access;
use crate::memory_access::{MemRecord, MemoryAccess};
use crate::rowclone;
use crate::rowclone::{Copying, Progress, RowcloneEvent};
use crate::text;
use vstd::prelude::*;

verus! {

/// The accesses at some positions of a trace.
pub open spec fn accesses_at(history: Seq<LogRecord>, indices: Seq<usize>) -> Seq<LogRecord> {
    Seq::new(indices.len(), |j: int| history[indices[j] as int])
}

/// What holds of a started copy after `k` accesses: it knows where it started, its accesses are
/// those of one processor, from there on, and its stores go on without a gap from its target.
pub open spec fn copy_consistent(copy: Copying, history: Seq<LogRecord>, k: int) -> bool {
    &&& copy.first_global_idx < k
    &&& rowclone::includes(copy.indices, copy.first_global_idx as int)
    &&& forall|j: int|
        0 <= j < copy.indices.len() ==> copy.first_global_idx <= #[trigger] copy.indices[j] < k
            && history[copy.indices[j] as int].cpu == copy.cpu
    &&& copy_laws::without_gap(accesses_at(history, copy.indices), 1, copy.to)
    &&& copy.current_to == copy_laws::wrapped(
        copy.to + copy_laws::moved(accesses_at(history, copy.indices), 1),
    )
}

/// Whether a started copy was announced.
pub open spec fn copy_announced(copy: Copying, all: Seq<Announcement>) -> bool {
    exists|a: int|
        0 <= a < all.len() && (#[trigger] all[a]).rec_id == copy.rec_id && all[a].cpu == copy.cpu
            && all[a].source == Some(copy.from) && all[a].target == copy.to && all[a].size
            == copy.size
}

/// Whether a copy of a processor with two addresses was announced, and the bytes written reach its
/// size; the latter is said of the pages that do not reach beyond the last address.
pub open spec fn fills_announced(event: RowcloneEvent, all: Seq<Announcement>, written: nat) -> bool {
    exists|a: int|
        0 <= a < all.len() && (#[trigger] all[a]).cpu == event.cpu && all[a].source == Some(
            event.from,
        ) && all[a].target == event.to && (event.to + all[a].size <= u64::MAX ==> written
            >= all[a].size)
}

/// Whether a completed copy consists of the accesses at some positions: they are those of its
/// processor, between its first and its last access, and their stores go on without a gap from its
/// target and fill what was announced.
pub open spec fn made_of(
    event: RowcloneEvent,
    history: Seq<LogRecord>,
    all: Seq<Announcement>,
    indices: Seq<usize>,
) -> bool {
    &&& forall|j: int|
        0 <= j < indices.len() ==> event.target_global_idx <= #[trigger] indices[j]
            <= event.end_global_idx && history[indices[j] as int].cpu == event.cpu
    &&& copy_laws::without_gap(accesses_at(history, indices), 1, event.to)
    &&& fills_announced(event, all, copy_laws::moved(accesses_at(history, indices), 1))
}

/// Whether a completed copy was announced and really done by accesses of the trace.
pub open spec fn event_done(
    event: RowcloneEvent,
    history: Seq<LogRecord>,
    all: Seq<Announcement>,
) -> bool {
    exists|indices: Seq<usize>| #[trigger] made_of(event, history, all, indices)
}

/// Whether the access at a position lies within a completed copy of its processor.
pub open spec fn within_completed(
    events: Seq<RowcloneEvent>,
    history: Seq<LogRecord>,
    i: int,
) -> bool {
    exists|e: int|
        0 <= e < events.len() && (#[trigger] events[e]).target_global_idx <= i
            <= events[e].end_global_idx && events[e].cpu == history[i].cpu
}

/// What holds of the progress after `k` accesses of a trace with the announcements `all`.
pub open spec fn consistent(
    p: Progress<Announcement>,
    history: Seq<LogRecord>,
    k: int,
    all: Seq<Announcement>,
) -> bool {
    &&& p.valid.len() == history.len()
    // Every started copy was announced, and its accesses are in order.
    &&& forall|c: int|
        0 <= c < p.active.len() ==> copy_consistent(#[trigger] p.active[c], history, k)
            && copy_announced(p.active[c], all)
    // No announcement has two started copies, and no access starts two copies.
    &&& forall|c: int, d: int|
        0 <= c < d < p.active.len() ==> (#[trigger] p.active[c]).rec_id != (
        #[trigger] p.active[d]).rec_id && p.active[c].first_global_idx
            != p.active[d].first_global_idx
    // Every completed copy was announced and done, and its first access is replaced.
    &&& forall|e: int|
        0 <= e < p.events.len() ==> (#[trigger] p.events[e]).target_global_idx
            <= p.events[e].end_global_idx < k && p.valid[p.events[e].target_global_idx as int]
            && event_done(p.events[e], history, all)
    &&& forall|e: int, f: int|
        0 <= e < f < p.events.len() ==> (#[trigger] p.events[e]).target_global_idx != (
        #[trigger] p.events[f]).target_global_idx
    &&& forall|c: int, e: int|
        0 <= c < p.active.len() && 0 <= e < p.events.len() ==> (
        #[trigger] p.active[c]).first_global_idx != (#[trigger] p.events[e]).target_global_idx
    // Only accesses within a completed copy are replaced.
    &&& forall|i: int|
        0 <= i < p.valid.len() && #[trigger] p.valid[i] ==> within_completed(p.events, history, i)
    // Nothing but what was announced is in the window or behind it.
    &&& copy_laws::only_announced(all, p.window, p.log)
}

proof fn lemma_includes_push(indices: Seq<usize>, idx: usize, i: int)
    ensures
        rowclone::includes(indices.push(idx), i) == (rowclone::includes(indices, i) || idx == i),
{
    let more = indices.push(idx);
    if rowclone::includes(indices, i) {
        let j = choose|j: int| 0 <= j < indices.len() && #[trigger] indices[j] == i;
        assert(more[j] == i);
    }
    if idx == i {
        assert(more[indices.len() as int] == i);
    }
    if rowclone::includes(more, i) && idx != i {
        let j = choose|j: int| 0 <= j < more.len() && #[trigger] more[j] == i;
        assert(indices[j] == i);
    }
}

/// One more access keeps a copy consistent.
proof fn lemma_copy_push(copy: Copying, more: Copying, history: Seq<LogRecord>, idx: usize)
    requires
        0 <= idx < history.len(),
        copy_consistent(copy, history, idx + 1),
        more.indices == copy.indices.push(idx),
        more.first_global_idx == copy.first_global_idx,
        more.cpu == copy.cpu,
        more.to == copy.to,
        history[idx as int].cpu == copy.cpu,
        if history[idx as int].store == 1 {
            history[idx as int].address == copy.current_to && more.current_to
                == copy.current_to.wrapping_add(
                log_parser::access_bytes(history[idx as int].size),
            )
        } else {
            more.current_to == copy.current_to
        },
    ensures
        copy_consistent(more, history, idx + 1),
{
    let access = history[idx as int];
    let accesses = accesses_at(history, copy.indices);
    lemma_includes_push(copy.indices, idx, copy.first_global_idx as int);
    assert forall|j: int| 0 <= j < more.indices.len() implies more.first_global_idx
        <= #[trigger] more.indices[j] < idx + 1 && history[more.indices[j] as int].cpu
        == more.cpu by {
        if j < copy.indices.len() {
            assert(more.indices[j] == copy.indices[j]);
        }
    }
    assert(accesses_at(history, more.indices) =~= accesses.push(access));
    copy_laws::lemma_without_gap_push(accesses, access, 1, copy.to);
    copy_laws::lemma_moved_push(accesses, access, 1);
    copy_laws::lemma_wrapped_add(
        copy.to + copy_laws::moved(accesses, 1),
        log_parser::access_bytes(access.size),
    );
}

/// A copy that an access starts is consistent.
proof fn lemma_new_copy(access: LogRecord, a: Announcement, history: Seq<LogRecord>, idx: usize)
    requires
        0 <= idx < history.len(),
        history[idx as int] == access,
        rowclone::is_start(access, a),
    ensures
        copy_consistent(rowclone::new_copy(access, a, idx), history, idx + 1),
{
    let copy = rowclone::new_copy(access, a, idx);
    assert(copy.indices[0] == idx);
    assert(accesses_at(history, copy.indices) =~= seq![access]);
    copy_laws::lemma_moved_one(access, 1);
    copy_laws::lemma_without_gap_one(access, 1, copy.to);
}

/// What an access that starts copies leaves as it was.
proof fn lemma_starting(
    copies: Seq<Copying>,
    access: LogRecord,
    window: Seq<Announcement>,
    idx: usize,
    history: Seq<LogRecord>,
    all: Seq<Announcement>,
)
    requires
        0 <= idx < history.len(),
        history[idx as int] == access,
        copy_window::ids_increase(all),
        forall|c: int|
            0 <= c < copies.len() ==> copy_consistent(#[trigger] copies[c], history, idx + 1)
                && copy_announced(copies[c], all),
        forall|w: int| 0 <= w < window.len() ==> copy_window::among(all, #[trigger] window[w]),
    ensures
        ({
            let r = rowclone::starting(copies, access, window, idx).0;
            &&& copies.len() <= r.len() <= copies.len() + 1
            &&& forall|c: int|
                0 <= c < copies.len() ==> (#[trigger] r[c]).first_global_idx
                    == copies[c].first_global_idx && r[c].rec_id == copies[c].rec_id
            &&& forall|c: int|
                0 <= c < r.len() ==> copy_consistent(#[trigger] r[c], history, idx + 1)
                    && copy_announced(r[c], all)
            &&& r.len() > copies.len() ==> r[copies.len() as int].first_global_idx == idx
            &&& r.len() > copies.len() ==> forall|c: int|
                0 <= c < copies.len() ==> (#[trigger] copies[c]).rec_id
                    != r[copies.len() as int].rec_id
        }),
    decreases window.len(),
{
    if window.len() > 0 {
        let a = window[0];
        let m = rowclone::started(copies, a.rec_id, 0);
        rowclone::lemma_started(copies, a.rec_id, 0);
        assert forall|w: int| 0 <= w < window.skip(1).len() implies copy_window::among(
            all,
            #[trigger] window.skip(1)[w],
        ) by {
            assert(window.skip(1)[w] == window[w + 1]);
        }
        let y = choose|y: int|
            0 <= y < all.len() && copy_window::same_copy(a, (#[trigger] all[y]).announced());
        assert(copy_window::among(all, window[0]));
        if rowclone::is_start(access, a) && m >= copies.len() {
            let c = rowclone::new_copy(access, a, idx);
            lemma_new_copy(access, a, history, idx);
            assert(all[y].rec_id == c.rec_id);
        } else if rowclone::is_start(access, a) && copies[m].current_to == copies[m].to {
            let again = Copying { indices: copies[m].indices.push(idx), ..copies[m] };
            let x = choose|x: int|
                0 <= x < all.len() && (#[trigger] all[x]).rec_id == copies[m].rec_id && all[x].cpu
                    == copies[m].cpu && all[x].source == Some(copies[m].from) && all[x].target
                    == copies[m].to && all[x].size == copies[m].size;
            assert(all[x].id() == all[y].id());
            assert(x == y);
            lemma_copy_push(copies[m], again, history, idx);
            assert(copy_announced(again, all)) by {
                assert(all[x].rec_id == again.rec_id);
            }
            lemma_starting(copies.update(m, again), access, window.skip(1), idx, history, all);
            assert forall|c: int| 0 <= c < copies.len() implies (#[trigger] copies[c]).rec_id
                == copies.update(m, again)[c].rec_id by {}
        } else {
            lemma_starting(copies, access, window.skip(1), idx, history, all);
        }
    }
}

proof fn lemma_after_start(
    p: Progress<Announcement>,
    history: Seq<LogRecord>,
    idx: usize,
    all: Seq<Announcement>,
)
    requires
        0 <= idx < history.len(),
        copy_window::ids_increase(all),
        consistent(p, history, idx as int, all),
    ensures
        consistent(
            Progress {
                active: rowclone::starting(p.active, history[idx as int], p.window, idx).0,
                ..p
            },
            history,
            idx + 1,
            all,
        ),
{
    let access = history[idx as int];
    let w = p.window;
    let q = Progress { active: rowclone::starting(p.active, access, w, idx).0, ..p };
    assert forall|i: int| 0 <= i < w.len() implies copy_window::among(all, #[trigger] w[i]) by {
        assert(copy_window::upcoming(p.window, p.log)[i] == w[i]);
    }
    lemma_starting(p.active, access, w, idx, history, all);
    assert forall|c: int, d: int| 0 <= c < d < q.active.len() implies (
    #[trigger] q.active[c]).rec_id != (#[trigger] q.active[d]).rec_id
        && q.active[c].first_global_idx != q.active[d].first_global_idx by {
        assert(p.active[c].rec_id == q.active[c].rec_id);
        if d < p.active.len() {
            assert(p.active[d].rec_id == q.active[d].rec_id);
        }
    }
    assert forall|c: int, e: int| 0 <= c < q.active.len() && 0 <= e < q.events.len() implies (
    #[trigger] q.active[c]).first_global_idx != (#[trigger] q.events[e]).target_global_idx by {
        if c < p.active.len() {
            assert(p.active[c].first_global_idx == q.active[c].first_global_idx);
        }
    }
}

proof fn lemma_after_step(
    p: Progress<Announcement>,
    history: Seq<LogRecord>,
    idx: usize,
    all: Seq<Announcement>,
    m: int,
    copy: Copying,
)
    requires
        0 <= idx < history.len(),
        consistent(p, history, idx as int, all),
        0 <= m < p.active.len(),
        copy.rec_id == p.active[m].rec_id,
        copy.first_global_idx == p.active[m].first_global_idx,
        copy_consistent(copy, history, idx + 1),
        copy_announced(copy, all),
    ensures
        consistent(Progress { active: p.active.update(m, copy), ..p }, history, idx + 1, all),
{
    let q = Progress { active: p.active.update(m, copy), ..p };
    assert forall|c: int, d: int| 0 <= c < d < q.active.len() implies (
    #[trigger] q.active[c]).rec_id != (#[trigger] q.active[d]).rec_id
        && q.active[c].first_global_idx != q.active[d].first_global_idx by {
        assert(p.active[c].rec_id != p.active[d].rec_id);
    }
    assert forall|c: int, e: int| 0 <= c < q.active.len() && 0 <= e < q.events.len() implies (
    #[trigger] q.active[c]).first_global_idx != (#[trigger] q.events[e]).target_global_idx by {
        assert(p.active[c].first_global_idx != p.events[e].target_global_idx);
    }
}

proof fn lemma_after_access(
    p: Progress<Announcement>,
    history: Seq<LogRecord>,
    idx: usize,
    all: Seq<Announcement>,
)
    requires
        0 <= idx < history.len(),
        copy_window::ids_increase(all),
        consistent(p, history, idx as int, all),
    ensures
        consistent(
            rowclone::after_access(p, history[idx as int], idx),
            history,
            idx + 1,
            all,
        ),
{
    let access = history[idx as int];
    let m = rowclone::continued(p.active, access, 0);
    rowclone::lemma_continued(p.active, access, 0);
    if m >= p.active.len() {
        lemma_after_start(p, history, idx, all);
    } else {
        let old_copy = p.active[m];
        let copy = rowclone::advanced(old_copy, access, idx);
        assert(copy_consistent(old_copy, history, idx as int));
        lemma_copy_push(old_copy, copy, history, idx);
        assert(copy_announced(copy, all)) by {
            let x = choose|x: int|
                0 <= x < all.len() && (#[trigger] all[x]).rec_id == old_copy.rec_id && all[x].cpu
                    == old_copy.cpu && all[x].source == Some(old_copy.from) && all[x].target
                    == old_copy.to && all[x].size == old_copy.size;
            assert(all[x].rec_id == copy.rec_id);
        }
        if rowclone::complete(copy) {
            lemma_after_completion(p, history, idx, all, m, copy);
        } else {
            lemma_after_step(p, history, idx, all, m, copy);
        }
    }
}

proof fn lemma_after_completion(
    p: Progress<Announcement>,
    history: Seq<LogRecord>,
    idx: usize,
    all: Seq<Announcement>,
    m: int,
    copy: Copying,
)
    requires
        0 <= idx < history.len(),
        consistent(p, history, idx as int, all),
        m == rowclone::continued(p.active, history[idx as int], 0),
        0 <= m < p.active.len(),
        copy == rowclone::advanced(p.active[m], history[idx as int], idx),
        rowclone::complete(copy),
        copy_consistent(copy, history, idx + 1),
        copy_announced(copy, all),
    ensures
        consistent(
            rowclone::after_access(p, history[idx as int], idx),
            history,
            idx + 1,
            all,
        ),
{
    let q = rowclone::after_access(p, history[idx as int], idx);
    let event = rowclone::completed(copy, idx);
    let n = p.events.len() as int;
    assert(q.events == p.events.push(event));
    assert(q.events[n] == event);
    assert forall|c: int| 0 <= c < q.active.len() implies copy_consistent(
        #[trigger] q.active[c],
        history,
        idx + 1,
    ) && copy_announced(q.active[c], all) by {
        let d = if c < m {
            c
        } else {
            c + 1
        };
        assert(q.active[c] == p.active[d]);
    }
    assert forall|c: int, d: int| 0 <= c < d < q.active.len() implies (
    #[trigger] q.active[c]).rec_id != (#[trigger] q.active[d]).rec_id
        && q.active[c].first_global_idx != q.active[d].first_global_idx by {
        let x = if c < m {
            c
        } else {
            c + 1
        };
        let y = if d < m {
            d
        } else {
            d + 1
        };
        assert(q.active[c] == p.active[x]);
        assert(q.active[d] == p.active[y]);
    }
    assert(made_of(event, history, all, copy.indices)) by {
        let written = copy_laws::moved(accesses_at(history, copy.indices), 1);
        let x = choose|x: int|
            0 <= x < all.len() && (#[trigger] all[x]).rec_id == copy.rec_id && all[x].cpu
                == copy.cpu && all[x].source == Some(copy.from) && all[x].target == copy.to
                && all[x].size == copy.size;
        assert(all[x].cpu == event.cpu);
        if copy.to + copy.size <= u64::MAX {
            copy_laws::lemma_filled(copy.to, copy.size, written);
        }
    }
    assert forall|e: int| 0 <= e < q.events.len() implies (#[trigger] q.events[e]).target_global_idx
        <= q.events[e].end_global_idx < idx + 1 && q.valid[q.events[e].target_global_idx as int]
        && event_done(q.events[e], history, all) by {
        if e < n {
            assert(q.events[e] == p.events[e]);
        }
    }
    assert forall|e: int, f: int| 0 <= e < f < q.events.len() implies (
    #[trigger] q.events[e]).target_global_idx != (#[trigger] q.events[f]).target_global_idx by {
        assert(q.events[e] == p.events[e]);
        if f < n {
            assert(q.events[f] == p.events[f]);
        } else {
            assert(p.active[m].first_global_idx != p.events[e].target_global_idx);
        }
    }
    assert forall|c: int, e: int| 0 <= c < q.active.len() && 0 <= e < q.events.len() implies (
    #[trigger] q.active[c]).first_global_idx != (#[trigger] q.events[e]).target_global_idx by {
        let x = if c < m {
            c
        } else {
            c + 1
        };
        assert(q.active[c] == p.active[x]);
        if e < n {
            assert(p.active[x].first_global_idx != p.events[e].target_global_idx);
        } else {
            assert(p.active[x].first_global_idx != p.active[m].first_global_idx);
        }
    }
    assert forall|i: int| 0 <= i < q.valid.len() && #[trigger] q.valid[i] implies within_completed(
        q.events,
        history,
        i,
    ) by {
        if p.valid[i] {
            let e = choose|e: int|
                0 <= e < p.events.len() && (#[trigger] p.events[e]).target_global_idx <= i
                    <= p.events[e].end_global_idx && p.events[e].cpu == history[i].cpu;
            assert(q.events[e] == p.events[e]);
        } else {
            let j = choose|j: int| 0 <= j < copy.indices.len() && #[trigger] copy.indices[j] == i;
            assert(copy.first_global_idx <= copy.indices[j] < idx + 1);
            assert(q.events[n].target_global_idx <= i);
        }
    }
    copy_laws::lemma_only_announced_completion(all, p.window, p.log, copy.rec_id);
}

/// Law: whatever the trace and the announcements are, as long as no two announcements have one
/// identity, the processing stays consistent: only announced copies are started and completed, a
/// completed copy is made of accesses of the trace whose stores fill what was announced, an
/// announcement never has two started copies, an access never starts two, and an access is only
/// replaced if it lies within a completed copy of its processor.
pub proof fn law_consistent(
    history: Seq<LogRecord>,
    window: Seq<Announcement>,
    log: Seq<KernelLine<Announcement>>,
    k: int,
)
    requires
        0 <= k <= history.len() <= usize::MAX,
        copy_window::ids_increase(copy_window::upcoming(window, log)),
    ensures
        consistent(
            rowclone::progress(rowclone::beginning(history.len(), window, log), history, k),
            history,
            k,
            copy_window::upcoming(window, log),
        ),
    decreases k,
{
    let all = copy_window::upcoming(window, log);
    let p = rowclone::beginning(history.len(), window, log);
    if k == 0 {
        copy_laws::lemma_all_announced(all);
    } else {
        law_consistent(history, window, log, k - 1);
        lemma_after_access(
            rowclone::progress(p, history, k - 1),
            history,
            (k - 1) as usize,
            all,
        );
    }
}

/// The number of completed copies that start before a position.
spec fn starts_before(events: Seq<RowcloneEvent>, k: int) -> nat
    decreases events.len(),
{
    if events.len() == 0 {
        0
    } else {
        starts_before(events.drop_last(), k) + if events.last().target_global_idx < k {
            1nat
        } else {
            0nat
        }
    }
}

spec fn starts_at(events: Seq<RowcloneEvent>, k: int) -> bool {
    exists|e: int| 0 <= e < events.len() && (#[trigger] events[e]).target_global_idx == k
}

proof fn lemma_starts_before_step(events: Seq<RowcloneEvent>, k: int)
    requires
        forall|e: int, f: int|
            0 <= e < f < events.len() ==> (#[trigger] events[e]).target_global_idx != (
            #[trigger] events[f]).target_global_idx,
    ensures
        starts_before(events, k + 1) == starts_before(events, k) + if starts_at(events, k) {
            1nat
        } else {
            0nat
        },
    decreases events.len(),
{
    if events.len() > 0 {
        let rest = events.drop_last();
        lemma_starts_before_step(rest, k);
        if starts_at(rest, k) {
            let e = choose|e: int| 0 <= e < rest.len() && (#[trigger] rest[e]).target_global_idx == k;
            assert(events[e].target_global_idx == k);
            assert(events[events.len() - 1].target_global_idx != k);
        } else if events.last().target_global_idx == k {
            assert(events[events.len() - 1].target_global_idx == k);
        } else if starts_at(events, k) {
            let e = choose|e: int|
                0 <= e < events.len() && (#[trigger] events[e]).target_global_idx == k;
            assert(rest[e].target_global_idx == k);
        }
    }
}

proof fn lemma_starts_before_all(events: Seq<RowcloneEvent>, k: int)
    ensures
        (forall|e: int|
            0 <= e < events.len() ==> (#[trigger] events[e]).target_global_idx < k)
            ==> starts_before(events, k) == events.len(),
        (forall|e: int|
            0 <= e < events.len() ==> (#[trigger] events[e]).target_global_idx >= k)
            ==> starts_before(events, k) == 0,
    decreases events.len(),
{
    if events.len() > 0 {
        let rest = events.drop_last();
        lemma_starts_before_all(rest, k);
        assert(events[events.len() - 1] == events.last());
        assert(forall|e: int| 0 <= e < rest.len() ==> #[trigger] rest[e] == events[e]);
    }
}

proof fn lemma_event_at(events: Seq<RowcloneEvent>, idx: int, k: int)
    requires
        0 <= k <= events.len(),
    ensures
        k <= rowclone::event_at(events, idx, k) <= events.len(),
        rowclone::event_at(events, idx, k) < events.len() ==> events[rowclone::event_at(
            events,
            idx,
            k,
        )].target_global_idx == idx,
        rowclone::event_at(events, idx, k) >= events.len() ==> forall|e: int|
            k <= e < events.len() ==> (#[trigger] events[e]).target_global_idx != idx,
    decreases events.len() - k,
{
    if k < events.len() && events[k].target_global_idx != idx {
        lemma_event_at(events, idx, k + 1);
    }
}

/// The bounds of a cropped trace take in every completed copy.
proof fn lemma_bounds(events: Seq<RowcloneEvent>)
    requires
        events.len() > 0,
    ensures
        forall|e: int|
            0 <= e < events.len() ==> rowclone::first_start(events) <= (
            #[trigger] events[e]).target_global_idx && events[e].end_global_idx
                <= rowclone::last_end(events),
    decreases events.len(),
{
    if events.len() > 1 {
        let rest = events.drop_last();
        lemma_bounds(rest);
        assert forall|e: int| 0 <= e < events.len() implies rowclone::first_start(events) <= (
        #[trigger] events[e]).target_global_idx && events[e].end_global_idx <= rowclone::last_end(
            events,
        ) by {
            if e < rest.len() {
                assert(rest[e] == events[e]);
            }
        }
    }
}

proof fn lemma_row_copies_add(a: Seq<MemoryAccess>, b: Seq<MemoryAccess>)
    ensures
        rowclone::row_copies(a + b) == rowclone::row_copies(a) + rowclone::row_copies(b),
    decreases b.len(),
{
    if b.len() == 0 {
        assert(a + b =~= a);
    } else {
        assert((a + b).drop_last() =~= a + b.drop_last());
        lemma_row_copies_add(a, b.drop_last());
    }
}

proof fn lemma_row_copies(
    history: Seq<LogRecord>,
    valid: Seq<bool>,
    events: Seq<RowcloneEvent>,
    within: (usize, usize),
    k: int,
)
    requires
        0 <= k <= history.len(),
        forall|e: int, f: int|
            0 <= e < f < events.len() ==> (#[trigger] events[e]).target_global_idx != (
            #[trigger] events[f]).target_global_idx,
        forall|e: int|
            0 <= e < events.len() ==> within.0 <= (#[trigger] events[e]).target_global_idx
                <= within.1 && valid[events[e].target_global_idx as int],
    ensures
        ({
            let out = rowclone::replaced(history, valid, events, within, k);
            &&& rowclone::row_copies(out) == starts_before(events, k)
            &&& forall|e: int|
                0 <= e < events.len() && (#[trigger] events[e]).target_global_idx < k
                    ==> out.contains(MemoryAccess::Rowclone(rowclone::row_copy(events[e])))
        }),
    decreases k,
{
    if k == 0 {
        lemma_starts_before_all(events, 0);
    } else {
        let i = k - 1;
        lemma_row_copies(history, valid, events, within, i);
        lemma_starts_before_step(events, i);
        lemma_event_at(events, i, 0);
        let before = rowclone::replaced(history, valid, events, within, i);
        let here = rowclone::replacement(history, valid, events, i);
        let out = rowclone::replaced(history, valid, events, within, k);
        lemma_row_copies_add(before, here);
        let at = rowclone::event_at(events, i, 0);
        assert(starts_at(events, i) == (at < events.len()));
        if at < events.len() {
            assert(valid[events[at].target_global_idx as int]);
        }
        assert(rowclone::row_copies(here) == if at < events.len() {
            1nat
        } else {
            0nat
        }) by {
            reveal_with_fuel(rowclone::row_copies, 2);
            if here.len() > 0 {
                assert(here.drop_last() =~= Seq::<MemoryAccess>::empty());
            }
        }
        assert forall|e: int|
            0 <= e < events.len() && (
            #[trigger] events[e]).target_global_idx < k implies out.contains(
            MemoryAccess::Rowclone(rowclone::row_copy(events[e])),
        ) by {
            let r = MemoryAccess::Rowclone(rowclone::row_copy(events[e]));
            if events[e].target_global_idx < i {
                let j = choose|j: int| 0 <= j < before.len() && before[j] == r;
                assert(out[j] == r);
            } else {
                assert(at == e);
                assert(here[0] == r);
                assert(out[before.len() as int] == r);
            }
        }
    }
}

/// Law: every completed copy is written exactly once as a row copy, also where the trace is
/// cropped.
pub proof fn law_completed_written_once(
    history: Seq<LogRecord>,
    window: Seq<Announcement>,
    log: Seq<KernelLine<Announcement>>,
    crop: bool,
)
    requires
        history.len() <= usize::MAX,
        copy_window::ids_increase(copy_window::upcoming(window, log)),
    ensures
        ({
            let n = history.len() as int;
            let p = rowclone::progress(
                rowclone::beginning(history.len(), window, log),
                history,
                n,
            );
            let within = rowclone::bounds(p.events, n as usize, crop);
            let out = rowclone::replaced(history, p.valid, p.events, within, n);
            &&& rowclone::row_copies(out) == p.events.len()
            &&& forall|e: int|
                0 <= e < p.events.len() ==> out.contains(
                    MemoryAccess::Rowclone(rowclone::row_copy(#[trigger] p.events[e])),
                )
        }),
{
    let n = history.len() as int;
    let p = rowclone::progress(rowclone::beginning(history.len(), window, log), history, n);
    law_consistent(history, window, log, n);
    let within = rowclone::bounds(p.events, n as usize, crop);
    if p.events.len() > 0 {
        lemma_bounds(p.events);
    }
    lemma_row_copies(history, p.valid, p.events, within, n);
    lemma_starts_before_all(p.events, n);
}

/// The loads and stores of a processed trace.
pub open spec fn regulars(accesses: Seq<MemoryAccess>) -> Seq<MemRecord>
    decreases accesses.len(),
{
    if accesses.len() == 0 {
        Seq::empty()
    } else {
        match accesses.last() {
            MemoryAccess::Regular(m) => regulars(accesses.drop_last()).push(m),
            MemoryAccess::Rowclone(_) => regulars(accesses.drop_last()),
        }
    }
}

/// The first `k` accesses within the bounds that belong to no completed copy.
pub open spec fn kept(
    history: Seq<LogRecord>,
    valid: Seq<bool>,
    within: (usize, usize),
    k: int,
) -> Seq<MemRecord>
    decreases k,
{
    if k <= 0 {
        Seq::empty()
    } else if within.0 <= k - 1 <= within.1 && !valid[k - 1] {
        kept(history, valid, within, k - 1).push(memory_access::mem_record(history[k - 1]))
    } else {
        kept(history, valid, within, k - 1)
    }
}

/// Law: the loads and stores of the processed trace are those that belong to no completed copy, in
/// their order.
pub proof fn law_other_accesses_kept(
    history: Seq<LogRecord>,
    valid: Seq<bool>,
    events: Seq<RowcloneEvent>,
    within: (usize, usize),
    k: int,
)
    ensures
        regulars(rowclone::replaced(history, valid, events, within, k)) == kept(
            history,
            valid,
            within,
            k,
        ),
    decreases k,
{
    if k > 0 {
        law_other_accesses_kept(history, valid, events, within, k - 1);
        let before = rowclone::replaced(history, valid, events, within, k - 1);
        let here = rowclone::replacement(history, valid, events, k - 1);
        if within.0 <= k - 1 <= within.1 {
            let out = before + here;
            if here.len() > 0 {
                assert(out.drop_last() =~= before);
                assert(out.last() == here[0]);
            } else {
                assert(out =~= before);
            }
        }
    }
}

/// Law: a trace that is not cropped is written in full as the baseline.
pub proof fn law_baseline_in_full(history: Seq<LogRecord>, events: Seq<RowcloneEvent>, k: int)
    requires
        0 <= k <= history.len() <= usize::MAX,
    ensures
        rowclone::baseline(
            history,
            rowclone::bounds(events, history.len() as usize, false),
            k,
        ) == Seq::new(k as nat, |i: int| memory_access::mem_record(history[i])),
    decreases k,
{
    let within = rowclone::bounds(events, history.len() as usize, false);
    let whole = Seq::new(k as nat, |i: int| memory_access::mem_record(history[i]));
    if k > 0 {
        law_baseline_in_full(history, events, k - 1);
    }
    assert(rowclone::baseline(history, within, k) =~= whole);
}

/// Law: completed copies are never taken back, and replaced accesses stay replaced.
pub proof fn law_completed_stay<R: WindowRecord>(
    p: Progress<R>,
    access: LogRecord,
    idx: usize,
)
    ensures
        ({
            let q = rowclone::after_access(p, access, idx);
            &&& p.events.is_prefix_of(q.events)
            &&& q.valid.len() == p.valid.len()
            &&& forall|i: int| 0 <= i < p.valid.len() && p.valid[i] ==> #[trigger] q.valid[i]
        }),
{
    let q = rowclone::after_access(p, access, idx);
    assert(p.events =~= q.events.subrange(0, p.events.len() as int));
}

/// Law: where nothing is announced, no access is replaced.
pub proof fn law_nothing_announced(
    history: Seq<LogRecord>,
    log: Seq<KernelLine<Announcement>>,
    k: int,
)
    requires
        0 <= k,
    ensures
        ({
            let p = rowclone::beginning(history.len(), Seq::<Announcement>::empty(), log);
            rowclone::progress(p, history, k) == p
        }),
    decreases k,
{
    if k > 0 {
        law_nothing_announced(history, log, k - 1);
    }
}

/// Whether nothing was written by some started copies, and there is something left to write.
spec fn nothing_written(copies: Seq<Copying>) -> bool {
    forall|c: int|
        0 <= c < copies.len() ==> (#[trigger] copies[c]).current_to == copies[c].to
            && copies[c].size > 0 && copies[c].to + copies[c].size <= u64::MAX
}

proof fn lemma_starting_writes_nothing<R: WindowRecord>(
    copies: Seq<Copying>,
    access: LogRecord,
    window: Seq<R>,
    idx: usize,
)
    requires
        nothing_written(copies),
        forall|w: int|
            0 <= w < window.len() ==> (#[trigger] window[w]).announced().size > 0
                && window[w].announced().target + window[w].announced().size <= u64::MAX,
    ensures
        nothing_written(rowclone::starting(copies, access, window, idx).0),
    decreases window.len(),
{
    if window.len() > 0 {
        let a = window[0].announced();
        let m = rowclone::started(copies, a.rec_id, 0);
        rowclone::lemma_started(copies, a.rec_id, 0);
        assert forall|w: int| 0 <= w < window.skip(1).len() implies (
        #[trigger] window.skip(1)[w]).announced().size > 0 && window.skip(1)[w].announced().target
            + window.skip(1)[w].announced().size <= u64::MAX by {
            assert(window.skip(1)[w] == window[w + 1]);
        }
        lemma_starting_writes_nothing(copies, access, window.skip(1), idx);
        if rowclone::is_start(access, a) {
            if m >= copies.len() {
            } else {
                let again = Copying { indices: copies[m].indices.push(idx), ..copies[m] };
                assert(nothing_written(copies.update(m, again)));
                lemma_starting_writes_nothing(
                    copies.update(m, again),
                    access,
                    window.skip(1),
                    idx,
                );
            }
        }
    }
}

/// Law: without a store in the trace no copy is completed, and the window and the log stay as they
/// are. The announced copies are not empty and do not reach beyond the last address.
pub proof fn law_without_stores<R: WindowRecord>(
    history: Seq<LogRecord>,
    window: Seq<R>,
    log: Seq<KernelLine<R>>,
    k: int,
)
    requires
        0 <= k <= history.len(),
        forall|i: int| 0 <= i < history.len() ==> (#[trigger] history[i]).store != 1,
        forall|w: int|
            0 <= w < window.len() ==> (#[trigger] window[w]).announced().size > 0
                && window[w].announced().target + window[w].announced().size <= u64::MAX,
    ensures
        ({
            let start = rowclone::beginning(history.len(), window, log);
            let p = rowclone::progress(start, history, k);
            &&& p.valid == start.valid
            &&& p.events == start.events
            &&& p.window == window
            &&& p.log == log
        }),
{
    lemma_without_stores(history, window, log, k);
}

proof fn lemma_without_stores<R: WindowRecord>(
    history: Seq<LogRecord>,
    window: Seq<R>,
    log: Seq<KernelLine<R>>,
    k: int,
)
    requires
        0 <= k <= history.len(),
        forall|i: int| 0 <= i < history.len() ==> (#[trigger] history[i]).store != 1,
        forall|w: int|
            0 <= w < window.len() ==> (#[trigger] window[w]).announced().size > 0
                && window[w].announced().target + window[w].announced().size <= u64::MAX,
    ensures
        ({
            let start = rowclone::beginning(history.len(), window, log);
            let p = rowclone::progress(start, history, k);
            p == (Progress { active: p.active, ..start }) && nothing_written(p.active)
        }),
    decreases k,
{
    if k > 0 {
        lemma_without_stores(history, window, log, k - 1);
        let p = rowclone::progress(rowclone::beginning(history.len(), window, log), history, k - 1);
        let access = history[k - 1];
        rowclone::lemma_continued(p.active, access, 0);
        lemma_starting_writes_nothing(p.active, access, window, (k - 1) as usize);
    }
}

/// Law: without cropping, and without completed copies, all of a trace of `n` accesses is within
/// the bounds; else they reach from the first start of a completed copy to the last end of one.
pub proof fn law_bounds(events: Seq<RowcloneEvent>, n: usize, crop: bool)
    ensures
        ({
            let (first, last) = rowclone::bounds(events, n, crop);
            if crop && events.len() > 0 {
                &&& exists|e: int|
                    0 <= e < events.len() && (#[trigger] events[e]).target_global_idx == first
                &&& exists|e: int|
                    0 <= e < events.len() && (#[trigger] events[e]).end_global_idx == last
                &&& forall|e: int|
                    0 <= e < events.len() ==> first <= (#[trigger] events[e]).target_global_idx
                        && events[e].end_global_idx <= last
            } else {
                first == 0 && last == n
            }
        }),
{
    if events.len() > 0 {
        lemma_bounds(events);
        lemma_bounds_reached(events);
    }
}

proof fn lemma_bounds_reached(events: Seq<RowcloneEvent>)
    requires
        events.len() > 0,
    ensures
        exists|e: int|
            0 <= e < events.len() && (#[trigger] events[e]).target_global_idx
                == rowclone::first_start(events),
        exists|e: int|
            0 <= e < events.len() && (#[trigger] events[e]).end_global_idx == rowclone::last_end(
                events,
            ),
    decreases events.len(),
{
    let last = events.len() - 1;
    if events.len() == 1 {
        assert(events[0].target_global_idx == rowclone::first_start(events));
        assert(events[0].end_global_idx == rowclone::last_end(events));
    } else {
        let rest = events.drop_last();
        lemma_bounds_reached(rest);
        let s = choose|e: int|
            0 <= e < rest.len() && (#[trigger] rest[e]).target_global_idx == rowclone::first_start(
                rest,
            );
        let t = choose|e: int|
            0 <= e < rest.len() && (#[trigger] rest[e]).end_global_idx == rowclone::last_end(rest);
        assert(events[s] == rest[s] && events[t] == rest[t]);
        assert(events[last] == events.last());
        if rowclone::first_start(events) == events.last().target_global_idx {
            assert(events[last].target_global_idx == rowclone::first_start(events));
        } else {
            assert(events[s].target_global_idx == rowclone::first_start(events));
        }
        if rowclone::last_end(events) == events.last().end_global_idx {
            assert(events[last].end_global_idx == rowclone::last_end(events));
        } else {
            assert(events[t].end_global_idx == rowclone::last_end(events));
        }
    }
}

/// The number of positions before `k` within some bounds.
pub open spec fn count_within(within: (usize, usize), k: int) -> int {
    if k <= within.0 {
        0
    } else if k <= within.1 + 1 {
        k - within.0
    } else if within.1 + 1 >= within.0 {
        within.1 + 1 - within.0
    } else {
        0
    }
}

/// Law: the baseline is the part of the trace within the bounds, access by access: the one at the
/// first bound comes first, and each has the processor, the instruction count, the address and the
/// direction of its record.
pub proof fn law_baseline_in_part(history: Seq<LogRecord>, within: (usize, usize), k: int)
    requires
        0 <= k <= history.len(),
    ensures
        ({
            let out = rowclone::baseline(history, within, k);
            &&& out.len() == count_within(within, k)
            &&& forall|i: int|
                0 <= i < out.len() ==> within.0 + i < k && within.0 + i <= within.1 && (
                #[trigger] out[i]).cpu == history[within.0 + i].cpu && out[i].insn_count
                    == history[within.0 + i].insn_count && out[i].address == history[within.0
                    + i].address && out[i].store == (history[within.0 + i].store == 1)
        }),
    decreases k,
{
    if k > 0 {
        law_baseline_in_part(history, within, k - 1);
    }
}

proof fn lemma_replaced_prefix(
    history: Seq<LogRecord>,
    valid: Seq<bool>,
    events: Seq<RowcloneEvent>,
    within: (usize, usize),
    j: int,
    k: int,
)
    requires
        0 <= j <= k,
    ensures
        ({
            let a = rowclone::replaced(history, valid, events, within, j);
            let b = rowclone::replaced(history, valid, events, within, k);
            a.len() <= b.len() && a == b.take(a.len() as int)
        }),
    decreases k,
{
    let a = rowclone::replaced(history, valid, events, within, j);
    let b = rowclone::replaced(history, valid, events, within, k);
    if j < k {
        lemma_replaced_prefix(history, valid, events, within, j, k - 1);
        let c = rowclone::replaced(history, valid, events, within, k - 1);
        assert(c =~= b.take(c.len() as int));
        assert(a =~= b.take(a.len() as int));
    } else {
        assert(a =~= b.take(a.len() as int));
    }
}

/// Where the row copy of a completed copy stands in the processed trace.
pub open spec fn row_copy_at(
    history: Seq<LogRecord>,
    valid: Seq<bool>,
    within: (usize, usize),
    out: Seq<MemoryAccess>,
    event: RowcloneEvent,
    x: int,
) -> bool {
    &&& 0 <= x < out.len()
    &&& out[x] matches MemoryAccess::Rowclone(rc) && rc.cpu == event.cpu && rc.insn_count
        == event.insn_count && rc.from == event.from && rc.to == event.to
    &&& regulars(out.take(x)) == kept(history, valid, within, event.target_global_idx as int)
}

/// Law: the processed trace as it is handed out. The loads and stores are those within the bounds
/// that belong to no completed copy, in order. Every completed copy stands in it as one row copy,
/// with its processor, instruction count and addresses, at the place of its first access: behind
/// just the loads and stores that come before that and are kept. The number of row copies is that
/// of the completed copies, and the number of copies left over is that of the started ones.
pub proof fn law_outcome(
    outcome: rowclone::Outcome,
    history: Seq<LogRecord>,
    window: Seq<Announcement>,
    log: Seq<KernelLine<Announcement>>,
    crop: bool,
    e: int,
)
    requires
        history.len() <= usize::MAX,
        copy_window::ids_increase(copy_window::upcoming(window, log)),
        rowclone::outcome_of(
            outcome,
            rowclone::progress(
                rowclone::beginning(history.len(), window, log),
                history,
                history.len() as int,
            ),
            history,
            crop,
        ),
    ensures
        ({
            let n = history.len() as int;
            let p = rowclone::progress(
                rowclone::beginning(history.len(), window, log),
                history,
                n,
            );
            let out = outcome.rowclone_output@;
            &&& outcome.validated == p.events.len()
            &&& outcome.uncompleted == p.active.len()
            &&& outcome.bounds == rowclone::bounds(p.events, n as usize, crop)
            &&& outcome.baseline_output@ == rowclone::baseline(history, outcome.bounds, n)
            &&& regulars(out) == kept(history, p.valid, outcome.bounds, n)
            &&& out.len() == regulars(out).len() + p.events.len()
            &&& 0 <= e < p.events.len() ==> exists|x: int|
                #[trigger] row_copy_at(history, p.valid, outcome.bounds, out, p.events[e], x)
        }),
{
    let n = history.len() as int;
    let p = rowclone::progress(rowclone::beginning(history.len(), window, log), history, n);
    let within = rowclone::bounds(p.events, n as usize, crop);
    let out = rowclone::replaced(history, p.valid, p.events, within, n);
    law_consistent(history, window, log, n);
    law_completed_written_once(history, window, log, crop);
    law_other_accesses_kept(history, p.valid, p.events, within, n);
    lemma_parts_add_up(out);
    if 0 <= e < p.events.len() {
        lemma_bounds(p.events);
        lemma_row_copy_at(history, p.valid, p.events, within, n, e);
    }
}

proof fn lemma_row_copy_at(
    history: Seq<LogRecord>,
    valid: Seq<bool>,
    events: Seq<RowcloneEvent>,
    within: (usize, usize),
    n: int,
    e: int,
)
    requires
        0 <= e < events.len(),
        events[e].target_global_idx < n,
        within.0 <= events[e].target_global_idx <= within.1,
        valid[events[e].target_global_idx as int],
        forall|e: int, f: int|
            0 <= e < f < events.len() ==> (#[trigger] events[e]).target_global_idx != (
            #[trigger] events[f]).target_global_idx,
    ensures
        exists|x: int| #[trigger]
            row_copy_at(
                history,
                valid,
                within,
                rowclone::replaced(history, valid, events, within, n),
                events[e],
                x,
            ),
{
    let event = events[e];
    let t = event.target_global_idx as int;
    let out = rowclone::replaced(history, valid, events, within, n);
    lemma_event_at(events, t, 0);
    let at = rowclone::event_at(events, t, 0);
    assert(events[at].target_global_idx == event.target_global_idx);
    assert(at == e);
    let before = rowclone::replaced(history, valid, events, within, t);
    let here = rowclone::replaced(history, valid, events, within, t + 1);
    lemma_replaced_prefix(history, valid, events, within, t + 1, n);
    lemma_replaced_prefix(history, valid, events, within, t, n);
    law_other_accesses_kept(history, valid, events, within, t);
    let x = before.len() as int;
    assert(here[x] == MemoryAccess::Rowclone(rowclone::row_copy(event)));
    assert(here[x] == out.take(here.len() as int)[x]);
    assert(row_copy_at(history, valid, within, out, event, x));
}

proof fn lemma_parts_add_up(out: Seq<MemoryAccess>)
    ensures
        out.len() == regulars(out).len() + rowclone::row_copies(out),
    decreases out.len(),
{
    if out.len() > 0 {
        lemma_parts_add_up(out.drop_last());
    }
}

/// Law: a record of the kernel log announces a copy between its two addresses: a read goes from the
/// kernel's to the user's, a write the other way; one with another operation starts nowhere.
pub proof fn law_record_announces(record: rowclone::KernelRecord)
    ensures
        ({
            let a = record.announced();
            &&& a.rec_id == record.rec_id
            &&& a.cpu == record.cpu
            &&& a.size == record.size
            &&& a.stale == record.stale
            &&& record.operation == 'r' ==> a.source == Some(record.kernel_address) && a.target
                == record.user_address
            &&& record.operation == 'w' ==> a.source == Some(record.user_address) && a.target
                == record.kernel_address
            &&& record.operation != 'r' && record.operation != 'w' ==> a.source is None
        }),
{
}

/// Law: the record that a line is read as has the identity, the processor, the operation and the
/// addresses that the line gives, and is of a page of 4096 bytes that nothing has overtaken.
pub proof fn law_record_read(source: Seq<char>, line: Seq<char>, id: u64)
    ensures
        match crate::kernel_log::line_copy(source, line, id).0 {
            Some(copy) => rowclone::line_read(source, Some(line), id) == KernelLine::Record(
                rowclone::KernelRecord {
                    rec_id: copy.rec_id,
                    cpu: copy.cpu,
                    size: 4096,
                    operation: copy.operation,
                    kernel_address: copy.kernel_address,
                    user_address: copy.user_address,
                    stale: 0,
                },
            ),
            None => rowclone::line_read(source, Some(line), id) is NotParsed,
        },
        rowclone::line_read(source, None, id) is Unreadable,
{
}

/// Law: the text of a record for messages can be read back: its processor,
/// its size, its operation and its two whole addresses stand in it, each behind its label.
pub proof fn law_debug_text(record: rowclone::KernelRecord)
    requires
        !text::white_space(record.operation),
    ensures
        ({
            let words = text::words(record.debug_view());
            &&& words.len() == 12
            &&& text::unsigned(words[2].drop_last(), 10, u64::MAX as nat) == Some(record.cpu as nat)
            &&& words[3] == "size:"@
            &&& text::unsigned(words[4].drop_last(), 10, u64::MAX as nat) == Some(record.size as nat)
            &&& words[5] == "op:"@
            &&& words[6] == seq![record.operation, ',']
            &&& words[7] == "kernel_address:"@
            &&& text::hex_address(words[8].drop_last()) == Some(record.kernel_address as nat)
            &&& words[9] == "user_address:"@
            &&& text::hex_address(words[10]) == Some(record.user_address as nat)
        }),
{
    reveal_strlit("KernelRecord {cpu: ");
    reveal_strlit("KernelRecord");
    reveal_strlit("{cpu:");
    let none = Seq::<char>::empty();
    assert(text::words(none) =~= Seq::<Seq<char>>::empty());
    text::lemma_add_word(none, "KernelRecord"@, ' ');
    let a0 = none + "KernelRecord"@ + seq![' '];
    text::lemma_add_word(a0, "{cpu:"@, ' ');
    let a1 = a0 + "{cpu:"@ + seq![' '];
    assert("KernelRecord {cpu: "@ =~= a1);
    text::lemma_decimal_is_word(record.cpu as nat);
    text::law_decimal_round_trip(record.cpu as nat, u64::MAX as nat);
    let f0 = text::decimal_digits(record.cpu as nat);
    reveal_strlit(", size: ");
    reveal_strlit("size:");
    assert(", size: "@ =~= seq![',', ' '] + "size:"@ + seq![' ']);
    text::lemma_add_item(a1, f0, "size:"@, ", size: "@);
    let t0 = a1 + f0 + ", size: "@;
    text::lemma_decimal_is_word(record.size as nat);
    text::law_decimal_round_trip(record.size as nat, u64::MAX as nat);
    let f1 = text::decimal_digits(record.size as nat);
    reveal_strlit(", op: ");
    reveal_strlit("op:");
    assert(", op: "@ =~= seq![',', ' '] + "op:"@ + seq![' ']);
    text::lemma_add_item(t0, f1, "op:"@, ", op: "@);
    let t1 = t0 + f1 + ", op: "@;
    let op = seq![record.operation];
    assert(text::is_word(op));
    let f2 = op;
    reveal_strlit(", kernel_address: ");
    reveal_strlit("kernel_address:");
    assert(", kernel_address: "@ =~= seq![',', ' '] + "kernel_address:"@ + seq![' ']);
    text::lemma_add_item(t1, f2, "kernel_address:"@, ", kernel_address: "@);
    let t2 = t1 + f2 + ", kernel_address: "@;
    text::lemma_address_is_word(record.kernel_address);
    text::law_address_round_trip(record.kernel_address);
    let f3 = text::address_text(record.kernel_address);
    reveal_strlit(", user_address: ");
    reveal_strlit("user_address:");
    assert(", user_address: "@ =~= seq![',', ' '] + "user_address:"@ + seq![' ']);
    text::lemma_add_item(t2, f3, "user_address:"@, ", user_address: "@);
    let t3 = t2 + f3 + ", user_address: "@;
    text::lemma_address_is_word(record.user_address);
    text::law_address_round_trip(record.user_address);
    let f4 = text::address_text(record.user_address);
    text::lemma_add_end(t3, f4);
    assert(record.debug_view() == t3 + f4 + " }"@);
    let words = text::words(record.debug_view());
    assert(words[6] =~= seq![record.operation, ',']);
    assert(words[2].drop_last() =~= f0);
    assert(words[4].drop_last() =~= f1);
    assert(words[8].drop_last() =~= f3);
}

/// Law: the lines of a log are read one by one, each with the identity that those before it leave.
pub proof fn law_log_read(
    source: Seq<char>,
    lines: Seq<Option<Seq<char>>>,
    first_id: u64,
    i: int,
)
    requires
        0 <= i < lines.len(),
    ensures
        rowclone::log_read(source, lines, first_id).len() == lines.len(),
        rowclone::log_read(source, lines, first_id)[i] == rowclone::line_read(
            source,
            lines[i],
            crate::kernel_log::log_announces(source, lines.take(i), first_id).1,
        ),
{
}

} // verus!
