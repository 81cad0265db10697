//! Every announced copy that the trace of a processor holds is found, with all its accesses.
use crate::copy_run;
use crate::copy_window;
use crate::copy_window::{Announcement, KernelLine, WindowRecord};
use crate::trace_debug;
use crate::trace_debug::{Copying, Progress};
use crate::log_parser;
use crate::log_parser::LogRecord;
use vstd::prelude::*;

verus! {

/// The address that an announced copy goes from.
pub open spec fn source_of(a: Announcement) -> u64 {
    match a.source {
        Some(source) => source,
        None => 0,
    }
}

/// Whether a started copy waits for an access: the load at the place that it has read up to, or the
/// store at the place that it has written up to.
pub open spec fn awaits(copy: Copying, access: LogRecord) -> bool {
    ||| access.store == 0 && access.address == copy.current_from
    ||| access.store == 1 && access.address == copy.current_to
}

/// How far the loads of a copy that starts at position `s` have come before position `k`.
pub open spec fn read_to(history: Seq<LogRecord>, a: Announcement, s: int, k: int) -> int {
    copy_run::run_end(history, None::<u8>, 0, source_of(a), (source_of(a) + a.size), s, k)
}

/// How far the stores of a copy that starts at position `s` have come before position `k`.
pub open spec fn written_to(history: Seq<LogRecord>, a: Announcement, s: int, k: int) -> int {
    copy_run::run_end(history, None::<u8>, 1, a.target, copy_run::no_limit(), s, k)
}

/// Whether the access at position `i` is one of a copy that starts at position `s`.
pub open spec fn of_copy(history: Seq<LogRecord>, a: Announcement, s: int, i: int) -> bool {
    copy_run::in_run(history, None::<u8>, source_of(a), (source_of(a) + a.size), a.target, s, i)
}

/// The accesses of a copy that starts at position `s`, before position `k`.
pub open spec fn accesses_of(history: Seq<LogRecord>, a: Announcement, s: int, k: int) -> Seq<
    LogRecord,
> {
    copy_run::run(history, None::<u8>, source_of(a), (source_of(a) + a.size), a.target, s, k)
}

/// Whether the bytes of the announced copy are all read and written before position `k`.
pub open spec fn filled(history: Seq<LogRecord>, a: Announcement, s: int, k: int) -> bool {
    written_to(history, a, s, k) >= a.target + a.size && read_to(history, a, s, k) >= source_of(a) + a.size
}

/// Whether a started copy waits for none of the accesses between two positions.
pub open spec fn idle(
    copy: Copying,
    history: Seq<LogRecord>,
    a: Announcement,
    s: int,
    e: int,
) -> bool {
    forall|i: int|
        s <= i <= e ==> !awaits(copy, #[trigger] history[i])
}

/// Whether another announcement is not started between two positions.
pub open spec fn not_started(
    x: Announcement,
    history: Seq<LogRecord>,
    a: Announcement,
    s: int,
    e: int,
) -> bool {
    forall|i: int|
        s <= i <= e && (#[trigger] history[i]).store == 0
            ==> x.source != Some(history[i].address)
}

/// Whether nothing stands in the way of a copy between two positions: no other started copy waits
/// for an access, and no load starts another copy or the same anew.
pub open spec fn undisturbed(
    p: Progress<Announcement>,
    history: Seq<LogRecord>,
    a: Announcement,
    s: int,
    e: int,
) -> bool {
    &&& forall|c: int|
        0 <= c < p.active.len() ==> (#[trigger] p.active[c]).rec_id != a.rec_id && idle(
            p.active[c],
            history,
            a,
            s,
            e,
        )
    &&& forall|u: int|
        0 <= u < copy_window::upcoming(p.window, p.log).len() && (
        #[trigger] copy_window::upcoming(p.window, p.log)[u]).rec_id != a.rec_id ==> not_started(
            copy_window::upcoming(p.window, p.log)[u],
            history,
            a,
            s,
            e,
        )
    &&& not_started(a, history, a, s + 1, e)
}

/// Whether the copy is under way, as the started copy at position `m`.
spec fn underway(
    p: Progress<Announcement>,
    history: Seq<LogRecord>,
    a: Announcement,
    s: int,
    e: int,
    k: int,
    m: int,
) -> bool {
    &&& 0 <= m < p.active.len()
    &&& ours(p.active[m], history, a, s, k)
    &&& forall|c: int|
        0 <= c < p.active.len() && c != m ==> (#[trigger] p.active[c]).rec_id != a.rec_id && idle(
            p.active[c],
            history,
            a,
            s,
            e,
        )
    &&& all_passive(p, history, a, s, e)
}

spec fn passive(
    x: Announcement,
    history: Seq<LogRecord>,
    a: Announcement,
    s: int,
    e: int,
) -> bool {
    if x.rec_id == a.rec_id {
        x.source == a.source
    } else {
        not_started(x, history, a, s, e)
    }
}

spec fn all_passive(
    p: Progress<Announcement>,
    history: Seq<LogRecord>,
    a: Announcement,
    s: int,
    e: int,
) -> bool {
    forall|u: int|
        0 <= u < copy_window::upcoming(p.window, p.log).len() ==> passive(
            #[trigger] copy_window::upcoming(p.window, p.log)[u],
            history,
            a,
            s,
            e,
        )
}

spec fn ours(copy: Copying, history: Seq<LogRecord>, a: Announcement, s: int, k: int) -> bool {
    &&& copy.rec_id == a.rec_id
    &&& copy.from == source_of(a)
    &&& copy.to == a.target
    &&& copy.size == a.size
    &&& copy.current_from == read_to(history, a, s, k)
    &&& copy.current_to == written_to(history, a, s, k)
    &&& copy.first_insn_count == history[s].insn_count
    &&& copy.first_global_idx == s
    &&& copy.records == accesses_of(history, a, s, k)
    &&& copy.indices.len() == copy.records.len()
}

/// Where no announcement of the window is started, the started copies stay as they are.
proof fn lemma_no_start(
    copies: Seq<Copying>,
    access: LogRecord,
    window: Seq<Announcement>,
    idx: usize,
)
    requires
        forall|w: int| 0 <= w < window.len() ==> !trace_debug::is_start(access, #[trigger] window[w]),
    ensures
        trace_debug::starting(copies, access, window, idx) == (copies, false),
    decreases window.len(),
{
    if window.len() > 0 {
        assert(!trace_debug::is_start(access, window[0]));
        assert forall|w: int| 0 <= w < window.skip(1).len() implies !trace_debug::is_start(
            access,
            #[trigger] window.skip(1)[w],
        ) by {
            assert(window.skip(1)[w] == window[w + 1]);
        }
        lemma_no_start(copies, access, window.skip(1), idx);
    }
}

/// Where one announcement of the window is started, its copy is the only new one.
proof fn lemma_one_start(
    copies: Seq<Copying>,
    access: LogRecord,
    window: Seq<Announcement>,
    idx: usize,
    w: int,
)
    requires
        0 <= w < window.len(),
        trace_debug::is_start(access, window[w]),
        forall|x: int|
            0 <= x < window.len() && x != w ==> !trace_debug::is_start(access, #[trigger] window[x]),
        forall|c: int| 0 <= c < copies.len() ==> (#[trigger] copies[c]).rec_id != window[w].rec_id,
    ensures
        trace_debug::starting(copies, access, window, idx) == (
            copies.push(trace_debug::new_copy(access, window[w], idx)),
            true,
        ),
    decreases window.len(),
{
    let rest = window.skip(1);
    trace_debug::lemma_started(copies, window[w].rec_id, 0);
    assert forall|x: int| 0 <= x < rest.len() && x != w - 1 implies !trace_debug::is_start(
        access,
        #[trigger] rest[x],
    ) by {
        assert(rest[x] == window[x + 1]);
    }
    if w == 0 {
        lemma_no_start(copies.push(trace_debug::new_copy(access, window[w], idx)), access, rest, idx);
    } else {
        assert(!trace_debug::is_start(access, window[0]));
        assert(rest[w - 1] == window[w]);
        lemma_one_start(copies, access, rest, idx, w - 1);
    }
}

/// The copy starts.
proof fn lemma_begins(
    p: Progress<Announcement>,
    history: Seq<LogRecord>,
    w: int,
    s: int,
    e: int,
)
    requires
        0 <= s < e < history.len() <= usize::MAX,
        0 <= w < p.window.len(),
        copy_window::ids_increase(copy_window::upcoming(p.window, p.log)),
        undisturbed(p, history, p.window[w], s, e),
        history[s].store == 0,
        p.window[w].source == Some(history[s].address),
        p.window[w].size > 0,
        read_to(history, p.window[w], s, e + 1) <= u64::MAX,
    ensures
        underway(
            trace_debug::after_access(p, history[s], s as usize),
            history,
            p.window[w],
            s,
            e,
            s + 1,
            p.active.len() as int,
        ),
{
    let a = p.window[w];
    let access = history[s];
    let idx = s as usize;
    let all = copy_window::upcoming(p.window, p.log);
    trace_debug::lemma_continued(p.active, access, 0);
    let m = trace_debug::continued(p.active, access, 0);
    if m < p.active.len() {
        assert(idle(p.active[m], history, a, s, e));
        assert(!awaits(p.active[m], history[s]));
    }
    assert(all[w] == a);
    assert forall|x: int| 0 <= x < p.window.len() && x != w implies !trace_debug::is_start(
        access,
        #[trigger] p.window[x],
    ) by {
        assert(all[x] == p.window[x]);
        assert(all[x].id() != all[w].id());
        assert(not_started(all[x], history, a, s, e));
    }
    lemma_one_start(p.active, access, p.window, idx, w);
    copy_run::lemma_run_grows(history, None::<u8>, 0, source_of(a), (source_of(a) + a.size), s, s + 1, e + 1);
    reveal_with_fuel(copy_run::run_end, 2);
    reveal_with_fuel(copy_run::run, 2);
    let q = trace_debug::after_access(p, access, idx);
    let copy = q.active[p.active.len() as int];
    assert(of_copy(history, a, s, s));
    assert(copy.records =~= accesses_of(history, a, s, s + 1));
    assert(ours(copy, history, a, s, s + 1));
    assert forall|u: int| 0 <= u < all.len() implies passive(#[trigger] all[u], history, a, s, e) by {
        if all[u].rec_id == a.rec_id {
            assert(all[u].id() == all[w].id());
            assert(u == w);
        }
    }
    assert forall|c: int| 0 <= c < q.active.len() && c != p.active.len() implies (
    #[trigger] q.active[c]).rec_id != a.rec_id && idle(q.active[c], history, a, s, e) by {
        assert(q.active[c] == p.active[c]);
    }
}

/// An access that the copy waits for is taken by it.
proof fn lemma_taken(
    p: Progress<Announcement>,
    history: Seq<LogRecord>,
    a: Announcement,
    s: int,
    e: int,
    k: int,
    m: int,
)
    requires
        0 <= s < k <= e < history.len() <= usize::MAX,
        underway(p, history, a, s, e, k, m),
        awaits(p.active[m], history[k]),
        read_to(history, a, s, e + 1) <= u64::MAX,
        written_to(history, a, s, e + 1) <= u64::MAX,
        source_of(a) + a.size <= u64::MAX,
    ensures
        trace_debug::continued(p.active, history[k], 0) == m,
        ours(trace_debug::advanced(p.active[m], history[k], k as usize), history, a, s, k + 1),
{
    let access = history[k];
    let idx = k as usize;
    let copy = p.active[m];
    trace_debug::lemma_continued(p.active, access, 0);
    let x = trace_debug::continued(p.active, access, 0);
    if x != m {
        if x < p.active.len() {
            assert(idle(p.active[x], history, a, s, e));
            assert(!awaits(p.active[x], history[k]));
        } else {
            assert(trace_debug::continues(access, p.active[m]));
        }
    }
    copy_run::lemma_run_grows(history, None::<u8>, 0, source_of(a), (source_of(a) + a.size), s, k + 1, e + 1);
    copy_run::lemma_run_grows(history, None::<u8>, 1, a.target, copy_run::no_limit(), s, k + 1, e + 1);
    copy_run::lemma_run_grows(history, None::<u8>, 0, source_of(a), (source_of(a) + a.size), s, k, k + 1);
    let more = trace_debug::advanced(copy, access, idx);
    assert(of_copy(history, a, s, k) == (access.store == 1 || read_to(history, a, s, k) < (source_of(a) + a.size)));
    assert(more.records =~= accesses_of(history, a, s, k + 1));
}

/// The copy stays under way until all is read and written.
proof fn lemma_goes_on(
    p: Progress<Announcement>,
    history: Seq<LogRecord>,
    a: Announcement,
    s: int,
    e: int,
    k: int,
    m: int,
) -> (n: int)
    requires
        0 <= s < k < e < history.len() <= usize::MAX,
        underway(p, history, a, s, e, k, m),
        not_started(a, history, a, s + 1, e),
        !filled(history, a, s, k + 1),
        a.target + a.size <= u64::MAX,
        read_to(history, a, s, e + 1) <= u64::MAX,
        written_to(history, a, s, e + 1) <= u64::MAX,
        source_of(a) + a.size <= u64::MAX,
    ensures
        underway(trace_debug::after_access(p, history[k], k as usize), history, a, s, e, k + 1, n),
{
    let access = history[k];
    let idx = k as usize;
    let q = trace_debug::after_access(p, access, idx);
    let all = copy_window::upcoming(p.window, p.log);
    trace_debug::lemma_continued(p.active, access, 0);
    let x = trace_debug::continued(p.active, access, 0);
    if awaits(p.active[m], access) {
        lemma_taken(p, history, a, s, e, k, m);
        assert(q.active =~= p.active.update(m, trace_debug::advanced(p.active[m], access, idx)));
        m
    } else {
        lemma_not_of_copy(history, a, s, k, p.active[m]);
        if x < p.active.len() {
            assert(idle(p.active[x], history, a, s, e));
            assert(!awaits(p.active[x], history[k]));
        }
        lemma_window_quiet(p, history, a, s, e, k);
        lemma_no_start(p.active, access, p.window, idx);
        assert(q.active =~= p.active);
        m
    }
}

/// An access that the copy does not wait for is none of it.
proof fn lemma_not_of_copy(
    history: Seq<LogRecord>,
    a: Announcement,
    s: int,
    k: int,
    copy: Copying,
)
    requires
        s < k < history.len(),
        ours(copy, history, a, s, k),
        !awaits(copy, history[k]),
    ensures
        ours(copy, history, a, s, k + 1),
{
    assert(!of_copy(history, a, s, k));
}

/// While the copy is under way, no load starts a copy.
proof fn lemma_window_quiet(
    p: Progress<Announcement>,
    history: Seq<LogRecord>,
    a: Announcement,
    s: int,
    e: int,
    k: int,
)
    requires
        s < k <= e,
        all_passive(p, history, a, s, e),
        not_started(a, history, a, s + 1, e),
    ensures
        forall|w: int|
            0 <= w < p.window.len() ==> !trace_debug::is_start(history[k], #[trigger] p.window[w]),
{
    let all = copy_window::upcoming(p.window, p.log);
    assert forall|w: int| 0 <= w < p.window.len() implies !trace_debug::is_start(
        history[k],
        #[trigger] p.window[w],
    ) by {
        assert(all[w] == p.window[w]);
        assert(passive(all[w], history, a, s, e));
    }
}

/// The copy is under way at every position up to the end.
proof fn lemma_underway(
    start: Progress<Announcement>,
    history: Seq<LogRecord>,
    w: int,
    s: int,
    e: int,
    k: int,
) -> (m: int)
    requires
        found_at(start, history, w, s, e),
        s < k <= e,
    ensures
        underway(
            trace_debug::progress(start, history, k),
            history,
            trace_debug::progress(start, history, s).window[w],
            s,
            e,
            k,
            m,
        ),
    decreases k,
{
    let p = trace_debug::progress(start, history, s);
    let a = p.window[w];
    if k == s + 1 {
        lemma_begins(p, history, w, s, e);
        p.active.len() as int
    } else {
        let m = lemma_underway(start, history, w, s, e, k - 1);
        copy_run::lemma_run_grows(history, None::<u8>, 1, a.target, copy_run::no_limit(), s, k, e);
        copy_run::lemma_run_grows(history, None::<u8>, 0, source_of(a), (source_of(a) + a.size), s, k, e);
        lemma_goes_on(trace_debug::progress(start, history, k - 1), history, a, s, e, k - 1, m)
    }
}

/// Whether the trace holds the copy of the announcement at place `w` of the window, from position
/// `s` to position `e`: the load at its source is at `s`, its bytes are all read and written, each
/// in order and without a gap from its source and its target, for the first time with the access at
/// `e`, and nothing stands in its way. No address runs over.
pub open spec fn found_at(
    start: Progress<Announcement>,
    history: Seq<LogRecord>,
    w: int,
    s: int,
    e: int,
) -> bool {
    let p = trace_debug::progress(start, history, s);
    let a = p.window[w];
    &&& 0 <= s < e < history.len() <= usize::MAX
    &&& 0 <= w < p.window.len()
    &&& copy_window::ids_increase(copy_window::upcoming(p.window, p.log))
    &&& undisturbed(p, history, a, s, e)
    &&& history[s].store == 0
    &&& a.source == Some(history[s].address)
    &&& !filled(history, a, s, e)
    &&& filled(history, a, s, e + 1)
    &&& a.size > 0
    &&& a.target + a.size <= u64::MAX
    &&& source_of(a) + a.size <= u64::MAX
    &&& read_to(history, a, s, e + 1) <= u64::MAX
    &&& written_to(history, a, s, e + 1) <= u64::MAX
}

/// Law: every announced copy that the trace holds is found. Once its last byte is read or written,
/// it is the latest of the completed copies, with the positions of its first and last access, its
/// addresses and exactly its loads and stores, in order; and it is under way no more. Other
/// accesses may stand between its own.
pub proof fn law_copy_found(
    start: Progress<Announcement>,
    history: Seq<LogRecord>,
    w: int,
    s: int,
    e: int,
)
    requires
        found_at(start, history, w, s, e),
    ensures
        ({
            let a = trace_debug::progress(start, history, s).window[w];
            let before = trace_debug::progress(start, history, e);
            let p = trace_debug::progress(start, history, e + 1);
            let event = p.events.last();
            &&& p.events.drop_last() == before.events
            &&& p.events.len() == before.events.len() + 1
            &&& event.target_global_idx == s
            &&& event.end_global_idx == e
            &&& Some(event.from) == a.source
            &&& event.to == a.target
            &&& event.rec_id == a.rec_id
            &&& event.records == accesses_of(history, a, s, e + 1)
            &&& event.removed_accesses_count == accesses_of(history, a, s, e + 1).len()
            &&& event.cpu == history[e].cpu
            &&& forall|c: int| 0 <= c < p.active.len() ==> (#[trigger] p.active[c]).rec_id != a.rec_id
            &&& p.active.len() + 1 == before.active.len()
        }),
{
    let a = trace_debug::progress(start, history, s).window[w];
    let p = trace_debug::progress(start, history, e);
    let m = lemma_underway(start, history, w, s, e, e);
    let access = history[e];
    let idx = e as usize;
    copy_run::lemma_run_grows(history, None::<u8>, 1, a.target, copy_run::no_limit(), s, e, e + 1);
    copy_run::lemma_run_grows(history, None::<u8>, 0, source_of(a), (source_of(a) + a.size), s, e, e + 1);
    assert(awaits(p.active[m], access));
    lemma_taken(p, history, a, s, e, e, m);
    let copy = trace_debug::advanced(p.active[m], access, idx);
    assert(trace_debug::complete(copy));
    let q = trace_debug::progress(start, history, e + 1);
    assert(q.events.drop_last() =~= p.events);
    assert forall|c: int| 0 <= c < q.active.len() implies (#[trigger] q.active[c]).rec_id
        != a.rec_id by {
        let d = if c < m {
            c
        } else {
            c + 1
        };
        assert(q.active[c] == p.active[d]);
    }
}

/// Law: an access that started copies wait for is taken by the first of them, whatever the others
/// are: its place moves on by the bytes of the access, unless it has read all its bytes, and
/// nothing else of the started copies changes. Where that is the last byte to read or write, the
/// copy is completed, and leaves the started copies and the window; else the completed copies, the
/// window and the log stay as they are.
pub proof fn law_awaited<R: WindowRecord>(p: Progress<R>, access: LogRecord, idx: usize, m: int)
    requires
        0 <= m < p.active.len(),
        awaits(p.active[m], access),
        forall|c: int| 0 <= c < m ==> !awaits(#[trigger] p.active[c], access),
    ensures
        ({
            let q = trace_debug::after_access(p, access, idx);
            let copy = p.active[m];
            let bytes = log_parser::access_bytes(access.size);
            let read = if access.store == 1 || copy.current_from >= copy.from.wrapping_add(copy.size) {
                copy.current_from
            } else {
                copy.current_from.wrapping_add(bytes)
            };
            let written = if access.store == 1 {
                copy.current_to.wrapping_add(bytes)
            } else {
                copy.current_to
            };
            let taken = access.store == 1 || copy.current_from < copy.from.wrapping_add(copy.size);
            let done = read >= copy.from.wrapping_add(copy.size) && written >= copy.to.wrapping_add(
                copy.size,
            );
            &&& trace_debug::after_continuing(p, access, idx) == (q, true)
            &&& done ==> {
                &&& q.active == p.active.remove(m)
                &&& q.events.len() == p.events.len() + 1
                &&& q.events.drop_last() == p.events
                &&& q.events.last().target_global_idx == copy.first_global_idx
                &&& q.events.last().end_global_idx == idx
                &&& q.events.last().from == copy.from
                &&& q.events.last().to == copy.to
                &&& q.events.last().rec_id == copy.rec_id
                &&& q.events.last().cpu == access.cpu
                &&& q.events.last().records == (if taken {
                    copy.records.push(access)
                } else {
                    copy.records
                })
                &&& q.events.last().removed_accesses_count == copy.indices.len() + if taken {
                    1int
                } else {
                    0int
                }
                &&& (q.window, q.log) == copy_window::after_completion(
                    p.window,
                    p.log,
                    copy.rec_id,
                )
            }
            &&& !done ==> {
                &&& q.active.len() == p.active.len()
                &&& forall|c: int|
                    0 <= c < p.active.len() && c != m ==> #[trigger] q.active[c] == p.active[c]
                &&& q.active[m].rec_id == copy.rec_id
                &&& q.active[m].from == copy.from
                &&& q.active[m].to == copy.to
                &&& q.active[m].size == copy.size
                &&& q.active[m].current_from == read
                &&& q.active[m].current_to == written
                &&& q.active[m].first_insn_count == copy.first_insn_count
                &&& q.active[m].first_global_idx == copy.first_global_idx
                &&& q.active[m].indices == (if taken {
                    copy.indices.push(idx)
                } else {
                    copy.indices
                })
                &&& q.active[m].records == (if taken {
                    copy.records.push(access)
                } else {
                    copy.records
                })
                &&& q.events == p.events
                &&& q.window == p.window
                &&& q.log == p.log
            }
        }),
{
    trace_debug::lemma_continued(p.active, access, 0);
    let x = trace_debug::continued(p.active, access, 0);
    assert(trace_debug::continues(access, p.active[m]));
    assert(x == m) by {
        if x < m {
            assert(!awaits(p.active[x], access));
        }
    }
    let q = trace_debug::after_access(p, access, idx);
    let copy = trace_debug::advanced(p.active[m], access, idx);
    if trace_debug::complete(copy) {
        assert(q.events.drop_last() =~= p.events);
    }
}

/// Whether an access is the first load of an announced copy.
pub open spec fn starts(access: LogRecord, a: Announcement) -> bool {
    &&& access.store == 0
    &&& a.source matches Some(source) && source == access.address
}

/// Whether an access starts an announced copy that has not started.
pub open spec fn starts_new<R: WindowRecord>(
    copies: Seq<Copying>,
    access: LogRecord,
    x: R,
) -> bool {
    starts(access, x.announced()) && forall|c: int|
        0 <= c < copies.len() ==> (#[trigger] copies[c]).rec_id != x.announced().rec_id
}

/// A copy as it is right after it was started.
pub open spec fn just_started(access: LogRecord, a: Announcement, idx: usize) -> Copying {
    Copying {
        rec_id: a.rec_id,
        from: access.address,
        to: a.target,
        size: a.size,
        current_from: access.address.wrapping_add(log_parser::access_bytes(access.size)),
        current_to: a.target,
        indices: seq![idx],
        records: seq![access],
        first_insn_count: access.insn_count,
        first_global_idx: idx,
    }
}

/// A started copy whose first load is seen once more: it starts anew with the access.
pub open spec fn seen_once_more(copy: Copying, access: LogRecord, idx: usize) -> Copying {
    Copying {
        current_from: access.address.wrapping_add(log_parser::access_bytes(access.size)),
        indices: seq![idx],
        records: seq![access],
        first_insn_count: access.insn_count,
        first_global_idx: idx,
        ..copy
    }
}

/// Whether the announcement at a place of the window is that of a started copy, of which the access
/// is the first load.
pub open spec fn meets<R: WindowRecord>(
    copies: Seq<Copying>,
    access: LogRecord,
    window: Seq<R>,
    w: int,
    c: int,
) -> bool {
    &&& 0 <= w < window.len()
    &&& starts(access, window[w].announced())
    &&& window[w].announced().rec_id == copies[c].rec_id
}

/// Whether no two announcements of a window have one identity.
pub open spec fn distinct<R: WindowRecord>(window: Seq<R>) -> bool {
    forall|i: int, j: int|
        0 <= i < j < window.len() ==> (#[trigger] window[i]).announced().rec_id != (
        #[trigger] window[j]).announced().rec_id
}

/// Whether no two started copies have one identity.
pub open spec fn distinct_copies(copies: Seq<Copying>) -> bool {
    forall|i: int, j: int|
        0 <= i < j < copies.len() ==> (#[trigger] copies[i]).rec_id != (#[trigger] copies[j]).rec_id
}

/// The started copies that were there before, after an access that may start copies.
pub open spec fn before_kept<R: WindowRecord>(
    copies: Seq<Copying>,
    access: LogRecord,
    window: Seq<R>,
    idx: usize,
    after: Seq<Copying>,
) -> bool {
    forall|c: int|
        0 <= c < copies.len() ==> #[trigger] after[c] == (if copies[c].current_to == copies[c].to
            && exists|w: int| meets(copies, access, window, w, c) {
            seen_once_more(copies[c], access, idx)
        } else {
            copies[c]
        })
}

/// Whether a copy is the one that an access starts for the announcement at a place of the window.
pub open spec fn new_of<R: WindowRecord>(
    copies: Seq<Copying>,
    access: LogRecord,
    window: Seq<R>,
    idx: usize,
    copy: Copying,
    w: int,
) -> bool {
    &&& 0 <= w < window.len()
    &&& starts_new(copies, access, window[w])
    &&& copy == just_started(access, window[w].announced(), idx)
}

/// Whether a copy is one that an access starts for an announcement of the window.
pub open spec fn is_new<R: WindowRecord>(
    copies: Seq<Copying>,
    access: LogRecord,
    window: Seq<R>,
    idx: usize,
    copy: Copying,
) -> bool {
    exists|w: int| #[trigger] new_of(copies, access, window, idx, copy, w)
}

/// Whether the new copies are those of the announcements that the access starts, one each.
pub open spec fn all_new<R: WindowRecord>(
    copies: Seq<Copying>,
    access: LogRecord,
    window: Seq<R>,
    idx: usize,
    after: Seq<Copying>,
) -> bool {
    &&& after.len() >= copies.len()
    &&& distinct_copies(after)
    &&& forall|w: int|
        0 <= w < window.len() && starts_new(copies, access, #[trigger] window[w])
            ==> after.skip(copies.len() as int).contains(
            just_started(access, window[w].announced(), idx),
        )
    &&& forall|c: int|
        copies.len() <= c < after.len() ==> is_new(copies, access, window, idx, #[trigger] after[c])
}

/// Law: an access that no started copy waits for may start copies: every announcement of the window
/// that it starts and that has not started gets a copy. A copy that had started with the same first
/// load and has written nothing starts anew with it. All else stays as it is.
pub proof fn law_not_awaited<R: WindowRecord>(p: Progress<R>, access: LogRecord, idx: usize)
    requires
        forall|c: int| 0 <= c < p.active.len() ==> !awaits(#[trigger] p.active[c], access),
        distinct(p.window),
        distinct_copies(p.active),
    ensures
        ({
            let q = trace_debug::after_access(p, access, idx);
            &&& trace_debug::after_continuing(p, access, idx) == (p, false)
            &&& q.events == p.events
            &&& q.window == p.window
            &&& q.log == p.log
            &&& before_kept(p.active, access, p.window, idx, q.active)
            &&& all_new(p.active, access, p.window, idx, q.active)
        }),
{
    trace_debug::lemma_continued(p.active, access, 0);
    let x = trace_debug::continued(p.active, access, 0);
    if x < p.active.len() {
        assert(!awaits(p.active[x], access));
    }
    lemma_starts(p.active, access, p.window, idx);
}

/// Law: an access belongs to a copy that starts with it if and only if it starts one, or is once
/// more the first load of one that has written nothing.
pub proof fn law_belongs<R: WindowRecord>(
    copies: Seq<Copying>,
    access: LogRecord,
    window: Seq<R>,
    idx: usize,
)
    requires
        distinct(window),
        distinct_copies(copies),
    ensures
        ({
            let (after, belongs) = trace_debug::starting(copies, access, window, idx);
            belongs <==> after.len() > copies.len() || exists|w: int, c: int|
                0 <= c < copies.len() && copies[c].current_to == copies[c].to && #[trigger] meets(
                    copies,
                    access,
                    window,
                    w,
                    c,
                )
        }),
{
    lemma_starts(copies, access, window, idx);
}

#[verifier::spinoff_prover]
#[verifier::rlimit(60)]
proof fn lemma_starts<R: WindowRecord>(
    copies: Seq<Copying>,
    access: LogRecord,
    window: Seq<R>,
    idx: usize,
)
    requires
        distinct(window),
        distinct_copies(copies),
    ensures
        ({
            let (after, belongs) = trace_debug::starting(copies, access, window, idx);
            &&& before_kept(copies, access, window, idx, after)
            &&& all_new(copies, access, window, idx, after)
            &&& belongs <==> after.len() > copies.len() || exists|w: int, c: int|
                0 <= c < copies.len() && copies[c].current_to == copies[c].to && #[trigger] meets(
                    copies,
                    access,
                    window,
                    w,
                    c,
                )
        }),
    decreases window.len(),
{
    let (after, belongs) = trace_debug::starting(copies, access, window, idx);
    if window.len() == 0 {
        assert(after.skip(copies.len() as int) =~= Seq::<Copying>::empty());
    } else {
        let a = window[0].announced();
        let rest = window.skip(1);
        assert(distinct(rest)) by {
            assert forall|i: int, j: int| 0 <= i < j < rest.len() implies (
            #[trigger] rest[i]).announced().rec_id != (#[trigger] rest[j]).announced().rec_id by {
                assert(rest[i] == window[i + 1] && rest[j] == window[j + 1]);
            }
        }
        assert forall|w: int| 0 <= w < rest.len() implies (
        #[trigger] rest[w]).announced().rec_id != a.rec_id && rest[w] == window[w + 1] by {
            assert(window[0].announced().rec_id != window[w + 1].announced().rec_id);
        }
        let m = trace_debug::started(copies, a.rec_id, 0);
        trace_debug::lemma_started(copies, a.rec_id, 0);
        assert(trace_debug::is_start(access, a) == starts(access, a));
        assert(starts_new(copies, access, window[0]) == (starts(access, a) && m >= copies.len())) by {
            if m < copies.len() {
                assert(copies[m].rec_id == a.rec_id);
            }
        }
        let next = if !starts(access, a) {
            copies
        } else if m >= copies.len() {
            copies.push(just_started(access, a, idx))
        } else if copies[m].current_to == copies[m].to {
            copies.update(m, seen_once_more(copies[m], access, idx))
        } else {
            copies
        };
        assert(distinct_copies(next));
        lemma_starts(next, access, rest, idx);
        assert(after == trace_debug::starting(next, access, rest, idx).0);
        assert forall|w: int| 0 <= w < rest.len() implies starts_new(
            next,
            access,
            #[trigger] rest[w],
        ) == starts_new(copies, access, window[w + 1]) by {
            let x = rest[w];
            if starts_new(next, access, x) {
                assert forall|c: int| 0 <= c < copies.len() implies (#[trigger] copies[c]).rec_id
                    != x.announced().rec_id by {
                    assert(next[c].rec_id == copies[c].rec_id);
                }
            }
            if starts_new(copies, access, x) {
                assert forall|c: int| 0 <= c < next.len() implies (#[trigger] next[c]).rec_id
                    != x.announced().rec_id by {
                    if c < copies.len() {
                        assert(next[c].rec_id == copies[c].rec_id);
                    }
                }
            }
        }
        assert forall|w: int, c: int|
            0 <= c < copies.len() && 0 <= w < rest.len() implies #[trigger] meets(
            next,
            access,
            rest,
            w,
            c,
        ) == meets(copies, access, window, w + 1, c) by {
            assert(next[c].rec_id == copies[c].rec_id);
        }
        {
            assert forall|c: int| 0 <= c < copies.len() implies #[trigger] after[c] == (if copies[c].current_to
                == copies[c].to && exists|w: int| meets(copies, access, window, w, c) {
                seen_once_more(copies[c], access, idx)
            } else {
                copies[c]
            }) by {
                let now = exists|w: int| meets(copies, access, window, w, c);
                let later = exists|w: int| meets(next, access, rest, w, c);
                if later {
                    let w = choose|w: int| meets(next, access, rest, w, c);
                    assert(meets(copies, access, window, w + 1, c));
                }
                if now {
                    let w = choose|w: int| meets(copies, access, window, w, c);
                    if w > 0 {
                        assert(meets(next, access, rest, w - 1, c));
                    } else {
                        assert(copies[c].rec_id == a.rec_id);
                        assert(m < copies.len());
                        assert(m == c);
                    }
                }
                if starts(access, a) && m == c {
                    assert(meets(copies, access, window, 0, c));
                    if later {
                        let w = choose|w: int| meets(next, access, rest, w, c);
                        assert(rest[w].announced().rec_id == next[c].rec_id);
                    }
                }
            }
            let more = trace_debug::starting(next, access, rest, idx).1;
            if exists|w: int, c: int|
                0 <= c < copies.len() && copies[c].current_to == copies[c].to && #[trigger] meets(
                    copies,
                    access,
                    window,
                    w,
                    c,
                ) {
                let (w, c) = choose|w: int, c: int|
                    0 <= c < copies.len() && copies[c].current_to == copies[c].to
                        && #[trigger] meets(copies, access, window, w, c);
                if w == 0 {
                    assert(copies[c].rec_id == a.rec_id);
                    assert(m == c);
                } else {
                    assert(meets(next, access, rest, w - 1, c));
                    assert(next[c].rec_id == copies[c].rec_id);
                    if starts(access, a) && m == c {
                        assert(rest[w - 1].announced().rec_id == copies[c].rec_id);
                    }
                    assert(next[c].current_to == next[c].to);
                }
            }
            if more && exists|w: int, c: int|
                0 <= c < next.len() && next[c].current_to == next[c].to && #[trigger] meets(
                    next,
                    access,
                    rest,
                    w,
                    c,
                ) {
                let (w, c) = choose|w: int, c: int|
                    0 <= c < next.len() && next[c].current_to == next[c].to && #[trigger] meets(
                        next,
                        access,
                        rest,
                        w,
                        c,
                    );
                if c < copies.len() {
                    assert(meets(copies, access, window, w + 1, c));
                    if starts(access, a) && m == c {
                        assert(rest[w].announced().rec_id == next[c].rec_id);
                    }
                    assert(copies[c].current_to == copies[c].to);
                } else {
                    assert(rest[w].announced().rec_id == next[c].rec_id);
                }
            }
            if starts(access, a) && m < copies.len() && copies[m].current_to == copies[m].to {
                assert(meets(copies, access, window, 0, m));
            }
            let new = after.skip(copies.len() as int);
            let newer = after.skip(next.len() as int);
            if next.len() > copies.len() {
                let c = copies.len() as int;
                assert(after[c] == next[c]) by {
                    if exists|w: int| meets(next, access, rest, w, c) {
                        let w = choose|w: int| meets(next, access, rest, w, c);
                        assert(rest[w].announced().rec_id == next[c].rec_id);
                    }
                }
                assert(new[0] == just_started(access, a, idx));
            }
            assert forall|w: int|
                0 <= w < window.len() && starts_new(
                    copies,
                    access,
                    #[trigger] window[w],
                ) implies new.contains(just_started(access, window[w].announced(), idx)) by {
                if w == 0 {
                    assert(new[0] == just_started(access, a, idx));
                } else {
                    assert(starts_new(next, access, rest[w - 1]));
                    let x = just_started(access, window[w].announced(), idx);
                    let i = choose|i: int| 0 <= i < newer.len() && newer[i] == x;
                    assert(new[i + (next.len() - copies.len())] == x);
                }
            }
            assert forall|c: int| copies.len() <= c < after.len() implies is_new(
                copies,
                access,
                window,
                idx,
                #[trigger] after[c],
            ) by {
                if c < next.len() {
                    assert(new_of(copies, access, window, idx, after[c], 0));
                } else {
                    assert(is_new(next, access, rest, idx, after[c]));
                    let w = choose|w: int| #[trigger]
                        new_of(next, access, rest, idx, after[c], w);
                    assert(starts_new(next, access, rest[w]));
                    assert(new_of(copies, access, window, idx, after[c], w + 1));
                }
            }
            assert(all_new(copies, access, window, idx, after));
            assert(before_kept(copies, access, window, idx, after));
        }
    }
}

/// Law: a started copy is seen as it is, and so are all started copies, in their places.
pub proof fn law_copy_view(copies: Seq<trace_debug::MemCpy>, i: int)
    requires
        0 <= i < copies.len(),
    ensures
        trace_debug::copyings(copies).len() == copies.len(),
        ({
            let copy = trace_debug::copyings(copies)[i];
            &&& copy.rec_id == copies[i].rec_id
            &&& copy.from == copies[i].from
            &&& copy.to == copies[i].to
            &&& copy.size == copies[i].size
            &&& copy.current_from == copies[i].current_from
            &&& copy.current_to == copies[i].current_to
            &&& copy.first_insn_count == copies[i].first_insn_count
            &&& copy.first_global_idx == copies[i].first_global_idx
            &&& copy.indices == copies[i].associated_indices@
            &&& copy.records == copies[i].associated_records@
        }),
{
}

/// Law: an access moves the place that a copy has written up to if it is a store, and else the
/// place that it has read up to, unless all its bytes are read, by its bytes; it becomes the latest
/// access of the copy if it moves a place.
pub proof fn law_advanced(copy: Copying, access: LogRecord, idx: usize)
    ensures
        ({
            let more = trace_debug::advanced(copy, access, idx);
            let bytes = log_parser::access_bytes(access.size);
            let full = copy.current_from >= copy.from.wrapping_add(copy.size);
            &&& more.current_to == (if access.store == 1 {
                copy.current_to.wrapping_add(bytes)
            } else {
                copy.current_to
            })
            &&& more.current_from == (if access.store == 1 || full {
                copy.current_from
            } else {
                copy.current_from.wrapping_add(bytes)
            })
            &&& more.indices == (if access.store != 1 && full {
                copy.indices
            } else {
                copy.indices.push(idx)
            })
            &&& more.records == (if access.store != 1 && full {
                copy.records
            } else {
                copy.records.push(access)
            })
            &&& more.first_insn_count == copy.first_insn_count
            &&& more.rec_id == copy.rec_id
            &&& more.from == copy.from
            &&& more.to == copy.to
            &&& more.size == copy.size
            &&& more.first_global_idx == copy.first_global_idx
        }),
{
}

/// Law: all completed copies are seen, in their places.
pub proof fn law_completions(events: Seq<trace_debug::RowcloneEvent>, i: int)
    requires
        0 <= i < events.len(),
    ensures
        trace_debug::completions(events).len() == events.len(),
        trace_debug::completions(events)[i] == events[i]@,
{
}

proof fn lemma_events_stay(
    start: Progress<Announcement>,
    history: Seq<LogRecord>,
    j: int,
    k: int,
)
    requires
        0 <= j <= k,
    ensures
        ({
            let p = trace_debug::progress(start, history, j);
            let q = trace_debug::progress(start, history, k);
            p.events.len() <= q.events.len() && forall|e: int|
                0 <= e < p.events.len() ==> #[trigger] q.events[e] == p.events[e]
        }),
    decreases k,
{
    if j < k {
        lemma_events_stay(start, history, j, k - 1);
        let p = trace_debug::progress(start, history, k - 1);
        let q = trace_debug::progress(start, history, k);
        assert forall|e: int| 0 <= e < p.events.len() implies #[trigger] q.events[e]
            == p.events[e] by {}
    }
}

/// Whether the announced copy at place `w` of a window stands alone: no load up to position `e` of
/// the trace starts another announced copy, and only the one at `s` starts it.
pub open spec fn lone(
    history: Seq<LogRecord>,
    window: Seq<Announcement>,
    log: Seq<KernelLine<Announcement>>,
    w: int,
    s: int,
    e: int,
) -> bool {
    let a = window[w];
    &&& 0 <= w < window.len()
    &&& copy_window::ids_increase(copy_window::upcoming(window, log))
    &&& forall|u: int|
        0 <= u < copy_window::upcoming(window, log).len() && u != w ==> not_started(
            #[trigger] copy_window::upcoming(window, log)[u],
            history,
            a,
            0,
            e,
        )
    &&& forall|i: int|
        0 <= i <= e && i != s && (#[trigger] history[i]).store == 0 ==> a.source != Some(
            history[i].address,
        )
    &&& history[s].store == 0
    &&& a.source == Some(history[s].address)
}

/// Whether the trace holds the bytes of an announced copy from position `s` on, and the last of
/// them at position `e`, in order and without a gap from its source and its target. No address runs
/// over.
pub open spec fn held(history: Seq<LogRecord>, a: Announcement, s: int, e: int) -> bool {
    &&& 0 <= s < e < history.len() <= usize::MAX
    &&& !filled(history, a, s, e)
    &&& filled(history, a, s, e + 1)
    &&& a.size > 0
    &&& a.target + a.size <= u64::MAX
    &&& source_of(a) + a.size <= u64::MAX
    &&& read_to(history, a, s, e + 1) <= u64::MAX
    &&& written_to(history, a, s, e + 1) <= u64::MAX
}

/// Law: an announced copy that the trace holds is found, whatever else the trace holds, and is
/// still among the completed copies at the end of the trace. It is said of a copy that stands
/// alone.
pub proof fn law_lone_copy_found(
    history: Seq<LogRecord>,
    window: Seq<Announcement>,
    log: Seq<KernelLine<Announcement>>,
    w: int,
    s: int,
    e: int,
)
    requires
        lone(history, window, log, w, s, e),
        held(history, window[w], s, e),
    ensures
        ({
            let a = window[w];
            let p = trace_debug::progress(
                trace_debug::beginning(window, log),
                history,
                history.len() as int,
            );
            let n = trace_debug::progress(trace_debug::beginning(window, log), history, e).events.len() as int;
            let event = p.events[n];
            &&& n < p.events.len()
            &&& event.target_global_idx == s
            &&& event.end_global_idx == e
            &&& Some(event.from) == a.source
            &&& event.to == a.target
            &&& event.rec_id == a.rec_id
            &&& event.records == accesses_of(history, a, s, e + 1)
        }),
{
    let start = trace_debug::beginning(window, log);
    let a = window[w];
    let all = copy_window::upcoming(window, log);
    assert(all[w] == a);
    lemma_nothing_before(history, window, log, w, s, e, s);
    let p = trace_debug::progress(start, history, s);
    assert(found_at(start, history, w, s, e)) by {
        assert forall|u: int| 0 <= u < all.len() && (
        #[trigger] all[u]).rec_id != a.rec_id implies not_started(all[u], history, a, s, e) by {
            assert(u != w);
            assert(not_started(all[u], history, a, 0, e));
        }
    }
    law_copy_found(start, history, w, s, e);
    lemma_events_stay(start, history, e + 1, history.len() as int);
}

proof fn lemma_nothing_before(
    history: Seq<LogRecord>,
    window: Seq<Announcement>,
    log: Seq<KernelLine<Announcement>>,
    w: int,
    s: int,
    e: int,
    k: int,
)
    requires
        lone(history, window, log, w, s, e),
        0 <= k <= s <= e,
    ensures
        trace_debug::progress(trace_debug::beginning(window, log), history, k) == trace_debug::beginning(window, log),
    decreases k,
{
    if k > 0 {
        lemma_nothing_before(history, window, log, w, s, e, k - 1);
        let start = trace_debug::beginning(window, log);
        let access = history[k - 1];
        let all = copy_window::upcoming(window, log);
        assert forall|x: int| 0 <= x < window.len() implies !trace_debug::is_start(
            access,
            #[trigger] window[x],
        ) by {
            assert(all[x] == window[x]);
            if x != w {
                assert(not_started(all[x], history, window[w], 0, e));
            }
        }
        lemma_no_start(start.active, access, window, (k - 1) as usize);
    }
}

} // verus!
