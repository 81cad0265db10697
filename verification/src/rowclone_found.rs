//! Every announced copy that the trace holds is found and replaced.
use crate::copy_run;
use crate::copy_window;
use crate::copy_window::{Announcement, KernelLine, WindowRecord};
use crate::rowclone;
use crate::rowclone::{Copying, Progress};
use crate::log_parser;
use crate::log_parser::LogRecord;
use vstd::prelude::*;

verus! {

/// The address that an announced copy goes from.
pub open spec fn source_of(a: Announcement) -> u64 {
    match a.source {
        Some(source) => source,
        None => 0,
    }
}

/// Whether a started copy waits for an access: the load at the place that it has read up to, or the
/// store at the place that it has written up to, by its processor.
pub open spec fn awaits(copy: Copying, access: LogRecord) -> bool {
    access.cpu == copy.cpu && if access.store == 1 {
        access.address == copy.current_to
    } else {
        access.store == 0 && access.address == copy.current_from
    }
}

/// How far the loads of a copy that starts at position `s` have come before position `k`.
pub open spec fn read_to(history: Seq<LogRecord>, a: Announcement, s: int, k: int) -> int {
    copy_run::run_end(history, Some(a.cpu), 0, source_of(a), copy_run::no_limit(), s, k)
}

/// How far the stores of a copy that starts at position `s` have come before position `k`.
pub open spec fn written_to(history: Seq<LogRecord>, a: Announcement, s: int, k: int) -> int {
    copy_run::run_end(history, Some(a.cpu), 1, a.target, copy_run::no_limit(), s, k)
}

/// Whether the access at position `i` is one of a copy that starts at position `s`.
pub open spec fn of_copy(history: Seq<LogRecord>, a: Announcement, s: int, i: int) -> bool {
    copy_run::in_run(history, Some(a.cpu), source_of(a), copy_run::no_limit(), a.target, s, i)
}

/// Whether the bytes of the announced copy are all written before position `k`.
pub open spec fn filled(history: Seq<LogRecord>, a: Announcement, s: int, k: int) -> bool {
    written_to(history, a, s, k) >= a.target + a.size
}

/// Whether a started copy waits for none of the accesses of a processor between two positions.
pub open spec fn idle(
    copy: Copying,
    history: Seq<LogRecord>,
    a: Announcement,
    s: int,
    e: int,
) -> bool {
    forall|i: int|
        s <= i <= e && (#[trigger] history[i]).cpu == a.cpu ==> !awaits(copy, history[i])
}

/// Whether another announcement is not started between two positions by the processor of a copy.
pub open spec fn not_started(
    x: Announcement,
    history: Seq<LogRecord>,
    a: Announcement,
    s: int,
    e: int,
) -> bool {
    forall|i: int|
        s <= i <= e && (#[trigger] history[i]).store == 0 && history[i].cpu == a.cpu && x.cpu == a.cpu
            ==> x.source != Some(history[i].address)
}

/// Whether nothing stands in the way of a copy between two positions: no other started copy waits
/// for an access of its processor, and no load of it starts another copy or the same anew.
pub open spec fn undisturbed(
    p: Progress<Announcement>,
    history: Seq<LogRecord>,
    a: Announcement,
    s: int,
    e: int,
) -> bool {
    &&& forall|c: int|
        0 <= c < p.active.len() ==> (#[trigger] p.active[c]).rec_id != a.rec_id && idle(
            p.active[c],
            history,
            a,
            s,
            e,
        )
    &&& forall|u: int|
        0 <= u < copy_window::upcoming(p.window, p.log).len() && (
        #[trigger] copy_window::upcoming(p.window, p.log)[u]).rec_id != a.rec_id ==> not_started(
            copy_window::upcoming(p.window, p.log)[u],
            history,
            a,
            s,
            e,
        )
    &&& not_started(a, history, a, s + 1, e)
}

/// Whether the copy is under way, as the started copy at position `m`.
spec fn underway(
    p: Progress<Announcement>,
    history: Seq<LogRecord>,
    a: Announcement,
    s: int,
    e: int,
    k: int,
    m: int,
) -> bool {
    &&& 0 <= m < p.active.len()
    &&& ours(p.active[m], history, a, s, k)
    &&& forall|c: int|
        0 <= c < p.active.len() && c != m ==> (#[trigger] p.active[c]).rec_id != a.rec_id && idle(
            p.active[c],
            history,
            a,
            s,
            e,
        )
    &&& all_passive(p, history, a, s, e)
    &&& p.valid.len() == history.len()
}

spec fn passive(
    x: Announcement,
    history: Seq<LogRecord>,
    a: Announcement,
    s: int,
    e: int,
) -> bool {
    if x.rec_id == a.rec_id {
        x.source == a.source && x.cpu == a.cpu
    } else {
        not_started(x, history, a, s, e)
    }
}

spec fn all_passive(
    p: Progress<Announcement>,
    history: Seq<LogRecord>,
    a: Announcement,
    s: int,
    e: int,
) -> bool {
    forall|u: int|
        0 <= u < copy_window::upcoming(p.window, p.log).len() ==> passive(
            #[trigger] copy_window::upcoming(p.window, p.log)[u],
            history,
            a,
            s,
            e,
        )
}

spec fn ours(copy: Copying, history: Seq<LogRecord>, a: Announcement, s: int, k: int) -> bool {
    &&& copy.rec_id == a.rec_id
    &&& copy.cpu == a.cpu
    &&& copy.from == source_of(a)
    &&& copy.to == a.target
    &&& copy.size == a.size
    &&& copy.current_from == read_to(history, a, s, k)
    &&& copy.current_to == written_to(history, a, s, k)
    &&& copy.first_insn_count == history[s].insn_count
    &&& copy.first_global_idx == s
    &&& forall|i: int|
        s <= i < k && #[trigger] of_copy(history, a, s, i) ==> rowclone::includes(copy.indices, i)
    &&& forall|j: int|
        0 <= j < copy.indices.len() ==> s <= #[trigger] copy.indices[j] < k && of_copy(
            history,
            a,
            s,
            copy.indices[j] as int,
        )
}

/// Where no announcement of the window is started, the started copies stay as they are.
proof fn lemma_no_start(
    copies: Seq<Copying>,
    access: LogRecord,
    window: Seq<Announcement>,
    idx: usize,
)
    requires
        forall|w: int| 0 <= w < window.len() ==> !rowclone::is_start(access, #[trigger] window[w]),
    ensures
        rowclone::starting(copies, access, window, idx) == (copies, false),
    decreases window.len(),
{
    if window.len() > 0 {
        assert(!rowclone::is_start(access, window[0]));
        assert forall|w: int| 0 <= w < window.skip(1).len() implies !rowclone::is_start(
            access,
            #[trigger] window.skip(1)[w],
        ) by {
            assert(window.skip(1)[w] == window[w + 1]);
        }
        lemma_no_start(copies, access, window.skip(1), idx);
    }
}

/// Where one announcement of the window is started, its copy is the only new one.
proof fn lemma_one_start(
    copies: Seq<Copying>,
    access: LogRecord,
    window: Seq<Announcement>,
    idx: usize,
    w: int,
)
    requires
        0 <= w < window.len(),
        rowclone::is_start(access, window[w]),
        forall|x: int|
            0 <= x < window.len() && x != w ==> !rowclone::is_start(access, #[trigger] window[x]),
        forall|c: int| 0 <= c < copies.len() ==> (#[trigger] copies[c]).rec_id != window[w].rec_id,
    ensures
        rowclone::starting(copies, access, window, idx) == (
            copies.push(rowclone::new_copy(access, window[w], idx)),
            true,
        ),
    decreases window.len(),
{
    let rest = window.skip(1);
    rowclone::lemma_started(copies, window[w].rec_id, 0);
    assert forall|x: int| 0 <= x < rest.len() && x != w - 1 implies !rowclone::is_start(
        access,
        #[trigger] rest[x],
    ) by {
        assert(rest[x] == window[x + 1]);
    }
    if w == 0 {
        lemma_no_start(copies.push(rowclone::new_copy(access, window[w], idx)), access, rest, idx);
    } else {
        assert(!rowclone::is_start(access, window[0]));
        assert(rest[w - 1] == window[w]);
        lemma_one_start(copies, access, rest, idx, w - 1);
    }
}

/// An access that starts only other announcements leaves a started copy as it is.
proof fn lemma_other_start(
    copies: Seq<Copying>,
    access: LogRecord,
    window: Seq<Announcement>,
    idx: usize,
    id: u64,
)
    requires
        forall|w: int|
            0 <= w < window.len() && rowclone::is_start(access, #[trigger] window[w])
                ==> window[w].rec_id != id,
    ensures
        ({
            let r = rowclone::starting(copies, access, window, idx).0;
            &&& copies.len() <= r.len()
            &&& forall|c: int|
                0 <= c < copies.len() ==> (#[trigger] r[c]).rec_id == copies[c].rec_id && r[c].cpu
                    == copies[c].cpu && r[c].current_from == copies[c].current_from
                    && r[c].current_to == copies[c].current_to && (copies[c].rec_id == id ==> r[c]
                    == copies[c])
            &&& forall|c: int|
                copies.len() <= c < r.len() ==> (#[trigger] r[c]).rec_id != id && r[c].cpu
                    == access.cpu
        }),
    decreases window.len(),
{
    if window.len() > 0 {
        let rest = window.skip(1);
        let m = rowclone::started(copies, window[0].rec_id, 0);
        rowclone::lemma_started(copies, window[0].rec_id, 0);
        assert forall|w: int|
            0 <= w < rest.len() && rowclone::is_start(access, #[trigger] rest[w]) implies rest[w].rec_id
            != id by {
            assert(rest[w] == window[w + 1]);
        }
        let next = if !rowclone::is_start(access, window[0]) {
            copies
        } else if m >= copies.len() {
            copies.push(rowclone::new_copy(access, window[0], idx))
        } else if copies[m].current_to == copies[m].to {
            copies.update(m, Copying { indices: copies[m].indices.push(idx), ..copies[m] })
        } else {
            copies
        };
        lemma_other_start(next, access, rest, idx, id);
        let r = rowclone::starting(next, access, rest, idx).0;
        assert forall|c: int| 0 <= c < copies.len() implies (#[trigger] r[c]).rec_id
            == copies[c].rec_id && r[c].cpu == copies[c].cpu && r[c].current_from
            == copies[c].current_from && r[c].current_to == copies[c].current_to && (
        copies[c].rec_id == id ==> r[c] == copies[c]) by {
            assert(next[c].rec_id == copies[c].rec_id);
        }
        assert forall|c: int| copies.len() <= c < r.len() implies (#[trigger] r[c]).rec_id != id
            && r[c].cpu == access.cpu by {
            if c < next.len() {
                assert(r[c].rec_id == next[c].rec_id);
            }
        }
    }
}

/// A completed copy leaves the other announcements as passive as they were.
proof fn lemma_passive_completion(
    p: Progress<Announcement>,
    q: Progress<Announcement>,
    history: Seq<LogRecord>,
    a: Announcement,
    s: int,
    e: int,
    id: u64,
)
    requires
        all_passive(p, history, a, s, e),
        (q.window, q.log) == copy_window::after_completion(p.window, p.log, id),
    ensures
        all_passive(q, history, a, s, e),
{
    copy_window::law_completion(p.window, p.log, id);
    let before = copy_window::upcoming(p.window, p.log);
    let (window, log) = copy_window::after_completion(p.window, p.log, id);
    assert(q.window == window && q.log == log);
    let after = copy_window::upcoming(window, log);
    assert forall|u: int| 0 <= u < after.len() implies passive(
        #[trigger] after[u],
        history,
        a,
        s,
        e,
    ) by {
        assert(copy_window::among(before, after[u].announced()));
        let b = choose|b: int|
            0 <= b < before.len() && copy_window::same_copy(
                after[u],
                (#[trigger] before[b]).announced(),
            );
        assert(passive(before[b], history, a, s, e));
    }
}

/// The copy starts.
proof fn lemma_begins(
    p: Progress<Announcement>,
    history: Seq<LogRecord>,
    w: int,
    s: int,
    e: int,
)
    requires
        0 <= s < e < history.len() <= usize::MAX,
        0 <= w < p.window.len(),
        copy_window::ids_increase(copy_window::upcoming(p.window, p.log)),
        undisturbed(p, history, p.window[w], s, e),
        history[s].store == 0,
        p.window[w].source == Some(history[s].address),
        history[s].cpu == p.window[w].cpu,
        p.valid.len() == history.len(),
        read_to(history, p.window[w], s, e + 1) <= u64::MAX,
    ensures
        underway(
            rowclone::after_access(p, history[s], s as usize),
            history,
            p.window[w],
            s,
            e,
            s + 1,
            p.active.len() as int,
        ),
{
    let a = p.window[w];
    let access = history[s];
    let idx = s as usize;
    let all = copy_window::upcoming(p.window, p.log);
    rowclone::lemma_continued(p.active, access, 0);
    let m = rowclone::continued(p.active, access, 0);
    if m < p.active.len() {
        assert(idle(p.active[m], history, a, s, e));
        assert(!awaits(p.active[m], history[s]));
    }
    assert(all[w] == a);
    assert forall|x: int| 0 <= x < p.window.len() && x != w implies !rowclone::is_start(
        access,
        #[trigger] p.window[x],
    ) by {
        assert(all[x] == p.window[x]);
        assert(all[x].id() != all[w].id());
        assert(not_started(all[x], history, a, s, e));
    }
    lemma_one_start(p.active, access, p.window, idx, w);
    copy_run::lemma_run_grows(history, Some(a.cpu), 0, source_of(a), copy_run::no_limit(), s, s + 1, e + 1);
    reveal_with_fuel(copy_run::run_end, 2);
    let q = rowclone::after_access(p, access, idx);
    let copy = q.active[p.active.len() as int];
    assert(of_copy(history, a, s, s));
    assert(copy.indices[0] == s);
    assert(ours(copy, history, a, s, s + 1));
    assert forall|u: int| 0 <= u < all.len() implies passive(#[trigger] all[u], history, a, s, e) by {
        if all[u].rec_id == a.rec_id {
            assert(all[u].id() == all[w].id());
            assert(u == w);
        }
    }
    assert forall|c: int| 0 <= c < q.active.len() && c != p.active.len() implies (
    #[trigger] q.active[c]).rec_id != a.rec_id && idle(q.active[c], history, a, s, e) by {
        assert(q.active[c] == p.active[c]);
    }
}

/// An access that the copy waits for is taken by it.
proof fn lemma_taken(
    p: Progress<Announcement>,
    history: Seq<LogRecord>,
    a: Announcement,
    s: int,
    e: int,
    k: int,
    m: int,
)
    requires
        0 <= s < k <= e < history.len() <= usize::MAX,
        underway(p, history, a, s, e, k, m),
        awaits(p.active[m], history[k]),
        read_to(history, a, s, e + 1) <= u64::MAX,
        written_to(history, a, s, e + 1) <= u64::MAX,
    ensures
        rowclone::continued(p.active, history[k], 0) == m,
        ours(rowclone::advanced(p.active[m], history[k], k as usize), history, a, s, k + 1),
{
    let access = history[k];
    let idx = k as usize;
    let copy = p.active[m];
    rowclone::lemma_continued(p.active, access, 0);
    let x = rowclone::continued(p.active, access, 0);
    if x != m {
        if x < p.active.len() {
            assert(idle(p.active[x], history, a, s, e));
            assert(!awaits(p.active[x], history[k]));
        } else {
            assert(rowclone::continues(access, p.active[m]));
        }
    }
    copy_run::lemma_run_grows(history, Some(a.cpu), 0, source_of(a), copy_run::no_limit(), s, k + 1, e + 1);
    copy_run::lemma_run_grows(history, Some(a.cpu), 1, a.target, copy_run::no_limit(), s, k + 1, e + 1);
    copy_run::lemma_run_grows(history, Some(a.cpu), 0, source_of(a), copy_run::no_limit(), s, k, k + 1);
    let more = rowclone::advanced(copy, access, idx);
    assert(of_copy(history, a, s, k) == (access.store == 1 || read_to(history, a, s, k) < copy_run::no_limit()));
    assert forall|i: int| s <= i < k + 1 && #[trigger] of_copy(history, a, s, i) implies
        rowclone::includes(more.indices, i) by {
        if i < k {
            let j = choose|j: int| 0 <= j < copy.indices.len() && #[trigger] copy.indices[j] == i;
            assert(more.indices[j] == i);
        } else {
            assert(more.indices[copy.indices.len() as int] == i);
        }
    }
    assert forall|j: int| 0 <= j < more.indices.len() implies s <= #[trigger] more.indices[j] < k + 1
        && of_copy(history, a, s, more.indices[j] as int) by {
        if j < copy.indices.len() {
            assert(more.indices[j] == copy.indices[j]);
        }
    }
}

/// The copy stays under way until all is written.
proof fn lemma_goes_on(
    p: Progress<Announcement>,
    history: Seq<LogRecord>,
    a: Announcement,
    s: int,
    e: int,
    k: int,
    m: int,
) -> (n: int)
    requires
        0 <= s < k < e < history.len() <= usize::MAX,
        underway(p, history, a, s, e, k, m),
        not_started(a, history, a, s + 1, e),
        !filled(history, a, s, k + 1),
        a.target + a.size <= u64::MAX,
        read_to(history, a, s, e + 1) <= u64::MAX,
        written_to(history, a, s, e + 1) <= u64::MAX,
    ensures
        underway(rowclone::after_access(p, history[k], k as usize), history, a, s, e, k + 1, n),
{
    let access = history[k];
    let idx = k as usize;
    let q = rowclone::after_access(p, access, idx);
    let all = copy_window::upcoming(p.window, p.log);
    rowclone::lemma_continued(p.active, access, 0);
    let x = rowclone::continued(p.active, access, 0);
    if awaits(p.active[m], access) {
        lemma_taken(p, history, a, s, e, k, m);
        assert(q.active =~= p.active.update(m, rowclone::advanced(p.active[m], access, idx)));
        m
    } else {
        lemma_not_of_copy(history, a, s, k, p.active[m]);
        if access.cpu == a.cpu {
            if x < p.active.len() {
                assert(idle(p.active[x], history, a, s, e));
                assert(!awaits(p.active[x], history[k]));
            }
            lemma_window_quiet(p, history, a, s, e, k);
            lemma_no_start(p.active, access, p.window, idx);
            assert(q.active =~= p.active);
            m
        } else if x < p.active.len() {
            let copy = rowclone::advanced(p.active[x], access, idx);
            if rowclone::complete(copy) {
                lemma_passive_completion(p, q, history, a, s, e, copy.rec_id);
                let n = if x < m {
                    m - 1
                } else {
                    m
                };
                assert(q.active =~= p.active.remove(x));
                assert forall|c: int| 0 <= c < q.active.len() && c != n implies (
                #[trigger] q.active[c]).rec_id != a.rec_id && idle(q.active[c], history, a, s, e) by {
                    let d = if c < x {
                        c
                    } else {
                        c + 1
                    };
                    assert(q.active[c] == p.active[d]);
                }
                n
            } else {
                assert(q.active =~= p.active.update(x, copy));
                assert(idle(copy, history, a, s, e)) by {
                    assert(copy.cpu == access.cpu);
                }
                m
            }
        } else {
            assert forall|w: int|
                0 <= w < p.window.len() && rowclone::is_start(
                    access,
                    #[trigger] p.window[w],
                ) implies p.window[w].rec_id != a.rec_id by {
                assert(all[w] == p.window[w]);
                assert(passive(all[w], history, a, s, e));
            }
            lemma_other_start(p.active, access, p.window, idx, a.rec_id);
            assert forall|c: int| 0 <= c < q.active.len() && c != m implies (
            #[trigger] q.active[c]).rec_id != a.rec_id && idle(q.active[c], history, a, s, e) by {
                if c < p.active.len() {
                    assert(p.active[c].rec_id != a.rec_id);
                    assert(idle(p.active[c], history, a, s, e));
                    assert forall|i: int|
                        s <= i <= e && (#[trigger] history[i]).cpu == a.cpu implies !awaits(
                        q.active[c],
                        history[i],
                    ) by {
                        assert(!awaits(p.active[c], history[i]));
                    }
                }
            }
            m
        }
    }
}

/// An access that the copy does not wait for is none of it.
proof fn lemma_not_of_copy(
    history: Seq<LogRecord>,
    a: Announcement,
    s: int,
    k: int,
    copy: Copying,
)
    requires
        s < k < history.len(),
        ours(copy, history, a, s, k),
        !awaits(copy, history[k]),
    ensures
        ours(copy, history, a, s, k + 1),
{
    assert(!of_copy(history, a, s, k));
    assert forall|i: int| s <= i < k + 1 && #[trigger] of_copy(history, a, s, i) implies
        rowclone::includes(copy.indices, i) by {}
}

/// While the copy is under way, no load of its processor starts a copy.
proof fn lemma_window_quiet(
    p: Progress<Announcement>,
    history: Seq<LogRecord>,
    a: Announcement,
    s: int,
    e: int,
    k: int,
)
    requires
        s < k <= e,
        all_passive(p, history, a, s, e),
        not_started(a, history, a, s + 1, e),
        history[k].cpu == a.cpu,
    ensures
        forall|w: int|
            0 <= w < p.window.len() ==> !rowclone::is_start(history[k], #[trigger] p.window[w]),
{
    let all = copy_window::upcoming(p.window, p.log);
    assert forall|w: int| 0 <= w < p.window.len() implies !rowclone::is_start(
        history[k],
        #[trigger] p.window[w],
    ) by {
        assert(all[w] == p.window[w]);
        assert(passive(all[w], history, a, s, e));
    }
}

/// The copy is under way at every position up to the end.
proof fn lemma_underway(
    start: Progress<Announcement>,
    history: Seq<LogRecord>,
    w: int,
    s: int,
    e: int,
    k: int,
) -> (m: int)
    requires
        found_at(start, history, w, s, e),
        s < k <= e,
    ensures
        underway(
            rowclone::progress(start, history, k),
            history,
            rowclone::progress(start, history, s).window[w],
            s,
            e,
            k,
            m,
        ),
    decreases k,
{
    let p = rowclone::progress(start, history, s);
    let a = p.window[w];
    if k == s + 1 {
        lemma_begins(p, history, w, s, e);
        p.active.len() as int
    } else {
        let m = lemma_underway(start, history, w, s, e, k - 1);
        copy_run::lemma_run_grows(history, Some(a.cpu), 1, a.target, copy_run::no_limit(), s, k, e);
        copy_run::lemma_run_grows(history, Some(a.cpu), 0, source_of(a), copy_run::no_limit(), s, k, e);
        lemma_goes_on(rowclone::progress(start, history, k - 1), history, a, s, e, k - 1, m)
    }
}

/// Whether the trace holds the copy of the announcement at place `w` of the window, from position
/// `s` to position `e`: the load at its source is at `s`, its bytes are all written, in order and
/// without a gap from its target, for the first time with the access at `e`, and nothing stands in
/// its way. No address runs over.
pub open spec fn found_at(
    start: Progress<Announcement>,
    history: Seq<LogRecord>,
    w: int,
    s: int,
    e: int,
) -> bool {
    let p = rowclone::progress(start, history, s);
    let a = p.window[w];
    &&& 0 <= s < e < history.len() <= usize::MAX
    &&& 0 <= w < p.window.len()
    &&& copy_window::ids_increase(copy_window::upcoming(p.window, p.log))
    &&& undisturbed(p, history, a, s, e)
    &&& history[s].store == 0
    &&& a.source == Some(history[s].address)
    &&& history[s].cpu == a.cpu
    &&& p.valid.len() == history.len()
    &&& !filled(history, a, s, e)
    &&& filled(history, a, s, e + 1)
    &&& a.size > 0
    &&& a.target + a.size <= u64::MAX
    &&& read_to(history, a, s, e + 1) <= u64::MAX
    &&& written_to(history, a, s, e + 1) <= u64::MAX
}

/// Law: every announced copy that the trace holds is found. Once its last byte is written, it is
/// the latest of the completed copies, with its processor, the instruction count and the position
/// of its first load, the position of its last store and its addresses; all its loads and stores
/// are replaced; and it is under way no more. Other accesses may stand between its own.
pub proof fn law_copy_found(
    start: Progress<Announcement>,
    history: Seq<LogRecord>,
    w: int,
    s: int,
    e: int,
)
    requires
        found_at(start, history, w, s, e),
    ensures
        ({
            let a = rowclone::progress(start, history, s).window[w];
            let before = rowclone::progress(start, history, e);
            let p = rowclone::progress(start, history, e + 1);
            let event = p.events.last();
            &&& p.events.drop_last() == before.events
            &&& p.events.len() == before.events.len() + 1
            &&& event.target_global_idx == s
            &&& event.end_global_idx == e
            &&& Some(event.from) == a.source
            &&& event.to == a.target
            &&& event.cpu == a.cpu
            &&& event.insn_count == history[s].insn_count
            &&& forall|i: int|
                s <= i <= e && #[trigger] of_copy(history, a, s, i) ==> p.valid[i]
            &&& forall|i: int|
                0 <= i < history.len() && (i < s || i > e || !#[trigger] of_copy(history, a, s, i))
                    ==> p.valid[i] == before.valid[i]
            &&& forall|c: int| 0 <= c < p.active.len() ==> (#[trigger] p.active[c]).rec_id != a.rec_id
            &&& p.active.len() + 1 == before.active.len()
        }),
{
    let a = rowclone::progress(start, history, s).window[w];
    let p = rowclone::progress(start, history, e);
    let m = lemma_underway(start, history, w, s, e, e);
    let access = history[e];
    let idx = e as usize;
    copy_run::lemma_run_grows(history, Some(a.cpu), 1, a.target, copy_run::no_limit(), s, e, e + 1);
    copy_run::lemma_run_grows(history, Some(a.cpu), 0, source_of(a), copy_run::no_limit(), s, e, e + 1);
    assert(awaits(p.active[m], access));
    lemma_taken(p, history, a, s, e, e, m);
    let copy = rowclone::advanced(p.active[m], access, idx);
    assert(rowclone::complete(copy));
    let q = rowclone::progress(start, history, e + 1);
    assert(q.events.drop_last() =~= p.events);
    assert forall|c: int| 0 <= c < q.active.len() implies (#[trigger] q.active[c]).rec_id
        != a.rec_id by {
        let d = if c < m {
            c
        } else {
            c + 1
        };
        assert(q.active[c] == p.active[d]);
    }
    assert forall|i: int|
        0 <= i < history.len() && (i < s || i > e || !#[trigger] of_copy(history, a, s, i)) implies
        q.valid[i] == p.valid[i] by {
        if rowclone::includes(copy.indices, i) {
            let j = choose|j: int| 0 <= j < copy.indices.len() && #[trigger] copy.indices[j] == i;
            assert(of_copy(history, a, s, copy.indices[j] as int));
        }
    }
}

/// Law: an access that started copies wait for is taken by the first of them, whatever the others
/// are: its place moves on by the bytes of the access, and nothing else of the started copies
/// changes. Where that is the last byte to write, the copy is completed, and leaves the started
/// copies and the window; else the completed copies, the window and the log stay as they are.
pub proof fn law_awaited<R: WindowRecord>(p: Progress<R>, access: LogRecord, idx: usize, m: int)
    requires
        0 <= m < p.active.len(),
        awaits(p.active[m], access),
        forall|c: int| 0 <= c < m ==> !awaits(#[trigger] p.active[c], access),
        idx < p.valid.len() <= usize::MAX,
    ensures
        ({
            let q = rowclone::after_access(p, access, idx);
            let copy = p.active[m];
            let bytes = log_parser::access_bytes(access.size);
            let read = if access.store == 1 {
                copy.current_from
            } else {
                copy.current_from.wrapping_add(bytes)
            };
            let written = if access.store == 1 {
                copy.current_to.wrapping_add(bytes)
            } else {
                copy.current_to
            };
            let done = written >= copy.to.wrapping_add(copy.size);
            &&& rowclone::after_continuing(p, access, idx) == (q, true)
            &&& done ==> {
                &&& q.active == p.active.remove(m)
                &&& q.events.len() == p.events.len() + 1
                &&& q.events.drop_last() == p.events
                &&& q.events.last().target_global_idx == copy.first_global_idx
                &&& q.events.last().end_global_idx == idx
                &&& q.events.last().from == copy.from
                &&& q.events.last().to == copy.to
                &&& q.events.last().cpu == copy.cpu
                &&& q.events.last().insn_count == copy.first_insn_count
                &&& q.valid.len() == p.valid.len()
                &&& forall|i: int|
                    0 <= i < p.valid.len() ==> (#[trigger] q.valid[i] <==> p.valid[i] || i == idx
                        || copy.indices.contains(i as usize))
                &&& (q.window, q.log) == copy_window::after_completion(
                    p.window,
                    p.log,
                    copy.rec_id,
                )
            }
            &&& !done ==> {
                &&& q.active.len() == p.active.len()
                &&& forall|c: int|
                    0 <= c < p.active.len() && c != m ==> #[trigger] q.active[c] == p.active[c]
                &&& q.active[m].rec_id == copy.rec_id
                &&& q.active[m].from == copy.from
                &&& q.active[m].to == copy.to
                &&& q.active[m].size == copy.size
                &&& q.active[m].current_from == read
                &&& q.active[m].current_to == written
                &&& q.active[m].first_insn_count == copy.first_insn_count
                &&& q.active[m].first_global_idx == copy.first_global_idx
                &&& q.active[m].cpu == copy.cpu
                &&& q.active[m].indices == copy.indices.push(idx)
                &&& q.valid == p.valid
                &&& q.events == p.events
                &&& q.window == p.window
                &&& q.log == p.log
            }
        }),
{
    rowclone::lemma_continued(p.active, access, 0);
    let x = rowclone::continued(p.active, access, 0);
    assert(rowclone::continues(access, p.active[m]));
    assert(x == m) by {
        if x < m {
            assert(!awaits(p.active[x], access));
        }
    }
    let q = rowclone::after_access(p, access, idx);
    let copy = rowclone::advanced(p.active[m], access, idx);
    if rowclone::complete(copy) {
        assert(q.events.drop_last() =~= p.events);
        let before = p.active[m].indices;
        assert forall|i: int| 0 <= i < p.valid.len() implies (#[trigger] q.valid[i] <==> p.valid[i]
            || i == idx || before.contains(i as usize)) by {
            if rowclone::includes(copy.indices, i) {
                let j = choose|j: int|
                    0 <= j < copy.indices.len() && #[trigger] copy.indices[j] == i;
                if j < before.len() {
                    assert(before[j] == i as usize);
                }
            }
            if before.contains(i as usize) {
                let j = choose|j: int| 0 <= j < before.len() && before[j] == i as usize;
                assert(copy.indices[j] == i);
            }
            if i == idx {
                assert(copy.indices[before.len() as int] == i);
            }
        }
    }
}

/// Whether an access is the first load of an announced copy.
pub open spec fn starts(access: LogRecord, a: Announcement) -> bool {
    &&& access.store == 0
    &&& a.source matches Some(source) && source == access.address
    &&& access.cpu == a.cpu
}

/// Whether an access starts an announced copy that has not started.
pub open spec fn starts_new<R: WindowRecord>(
    copies: Seq<Copying>,
    access: LogRecord,
    x: R,
) -> bool {
    starts(access, x.announced()) && forall|c: int|
        0 <= c < copies.len() ==> (#[trigger] copies[c]).rec_id != x.announced().rec_id
}

/// A copy as it is right after it was started.
pub open spec fn just_started(access: LogRecord, a: Announcement, idx: usize) -> Copying {
    Copying {
        rec_id: a.rec_id,
        cpu: a.cpu as usize,
        from: access.address,
        to: a.target,
        size: a.size,
        current_from: access.address.wrapping_add(log_parser::access_bytes(access.size)),
        current_to: a.target,
        indices: seq![idx],
        first_insn_count: access.insn_count,
        first_global_idx: idx,
    }
}

/// A started copy whose first load is seen once more: the access is one more of it.
pub open spec fn seen_once_more(copy: Copying, access: LogRecord, idx: usize) -> Copying {
    Copying { indices: copy.indices.push(idx), ..copy }
}

/// Whether the access starts none of the first `n` announcements of a window anew.
#[verifier::opaque]
pub open spec fn none_new<R: WindowRecord>(
    copies: Seq<Copying>,
    access: LogRecord,
    window: Seq<R>,
    n: int,
) -> bool {
    forall|x: int| 0 <= x < n ==> !starts_new(copies, access, #[trigger] window[x])
}

/// Whether the announcement at a place of the window is that of a started copy, of which the access
/// is the first load, and stands before any that the access starts.
pub open spec fn meets<R: WindowRecord>(
    copies: Seq<Copying>,
    access: LogRecord,
    window: Seq<R>,
    w: int,
    c: int,
) -> bool {
    &&& 0 <= w < window.len()
    &&& starts(access, window[w].announced())
    &&& window[w].announced().rec_id == copies[c].rec_id
    &&& none_new(copies, access, window, w)
}

/// Whether no two announcements of a window have one identity.
pub open spec fn distinct<R: WindowRecord>(window: Seq<R>) -> bool {
    forall|i: int, j: int|
        0 <= i < j < window.len() ==> (#[trigger] window[i]).announced().rec_id != (
        #[trigger] window[j]).announced().rec_id
}

/// Whether no two started copies have one identity.
pub open spec fn distinct_copies(copies: Seq<Copying>) -> bool {
    forall|i: int, j: int|
        0 <= i < j < copies.len() ==> (#[trigger] copies[i]).rec_id != (#[trigger] copies[j]).rec_id
}

/// The started copies that were there before, after an access that may start copies.
pub open spec fn before_kept<R: WindowRecord>(
    copies: Seq<Copying>,
    access: LogRecord,
    window: Seq<R>,
    idx: usize,
    after: Seq<Copying>,
) -> bool {
    forall|c: int|
        0 <= c < copies.len() ==> #[trigger] after[c] == (if copies[c].current_to == copies[c].to
            && exists|w: int| meets(copies, access, window, w, c) {
            seen_once_more(copies[c], access, idx)
        } else {
            copies[c]
        })
}

/// Whether the copy of the first announcement that the access starts is the only new one.
pub open spec fn one_new<R: WindowRecord>(
    copies: Seq<Copying>,
    access: LogRecord,
    window: Seq<R>,
    idx: usize,
    after: Seq<Copying>,
) -> bool {
    &&& copies.len() <= after.len() <= copies.len() + 1
    &&& none_new(copies, access, window, window.len() as int) ==> after.len() == copies.len()
    &&& forall|w: int|
        0 <= w < window.len() && starts_new(copies, access, window[w]) && #[trigger] none_new(
            copies,
            access,
            window,
            w,
        ) ==> after.len() == copies.len() + 1 && after.last() == just_started(
            access,
            window[w].announced(),
            idx,
        )
}

/// Law: an access that no started copy waits for may start copies: the first announcement of the
/// window that it starts and that has not started gets a copy, and only that one. A copy that had
/// started with the same first load and has written nothing takes it as one more access. All else
/// stays as it is.
pub proof fn law_not_awaited<R: WindowRecord>(p: Progress<R>, access: LogRecord, idx: usize)
    requires
        forall|c: int| 0 <= c < p.active.len() ==> !awaits(#[trigger] p.active[c], access),
        distinct(p.window),
        distinct_copies(p.active),
    ensures
        ({
            let q = rowclone::after_access(p, access, idx);
            &&& rowclone::after_continuing(p, access, idx) == (p, false)
            &&& q.events == p.events
            &&& q.window == p.window
            &&& q.log == p.log
            &&& q.valid == p.valid
            &&& before_kept(p.active, access, p.window, idx, q.active)
            &&& one_new(p.active, access, p.window, idx, q.active)
        }),
{
    rowclone::lemma_continued(p.active, access, 0);
    let x = rowclone::continued(p.active, access, 0);
    if x < p.active.len() {
        assert(!awaits(p.active[x], access));
    }
    lemma_starts(p.active, access, p.window, idx);
}

/// Law: an access belongs to a copy that starts with it if and only if it starts one, or is once
/// more the first load of one that has written nothing.
pub proof fn law_belongs<R: WindowRecord>(
    copies: Seq<Copying>,
    access: LogRecord,
    window: Seq<R>,
    idx: usize,
)
    requires
        distinct(window),
        distinct_copies(copies),
    ensures
        ({
            let (after, belongs) = rowclone::starting(copies, access, window, idx);
            belongs <==> after.len() > copies.len() || exists|w: int, c: int|
                0 <= c < copies.len() && copies[c].current_to == copies[c].to && #[trigger] meets(
                    copies,
                    access,
                    window,
                    w,
                    c,
                )
        }),
{
    lemma_starts(copies, access, window, idx);
}

#[verifier::spinoff_prover]
#[verifier::rlimit(60)]
proof fn lemma_starts<R: WindowRecord>(
    copies: Seq<Copying>,
    access: LogRecord,
    window: Seq<R>,
    idx: usize,
)
    requires
        distinct(window),
        distinct_copies(copies),
    ensures
        ({
            let (after, belongs) = rowclone::starting(copies, access, window, idx);
            &&& before_kept(copies, access, window, idx, after)
            &&& one_new(copies, access, window, idx, after)
            &&& belongs <==> after.len() > copies.len() || exists|w: int, c: int|
                0 <= c < copies.len() && copies[c].current_to == copies[c].to && #[trigger] meets(
                    copies,
                    access,
                    window,
                    w,
                    c,
                )
        }),
    decreases window.len(),
{
    let (after, belongs) = rowclone::starting(copies, access, window, idx);
    if window.len() == 0 {
    } else {
        let a = window[0].announced();
        let rest = window.skip(1);
        assert(distinct(rest)) by {
            assert forall|i: int, j: int| 0 <= i < j < rest.len() implies (
            #[trigger] rest[i]).announced().rec_id != (#[trigger] rest[j]).announced().rec_id by {
                assert(rest[i] == window[i + 1] && rest[j] == window[j + 1]);
            }
        }
        assert forall|w: int| 0 <= w < rest.len() implies (
        #[trigger] rest[w]).announced().rec_id != a.rec_id && rest[w] == window[w + 1] by {
            assert(window[0].announced().rec_id != window[w + 1].announced().rec_id);
        }
        let m = rowclone::started(copies, a.rec_id, 0);
        rowclone::lemma_started(copies, a.rec_id, 0);
        assert(rowclone::is_start(access, a) == starts(access, a));
        assert(starts_new(copies, access, window[0]) == (starts(access, a) && m >= copies.len())) by {
            if m < copies.len() {
                assert(copies[m].rec_id == a.rec_id);
            }
        }
        if starts_new(copies, access, window[0]) {
            assert(after == copies.push(just_started(access, a, idx)));
            lemma_new_first(copies, access, window);
            assert forall|w: int, c: int| 0 <= c < copies.len() implies !#[trigger] meets(
                copies,
                access,
                window,
                w,
                c,
            ) by {
                if w == 0 {
                    assert(copies[c].rec_id != a.rec_id);
                }
            }
        } else {
            let next = if starts(access, a) && copies[m].current_to == copies[m].to {
                copies.update(m, seen_once_more(copies[m], access, idx))
            } else {
                copies
            };
            assert forall|c: int| 0 <= c < copies.len() implies (#[trigger] next[c]).rec_id
                == copies[c].rec_id by {}
            lemma_starts(next, access, rest, idx);
            assert(after == rowclone::starting(next, access, rest, idx).0);
            lemma_shift(copies, next, access, window);
            assert forall|w: int, c: int|
                0 <= c < copies.len() && 0 <= w < rest.len() implies #[trigger] meets(
                next,
                access,
                rest,
                w,
                c,
            ) == meets(copies, access, window, w + 1, c) by {
                assert(none_new(next, access, rest, w) == none_new(copies, access, window, w + 1));
            }
            assert forall|c: int| 0 <= c < copies.len() implies #[trigger] after[c] == (if copies[c].current_to
                == copies[c].to && exists|w: int| meets(copies, access, window, w, c) {
                seen_once_more(copies[c], access, idx)
            } else {
                copies[c]
            }) by {
                let now = exists|w: int| meets(copies, access, window, w, c);
                let later = exists|w: int| meets(next, access, rest, w, c);
                if later {
                    let w = choose|w: int| meets(next, access, rest, w, c);
                    assert(meets(copies, access, window, w + 1, c));
                }
                if now {
                    let w = choose|w: int| meets(copies, access, window, w, c);
                    if w > 0 {
                        assert(meets(next, access, rest, w - 1, c));
                    } else {
                        assert(copies[c].rec_id == a.rec_id);
                        assert(m < copies.len());
                        assert(m == c);
                    }
                }
                if starts(access, a) && m == c {
                    assert(meets(copies, access, window, 0, c));
                    if later {
                        let w = choose|w: int| meets(next, access, rest, w, c);
                        assert(rest[w].announced().rec_id == next[c].rec_id);
                    }
                }
            }
            let more = rowclone::starting(next, access, rest, idx).1;
            if exists|w: int, c: int|
                0 <= c < copies.len() && copies[c].current_to == copies[c].to && #[trigger] meets(
                    copies,
                    access,
                    window,
                    w,
                    c,
                ) {
                let (w, c) = choose|w: int, c: int|
                    0 <= c < copies.len() && copies[c].current_to == copies[c].to
                        && #[trigger] meets(copies, access, window, w, c);
                if w == 0 {
                    assert(copies[c].rec_id == a.rec_id);
                    assert(m == c);
                } else {
                    assert(meets(next, access, rest, w - 1, c));
                    assert(next[c].rec_id == copies[c].rec_id);
                    if starts(access, a) && m == c {
                        assert(rest[w - 1].announced().rec_id == copies[c].rec_id);
                    }
                    assert(next[c].current_to == next[c].to);
                }
            }
            if more && exists|w: int, c: int|
                0 <= c < next.len() && next[c].current_to == next[c].to && #[trigger] meets(
                    next,
                    access,
                    rest,
                    w,
                    c,
                ) {
                let (w, c) = choose|w: int, c: int|
                    0 <= c < next.len() && next[c].current_to == next[c].to && #[trigger] meets(
                        next,
                        access,
                        rest,
                        w,
                        c,
                    );
                if c < copies.len() {
                    assert(meets(copies, access, window, w + 1, c));
                    if starts(access, a) && m == c {
                        assert(rest[w].announced().rec_id == next[c].rec_id);
                    }
                    assert(copies[c].current_to == copies[c].to);
                } else {
                    assert(rest[w].announced().rec_id == next[c].rec_id);
                }
            }
            if starts(access, a) && m < copies.len() && copies[m].current_to == copies[m].to {
                assert(meets(copies, access, window, 0, m));
            }
            assert forall|w: int|
                0 <= w < window.len() && starts_new(copies, access, window[w]) && #[trigger] none_new(
                    copies,
                    access,
                    window,
                    w,
                ) implies after.len() == copies.len() + 1 && after.last() == just_started(
                access,
                window[w].announced(),
                idx,
            ) by {
                assert(none_new(next, access, rest, w - 1));
                assert(starts_new(next, access, rest[w - 1]));
            }
            assert(none_new(next, access, rest, rest.len() as int) == none_new(
                copies,
                access,
                window,
                window.len() as int,
            ));
        }
    }
}

proof fn lemma_new_first<R: WindowRecord>(
    copies: Seq<Copying>,
    access: LogRecord,
    window: Seq<R>,
)
    requires
        window.len() > 0,
        starts_new(copies, access, window[0]),
    ensures
        forall|n: int| n > 0 ==> !#[trigger] none_new(copies, access, window, n),
{
    reveal(none_new);
}

proof fn lemma_shift<R: WindowRecord>(
    copies: Seq<Copying>,
    next: Seq<Copying>,
    access: LogRecord,
    window: Seq<R>,
)
    requires
        window.len() > 0,
        next.len() == copies.len(),
        forall|c: int| 0 <= c < copies.len() ==> (#[trigger] next[c]).rec_id == copies[c].rec_id,
        !starts_new(copies, access, window[0]),
    ensures
        none_new(copies, access, window, 0),
        forall|n: int|
            0 <= n < window.len() ==> #[trigger] none_new(next, access, window.skip(1), n)
                == none_new(copies, access, window, n + 1),
        forall|w: int|
            0 <= w < window.skip(1).len() ==> starts_new(
                next,
                access,
                #[trigger] window.skip(1)[w],
            ) == starts_new(copies, access, window[w + 1]),
{
    reveal(none_new);
    let rest = window.skip(1);
    assert forall|w: int| 0 <= w < rest.len() implies starts_new(
        next,
        access,
        #[trigger] rest[w],
    ) == starts_new(copies, access, window[w + 1]) by {
        let x = rest[w];
        if starts_new(next, access, x) {
            assert forall|c: int| 0 <= c < copies.len() implies (#[trigger] copies[c]).rec_id
                != x.announced().rec_id by {
                assert(next[c].rec_id == copies[c].rec_id);
            }
        }
    }
    assert forall|n: int| 0 <= n < window.len() implies #[trigger] none_new(next, access, rest, n)
        == none_new(copies, access, window, n + 1) by {
        if none_new(next, access, rest, n) {
            assert forall|x: int| 0 <= x < n + 1 implies !starts_new(
                copies,
                access,
                #[trigger] window[x],
            ) by {
                if x > 0 {
                    assert(!starts_new(next, access, rest[x - 1]));
                }
            }
        }
        if none_new(copies, access, window, n + 1) {
            assert forall|x: int| 0 <= x < n implies !starts_new(
                next,
                access,
                #[trigger] rest[x],
            ) by {
                assert(!starts_new(copies, access, window[x + 1]));
            }
        }
    }
}

/// Law: a started copy is seen as it is, and so are all started copies, in their places.
pub proof fn law_copy_view(copies: Seq<rowclone::MemCpy>, i: int)
    requires
        0 <= i < copies.len(),
    ensures
        rowclone::copyings(copies).len() == copies.len(),
        ({
            let copy = rowclone::copyings(copies)[i];
            &&& copy.rec_id == copies[i].rec_id
            &&& copy.from == copies[i].from
            &&& copy.to == copies[i].to
            &&& copy.size == copies[i].size
            &&& copy.current_from == copies[i].current_from
            &&& copy.current_to == copies[i].current_to
            &&& copy.first_insn_count == copies[i].first_insn_count
            &&& copy.first_global_idx == copies[i].first_global_idx
            &&& copy.cpu == copies[i].cpu
            &&& copy.indices == copies[i].associated_indices@
        }),
{
}

/// Law: an access moves the place that a copy has written up to if it is a store, and else the
/// place that it has read up to, by its bytes; it becomes the latest access of the copy.
pub proof fn law_advanced(copy: Copying, access: LogRecord, idx: usize)
    ensures
        ({
            let more = rowclone::advanced(copy, access, idx);
            let bytes = log_parser::access_bytes(access.size);
            &&& more.current_to == (if access.store == 1 {
                copy.current_to.wrapping_add(bytes)
            } else {
                copy.current_to
            })
            &&& more.current_from == (if access.store == 1 {
                copy.current_from
            } else {
                copy.current_from.wrapping_add(bytes)
            })
            &&& more.indices == copy.indices.push(idx)
            &&& more.first_insn_count == copy.first_insn_count
            &&& more.cpu == copy.cpu
            &&& more.rec_id == copy.rec_id
            &&& more.from == copy.from
            &&& more.to == copy.to
            &&& more.size == copy.size
            &&& more.first_global_idx == copy.first_global_idx
        }),
{
}

proof fn lemma_events_stay(
    start: Progress<Announcement>,
    history: Seq<LogRecord>,
    j: int,
    k: int,
)
    requires
        0 <= j <= k,
    ensures
        ({
            let p = rowclone::progress(start, history, j);
            let q = rowclone::progress(start, history, k);
            p.events.len() <= q.events.len() && forall|e: int|
                0 <= e < p.events.len() ==> #[trigger] q.events[e] == p.events[e]
        }),
    decreases k,
{
    if j < k {
        lemma_events_stay(start, history, j, k - 1);
        let p = rowclone::progress(start, history, k - 1);
        let q = rowclone::progress(start, history, k);
        assert forall|e: int| 0 <= e < p.events.len() implies #[trigger] q.events[e]
            == p.events[e] by {}
    }
}

/// Whether the announced copy at place `w` of a window stands alone: no other copy of its processor
/// is announced, and up to position `e` of the trace only the load at `s` starts it.
pub open spec fn lone(
    history: Seq<LogRecord>,
    window: Seq<Announcement>,
    log: Seq<KernelLine<Announcement>>,
    w: int,
    s: int,
    e: int,
) -> bool {
    let a = window[w];
    &&& 0 <= w < window.len()
    &&& copy_window::ids_increase(copy_window::upcoming(window, log))
    &&& forall|u: int|
        0 <= u < copy_window::upcoming(window, log).len() && u != w ==> (
        #[trigger] copy_window::upcoming(window, log)[u]).cpu != a.cpu
    &&& forall|i: int|
        0 <= i <= e && i != s && (#[trigger] history[i]).store == 0 && history[i].cpu == a.cpu ==> a.source != Some(
            history[i].address,
        )
    &&& history[s].store == 0
    &&& a.source == Some(history[s].address)
    &&& history[s].cpu == a.cpu
}

/// Whether the trace holds the bytes of an announced copy from position `s` on, and the last of
/// them at position `e`, in order and without a gap from its source and its target. No address runs
/// over.
pub open spec fn held(history: Seq<LogRecord>, a: Announcement, s: int, e: int) -> bool {
    &&& 0 <= s < e < history.len() <= usize::MAX
    &&& !filled(history, a, s, e)
    &&& filled(history, a, s, e + 1)
    &&& a.size > 0
    &&& a.target + a.size <= u64::MAX
    &&& read_to(history, a, s, e + 1) <= u64::MAX
    &&& written_to(history, a, s, e + 1) <= u64::MAX
}

/// Whether an announced copy still waits for its start, at place `w` of the window.
spec fn waiting(p: Progress<Announcement>, history: Seq<LogRecord>, a: Announcement, w: int) -> bool {
    let all = copy_window::upcoming(p.window, p.log);
    &&& 0 <= w < p.window.len()
    &&& copy_window::same_copy(p.window[w], a)
    &&& p.window[w].stale <= a.stale + p.events.len()
    &&& copy_window::ids_increase(all)
    &&& forall|u: int|
        0 <= u < all.len() && (#[trigger] all[u]).rec_id != a.rec_id ==> all[u].cpu != a.cpu
    &&& forall|c: int|
        0 <= c < p.active.len() ==> (#[trigger] p.active[c]).cpu != a.cpu && p.active[c].rec_id
            != a.rec_id
    &&& p.valid.len() == history.len()
}

proof fn lemma_waits_on(
    p: Progress<Announcement>,
    history: Seq<LogRecord>,
    a: Announcement,
    k: int,
    w: int,
) -> (x: int)
    requires
        0 <= k < history.len() <= usize::MAX,
        waiting(p, history, a, w),
        history[k].store == 0 && history[k].cpu == a.cpu ==> a.source != Some(history[k].address),
        a.stale + rowclone::after_access(p, history[k], k as usize).events.len() <= 20,
    ensures
        waiting(rowclone::after_access(p, history[k], k as usize), history, a, x),
{
    let access = history[k];
    let idx = k as usize;
    let q = rowclone::after_access(p, access, idx);
    let all = copy_window::upcoming(p.window, p.log);
    rowclone::lemma_continued(p.active, access, 0);
    let m = rowclone::continued(p.active, access, 0);
    if m < p.active.len() {
        let copy = rowclone::advanced(p.active[m], access, idx);
        assert(p.active[m].cpu != a.cpu);
        if rowclone::complete(copy) {
            let id = copy.rec_id;
            copy_window::law_completion(p.window, p.log, id);
            copy_window::law_stays(p.window, p.log, id, w);
            let (window, log) = copy_window::after_completion(p.window, p.log, id);
            let after = copy_window::upcoming(window, log);
            assert(q.window == window && q.log == log);
            let r = copy_window::aged(p.window[w], id);
            assert(window.contains(r));
            let x = choose|x: int| 0 <= x < window.len() && window[x] == r;
            assert forall|u: int| 0 <= u < after.len() && (
            #[trigger] after[u]).rec_id != a.rec_id implies after[u].cpu != a.cpu by {
                assert(copy_window::among(all, after[u].announced()));
                let b = choose|b: int|
                    0 <= b < all.len() && copy_window::same_copy(
                        after[u],
                        (#[trigger] all[b]).announced(),
                    );
                assert(all[b].rec_id != a.rec_id);
            }
            assert forall|c: int| 0 <= c < q.active.len() implies (#[trigger] q.active[c]).cpu
                != a.cpu && q.active[c].rec_id != a.rec_id by {
                let d = if c < m {
                    c
                } else {
                    c + 1
                };
                assert(q.active[c] == p.active[d]);
            }
            x
        } else {
            assert(copy.cpu == p.active[m].cpu);
            w
        }
    } else {
        assert forall|x: int|
            0 <= x < p.window.len() && rowclone::is_start(
                access,
                #[trigger] p.window[x],
            ) implies p.window[x].rec_id != a.rec_id && access.cpu != a.cpu by {
            assert(all[x] == p.window[x]);
            assert(all[w] == p.window[w]);
            if all[x].rec_id == a.rec_id {
                assert(all[x].id() == all[w].id());
                assert(x == w);
            }
        }
        if access.cpu == a.cpu {
            lemma_no_start(p.active, access, p.window, idx);
        } else {
            lemma_other_start(p.active, access, p.window, idx, a.rec_id);
            assert forall|c: int| 0 <= c < q.active.len() implies (#[trigger] q.active[c]).cpu
                != a.cpu && q.active[c].rec_id != a.rec_id by {
                if c < p.active.len() {
                    assert(p.active[c].cpu != a.cpu);
                }
            }
        }
        w
    }
}

proof fn lemma_waits(
    start: Progress<Announcement>,
    history: Seq<LogRecord>,
    a: Announcement,
    s: int,
    w: int,
    k: int,
) -> (x: int)
    requires
        0 <= k <= s < history.len() <= usize::MAX,
        waiting(start, history, a, w),
        forall|i: int|
            0 <= i < s && (#[trigger] history[i]).store == 0 && history[i].cpu == a.cpu ==> a.source
                != Some(history[i].address),
        a.stale + rowclone::progress(start, history, s).events.len() <= 20,
    ensures
        waiting(rowclone::progress(start, history, k), history, a, x),
    decreases k,
{
    if k == 0 {
        w
    } else {
        let x = lemma_waits(start, history, a, s, w, k - 1);
        lemma_events_stay(start, history, k, s);
        lemma_waits_on(rowclone::progress(start, history, k - 1), history, a, k - 1, x)
    }
}

/// Law: an announced copy that the trace holds is found, whatever else the trace holds of other
/// processors, and is still among the completed copies at the end of the trace. It is said of a
/// copy of which no other is announced for its processor, and before whose start at most 20 copies
/// were completed: one that is overtaken more often is given up.
pub proof fn law_lone_copy_found(
    history: Seq<LogRecord>,
    window: Seq<Announcement>,
    log: Seq<KernelLine<Announcement>>,
    w: int,
    s: int,
    e: int,
)
    requires
        lone(history, window, log, w, s, e),
        held(history, window[w], s, e),
        window[w].stale + rowclone::progress(
            rowclone::beginning(history.len(), window, log),
            history,
            s,
        ).events.len() <= 20,
    ensures
        ({
            let a = window[w];
            let p = rowclone::progress(
                rowclone::beginning(history.len(), window, log),
                history,
                history.len() as int,
            );
            let n = rowclone::progress(rowclone::beginning(history.len(), window, log), history, e).events.len() as int;
            let event = p.events[n];
            &&& n < p.events.len()
            &&& event.target_global_idx == s
            &&& event.end_global_idx == e
            &&& Some(event.from) == a.source
            &&& event.to == a.target
            &&& event.cpu == a.cpu
            &&& event.insn_count == history[s].insn_count
        }),
{
    let start = rowclone::beginning(history.len(), window, log);
    let a = window[w];
    let all = copy_window::upcoming(window, log);
    assert(all[w] == a);
    assert forall|u: int| 0 <= u < all.len() && (
    #[trigger] all[u]).rec_id != a.rec_id implies all[u].cpu != a.cpu by {
        assert(u != w);
    }
    assert(waiting(start, history, a, w));
    let x = lemma_waits(start, history, a, s, w, s);
    let p = rowclone::progress(start, history, s);
    let b = p.window[x];
    let now = copy_window::upcoming(p.window, p.log);
    assert(found_at(start, history, x, s, e)) by {
        assert(undisturbed(p, history, b, s, e)) by {
            assert forall|u: int| 0 <= u < now.len() && (
            #[trigger] now[u]).rec_id != b.rec_id implies not_started(now[u], history, b, s, e) by {
                assert(now[u].cpu != a.cpu);
            }
            assert forall|c: int| 0 <= c < p.active.len() implies (
            #[trigger] p.active[c]).rec_id != b.rec_id && idle(p.active[c], history, b, s, e) by {
                assert(p.active[c].cpu != a.cpu);
            }
        }
    }
    law_copy_found(start, history, x, s, e);
    lemma_events_stay(start, history, e + 1, history.len() as int);
}

} // verus!
