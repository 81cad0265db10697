//! What the laws on the search for copies rest on: the bytes that accesses move, and the identities
//! of the announcements.
use crate::copy_window;
use crate::copy_window::{Announcement, KernelLine, WindowRecord};
use crate::log_parser;
use crate::log_parser::LogRecord;
use vstd::prelude::*;

verus! {

/// A number modulo 2^64.
pub open spec fn wrapped(x: int) -> u64 {
    (x % 0x1_0000_0000_0000_0000) as u64
}

/// The bytes that the loads (`store` is 0) or the stores (`store` is 1) of some accesses move.
pub open spec fn moved(records: Seq<LogRecord>, store: u8) -> nat
    decreases records.len(),
{
    if records.len() == 0 {
        0
    } else {
        moved(records.drop_last(), store) + if records.last().store == store {
            log_parser::access_bytes(records.last().size) as nat
        } else {
            0
        }
    }
}

/// Whether the loads or the stores of some accesses go on without a gap from a first address: each
/// is at the address where the one before ends.
pub open spec fn without_gap(records: Seq<LogRecord>, store: u8, base: u64) -> bool {
    forall|j: int|
        0 <= j < records.len() && (#[trigger] records[j]).store == store ==> records[j].address
            == wrapped(base + moved(records.take(j), store))
}

/// Whether some accesses are those of the trace at some positions, from a first one on and before
/// `k`.
pub open spec fn taken_from(
    records: Seq<LogRecord>,
    indices: Seq<usize>,
    history: Seq<LogRecord>,
    first: usize,
    k: int,
) -> bool {
    &&& records.len() == indices.len()
    &&& forall|j: int|
        0 <= j < indices.len() ==> first <= #[trigger] indices[j] < k && records[j]
            == history[indices[j] as int]
}

/// Whether some accesses all stand in a part of the trace.
pub open spec fn all_within(
    records: Seq<LogRecord>,
    history: Seq<LogRecord>,
    first: usize,
    last: usize,
) -> bool {
    forall|j: int| 0 <= j < records.len() ==> stands_within(#[trigger] records[j], history, first, last)
}

/// Whether an access stands in a part of the trace.
pub open spec fn stands_within(
    access: LogRecord,
    history: Seq<LogRecord>,
    first: usize,
    last: usize,
) -> bool {
    exists|i: int| first <= i <= last && #[trigger] history[i] == access
}

/// Whether an announcement with an identity and two addresses is one of some, and the bytes moved
/// reach its size; the latter is said of the pages that do not reach beyond the last address.
pub open spec fn fills_announced(
    all: Seq<Announcement>,
    rec_id: u64,
    from: u64,
    to: u64,
    read: Option<nat>,
    written: nat,
) -> bool {
    exists|a: int|
        0 <= a < all.len() && (#[trigger] all[a]).rec_id == rec_id && all[a].source == Some(from)
            && all[a].target == to && (to + all[a].size <= u64::MAX ==> written >= all[a].size)
            && (read matches Some(n) ==> (from + all[a].size <= u64::MAX ==> n >= all[a].size))
}

/// Whether a copy with an identity, two addresses and a size was announced.
pub open spec fn is_announced(
    all: Seq<Announcement>,
    rec_id: u64,
    from: u64,
    to: u64,
    size: u64,
) -> bool {
    exists|a: int|
        0 <= a < all.len() && (#[trigger] all[a]).rec_id == rec_id && all[a].source == Some(from)
            && all[a].target == to && all[a].size == size
}

/// Whether nothing but what was announced is in the window or behind it.
pub open spec fn only_announced(
    all: Seq<Announcement>,
    window: Seq<Announcement>,
    log: Seq<KernelLine<Announcement>>,
) -> bool {
    forall|u: int|
        0 <= u < copy_window::upcoming(window, log).len() ==> copy_window::among(
            all,
            #[trigger] copy_window::upcoming(window, log)[u],
        )
}

pub(crate) proof fn lemma_wrapped_add(x: int, b: u64)
    requires
        0 <= x,
    ensures
        wrapped(x).wrapping_add(b) == wrapped(x + b),
{
}

pub(crate) proof fn lemma_moved_push(records: Seq<LogRecord>, access: LogRecord, store: u8)
    ensures
        moved(records.push(access), store) == moved(records, store) + if access.store == store {
            log_parser::access_bytes(access.size) as nat
        } else {
            0
        },
{
    assert(records.push(access).drop_last() =~= records);
}

pub(crate) proof fn lemma_moved_one(access: LogRecord, store: u8)
    ensures
        moved(seq![access], store) == if access.store == store {
            log_parser::access_bytes(access.size) as nat
        } else {
            0
        },
{
    let none = Seq::<LogRecord>::empty();
    assert(none.push(access) =~= seq![access]);
    lemma_moved_push(none, access, store);
}

pub(crate) proof fn lemma_without_gap_push(
    records: Seq<LogRecord>,
    access: LogRecord,
    store: u8,
    base: u64,
)
    requires
        without_gap(records, store, base),
        access.store == store ==> access.address == wrapped(base + moved(records, store)),
    ensures
        without_gap(records.push(access), store, base),
{
    let more = records.push(access);
    assert forall|j: int|
        0 <= j < more.len() && (#[trigger] more[j]).store == store implies more[j].address
        == wrapped(base + moved(more.take(j), store)) by {
        assert(more.take(j) =~= records.take(j));
        if j < records.len() {
            assert(more[j] == records[j]);
        } else {
            assert(records.take(j) =~= records);
        }
    }
}

pub(crate) proof fn lemma_without_gap_one(access: LogRecord, store: u8, base: u64)
    requires
        access.store == store ==> access.address == base,
    ensures
        without_gap(seq![access], store, base),
{
    let none = Seq::<LogRecord>::empty();
    assert(none.push(access) =~= seq![access]);
    assert(moved(none, store) == 0);
    lemma_without_gap_push(none, access, store, base);
}

/// Bytes that reach the end of a page that does not reach beyond the last address fill it.
pub(crate) proof fn lemma_filled(base: u64, size: u64, n: nat)
    requires
        wrapped(base + n) >= base.wrapping_add(size),
        base + size <= u64::MAX,
    ensures
        n >= size,
{
}

pub(crate) proof fn lemma_taken_push(
    records: Seq<LogRecord>,
    indices: Seq<usize>,
    history: Seq<LogRecord>,
    first: usize,
    idx: usize,
)
    requires
        taken_from(records, indices, history, first, idx as int) || taken_from(
            records,
            indices,
            history,
            first,
            idx + 1,
        ),
        first <= idx,
    ensures
        taken_from(
            records.push(history[idx as int]),
            indices.push(idx),
            history,
            first,
            idx + 1,
        ),
{
    let r = records.push(history[idx as int]);
    let i = indices.push(idx);
    assert forall|j: int| 0 <= j < i.len() implies first <= #[trigger] i[j] < idx + 1 && r[j]
        == history[i[j] as int] by {
        if j < indices.len() {
            assert(i[j] == indices[j]);
        }
    }
}

pub(crate) proof fn lemma_taken_within(
    records: Seq<LogRecord>,
    indices: Seq<usize>,
    history: Seq<LogRecord>,
    first: usize,
    last: usize,
)
    requires
        taken_from(records, indices, history, first, last + 1),
    ensures
        all_within(records, history, first, last),
{
    assert forall|j: int| 0 <= j < records.len() implies stands_within(
        #[trigger] records[j],
        history,
        first,
        last,
    ) by {
        assert(first <= indices[j] < last + 1);
        assert(history[indices[j] as int] == records[j]);
    }
}

pub(crate) proof fn lemma_filled_announced(
    all: Seq<Announcement>,
    rec_id: u64,
    from: u64,
    to: u64,
    size: u64,
    read: Option<nat>,
    written: nat,
)
    requires
        is_announced(all, rec_id, from, to, size),
        to + size <= u64::MAX ==> written >= size,
        read matches Some(n) ==> (from + size <= u64::MAX ==> n >= size),
    ensures
        fills_announced(all, rec_id, from, to, read, written),
{
    let a = choose|a: int|
        0 <= a < all.len() && (#[trigger] all[a]).rec_id == rec_id && all[a].source == Some(from)
            && all[a].target == to && all[a].size == size;
    assert(all[a].rec_id == rec_id);
}

/// The announcement of a window that an access starts was announced.
pub(crate) proof fn lemma_started_announced(
    all: Seq<Announcement>,
    window: Seq<Announcement>,
    w: int,
    from: u64,
)
    requires
        0 <= w < window.len(),
        copy_window::among(all, window[w]),
        window[w].source == Some(from),
    ensures
        is_announced(all, window[w].rec_id, from, window[w].target, window[w].size),
{
    let y = choose|y: int|
        0 <= y < all.len() && copy_window::same_copy(window[w], (#[trigger] all[y]).announced());
    assert(all[y].rec_id == window[w].rec_id);
}

pub(crate) proof fn lemma_only_announced_completion(
    all: Seq<Announcement>,
    window: Seq<Announcement>,
    log: Seq<KernelLine<Announcement>>,
    rec_id: u64,
)
    requires
        only_announced(all, window, log),
    ensures
        only_announced(
            all,
            copy_window::after_completion(window, log, rec_id).0,
            copy_window::after_completion(window, log, rec_id).1,
        ),
{
    copy_window::law_completion(window, log, rec_id);
    let before = copy_window::upcoming(window, log);
    let (w, l) = copy_window::after_completion(window, log, rec_id);
    let after = copy_window::upcoming(w, l);
    assert forall|u: int| 0 <= u < after.len() implies copy_window::among(
        all,
        #[trigger] after[u],
    ) by {
        assert(copy_window::among(before, after[u].announced()));
        let b = choose|b: int|
            0 <= b < before.len() && copy_window::same_copy(
                after[u],
                (#[trigger] before[b]).announced(),
            );
        assert(copy_window::among(all, before[b]));
        let x = choose|x: int|
            0 <= x < all.len() && copy_window::same_copy(
                before[b],
                (#[trigger] all[x]).announced(),
            );
        assert(copy_window::same_copy(after[u], all[x].announced()));
    }
}

pub(crate) proof fn lemma_all_announced(all: Seq<Announcement>)
    ensures
        forall|u: int| 0 <= u < all.len() ==> copy_window::among(all, #[trigger] all[u]),
{
    assert forall|u: int| 0 <= u < all.len() implies copy_window::among(all, #[trigger] all[u]) by {
        assert(copy_window::same_copy(all[u], all[u].announced()));
    }
}

/// What holds of the identities of the started and the completed copies: none is used twice, and
/// no completed copy is announced again.
pub open spec fn ids_sound(
    active: Seq<u64>,
    events: Seq<u64>,
    window: Seq<Announcement>,
    log: Seq<KernelLine<Announcement>>,
) -> bool {
    &&& copy_window::ids_increase(copy_window::upcoming(window, log))
    &&& active.no_duplicates()
    &&& events.no_duplicates()
    &&& forall|c: int|
        0 <= c < active.len() ==> !events.contains(#[trigger] active[c]) && !copy_window::has_id(
            copy_window::records_of(log),
            active[c],
        )
    &&& forall|e: int|
        0 <= e < events.len() ==> !copy_window::has_id(
            copy_window::upcoming(window, log),
            #[trigger] events[e],
        )
}

pub(crate) proof fn lemma_ids_completion(
    active: Seq<u64>,
    events: Seq<u64>,
    window: Seq<Announcement>,
    log: Seq<KernelLine<Announcement>>,
    m: int,
)
    requires
        ids_sound(active, events, window, log),
        0 <= m < active.len(),
    ensures
        ids_sound(
            active.remove(m),
            events.push(active[m]),
            copy_window::after_completion(window, log, active[m]).0,
            copy_window::after_completion(window, log, active[m]).1,
        ),
{
    let id = active[m];
    copy_window::law_completion(window, log, id);
    let (w, l) = copy_window::after_completion(window, log, id);
    let rest = active.remove(m);
    let more = events.push(id);
    assert forall|c: int, d: int| 0 <= c < rest.len() && 0 <= d < rest.len() && c != d implies rest[c]
        != rest[d] by {
        let x = if c < m {
            c
        } else {
            c + 1
        };
        let y = if d < m {
            d
        } else {
            d + 1
        };
        assert(rest[c] == active[x] && rest[d] == active[y]);
    }
    assert(!events.contains(active[m]));
    assert forall|c: int, d: int| 0 <= c < more.len() && 0 <= d < more.len() && c != d implies more[c]
        != more[d] by {
        if c < events.len() {
            assert(events.contains(events[c]));
        }
        if d < events.len() {
            assert(events.contains(events[d]));
        }
    }
    assert forall|c: int| 0 <= c < rest.len() implies !more.contains(#[trigger] rest[c])
        && !copy_window::has_id(copy_window::records_of(l), rest[c]) by {
        let x = if c < m {
            c
        } else {
            c + 1
        };
        assert(rest[c] == active[x]);
        assert(!events.contains(active[x]));
        if more.contains(rest[c]) {
            let e = choose|e: int| 0 <= e < more.len() && more[e] == rest[c];
            if e < events.len() {
                assert(events.contains(events[e]));
            }
        }
    }
    assert forall|e: int| 0 <= e < more.len() implies !copy_window::has_id(
        copy_window::upcoming(w, l),
        #[trigger] more[e],
    ) by {
        if e < events.len() {
            assert(more[e] == events[e]);
        }
    }
}

pub(crate) proof fn lemma_ids_start(
    active: Seq<u64>,
    more: Seq<u64>,
    events: Seq<u64>,
    window: Seq<Announcement>,
    log: Seq<KernelLine<Announcement>>,
)
    requires
        ids_sound(active, events, window, log),
        more.no_duplicates(),
        forall|c: int|
            0 <= c < more.len() ==> active.contains(#[trigger] more[c]) || copy_window::has_id(
                window,
                more[c],
            ),
    ensures
        ids_sound(more, events, window, log),
{
    let all = copy_window::upcoming(window, log);
    let tail = copy_window::records_of(log);
    assert forall|c: int| 0 <= c < more.len() implies !events.contains(#[trigger] more[c])
        && !copy_window::has_id(tail, more[c]) by {
        if active.contains(more[c]) {
            let x = choose|x: int| 0 <= x < active.len() && active[x] == more[c];
            assert(!events.contains(active[x]));
        } else {
            let w = choose|w: int| 0 <= w < window.len() && (#[trigger] window[w]).id() == more[c];
            assert(all[w] == window[w]);
            if events.contains(more[c]) {
                let e = choose|e: int| 0 <= e < events.len() && events[e] == more[c];
                assert(!copy_window::has_id(all, events[e]));
                assert(all[w].id() == events[e]);
            }
            if copy_window::has_id(tail, more[c]) {
                let t = choose|t: int| 0 <= t < tail.len() && (#[trigger] tail[t]).id() == more[c];
                assert(all[window.len() + t] == tail[t]);
                assert(all[w].id() < all[window.len() + t].id());
            }
        }
    }
}

} // verus!
