//! Runs of loads and stores that go on without a gap in a trace, seen without any search for copies.
use crate::log_parser;
use crate::log_parser::LogRecord;
use vstd::prelude::*;

verus! {

/// Whether an access is one of a processor, or of any if none is named.
pub open spec fn done_by(access: LogRecord, cpu: Option<u8>) -> bool {
    match cpu {
        Some(cpu) => access.cpu == cpu,
        None => true,
    }
}

/// More than any address.
pub open spec fn no_limit() -> int {
    0x1_0000_0000_0000_0000
}

/// How far the loads (`store` is 0) or the stores (`store` is 1) between positions `s` and `k` of a
/// trace go on without a gap from a first address; what starts at the limit or behind it is left
/// out.
pub open spec fn run_end(
    history: Seq<LogRecord>,
    cpu: Option<u8>,
    store: u8,
    start: u64,
    limit: int,
    s: int,
    k: int,
) -> int
    decreases k - s,
{
    if k <= s {
        start as int
    } else {
        let before = run_end(history, cpu, store, start, limit, s, k - 1);
        let access = history[k - 1];
        if done_by(access, cpu) && access.store == store && access.address == before && before < limit {
            before + log_parser::access_bytes(access.size)
        } else {
            before
        }
    }
}

/// Whether the access at position `i` is the next load of the run of loads from `from`, or the next
/// store of the run of stores from `to`.
pub open spec fn in_run(
    history: Seq<LogRecord>,
    cpu: Option<u8>,
    from: u64,
    limit: int,
    to: u64,
    s: int,
    i: int,
) -> bool {
    let read = run_end(history, cpu, 0, from, limit, s, i);
    &&& done_by(history[i], cpu)
    &&& (history[i].store == 0 && history[i].address == read && read < limit) || (history[i].store
        == 1 && history[i].address == run_end(history, cpu, 1, to, no_limit(), s, i))
}

/// The accesses between positions `s` and `k` that belong to the two runs, in order.
pub open spec fn run(
    history: Seq<LogRecord>,
    cpu: Option<u8>,
    from: u64,
    limit: int,
    to: u64,
    s: int,
    k: int,
) -> Seq<LogRecord>
    decreases k - s,
{
    if k <= s {
        Seq::empty()
    } else {
        let before = run(history, cpu, from, limit, to, s, k - 1);
        if in_run(history, cpu, from, limit, to, s, k - 1) {
            before.push(history[k - 1])
        } else {
            before
        }
    }
}

pub(crate) proof fn lemma_run_grows(
    history: Seq<LogRecord>,
    cpu: Option<u8>,
    store: u8,
    start: u64,
    limit: int,
    s: int,
    j: int,
    k: int,
)
    requires
        s <= j <= k,
    ensures
        start <= run_end(history, cpu, store, start, limit, s, j) <= run_end(
            history,
            cpu,
            store,
            start,
            limit,
            s,
            k,
        ),
    decreases k - s,
{
    if k > s {
        if j < k {
            lemma_run_grows(history, cpu, store, start, limit, s, j, k - 1);
        } else {
            lemma_run_grows(history, cpu, store, start, limit, s, k - 1, k - 1);
        }
    }
}

/// The accesses of a processor between positions `s` and `k`, in order.
pub open spec fn accesses_by(history: Seq<LogRecord>, cpu: Option<u8>, s: int, k: int) -> Seq<
    LogRecord,
>
    decreases k - s,
{
    if k <= s {
        Seq::empty()
    } else if done_by(history[k - 1], cpu) {
        accesses_by(history, cpu, s, k - 1).push(history[k - 1])
    } else {
        accesses_by(history, cpu, s, k - 1)
    }
}

/// Law: where all accesses of a processor in a part of the trace are the next of one of two runs,
/// the runs take them all.
pub proof fn law_run_takes_all(
    history: Seq<LogRecord>,
    cpu: Option<u8>,
    from: u64,
    limit: int,
    to: u64,
    s: int,
    k: int,
)
    requires
        forall|i: int|
            s <= i < k && done_by(#[trigger] history[i], cpu) ==> in_run(
                history,
                cpu,
                from,
                limit,
                to,
                s,
                i,
            ),
    ensures
        run(history, cpu, from, limit, to, s, k) == accesses_by(history, cpu, s, k),
    decreases k - s,
{
    if k > s {
        law_run_takes_all(history, cpu, from, limit, to, s, k - 1);
        assert(done_by(history[k - 1], cpu) == in_run(history, cpu, from, limit, to, s, k - 1));
    }
}

} // verus!
