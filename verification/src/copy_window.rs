//! The window of announced page copies that the memory trace is compared with.
//!
//! The kernel log announces page copies in order. A bounded window of the announcements that are
//! not seen in the memory trace yet slides over the log: a copy that completes leaves it, one that
//! many later copies have overtaken is given up, and the log fills the places.
use std::collections::VecDeque;
use vstd::prelude::*;

verus! {

/// The number of announcements that the window holds while the log lasts.
pub const COPY_WINDOW: usize = 200;

/// How often an announcement may be overtaken before it is given up.
pub const COPY_WINDOW_STALE_THRESHOLD: usize = 20;

/// An announced copy, with an identity and a count of how often it was overtaken.
pub trait WindowRecord: Sized {
    spec fn id(&self) -> u64;

    spec fn age(&self) -> usize;

    /// The same announcement with another count.
    spec fn with_age(&self, age: usize) -> Self;

    fn rec_id(&self) -> (r: u64)
        ensures
            r == self.id(),
    ;

    fn stale(&self) -> (r: usize)
        ensures
            r == self.age(),
    ;

    fn set_stale(&mut self, stale: usize)
        ensures
            *final(self) == old(self).with_age(stale),
    ;

    /// What the announcement says.
    spec fn announced(&self) -> Announcement;

    /// The identity and the count are part of the announcement, and changing the count changes
    /// nothing else of it.
    proof fn announced_agrees(&self, age: usize)
        ensures
            self.announced().rec_id == self.id(),
            self.announced().stale == self.age(),
            self.with_age(age).announced() == (Announcement { stale: age, ..self.announced() }),
    ;
}

/// What the kernel announced: `cpu` copies `size` bytes from `source` to `target`. Without a
/// source no memory access can be the start of the copy.
#[derive(Clone, Copy, PartialEq, Eq, Structural, Debug)]
pub struct Announcement {
    pub rec_id: u64,
    pub cpu: u8,
    pub size: u64,
    pub source: Option<u64>,
    pub target: u64,
    pub stale: usize,
}

impl WindowRecord for Announcement {
    open spec fn id(&self) -> u64 {
        self.rec_id
    }

    open spec fn age(&self) -> usize {
        self.stale
    }

    open spec fn with_age(&self, age: usize) -> Self {
        Announcement { stale: age, ..*self }
    }

    fn rec_id(&self) -> u64 {
        self.rec_id
    }

    fn stale(&self) -> usize {
        self.stale
    }

    fn set_stale(&mut self, stale: usize) {
        self.stale = stale;
    }

    open spec fn announced(&self) -> Announcement {
        *self
    }

    proof fn announced_agrees(&self, age: usize) {
    }
}

/// A line of the kernel log: an announcement, another text, or a line that could not be read.
pub enum KernelLine<R> {
    Record(R),
    NotParsed,
    Unreadable,
}

/// The announcements of a window.
pub open spec fn announced_window<R: WindowRecord>(window: Seq<R>) -> Seq<Announcement> {
    Seq::new(window.len(), |i: int| window[i].announced())
}

/// What a line announces.
pub open spec fn announced_line<R: WindowRecord>(line: KernelLine<R>) -> KernelLine<Announcement> {
    match line {
        KernelLine::Record(r) => KernelLine::Record(r.announced()),
        KernelLine::NotParsed => KernelLine::NotParsed,
        KernelLine::Unreadable => KernelLine::Unreadable,
    }
}

/// What the lines of a log announce.
pub open spec fn announced_log<R: WindowRecord>(log: Seq<KernelLine<R>>) -> Seq<
    KernelLine<Announcement>,
> {
    Seq::new(log.len(), |i: int| announced_line(log[i]))
}

/// The next announcement of a log, and what is left of the log behind it. Other texts are passed
/// over; a line that could not be read ends the search, and is passed over by the next one.
pub open spec fn next_record<R>(log: Seq<KernelLine<R>>) -> (Option<R>, Seq<KernelLine<R>>)
    decreases log.len(),
{
    if log.len() == 0 {
        (None, log)
    } else {
        match log[0] {
            KernelLine::Record(r) => (Some(r), log.skip(1)),
            KernelLine::NotParsed => next_record(log.skip(1)),
            KernelLine::Unreadable => (None, log.skip(1)),
        }
    }
}

/// The window and the log after the free places have been filled.
pub open spec fn refilled<R>(window: Seq<R>, log: Seq<KernelLine<R>>) -> (
    Seq<R>,
    Seq<KernelLine<R>>,
)
    decreases log.len(),
{
    if window.len() >= COPY_WINDOW {
        (window, log)
    } else {
        proof {
            lemma_next_record_shortens(log);
        }
        let (r, rest) = next_record(log);
        match r {
            Some(r) => refilled(window.push(r), rest),
            None => (window, rest),
        }
    }
}

/// Taking an announcement shortens the log.
pub proof fn lemma_next_record_shortens<R>(log: Seq<KernelLine<R>>)
    ensures
        next_record(log).1.len() <= log.len(),
        next_record(log).0 is Some ==> next_record(log).1.len() < log.len(),
    decreases log.len(),
{
    if log.len() > 0 && log[0] is NotParsed {
        lemma_next_record_shortens(log.skip(1));
    }
}

/// An announcement after copy `rec_id` has completed: overtaken once more if it is older.
pub open spec fn aged<R: WindowRecord>(r: R, rec_id: u64) -> R {
    if r.id() < rec_id {
        r.with_age(r.age().wrapping_add(1))
    } else {
        r
    }
}

/// The window with the announcements older than `rec_id` overtaken once more.
pub open spec fn aged_window<R: WindowRecord>(window: Seq<R>, rec_id: u64) -> Seq<R> {
    Seq::new(window.len(), |i: int| aged(window[i], rec_id))
}

/// Holds of the announcements that are not given up.
pub open spec fn not_stale<R: WindowRecord>() -> spec_fn(R) -> bool {
    |r: R| r.age() <= COPY_WINDOW_STALE_THRESHOLD
}

/// The announcements that are not given up.
pub open spec fn fresh<R: WindowRecord>(window: Seq<R>) -> Seq<R> {
    window.filter(not_stale())
}

/// Holds of every announcement but `rec_id`.
pub open spec fn other_than<R: WindowRecord>(rec_id: u64) -> spec_fn(R) -> bool {
    |r: R| r.id() != rec_id
}

/// The window without the announcement `rec_id`.
pub open spec fn without_record<R: WindowRecord>(window: Seq<R>, rec_id: u64) -> Seq<R> {
    window.filter(other_than(rec_id))
}

/// The window and the log after the stale announcements are given up and the places filled.
pub open spec fn renewed<R: WindowRecord>(
    window: Seq<R>,
    log: Seq<KernelLine<R>>,
    rec_id: u64,
) -> (Seq<R>, Seq<KernelLine<R>>) {
    refilled(fresh(aged_window(window, rec_id)), log)
}

/// The window and the log after copy `rec_id` has completed.
pub open spec fn after_completion<R: WindowRecord>(
    window: Seq<R>,
    log: Seq<KernelLine<R>>,
    rec_id: u64,
) -> (Seq<R>, Seq<KernelLine<R>>) {
    renewed(without_record(window, rec_id), log, rec_id)
}

/// The first window of a log, and what is left of the log; none if a line that could not be read
/// stands before the end of the window.
pub open spec fn first_filled<R>(window: Seq<R>, log: Seq<KernelLine<R>>) -> Option<
    (Seq<R>, Seq<KernelLine<R>>),
>
    decreases log.len(),
{
    if window.len() >= COPY_WINDOW || log.len() == 0 {
        Some((window, log))
    } else {
        match log[0] {
            KernelLine::Record(r) => first_filled(window.push(r), log.skip(1)),
            KernelLine::NotParsed => first_filled(window, log.skip(1)),
            KernelLine::Unreadable => None,
        }
    }
}

/// What is left of a log after the first window has been taken, with `n` announcements already in
/// it, or behind the line that could not be read and stands before the end of the window.
pub open spec fn first_rest<R>(n: nat, log: Seq<KernelLine<R>>) -> Seq<KernelLine<R>>
    decreases log.len(),
{
    if n >= COPY_WINDOW || log.len() == 0 {
        log
    } else {
        match log[0] {
            KernelLine::Record(_) => first_rest(n + 1, log.skip(1)),
            KernelLine::NotParsed => first_rest(n, log.skip(1)),
            KernelLine::Unreadable => log.skip(1),
        }
    }
}

/// The announcements of a log, in order.
pub open spec fn records_of<R>(log: Seq<KernelLine<R>>) -> Seq<R>
    decreases log.len(),
{
    if log.len() == 0 {
        Seq::empty()
    } else {
        match log[0] {
            KernelLine::Record(r) => seq![r] + records_of(log.skip(1)),
            _ => records_of(log.skip(1)),
        }
    }
}

/// Later announcements have larger identities.
pub open spec fn ids_increase<R: WindowRecord>(records: Seq<R>) -> bool {
    forall|i: int, j: int|
        0 <= i < j < records.len() ==> (#[trigger] records[i]).id() < (#[trigger] records[j]).id()
}

/// Whether one of the announcements has the identity.
pub open spec fn has_id<R: WindowRecord>(records: Seq<R>, rec_id: u64) -> bool {
    exists|i: int| 0 <= i < records.len() && (#[trigger] records[i]).id() == rec_id
}

/// Takes the next announcement from the log.
pub fn next_kernel_line<R>(lines: &mut VecDeque<KernelLine<R>>) -> (r: Option<R>)
    ensures
        (r, final(lines)@) == next_record(old(lines)@),
{
    let ghost start = lines@;
    loop
        invariant
            start == old(lines)@,
            next_record(start) == next_record(lines@),
        decreases lines@.len(),
    {
        let ghost before = lines@;
        match lines.pop_front() {
            None => {
                return None;
            },
            Some(line) => {
                assert(lines@ =~= before.skip(1));
                match line {
                    KernelLine::Record(r) => {
                        return Some(r);
                    },
                    KernelLine::NotParsed => {},
                    KernelLine::Unreadable => {
                        return None;
                    },
                }
            },
        }
    }
}

/// Counts one more overtaking for every announcement older than `rec_id`.
pub fn update_stale<R: WindowRecord>(rec_id: u64, copy_window: &mut Vec<R>)
    ensures
        final(copy_window)@ == aged_window(old(copy_window)@, rec_id),
{
    let ghost start = copy_window@;
    let mut i: usize = 0;
    while i < copy_window.len()
        invariant
            i <= copy_window@.len(),
            copy_window@.len() == start.len(),
            forall|k: int| 0 <= k < i ==> #[trigger] copy_window@[k] == aged(start[k], rec_id),
            forall|k: int| i <= k < start.len() ==> #[trigger] copy_window@[k] == start[k],
        decreases copy_window.len() - i,
    {
        if copy_window[i].rec_id() < rec_id {
            let stale = copy_window[i].stale().wrapping_add(1);
            copy_window[i].set_stale(stale);
        }
        i += 1;
    }
    assert(copy_window@ =~= aged_window(start, rec_id));
}

proof fn lemma_filter_step<R>(s: Seq<R>, p: spec_fn(R) -> bool, j: int)
    requires
        0 <= j < s.len(),
    ensures
        s.take(j + 1).filter(p) == if p(s[j]) {
            s.take(j).filter(p).push(s[j])
        } else {
            s.take(j).filter(p)
        },
{
    reveal(Seq::filter);
    assert(s.take(j + 1).drop_last() =~= s.take(j));
}

/// Takes the announcement `rec_id` out of the window.
pub fn remove_record<R: WindowRecord>(rec_id: u64, copy_window: &mut Vec<R>)
    ensures
        final(copy_window)@ == without_record(old(copy_window)@, rec_id),
{
    let ghost start = copy_window@;
    let ghost p = other_than::<R>(rec_id);
    let ghost mut j: int = 0;
    let mut i: usize = 0;
    proof {
        reveal(Seq::filter);
        assert(start.take(0).filter(p) =~= Seq::<R>::empty());
        assert(start =~= start.take(0).filter(p) + start.skip(0));
    }
    while i < copy_window.len()
        invariant
            p == other_than::<R>(rec_id),
            0 <= j <= start.len(),
            copy_window@ == start.take(j).filter(p) + start.skip(j),
            i == start.take(j).filter(p).len(),
        decreases start.len() - j,
    {
        assert(copy_window@[i as int] == start[j]);
        proof {
            lemma_filter_step(start, p, j);
        }
        if copy_window[i].rec_id() != rec_id {
            i += 1;
        } else {
            copy_window.remove(i);
        }
        proof {
            j = j + 1;
        }
        assert(copy_window@ =~= start.take(j).filter(p) + start.skip(j));
    }
    assert(start.take(j) =~= start);
    assert(copy_window@ =~= start.filter(p));
}

fn drop_stale<R: WindowRecord>(copy_window: &mut Vec<R>)
    ensures
        final(copy_window)@ == fresh(old(copy_window)@),
{
    let ghost start = copy_window@;
    let ghost p = not_stale::<R>();
    let ghost mut j: int = 0;
    let mut i: usize = 0;
    proof {
        reveal(Seq::filter);
        assert(start.take(0).filter(p) =~= Seq::<R>::empty());
        assert(start =~= start.take(0).filter(p) + start.skip(0));
    }
    while i < copy_window.len()
        invariant
            p == not_stale::<R>(),
            0 <= j <= start.len(),
            copy_window@ == start.take(j).filter(p) + start.skip(j),
            i == start.take(j).filter(p).len(),
        decreases start.len() - j,
    {
        assert(copy_window@[i as int] == start[j]);
        proof {
            lemma_filter_step(start, p, j);
        }
        if copy_window[i].stale() <= COPY_WINDOW_STALE_THRESHOLD {
            i += 1;
        } else {
            copy_window.remove(i);
        }
        proof {
            j = j + 1;
        }
        assert(copy_window@ =~= start.take(j).filter(p) + start.skip(j));
    }
    assert(start.take(j) =~= start);
    assert(copy_window@ =~= start.filter(p));
}

/// Fills the free places of the window from the log.
pub fn fill_window<R>(copy_window: &mut Vec<R>, copy_logs: &mut VecDeque<KernelLine<R>>)
    ensures
        (final(copy_window)@, final(copy_logs)@) == refilled(old(copy_window)@, old(copy_logs)@),
{
    while copy_window.len() < COPY_WINDOW
        invariant
            refilled(old(copy_window)@, old(copy_logs)@) == refilled(copy_window@, copy_logs@),
        decreases copy_logs@.len(),
    {
        proof {
            lemma_next_record_shortens(copy_logs@);
        }
        match next_kernel_line(copy_logs) {
            Some(record) => {
                copy_window.push(record);
            },
            None => {
                return ;
            },
        }
    }
}

/// Renews the window after copy `rec_id` has completed.
pub fn remove_stale_copies<R: WindowRecord>(
    rec_id: u64,
    copy_window: &mut Vec<R>,
    copy_logs: &mut VecDeque<KernelLine<R>>,
)
    ensures
        (final(copy_window)@, final(copy_logs)@) == renewed(
            old(copy_window)@,
            old(copy_logs)@,
            rec_id,
        ),
{
    update_stale(rec_id, copy_window);
    drop_stale(copy_window);
    fill_window(copy_window, copy_logs);
}

/// Takes the first window from a log; none if a line that could not be read stands before the end
/// of the window.
pub fn first_window<R>(copy_logs: &mut VecDeque<KernelLine<R>>) -> (r: Option<Vec<R>>)
    ensures
        match r {
            Some(window) => first_filled(Seq::<R>::empty(), old(copy_logs)@) == Some(
                (window@, final(copy_logs)@),
            ),
            None => first_filled(Seq::<R>::empty(), old(copy_logs)@) is None,
        },
        final(copy_logs)@ == first_rest(0, old(copy_logs)@),
{
    let mut window: Vec<R> = Vec::new();
    loop
        invariant
            first_filled(Seq::<R>::empty(), old(copy_logs)@) == first_filled(window@, copy_logs@),
            first_rest(0, old(copy_logs)@) == first_rest(window@.len(), copy_logs@),
        decreases copy_logs@.len(),
    {
        if window.len() >= COPY_WINDOW {
            return Some(window);
        }
        let ghost before = copy_logs@;
        match copy_logs.pop_front() {
            None => {
                return Some(window);
            },
            Some(line) => {
                assert(copy_logs@ =~= before.skip(1));
                match line {
                    KernelLine::Record(r) => {
                        window.push(r);
                    },
                    KernelLine::NotParsed => {},
                    KernelLine::Unreadable => {
                        return None;
                    },
                }
            },
        }
    }
}

/// Taking the next line and reading what it announces can be exchanged.
proof fn lemma_announced_next<R: WindowRecord>(log: Seq<KernelLine<R>>)
    ensures
        next_record(announced_log(log)).1 == announced_log(next_record(log).1),
        match next_record(log).0 {
            Some(r) => next_record(announced_log(log)).0 == Some(r.announced()),
            None => next_record(announced_log(log)).0 is None,
        },
    decreases log.len(),
{
    if log.len() > 0 {
        assert(announced_log(log).skip(1) =~= announced_log(log.skip(1)));
        lemma_announced_next(log.skip(1));
    }
}

/// Filling the window and reading what it announces can be exchanged.
pub proof fn lemma_announced_refilled<R: WindowRecord>(window: Seq<R>, log: Seq<KernelLine<R>>)
    ensures
        refilled(announced_window(window), announced_log(log)) == (
            announced_window(refilled(window, log).0),
            announced_log(refilled(window, log).1),
        ),
    decreases log.len(),
{
    lemma_announced_next(log);
    lemma_next_record_shortens(log);
    if window.len() < COPY_WINDOW {
        if let Some(r) = next_record(log).0 {
            assert(announced_window(window).push(r.announced()) =~= announced_window(
                window.push(r),
            ));
            lemma_announced_refilled(window.push(r), next_record(log).1);
        }
    }
}

/// Taking the first window and reading what it announces can be exchanged.
pub proof fn lemma_announced_first<R: WindowRecord>(window: Seq<R>, log: Seq<KernelLine<R>>)
    ensures
        match first_filled(window, log) {
            Some(p) => first_filled(announced_window(window), announced_log(log)) == Some(
                (announced_window(p.0), announced_log(p.1)),
            ),
            None => first_filled(announced_window(window), announced_log(log)) is None,
        },
        first_rest(window.len(), announced_log(log)) == announced_log(
            first_rest(window.len(), log),
        ),
    decreases log.len(),
{
    if window.len() < COPY_WINDOW && log.len() > 0 {
        assert(announced_log(log).skip(1) =~= announced_log(log.skip(1)));
        match log[0] {
            KernelLine::Record(r) => {
                assert(announced_window(window).push(r.announced()) =~= announced_window(
                    window.push(r),
                ));
                lemma_announced_first(window.push(r), log.skip(1));
            },
            KernelLine::NotParsed => {
                lemma_announced_first(window, log.skip(1));
            },
            KernelLine::Unreadable => {},
        }
    }
}

proof fn lemma_announced_filter<R: WindowRecord>(
    window: Seq<R>,
    p: spec_fn(R) -> bool,
    q: spec_fn(Announcement) -> bool,
)
    requires
        forall|r: R| p(r) == q(#[trigger] r.announced()),
    ensures
        announced_window(window).filter(q) == announced_window(window.filter(p)),
    decreases window.len(),
{
    reveal(Seq::filter);
    let a = announced_window(window);
    if window.len() == 0 {
        assert(a.filter(q) =~= announced_window(window.filter(p)));
    } else {
        assert(a.drop_last() =~= announced_window(window.drop_last()));
        assert(a.last() == window.last().announced());
        lemma_announced_filter(window.drop_last(), p, q);
        assert(a.filter(q) =~= announced_window(window.filter(p)));
    }
}

/// Completing a copy and reading what is announced can be exchanged.
pub proof fn lemma_announced_completion<R: WindowRecord>(
    window: Seq<R>,
    log: Seq<KernelLine<R>>,
    rec_id: u64,
)
    ensures
        after_completion(announced_window(window), announced_log(log), rec_id) == (
            announced_window(after_completion(window, log, rec_id).0),
            announced_log(after_completion(window, log, rec_id).1),
        ),
{
    assert forall|r: R| other_than::<R>(rec_id)(r) == other_than::<Announcement>(rec_id)(
        #[trigger] r.announced(),
    ) by {
        r.announced_agrees(0);
    }
    lemma_announced_filter(window, other_than::<R>(rec_id), other_than::<Announcement>(rec_id));
    let kept = without_record(window, rec_id);
    let older = aged_window(kept, rec_id);
    assert(aged_window(announced_window(kept), rec_id) =~= announced_window(older)) by {
        assert forall|i: int| 0 <= i < kept.len() implies aged(
            #[trigger] kept[i].announced(),
            rec_id,
        ) == aged(kept[i], rec_id).announced() by {
            kept[i].announced_agrees(kept[i].age().wrapping_add(1));
        }
    }
    assert forall|r: R| not_stale::<R>()(r) == not_stale::<Announcement>()(
        #[trigger] r.announced(),
    ) by {
        r.announced_agrees(0);
    }
    lemma_announced_filter(older, not_stale::<R>(), not_stale::<Announcement>());
    lemma_announced_refilled(fresh(older), log);
}

/// Filling the window shortens the log.
pub(crate) proof fn lemma_refill_shortens<R>(window: Seq<R>, log: Seq<KernelLine<R>>)
    ensures
        refilled(window, log).1.len() <= log.len(),
    decreases log.len(),
{
    lemma_next_record_shortens(log);
    if window.len() < COPY_WINDOW {
        if let Some(r) = next_record(log).0 {
            lemma_refill_shortens(window.push(r), next_record(log).1);
        }
    }
}

/// Taking the first window shortens the log.
pub(crate) proof fn lemma_first_rest_shortens<R>(n: nat, log: Seq<KernelLine<R>>)
    ensures
        first_rest(n, log).len() <= log.len(),
    decreases log.len(),
{
    if n < COPY_WINDOW && log.len() > 0 {
        lemma_first_rest_shortens(n + 1, log.skip(1));
        lemma_first_rest_shortens(n, log.skip(1));
    }
}

/// Law: where the first window can be taken, it is the empty window filled.
pub proof fn law_first_window_is_filled<R>(window: Seq<R>, log: Seq<KernelLine<R>>)
    ensures
        first_filled(window, log) matches Some(p) ==> p == refilled(window, log),
    decreases log.len(),
{
    if window.len() < COPY_WINDOW && log.len() > 0 {
        match log[0] {
            KernelLine::Record(r) => {
                law_first_window_is_filled(window.push(r), log.skip(1));
            },
            KernelLine::NotParsed => {
                law_first_window_is_filled(window, log.skip(1));
            },
            KernelLine::Unreadable => {},
        }
    }
}

proof fn lemma_next_record_keeps<R>(log: Seq<KernelLine<R>>)
    ensures
        records_of(log) == match next_record(log).0 {
            Some(r) => seq![r] + records_of(next_record(log).1),
            None => records_of(next_record(log).1),
        },
    decreases log.len(),
{
    if log.len() > 0 && log[0] is NotParsed {
        lemma_next_record_keeps(log.skip(1));
    }
}

/// Law: filling the window loses no announcement, adds none and keeps their order.
pub proof fn law_refill_keeps_announcements<R>(window: Seq<R>, log: Seq<KernelLine<R>>)
    ensures
        refilled(window, log).0 + records_of(refilled(window, log).1) == window + records_of(log),
        window.is_prefix_of(refilled(window, log).0),
    decreases log.len(),
{
    lemma_next_record_keeps(log);
    lemma_next_record_shortens(log);
    if window.len() < COPY_WINDOW {
        if let Some(r) = next_record(log).0 {
            let rest = next_record(log).1;
            law_refill_keeps_announcements(window.push(r), rest);
            assert(window.push(r) + records_of(rest) =~= window + records_of(log));
            let w = refilled(window, log).0;
            assert(window =~= w.subrange(0, window.len() as int)) by {
                assert forall|i: int| 0 <= i < window.len() implies w[i] == window[i] by {
                    assert(window.push(r)[i] == w.subrange(0, window.push(r).len() as int)[i]);
                }
            }
        }
    }
}

/// Law: filling never takes the window over its bound.
pub proof fn law_refill_bound<R>(window: Seq<R>, log: Seq<KernelLine<R>>)
    requires
        window.len() <= COPY_WINDOW,
    ensures
        refilled(window, log).0.len() <= COPY_WINDOW,
    decreases log.len(),
{
    lemma_next_record_shortens(log);
    if window.len() < COPY_WINDOW {
        if let Some(r) = next_record(log).0 {
            law_refill_bound(window.push(r), next_record(log).1);
        }
    }
}

/// Whether two announcements are of the same copy; how often they were overtaken may differ.
pub open spec fn same_copy(a: Announcement, b: Announcement) -> bool {
    a == (Announcement { stale: a.stale, ..b })
}

/// Whether a copy is one of the announced ones.
pub open spec fn among<R: WindowRecord>(records: Seq<R>, a: Announcement) -> bool {
    exists|i: int| 0 <= i < records.len() && same_copy(a, (#[trigger] records[i]).announced())
}

/// The announcements in the window and behind it.
pub open spec fn upcoming<R: WindowRecord>(window: Seq<R>, log: Seq<KernelLine<R>>) -> Seq<R> {
    window + records_of(log)
}

/// What filtering keeps of the order.
proof fn lemma_filter_order<R: WindowRecord>(s: Seq<R>, p: spec_fn(R) -> bool)
    ensures
        ids_increase(s) ==> ids_increase(s.filter(p)),
        forall|i: int|
            0 <= i < s.filter(p).len() ==> p(#[trigger] s.filter(p)[i]) && s.contains(
                s.filter(p)[i],
            ),
    decreases s.len(),
{
    reveal(Seq::filter);
    if s.len() > 0 {
        lemma_filter_order(s.drop_last(), p);
        let f = s.drop_last().filter(p);
        let g = s.filter(p);
        assert forall|i: int| 0 <= i < g.len() implies p(#[trigger] g[i]) && s.contains(g[i]) by {
            if i < f.len() {
                assert(g[i] == f[i]);
                let j = choose|j: int| 0 <= j < s.drop_last().len() && s.drop_last()[j] == f[i];
                assert(s[j] == g[i]);
            } else {
                assert(s[s.len() - 1] == g[i]);
            }
        }
        if ids_increase(s) {
            assert(ids_increase(s.drop_last()));
            assert forall|i: int, j: int| 0 <= i < j < g.len() implies (#[trigger] g[i]).id() < (
            #[trigger] g[j]).id() by {
                assert(g[i] == f[i]);
                if j < f.len() {
                    assert(g[j] == f[j]);
                } else {
                    let a = choose|a: int|
                        0 <= a < s.drop_last().len() && s.drop_last()[a] == f[i];
                    assert(s[a] == f[i]);
                    assert(s[s.len() - 1] == g[j]);
                }
            }
        }
    }
}

/// Law: when a copy completes, it leaves the window, nothing that was not announced comes in, and
/// the announcements keep their order.
pub proof fn law_completion<R: WindowRecord>(
    window: Seq<R>,
    log: Seq<KernelLine<R>>,
    rec_id: u64,
)
    ensures
        ({
            let before = upcoming(window, log);
            let (w, l) = after_completion(window, log, rec_id);
            let after = upcoming(w, l);
            &&& ids_increase(before) ==> ids_increase(after)
            &&& !has_id(records_of(log), rec_id) ==> !has_id(after, rec_id)
            &&& forall|i: int|
                0 <= i < after.len() ==> among(before, (#[trigger] after[i]).announced())
            &&& forall|id: u64| has_id(records_of(l), id) ==> has_id(records_of(log), id)
            &&& forall|id: u64| has_id(after, id) ==> has_id(before, id)
            &&& window.len() <= COPY_WINDOW ==> w.len() <= COPY_WINDOW
        }),
{
    let before = upcoming(window, log);
    let kept = without_record(window, rec_id);
    let older = aged_window(kept, rec_id);
    let left = fresh(older);
    let (w, l) = after_completion(window, log, rec_id);
    let after = upcoming(w, l);
    let tail = records_of(log);
    law_refill_keeps_announcements(left, log);
    assert(after == left + tail);
    lemma_filter_order(window, other_than::<R>(rec_id));
    lemma_filter_order(older, not_stale::<R>());
    assert forall|i: int| 0 <= i < older.len() implies (#[trigger] older[i]).id() == kept[i].id()
        && same_copy(older[i].announced(), kept[i].announced()) by {
        let age = kept[i].age().wrapping_add(1);
        kept[i].announced_agrees(age);
        older[i].announced_agrees(age);
    }
    // Where an announcement that is left stood in the window.
    assert forall|i: int| 0 <= i < left.len() implies exists|j: int|
        0 <= j < window.len() && (#[trigger] window[j]).id() == (#[trigger] left[i]).id()
            && same_copy(left[i].announced(), window[j].announced()) && left[i].id() != rec_id by {
        let a = choose|a: int| 0 <= a < older.len() && older[a] == left[i];
        assert(other_than::<R>(rec_id)(kept[a]));
        let j = choose|j: int| 0 <= j < window.len() && window[j] == kept[a];
        assert(older[a].id() == kept[a].id());
        assert(window[j].id() == left[i].id());
    }
    assert forall|i: int| 0 <= i < after.len() implies among(
        before,
        (#[trigger] after[i]).announced(),
    ) by {
        if i < left.len() {
            let j = choose|j: int|
                0 <= j < window.len() && (#[trigger] window[j]).id() == left[i].id() && same_copy(
                    left[i].announced(),
                    window[j].announced(),
                );
            assert(before[j] == window[j]);
        } else {
            let j = window.len() + (i - left.len());
            assert(before[j] == after[i]);
        }
    }
    if ids_increase(before) {
        assert(ids_increase(window)) by {
            assert forall|i: int, j: int| 0 <= i < j < window.len() implies (
            #[trigger] window[i]).id() < (#[trigger] window[j]).id() by {
                assert(before[i] == window[i] && before[j] == window[j]);
            }
        }
        assert(ids_increase(older)) by {
            assert forall|i: int, j: int| 0 <= i < j < older.len() implies (#[trigger] older[i]).id()
                < (#[trigger] older[j]).id() by {
                assert(kept[i].id() < kept[j].id());
            }
        }
        assert(ids_increase(left));
        assert forall|i: int, j: int| 0 <= i < j < after.len() implies (#[trigger] after[i]).id()
            < (#[trigger] after[j]).id() by {
            if j < left.len() {
                assert(after[i] == left[i] && after[j] == left[j]);
            } else {
                let y = window.len() + (j - left.len());
                assert(before[y] == after[j]);
                if i < left.len() {
                    assert(after[i] == left[i]);
                    let x = choose|x: int|
                        0 <= x < window.len() && (#[trigger] window[x]).id() == left[i].id()
                            && same_copy(left[i].announced(), window[x].announced());
                    assert(before[x] == window[x]);
                } else {
                    let x = window.len() + (i - left.len());
                    assert(before[x] == after[i]);
                }
            }
        }
    }
    if !has_id(tail, rec_id) && has_id(after, rec_id) {
        let i = choose|i: int| 0 <= i < after.len() && (#[trigger] after[i]).id() == rec_id;
        if i < left.len() {
            assert(after[i] == left[i]);
            assert(left[i].id() != rec_id);
        } else {
            assert(tail[i - left.len()] == after[i]);
        }
    }
    assert forall|id: u64| has_id(after, id) implies has_id(before, id) by {
        let i = choose|i: int| 0 <= i < after.len() && (#[trigger] after[i]).id() == id;
        if i < left.len() {
            assert(after[i] == left[i]);
            let j = choose|j: int|
                0 <= j < window.len() && (#[trigger] window[j]).id() == left[i].id() && same_copy(
                    left[i].announced(),
                    window[j].announced(),
                );
            assert(before[j].id() == id);
        } else {
            let j = window.len() + (i - left.len());
            assert(before[j] == after[i]);
        }
    }
    lemma_refill_suffix(left, log);
    assert forall|id: u64| has_id(records_of(l), id) implies has_id(tail, id) by {
        let i = choose|i: int|
            0 <= i < records_of(l).len() && (#[trigger] records_of(l)[i]).id() == id;
        let d = tail.len() - records_of(l).len();
        assert(tail[d + i] == records_of(l)[i]);
    }
    if window.len() <= COPY_WINDOW {
        lemma_filter_len(window, other_than::<R>(rec_id));
        lemma_filter_len(older, not_stale::<R>());
        law_refill_bound(left, log);
    }
}

/// Law: an announcement that was overtaken more often than the threshold allows is given up: none
/// is in the window after a copy has completed.
pub proof fn law_stale_given_up<R: WindowRecord>(
    window: Seq<R>,
    log: Seq<KernelLine<R>>,
    rec_id: u64,
)
    requires
        forall|i: int|
            0 <= i < records_of(log).len() ==> (#[trigger] records_of(log)[i]).age()
                <= COPY_WINDOW_STALE_THRESHOLD,
    ensures
        forall|i: int|
            0 <= i < after_completion(window, log, rec_id).0.len() ==> (
            #[trigger] after_completion(window, log, rec_id).0[i]).age()
                <= COPY_WINDOW_STALE_THRESHOLD,
{
    let older = aged_window(without_record(window, rec_id), rec_id);
    let left = fresh(older);
    let (w, l) = after_completion(window, log, rec_id);
    law_refill_keeps_announcements(left, log);
    lemma_filter_order(older, not_stale::<R>());
    assert forall|i: int| 0 <= i < w.len() implies (#[trigger] w[i]).age()
        <= COPY_WINDOW_STALE_THRESHOLD by {
        let tail = records_of(log);
        assert((w + records_of(l)).len() == (left + tail).len());
        assert((w + records_of(l))[i] == (left + tail)[i]);
        if i < left.len() {
            assert(w[i] == left[i]);
            assert(not_stale::<R>()(left[i]));
        } else {
            assert(w[i] == tail[i - left.len()]);
        }
    }
}

/// Announcements whose identities increase still do after some are left out.
pub(crate) proof fn lemma_filter_keeps_order<R: WindowRecord>(s: Seq<R>, p: spec_fn(R) -> bool)
    requires
        ids_increase(s),
    ensures
        ids_increase(s.filter(p)),
{
    lemma_filter_order(s, p);
}

proof fn lemma_filter_len<R>(s: Seq<R>, p: spec_fn(R) -> bool)
    ensures
        s.filter(p).len() <= s.len(),
    decreases s.len(),
{
    reveal(Seq::filter);
    if s.len() > 0 {
        lemma_filter_len(s.drop_last(), p);
    }
}

/// What is left of the log is its end.
proof fn lemma_refill_suffix<R>(window: Seq<R>, log: Seq<KernelLine<R>>)
    ensures
        ({
            let l = records_of(refilled(window, log).1);
            let all = records_of(log);
            l.len() <= all.len() && l == all.skip(all.len() - l.len())
        }),
{
    law_refill_keeps_announcements(window, log);
    let (w, rest) = refilled(window, log);
    let l = records_of(rest);
    let all = records_of(log);
    assert(window.len() <= w.len());
    assert((w + l).len() == (window + all).len());
    assert forall|i: int| 0 <= i < l.len() implies l[i] == all[all.len() - l.len() + i] by {
        assert((w + l)[w.len() + i] == (window + all)[w.len() + i]);
    }
    assert(l =~= all.skip(all.len() - l.len()));
}

/// Law: the next announcement of a log is that of its first line that is not just another text;
/// there is none where that line could not be read or there is no such line, and what is left of
/// the log stands behind that line.
pub proof fn law_next_record<R>(log: Seq<KernelLine<R>>, i: int)
    requires
        0 <= i <= log.len(),
        forall|j: int| 0 <= j < i ==> (#[trigger] log[j]) is NotParsed,
        i < log.len() ==> !(log[i] is NotParsed),
    ensures
        next_record(log) == (if i == log.len() {
            (None, Seq::empty())
        } else {
            match log[i] {
                KernelLine::Record(r) => (Some(r), log.skip(i + 1)),
                _ => (None, log.skip(i + 1)),
            }
        }),
    decreases log.len(),
{
    if i == 0 {
        if log.len() == 0 {
            assert(log =~= Seq::empty());
        }
    } else {
        let rest = log.skip(1);
        assert(log[0] is NotParsed);
        assert forall|j: int| 0 <= j < i - 1 implies (#[trigger] rest[j]) is NotParsed by {
            assert(rest[j] == log[j + 1]);
        }
        law_next_record(rest, i - 1);
        if i < log.len() {
            assert(rest.skip(i) =~= log.skip(i + 1));
        }
    }
}

/// Law: filling stops only when the window holds 200 announcements, or at a line that could not be
/// read, or at the end of the log: where all lines can be read, the window holds 200 announcements
/// or more, or none is left in the log; and it is never taken over 200.
pub proof fn law_refill_fills<R>(window: Seq<R>, log: Seq<KernelLine<R>>)
    ensures
        window.len() <= 200 ==> refilled(window, log).0.len() <= 200,
        window.len() >= 200 ==> refilled(window, log) == (window, log),
        (forall|j: int| 0 <= j < log.len() ==> !((#[trigger] log[j]) is Unreadable)) ==> refilled(
            window,
            log,
        ).0.len() >= 200 || records_of(refilled(window, log).1).len() == 0,
    decreases log.len(),
{
    lemma_next_record_shortens(log);
    if window.len() < 200 {
        let (next, rest) = next_record(log);
        if forall|j: int| 0 <= j < log.len() ==> !((#[trigger] log[j]) is Unreadable) {
            lemma_next_readable(log);
        }
        if let Some(r) = next {
            law_refill_fills(window.push(r), rest);
        }
    }
}

proof fn lemma_next_readable<R>(log: Seq<KernelLine<R>>)
    requires
        forall|j: int| 0 <= j < log.len() ==> !((#[trigger] log[j]) is Unreadable),
    ensures
        ({
            let (next, rest) = next_record(log);
            &&& next is None ==> records_of(rest).len() == 0
            &&& forall|j: int| 0 <= j < rest.len() ==> !((#[trigger] rest[j]) is Unreadable)
        }),
    decreases log.len(),
{
    if log.len() > 0 {
        let tail = log.skip(1);
        assert(!(log[0] is Unreadable));
        assert forall|j: int| 0 <= j < tail.len() implies !((#[trigger] tail[j]) is Unreadable) by {
            assert(tail[j] == log[j + 1]);
        }
        lemma_next_readable(tail);
    }
}

/// Law: a line that could not be read, behind nothing but other texts, adds nothing to the window.
pub proof fn law_refill_stops<R>(window: Seq<R>, log: Seq<KernelLine<R>>, i: int)
    requires
        0 <= i < log.len(),
        forall|j: int| 0 <= j < i ==> (#[trigger] log[j]) is NotParsed,
        log[i] is Unreadable,
        window.len() < 200,
    ensures
        refilled(window, log) == (window, log.skip(i + 1)),
{
    law_next_record(log, i);
}

/// Law: the first window cannot be taken if and only if a line that could not be read stands in the
/// log with fewer than 200 announcements in the window and before it.
pub proof fn law_first_window_refused<R>(window: Seq<R>, log: Seq<KernelLine<R>>)
    ensures
        first_filled(window, log) is None <==> exists|j: int|
            0 <= j < log.len() && (#[trigger] log[j]) is Unreadable && window.len() + records_of(
                log.take(j),
            ).len() < 200,
    decreases log.len(),
{
    let tail = log.skip(1);
    if log.len() > 0 {
        assert(log.take(0) =~= Seq::<KernelLine<R>>::empty());
        assert forall|j: int| 0 < j < log.len() implies #[trigger] records_of(log.take(j)).len()
            == records_of(tail.take(j - 1)).len() + if log[0] is Record {
            1nat
        } else {
            0nat
        } by {
            assert(log.take(j).skip(1) =~= tail.take(j - 1));
            assert(log.take(j)[0] == log[0]);
        }
        let next = match log[0] {
            KernelLine::Record(r) => window.push(r),
            _ => window,
        };
        law_first_window_refused(next, tail);
        if window.len() < 200 {
            if log[0] is Unreadable {
                assert(records_of(log.take(0)).len() == 0);
            } else if first_filled(next, tail) is None {
                let j = choose|j: int|
                    0 <= j < tail.len() && (#[trigger] tail[j]) is Unreadable && next.len()
                        + records_of(tail.take(j)).len() < 200;
                assert(log[j + 1] == tail[j]);
                assert(records_of(log.take(j + 1)).len() <= records_of(tail.take(j)).len() + 1);
            } else if exists|j: int|
                0 <= j < log.len() && (#[trigger] log[j]) is Unreadable && window.len()
                    + records_of(log.take(j)).len() < 200 {
                let j = choose|j: int|
                    0 <= j < log.len() && (#[trigger] log[j]) is Unreadable && window.len()
                        + records_of(log.take(j)).len() < 200;
                assert(tail[j - 1] == log[j]);
                assert(records_of(log.take(j)).len() >= records_of(tail.take(j - 1)).len());
            }
        }
    }
}

proof fn lemma_filter_has<R>(s: Seq<R>, p: spec_fn(R) -> bool, i: int)
    requires
        0 <= i < s.len(),
        p(s[i]),
    ensures
        s.filter(p).contains(s[i]),
    decreases s.len(),
{
    reveal(Seq::filter);
    let f = s.filter(p);
    if i == s.len() - 1 {
        assert(f[f.len() - 1] == s[i]);
    } else {
        let rest = s.drop_last();
        lemma_filter_has(rest, p, i);
        let g = rest.filter(p);
        let j = choose|j: int| 0 <= j < g.len() && g[j] == rest[i];
        assert(f[j] == s[i]);
    }
}

/// Law: taking an announcement out of the window takes out that one alone.
pub proof fn law_without_record<R: WindowRecord>(window: Seq<R>, rec_id: u64, r: R)
    ensures
        without_record(window, rec_id).contains(r) <==> window.contains(r) && r.id() != rec_id,
{
    lemma_filter_order(window, other_than::<R>(rec_id));
    if window.contains(r) && r.id() != rec_id {
        let i = choose|i: int| 0 <= i < window.len() && window[i] == r;
        lemma_filter_has(window, other_than::<R>(rec_id), i);
    }
}

/// Law: a completed copy overtakes the announcements with smaller identities and no others, once
/// each, and they keep their places.
pub proof fn law_overtaken<R: WindowRecord>(window: Seq<R>, rec_id: u64, i: int)
    requires
        0 <= i < window.len(),
        window[i].age() < usize::MAX,
    ensures
        aged_window(window, rec_id).len() == window.len(),
        aged_window(window, rec_id)[i] == (if window[i].id() < rec_id {
            window[i].with_age((window[i].age() + 1) as usize)
        } else {
            window[i]
        }),
{
}

/// Law: when a copy completes, an announcement of the window other than it stays, overtaken once
/// more if its identity is smaller, unless that makes it overtaken more than 20 times.
pub proof fn law_stays<R: WindowRecord>(window: Seq<R>, log: Seq<KernelLine<R>>, rec_id: u64, i: int)
    requires
        0 <= i < window.len(),
        window[i].id() != rec_id,
        window[i].age() < usize::MAX,
    ensures
        ({
            let w = after_completion(window, log, rec_id).0;
            let times = window[i].age() + if window[i].id() < rec_id {
                1int
            } else {
                0int
            };
            let r = if window[i].id() < rec_id {
                window[i].with_age(times as usize)
            } else {
                window[i]
            };
            times <= 20 ==> w.contains(r)
        }),
{
    let kept = without_record(window, rec_id);
    let older = aged_window(kept, rec_id);
    let left = fresh(older);
    let w = after_completion(window, log, rec_id).0;
    lemma_filter_has(window, other_than::<R>(rec_id), i);
    let j = choose|j: int| 0 <= j < kept.len() && kept[j] == window[i];
    let r = aged(window[i], rec_id);
    assert(older[j] == r);
    window[i].announced_agrees((window[i].age() + 1) as usize);
    r.announced_agrees(0);
    if r.age() <= 20 {
        lemma_filter_has(older, not_stale::<R>(), j);
        let x = choose|x: int| 0 <= x < left.len() && left[x] == r;
        law_refill_keeps_announcements(left, log);
        assert(w.subrange(0, left.len() as int)[x] == left[x]);
        assert(w[x] == r);
    }
}

/// Law: every announcement of the window after a completed copy comes from the log, or was in the
/// window, is not the completed one and was overtaken at most 20 times.
pub proof fn law_stays_only<R: WindowRecord>(
    window: Seq<R>,
    log: Seq<KernelLine<R>>,
    rec_id: u64,
    x: int,
)
    requires
        0 <= x < after_completion(window, log, rec_id).0.len(),
        forall|i: int| 0 <= i < window.len() ==> (#[trigger] window[i]).age() < usize::MAX,
    ensures
        ({
            let r = after_completion(window, log, rec_id).0[x];
            ||| records_of(log).contains(r)
            ||| r.age() <= 20 && exists|i: int|
                0 <= i < window.len() && (#[trigger] window[i]).id() != rec_id && r == (
                if window[i].id() < rec_id {
                    window[i].with_age((window[i].age() + 1) as usize)
                } else {
                    window[i]
                })
        }),
{
    let kept = without_record(window, rec_id);
    let older = aged_window(kept, rec_id);
    let left = fresh(older);
    let (w, l) = after_completion(window, log, rec_id);
    let tail = records_of(log);
    law_refill_keeps_announcements(left, log);
    assert((w + records_of(l))[x] == (left + tail)[x]);
    if x < left.len() {
        lemma_filter_order(older, not_stale::<R>());
        lemma_filter_order(window, other_than::<R>(rec_id));
        assert(not_stale::<R>()(left[x]));
        let y = choose|y: int| 0 <= y < older.len() && older[y] == left[x];
        assert(other_than::<R>(rec_id)(kept[y]));
        let i = choose|i: int| 0 <= i < window.len() && window[i] == kept[y];
        assert(window[i].id() != rec_id);
    } else {
        assert((w + records_of(l)).len() == (left + tail).len());
        assert(tail[x - left.len()] == w[x]);
    }
}

/// Law: what is left of a log after the first window was asked for: what stands behind the window,
/// or, where it cannot be taken, behind the first line that could not be read.
pub proof fn law_first_rest<R>(window: Seq<R>, log: Seq<KernelLine<R>>)
    ensures
        match first_filled(window, log) {
            Some((_, rest)) => first_rest(window.len(), log) == rest,
            None => exists|j: int|
                0 <= j < log.len() && (#[trigger] log[j]) is Unreadable && (forall|i: int|
                    0 <= i < j ==> !((#[trigger] log[i]) is Unreadable)) && first_rest(
                    window.len(),
                    log,
                ) == log.skip(j + 1),
        },
    decreases log.len(),
{
    if window.len() < COPY_WINDOW && log.len() > 0 {
        let tail = log.skip(1);
        if log[0] is Unreadable {
            assert(log[0] is Unreadable && first_rest(window.len(), log) == log.skip(1));
        } else {
            let next = match log[0] {
                KernelLine::Record(r) => window.push(r),
                _ => window,
            };
            law_first_rest(next, tail);
            if first_filled(window, log) is None {
                let j = choose|j: int|
                    0 <= j < tail.len() && (#[trigger] tail[j]) is Unreadable && (forall|i: int|
                        0 <= i < j ==> !((#[trigger] tail[i]) is Unreadable)) && first_rest(
                        next.len(),
                        tail,
                    ) == tail.skip(j + 1);
                assert(log[j + 1] == tail[j]);
                assert forall|i: int| 0 <= i < j + 1 implies !((#[trigger] log[i]) is Unreadable) by {
                    if i > 0 {
                        assert(tail[i - 1] == log[i]);
                    }
                }
                assert(tail.skip(j + 1) =~= log.skip(j + 1 + 1));
            }
        }
    }
}

/// Law: a window announces what its records announce, place by place, and a log what its lines do;
/// other texts and lines that could not be read stay what they are.
pub proof fn law_announced<R: WindowRecord>(window: Seq<R>, log: Seq<KernelLine<R>>, i: int)
    ensures
        announced_window(window).len() == window.len(),
        0 <= i < window.len() ==> announced_window(window)[i] == window[i].announced(),
        announced_log(log).len() == log.len(),
        0 <= i < log.len() ==> match log[i] {
            KernelLine::Record(r) => announced_log(log)[i] == KernelLine::Record(r.announced()),
            KernelLine::NotParsed => announced_log(log)[i] is NotParsed,
            KernelLine::Unreadable => announced_log(log)[i] is Unreadable,
        },
{
}

/// Law: the announcements of a log are those of its lines, in their order, and nothing else.
pub proof fn law_records_of<R>(a: Seq<KernelLine<R>>, b: Seq<KernelLine<R>>)
    ensures
        records_of(a + b) == records_of(a) + records_of(b),
        a.len() == 1 ==> records_of(a) == match a[0] {
            KernelLine::Record(r) => seq![r],
            _ => Seq::empty(),
        },
    decreases a.len(),
{
    if a.len() == 0 {
        assert(a + b =~= b);
        assert(records_of(a) + records_of(b) =~= records_of(b));
    } else {
        let rest = a.skip(1);
        law_records_of(rest, b);
        assert((a + b).skip(1) =~= rest + b);
        assert(records_of(a + b) =~= records_of(a) + records_of(b));
        if a.len() == 1 {
            assert(rest =~= Seq::<KernelLine<R>>::empty());
            assert(records_of(rest) =~= Seq::<R>::empty());
            assert(records_of(a) =~= match a[0] {
                KernelLine::Record(r) => seq![r],
                _ => Seq::empty(),
            });
        }
    }
}

} // verus!
