//! Replaces the loads and stores of announced page copies in a memory trace by row copies.
use crate::copy_window;
use crate::copy_window::{Announcement, KernelLine, WindowRecord};
use crate::kernel_log;
use crate::kernel_log::PAGE_SIZE;
use crate::log_parser;
use crate::log_parser::LogRecord;
use crate::memory_access;
use crate::memory_access::{MemRecord, MemoryAccess, RowcloneRecord};
use crate::pattern::Pattern;
use crate::text;
use std::collections::VecDeque;
use vstd::prelude::*;
use vstd::string::*;

verus! {

/// A page copy that the kernel announced.
pub struct KernelRecord {
    pub rec_id: u64,
    pub cpu: u8,
    pub size: u64,
    pub operation: char,
    pub kernel_address: u64,
    pub user_address: u64,
    pub stale: usize,
}

/// A page copy of which the start was seen in the memory trace.
#[derive(Clone)]
pub struct MemCpy {
    pub rec_id: u64,
    pub cpu: usize,
    pub from: u64,
    pub to: u64,
    pub size: u64,
    pub current_from: u64,
    pub current_to: u64,
    pub associated_indices: Vec<usize>,
    pub first_insn_count: u64,
    pub first_global_idx: usize,
}

/// A page copy that was seen to its end, with the positions of its first and last access.
pub struct RowcloneEvent {
    pub target_global_idx: usize,
    pub end_global_idx: usize,
    pub cpu: usize,
    pub insn_count: u64,
    pub from: u64,
    pub to: u64,
}

/// A started copy: what is left to read and to write, and the positions of its accesses.
pub struct Copying {
    pub rec_id: u64,
    pub cpu: usize,
    pub from: u64,
    pub to: u64,
    pub size: u64,
    pub current_from: u64,
    pub current_to: u64,
    pub indices: Seq<usize>,
    pub first_insn_count: u64,
    pub first_global_idx: usize,
}

impl View for MemCpy {
    type V = Copying;

    open spec fn view(&self) -> Copying {
        Copying {
            rec_id: self.rec_id,
            cpu: self.cpu,
            from: self.from,
            to: self.to,
            size: self.size,
            current_from: self.current_from,
            current_to: self.current_to,
            indices: self.associated_indices@,
            first_insn_count: self.first_insn_count,
            first_global_idx: self.first_global_idx,
        }
    }
}

/// The started copies.
pub open spec fn copyings(copies: Seq<MemCpy>) -> Seq<Copying> {
    Seq::new(copies.len(), |i: int| copies[i]@)
}

impl KernelRecord {
    /// The text of `debug_text`.
    pub open spec fn debug_view(self) -> Seq<char> {
        "KernelRecord {cpu: "@ + text::decimal_digits(self.cpu as nat) + ", size: "@
            + text::decimal_digits(self.size as nat) + ", op: "@ + seq![self.operation]
            + ", kernel_address: "@ + text::address_text(self.kernel_address) + ", user_address: "@
            + text::address_text(self.user_address) + " }"@
    }

    /// The record in one line, for messages.
    pub fn debug_text(&self) -> (r: String)
        ensures
            r@ == self.debug_view(),
    {
        let mut r = String::new();
        r.append("KernelRecord {cpu: ");
        r.append(text::decimal(self.cpu as u64).as_str());
        r.append(", size: ");
        r.append(text::decimal(self.size).as_str());
        r.append(", op: ");
        r.push(self.operation);
        r.append(", kernel_address: ");
        r.append(text::address(self.kernel_address).as_str());
        r.append(", user_address: ");
        r.append(text::address(self.user_address).as_str());
        r.append(" }");
        assert(r@ =~= self.debug_view());
        r
    }
}

impl WindowRecord for KernelRecord {
    open spec fn id(&self) -> u64 {
        self.rec_id
    }

    open spec fn age(&self) -> usize {
        self.stale
    }

    open spec fn with_age(&self, age: usize) -> Self {
        KernelRecord { stale: age, ..*self }
    }

    fn rec_id(&self) -> u64 {
        self.rec_id
    }

    fn stale(&self) -> usize {
        self.stale
    }

    fn set_stale(&mut self, stale: usize) {
        self.stale = stale;
    }

    open spec fn announced(&self) -> Announcement {
        Announcement {
            rec_id: self.rec_id,
            cpu: self.cpu,
            size: self.size,
            source: kernel_log::copy_source(
                self.operation,
                self.kernel_address,
                self.user_address,
            ),
            target: kernel_log::copy_target(
                self.operation,
                self.kernel_address,
                self.user_address,
            ),
            stale: self.stale,
        }
    }

    proof fn announced_agrees(&self, age: usize) {
    }
}

/// The record of a parsed copy.
pub open spec fn kernel_record(copy: kernel_log::ParsedCopy) -> KernelRecord {
    KernelRecord {
        rec_id: copy.rec_id,
        cpu: copy.cpu,
        size: PAGE_SIZE,
        operation: copy.operation,
        kernel_address: copy.kernel_address,
        user_address: copy.user_address,
        stale: 0,
    }
}

/// Whether an access is the one that a copy does next: the load at the place that it has read up
/// to, or the store at the place that it has written up to.
pub open spec fn continues(access: LogRecord, copy: Copying) -> bool {
    &&& access.cpu == copy.cpu
    &&& (copy.current_from == access.address && access.store == 0) || (copy.current_to
        == access.address && access.store == 1)
}

/// Whether a copy has written all its bytes.
pub open spec fn complete(copy: Copying) -> bool {
    copy.current_to >= copy.to.wrapping_add(copy.size)
}

/// A copy after one more of its accesses, at a position of the trace.
pub open spec fn advanced(copy: Copying, access: LogRecord, idx: usize) -> Copying {
    let bytes = log_parser::access_bytes(access.size);
    if access.store == 1 {
        Copying {
            current_to: copy.current_to.wrapping_add(bytes),
            indices: copy.indices.push(idx),
            ..copy
        }
    } else {
        Copying {
            current_from: copy.current_from.wrapping_add(bytes),
            indices: copy.indices.push(idx),
            ..copy
        }
    }
}

/// The first started copy, from position `k` on, that an access continues; their number if there
/// is none.
pub open spec fn continued(copies: Seq<Copying>, access: LogRecord, k: int) -> int
    decreases copies.len() - k,
{
    if k >= copies.len() {
        copies.len() as int
    } else if continues(access, copies[k]) {
        k
    } else {
        continued(copies, access, k + 1)
    }
}

/// The first started copy, from position `k` on, of an announcement; their number if there is
/// none.
pub open spec fn started(copies: Seq<Copying>, rec_id: u64, k: int) -> int
    decreases copies.len() - k,
{
    if k >= copies.len() {
        copies.len() as int
    } else if copies[k].rec_id == rec_id {
        k
    } else {
        started(copies, rec_id, k + 1)
    }
}

/// Where the processing stands: the started copies, which positions belong to completed copies,
/// the completed copies, and the announcements in the window and behind it.
pub struct Progress<R> {
    pub active: Seq<Copying>,
    pub valid: Seq<bool>,
    pub events: Seq<RowcloneEvent>,
    pub window: Seq<R>,
    pub log: Seq<KernelLine<R>>,
}

/// Whether a position is one of some positions.
pub open spec fn includes(indices: Seq<usize>, idx: int) -> bool {
    exists|j: int| 0 <= j < indices.len() && #[trigger] indices[j] == idx
}

/// The positions that belong to completed copies, with those of one more.
pub open spec fn marked(valid: Seq<bool>, indices: Seq<usize>) -> Seq<bool> {
    Seq::new(valid.len(), |i: int| valid[i] || includes(indices, i))
}

/// What is recorded of a copy that was completed at a position.
pub open spec fn completed(copy: Copying, idx: usize) -> RowcloneEvent {
    RowcloneEvent {
        target_global_idx: copy.first_global_idx,
        end_global_idx: idx,
        cpu: copy.cpu,
        insn_count: copy.first_insn_count,
        from: copy.from,
        to: copy.to,
    }
}

/// The progress after an access that continues the first of its copies, and whether there is one.
pub open spec fn after_continuing<R: WindowRecord>(
    p: Progress<R>,
    access: LogRecord,
    idx: usize,
) -> (Progress<R>, bool) {
    let m = continued(p.active, access, 0);
    if m >= p.active.len() {
        (p, false)
    } else {
        let copy = advanced(p.active[m], access, idx);
        if complete(copy) {
            let (window, log) = copy_window::after_completion(p.window, p.log, copy.rec_id);
            (
                Progress {
                    active: p.active.remove(m),
                    valid: marked(p.valid, copy.indices),
                    events: p.events.push(completed(copy, idx)),
                    window,
                    log,
                },
                true,
            )
        } else {
            (Progress { active: p.active.update(m, copy), ..p }, true)
        }
    }
}

/// Whether an access is the first load of an announced copy.
pub open spec fn is_start(access: LogRecord, a: Announcement) -> bool {
    access.cpu == a.cpu && access.store == 0 && a.source == Some(access.address)
}

/// A copy that an access starts.
pub open spec fn new_copy(access: LogRecord, a: Announcement, idx: usize) -> Copying {
    Copying {
        rec_id: a.rec_id,
        cpu: a.cpu as usize,
        from: access.address,
        to: a.target,
        size: a.size,
        current_from: log_parser::access_end(access),
        current_to: a.target,
        indices: seq![idx],
        first_insn_count: access.insn_count,
        first_global_idx: idx,
    }
}

/// The started copies after an access that may start copies of the window, and whether it belongs
/// to one of them. It is one more access of each of its copies that has started and written
/// nothing yet, up to the first copy that has not started, which it starts.
pub open spec fn starting<R: WindowRecord>(
    copies: Seq<Copying>,
    access: LogRecord,
    window: Seq<R>,
    idx: usize,
) -> (Seq<Copying>, bool)
    decreases window.len(),
{
    if window.len() == 0 {
        (copies, false)
    } else if !is_start(access, window[0].announced()) {
        starting(copies, access, window.skip(1), idx)
    } else {
        let m = started(copies, window[0].announced().rec_id, 0);
        if m >= copies.len() {
            (copies.push(new_copy(access, window[0].announced(), idx)), true)
        } else if copies[m].current_to == copies[m].to {
            let again = Copying { indices: copies[m].indices.push(idx), ..copies[m] };
            (starting(copies.update(m, again), access, window.skip(1), idx).0, true)
        } else {
            starting(copies, access, window.skip(1), idx)
        }
    }
}

/// The progress after one access.
pub open spec fn after_access<R: WindowRecord>(
    p: Progress<R>,
    access: LogRecord,
    idx: usize,
) -> Progress<R> {
    let (q, belongs) = after_continuing(p, access, idx);
    if belongs {
        q
    } else {
        Progress { active: starting(p.active, access, p.window, idx).0, ..p }
    }
}

/// The progress after the first `k` accesses of a trace.
pub open spec fn progress<R: WindowRecord>(
    p: Progress<R>,
    history: Seq<LogRecord>,
    k: int,
) -> Progress<R>
    decreases k,
{
    if k <= 0 {
        p
    } else {
        after_access(progress(p, history, k - 1), history[k - 1], (k - 1) as usize)
    }
}

/// The progress before a trace of `n` accesses.
pub open spec fn beginning<R>(
    n: nat,
    window: Seq<R>,
    log: Seq<KernelLine<R>>,
) -> Progress<R> {
    Progress {
        active: Seq::empty(),
        valid: Seq::new(n, |i: int| false),
        events: Seq::empty(),
        window,
        log,
    }
}

/// The progress that the variables of the processing stand for.
pub open spec fn progress_of(
    active: Seq<MemCpy>,
    valid: Seq<bool>,
    events: Seq<RowcloneEvent>,
    window: Seq<KernelRecord>,
    log: Seq<KernelLine<KernelRecord>>,
) -> Progress<KernelRecord> {
    Progress {
        active: copyings(active),
        valid,
        events,
        window,
        log,
    }
}

/// Whether an access is the one that a copy does next.
pub fn mem_copy_match(mem_access: &LogRecord, copy: &MemCpy) -> (r: bool)
    ensures
        r == continues(*mem_access, copy@),
{
    if mem_access.cpu as usize != copy.cpu {
        return false;
    }
    (copy.current_from == mem_access.address && mem_access.store == 0) || (copy.current_to
        == mem_access.address && mem_access.store == 1)
}

/// Whether a copy has written all its bytes.
pub fn copy_done(copy: &MemCpy) -> (r: bool)
    ensures
        r == complete(copy@),
{
    copy.current_to >= copy.to.wrapping_add(copy.size)
}

/// Advances a copy by an access, and tells whether that completes it.
pub fn update_copy(
    copies: &mut Vec<MemCpy>,
    copy_idx: usize,
    mem_access: &LogRecord,
    global_idx: usize,
) -> (r: bool)
    requires
        copy_idx < old(copies)@.len(),
    ensures
        copyings(final(copies)@) == copyings(old(copies)@).update(
            copy_idx as int,
            advanced(old(copies)@[copy_idx as int]@, *mem_access, global_idx),
        ),
        r == complete(advanced(old(copies)@[copy_idx as int]@, *mem_access, global_idx)),
{
    let access_size_bytes = log_parser::access_size_bytes(mem_access.size);
    let copy = &mut copies[copy_idx];
    if mem_access.store == 1 {
        copy.current_to = copy.current_to.wrapping_add(access_size_bytes);
    } else {
        copy.current_from = copy.current_from.wrapping_add(access_size_bytes);
    }
    copy.associated_indices.push(global_idx);
    let done = copy_done(&copies[copy_idx]);
    assert(copyings(copies@) =~= copyings(old(copies)@).update(
        copy_idx as int,
        advanced(old(copies)@[copy_idx as int]@, *mem_access, global_idx),
    ));
    done
}

/// Marks the positions of a completed copy.
fn mark(valid_indices: &mut Vec<bool>, indices: &Vec<usize>)
    requires
        forall|i: int| 0 <= i < indices@.len() ==> #[trigger] indices@[i] < old(valid_indices)@.len(),
    ensures
        final(valid_indices)@ == marked(old(valid_indices)@, indices@),
{
    let ghost start = valid_indices@;
    let mut i: usize = 0;
    while i < indices.len()
        invariant
            i <= indices@.len(),
            valid_indices@.len() == start.len(),
            forall|k: int| 0 <= k < indices@.len() ==> #[trigger] indices@[k] < start.len(),
            forall|k: int|
                0 <= k < start.len() ==> #[trigger] valid_indices@[k] == (start[k] || includes(
                    indices@.take(i as int),
                    k,
                )),
        decreases indices.len() - i,
    {
        let ghost before = valid_indices@;
        let saved_idx = indices[i];
        valid_indices.set(saved_idx, true);
        proof {
            let done = indices@.take(i as int);
            let now = indices@.take(i + 1);
            assert(now =~= done.push(saved_idx));
            assert forall|k: int| 0 <= k < start.len() implies #[trigger] valid_indices@[k] == (
            start[k] || includes(now, k)) by {
                assert(before[k] == (start[k] || includes(done, k)));
                if k == saved_idx {
                    assert(now[i as int] == k);
                } else if includes(now, k) {
                    let j = choose|j: int| 0 <= j < now.len() && #[trigger] now[j] == k;
                    assert(done[j] == k);
                } else if includes(done, k) {
                    let j = choose|j: int| 0 <= j < done.len() && #[trigger] done[j] == k;
                    assert(now[j] == k);
                }
            }
        }
        i += 1;
    }
    assert(indices@.take(i as int) =~= indices@);
    assert(valid_indices@ =~= marked(start, indices@));
}

/// Whether all positions of the started copies are below a bound.
pub open spec fn indices_below(copies: Seq<Copying>, bound: nat) -> bool {
    forall|c: int, i: int|
        0 <= c < copies.len() && 0 <= i < copies[c].indices.len()
            ==> #[trigger] copies[c].indices[i] < bound
}

/// Lets an access continue the first of its copies; a copy that is complete is recorded.
pub fn track_active_copies(
    mem_access: &LogRecord,
    active_copies: &mut Vec<MemCpy>,
    global_idx: usize,
    valid_indices: &mut Vec<bool>,
    rowclone_events: &mut Vec<RowcloneEvent>,
    copy_window: &mut Vec<KernelRecord>,
    copy_logs: &mut VecDeque<KernelLine<KernelRecord>>,
) -> (r: bool)
    requires
        global_idx < old(valid_indices)@.len(),
        indices_below(copyings(old(active_copies)@), old(valid_indices)@.len()),
    ensures
        (
            progress_of(
                final(active_copies)@,
                final(valid_indices)@,
                final(rowclone_events)@,
                final(copy_window)@,
                final(copy_logs)@,
            ),
            r,
        ) == after_continuing(
            progress_of(
                old(active_copies)@,
                old(valid_indices)@,
                old(rowclone_events)@,
                old(copy_window)@,
                old(copy_logs)@,
            ),
            *mem_access,
            global_idx,
        ),
{
    let ghost start = progress_of(
        active_copies@,
        valid_indices@,
        rowclone_events@,
        copy_window@,
        copy_logs@,
    );
    let mut idx: usize = 0;
    while idx < active_copies.len()
        invariant
            idx <= active_copies@.len(),
            *active_copies == *old(active_copies),
            *valid_indices == *old(valid_indices),
            *rowclone_events == *old(rowclone_events),
            *copy_window == *old(copy_window),
            *copy_logs == *old(copy_logs),
            start == progress_of(
                active_copies@,
                valid_indices@,
                rowclone_events@,
                copy_window@,
                copy_logs@,
            ),
            global_idx < valid_indices@.len(),
            indices_below(copyings(active_copies@), valid_indices@.len()),
            continued(start.active, *mem_access, 0) == continued(
                start.active,
                *mem_access,
                idx as int,
            ),
        decreases active_copies.len() - idx,
    {
        if mem_copy_match(mem_access, &active_copies[idx]) {
            let ghost copy = advanced(start.active[idx as int], *mem_access, global_idx);
            let done = update_copy(active_copies, idx, mem_access, global_idx);
            assert(copyings(active_copies@).len() == active_copies@.len());
            assert(copyings(active_copies@)[idx as int] == copy);
            if done {
                let rec_id = active_copies[idx].rec_id;
                copy_window::remove_record(rec_id, copy_window);
                copy_window::remove_stale_copies(rec_id, copy_window, copy_logs);
                proof {
                    assert forall|i: int|
                        0 <= i < copy.indices.len() implies #[trigger] copy.indices[i]
                        < valid_indices@.len() by {
                        if i < copy.indices.len() - 1 {
                            assert(copy.indices[i] == start.active[idx as int].indices[i]);
                        }
                    }
                }
                mark(valid_indices, &active_copies[idx].associated_indices);
                rowclone_events.push(
                    RowcloneEvent {
                        target_global_idx: active_copies[idx].first_global_idx,
                        end_global_idx: global_idx,
                        cpu: active_copies[idx].cpu,
                        insn_count: active_copies[idx].first_insn_count,
                        from: active_copies[idx].from,
                        to: active_copies[idx].to,
                    },
                );
                let ghost full = active_copies@;
                active_copies.remove(idx);
                assert(copyings(active_copies@) =~= start.active.remove(idx as int)) by {
                    assert forall|i: int| 0 <= i < active_copies@.len() implies copyings(
                        active_copies@,
                    )[i] == start.active.remove(idx as int)[i] by {
                        if i < idx {
                            assert(copyings(full)[i] == start.active[i]);
                        } else {
                            assert(copyings(full)[i + 1] == start.active[i + 1]);
                        }
                    }
                }
            }
            return true;
        }
        idx += 1;
    }
    false
}

/// The position of the started copy of an announcement; their number if there is none.
fn find_started(copies: &Vec<MemCpy>, rec_id: u64) -> (r: usize)
    ensures
        r == started(copyings(copies@), rec_id, 0),
        r <= copies@.len(),
        r < copies@.len() ==> copies@[r as int].rec_id == rec_id,
{
    let mut i: usize = 0;
    while i < copies.len()
        invariant
            i <= copies@.len(),
            started(copyings(copies@), rec_id, 0) == started(copyings(copies@), rec_id, i as int),
        decreases copies.len() - i,
    {
        assert(copyings(copies@)[i as int] == copies@[i as int]@);
        if copies[i].rec_id == rec_id {
            return i;
        }
        i += 1;
    }
    i
}

/// Lets an access start copies of the window, and tells whether it belongs to one of them.
pub fn check_potential_copy_start(
    mem_access: &LogRecord,
    copy_window: &Vec<KernelRecord>,
    potential_copies: &mut Vec<MemCpy>,
    global_idx: usize,
) -> (r: bool)
    ensures
        (copyings(final(potential_copies)@), r) == starting(
            copyings(old(potential_copies)@),
            *mem_access,
            copy_window@,
            global_idx,
        ),
{
    let ghost window = copy_window@;
    let ghost start = starting(
        copyings(potential_copies@),
        *mem_access,
        window,
        global_idx,
    );
    let mut potential_copy = false;
    let mut i: usize = 0;
    assert(window.skip(0) =~= window);
    while i < copy_window.len()
        invariant
            i <= copy_window@.len(),
            window == copy_window@,
            start == starting(
                copyings(old(potential_copies)@),
                *mem_access,
                window,
                global_idx,
            ),
            start.0 == starting(
                copyings(potential_copies@),
                *mem_access,
                window.skip(i as int),
                global_idx,
            ).0,
            start.1 == (potential_copy || starting(
                copyings(potential_copies@),
                *mem_access,
                window.skip(i as int),
                global_idx,
            ).1),
        decreases copy_window.len() - i,
    {
        let copy = &copy_window[i];
        let ghost rest = window.skip(i as int);
        assert(rest[0] == *copy);
        assert(rest.skip(1) =~= window.skip(i + 1));
        i += 1;
        if mem_access.cpu != copy.cpu {
            continue ;
        }
        let is_start = match copy.operation {
            'r' => mem_access.store == 0 && copy.kernel_address == mem_access.address,
            'w' => mem_access.store == 0 && copy.user_address == mem_access.address,
            _ => false,
        };
        if is_start {
            let m = find_started(potential_copies, copy.rec_id);
            let ghost before = copyings(potential_copies@);
            if m < potential_copies.len() {
                if potential_copies[m].current_to == potential_copies[m].to {
                    let pot_copy = &mut potential_copies[m];
                    pot_copy.associated_indices.push(global_idx);
                    potential_copy = true;
                    assert(copyings(potential_copies@) =~= before.update(
                        m as int,
                        Copying {
                            indices: before[m as int].indices.push(global_idx),
                            ..before[m as int]
                        },
                    ));
                }
            } else {
                let to = if copy.operation == 'w' {
                    copy.kernel_address
                } else {
                    copy.user_address
                };
                let mut indices: Vec<usize> = Vec::new();
                indices.push(global_idx);
                assert(indices@ =~= seq![global_idx]);
                let bytes = log_parser::access_size_bytes(mem_access.size);
                potential_copies.push(
                    MemCpy {
                        rec_id: copy.rec_id,
                        from: mem_access.address,
                        to,
                        cpu: copy.cpu as usize,
                        size: copy.size,
                        current_from: mem_access.address.wrapping_add(bytes),
                        current_to: to,
                        associated_indices: indices,
                        first_insn_count: mem_access.insn_count,
                        first_global_idx: global_idx,
                    },
                );
                assert(copyings(potential_copies@) =~= before.push(
                    new_copy(*mem_access, copy.announced(), global_idx),
                ));
                return true;
            }
        }
    }
    potential_copy
}

/// The smaller of two positions.
pub open spec fn smaller(a: usize, b: usize) -> usize {
    if a <= b {
        a
    } else {
        b
    }
}

/// The larger of two positions.
pub open spec fn larger(a: usize, b: usize) -> usize {
    if a >= b {
        a
    } else {
        b
    }
}

/// The position of the first access of any of some completed copies.
pub open spec fn first_start(events: Seq<RowcloneEvent>) -> usize
    decreases events.len(),
{
    if events.len() <= 1 {
        events[0].target_global_idx
    } else {
        smaller(first_start(events.drop_last()), events.last().target_global_idx)
    }
}

/// The position of the last access of any of some completed copies.
pub open spec fn last_end(events: Seq<RowcloneEvent>) -> usize
    decreases events.len(),
{
    if events.len() <= 1 {
        events[0].end_global_idx
    } else {
        larger(last_end(events.drop_last()), events.last().end_global_idx)
    }
}

/// The first and the last position that is written: all of a trace of `n` accesses, or, where it
/// is cropped and copies were completed, from the first start to the last end.
pub open spec fn bounds(events: Seq<RowcloneEvent>, n: usize, crop: bool) -> (usize, usize) {
    if crop && events.len() > 0 {
        (first_start(events), last_end(events))
    } else {
        (0, n)
    }
}

/// The first completed copy, from position `k` on, that starts at a position of the trace; their
/// number if there is none.
pub open spec fn event_at(events: Seq<RowcloneEvent>, idx: int, k: int) -> int
    decreases events.len() - k,
{
    if k >= events.len() {
        events.len() as int
    } else if events[k].target_global_idx == idx {
        k
    } else {
        event_at(events, idx, k + 1)
    }
}

/// The row copy that stands for a completed copy.
pub open spec fn row_copy(event: RowcloneEvent) -> RowcloneRecord {
    RowcloneRecord {
        cpu: event.cpu,
        insn_count: event.insn_count,
        from: event.from,
        to: event.to,
    }
}

/// What stands for the access at a position: the access, or, where it belongs to a completed copy,
/// the row copy that starts there, or nothing.
pub open spec fn replacement(
    history: Seq<LogRecord>,
    valid: Seq<bool>,
    events: Seq<RowcloneEvent>,
    i: int,
) -> Seq<MemoryAccess> {
    if !valid[i] {
        seq![MemoryAccess::Regular(memory_access::mem_record(history[i]))]
    } else if event_at(events, i, 0) < events.len() {
        seq![MemoryAccess::Rowclone(row_copy(events[event_at(events, i, 0)]))]
    } else {
        Seq::empty()
    }
}

/// What stands for the first `k` accesses of a trace, as far as they are within the bounds.
pub open spec fn replaced(
    history: Seq<LogRecord>,
    valid: Seq<bool>,
    events: Seq<RowcloneEvent>,
    within: (usize, usize),
    k: int,
) -> Seq<MemoryAccess>
    decreases k,
{
    if k <= 0 {
        Seq::empty()
    } else {
        let before = replaced(history, valid, events, within, k - 1);
        if within.0 <= k - 1 <= within.1 {
            before + replacement(history, valid, events, k - 1)
        } else {
            before
        }
    }
}

/// The first `k` accesses of a trace, as far as they are within the bounds.
pub open spec fn baseline(history: Seq<LogRecord>, within: (usize, usize), k: int) -> Seq<MemRecord>
    decreases k,
{
    if k <= 0 {
        Seq::empty()
    } else {
        let before = baseline(history, within, k - 1);
        if within.0 <= k - 1 <= within.1 {
            before.push(memory_access::mem_record(history[k - 1]))
        } else {
            before
        }
    }
}

/// The number of row copies in a processed trace.
pub open spec fn row_copies(accesses: Seq<MemoryAccess>) -> nat
    decreases accesses.len(),
{
    if accesses.len() == 0 {
        0
    } else {
        row_copies(accesses.drop_last()) + if accesses.last() is Rowclone {
            1nat
        } else {
            0nat
        }
    }
}

/// The processed traces, and how the copies fared.
pub struct Outcome {
    /// The trace with row copies in place of the accesses of completed copies.
    pub rowclone_output: Vec<MemoryAccess>,
    /// The same part of the trace as it was.
    pub baseline_output: Vec<MemRecord>,
    /// The first and the last position that was written.
    pub bounds: (usize, usize),
    /// The number of row copies written.
    pub validated: usize,
    /// The number of copies that started and were not completed.
    pub uncompleted: usize,
}

/// Whether an outcome is that of the progress at the end of a trace.
pub open spec fn outcome_of<R>(
    outcome: Outcome,
    p: Progress<R>,
    history: Seq<LogRecord>,
    crop: bool,
) -> bool {
    let n = history.len() as int;
    let within = bounds(p.events, n as usize, crop);
    &&& outcome.bounds == within
    &&& outcome.rowclone_output@ == replaced(history, p.valid, p.events, within, n)
    &&& outcome.baseline_output@ == baseline(history, within, n)
    &&& outcome.validated == row_copies(outcome.rowclone_output@)
    &&& outcome.uncompleted == p.active.len()
}

/// The first and the last position that is written of a trace of `n` accesses.
pub fn crop_bounds(events: &Vec<RowcloneEvent>, n: usize, crop: bool) -> (r: (usize, usize))
    ensures
        r == bounds(events@, n, crop),
{
    if !crop || events.len() == 0 {
        return (0, n);
    }
    let mut first = events[0].target_global_idx;
    let mut last = events[0].end_global_idx;
    let mut i: usize = 1;
    while i < events.len()
        invariant
            1 <= i <= events@.len(),
            first == first_start(events@.take(i as int)),
            last == last_end(events@.take(i as int)),
        decreases events.len() - i,
    {
        assert(events@.take(i + 1).drop_last() =~= events@.take(i as int));
        if events[i].target_global_idx < first {
            first = events[i].target_global_idx;
        }
        if events[i].end_global_idx > last {
            last = events[i].end_global_idx;
        }
        i += 1;
    }
    assert(events@.take(i as int) =~= events@);
    (first, last)
}

/// The row copy that stands for a completed copy.
pub fn rowclone_record(copy: &RowcloneEvent) -> (r: RowcloneRecord)
    ensures
        r == row_copy(*copy),
{
    RowcloneRecord { cpu: copy.cpu, insn_count: copy.insn_count, from: copy.from, to: copy.to }
}

fn find_event(events: &Vec<RowcloneEvent>, idx: usize) -> (r: usize)
    ensures
        r == event_at(events@, idx as int, 0),
        r <= events@.len(),
{
    let mut i: usize = 0;
    while i < events.len()
        invariant
            i <= events@.len(),
            event_at(events@, idx as int, 0) == event_at(events@, idx as int, i as int),
        decreases events.len() - i,
    {
        if events[i].target_global_idx == idx {
            return i;
        }
        i += 1;
    }
    i
}

/// Finds the announced copies in a trace, and writes the trace with them and without them.
pub fn match_copy_to_mem_accesses(
    baseline_history: &Vec<LogRecord>,
    copy_logs: &mut VecDeque<KernelLine<KernelRecord>>,
    copy_window: &mut Vec<KernelRecord>,
    crop_bounds: bool,
) -> (r: Outcome)
    ensures
        ({
            let p = progress(
                beginning(
                    baseline_history@.len(),
                    old(copy_window)@,
                    old(copy_logs)@,
                ),
                baseline_history@,
                baseline_history@.len() as int,
            );
            &&& outcome_of(r, p, baseline_history@, crop_bounds)
            &&& final(copy_window)@ == p.window
            &&& final(copy_logs)@ == p.log
        }),
{
    let mut active_copies: Vec<MemCpy> = Vec::new();
    let mut valid_indices: Vec<bool> = Vec::new();
    let mut rowclone_events: Vec<RowcloneEvent> = Vec::new();
    let n = baseline_history.len();
    while valid_indices.len() < n
        invariant
            valid_indices@.len() <= n,
            forall|i: int| 0 <= i < valid_indices@.len() ==> !#[trigger] valid_indices@[i],
        decreases n - valid_indices@.len(),
    {
        valid_indices.push(false);
    }
    let ghost start = beginning(
        n as nat,
        copy_window@,
        copy_logs@,
    );
    let mut idx: usize = 0;
    proof {
        assert(copyings(active_copies@) =~= start.active);
        assert(valid_indices@ =~= start.valid);
    }
    while idx < n
        invariant
            idx <= n == baseline_history@.len(),
            progress_of(
                active_copies@,
                valid_indices@,
                rowclone_events@,
                copy_window@,
                copy_logs@,
            ) == progress(start, baseline_history@, idx as int),
            valid_indices@.len() == n,
            indices_below(copyings(active_copies@), n as nat),
        decreases n - idx,
    {
        let mem_access = &baseline_history[idx];
        let ghost before = progress(start, baseline_history@, idx as int);
        if !track_active_copies(
            mem_access,
            &mut active_copies,
            idx,
            &mut valid_indices,
            &mut rowclone_events,
            copy_window,
            copy_logs,
        ) {
            check_potential_copy_start(mem_access, copy_window, &mut active_copies, idx);
        }
        proof {
            let after = progress(start, baseline_history@, idx + 1);
            assert(after == after_access(before, *mem_access, idx));
            assert(progress_of(
                active_copies@,
                valid_indices@,
                rowclone_events@,
                copy_window@,
                copy_logs@,
            ) == after);
            lemma_indices_below(before, *mem_access, idx, n as nat);
        }
        idx += 1;
    }
    let ghost p = progress(start, baseline_history@, n as int);
    let within = self::crop_bounds(&rowclone_events, n, crop_bounds);
    let mut rowclone_output: Vec<MemoryAccess> = Vec::new();
    let mut baseline_output: Vec<MemRecord> = Vec::new();
    let mut final_rowclones: usize = 0;
    let mut i: usize = 0;
    while i < n
        invariant
            i <= n == baseline_history@.len(),
            valid_indices@.len() == n,
            rowclone_output@ == replaced(
                baseline_history@,
                valid_indices@,
                rowclone_events@,
                within,
                i as int,
            ),
            baseline_output@ == baseline(baseline_history@, within, i as int),
            final_rowclones == row_copies(rowclone_output@),
            final_rowclones <= i,
        decreases n - i,
    {
        let ghost written = rowclone_output@;
        let ghost r = replacement(
            baseline_history@,
            valid_indices@,
            rowclone_events@,
            i as int,
        );
        if within.0 <= i && i <= within.1 {
            let mem_access = &baseline_history[i];
            baseline_output.push(MemRecord::of(mem_access));
            if valid_indices[i] {
                let e = find_event(&rowclone_events, i);
                if e < rowclone_events.len() {
                    rowclone_output.push(
                        MemoryAccess::Rowclone(rowclone_record(&rowclone_events[e])),
                    );
                    final_rowclones += 1;
                    assert(rowclone_output@.drop_last() =~= written);
                }
            } else {
                rowclone_output.push(MemoryAccess::Regular(MemRecord::of(mem_access)));
                assert(rowclone_output@.drop_last() =~= written);
            }
            assert(rowclone_output@ =~= written + r);
        }
        i += 1;
    }
    assert(copyings(active_copies@).len() == active_copies@.len());
    Outcome {
        rowclone_output,
        baseline_output,
        bounds: within,
        validated: final_rowclones,
        uncompleted: active_copies.len(),
    }
}

/// Reads a line of the kernel log; `next_id` gives identities to the announcements.
pub fn parse_kernel_line(pattern: &Pattern<5>, line: &str, next_id: &mut u64) -> (r: Option<
    KernelRecord,
>)
    ensures
        ({
            let (copy, id) = kernel_log::line_copy(pattern.source(), line@, *old(next_id));
            &&& *final(next_id) == id
            &&& r == match copy {
                Some(copy) => Some(kernel_record(copy)),
                None => None,
            }
        }),
{
    match pattern.groups(line) {
        None => None,
        Some(groups) => match kernel_log::parse_groups(&groups, next_id) {
            None => None,
            Some(copy) => Some(
                KernelRecord {
                    rec_id: copy.rec_id,
                    cpu: copy.cpu,
                    size: PAGE_SIZE,
                    operation: copy.operation,
                    kernel_address: copy.kernel_address,
                    user_address: copy.user_address,
                    stale: 0,
                },
            ),
        },
    }
}

/// What a line is read as, with an identity for it.
pub open spec fn line_read(source: Seq<char>, line: Option<Seq<char>>, id: u64) -> KernelLine<
    KernelRecord,
> {
    match line {
        None => KernelLine::Unreadable,
        Some(chars) => match kernel_log::line_copy(source, chars, id).0 {
            Some(copy) => KernelLine::Record(kernel_record(copy)),
            None => KernelLine::NotParsed,
        },
    }
}

/// What the lines of a log are read as.
pub open spec fn log_read(
    source: Seq<char>,
    lines: Seq<Option<Seq<char>>>,
    first_id: u64,
) -> Seq<KernelLine<KernelRecord>> {
    Seq::new(
        lines.len(),
        |i: int| line_read(source, lines[i], kernel_log::id_after(source, lines, first_id, i)),
    )
}

/// Reads the lines of the kernel log, of which one that could not be read is none. The identities
/// for the next copy, before each line and behind the last, come with them.
pub fn read_kernel_log(pattern: &Pattern<5>, lines: &Vec<Option<String>>, first_id: u64) -> (r: (
    VecDeque<KernelLine<KernelRecord>>,
    Vec<u64>,
))
    ensures
        r.0@ == log_read(pattern.source(), kernel_log::line_texts(lines@), first_id),
        copy_window::announced_log(r.0@) == kernel_log::log_announces(
            pattern.source(),
            kernel_log::line_texts(lines@),
            first_id,
        ).0,
        r.1@ == kernel_log::ids(pattern.source(), kernel_log::line_texts(lines@), first_id),
{
    let mut log: VecDeque<KernelLine<KernelRecord>> = VecDeque::new();
    let mut ids: Vec<u64> = Vec::new();
    let mut next_id: u64 = first_id;
    ids.push(next_id);
    let ghost texts = kernel_log::line_texts(lines@);
    let ghost all_ids = kernel_log::ids(pattern.source(), texts, first_id);
    let mut i: usize = 0;
    proof {
        assert(copy_window::announced_log(log@) =~= Seq::<KernelLine<Announcement>>::empty());
        assert(texts.take(0) =~= Seq::<Option<Seq<char>>>::empty());
        assert(ids@ =~= all_ids.take(1));
    }
    while i < lines.len()
        invariant
            i <= lines@.len(),
            texts == kernel_log::line_texts(lines@),
            all_ids == kernel_log::ids(pattern.source(), texts, first_id),
            ids@ == all_ids.take(i + 1),
            log@ == log_read(pattern.source(), texts, first_id).take(i as int),
            (copy_window::announced_log(log@), next_id) == kernel_log::log_announces(
                pattern.source(),
                texts.take(i as int),
                first_id,
            ),
        decreases lines.len() - i,
    {
        let ghost before = log@;
        assert(texts.take(i + 1).drop_last() =~= texts.take(i as int));
        assert(next_id == kernel_log::id_after(pattern.source(), texts, first_id, i as int));
        match &lines[i] {
            None => {
                log.push_back(KernelLine::Unreadable);
            },
            Some(line) => {
                match parse_kernel_line(pattern, line.as_str(), &mut next_id) {
                    Some(record) => {
                        log.push_back(KernelLine::Record(record));
                    },
                    None => {
                        log.push_back(KernelLine::NotParsed);
                    },
                }
            },
        }
        ids.push(next_id);
        assert(copy_window::announced_log(log@) =~= copy_window::announced_log(before).push(
            copy_window::announced_line(log@.last()),
        ));
        assert(ids@ =~= all_ids.take(i + 2));
        assert(log@ =~= log_read(pattern.source(), texts, first_id).take(i + 1));
        i += 1;
    }
    assert(texts.take(i as int) =~= texts);
    assert(all_ids.take(i + 1) =~= all_ids);
    assert(log@ =~= log_read(pattern.source(), texts, first_id));
    (log, ids)
}

/// Processes a trace with the lines of a kernel log. The outcome comes with the number of
/// announcements that are left in the window; there is none if a line that could not be read
/// stands within the first window. Identities are given from `next_id` on, which the lines that
/// were needed use up.
pub fn add_rowclone_info(
    pattern: &Pattern<5>,
    baseline_history: &Vec<LogRecord>,
    kernel_lines: &Vec<Option<String>>,
    crop_bounds: bool,
    next_id: &mut u64,
) -> (r: Option<(Outcome, usize)>)
    ensures
        ({
            let source = pattern.source();
            let texts = kernel_log::line_texts(kernel_lines@);
            let log = kernel_log::log_announces(source, texts, *old(next_id)).0;
            match copy_window::first_filled(Seq::<Announcement>::empty(), log) {
                None => {
                    &&& r is None
                    &&& *final(next_id) == kernel_log::id_after(
                        source,
                        texts,
                        *old(next_id),
                        log.len() - copy_window::first_rest(0, log).len(),
                    )
                },
                Some((window, rest)) => {
                    let p = progress(
                        beginning(baseline_history@.len(), window, rest),
                        baseline_history@,
                        baseline_history@.len() as int,
                    );
                    &&& r matches Some((outcome, unmatched))
                    &&& outcome_of(outcome, p, baseline_history@, crop_bounds)
                    &&& unmatched == p.window.len()
                    &&& *final(next_id) == kernel_log::id_after(
                        source,
                        texts,
                        *old(next_id),
                        log.len() - p.log.len(),
                    )
                },
            }
        }),
{
    let (mut logs, ids) = read_kernel_log(pattern, kernel_lines, *next_id);
    let ghost log = logs@;
    proof {
        copy_window::lemma_announced_first(Seq::<KernelRecord>::empty(), log);
        assert(copy_window::announced_window(Seq::<KernelRecord>::empty()) =~= Seq::<
            Announcement,
        >::empty());
        copy_window::lemma_first_rest_shortens(0, log);
    }
    match copy_window::first_window(&mut logs) {
        None => {
            *next_id = ids[kernel_lines.len() - logs.len()];
            None
        },
        Some(window) => {
            let mut copy_window = window;
            let ghost start = beginning(baseline_history@.len(), copy_window@, logs@);
            let outcome = match_copy_to_mem_accesses(
                baseline_history,
                &mut logs,
                &mut copy_window,
                crop_bounds,
            );
            proof {
                lemma_announced_progress(start, baseline_history@, baseline_history@.len() as int);
                lemma_log_shortens(start, baseline_history@, baseline_history@.len() as int);
            }
            *next_id = ids[kernel_lines.len() - logs.len()];
            Some((outcome, copy_window.len()))
        },
    }
}

/// The progress with what its records announce in their place.
pub open spec fn announced_progress<R: WindowRecord>(p: Progress<R>) -> Progress<Announcement> {
    Progress {
        active: p.active,
        valid: p.valid,
        events: p.events,
        window: copy_window::announced_window(p.window),
        log: copy_window::announced_log(p.log),
    }
}

proof fn lemma_announced_starting<R: WindowRecord>(
    copies: Seq<Copying>,
    access: LogRecord,
    window: Seq<R>,
    idx: usize,
)
    ensures
        starting(copies, access, copy_window::announced_window(window), idx) == starting(
            copies,
            access,
            window,
            idx,
        ),
    decreases window.len(),
{
    if window.len() > 0 {
        let rest = window.skip(1);
        assert(copy_window::announced_window(window).skip(1) =~= copy_window::announced_window(
            rest,
        ));
        let a = window[0].announced();
        let m = started(copies, a.rec_id, 0);
        lemma_announced_starting(copies, access, rest, idx);
        let again = Copying { indices: copies[m].indices.push(idx), ..copies[m] };
        lemma_announced_starting(copies.update(m, again), access, rest, idx);
    }
}

/// Processing a trace and reading what the records announce can be exchanged.
pub proof fn lemma_announced_progress<R: WindowRecord>(
    p: Progress<R>,
    history: Seq<LogRecord>,
    k: int,
)
    ensures
        progress(announced_progress(p), history, k) == announced_progress(progress(p, history, k)),
    decreases k,
{
    if k > 0 {
        lemma_announced_progress(p, history, k - 1);
        let q = progress(p, history, k - 1);
        let access = history[k - 1];
        let idx = (k - 1) as usize;
        let m = continued(q.active, access, 0);
        if m < q.active.len() {
            copy_window::lemma_announced_completion(q.window, q.log, q.active[m].rec_id);
        } else {
            lemma_announced_starting(q.active, access, q.window, idx);
        }
    }
}

proof fn lemma_log_shortens<R: WindowRecord>(p: Progress<R>, history: Seq<LogRecord>, k: int)
    ensures
        progress(p, history, k).log.len() <= p.log.len(),
    decreases k,
{
    if k > 0 {
        lemma_log_shortens(p, history, k - 1);
        let q = progress(p, history, k - 1);
        let access = history[k - 1];
        let m = continued(q.active, access, 0);
        if m < q.active.len() {
            let rec_id = q.active[m].rec_id;
            let left = copy_window::without_record(q.window, rec_id);
            copy_window::lemma_refill_shortens(
                copy_window::fresh(copy_window::aged_window(left, rec_id)),
                q.log,
            );
        }
    }
}

pub(crate) proof fn lemma_continued(copies: Seq<Copying>, access: LogRecord, k: int)
    requires
        0 <= k <= copies.len(),
    ensures
        k <= continued(copies, access, k) <= copies.len(),
        continued(copies, access, k) < copies.len() ==> continues(
            access,
            copies[continued(copies, access, k)],
        ),
        forall|i: int|
            k <= i < continued(copies, access, k) ==> !continues(access, #[trigger] copies[i]),
    decreases copies.len() - k,
{
    if k < copies.len() && !continues(access, copies[k]) {
        lemma_continued(copies, access, k + 1);
    }
}

pub(crate) proof fn lemma_started(copies: Seq<Copying>, rec_id: u64, k: int)
    requires
        0 <= k <= copies.len(),
    ensures
        k <= started(copies, rec_id, k) <= copies.len(),
        started(copies, rec_id, k) < copies.len() ==> copies[started(copies, rec_id, k)].rec_id
            == rec_id,
        forall|i: int|
            k <= i < started(copies, rec_id, k) ==> (#[trigger] copies[i]).rec_id != rec_id,
    decreases copies.len() - k,
{
    if k < copies.len() && copies[k].rec_id != rec_id {
        lemma_started(copies, rec_id, k + 1);
    }
}

proof fn lemma_starting_below<R: WindowRecord>(
    copies: Seq<Copying>,
    access: LogRecord,
    window: Seq<R>,
    idx: usize,
    n: nat,
)
    requires
        indices_below(copies, n),
        idx < n,
    ensures
        indices_below(starting(copies, access, window, idx).0, n),
    decreases window.len(),
{
    if window.len() > 0 {
        let m = started(copies, window[0].announced().rec_id, 0);
        lemma_started(copies, window[0].announced().rec_id, 0);
        if is_start(access, window[0].announced()) && m < copies.len() && copies[m].current_to == copies[m].to {
            let again = Copying { indices: copies[m].indices.push(idx), ..copies[m] };
            assert forall|c: int, i: int|
                0 <= c < copies.len() && 0 <= i < copies.update(
                    m,
                    again,
                )[c].indices.len() implies #[trigger] copies.update(m, again)[c].indices[i] < n by {
                if c != m || i < copies[m].indices.len() {
                    assert(copies[c].indices[i] < n);
                }
            }
            lemma_starting_below(copies.update(m, again), access, window.skip(1), idx, n);
        } else {
            lemma_starting_below(copies, access, window.skip(1), idx, n);
            if is_start(access, window[0].announced()) && m >= copies.len() {
                let more = copies.push(new_copy(access, window[0].announced(), idx));
                assert forall|c: int, i: int|
                    0 <= c < more.len() && 0 <= i
                        < more[c].indices.len() implies #[trigger] more[c].indices[i] < n by {
                    if c < copies.len() {
                        assert(copies[c].indices[i] < n);
                    }
                }
            }
        }
    }
}

proof fn lemma_indices_below<R: WindowRecord>(p: Progress<R>, access: LogRecord, idx: usize, n: nat)
    requires
        indices_below(p.active, n),
        idx < n,
    ensures
        indices_below(after_access(p, access, idx).active, n),
{
    lemma_starting_below(p.active, access, p.window, idx, n);
    lemma_continued(p.active, access, 0);
    let m = continued(p.active, access, 0);
    if m < p.active.len() {
        let copy = advanced(p.active[m], access, idx);
        let q = after_access(p, access, idx).active;
        assert forall|c: int, i: int|
            0 <= c < q.len() && 0 <= i < q[c].indices.len() implies #[trigger] q[c].indices[i]
            < n by {
            if complete(copy) {
                if c < m {
                    assert(p.active[c].indices[i] < n);
                } else {
                    assert(p.active[c + 1].indices[i] < n);
                }
            } else if c != m || i < p.active[m].indices.len() {
                assert(p.active[c].indices[i] < n);
            }
        }
    }
}

} // verus!
