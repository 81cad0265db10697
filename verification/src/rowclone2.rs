//! Finds announced page copies in a memory trace, and reports the accesses that each is made of.
use crate::copy_window;
use crate::copy_window::{Announcement, KernelLine, WindowRecord};
use crate::kernel_log;
use crate::kernel_log::PAGE_SIZE;
use crate::log_parser;
use crate::log_parser::LogRecord;
use crate::pattern;
use crate::pattern::Pattern;
use crate::report;
use crate::text;
use std::collections::VecDeque;
use vstd::prelude::*;
use vstd::string::*;

verus! {

/// A page copy that the kernel announced.
pub struct KernelRecord {
    pub rec_id: u64,
    pub command: String,
    pub cpu: u8,
    pub size: u64,
    pub operation: char,
    pub kernel_address: u64,
    pub user_address: u64,
    pub stale: usize,
}

/// A page copy of which the start was seen in the memory trace.
#[derive(Clone)]
pub struct MemCpy {
    pub rec_id: u64,
    pub cpu: usize,
    pub insn_count: u64,
    pub from: u64,
    pub to: u64,
    pub size: u64,
    pub current_from: u64,
    pub current_to: u64,
    pub associated_indices: Vec<usize>,
    pub associated_records: Vec<LogRecord>,
    pub first_insn_count: u64,
    pub first_global_idx: usize,
}

/// A page copy that was seen to its end, with the positions of its first and last access and all
/// its accesses.
pub struct RowcloneEvent {
    pub rec_id: u64,
    pub target_global_idx: usize,
    pub end_global_idx: usize,
    pub cpu: usize,
    pub insn_count: u64,
    pub from: u64,
    pub to: u64,
    pub removed_accesses_count: usize,
    pub records: Vec<LogRecord>,
}

/// What is recorded of a completed copy.
pub struct Completed {
    pub rec_id: u64,
    pub target_global_idx: usize,
    pub end_global_idx: usize,
    pub cpu: usize,
    pub insn_count: u64,
    pub from: u64,
    pub to: u64,
    pub removed_accesses_count: nat,
    pub records: Seq<LogRecord>,
}

impl View for RowcloneEvent {
    type V = Completed;

    open spec fn view(&self) -> Completed {
        Completed {
            rec_id: self.rec_id,
            target_global_idx: self.target_global_idx,
            end_global_idx: self.end_global_idx,
            cpu: self.cpu,
            insn_count: self.insn_count,
            from: self.from,
            to: self.to,
            removed_accesses_count: self.removed_accesses_count as nat,
            records: self.records@,
        }
    }
}

/// The completed copies.
pub open spec fn completions(events: Seq<RowcloneEvent>) -> Seq<Completed> {
    Seq::new(events.len(), |i: int| events[i]@)
}

/// A started copy: what is left to read and to write, and its accesses with their positions.
pub struct Copying {
    pub rec_id: u64,
    pub cpu: usize,
    pub insn_count: u64,
    pub from: u64,
    pub to: u64,
    pub size: u64,
    pub current_from: u64,
    pub current_to: u64,
    pub indices: Seq<usize>,
    pub records: Seq<LogRecord>,
    pub first_insn_count: u64,
    pub first_global_idx: usize,
}

impl View for MemCpy {
    type V = Copying;

    open spec fn view(&self) -> Copying {
        Copying {
            rec_id: self.rec_id,
            cpu: self.cpu,
            insn_count: self.insn_count,
            from: self.from,
            to: self.to,
            size: self.size,
            current_from: self.current_from,
            current_to: self.current_to,
            indices: self.associated_indices@,
            records: self.associated_records@,
            first_insn_count: self.first_insn_count,
            first_global_idx: self.first_global_idx,
        }
    }
}

/// The started copies.
pub open spec fn copyings(copies: Seq<MemCpy>) -> Seq<Copying> {
    Seq::new(copies.len(), |i: int| copies[i]@)
}

impl KernelRecord {
    /// The text of `debug_text`.
    pub open spec fn debug_view(self) -> Seq<char> {
        "KernelRecord {command: "@ + self.command@ + ", cpu: "@ + text::decimal_digits(
            self.cpu as nat,
        ) + ", size: "@
            + text::decimal_digits(self.size as nat) + ", op: "@ + seq![self.operation]
            + ", kernel_address: "@ + text::address_text(self.kernel_address) + ", user_address: "@
            + text::address_text(self.user_address) + " }"@
    }

    /// The record in one line, for messages.
    pub fn debug_text(&self) -> (r: String)
        ensures
            r@ == self.debug_view(),
    {
        let mut r = String::new();
        r.append("KernelRecord {command: ");
        r.append(self.command.as_str());
        r.append(", cpu: ");
        r.append(text::decimal(self.cpu as u64).as_str());
        r.append(", size: ");
        r.append(text::decimal(self.size).as_str());
        r.append(", op: ");
        r.push(self.operation);
        r.append(", kernel_address: ");
        r.append(text::address(self.kernel_address).as_str());
        r.append(", user_address: ");
        r.append(text::address(self.user_address).as_str());
        r.append(" }");
        assert(r@ =~= self.debug_view());
        r
    }
}

impl WindowRecord for KernelRecord {
    open spec fn id(&self) -> u64 {
        self.rec_id
    }

    open spec fn age(&self) -> usize {
        self.stale
    }

    open spec fn with_age(&self, age: usize) -> Self {
        KernelRecord { stale: age, ..*self }
    }

    fn rec_id(&self) -> u64 {
        self.rec_id
    }

    fn stale(&self) -> usize {
        self.stale
    }

    fn set_stale(&mut self, stale: usize) {
        self.stale = stale;
    }

    open spec fn announced(&self) -> Announcement {
        Announcement {
            rec_id: self.rec_id,
            cpu: self.cpu,
            size: self.size,
            source: kernel_log::copy_source(
                self.operation,
                self.kernel_address,
                self.user_address,
            ),
            target: kernel_log::copy_target(
                self.operation,
                self.kernel_address,
                self.user_address,
            ),
            stale: self.stale,
        }
    }

    proof fn announced_agrees(&self, age: usize) {
    }
}

/// Whether a record is that of a parsed copy of a command.
pub open spec fn is_record_of(
    record: KernelRecord,
    command: Seq<char>,
    copy: kernel_log::ParsedCopy,
) -> bool {
    &&& record.rec_id == copy.rec_id
    &&& record.command@ == command
    &&& record.cpu == copy.cpu
    &&& record.size == PAGE_SIZE
    &&& record.operation == copy.operation
    &&& record.kernel_address == copy.kernel_address
    &&& record.user_address == copy.user_address
    &&& record.stale == 0
}

/// Whether an access is the one that a copy does next: the load at the place that it has read up
/// to, or the store at the place that it has written up to.
pub open spec fn continues(access: LogRecord, copy: Copying) -> bool {
    &&& access.cpu == copy.cpu
    &&& (copy.current_from == access.address && access.store == 0) || (copy.current_to
        == access.address && access.store == 1)
}

/// Whether a copy has written all its bytes.
pub open spec fn complete(copy: Copying) -> bool {
    copy.current_to >= copy.to.wrapping_add(copy.size)
}

/// A copy after one more of its accesses, at a position of the trace. A copy that an access of
/// another processor takes over counts as begun with that access.
pub open spec fn advanced(copy: Copying, access: LogRecord, idx: usize) -> Copying {
    let bytes = log_parser::access_bytes(access.size);
    Copying {
        cpu: access.cpu as usize,
        insn_count: access.insn_count,
        current_from: if access.store == 1 {
            copy.current_from
        } else {
            copy.current_from.wrapping_add(bytes)
        },
        current_to: if access.store == 1 {
            copy.current_to.wrapping_add(bytes)
        } else {
            copy.current_to
        },
        indices: copy.indices.push(idx),
        records: copy.records.push(access),
        first_insn_count: if copy.cpu != access.cpu {
            access.insn_count
        } else {
            copy.first_insn_count
        },
        ..copy
    }
}

/// The first started copy, from position `k` on, that an access continues; their number if there
/// is none.
pub open spec fn continued(copies: Seq<Copying>, access: LogRecord, k: int) -> int
    decreases copies.len() - k,
{
    if k >= copies.len() {
        copies.len() as int
    } else if continues(access, copies[k]) {
        k
    } else {
        continued(copies, access, k + 1)
    }
}

/// The first started copy, from position `k` on, of an announcement; their number if there is
/// none.
pub open spec fn started(copies: Seq<Copying>, rec_id: u64, k: int) -> int
    decreases copies.len() - k,
{
    if k >= copies.len() {
        copies.len() as int
    } else if copies[k].rec_id == rec_id {
        k
    } else {
        started(copies, rec_id, k + 1)
    }
}

/// Where the processing stands: the started copies, the completed copies, and the announcements in
/// the window and behind it.
pub struct Progress<R> {
    pub active: Seq<Copying>,
    pub events: Seq<Completed>,
    pub window: Seq<R>,
    pub log: Seq<KernelLine<R>>,
}

/// What is recorded of a copy that was completed at a position.
pub open spec fn completed(copy: Copying, idx: usize) -> Completed {
    Completed {
        rec_id: copy.rec_id,
        target_global_idx: copy.first_global_idx,
        end_global_idx: idx,
        cpu: copy.cpu,
        insn_count: copy.first_insn_count,
        from: copy.from,
        to: copy.to,
        removed_accesses_count: copy.indices.len(),
        records: copy.records,
    }
}

/// The progress after an access that continues the first of its copies, and whether there is one.
pub open spec fn after_continuing<R: WindowRecord>(
    p: Progress<R>,
    access: LogRecord,
    idx: usize,
) -> (Progress<R>, bool) {
    let m = continued(p.active, access, 0);
    if m >= p.active.len() {
        (p, false)
    } else {
        let copy = advanced(p.active[m], access, idx);
        if complete(copy) {
            let (window, log) = copy_window::after_completion(p.window, p.log, copy.rec_id);
            (
                Progress {
                    active: p.active.remove(m),
                    events: p.events.push(completed(copy, idx)),
                    window,
                    log,
                },
                true,
            )
        } else {
            (Progress { active: p.active.update(m, copy), ..p }, true)
        }
    }
}

/// Whether an access is the first load of an announced copy.
pub open spec fn is_start(access: LogRecord, a: Announcement) -> bool {
    access.cpu == a.cpu && access.store == 0 && a.source == Some(access.address)
}

/// A copy that an access starts.
pub open spec fn new_copy(access: LogRecord, a: Announcement, idx: usize) -> Copying {
    Copying {
        rec_id: a.rec_id,
        cpu: a.cpu as usize,
        insn_count: access.insn_count,
        from: access.address,
        to: a.target,
        size: a.size,
        current_from: log_parser::access_end(access),
        current_to: a.target,
        indices: seq![idx],
        records: seq![access],
        first_insn_count: access.insn_count,
        first_global_idx: idx,
    }
}

/// A started copy after its first load is seen once more.
pub open spec fn seen_again(copy: Copying, access: LogRecord, idx: usize) -> Copying {
    Copying {
        insn_count: access.insn_count,
        indices: copy.indices.push(idx),
        records: copy.records.push(access),
        ..copy
    }
}

/// The started copies after an access that may start copies of the window, and whether it belongs
/// to one of them. It starts each of its copies that has not started, and is one more access of
/// each that has started and written nothing yet.
pub open spec fn starting<R: WindowRecord>(
    copies: Seq<Copying>,
    access: LogRecord,
    window: Seq<R>,
    idx: usize,
) -> (Seq<Copying>, bool)
    decreases window.len(),
{
    if window.len() == 0 {
        (copies, false)
    } else if !is_start(access, window[0].announced()) {
        starting(copies, access, window.skip(1), idx)
    } else {
        let m = started(copies, window[0].announced().rec_id, 0);
        if m >= copies.len() {
            let more = copies.push(new_copy(access, window[0].announced(), idx));
            (starting(more, access, window.skip(1), idx).0, true)
        } else if copies[m].current_to == copies[m].to {
            let again = copies.update(m, seen_again(copies[m], access, idx));
            (starting(again, access, window.skip(1), idx).0, true)
        } else {
            starting(copies, access, window.skip(1), idx)
        }
    }
}

/// The progress after one access.
pub open spec fn after_access<R: WindowRecord>(
    p: Progress<R>,
    access: LogRecord,
    idx: usize,
) -> Progress<R> {
    let (q, belongs) = after_continuing(p, access, idx);
    if belongs {
        q
    } else {
        Progress { active: starting(p.active, access, p.window, idx).0, ..p }
    }
}

/// The progress after the first `k` accesses of a trace.
pub open spec fn progress<R: WindowRecord>(
    p: Progress<R>,
    history: Seq<LogRecord>,
    k: int,
) -> Progress<R>
    decreases k,
{
    if k <= 0 {
        p
    } else {
        after_access(progress(p, history, k - 1), history[k - 1], (k - 1) as usize)
    }
}

/// The progress before a trace.
pub open spec fn beginning<R>(
    window: Seq<R>,
    log: Seq<KernelLine<R>>,
) -> Progress<R> {
    Progress {
        active: Seq::empty(),
        events: Seq::empty(),
        window,
        log,
    }
}

/// The progress that the variables of the processing stand for.
pub open spec fn progress_of(
    active: Seq<MemCpy>,
    events: Seq<RowcloneEvent>,
    window: Seq<KernelRecord>,
    log: Seq<KernelLine<KernelRecord>>,
) -> Progress<KernelRecord> {
    Progress {
        active: copyings(active),
        events: completions(events),
        window,
        log,
    }
}

/// Whether an access is the one that a copy does next.
pub fn mem_copy_match(mem_access: &LogRecord, copy: &MemCpy) -> (r: bool)
    ensures
        r == continues(*mem_access, copy@),
{
    if mem_access.cpu as usize != copy.cpu {
        return false;
    }
    (copy.current_from == mem_access.address && mem_access.store == 0) || (copy.current_to
        == mem_access.address && mem_access.store == 1)
}

/// Whether a copy has written all its bytes.
pub fn copy_done(copy: &MemCpy) -> (r: bool)
    ensures
        r == complete(copy@),
{
    copy.current_to >= copy.to.wrapping_add(copy.size)
}

/// Advances a copy by an access, and tells whether that completes it.
pub fn update_copy(
    copies: &mut Vec<MemCpy>,
    copy_idx: usize,
    mem_access: &LogRecord,
    global_idx: usize,
) -> (r: bool)
    requires
        copy_idx < old(copies)@.len(),
    ensures
        copyings(final(copies)@) == copyings(old(copies)@).update(
            copy_idx as int,
            advanced(old(copies)@[copy_idx as int]@, *mem_access, global_idx),
        ),
        r == complete(advanced(old(copies)@[copy_idx as int]@, *mem_access, global_idx)),
{
    let access_size_bytes = log_parser::access_size_bytes(mem_access.size);
    let current_cpu = mem_access.cpu as usize;
    let copy = &mut copies[copy_idx];
    if mem_access.store == 1 {
        copy.current_to = copy.current_to.wrapping_add(access_size_bytes);
    } else {
        copy.current_from = copy.current_from.wrapping_add(access_size_bytes);
    }
    if copy.cpu != current_cpu {
        copy.first_insn_count = mem_access.insn_count;
    }
    copy.insn_count = mem_access.insn_count;
    copy.cpu = current_cpu;
    copy.associated_indices.push(global_idx);
    copy.associated_records.push(*mem_access);
    let done = copy_done(&copies[copy_idx]);
    assert(copyings(copies@) =~= copyings(old(copies)@).update(
        copy_idx as int,
        advanced(old(copies)@[copy_idx as int]@, *mem_access, global_idx),
    ));
    done
}

/// Lets an access continue the first of its copies; a copy that is complete is recorded.
pub fn track_active_copies(
    mem_access: &LogRecord,
    active_copies: &mut Vec<MemCpy>,
    global_idx: usize,
    rowclone_events: &mut Vec<RowcloneEvent>,
    copy_window: &mut Vec<KernelRecord>,
    copy_logs: &mut VecDeque<KernelLine<KernelRecord>>,
) -> (r: bool)
    ensures
        (
            progress_of(
                final(active_copies)@,
                final(rowclone_events)@,
                final(copy_window)@,
                final(copy_logs)@,
            ),
            r,
        ) == after_continuing(
            progress_of(
                old(active_copies)@,
                old(rowclone_events)@,
                old(copy_window)@,
                old(copy_logs)@,
            ),
            *mem_access,
            global_idx,
        ),
{
    let ghost start = progress_of(
        active_copies@,
        rowclone_events@,
        copy_window@,
        copy_logs@,
    );
    let mut idx: usize = 0;
    while idx < active_copies.len()
        invariant
            idx <= active_copies@.len(),
            *active_copies == *old(active_copies),
            *rowclone_events == *old(rowclone_events),
            *copy_window == *old(copy_window),
            *copy_logs == *old(copy_logs),
            start == progress_of(
                active_copies@,
                rowclone_events@,
                copy_window@,
                copy_logs@,
            ),
            continued(start.active, *mem_access, 0) == continued(
                start.active,
                *mem_access,
                idx as int,
            ),
        decreases active_copies.len() - idx,
    {
        if mem_copy_match(mem_access, &active_copies[idx]) {
            let ghost copy = advanced(start.active[idx as int], *mem_access, global_idx);
            let done = update_copy(active_copies, idx, mem_access, global_idx);
            assert(copyings(active_copies@).len() == active_copies@.len());
            assert(copyings(active_copies@)[idx as int] == copy);
            if done {
                let rec_id = active_copies[idx].rec_id;
                copy_window::remove_record(rec_id, copy_window);
                copy_window::remove_stale_copies(rec_id, copy_window, copy_logs);
                let ghost full = active_copies@;
                let ghost events = rowclone_events@;
                let finished = active_copies.remove(idx);
                rowclone_events.push(
                    RowcloneEvent {
                        rec_id,
                        target_global_idx: finished.first_global_idx,
                        end_global_idx: global_idx,
                        cpu: finished.cpu,
                        insn_count: finished.first_insn_count,
                        from: finished.from,
                        to: finished.to,
                        removed_accesses_count: finished.associated_indices.len(),
                        records: finished.associated_records,
                    },
                );
                assert(completions(rowclone_events@) =~= completions(events).push(
                    completed(copy, global_idx),
                ));
                assert(copyings(active_copies@) =~= start.active.remove(idx as int)) by {
                    assert forall|i: int| 0 <= i < active_copies@.len() implies copyings(
                        active_copies@,
                    )[i] == start.active.remove(idx as int)[i] by {
                        if i < idx {
                            assert(copyings(full)[i] == start.active[i]);
                        } else {
                            assert(copyings(full)[i + 1] == start.active[i + 1]);
                        }
                    }
                }
            }
            return true;
        }
        idx += 1;
    }
    false
}

/// The position of the started copy of an announcement; their number if there is none.
fn find_started(copies: &Vec<MemCpy>, rec_id: u64) -> (r: usize)
    ensures
        r == started(copyings(copies@), rec_id, 0),
        r <= copies@.len(),
        r < copies@.len() ==> copies@[r as int].rec_id == rec_id,
{
    let mut i: usize = 0;
    while i < copies.len()
        invariant
            i <= copies@.len(),
            started(copyings(copies@), rec_id, 0) == started(copyings(copies@), rec_id, i as int),
        decreases copies.len() - i,
    {
        assert(copyings(copies@)[i as int] == copies@[i as int]@);
        if copies[i].rec_id == rec_id {
            return i;
        }
        i += 1;
    }
    i
}

/// Lets an access start copies of the window, and tells whether it belongs to one of them.
pub fn check_potential_copy_start(
    mem_access: &LogRecord,
    copy_window: &Vec<KernelRecord>,
    potential_copies: &mut Vec<MemCpy>,
    global_idx: usize,
) -> (r: bool)
    ensures
        (copyings(final(potential_copies)@), r) == starting(
            copyings(old(potential_copies)@),
            *mem_access,
            copy_window@,
            global_idx,
        ),
{
    let ghost window = copy_window@;
    let ghost start = starting(
        copyings(potential_copies@),
        *mem_access,
        window,
        global_idx,
    );
    let mut potential_copy = false;
    let mut i: usize = 0;
    assert(window.skip(0) =~= window);
    while i < copy_window.len()
        invariant
            i <= copy_window@.len(),
            window == copy_window@,
            start == starting(
                copyings(old(potential_copies)@),
                *mem_access,
                window,
                global_idx,
            ),
            start.0 == starting(
                copyings(potential_copies@),
                *mem_access,
                window.skip(i as int),
                global_idx,
            ).0,
            start.1 == (potential_copy || starting(
                copyings(potential_copies@),
                *mem_access,
                window.skip(i as int),
                global_idx,
            ).1),
        decreases copy_window.len() - i,
    {
        let copy = &copy_window[i];
        let ghost rest = window.skip(i as int);
        assert(rest[0] == *copy);
        assert(rest.skip(1) =~= window.skip(i + 1));
        i += 1;
        if mem_access.cpu != copy.cpu {
            continue ;
        }
        let is_start = match copy.operation {
            'r' => mem_access.store == 0 && copy.kernel_address == mem_access.address,
            'w' => mem_access.store == 0 && copy.user_address == mem_access.address,
            _ => false,
        };
        if is_start {
            let m = find_started(potential_copies, copy.rec_id);
            let ghost before = copyings(potential_copies@);
            if m < potential_copies.len() {
                if potential_copies[m].current_to == potential_copies[m].to {
                    let pot_copy = &mut potential_copies[m];
                    pot_copy.insn_count = mem_access.insn_count;
                    pot_copy.associated_indices.push(global_idx);
                    pot_copy.associated_records.push(*mem_access);
                    potential_copy = true;
                    assert(copyings(potential_copies@) =~= before.update(
                        m as int,
                        seen_again(before[m as int], *mem_access, global_idx),
                    ));
                }
            } else {
                let to = if copy.operation == 'w' {
                    copy.kernel_address
                } else {
                    copy.user_address
                };
                let mut indices: Vec<usize> = Vec::new();
                indices.push(global_idx);
                let mut records: Vec<LogRecord> = Vec::new();
                records.push(*mem_access);
                assert(indices@ =~= seq![global_idx]);
                assert(records@ =~= seq![*mem_access]);
                let bytes = log_parser::access_size_bytes(mem_access.size);
                potential_copies.push(
                    MemCpy {
                        rec_id: copy.rec_id,
                        insn_count: mem_access.insn_count,
                        from: mem_access.address,
                        to,
                        cpu: copy.cpu as usize,
                        size: copy.size,
                        current_from: mem_access.address.wrapping_add(bytes),
                        current_to: to,
                        associated_indices: indices,
                        associated_records: records,
                        first_insn_count: mem_access.insn_count,
                        first_global_idx: global_idx,
                    },
                );
                assert(copyings(potential_copies@) =~= before.push(
                    new_copy(*mem_access, copy.announced(), global_idx),
                ));
                potential_copy = true;
            }
        }
    }
    potential_copy
}

/// What a report says of the first `k` accesses of a copy.
pub open spec fn accesses_text(records: Seq<LogRecord>, k: int) -> Seq<char>
    decreases k,
{
    if k <= 0 {
        Seq::empty()
    } else {
        accesses_text(records, k - 1) + report::access_line(
            text::decimal_digits((k - 1) as nat),
            records[k - 1],
        )
    }
}

/// What a report says of a completed copy.
pub open spec fn event_text(event: Completed) -> Seq<char> {
    report::DOUBLE_RULE@ + "ROWCOPY DETECTE - ID Rec: "@ + text::decimal_digits(
        event.rec_id as nat,
    ) + " | CPU: "@ + text::decimal_digits(event.cpu as nat) + "\n"@ + report::addresses_line(
        event.from,
        event.to,
    ) + "Nombre d'accès intercepte: "@ + text::decimal_digits(event.removed_accesses_count)
        + "\n"@ + report::RULE@ + accesses_text(event.records, event.records.len() as int)
}

/// What a report says of some completed copies.
pub open spec fn events_text(events: Seq<Completed>) -> Seq<char>
    decreases events.len(),
{
    if events.len() == 0 {
        Seq::empty()
    } else {
        events_text(events.drop_last()) + event_text(events.last())
    }
}

/// The number of accesses of some completed copies.
pub open spec fn total_removed(events: Seq<Completed>) -> nat
    decreases events.len(),
{
    if events.len() == 0 {
        0
    } else {
        total_removed(events.drop_last()) + events.last().removed_accesses_count
    }
}

/// Adds what a report says of a completed copy.
pub fn append_event(out: &mut String, event: &RowcloneEvent)
    ensures
        final(out)@ == old(out)@ + event_text(event@),
{
    out.append(report::DOUBLE_RULE);
    out.append("ROWCOPY DETECTE - ID Rec: ");
    out.append(text::decimal(event.rec_id).as_str());
    out.append(" | CPU: ");
    out.append(text::decimal(event.cpu as u64).as_str());
    out.append("\n");
    report::append_addresses_line(out, event.from, event.to);
    out.append("Nombre d'accès intercepte: ");
    out.append(text::decimal(event.removed_accesses_count as u64).as_str());
    out.append("\n");
    out.append(report::RULE);
    let ghost head = out@;
    let mut i: usize = 0;
    assert(out@ =~= head + accesses_text(event.records@, 0));
    while i < event.records.len()
        invariant
            i <= event.records@.len(),
            out@ == head + accesses_text(event.records@, i as int),
        decreases event.records.len() - i,
    {
        let ghost before = accesses_text(event.records@, i as int);
        report::append_access_line(out, text::decimal(i as u64).as_str(), &event.records[i]);
        assert(out@ =~= head + accesses_text(event.records@, i + 1));
        i += 1;
    }
    assert(out@ =~= old(out)@ + event_text(event@));
}

/// The report of some completed copies.
pub fn analysis_text(events: &Vec<RowcloneEvent>) -> (r: String)
    ensures
        r@ == events_text(completions(events@)),
{
    let mut out = String::new();
    let mut i: usize = 0;
    let ghost all = completions(events@);
    assert(all.take(0) =~= Seq::<Completed>::empty());
    while i < events.len()
        invariant
            i <= events@.len(),
            all == completions(events@),
            out@ == events_text(all.take(i as int)),
        decreases events.len() - i,
    {
        append_event(&mut out, &events[i]);
        assert(all.take(i + 1).drop_last() =~= all.take(i as int));
        i += 1;
    }
    assert(all.take(i as int) =~= all);
    out
}

/// The number of accesses of some completed copies.
pub fn count_removed(events: &Vec<RowcloneEvent>) -> (r: u128)
    ensures
        r == total_removed(completions(events@)),
{
    let ghost all = completions(events@);
    let mut total: u128 = 0;
    let mut i: usize = 0;
    assert(all.take(0) =~= Seq::<Completed>::empty());
    while i < events.len()
        invariant
            i <= events@.len(),
            all == completions(events@),
            total == total_removed(all.take(i as int)),
            total <= i * usize::MAX,
        decreases events.len() - i,
    {
        let count = events[i].removed_accesses_count;
        assert(i * usize::MAX + usize::MAX == (i + 1) * usize::MAX) by (nonlinear_arith);
        assert((i + 1) * usize::MAX <= u128::MAX) by (nonlinear_arith)
            requires
                i + 1 <= usize::MAX,
                usize::MAX <= u64::MAX,
        ;
        assert(all.take(i + 1).drop_last() =~= all.take(i as int));
        assert(all[i as int] == events@[i as int]@);
        total = total + count as u128;
        i += 1;
    }
    assert(all.take(i as int) =~= all);
    total
}

/// The completed copies of a trace, and how the others fared.
pub struct Analysis {
    /// The completed copies.
    pub events: Vec<RowcloneEvent>,
    /// The report, if it was asked for.
    pub report: Option<String>,
    /// The number of accesses of the completed copies.
    pub total_removed_accesses: u128,
    /// The number of copies that started and were not completed.
    pub uncompleted: usize,
}

/// Whether an analysis is that of the progress at the end of a trace.
pub open spec fn analysis_of<R>(analysis: Analysis, p: Progress<R>, wanted: bool) -> bool {
    &&& completions(analysis.events@) == p.events
    &&& match analysis.report {
        Some(report) => wanted && report@ == events_text(p.events),
        None => !wanted,
    }
    &&& analysis.total_removed_accesses == total_removed(p.events)
    &&& analysis.uncompleted == p.active.len()
}

/// Finds the announced copies in a trace; a report is written if it is wanted.
pub fn analyze_copies_only(
    baseline_history: &Vec<LogRecord>,
    copy_logs: &mut VecDeque<KernelLine<KernelRecord>>,
    copy_window: &mut Vec<KernelRecord>,
    wanted: bool,
) -> (r: Analysis)
    ensures
        ({
            let p = progress(
                beginning(
                    old(copy_window)@,
                    old(copy_logs)@,
                ),
                baseline_history@,
                baseline_history@.len() as int,
            );
            &&& analysis_of(r, p, wanted)
            &&& final(copy_window)@ == p.window
            &&& final(copy_logs)@ == p.log
        }),
{
    let mut active_copies: Vec<MemCpy> = Vec::new();
    let mut rowclone_events: Vec<RowcloneEvent> = Vec::new();
    let ghost start = beginning(
        copy_window@,
        copy_logs@,
    );
    let mut idx: usize = 0;
    proof {
        assert(copyings(active_copies@) =~= start.active);
        assert(completions(rowclone_events@) =~= start.events);
    }
    while idx < baseline_history.len()
        invariant
            idx <= baseline_history@.len(),
            progress_of(active_copies@, rowclone_events@, copy_window@, copy_logs@) == progress(
                start,
                baseline_history@,
                idx as int,
            ),
        decreases baseline_history.len() - idx,
    {
        let mem_access = &baseline_history[idx];
        if !track_active_copies(
            mem_access,
            &mut active_copies,
            idx,
            &mut rowclone_events,
            copy_window,
            copy_logs,
        ) {
            check_potential_copy_start(mem_access, copy_window, &mut active_copies, idx);
        }
        assert(progress_of(active_copies@, rowclone_events@, copy_window@, copy_logs@) == after_access(
            progress(start, baseline_history@, idx as int),
            *mem_access,
            idx,
        ));
        idx += 1;
    }
    let report = if wanted {
        Some(analysis_text(&rowclone_events))
    } else {
        None
    };
    let total_removed_accesses = count_removed(&rowclone_events);
    assert(copyings(active_copies@).len() == active_copies@.len());
    Analysis {
        events: rowclone_events,
        report,
        total_removed_accesses,
        uncompleted: active_copies.len(),
    }
}

/// Reads a line of the kernel log; `next_id` gives identities to the announcements.
pub fn parse_kernel_line(pattern: &Pattern<5>, line: &str, next_id: &mut u64) -> (r: Option<
    KernelRecord,
>)
    ensures
        ({
            let (copy, id) = kernel_log::line_copy(pattern.source(), line@, *old(next_id));
            &&& *final(next_id) == id
            &&& match copy {
                Some(copy) => r matches Some(record) && is_record_of(
                    record,
                    pattern::regex_groups(pattern.source(), line@)->0[0],
                    copy,
                ),
                None => r is None,
            }
        }),
{
    match pattern.groups(line) {
        None => None,
        Some(groups) => match kernel_log::parse_groups(&groups, next_id) {
            None => None,
            Some(copy) => Some(
                KernelRecord {
                    rec_id: copy.rec_id,
                    command: groups[0].clone(),
                    cpu: copy.cpu,
                    size: PAGE_SIZE,
                    operation: copy.operation,
                    kernel_address: copy.kernel_address,
                    user_address: copy.user_address,
                    stale: 0,
                },
            ),
        },
    }
}

/// Whether a line of the kernel log is what a text, with an identity for it, is read as.
pub open spec fn is_line_of(
    line: KernelLine<KernelRecord>,
    source: Seq<char>,
    text: Option<Seq<char>>,
    id: u64,
) -> bool {
    match text {
        None => line is Unreadable,
        Some(chars) => match kernel_log::line_copy(source, chars, id).0 {
            Some(copy) => line matches KernelLine::Record(record) && is_record_of(
                record,
                pattern::regex_groups(source, chars)->0[0],
                copy,
            ),
            None => line is NotParsed,
        },
    }
}

/// Reads the lines of the kernel log, of which one that could not be read is none. The identities
/// for the next copy, before each line and behind the last, come with them.
pub fn read_kernel_log(pattern: &Pattern<5>, lines: &Vec<Option<String>>, first_id: u64) -> (r: (
    VecDeque<KernelLine<KernelRecord>>,
    Vec<u64>,
))
    ensures
        r.0@.len() == lines@.len(),
        forall|i: int|
            0 <= i < lines@.len() ==> is_line_of(
                #[trigger] r.0@[i],
                pattern.source(),
                kernel_log::line_texts(lines@)[i],
                kernel_log::id_after(
                    pattern.source(),
                    kernel_log::line_texts(lines@),
                    first_id,
                    i,
                ),
            ),
        copy_window::announced_log(r.0@) == kernel_log::log_announces(
            pattern.source(),
            kernel_log::line_texts(lines@),
            first_id,
        ).0,
        r.1@ == kernel_log::ids(pattern.source(), kernel_log::line_texts(lines@), first_id),
{
    let mut log: VecDeque<KernelLine<KernelRecord>> = VecDeque::new();
    let mut ids: Vec<u64> = Vec::new();
    let mut next_id: u64 = first_id;
    ids.push(next_id);
    let ghost texts = kernel_log::line_texts(lines@);
    let ghost all_ids = kernel_log::ids(pattern.source(), texts, first_id);
    let mut i: usize = 0;
    proof {
        assert(copy_window::announced_log(log@) =~= Seq::<KernelLine<Announcement>>::empty());
        assert(texts.take(0) =~= Seq::<Option<Seq<char>>>::empty());
        assert(ids@ =~= all_ids.take(1));
    }
    while i < lines.len()
        invariant
            i <= lines@.len(),
            texts == kernel_log::line_texts(lines@),
            all_ids == kernel_log::ids(pattern.source(), texts, first_id),
            ids@ == all_ids.take(i + 1),
            log@.len() == i,
            forall|k: int|
                0 <= k < i ==> is_line_of(
                    #[trigger] log@[k],
                    pattern.source(),
                    texts[k],
                    kernel_log::id_after(pattern.source(), texts, first_id, k),
                ),
            (copy_window::announced_log(log@), next_id) == kernel_log::log_announces(
                pattern.source(),
                texts.take(i as int),
                first_id,
            ),
        decreases lines.len() - i,
    {
        let ghost before = log@;
        assert(texts.take(i + 1).drop_last() =~= texts.take(i as int));
        assert(next_id == kernel_log::id_after(pattern.source(), texts, first_id, i as int));
        match &lines[i] {
            None => {
                log.push_back(KernelLine::Unreadable);
            },
            Some(line) => {
                match parse_kernel_line(pattern, line.as_str(), &mut next_id) {
                    Some(record) => {
                        log.push_back(KernelLine::Record(record));
                    },
                    None => {
                        log.push_back(KernelLine::NotParsed);
                    },
                }
            },
        }
        ids.push(next_id);
        assert(copy_window::announced_log(log@) =~= copy_window::announced_log(before).push(
            copy_window::announced_line(log@.last()),
        ));
        assert(ids@ =~= all_ids.take(i + 2));
        i += 1;
    }
    assert(texts.take(i as int) =~= texts);
    assert(all_ids.take(i + 1) =~= all_ids);
    (log, ids)
}

/// Analyses a trace with the lines of a kernel log. The analysis comes with the number of
/// announcements that are left in the window; there is none if a line that could not be read
/// stands within the first window. Identities are given from `next_id` on, which the lines that
/// were needed use up.
pub fn add_rowclone_info(
    pattern: &Pattern<5>,
    baseline_history: &Vec<LogRecord>,
    kernel_lines: &Vec<Option<String>>,
    wanted: bool,
    next_id: &mut u64,
) -> (r: Option<(Analysis, usize)>)
    ensures
        ({
            let source = pattern.source();
            let texts = kernel_log::line_texts(kernel_lines@);
            let log = kernel_log::log_announces(source, texts, *old(next_id)).0;
            match copy_window::first_filled(Seq::<Announcement>::empty(), log) {
                None => {
                    &&& r is None
                    &&& *final(next_id) == kernel_log::id_after(
                        source,
                        texts,
                        *old(next_id),
                        log.len() - copy_window::first_rest(0, log).len(),
                    )
                },
                Some((window, rest)) => {
                    let p = progress(
                        beginning(window, rest),
                        baseline_history@,
                        baseline_history@.len() as int,
                    );
                    &&& r matches Some((analysis, unmatched))
                    &&& analysis_of(analysis, p, wanted)
                    &&& unmatched == p.window.len()
                    &&& *final(next_id) == kernel_log::id_after(
                        source,
                        texts,
                        *old(next_id),
                        log.len() - p.log.len(),
                    )
                },
            }
        }),
{
    let (mut logs, ids) = read_kernel_log(pattern, kernel_lines, *next_id);
    let ghost log = logs@;
    proof {
        copy_window::lemma_announced_first(Seq::<KernelRecord>::empty(), log);
        assert(copy_window::announced_window(Seq::<KernelRecord>::empty()) =~= Seq::<
            Announcement,
        >::empty());
        copy_window::lemma_first_rest_shortens(0, log);
    }
    match copy_window::first_window(&mut logs) {
        None => {
            *next_id = ids[kernel_lines.len() - logs.len()];
            None
        },
        Some(window) => {
            let mut copy_window = window;
            let ghost start = beginning(copy_window@, logs@);
            let analysis = analyze_copies_only(
                baseline_history,
                &mut logs,
                &mut copy_window,
                wanted,
            );
            proof {
                lemma_announced_progress(start, baseline_history@, baseline_history@.len() as int);
                lemma_log_shortens(start, baseline_history@, baseline_history@.len() as int);
            }
            *next_id = ids[kernel_lines.len() - logs.len()];
            Some((analysis, copy_window.len()))
        },
    }
}

/// The progress with what its records announce in their place.
pub open spec fn announced_progress<R: WindowRecord>(p: Progress<R>) -> Progress<Announcement> {
    Progress {
        active: p.active,
        events: p.events,
        window: copy_window::announced_window(p.window),
        log: copy_window::announced_log(p.log),
    }
}

proof fn lemma_announced_starting<R: WindowRecord>(
    copies: Seq<Copying>,
    access: LogRecord,
    window: Seq<R>,
    idx: usize,
)
    ensures
        starting(copies, access, copy_window::announced_window(window), idx) == starting(
            copies,
            access,
            window,
            idx,
        ),
    decreases window.len(),
{
    if window.len() > 0 {
        let rest = window.skip(1);
        assert(copy_window::announced_window(window).skip(1) =~= copy_window::announced_window(
            rest,
        ));
        let a = window[0].announced();
        let m = started(copies, a.rec_id, 0);
        lemma_announced_starting(copies, access, rest, idx);
        lemma_announced_starting(copies.push(new_copy(access, a, idx)), access, rest, idx);
        lemma_announced_starting(
            copies.update(m, seen_again(copies[m], access, idx)),
            access,
            rest,
            idx,
        );
    }
}

/// Processing a trace and reading what the records announce can be exchanged.
pub proof fn lemma_announced_progress<R: WindowRecord>(
    p: Progress<R>,
    history: Seq<LogRecord>,
    k: int,
)
    ensures
        progress(announced_progress(p), history, k) == announced_progress(progress(p, history, k)),
    decreases k,
{
    if k > 0 {
        lemma_announced_progress(p, history, k - 1);
        let q = progress(p, history, k - 1);
        let access = history[k - 1];
        let idx = (k - 1) as usize;
        let m = continued(q.active, access, 0);
        if m < q.active.len() {
            copy_window::lemma_announced_completion(q.window, q.log, q.active[m].rec_id);
        } else {
            lemma_announced_starting(q.active, access, q.window, idx);
        }
    }
}

proof fn lemma_log_shortens<R: WindowRecord>(p: Progress<R>, history: Seq<LogRecord>, k: int)
    ensures
        progress(p, history, k).log.len() <= p.log.len(),
    decreases k,
{
    if k > 0 {
        lemma_log_shortens(p, history, k - 1);
        let q = progress(p, history, k - 1);
        let access = history[k - 1];
        let m = continued(q.active, access, 0);
        if m < q.active.len() {
            let rec_id = q.active[m].rec_id;
            let left = copy_window::without_record(q.window, rec_id);
            copy_window::lemma_refill_shortens(
                copy_window::fresh(copy_window::aged_window(left, rec_id)),
                q.log,
            );
        }
    }
}

pub(crate) proof fn lemma_continued(copies: Seq<Copying>, access: LogRecord, k: int)
    requires
        0 <= k <= copies.len(),
    ensures
        k <= continued(copies, access, k) <= copies.len(),
        continued(copies, access, k) < copies.len() ==> continues(
            access,
            copies[continued(copies, access, k)],
        ),
        forall|i: int|
            k <= i < continued(copies, access, k) ==> !continues(access, #[trigger] copies[i]),
    decreases copies.len() - k,
{
    if k < copies.len() && !continues(access, copies[k]) {
        lemma_continued(copies, access, k + 1);
    }
}

pub(crate) proof fn lemma_started(copies: Seq<Copying>, rec_id: u64, k: int)
    requires
        0 <= k <= copies.len(),
    ensures
        k <= started(copies, rec_id, k) <= copies.len(),
        started(copies, rec_id, k) < copies.len() ==> copies[started(copies, rec_id, k)].rec_id
            == rec_id,
        forall|i: int|
            k <= i < started(copies, rec_id, k) ==> (#[trigger] copies[i]).rec_id != rec_id,
    decreases copies.len() - k,
{
    if k < copies.len() && copies[k].rec_id != rec_id {
        lemma_started(copies, rec_id, k + 1);
    }
}

} // verus!
