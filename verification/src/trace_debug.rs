//! Finds the announced page copies of one processor in its memory trace, and reports the loads and
//! stores that each is made of.
use crate::copy_window;
use crate::copy_window::{Announcement, KernelLine, WindowRecord};
use crate::kernel_log;
use crate::kernel_log::PAGE_SIZE;
use crate::log_parser;
use crate::log_parser::LogRecord;
use crate::report;
use crate::text;
use std::collections::VecDeque;
use vstd::prelude::*;
use vstd::string::*;

verus! {

/// A page copy that the kernel announced.
#[derive(Clone, Copy)]
pub struct KernelRecord {
    pub rec_id: u64,
    pub cpu: u8,
    pub size: u64,
    pub src_address: u64,
    pub dst_address: u64,
    pub stale: usize,
}

/// A page copy of which the start was seen in the memory trace.
#[derive(Clone)]
pub struct MemCpy {
    pub rec_id: u64,
    pub from: u64,
    pub to: u64,
    pub size: u64,
    pub current_from: u64,
    pub current_to: u64,
    pub associated_indices: Vec<usize>,
    pub associated_records: Vec<LogRecord>,
    pub first_insn_count: u64,
    pub first_global_idx: usize,
}

/// A page copy that was seen to its end, with the positions of its first and last access and all
/// its accesses.
pub struct RowcloneEvent {
    pub rec_id: u64,
    pub cpu: u8,
    pub target_global_idx: usize,
    pub end_global_idx: usize,
    pub from: u64,
    pub to: u64,
    pub removed_accesses_count: usize,
    pub records: Vec<LogRecord>,
}

/// What is recorded of a completed copy.
pub struct Completed {
    pub rec_id: u64,
    pub cpu: u8,
    pub target_global_idx: usize,
    pub end_global_idx: usize,
    pub from: u64,
    pub to: u64,
    pub removed_accesses_count: nat,
    pub records: Seq<LogRecord>,
}

impl View for RowcloneEvent {
    type V = Completed;

    open spec fn view(&self) -> Completed {
        Completed {
            rec_id: self.rec_id,
            cpu: self.cpu,
            target_global_idx: self.target_global_idx,
            end_global_idx: self.end_global_idx,
            from: self.from,
            to: self.to,
            removed_accesses_count: self.removed_accesses_count as nat,
            records: self.records@,
        }
    }
}

/// The completed copies.
pub open spec fn completions(events: Seq<RowcloneEvent>) -> Seq<Completed> {
    Seq::new(events.len(), |i: int| events[i]@)
}

/// A started copy: what is left to read and to write, and its accesses with their positions.
pub struct Copying {
    pub rec_id: u64,
    pub from: u64,
    pub to: u64,
    pub size: u64,
    pub current_from: u64,
    pub current_to: u64,
    pub indices: Seq<usize>,
    pub records: Seq<LogRecord>,
    pub first_insn_count: u64,
    pub first_global_idx: usize,
}

impl View for MemCpy {
    type V = Copying;

    open spec fn view(&self) -> Copying {
        Copying {
            rec_id: self.rec_id,
            from: self.from,
            to: self.to,
            size: self.size,
            current_from: self.current_from,
            current_to: self.current_to,
            indices: self.associated_indices@,
            records: self.associated_records@,
            first_insn_count: self.first_insn_count,
            first_global_idx: self.first_global_idx,
        }
    }
}

/// The started copies.
pub open spec fn copyings(copies: Seq<MemCpy>) -> Seq<Copying> {
    Seq::new(copies.len(), |i: int| copies[i]@)
}

impl KernelRecord {
    /// The text of `debug_text`.
    pub open spec fn debug_view(self) -> Seq<char> {
        "KernelRecord { cpu: "@ + text::decimal_digits(self.cpu as nat) + ", size: "@
            + text::decimal_digits(self.size as nat) + ", src: "@ + text::address_text(
            self.src_address,
        ) + ", dst: "@ + text::address_text(self.dst_address) + " }"@
    }

    /// The record in one line, for messages.
    pub fn debug_text(&self) -> (r: String)
        ensures
            r@ == self.debug_view(),
    {
        let mut r = String::new();
        r.append("KernelRecord { cpu: ");
        r.append(text::decimal(self.cpu as u64).as_str());
        r.append(", size: ");
        r.append(text::decimal(self.size).as_str());
        r.append(", src: ");
        r.append(text::address(self.src_address).as_str());
        r.append(", dst: ");
        r.append(text::address(self.dst_address).as_str());
        r.append(" }");
        assert(r@ =~= self.debug_view());
        r
    }
}

impl WindowRecord for KernelRecord {
    open spec fn id(&self) -> u64 {
        self.rec_id
    }

    open spec fn age(&self) -> usize {
        self.stale
    }

    open spec fn with_age(&self, age: usize) -> Self {
        KernelRecord { stale: age, ..*self }
    }

    fn rec_id(&self) -> u64 {
        self.rec_id
    }

    fn stale(&self) -> usize {
        self.stale
    }

    fn set_stale(&mut self, stale: usize) {
        self.stale = stale;
    }

    open spec fn announced(&self) -> Announcement {
        Announcement {
            rec_id: self.rec_id,
            cpu: self.cpu,
            size: self.size,
            source: Some(self.src_address),
            target: self.dst_address,
            stale: self.stale,
        }
    }

    proof fn announced_agrees(&self, age: usize) {
    }
}

/// Whether an access is the one that a copy does next: the load at the place that it has read up
/// to, or the store at the place that it has written up to.
pub open spec fn continues(access: LogRecord, copy: Copying) -> bool {
    (copy.current_from == access.address && access.store == 0) || (copy.current_to
        == access.address && access.store == 1)
}

/// Whether a copy has read and written all its bytes.
pub open spec fn complete(copy: Copying) -> bool {
    &&& copy.current_from >= copy.from.wrapping_add(copy.size)
    &&& copy.current_to >= copy.to.wrapping_add(copy.size)
}

/// A copy after an access that it does next, at a position of the trace. A load behind the last
/// byte to read is not one of the copy.
pub open spec fn advanced(copy: Copying, access: LogRecord, idx: usize) -> Copying {
    let bytes = log_parser::access_bytes(access.size);
    if access.store == 1 {
        Copying {
            current_to: copy.current_to.wrapping_add(bytes),
            indices: copy.indices.push(idx),
            records: copy.records.push(access),
            ..copy
        }
    } else if copy.current_from < copy.from.wrapping_add(copy.size) {
        Copying {
            current_from: copy.current_from.wrapping_add(bytes),
            indices: copy.indices.push(idx),
            records: copy.records.push(access),
            ..copy
        }
    } else {
        copy
    }
}

/// The first started copy, from position `k` on, that an access continues; their number if there
/// is none.
pub open spec fn continued(copies: Seq<Copying>, access: LogRecord, k: int) -> int
    decreases copies.len() - k,
{
    if k >= copies.len() {
        copies.len() as int
    } else if continues(access, copies[k]) {
        k
    } else {
        continued(copies, access, k + 1)
    }
}

/// The first started copy, from position `k` on, of an announcement; their number if there is
/// none.
pub open spec fn started(copies: Seq<Copying>, rec_id: u64, k: int) -> int
    decreases copies.len() - k,
{
    if k >= copies.len() {
        copies.len() as int
    } else if copies[k].rec_id == rec_id {
        k
    } else {
        started(copies, rec_id, k + 1)
    }
}

/// Where the processing stands: the started copies, the completed copies, and the announcements in
/// the window and behind it.
pub struct Progress<R> {
    pub active: Seq<Copying>,
    pub events: Seq<Completed>,
    pub window: Seq<R>,
    pub log: Seq<KernelLine<R>>,
}

/// What is recorded of a copy that an access of a processor completed at a position.
pub open spec fn completed(copy: Copying, cpu: u8, idx: usize) -> Completed {
    Completed {
        rec_id: copy.rec_id,
        cpu,
        target_global_idx: copy.first_global_idx,
        end_global_idx: idx,
        from: copy.from,
        to: copy.to,
        removed_accesses_count: copy.indices.len(),
        records: copy.records,
    }
}

/// The progress after an access that continues the first of its copies, and whether there is one.
pub open spec fn after_continuing<R: WindowRecord>(
    p: Progress<R>,
    access: LogRecord,
    idx: usize,
) -> (Progress<R>, bool) {
    let m = continued(p.active, access, 0);
    if m >= p.active.len() {
        (p, false)
    } else {
        let copy = advanced(p.active[m], access, idx);
        if complete(copy) {
            let (window, log) = copy_window::after_completion(p.window, p.log, copy.rec_id);
            (
                Progress {
                    active: p.active.remove(m),
                    events: p.events.push(completed(copy, access.cpu, idx)),
                    window,
                    log,
                },
                true,
            )
        } else {
            (Progress { active: p.active.update(m, copy), ..p }, true)
        }
    }
}

/// Whether an access is the first load of an announced copy.
pub open spec fn is_start(access: LogRecord, a: Announcement) -> bool {
    access.store == 0 && a.source == Some(access.address)
}

/// A copy that an access starts.
pub open spec fn new_copy(access: LogRecord, a: Announcement, idx: usize) -> Copying {
    Copying {
        rec_id: a.rec_id,
        from: access.address,
        to: a.target,
        size: a.size,
        current_from: log_parser::access_end(access),
        current_to: a.target,
        indices: seq![idx],
        records: seq![access],
        first_insn_count: access.insn_count,
        first_global_idx: idx,
    }
}

/// A started copy after its first load is seen once more: it starts anew there.
pub open spec fn restarted(copy: Copying, access: LogRecord, idx: usize) -> Copying {
    Copying {
        current_from: log_parser::access_end(access),
        indices: seq![idx],
        records: seq![access],
        first_insn_count: access.insn_count,
        first_global_idx: idx,
        ..copy
    }
}

/// The started copies after an access that may start copies of the window, and whether it belongs
/// to one of them. It starts each of its copies that has not started, and starts anew each
/// that has written nothing yet.
pub open spec fn starting<R: WindowRecord>(
    copies: Seq<Copying>,
    access: LogRecord,
    window: Seq<R>,
    idx: usize,
) -> (Seq<Copying>, bool)
    decreases window.len(),
{
    if window.len() == 0 {
        (copies, false)
    } else if !is_start(access, window[0].announced()) {
        starting(copies, access, window.skip(1), idx)
    } else {
        let m = started(copies, window[0].announced().rec_id, 0);
        if m >= copies.len() {
            let more = copies.push(new_copy(access, window[0].announced(), idx));
            (starting(more, access, window.skip(1), idx).0, true)
        } else if copies[m].current_to == copies[m].to {
            let again = copies.update(m, restarted(copies[m], access, idx));
            (starting(again, access, window.skip(1), idx).0, true)
        } else {
            starting(copies, access, window.skip(1), idx)
        }
    }
}

/// The progress after one access.
pub open spec fn after_access<R: WindowRecord>(
    p: Progress<R>,
    access: LogRecord,
    idx: usize,
) -> Progress<R> {
    let (q, belongs) = after_continuing(p, access, idx);
    if belongs {
        q
    } else {
        Progress { active: starting(p.active, access, p.window, idx).0, ..p }
    }
}

/// The progress after the first `k` accesses of a trace.
pub open spec fn progress<R: WindowRecord>(
    p: Progress<R>,
    history: Seq<LogRecord>,
    k: int,
) -> Progress<R>
    decreases k,
{
    if k <= 0 {
        p
    } else {
        after_access(progress(p, history, k - 1), history[k - 1], (k - 1) as usize)
    }
}

/// The progress before a trace.
pub open spec fn beginning<R>(
    window: Seq<R>,
    log: Seq<KernelLine<R>>,
) -> Progress<R> {
    Progress {
        active: Seq::empty(),
        events: Seq::empty(),
        window,
        log,
    }
}

/// The progress that the variables of the processing stand for.
pub open spec fn progress_of(
    active: Seq<MemCpy>,
    events: Seq<RowcloneEvent>,
    window: Seq<KernelRecord>,
    log: Seq<KernelLine<KernelRecord>>,
) -> Progress<KernelRecord> {
    Progress {
        active: copyings(active),
        events: completions(events),
        window,
        log,
    }
}

/// Whether an access is the one that a copy does next.
pub fn mem_copy_match(mem_access: &LogRecord, copy: &MemCpy) -> (r: bool)
    ensures
        r == continues(*mem_access, copy@),
{
    (copy.current_from == mem_access.address && mem_access.store == 0) || (copy.current_to
        == mem_access.address && mem_access.store == 1)
}

/// Whether a copy has read and written all its bytes.
pub fn copy_done(copy: &MemCpy) -> (r: bool)
    ensures
        r == complete(copy@),
{
    copy.current_from >= copy.from.wrapping_add(copy.size) && copy.current_to
        >= copy.to.wrapping_add(copy.size)
}

/// Advances a copy by an access, and tells whether that completes it.
pub fn update_copy(
    copies: &mut Vec<MemCpy>,
    copy_idx: usize,
    mem_access: &LogRecord,
    global_idx: usize,
) -> (r: bool)
    requires
        copy_idx < old(copies)@.len(),
    ensures
        copyings(final(copies)@) == copyings(old(copies)@).update(
            copy_idx as int,
            advanced(old(copies)@[copy_idx as int]@, *mem_access, global_idx),
        ),
        r == complete(advanced(old(copies)@[copy_idx as int]@, *mem_access, global_idx)),
{
    let access_size_bytes = log_parser::access_size_bytes(mem_access.size);
    let copy = &mut copies[copy_idx];
    if mem_access.store == 1 {
        copy.current_to = copy.current_to.wrapping_add(access_size_bytes);
        copy.associated_indices.push(global_idx);
        copy.associated_records.push(*mem_access);
    } else if copy.current_from < copy.from.wrapping_add(copy.size) {
        copy.current_from = copy.current_from.wrapping_add(access_size_bytes);
        copy.associated_indices.push(global_idx);
        copy.associated_records.push(*mem_access);
    }
    let done = copy_done(&copies[copy_idx]);
    assert(copyings(copies@) =~= copyings(old(copies)@).update(
        copy_idx as int,
        advanced(old(copies)@[copy_idx as int]@, *mem_access, global_idx),
    ));
    done
}

/// Lets an access continue the first of its copies; a copy that is complete is recorded.
pub fn track_active_copies(
    mem_access: &LogRecord,
    active_copies: &mut Vec<MemCpy>,
    global_idx: usize,
    rowclone_events: &mut Vec<RowcloneEvent>,
    copy_window: &mut Vec<KernelRecord>,
    copy_logs: &mut VecDeque<KernelLine<KernelRecord>>,
) -> (r: bool)
    ensures
        (
            progress_of(
                final(active_copies)@,
                final(rowclone_events)@,
                final(copy_window)@,
                final(copy_logs)@,
            ),
            r,
        ) == after_continuing(
            progress_of(
                old(active_copies)@,
                old(rowclone_events)@,
                old(copy_window)@,
                old(copy_logs)@,
            ),
            *mem_access,
            global_idx,
        ),
{
    let ghost start = progress_of(
        active_copies@,
        rowclone_events@,
        copy_window@,
        copy_logs@,
    );
    let mut idx: usize = 0;
    while idx < active_copies.len()
        invariant
            idx <= active_copies@.len(),
            *active_copies == *old(active_copies),
            *rowclone_events == *old(rowclone_events),
            *copy_window == *old(copy_window),
            *copy_logs == *old(copy_logs),
            start == progress_of(
                active_copies@,
                rowclone_events@,
                copy_window@,
                copy_logs@,
            ),
            continued(start.active, *mem_access, 0) == continued(
                start.active,
                *mem_access,
                idx as int,
            ),
        decreases active_copies.len() - idx,
    {
        if mem_copy_match(mem_access, &active_copies[idx]) {
            let ghost copy = advanced(start.active[idx as int], *mem_access, global_idx);
            let done = update_copy(active_copies, idx, mem_access, global_idx);
            assert(copyings(active_copies@).len() == active_copies@.len());
            assert(copyings(active_copies@)[idx as int] == copy);
            if done {
                let rec_id = active_copies[idx].rec_id;
                copy_window::remove_record(rec_id, copy_window);
                copy_window::remove_stale_copies(rec_id, copy_window, copy_logs);
                let ghost full = active_copies@;
                let ghost events = rowclone_events@;
                let finished = active_copies.remove(idx);
                rowclone_events.push(
                    RowcloneEvent {
                        rec_id,
                        cpu: mem_access.cpu,
                        target_global_idx: finished.first_global_idx,
                        end_global_idx: global_idx,
                        from: finished.from,
                        to: finished.to,
                        removed_accesses_count: finished.associated_indices.len(),
                        records: finished.associated_records,
                    },
                );
                assert(completions(rowclone_events@) =~= completions(events).push(
                    completed(copy, mem_access.cpu, global_idx),
                ));
                assert(copyings(active_copies@) =~= start.active.remove(idx as int)) by {
                    assert forall|i: int| 0 <= i < active_copies@.len() implies copyings(
                        active_copies@,
                    )[i] == start.active.remove(idx as int)[i] by {
                        if i < idx {
                            assert(copyings(full)[i] == start.active[i]);
                        } else {
                            assert(copyings(full)[i + 1] == start.active[i + 1]);
                        }
                    }
                }
            }
            return true;
        }
        idx += 1;
    }
    false
}

/// The position of the started copy of an announcement; their number if there is none.
fn find_started(copies: &Vec<MemCpy>, rec_id: u64) -> (r: usize)
    ensures
        r == started(copyings(copies@), rec_id, 0),
        r <= copies@.len(),
        r < copies@.len() ==> copies@[r as int].rec_id == rec_id,
{
    let mut i: usize = 0;
    while i < copies.len()
        invariant
            i <= copies@.len(),
            started(copyings(copies@), rec_id, 0) == started(copyings(copies@), rec_id, i as int),
        decreases copies.len() - i,
    {
        assert(copyings(copies@)[i as int] == copies@[i as int]@);
        if copies[i].rec_id == rec_id {
            return i;
        }
        i += 1;
    }
    i
}

/// Lets an access start copies of the window, and tells whether it belongs to one of them.
pub fn check_potential_copy_start(
    mem_access: &LogRecord,
    copy_window: &Vec<KernelRecord>,
    potential_copies: &mut Vec<MemCpy>,
    global_idx: usize,
) -> (r: bool)
    ensures
        (copyings(final(potential_copies)@), r) == starting(
            copyings(old(potential_copies)@),
            *mem_access,
            copy_window@,
            global_idx,
        ),
{
    let ghost window = copy_window@;
    let ghost start = starting(
        copyings(potential_copies@),
        *mem_access,
        window,
        global_idx,
    );
    let mut potential_copy = false;
    let mut i: usize = 0;
    assert(window.skip(0) =~= window);
    while i < copy_window.len()
        invariant
            i <= copy_window@.len(),
            window == copy_window@,
            start == starting(
                copyings(old(potential_copies)@),
                *mem_access,
                window,
                global_idx,
            ),
            start.0 == starting(
                copyings(potential_copies@),
                *mem_access,
                window.skip(i as int),
                global_idx,
            ).0,
            start.1 == (potential_copy || starting(
                copyings(potential_copies@),
                *mem_access,
                window.skip(i as int),
                global_idx,
            ).1),
        decreases copy_window.len() - i,
    {
        let copy = &copy_window[i];
        let ghost rest = window.skip(i as int);
        assert(rest[0] == *copy);
        assert(rest.skip(1) =~= window.skip(i + 1));
        i += 1;
        let is_start = mem_access.store == 0 && copy.src_address == mem_access.address;
        if is_start {
            let m = find_started(potential_copies, copy.rec_id);
            let ghost before = copyings(potential_copies@);
            if m < potential_copies.len() {
                if potential_copies[m].current_to == potential_copies[m].to {
                    let bytes = log_parser::access_size_bytes(mem_access.size);
                    let pot_copy = &mut potential_copies[m];
                    pot_copy.associated_indices.clear();
                    pot_copy.associated_records.clear();
                    pot_copy.first_insn_count = mem_access.insn_count;
                    pot_copy.first_global_idx = global_idx;
                    pot_copy.associated_indices.push(global_idx);
                    pot_copy.associated_records.push(*mem_access);
                    pot_copy.current_from = mem_access.address.wrapping_add(bytes);
                    assert(potential_copies@[m as int].associated_indices@ =~= seq![global_idx]);
                    assert(potential_copies@[m as int].associated_records@ =~= seq![*mem_access]);
                    potential_copy = true;
                    assert(copyings(potential_copies@) =~= before.update(
                        m as int,
                        restarted(before[m as int], *mem_access, global_idx),
                    ));
                }
            } else {
                let mut indices: Vec<usize> = Vec::new();
                indices.push(global_idx);
                let mut records: Vec<LogRecord> = Vec::new();
                records.push(*mem_access);
                assert(indices@ =~= seq![global_idx]);
                assert(records@ =~= seq![*mem_access]);
                let bytes = log_parser::access_size_bytes(mem_access.size);
                potential_copies.push(
                    MemCpy {
                        rec_id: copy.rec_id,
                        from: mem_access.address,
                        to: copy.dst_address,
                        size: copy.size,
                        current_from: mem_access.address.wrapping_add(bytes),
                        current_to: copy.dst_address,
                        associated_indices: indices,
                        associated_records: records,
                        first_insn_count: mem_access.insn_count,
                        first_global_idx: global_idx,
                    },
                );
                assert(copyings(potential_copies@) =~= before.push(
                    new_copy(*mem_access, copy.announced(), global_idx),
                ));
                potential_copy = true;
            }
        }
    }
    potential_copy
}

/// What a report says of the first `k` accesses of a copy.
pub open spec fn accesses_text(records: Seq<LogRecord>, k: int) -> Seq<char>
    decreases k,
{
    if k <= 0 {
        Seq::empty()
    } else {
        accesses_text(records, k - 1) + report::access_line(
            text::zero_padded(text::decimal_digits((k - 1) as nat), 3),
            records[k - 1],
        )
    }
}

/// What a report says of a completed copy.
pub open spec fn event_text(event: Completed) -> Seq<char> {
    report::DOUBLE_RULE@ + "ROWCOPY DÉTECTÉ - ID Rec: "@ + text::decimal_digits(
        event.rec_id as nat,
    ) + " | CPU: "@ + text::decimal_digits(event.cpu as nat) + " | Index trace: ["@
        + text::decimal_digits(event.target_global_idx as nat) + " -> "@ + text::decimal_digits(
        event.end_global_idx as nat,
    ) + "]\n"@ + report::addresses_line(event.from, event.to) + "Nombre d'accès interceptés : "@
        + text::decimal_digits(event.removed_accesses_count) + "\n"@ + report::RULE@
        + accesses_text(event.records, event.records.len() as int) + "\n"@
}

/// What a report says of some completed copies.
pub open spec fn events_text(events: Seq<Completed>) -> Seq<char>
    decreases events.len(),
{
    if events.len() == 0 {
        Seq::empty()
    } else {
        events_text(events.drop_last()) + event_text(events.last())
    }
}

/// The number of stores among some accesses.
pub open spec fn stores(records: Seq<LogRecord>) -> nat
    decreases records.len(),
{
    if records.len() == 0 {
        0
    } else {
        stores(records.drop_last()) + if records.last().store == 1 {
            1nat
        } else {
            0nat
        }
    }
}

/// The number of accesses of some completed copies.
pub open spec fn total_accesses(events: Seq<Completed>) -> nat
    decreases events.len(),
{
    if events.len() == 0 {
        0
    } else {
        total_accesses(events.drop_last()) + events.last().records.len()
    }
}

/// The number of stores of some completed copies.
pub open spec fn total_stores(events: Seq<Completed>) -> nat
    decreases events.len(),
{
    if events.len() == 0 {
        0
    } else {
        total_stores(events.drop_last()) + stores(events.last().records)
    }
}

/// Adds what a report says of a completed copy.
pub fn append_event(out: &mut String, event: &RowcloneEvent)
    ensures
        final(out)@ == old(out)@ + event_text(event@),
{
    out.append(report::DOUBLE_RULE);
    out.append("ROWCOPY DÉTECTÉ - ID Rec: ");
    out.append(text::decimal(event.rec_id).as_str());
    out.append(" | CPU: ");
    out.append(text::decimal(event.cpu as u64).as_str());
    out.append(" | Index trace: [");
    out.append(text::decimal(event.target_global_idx as u64).as_str());
    out.append(" -> ");
    out.append(text::decimal(event.end_global_idx as u64).as_str());
    out.append("]\n");
    report::append_addresses_line(out, event.from, event.to);
    out.append("Nombre d'accès interceptés : ");
    out.append(text::decimal(event.removed_accesses_count as u64).as_str());
    out.append("\n");
    out.append(report::RULE);
    let ghost head = out@;
    let mut i: usize = 0;
    assert(out@ =~= head + accesses_text(event.records@, 0));
    while i < event.records.len()
        invariant
            i <= event.records@.len(),
            out@ == head + accesses_text(event.records@, i as int),
        decreases event.records.len() - i,
    {
        report::append_access_line(
            out,
            text::decimal_padded3(i as u64).as_str(),
            &event.records[i],
        );
        assert(out@ =~= head + accesses_text(event.records@, i + 1));
        i += 1;
    }
    out.append("\n");
    assert(out@ =~= old(out)@ + event_text(event@));
}

/// The report of some completed copies.
pub fn debug_report(events: &Vec<RowcloneEvent>) -> (r: String)
    ensures
        r@ == events_text(completions(events@)),
{
    let mut out = String::new();
    let mut i: usize = 0;
    let ghost all = completions(events@);
    assert(all.take(0) =~= Seq::<Completed>::empty());
    while i < events.len()
        invariant
            i <= events@.len(),
            all == completions(events@),
            out@ == events_text(all.take(i as int)),
        decreases events.len() - i,
    {
        append_event(&mut out, &events[i]);
        assert(all.take(i + 1).drop_last() =~= all.take(i as int));
        i += 1;
    }
    assert(all.take(i as int) =~= all);
    out
}

fn count_stores(records: &Vec<LogRecord>) -> (r: usize)
    ensures
        r == stores(records@),
        r <= records@.len(),
{
    let mut count: usize = 0;
    let mut i: usize = 0;
    assert(records@.take(0) =~= Seq::<LogRecord>::empty());
    while i < records.len()
        invariant
            i <= records@.len(),
            count == stores(records@.take(i as int)),
            count <= i,
        decreases records.len() - i,
    {
        assert(records@.take(i + 1).drop_last() =~= records@.take(i as int));
        if records[i].store == 1 {
            count += 1;
        }
        i += 1;
    }
    assert(records@.take(i as int) =~= records@);
    count
}

/// The numbers of loads and stores of some completed copies.
pub fn count_accesses(events: &Vec<RowcloneEvent>) -> (r: (u128, u128))
    ensures
        r.0 + r.1 == total_accesses(completions(events@)),
        r.1 == total_stores(completions(events@)),
{
    let ghost all = completions(events@);
    let mut loads: u128 = 0;
    let mut written: u128 = 0;
    let mut i: usize = 0;
    assert(all.take(0) =~= Seq::<Completed>::empty());
    while i < events.len()
        invariant
            i <= events@.len(),
            all == completions(events@),
            loads + written == total_accesses(all.take(i as int)),
            written == total_stores(all.take(i as int)),
            loads + written <= i * usize::MAX,
        decreases events.len() - i,
    {
        let of_copy = count_stores(&events[i].records);
        let n = events[i].records.len();
        assert(i * usize::MAX + usize::MAX == (i + 1) * usize::MAX) by (nonlinear_arith);
        assert((i + 1) * usize::MAX <= u128::MAX) by (nonlinear_arith)
            requires
                i + 1 <= usize::MAX,
                usize::MAX <= u64::MAX,
        ;
        assert(all.take(i + 1).drop_last() =~= all.take(i as int));
        assert(all[i as int] == events@[i as int]@);
        loads = loads + (n - of_copy) as u128;
        written = written + of_copy as u128;
        i += 1;
    }
    assert(all.take(i as int) =~= all);
    (loads, written)
}

/// The completed copies of a trace, and their accesses in numbers.
pub struct DebugAnalysis {
    /// The processor of the first access of the trace.
    pub cpu: u8,
    /// The completed copies.
    pub events: Vec<RowcloneEvent>,
    /// The report.
    pub report: String,
    /// The number of loads of the completed copies.
    pub total_loads: u128,
    /// The number of stores of the completed copies.
    pub total_stores: u128,
}

/// The records of a kernel log as its lines.
pub open spec fn record_lines(records: Seq<KernelRecord>) -> Seq<KernelLine<KernelRecord>> {
    Seq::new(records.len(), |i: int| KernelLine::Record(records[i]))
}

/// The progress at the end of a trace with the announcements of a kernel log.
pub open spec fn final_progress(
    history: Seq<LogRecord>,
    announcements: Seq<KernelLine<Announcement>>,
) -> Progress<Announcement> {
    let (window, rest) = copy_window::refilled(Seq::<Announcement>::empty(), announcements);
    progress(beginning(window, rest), history, history.len() as int)
}

/// Finds the copies of a processor in its trace. An empty trace has no analysis.
pub fn process_single_cpu_trace_debug(
    baseline_history: &Vec<LogRecord>,
    kernel_records: &Vec<KernelRecord>,
) -> (r: Option<DebugAnalysis>)
    ensures
        baseline_history@.len() == 0 <==> r is None,
        r matches Some(analysis) ==> {
            let p = final_progress(
                baseline_history@,
                copy_window::announced_log(record_lines(kernel_records@)),
            );
            &&& analysis.cpu == baseline_history@[0].cpu
            &&& completions(analysis.events@) == p.events
            &&& analysis.report@ == events_text(p.events)
            &&& analysis.total_loads + analysis.total_stores == total_accesses(p.events)
            &&& analysis.total_stores == total_stores(p.events)
        },
{
    if baseline_history.len() == 0 {
        return None;
    }
    let mut logs: VecDeque<KernelLine<KernelRecord>> = VecDeque::new();
    let mut i: usize = 0;
    while i < kernel_records.len()
        invariant
            i <= kernel_records@.len(),
            logs@ == record_lines(kernel_records@).take(i as int),
        decreases kernel_records.len() - i,
    {
        logs.push_back(KernelLine::Record(kernel_records[i]));
        assert(logs@ =~= record_lines(kernel_records@).take(i + 1));
        i += 1;
    }
    assert(logs@ =~= record_lines(kernel_records@));
    let mut copy_window: Vec<KernelRecord> = Vec::new();
    proof {
        copy_window::lemma_announced_refilled(copy_window@, logs@);
        assert(copy_window::announced_window(copy_window@) =~= Seq::<Announcement>::empty());
    }
    copy_window::fill_window(&mut copy_window, &mut logs);
    let mut active_copies: Vec<MemCpy> = Vec::new();
    let mut rowclone_events: Vec<RowcloneEvent> = Vec::new();
    let ghost start = beginning(copy_window@, logs@);
    proof {
        assert(copyings(active_copies@) =~= start.active);
        assert(completions(rowclone_events@) =~= start.events);
    }
    let mut idx: usize = 0;
    while idx < baseline_history.len()
        invariant
            idx <= baseline_history@.len(),
            progress_of(active_copies@, rowclone_events@, copy_window@, logs@) == progress(
                start,
                baseline_history@,
                idx as int,
            ),
        decreases baseline_history.len() - idx,
    {
        let mem_access = &baseline_history[idx];
        if !track_active_copies(
            mem_access,
            &mut active_copies,
            idx,
            &mut rowclone_events,
            &mut copy_window,
            &mut logs,
        ) {
            check_potential_copy_start(mem_access, &copy_window, &mut active_copies, idx);
        }
        assert(progress_of(active_copies@, rowclone_events@, copy_window@, logs@) == after_access(
            progress(start, baseline_history@, idx as int),
            *mem_access,
            idx,
        ));
        idx += 1;
    }
    proof {
        lemma_announced_progress(start, baseline_history@, baseline_history@.len() as int);
    }
    let report = debug_report(&rowclone_events);
    let (total_loads, total_stores) = count_accesses(&rowclone_events);
    Some(
        DebugAnalysis {
            cpu: baseline_history[0].cpu,
            events: rowclone_events,
            report,
            total_loads,
            total_stores,
        },
    )
}

/// The copy that a line announces: a processor and two addresses, with anything behind them.
/// Every other line announces none, a comment that starts with `#` too.
pub open spec fn line_record(line: Seq<char>, next_id: u64) -> Option<KernelRecord> {
    let words = text::words(line);
    if words.len() < 3 {
        None
    } else {
        match (
            text::unsigned(words[0], 10, 255),
            text::hex_address(words[1]),
            text::hex_address(words[2]),
        ) {
            (Some(cpu), Some(src), Some(dst)) => Some(
                KernelRecord {
                    rec_id: next_id,
                    cpu: cpu as u8,
                    size: PAGE_SIZE,
                    src_address: src as u64,
                    dst_address: dst as u64,
                    stale: 0,
                },
            ),
            _ => None,
        }
    }
}

/// Reads a line of the kernel log; `next_id` gives identities to the announcements.
pub fn parse_kernel_line(line: &str, next_id: &mut u64) -> (r: Option<KernelRecord>)
    ensures
        r == line_record(line@, *old(next_id)),
        *final(next_id) == if r is Some {
            old(next_id).wrapping_add(1)
        } else {
            *old(next_id)
        },
{
    let parts = text::split_words(line);
    let ghost words = text::words(line@);
    assert(words.len() == parts@.len());
    if parts.len() < 3 {
        return None;
    }
    assert(words[0] == parts@[0]@ && words[1] == parts@[1]@ && words[2] == parts@[2]@);
    let cpu = match text::parse_unsigned(&parts[0], 10, 255) {
        Some(cpu) => cpu as u8,
        None => {
            return None;
        },
    };
    let src_address = match text::parse_hex_chars(&parts[1]) {
        Some(a) => a,
        None => {
            return None;
        },
    };
    let dst_address = match text::parse_hex_chars(&parts[2]) {
        Some(a) => a,
        None => {
            return None;
        },
    };
    let rec_id = *next_id;
    *next_id = rec_id.wrapping_add(1);
    Some(KernelRecord { rec_id, cpu, size: PAGE_SIZE, src_address, dst_address, stale: 0 })
}

/// The copies that the lines of a log announce, and the identity for the next one. Lines that could
/// not be read are passed over.
pub open spec fn log_records(lines: Seq<Option<Seq<char>>>, first_id: u64) -> (
    Seq<KernelRecord>,
    u64,
)
    decreases lines.len(),
{
    if lines.len() == 0 {
        (Seq::empty(), first_id)
    } else {
        let (records, id) = log_records(lines.drop_last(), first_id);
        match lines.last() {
            Some(line) => match line_record(line, id) {
                Some(record) => (records.push(record), id.wrapping_add(1)),
                None => (records, id),
            },
            None => (records, id),
        }
    }
}

/// Reads the lines of the kernel log; a line that could not be read is none.
pub fn read_kernel_log(lines: &Vec<Option<String>>, next_id: &mut u64) -> (r: Vec<KernelRecord>)
    ensures
        (r@, *final(next_id)) == log_records(kernel_log::line_texts(lines@), *old(next_id)),
{
    let mut records: Vec<KernelRecord> = Vec::new();
    let ghost texts = kernel_log::line_texts(lines@);
    let mut i: usize = 0;
    assert(texts.take(0) =~= Seq::<Option<Seq<char>>>::empty());
    while i < lines.len()
        invariant
            i <= lines@.len(),
            texts == kernel_log::line_texts(lines@),
            (records@, *next_id) == log_records(texts.take(i as int), *old(next_id)),
        decreases lines.len() - i,
    {
        assert(texts.take(i + 1).drop_last() =~= texts.take(i as int));
        if let Some(line) = &lines[i] {
            if let Some(record) = parse_kernel_line(line.as_str(), next_id) {
                records.push(record);
            }
        }
        i += 1;
    }
    assert(texts.take(i as int) =~= texts);
    records
}

/// Holds of the copies of a processor.
pub open spec fn of_cpu(cpu: u8) -> spec_fn(KernelRecord) -> bool {
    |r: KernelRecord| r.cpu == cpu
}

/// The copies of a processor, in their order.
pub fn records_of_cpu(records: &Vec<KernelRecord>, cpu: u8) -> (r: Vec<KernelRecord>)
    ensures
        r@ == records@.filter(of_cpu(cpu)),
{
    let mut found: Vec<KernelRecord> = Vec::new();
    let ghost p = of_cpu(cpu);
    let mut i: usize = 0;
    proof {
        reveal(Seq::filter);
        assert(records@.take(0) =~= Seq::<KernelRecord>::empty());
    }
    while i < records.len()
        invariant
            i <= records@.len(),
            p == of_cpu(cpu),
            found@ == records@.take(i as int).filter(p),
        decreases records.len() - i,
    {
        proof {
            reveal(Seq::filter);
            assert(records@.take(i + 1).drop_last() =~= records@.take(i as int));
        }
        if records[i].cpu == cpu {
            found.push(records[i]);
        }
        i += 1;
    }
    assert(records@.take(i as int) =~= records@);
    found
}

/// Whether a file of a directory is a trace.
pub fn is_trace_file(name: &str) -> (r: bool)
    ensures
        r == "log.txt"@.is_prefix_of(name@),
{
    text::starts_with(name, "log.txt")
}

/// The name of the file of a report.
pub fn debug_file_name(cpu: u8) -> (r: String)
    ensures
        r@ == "debug_cpu_"@ + text::decimal_digits(cpu as nat) + ".log"@,
{
    let mut r = String::new();
    r.append("debug_cpu_");
    r.append(text::decimal(cpu as u64).as_str());
    r.append(".log");
    r
}

/// The progress with what its records announce in their place.
pub open spec fn announced_progress<R: WindowRecord>(p: Progress<R>) -> Progress<Announcement> {
    Progress {
        active: p.active,
        events: p.events,
        window: copy_window::announced_window(p.window),
        log: copy_window::announced_log(p.log),
    }
}

proof fn lemma_announced_starting<R: WindowRecord>(
    copies: Seq<Copying>,
    access: LogRecord,
    window: Seq<R>,
    idx: usize,
)
    ensures
        starting(copies, access, copy_window::announced_window(window), idx) == starting(
            copies,
            access,
            window,
            idx,
        ),
    decreases window.len(),
{
    if window.len() > 0 {
        let rest = window.skip(1);
        assert(copy_window::announced_window(window).skip(1) =~= copy_window::announced_window(
            rest,
        ));
        let a = window[0].announced();
        let m = started(copies, a.rec_id, 0);
        lemma_announced_starting(copies, access, rest, idx);
        lemma_announced_starting(copies.push(new_copy(access, a, idx)), access, rest, idx);
        lemma_announced_starting(
            copies.update(m, restarted(copies[m], access, idx)),
            access,
            rest,
            idx,
        );
    }
}

/// Processing a trace and reading what the records announce can be exchanged.
pub proof fn lemma_announced_progress<R: WindowRecord>(
    p: Progress<R>,
    history: Seq<LogRecord>,
    k: int,
)
    ensures
        progress(announced_progress(p), history, k) == announced_progress(progress(p, history, k)),
    decreases k,
{
    if k > 0 {
        lemma_announced_progress(p, history, k - 1);
        let q = progress(p, history, k - 1);
        let access = history[k - 1];
        let idx = (k - 1) as usize;
        let m = continued(q.active, access, 0);
        if m < q.active.len() {
            copy_window::lemma_announced_completion(q.window, q.log, q.active[m].rec_id);
        } else {
            lemma_announced_starting(q.active, access, q.window, idx);
        }
    }
}

pub(crate) proof fn lemma_continued(copies: Seq<Copying>, access: LogRecord, k: int)
    requires
        0 <= k <= copies.len(),
    ensures
        k <= continued(copies, access, k) <= copies.len(),
        continued(copies, access, k) < copies.len() ==> continues(
            access,
            copies[continued(copies, access, k)],
        ),
        forall|i: int|
            k <= i < continued(copies, access, k) ==> !continues(access, #[trigger] copies[i]),
    decreases copies.len() - k,
{
    if k < copies.len() && !continues(access, copies[k]) {
        lemma_continued(copies, access, k + 1);
    }
}

pub(crate) proof fn lemma_started(copies: Seq<Copying>, rec_id: u64, k: int)
    requires
        0 <= k <= copies.len(),
    ensures
        k <= started(copies, rec_id, k) <= copies.len(),
        started(copies, rec_id, k) < copies.len() ==> copies[started(copies, rec_id, k)].rec_id
            == rec_id,
        forall|i: int|
            k <= i < started(copies, rec_id, k) ==> (#[trigger] copies[i]).rec_id != rec_id,
    decreases copies.len() - k,
{
    if k < copies.len() && copies[k].rec_id != rec_id {
        lemma_started(copies, rec_id, k + 1);
    }
}

} // verus!
