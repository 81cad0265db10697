//! Counts how many of the copies of a kernel log could be done as row copies.
use crate::pattern;
use crate::pattern::Pattern;
use crate::text;
use vstd::prelude::*;

verus! {

/// A line that tells of a copy. The second group is the direction, the fourth the size, the sixth
/// the kernel's address and the eighth the user's.
pub const KERNEL_LOG_PATTERN: &'static str =
    r#"N=([^,]+),([rw]),(\d+),(\d+),(0x[0-9a-fA-F]+),(0x[0-9a-fA-F]+),(0x[0-9a-fA-F]+),(0x[0-9a-fA-F]+)"#;

/// The number of bytes of a page.
pub const PAGE_SIZE: u64 = 4096;

/// A copy of the kernel log.
#[derive(Clone, Copy, PartialEq, Eq, Structural, Debug)]
pub struct KernelRecord {
    pub size: u64,
    pub operation: char,
    pub kernel_address: u64,
    pub user_address: u64,
}

/// The number of copies, in all and by what becomes of them.
#[derive(Clone, Copy, PartialEq, Eq, Structural, Debug)]
pub struct Stats {
    pub total: usize,
    pub not4kb: usize,
    pub notaligned: usize,
    pub not_same_subarray: usize,
    pub rowclone: usize,
}

/// What becomes of a copy.
#[derive(Clone, Copy, PartialEq, Eq, Structural, Debug)]
pub enum Kind {
    /// It is not of the size of a page.
    Not4kb,
    /// The user's page is not aligned.
    NotAligned,
    /// The two pages are not in one subarray of the memory.
    NotSameSubarray,
    /// It can be a row copy.
    Rowclone,
}

/// The subarray of an address: seven bits of it, from bit 21 on.
pub open spec fn subarray(a: u64) -> int {
    (a as int / 0x20_0000) % 0x80
}

/// What becomes of a copy.
pub open spec fn kind(record: KernelRecord) -> Kind {
    if record.size != PAGE_SIZE {
        Kind::Not4kb
    } else if record.user_address % PAGE_SIZE != 0 {
        Kind::NotAligned
    } else if subarray(record.user_address) != subarray(record.kernel_address) {
        Kind::NotSameSubarray
    } else {
        Kind::Rowclone
    }
}

/// The number of copies of a kind.
pub open spec fn count_of(stats: Stats, kind: Kind) -> usize {
    match kind {
        Kind::Not4kb => stats.not4kb,
        Kind::NotAligned => stats.notaligned,
        Kind::NotSameSubarray => stats.not_same_subarray,
        Kind::Rowclone => stats.rowclone,
    }
}

/// Whether the numbers are those before one more copy of a kind.
pub open spec fn one_more(before: Stats, after: Stats, kind: Kind) -> bool {
    &&& after.total == before.total + 1
    &&& forall|k: Kind| #[trigger]
        count_of(after, k) == count_of(before, k) + if k == kind {
            1int
        } else {
            0int
        }
}

/// The copy that the groups of a line tell of.
pub open spec fn parsed_record(groups: Seq<Seq<char>>) -> Option<KernelRecord> {
    match (
        text::unsigned(groups[3], 10, u64::MAX as nat),
        text::hex_address(groups[5]),
        text::hex_address(groups[7]),
    ) {
        (Some(size), Some(kernel), Some(user)) => if groups[1].len() > 0 {
            Some(
                KernelRecord {
                    size: size as u64,
                    operation: groups[1][0],
                    kernel_address: kernel as u64,
                    user_address: user as u64,
                },
            )
        } else {
            None
        },
        _ => None,
    }
}

/// The copy that a line tells of.
pub open spec fn line_record(source: Seq<char>, line: Seq<char>) -> Option<KernelRecord> {
    match pattern::regex_groups(source, line) {
        Some(groups) => parsed_record(groups),
        None => None,
    }
}

/// The copies that the lines of a log tell of.
pub open spec fn log_records(source: Seq<char>, lines: Seq<Seq<char>>) -> Seq<KernelRecord>
    decreases lines.len(),
{
    if lines.len() == 0 {
        Seq::empty()
    } else {
        let before = log_records(source, lines.drop_last());
        match line_record(source, lines.last()) {
            Some(record) => before.push(record),
            None => before,
        }
    }
}

/// The number of copies of a kind.
pub open spec fn of_kind(records: Seq<KernelRecord>, k: Kind) -> nat
    decreases records.len(),
{
    if records.len() == 0 {
        0
    } else {
        of_kind(records.drop_last(), k) + if kind(records.last()) == k {
            1nat
        } else {
            0nat
        }
    }
}

/// Whether the numbers are those of some copies.
pub open spec fn stats_of(stats: Stats, records: Seq<KernelRecord>) -> bool {
    &&& stats.total == records.len()
    &&& forall|k: Kind| #[trigger] count_of(stats, k) == of_kind(records, k)
}

/// Reads the groups of a line that matches the pattern.
pub fn parse_groups(groups: &Vec<String>) -> (r: Option<KernelRecord>)
    requires
        groups@.len() == 8,
    ensures
        r == parsed_record(pattern::texts(groups@)),
{
    let size = match text::parse_decimal(groups[3].as_str(), u64::MAX) {
        Some(n) => n,
        None => {
            return None;
        },
    };
    let direction = text::to_chars(groups[1].as_str());
    if direction.len() == 0 {
        return None;
    }
    let kernel_address = match text::parse_hex_address(groups[5].as_str()) {
        Some(a) => a,
        None => {
            return None;
        },
    };
    let user_address = match text::parse_hex_address(groups[7].as_str()) {
        Some(a) => a,
        None => {
            return None;
        },
    };
    Some(KernelRecord { size, operation: direction[0], kernel_address, user_address })
}

/// Compiles the pattern of the lines that tell of a copy.
pub fn kernel_log_pattern() -> (r: Option<Pattern<8>>)
    ensures
        r matches Some(p) ==> p.source() == KERNEL_LOG_PATTERN@,
{
    Pattern::new(KERNEL_LOG_PATTERN)
}

/// Reads a line of the kernel log.
pub fn parse_kernel_line(pattern: &Pattern<8>, line: &str) -> (r: Option<KernelRecord>)
    ensures
        r == line_record(pattern.source(), line@),
{
    match pattern.groups(line) {
        Some(groups) => parse_groups(&groups),
        None => None,
    }
}

/// Whether two addresses are in one subarray of the memory.
pub fn address_in_same_subarray(a: u64, b: u64) -> (r: bool)
    ensures
        r == (subarray(a) == subarray(b)),
{
    let subarray_mask: u64 = 0x7F;
    let a_subarray = (a >> 21) & subarray_mask;
    let b_subarray = (b >> 21) & subarray_mask;
    proof {
        assert((a >> 21) & 0x7F == (a / 0x20_0000) % 0x80) by (bit_vector);
        assert((b >> 21) & 0x7F == (b / 0x20_0000) % 0x80) by (bit_vector);
    }
    a_subarray == b_subarray
}

/// Counts a copy as what becomes of it.
pub fn filter_non_rowclone(record: KernelRecord, stats: &mut Stats)
    requires
        old(stats).total < usize::MAX,
        count_of(*old(stats), kind(record)) < usize::MAX,
    ensures
        one_more(*old(stats), *final(stats), kind(record)),
{
    let user = record.user_address;
    assert(user & 0xFFF == user % 0x1000) by (bit_vector);
    stats.total = stats.total + 1;
    if record.size != PAGE_SIZE {
        stats.not4kb = stats.not4kb + 1;
    } else if (record.user_address & (PAGE_SIZE - 1)) != 0 {
        stats.notaligned = stats.notaligned + 1;
    } else if !address_in_same_subarray(record.user_address, record.kernel_address) {
        stats.not_same_subarray = stats.not_same_subarray + 1;
    } else {
        stats.rowclone = stats.rowclone + 1;
    }
}

/// Counts the copies of a log.
pub fn count_copies(pattern: &Pattern<8>, lines: &Vec<String>) -> (r: Stats)
    ensures
        stats_of(r, log_records(pattern.source(), pattern::texts(lines@))),
{
    let mut stats = Stats {
        total: 0,
        not4kb: 0,
        notaligned: 0,
        not_same_subarray: 0,
        rowclone: 0,
    };
    let ghost texts = pattern::texts(lines@);
    let mut i: usize = 0;
    proof {
        assert(texts.take(0) =~= Seq::<Seq<char>>::empty());
        assert forall|k: Kind| #[trigger] count_of(stats, k) == of_kind(
            log_records(pattern.source(), texts.take(0)),
            k,
        ) by {}
    }
    while i < lines.len()
        invariant
            i <= lines@.len(),
            texts == pattern::texts(lines@),
            stats_of(stats, log_records(pattern.source(), texts.take(i as int))),
            stats.total <= i,
        decreases lines.len() - i,
    {
        let ghost before = log_records(pattern.source(), texts.take(i as int));
        assert(texts.take(i + 1).drop_last() =~= texts.take(i as int));
        if let Some(record) = parse_kernel_line(pattern, lines[i].as_str()) {
            proof {
                lemma_of_kind_bound(before, kind(record));
                assert(count_of(stats, kind(record)) == of_kind(before, kind(record)));
                assert(before.push(record).drop_last() =~= before);
            }
            let ghost old_stats = stats;
            filter_non_rowclone(record, &mut stats);
            assert forall|k: Kind| #[trigger] count_of(stats, k) == of_kind(
                before.push(record),
                k,
            ) by {
                assert(count_of(old_stats, k) == of_kind(before, k));
            }
        }
        i += 1;
    }
    assert(texts.take(i as int) =~= texts);
    stats
}

proof fn lemma_of_kind_bound(records: Seq<KernelRecord>, k: Kind)
    ensures
        of_kind(records, k) <= records.len(),
    decreases records.len(),
{
    if records.len() > 0 {
        lemma_of_kind_bound(records.drop_last(), k);
    }
}

proof fn lemma_kinds(records: Seq<KernelRecord>)
    ensures
        records.len() == of_kind(records, Kind::Not4kb) + of_kind(records, Kind::NotAligned)
            + of_kind(records, Kind::NotSameSubarray) + of_kind(records, Kind::Rowclone),
    decreases records.len(),
{
    if records.len() > 0 {
        lemma_kinds(records.drop_last());
    }
}

/// Law: every copy is counted as exactly one kind.
pub proof fn law_kinds_add_up(stats: Stats, records: Seq<KernelRecord>)
    requires
        stats_of(stats, records),
    ensures
        stats.total == stats.not4kb + stats.notaligned + stats.not_same_subarray + stats.rowclone,
{
    lemma_kinds(records);
    assert(count_of(stats, Kind::Not4kb) == of_kind(records, Kind::Not4kb));
    assert(count_of(stats, Kind::NotAligned) == of_kind(records, Kind::NotAligned));
    assert(count_of(stats, Kind::NotSameSubarray) == of_kind(records, Kind::NotSameSubarray));
    assert(count_of(stats, Kind::Rowclone) == of_kind(records, Kind::Rowclone));
}

/// Law: two pages within one stretch of 2 MiB are in one subarray, and subarrays repeat every
/// 256 MiB.
pub proof fn law_subarray_layout(a: u64, b: u64)
    ensures
        a / 0x20_0000 == b / 0x20_0000 ==> subarray(a) == subarray(b),
        a + 0x1000_0000 == b ==> subarray(a) == subarray(b),
        subarray(a) == subarray(b) && a / 0x1000_0000 == b / 0x1000_0000 ==> a / 0x20_0000 == b
            / 0x20_0000,
{
}

/// The address of the page with a number.
pub open spec fn page_address(n: nat) -> nat {
    4096 * n
}

/// Whether an address is that of a page of 4096 bytes.
pub open spec fn at_page(address: u64) -> bool {
    exists|n: nat| address == #[trigger] page_address(n)
}

/// The stretches of 2 MiB that a number of stretches of 256 MiB consists of.
pub open spec fn stretches(q: int) -> int {
    128 * q
}

/// Whether two addresses lie a multiple of 128 stretches of 2 MiB apart.
pub open spec fn stretches_apart(a: u64, b: u64) -> bool {
    exists|q: int| a as int / 0x20_0000 - b as int / 0x20_0000 == #[trigger] stretches(q)
}

proof fn lemma_at_page(address: u64)
    ensures
        at_page(address) == (address % 4096 == 0),
{
    if address % 4096 == 0 {
        assert(address == page_address(address as nat / 4096));
    }
    if at_page(address) {
        let n = choose|n: nat| address == #[trigger] page_address(n);
        assert((4096 * n) % 4096 == 0);
    }
}

/// Law: two addresses are in one subarray if and only if they lie a multiple of 128 stretches of
/// 2 MiB apart.
pub proof fn law_same_subarray(a: u64, b: u64)
    ensures
        subarray(a) == subarray(b) <==> stretches_apart(a, b),
{
    let x = a as int / 0x20_0000;
    let y = b as int / 0x20_0000;
    if subarray(a) == subarray(b) {
        assert(x - y == stretches(x / 128 - y / 128));
    }
    if stretches_apart(a, b) {
        let q = choose|q: int| x - y == #[trigger] stretches(q);
        assert(x % 128 == y % 128);
    }
}

/// Law: counting a copy adds one to the total and to one other number, and changes nothing else. It
/// is counted as a row copy only if it is of 4096 bytes, its user address is a multiple of 4096 and
/// both addresses are in one subarray; a copy of another size, else one whose user address is no
/// such multiple, else one between two subarrays is counted as that.
pub proof fn law_counted(before: Stats, after: Stats, record: KernelRecord)
    requires
        one_more(before, after, kind(record)),
    ensures
        after.total == before.total + 1,
        after == (if record.size != 4096 {
            Stats { total: after.total, not4kb: after.not4kb, ..before }
        } else if !at_page(record.user_address) {
            Stats { total: after.total, notaligned: after.notaligned, ..before }
        } else if !stretches_apart(record.user_address, record.kernel_address) {
            Stats { total: after.total, not_same_subarray: after.not_same_subarray, ..before }
        } else {
            Stats { total: after.total, rowclone: after.rowclone, ..before }
        }),
        after.not4kb + after.notaligned + after.not_same_subarray + after.rowclone == before.not4kb
            + before.notaligned + before.not_same_subarray + before.rowclone + 1,
{
    lemma_at_page(record.user_address);
    law_same_subarray(record.user_address, record.kernel_address);
    let k = kind(record);
    assert(count_of(after, Kind::Not4kb) == count_of(before, Kind::Not4kb) + if k == Kind::Not4kb {
        1int
    } else {
        0int
    });
    assert(count_of(after, Kind::NotAligned) == count_of(before, Kind::NotAligned) + if k
        == Kind::NotAligned {
        1int
    } else {
        0int
    });
    assert(count_of(after, Kind::NotSameSubarray) == count_of(before, Kind::NotSameSubarray) + if k
        == Kind::NotSameSubarray {
        1int
    } else {
        0int
    });
    assert(count_of(after, Kind::Rowclone) == count_of(before, Kind::Rowclone) + if k
        == Kind::Rowclone {
        1int
    } else {
        0int
    });
}

/// Holds of the copies of another size than a page.
pub open spec fn of_other_size() -> spec_fn(KernelRecord) -> bool {
    |r: KernelRecord| r.size != 4096
}

/// Holds of the copies of a page whose user address is not that of a page.
pub open spec fn off_page() -> spec_fn(KernelRecord) -> bool {
    |r: KernelRecord| r.size == 4096 && !at_page(r.user_address)
}

/// Holds of the copies between two pages that are not in one subarray.
pub open spec fn between_subarrays() -> spec_fn(KernelRecord) -> bool {
    |r: KernelRecord|
        r.size == 4096 && at_page(r.user_address) && !stretches_apart(
            r.user_address,
            r.kernel_address,
        )
}

/// Holds of the copies that can be row copies.
pub open spec fn possible() -> spec_fn(KernelRecord) -> bool {
    |r: KernelRecord|
        r.size == 4096 && at_page(r.user_address) && stretches_apart(
            r.user_address,
            r.kernel_address,
        )
}

proof fn lemma_counts(records: Seq<KernelRecord>)
    ensures
        of_kind(records, Kind::Not4kb) == records.filter(of_other_size()).len(),
        of_kind(records, Kind::NotAligned) == records.filter(off_page()).len(),
        of_kind(records, Kind::NotSameSubarray) == records.filter(between_subarrays()).len(),
        of_kind(records, Kind::Rowclone) == records.filter(possible()).len(),
    decreases records.len(),
{
    reveal(Seq::filter);
    if records.len() > 0 {
        let r = records.last();
        lemma_counts(records.drop_last());
        lemma_at_page(r.user_address);
        law_same_subarray(r.user_address, r.kernel_address);
    }
}

/// Law: the numbers of a log say how many of its copies there are, how many are of another size than
/// 4096 bytes, how many of the rest have a user address that is no multiple of 4096, how many of
/// the rest go between two subarrays, and how many are left.
pub proof fn law_counts(stats: Stats, records: Seq<KernelRecord>)
    requires
        stats_of(stats, records),
    ensures
        stats.total == records.len(),
        stats.not4kb == records.filter(of_other_size()).len(),
        stats.notaligned == records.filter(off_page()).len(),
        stats.not_same_subarray == records.filter(between_subarrays()).len(),
        stats.rowclone == records.filter(possible()).len(),
{
    lemma_counts(records);
    assert(count_of(stats, Kind::Not4kb) == of_kind(records, Kind::Not4kb));
    assert(count_of(stats, Kind::NotAligned) == of_kind(records, Kind::NotAligned));
    assert(count_of(stats, Kind::NotSameSubarray) == of_kind(records, Kind::NotSameSubarray));
    assert(count_of(stats, Kind::Rowclone) == of_kind(records, Kind::Rowclone));
}

/// Law: a line whose groups are a name, a direction, a number, a size and four addresses tells of a
/// copy of that size in that direction; the second address is the kernel's, the fourth the user's.
pub proof fn law_line_tells(
    source: Seq<char>,
    line: Seq<char>,
    groups: Seq<Seq<char>>,
    size: u64,
    kernel: u64,
    user: u64,
)
    requires
        pattern::regex_groups(source, line) == Some(groups),
        groups.len() == 8,
        groups[1].len() > 0,
        groups[3] == text::decimal_digits(size as nat),
        groups[5] == text::address_text(kernel),
        groups[7] == text::address_text(user),
    ensures
        line_record(source, line) == Some(
            KernelRecord {
                size,
                operation: groups[1][0],
                kernel_address: kernel,
                user_address: user,
            },
        ),
{
    text::law_decimal_round_trip(size as nat, u64::MAX as nat);
    text::law_address_round_trip(kernel);
    text::law_address_round_trip(user);
}

/// Law: a line that does not match, or of which a number cannot be read, tells of nothing.
pub proof fn law_line_tells_nothing(source: Seq<char>, line: Seq<char>)
    ensures
        pattern::regex_groups(source, line) is None ==> line_record(source, line) is None,
        pattern::regex_groups(source, line) matches Some(groups) ==> (groups[1].len() == 0
            || text::unsigned(groups[3], 10, u64::MAX as nat) is None || text::hex_address(
            groups[5],
        ) is None || text::hex_address(groups[7]) is None) ==> line_record(source, line) is None,
{
}

/// Law: each line of a log tells of its copy whatever the others are, in the order of the lines.
pub proof fn law_log_lines(source: Seq<char>, a: Seq<Seq<char>>, b: Seq<Seq<char>>)
    ensures
        log_records(source, a + b) == log_records(source, a) + log_records(source, b),
        forall|line: Seq<char>|
            log_records(source, #[trigger] seq![line]) == match line_record(source, line) {
                Some(record) => seq![record],
                None => Seq::empty(),
            },
    decreases b.len(),
{
    if b.len() == 0 {
        assert(a + b =~= a);
        assert(log_records(source, a + b) =~= log_records(source, a) + log_records(source, b));
    } else {
        law_log_lines(source, a, b.drop_last());
        assert((a + b).drop_last() =~= a + b.drop_last());
        assert(log_records(source, a + b) =~= log_records(source, a) + log_records(source, b));
    }
    assert forall|line: Seq<char>|
        log_records(source, #[trigger] seq![line]) == match line_record(source, line) {
            Some(record) => seq![record],
            None => Seq::empty(),
        } by {
        reveal_with_fuel(log_records, 2);
        assert(seq![line].drop_last() =~= Seq::<Seq<char>>::empty());
        assert(log_records(source, seq![line]) =~= match line_record(source, line) {
            Some(record) => seq![record],
            None => Seq::empty(),
        });
    }
}

/// Law: the copy that a line tells of is what its groups are read as, whatever form the numbers have.
pub proof fn law_line_values(source: Seq<char>, line: Seq<char>)
    ensures
        line_record(source, line) matches Some(record) ==> {
            &&& pattern::regex_groups(source, line) matches Some(groups)
            &&& groups[1].len() > 0 && record.operation == groups[1][0]
            &&& text::unsigned(groups[3], 10, u64::MAX as nat) == Some(record.size as nat)
            &&& text::hex_address(groups[5]) == Some(record.kernel_address as nat)
            &&& text::hex_address(groups[7]) == Some(record.user_address as nat)
        },
{
}

} // verus!
