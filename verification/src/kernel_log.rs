//! The kernel log of page copies: which lines announce a copy, and what they say.
use crate::copy_window;
use crate::copy_window::{Announcement, KernelLine};
use crate::pattern;
use crate::pattern::Pattern;
use crate::text;
use vstd::prelude::*;

verus! {

/// A line that announces a copy. The groups are the command, the processor, the direction and the
/// addresses that the copy goes from and to.
pub const KERNEL_LOG_PATTERN: &'static str =
    r#"([^\s]+)\s+\[(\d+)\].*rowclone_(read|write):\s+\[RC\]\s+(0x[0-9a-fA-F]+)\s+(0x[0-9a-fA-F]+)"#;

/// The number of bytes of a page, which is what a copy moves.
pub const PAGE_SIZE: u64 = 4096;

/// What the groups of a line say of a copy. A read goes from the kernel to the user, a write from
/// the user to the kernel.
#[derive(Clone, Copy, PartialEq, Eq, Structural, Debug)]
pub struct ParsedCopy {
    pub rec_id: u64,
    pub cpu: u8,
    pub operation: char,
    pub kernel_address: u64,
    pub user_address: u64,
}

/// The copy that the groups of a line announce, and the identity for the next one. An identity is
/// used up by every line with two addresses, also when its processor number is out of range.
pub open spec fn parsed_copy(groups: Seq<Seq<char>>, next_id: u64) -> (Option<ParsedCopy>, u64) {
    match (text::hex_address(groups[3]), text::hex_address(groups[4])) {
        (Some(src), Some(dst)) => {
            let read = groups[2] == "read"@;
            let copy = match text::unsigned(groups[1], 10, 255) {
                Some(cpu) => Some(
                    ParsedCopy {
                        rec_id: next_id,
                        cpu: cpu as u8,
                        operation: if read {
                            'r'
                        } else {
                            'w'
                        },
                        kernel_address: if read {
                            src as u64
                        } else {
                            dst as u64
                        },
                        user_address: if read {
                            dst as u64
                        } else {
                            src as u64
                        },
                    },
                ),
                None => None,
            };
            (copy, next_id.wrapping_add(1))
        },
        _ => (None, next_id),
    }
}

/// The copy that a line announces, and the identity for the next one.
pub open spec fn line_copy(source: Seq<char>, line: Seq<char>, next_id: u64) -> (
    Option<ParsedCopy>,
    u64,
) {
    match pattern::regex_groups(source, line) {
        Some(groups) => parsed_copy(groups, next_id),
        None => (None, next_id),
    }
}

/// The address that an operation copies from: the kernel's for a read, the user's for a write.
pub open spec fn copy_source(operation: char, kernel_address: u64, user_address: u64) -> Option<
    u64,
> {
    if operation == 'r' {
        Some(kernel_address)
    } else if operation == 'w' {
        Some(user_address)
    } else {
        None
    }
}

/// The address that an operation copies to: the kernel's for a write, else the user's.
pub open spec fn copy_target(operation: char, kernel_address: u64, user_address: u64) -> u64 {
    if operation == 'w' {
        kernel_address
    } else {
        user_address
    }
}

/// What a parsed copy announces.
pub open spec fn announcement(copy: ParsedCopy) -> Announcement {
    Announcement {
        rec_id: copy.rec_id,
        cpu: copy.cpu,
        size: PAGE_SIZE,
        source: copy_source(copy.operation, copy.kernel_address, copy.user_address),
        target: copy_target(copy.operation, copy.kernel_address, copy.user_address),
        stale: 0,
    }
}

/// The characters of the lines of a log; none for a line that could not be read.
pub open spec fn line_texts(lines: Seq<Option<String>>) -> Seq<Option<Seq<char>>> {
    Seq::new(
        lines.len(),
        |i: int|
            match lines[i] {
                Some(line) => Some(line@),
                None => None,
            },
    )
}

/// What a line announces, and the identity for the next copy.
pub open spec fn line_announces(source: Seq<char>, line: Option<Seq<char>>, next_id: u64) -> (
    KernelLine<Announcement>,
    u64,
) {
    match line {
        None => (KernelLine::Unreadable, next_id),
        Some(chars) => {
            let (copy, id) = line_copy(source, chars, next_id);
            match copy {
                Some(copy) => (KernelLine::Record(announcement(copy)), id),
                None => (KernelLine::NotParsed, id),
            }
        },
    }
}

/// What the lines of a log announce, and the identity for the next copy. Identities are given in
/// the order of the lines, from `first_id` on.
pub open spec fn log_announces(
    source: Seq<char>,
    lines: Seq<Option<Seq<char>>>,
    first_id: u64,
) -> (Seq<KernelLine<Announcement>>, u64)
    decreases lines.len(),
{
    if lines.len() == 0 {
        (Seq::empty(), first_id)
    } else {
        let (log, id) = log_announces(source, lines.drop_last(), first_id);
        let (line, next) = line_announces(source, lines.last(), id);
        (log.push(line), next)
    }
}

/// The identity for the next copy after the first `n` lines of a log.
pub open spec fn id_after(
    source: Seq<char>,
    lines: Seq<Option<Seq<char>>>,
    first_id: u64,
    n: int,
) -> u64 {
    log_announces(source, lines.take(n), first_id).1
}

/// The identities for the next copy before each line of a log and behind the last.
pub open spec fn ids(source: Seq<char>, lines: Seq<Option<Seq<char>>>, first_id: u64) -> Seq<u64> {
    Seq::new(lines.len() + 1, |n: int| id_after(source, lines, first_id, n))
}

/// Reads the groups of a line that matches the pattern.
pub fn parse_groups(groups: &Vec<String>, next_id: &mut u64) -> (r: Option<ParsedCopy>)
    requires
        groups@.len() == 5,
    ensures
        (r, *final(next_id)) == parsed_copy(pattern::texts(groups@), *old(next_id)),
{
    let operation = if text::same_text(groups[2].as_str(), "read") {
        'r'
    } else {
        'w'
    };
    let src = match text::parse_hex_address(groups[3].as_str()) {
        Some(a) => a,
        None => {
            return None;
        },
    };
    let dst = match text::parse_hex_address(groups[4].as_str()) {
        Some(a) => a,
        None => {
            return None;
        },
    };
    let (kernel_address, user_address) = if operation == 'r' {
        (src, dst)
    } else {
        (dst, src)
    };
    let rec_id = *next_id;
    *next_id = rec_id.wrapping_add(1);
    match text::parse_decimal(groups[1].as_str(), 255) {
        Some(cpu) => Some(
            ParsedCopy { rec_id, cpu: cpu as u8, operation, kernel_address, user_address },
        ),
        None => None,
    }
}

/// Compiles the pattern of the lines that announce a copy.
pub fn kernel_log_pattern() -> (r: Option<Pattern<5>>)
    ensures
        r matches Some(p) ==> p.source() == KERNEL_LOG_PATTERN@,
{
    Pattern::new(KERNEL_LOG_PATTERN)
}

proof fn lemma_records_push<R>(log: Seq<KernelLine<R>>, line: KernelLine<R>)
    ensures
        copy_window::records_of(log.push(line)) == match line {
            KernelLine::Record(r) => copy_window::records_of(log).push(r),
            _ => copy_window::records_of(log),
        },
    decreases log.len(),
{
    reveal_with_fuel(copy_window::records_of, 2);
    let all = log.push(line);
    if log.len() == 0 {
        assert(all.skip(1) =~= Seq::<KernelLine<R>>::empty());
        assert(copy_window::records_of(all) =~= match line {
            KernelLine::Record(r) => copy_window::records_of(log).push(r),
            _ => copy_window::records_of(log),
        });
    } else {
        assert(all.skip(1) =~= log.skip(1).push(line));
        lemma_records_push(log.skip(1), line);
        assert(copy_window::records_of(all) =~= match line {
            KernelLine::Record(r) => copy_window::records_of(log).push(r),
            _ => copy_window::records_of(log),
        });
    }
}

/// Law: the announcements of a log have increasing identities, none below the first and all below
/// the next one, as long as the identities do not run out.
pub proof fn law_log_ids_increase(source: Seq<char>, lines: Seq<Option<Seq<char>>>, first_id: u64)
    requires
        first_id + lines.len() <= u64::MAX,
    ensures
        copy_window::ids_increase(copy_window::records_of(log_announces(source, lines, first_id).0)),
        first_id <= log_announces(source, lines, first_id).1 <= first_id + lines.len(),
        forall|i: int|
            0 <= i < copy_window::records_of(log_announces(source, lines, first_id).0).len() ==> first_id
                <= (#[trigger] copy_window::records_of(log_announces(source, lines, first_id).0)[i]).rec_id
                < log_announces(source, lines, first_id).1,
    decreases lines.len(),
{
    if lines.len() > 0 {
        law_log_ids_increase(source, lines.drop_last(), first_id);
        let (log, id) = log_announces(source, lines.drop_last(), first_id);
        let (line, next) = line_announces(source, lines.last(), id);
        lemma_records_push(log, line);
    }
}

/// Law: no two announcements of a log have one identity, in the first window and behind it.
pub proof fn law_first_window_ids(source: Seq<char>, lines: Seq<Option<Seq<char>>>, first_id: u64)
    requires
        first_id + lines.len() <= u64::MAX,
    ensures
        copy_window::first_filled(
            Seq::<Announcement>::empty(),
            log_announces(source, lines, first_id).0,
        ) matches Some((window, rest)) ==> copy_window::ids_increase(
            copy_window::upcoming(window, rest),
        ),
{
    let log = log_announces(source, lines, first_id).0;
    let none = Seq::<Announcement>::empty();
    law_log_ids_increase(source, lines, first_id);
    copy_window::law_first_window_is_filled(none, log);
    copy_window::law_refill_keeps_announcements(none, log);
    assert(none + copy_window::records_of(log) =~= copy_window::records_of(log));
}

/// Law: a line with a command, a processor, a direction and two addresses announces that the
/// processor copies a page of 4096 bytes from the first address to the second, whichever the
/// direction; a read goes from the kernel's address to the user's, and a write the other way. It
/// takes the next identity.
pub proof fn law_line_announces(
    source: Seq<char>,
    line: Seq<char>,
    groups: Seq<Seq<char>>,
    cpu: u8,
    src: u64,
    dst: u64,
    next_id: u64,
)
    requires
        pattern::regex_groups(source, line) == Some(groups),
        groups.len() == 5,
        groups[1] == text::decimal_digits(cpu as nat),
        groups[3] == text::address_text(src),
        groups[4] == text::address_text(dst),
    ensures
        line_announces(source, Some(line), next_id) == (
            KernelLine::Record(
                Announcement {
                    rec_id: next_id,
                    cpu,
                    size: 4096,
                    source: Some(src),
                    target: dst,
                    stale: 0,
                },
            ),
            next_id.wrapping_add(1),
        ),
        line_copy(source, line, next_id) == (
            Some(
                if groups[2] == "read"@ {
                    ParsedCopy {
                        rec_id: next_id,
                        cpu,
                        operation: 'r',
                        kernel_address: src,
                        user_address: dst,
                    }
                } else {
                    ParsedCopy {
                        rec_id: next_id,
                        cpu,
                        operation: 'w',
                        kernel_address: dst,
                        user_address: src,
                    }
                },
            ),
            next_id.wrapping_add(1),
        ),
{
    text::law_decimal_round_trip(cpu as nat, 255);
    text::law_address_round_trip(src);
    text::law_address_round_trip(dst);
}

/// Law: a line announces nothing that does not match, or of which an address cannot be read or the
/// processor is not a number below 256; in the last case alone it uses up an identity.
pub proof fn law_line_announces_nothing(source: Seq<char>, line: Seq<char>, next_id: u64)
    ensures
        line_announces(source, None, next_id) == (KernelLine::<Announcement>::Unreadable, next_id),
        match pattern::regex_groups(source, line) {
            None => line_announces(source, Some(line), next_id) == (
                KernelLine::<Announcement>::NotParsed,
                next_id,
            ),
            Some(groups) => {
                &&& text::hex_address(groups[3]) is None || text::hex_address(groups[4]) is None
                    ==> line_announces(source, Some(line), next_id) == (
                    KernelLine::<Announcement>::NotParsed,
                    next_id,
                )
                &&& text::hex_address(groups[3]) is Some && text::hex_address(groups[4]) is Some
                    && text::unsigned(groups[1], 10, 255) is None ==> line_announces(
                    source,
                    Some(line),
                    next_id,
                ) == (KernelLine::<Announcement>::NotParsed, next_id.wrapping_add(1))
            },
        },
{
}

/// Law: each line of a log announces its copy whatever the others are, in the order of the lines,
/// with the identity that those before it leave.
pub proof fn law_log_lines(
    source: Seq<char>,
    a: Seq<Option<Seq<char>>>,
    b: Seq<Option<Seq<char>>>,
    first_id: u64,
)
    ensures
        ({
            let (log, id) = log_announces(source, a, first_id);
            let (more, next) = log_announces(source, b, id);
            log_announces(source, a + b, first_id) == (log + more, next)
        }),
        b.len() == 1 ==> log_announces(source, b, first_id) == (
            seq![line_announces(source, b[0], first_id).0],
            line_announces(source, b[0], first_id).1,
        ),
        log_announces(source, a, first_id).0.len() == a.len(),
    decreases b.len(), a.len(),
{
    let (log, id) = log_announces(source, a, first_id);
    if b.len() == 0 {
        assert(a + b =~= a);
        assert(log + Seq::<KernelLine<Announcement>>::empty() =~= log);
        if a.len() > 0 {
            law_log_lines(source, a.drop_last(), b, first_id);
        }
    } else {
        law_log_lines(source, a, b.drop_last(), first_id);
        assert((a + b).drop_last() =~= a + b.drop_last());
        let (more, next) = log_announces(source, b.drop_last(), id);
        let line = line_announces(source, b.last(), next).0;
        assert((log + more).push(line) =~= log + more.push(line));
        if b.len() == 1 {
            assert(b.drop_last() =~= Seq::<Option<Seq<char>>>::empty());
            assert(log_announces(source, b.drop_last(), first_id) == (
                Seq::<KernelLine<Announcement>>::empty(),
                first_id,
            ));
            assert(Seq::<KernelLine<Announcement>>::empty().push(
                line_announces(source, b[0], first_id).0,
            ) =~= seq![line_announces(source, b[0], first_id).0]);
        }
    }
}

/// Law: what a line announces is what its groups are read as, whatever form the numbers have.
pub proof fn law_line_values(source: Seq<char>, line: Seq<char>, next_id: u64)
    ensures
        line_copy(source, line, next_id).0 matches Some(copy) ==> {
            &&& pattern::regex_groups(source, line) matches Some(groups)
            &&& copy.rec_id == next_id
            &&& text::unsigned(groups[1], 10, 255) == Some(copy.cpu as nat)
            &&& copy.operation == (if groups[2] == "read"@ {
                'r'
            } else {
                'w'
            })
            &&& text::hex_address(groups[3]) == Some(
                (if copy.operation == 'r' {
                    copy.kernel_address
                } else {
                    copy.user_address
                }) as nat,
            )
            &&& text::hex_address(groups[4]) == Some(
                (if copy.operation == 'r' {
                    copy.user_address
                } else {
                    copy.kernel_address
                }) as nat,
            )
        },
{
}

/// Law: the identities for the next copy start with the first one, and each line leads from the one
/// before it to the one behind it.
pub proof fn law_ids(source: Seq<char>, lines: Seq<Option<Seq<char>>>, first_id: u64, n: int)
    requires
        0 <= n < lines.len(),
    ensures
        ids(source, lines, first_id).len() == lines.len() + 1,
        ids(source, lines, first_id)[0] == first_id,
        id_after(source, lines, first_id, 0) == first_id,
        ids(source, lines, first_id)[n] == id_after(source, lines, first_id, n),
        id_after(source, lines, first_id, n + 1) == line_announces(
            source,
            lines[n],
            id_after(source, lines, first_id, n),
        ).1,
        ids(source, lines, first_id)[n + 1] == id_after(source, lines, first_id, n + 1),
{
    assert(lines.take(0) =~= Seq::<Option<Seq<char>>>::empty());
    assert(lines.take(n + 1).drop_last() =~= lines.take(n));
}

/// Law: the texts of the lines of a log are those of all its lines, in their places.
pub proof fn law_line_texts(lines: Seq<Option<String>>, i: int)
    requires
        0 <= i < lines.len(),
    ensures
        line_texts(lines).len() == lines.len(),
        match lines[i] {
            Some(line) => line_texts(lines)[i] == Some(line@),
            None => line_texts(lines)[i] is None,
        },
{
}

} // verus!
