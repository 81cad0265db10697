//! The entries of the processed traces, and the lines that they are written as.
use crate::log_parser::LogRecord;
use crate::text;
use vstd::prelude::*;
use vstd::string::*;

verus! {

/// A load or a store of one processor.
#[derive(Clone, Copy, PartialEq, Eq, Structural, Debug)]
pub struct MemRecord {
    pub cpu: usize,
    pub insn_count: u64,
    pub address: u64,
    pub store: bool,
}

/// A row copy that replaces the loads and stores of a page copy.
#[derive(Clone, Copy, PartialEq, Eq, Structural, Debug)]
pub struct RowcloneRecord {
    pub cpu: usize,
    pub insn_count: u64,
    pub from: u64,
    pub to: u64,
}

/// One entry of a processed trace.
#[derive(Clone, Copy, PartialEq, Eq, Structural, Debug)]
pub enum MemoryAccess {
    Regular(MemRecord),
    Rowclone(RowcloneRecord),
}

/// What the processed trace keeps of a record.
pub open spec fn mem_record(access: LogRecord) -> MemRecord {
    MemRecord {
        cpu: access.cpu as usize,
        insn_count: access.insn_count,
        address: access.address,
        store: access.store == 1,
    }
}

impl MemRecord {
    /// The entry of the processed trace for a record.
    pub fn of(access: &LogRecord) -> (r: MemRecord)
        ensures
            r == mem_record(*access),
    {
        MemRecord {
            cpu: access.cpu as usize,
            insn_count: access.insn_count,
            address: access.address,
            store: access.store == 1,
        }
    }
}

/// The words of the line of an entry: the processor, the instruction count, a letter and the
/// address or the two addresses. The letter is `L` for a load, `S` for a store and `R` for a row
/// copy.
pub open spec fn fields(access: MemoryAccess) -> Seq<Seq<char>> {
    match access {
        MemoryAccess::Regular(mem) => seq![
            text::decimal_digits(mem.cpu as nat),
            text::decimal_digits(mem.insn_count as nat),
            seq![
                if mem.store {
                    'S'
                } else {
                    'L'
                },
            ],
            text::address_text(mem.address),
        ],
        MemoryAccess::Rowclone(rc) => seq![
            text::decimal_digits(rc.cpu as nat),
            text::decimal_digits(rc.insn_count as nat),
            seq!['R'],
            text::address_text(rc.from),
            text::address_text(rc.to),
        ],
    }
}

/// The entry that the words of a line say, if they say one.
pub open spec fn entry_of(words: Seq<Seq<char>>) -> Option<MemoryAccess> {
    if words.len() < 4 || words[2].len() != 1 {
        None
    } else {
        match (
            text::unsigned(words[0], 10, usize::MAX as nat),
            text::unsigned(words[1], 10, u64::MAX as nat),
            text::hex_address(words[3]),
        ) {
            (Some(cpu), Some(insn_count), Some(first)) => {
                let letter = words[2][0];
                if words.len() == 4 && (letter == 'L' || letter == 'S') {
                    Some(
                        MemoryAccess::Regular(
                            MemRecord {
                                cpu: cpu as usize,
                                insn_count: insn_count as u64,
                                address: first as u64,
                                store: letter == 'S',
                            },
                        ),
                    )
                } else if words.len() == 5 && letter == 'R' {
                    match text::hex_address(words[4]) {
                        Some(to) => Some(
                            MemoryAccess::Rowclone(
                                RowcloneRecord {
                                    cpu: cpu as usize,
                                    insn_count: insn_count as u64,
                                    from: first as u64,
                                    to: to as u64,
                                },
                            ),
                        ),
                        None => None,
                    }
                } else {
                    None
                }
            },
            _ => None,
        }
    }
}

proof fn lemma_joined_fields(access: MemoryAccess)
    ensures
        ({
            let f = fields(access);
            let s = seq![' '];
            text::joined(f) == match access {
                MemoryAccess::Regular(_) => f[0] + s + f[1] + s + f[2] + s + f[3],
                MemoryAccess::Rowclone(_) => f[0] + s + f[1] + s + f[2] + s + f[3] + s + f[4],
            }
        }),
{
    reveal_with_fuel(text::joined, 6);
    let f = fields(access);
    let s = seq![' '];
    assert(f.skip(1).skip(1) =~= f.skip(2));
    assert(f.skip(2).skip(1) =~= f.skip(3));
    match access {
        MemoryAccess::Regular(_) => {
            assert(text::joined(f) =~= f[0] + s + f[1] + s + f[2] + s + f[3]);
        },
        MemoryAccess::Rowclone(_) => {
            assert(f.skip(3).skip(1) =~= f.skip(4));
            assert(text::joined(f) =~= f[0] + s + f[1] + s + f[2] + s + f[3] + s + f[4]);
        },
    }
}

impl MemoryAccess {
    /// The line of the entry.
    pub fn to_line(&self) -> (r: String)
        ensures
            r@ == text::joined(fields(*self)),
    {
        let (cpu, insn_count, letter, first) = match self {
            MemoryAccess::Regular(mem) => (
                mem.cpu,
                mem.insn_count,
                if mem.store {
                    'S'
                } else {
                    'L'
                },
                mem.address,
            ),
            MemoryAccess::Rowclone(rc) => (rc.cpu, rc.insn_count, 'R', rc.from),
        };
        let mut r = text::decimal(cpu as u64);
        r.push(' ');
        r.append(text::decimal(insn_count).as_str());
        r.push(' ');
        r.push(letter);
        r.push(' ');
        r.append(text::address(first).as_str());
        if let MemoryAccess::Rowclone(rc) = self {
            r.push(' ');
            r.append(text::address(rc.to).as_str());
        }
        proof {
            lemma_joined_fields(*self);
            assert(r@ =~= text::joined(fields(*self)));
        }
        r
    }

    /// Reads the line of an entry.
    pub fn parse(line: &str) -> (r: Option<MemoryAccess>)
        ensures
            r == entry_of(text::words(line@)),
    {
        let parts = text::split_words(line);
        let ghost words = text::words(line@);
        assert(words.len() == parts@.len());
        assert forall|i: int| 0 <= i < words.len() implies #[trigger] words[i] == parts@[i]@ by {
            assert(text::word_views(parts@)[i] == parts@[i]@);
        }
        if parts.len() < 4 || parts[2].len() != 1 {
            return None;
        }
        let cpu = text::parse_unsigned(&parts[0], 10, usize::MAX as u64);
        let insn_count = text::parse_unsigned(&parts[1], 10, u64::MAX);
        let first = text::parse_hex_chars(&parts[3]);
        match (cpu, insn_count, first) {
            (Some(cpu), Some(insn_count), Some(first)) => {
                let cpu = cpu as usize;
                let letter = parts[2][0];
                if parts.len() == 4 && (letter == 'L' || letter == 'S') {
                    Some(
                        MemoryAccess::Regular(
                            MemRecord { cpu, insn_count, address: first, store: letter == 'S' },
                        ),
                    )
                } else if parts.len() == 5 && letter == 'R' {
                    match text::parse_hex_chars(&parts[4]) {
                        Some(to) => Some(
                            MemoryAccess::Rowclone(
                                RowcloneRecord { cpu, insn_count, from: first, to },
                            ),
                        ),
                        None => None,
                    }
                } else {
                    None
                }
            },
            _ => None,
        }
    }
}

/// Law: reading back the line of an entry gives that entry.
pub proof fn law_line_round_trip(access: MemoryAccess)
    ensures
        entry_of(text::words(text::joined(fields(access)))) == Some(access),
{
    let f = fields(access);
    let (cpu, insn_count) = match access {
        MemoryAccess::Regular(mem) => (mem.cpu, mem.insn_count),
        MemoryAccess::Rowclone(rc) => (rc.cpu, rc.insn_count),
    };
    text::lemma_decimal_is_word(cpu as nat);
    text::lemma_decimal_is_word(insn_count as nat);
    text::law_decimal_round_trip(cpu as nat, usize::MAX as nat);
    text::law_decimal_round_trip(insn_count as nat, u64::MAX as nat);
    match access {
        MemoryAccess::Regular(mem) => {
            text::lemma_address_is_word(mem.address);
            text::law_address_round_trip(mem.address);
        },
        MemoryAccess::Rowclone(rc) => {
            text::lemma_address_is_word(rc.from);
            text::lemma_address_is_word(rc.to);
            text::law_address_round_trip(rc.from);
            text::law_address_round_trip(rc.to);
        },
    }
    assert forall|i: int| 0 <= i < f.len() implies text::is_word(#[trigger] f[i]) by {}
    text::law_words_of_joined(f);
}

/// Law: the entry for a record has its processor, instruction count and address, and is a store if
/// and only if the record is one; records that differ in one of these have different entries.
pub proof fn law_entry_of_record(a: LogRecord, b: LogRecord)
    ensures
        mem_record(a).cpu == a.cpu,
        mem_record(a).address == a.address,
        mem_record(a).insn_count == a.insn_count,
        mem_record(a).store <==> a.store == 1,
        mem_record(a) == mem_record(b) <==> a.cpu == b.cpu && a.address == b.address
            && a.insn_count == b.insn_count && (a.store == 1 <==> b.store == 1),
{
}

/// Law: a line of words is an entry if and only if it has four words, the third `L` or `S`, or five,
/// the third `R`, and its numbers and addresses can be read; the entry has what they say.
pub proof fn law_entry_read(words: Seq<Seq<char>>)
    ensures
        match entry_of(words) {
            Some(MemoryAccess::Regular(mem)) => {
                &&& words.len() == 4
                &&& words[2] == (if mem.store {
                    seq!['S']
                } else {
                    seq!['L']
                })
                &&& text::unsigned(words[0], 10, usize::MAX as nat) == Some(mem.cpu as nat)
                &&& text::unsigned(words[1], 10, u64::MAX as nat) == Some(mem.insn_count as nat)
                &&& text::hex_address(words[3]) == Some(mem.address as nat)
            },
            Some(MemoryAccess::Rowclone(rc)) => {
                &&& words.len() == 5
                &&& words[2] == seq!['R']
                &&& text::unsigned(words[0], 10, usize::MAX as nat) == Some(rc.cpu as nat)
                &&& text::unsigned(words[1], 10, u64::MAX as nat) == Some(rc.insn_count as nat)
                &&& text::hex_address(words[3]) == Some(rc.from as nat)
                &&& text::hex_address(words[4]) == Some(rc.to as nat)
            },
            None => {
                ||| words.len() != 4 && words.len() != 5
                ||| words.len() == 4 && words[2] != seq!['L'] && words[2] != seq!['S']
                ||| words.len() == 5 && (words[2] != seq!['R'] || text::hex_address(words[4]) is None)
                ||| text::unsigned(words[0], 10, usize::MAX as nat) is None
                ||| text::unsigned(words[1], 10, u64::MAX as nat) is None
                ||| text::hex_address(words[3]) is None
            },
        },
{
    if words.len() >= 3 && words[2].len() == 1 {
        assert(words[2] =~= seq![words[2][0]]);
    }
}

} // verus!
