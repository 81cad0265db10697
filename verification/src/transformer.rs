//! Turns a processed trace into one trace per processor in the format of the Ramulator simulator.
use crate::log_parser::LogRecord;
use crate::memory_access;
use crate::memory_access::{MemRecord, MemoryAccess, RowcloneRecord};
use crate::text;
use vstd::prelude::*;
use vstd::string::*;

verus! {

/// The processor of an entry.
pub open spec fn cpu_of(access: MemoryAccess) -> usize {
    match access {
        MemoryAccess::Regular(mem) => mem.cpu,
        MemoryAccess::Rowclone(rc) => rc.cpu,
    }
}

/// The instruction count of an entry.
pub open spec fn insn_count_of(access: MemoryAccess) -> u64 {
    match access {
        MemoryAccess::Regular(mem) => mem.insn_count,
        MemoryAccess::Rowclone(rc) => rc.insn_count,
    }
}

/// The number of instructions between the entry before and a load or store; none if the counts
/// run backwards.
pub open spec fn mem_bubble(insn_count: u64, prev: u64) -> u64 {
    if insn_count < prev {
        0
    } else {
        (insn_count - prev) as u64
    }
}

/// The number of instructions between the entry before, if there is one, and an entry. For a row
/// copy it is taken modulo 2^64.
pub open spec fn bubble(prev: Option<u64>, access: MemoryAccess) -> u64 {
    let insn_count = insn_count_of(access);
    let base = match prev {
        Some(prev) => prev,
        None => insn_count,
    };
    match access {
        MemoryAccess::Regular(_) => mem_bubble(insn_count, base),
        MemoryAccess::Rowclone(_) => insn_count.wrapping_sub(base),
    }
}

/// The line of a load or store: the instructions before it and the address, with `-1` between
/// them for a store.
pub open spec fn mem_line(bubble: u64, store: bool, address: u64) -> Seq<char> {
    text::decimal_digits(bubble as nat) + (if store {
        " -1 "@
    } else {
        " "@
    }) + text::address_text(address)
}

/// The line of a row copy: the instructions before it and the two addresses.
pub open spec fn rowclone_line(bubble: u64, from: u64, to: u64) -> Seq<char> {
    text::decimal_digits(bubble as nat) + " "@ + text::address_text(from) + " "@
        + text::address_text(to)
}

/// The line of an entry, after the entry before on its processor.
pub open spec fn line(prev: Option<u64>, access: MemoryAccess) -> Seq<char> {
    match access {
        MemoryAccess::Regular(mem) => mem_line(bubble(prev, access), mem.store, mem.address),
        MemoryAccess::Rowclone(rc) => rowclone_line(bubble(prev, access), rc.from, rc.to),
    }
}

/// The entry of the processed trace for a record of the binary trace.
pub fn parse_binary_record(access: &LogRecord) -> (r: MemoryAccess)
    ensures
        r == MemoryAccess::Regular(memory_access::mem_record(*access)),
{
    MemoryAccess::Regular(MemRecord::of(access))
}

/// The line of a load or store.
pub fn ramulator_mem_format(rec: &MemRecord, prev_insn_count: &u64) -> (r: String)
    ensures
        r@ == mem_line(mem_bubble(rec.insn_count, *prev_insn_count), rec.store, rec.address),
{
    let bubble = if rec.insn_count < *prev_insn_count {
        0
    } else {
        rec.insn_count - *prev_insn_count
    };
    let mut r = text::decimal(bubble);
    if rec.store {
        r.append(" -1 ");
    } else {
        r.append(" ");
    }
    r.append(text::address(rec.address).as_str());
    r
}

/// The line of a row copy.
pub fn ramulator_rowclone_format(rc: &RowcloneRecord, prev_insn_count: &u64) -> (r: String)
    ensures
        r@ == rowclone_line(rc.insn_count.wrapping_sub(*prev_insn_count), rc.from, rc.to),
{
    let mut r = text::decimal(rc.insn_count.wrapping_sub(*prev_insn_count));
    r.append(" ");
    r.append(text::address(rc.from).as_str());
    r.append(" ");
    r.append(text::address(rc.to).as_str());
    r
}

/// What is known of each processor while a trace is turned.
pub struct Transformer {
    prev_insn_count: Vec<Option<u64>>,
}

impl View for Transformer {
    type V = Seq<Option<u64>>;

    /// The instruction count of the last entry of each processor, if there was one.
    closed spec fn view(&self) -> Seq<Option<u64>> {
        self.prev_insn_count@
    }
}

impl Transformer {
    /// The state before any entry of some processors.
    pub fn new(cpus: usize) -> (r: Transformer)
        ensures
            r@ == Seq::new(cpus as nat, |i: int| None::<u64>),
    {
        let mut prev_insn_count: Vec<Option<u64>> = Vec::new();
        while prev_insn_count.len() < cpus
            invariant
                prev_insn_count@.len() <= cpus,
                forall|i: int|
                    0 <= i < prev_insn_count@.len() ==> #[trigger] prev_insn_count@[i] is None,
            decreases cpus - prev_insn_count.len(),
        {
            prev_insn_count.push(None);
        }
        let r = Transformer { prev_insn_count };
        assert(r@ =~= Seq::new(cpus as nat, |i: int| None::<u64>));
        r
    }

    /// The number of processors.
    pub fn cpus(&self) -> (r: usize)
        ensures
            r == self@.len(),
    {
        self.prev_insn_count.len()
    }

    /// The line of the next entry, which goes to the trace of its processor.
    pub fn next_line(&mut self, access: &MemoryAccess) -> (r: String)
        requires
            cpu_of(*access) < old(self)@.len(),
        ensures
            r@ == line(old(self)@[cpu_of(*access) as int], *access),
            final(self)@ == old(self)@.update(
                cpu_of(*access) as int,
                Some(insn_count_of(*access)),
            ),
    {
        let (cpu, insn_count) = match access {
            MemoryAccess::Regular(mem) => (mem.cpu, mem.insn_count),
            MemoryAccess::Rowclone(rc) => (rc.cpu, rc.insn_count),
        };
        let prev = match self.prev_insn_count[cpu] {
            Some(prev) => prev,
            None => insn_count,
        };
        let r = match access {
            MemoryAccess::Regular(mem) => ramulator_mem_format(mem, &prev),
            MemoryAccess::Rowclone(rc) => ramulator_rowclone_format(rc, &prev),
        };
        self.prev_insn_count.set(cpu, Some(insn_count));
        r
    }
}

/// The name of the file of a processor's trace.
pub fn trace_file_name(log_dir: &str, cpu: usize) -> (r: String)
    ensures
        r@ == log_dir@ + "/cpu_"@ + text::decimal_digits(cpu as nat) + ".trace"@,
{
    let mut r = String::new();
    r.append(log_dir);
    r.append("/cpu_");
    r.append(text::decimal(cpu as u64).as_str());
    r.append(".trace");
    assert(r@ =~= log_dir@ + "/cpu_"@ + text::decimal_digits(cpu as nat) + ".trace"@);
    r
}

/// The instruction count before entry `k` of a processor, if there is an entry before.
pub open spec fn count_before(accesses: Seq<MemoryAccess>, k: int) -> Option<u64> {
    if k <= 0 {
        None
    } else {
        Some(insn_count_of(accesses[k - 1]))
    }
}

/// The instructions before the first `k` entries of a processor in all.
pub open spec fn bubbles(accesses: Seq<MemoryAccess>, k: int) -> nat
    decreases k,
{
    if k <= 0 {
        0
    } else {
        bubbles(accesses, k - 1) + bubble(count_before(accesses, k - 1), accesses[k - 1]) as nat
    }
}

/// Law: where the instruction counts of a processor do not run backwards, the instructions before
/// its entries add up to the distance between its first and its last entry.
pub proof fn law_bubbles_add_up(accesses: Seq<MemoryAccess>, k: int)
    requires
        0 < k <= accesses.len(),
        forall|i: int, j: int|
            0 <= i <= j < accesses.len() ==> insn_count_of(#[trigger] accesses[i])
                <= insn_count_of(#[trigger] accesses[j]),
    ensures
        bubbles(accesses, k) == insn_count_of(accesses[k - 1]) - insn_count_of(accesses[0]),
    decreases k,
{
    if k == 1 {
        assert(bubbles(accesses, 0) == 0);
    } else {
        law_bubbles_add_up(accesses, k - 1);
        assert(insn_count_of(accesses[k - 2]) <= insn_count_of(accesses[k - 1]));
    }
}

/// Law: the first entry of a processor has no instructions before it.
pub proof fn law_first_bubble(access: MemoryAccess)
    ensures
        bubble(None, access) == 0,
{
}

proof fn lemma_store_mark()
    ensures
        text::is_word("-1"@),
        "-1"@ == seq!['-', '1'],
        " -1 "@ == seq![' '] + "-1"@ + seq![' '],
        " "@ == seq![' '],
{
    reveal_strlit("-1");
    reveal_strlit(" -1 ");
    reveal_strlit(" ");
    assert("-1"@ =~= seq!['-', '1']);
    assert(" -1 "@ =~= seq![' '] + "-1"@ + seq![' ']);
    assert(" "@ =~= seq![' ']);
}

proof fn lemma_joined_two(a: Seq<char>, b: Seq<char>)
    ensures
        text::joined(seq![a, b]) == a + seq![' '] + b,
{
    reveal_with_fuel(text::joined, 3);
    assert(seq![a, b].skip(1) =~= seq![b]);
}

proof fn lemma_joined_three(a: Seq<char>, b: Seq<char>, c: Seq<char>)
    ensures
        text::joined(seq![a, b, c]) == a + seq![' '] + b + seq![' '] + c,
{
    lemma_joined_two(b, c);
    assert(seq![a, b, c].skip(1) =~= seq![b, c]);
    assert(text::joined(seq![a, b, c]) =~= a + seq![' '] + b + seq![' '] + c);
}

/// The words of the line of an entry.
proof fn lemma_line_words(prev: Option<u64>, access: MemoryAccess)
    ensures
        ({
            let n = text::decimal_digits(bubble(prev, access) as nat);
            let parts = match access {
                MemoryAccess::Regular(mem) => if mem.store {
                    seq![n, "-1"@, text::address_text(mem.address)]
                } else {
                    seq![n, text::address_text(mem.address)]
                },
                MemoryAccess::Rowclone(rc) => seq![
                    n,
                    text::address_text(rc.from),
                    text::address_text(rc.to),
                ],
            };
            &&& line(prev, access) == text::joined(parts)
            &&& text::words(line(prev, access)) == parts
        }),
{
    let n = text::decimal_digits(bubble(prev, access) as nat);
    lemma_store_mark();
    text::lemma_decimal_is_word(bubble(prev, access) as nat);
    match access {
        MemoryAccess::Regular(mem) => {
            let a = text::address_text(mem.address);
            text::lemma_address_is_word(mem.address);
            if mem.store {
                lemma_joined_three(n, "-1"@, a);
                assert(line(prev, access) =~= text::joined(seq![n, "-1"@, a]));
                text::law_words_of_joined(seq![n, "-1"@, a]);
            } else {
                lemma_joined_two(n, a);
                assert(line(prev, access) =~= text::joined(seq![n, a]));
                text::law_words_of_joined(seq![n, a]);
            }
        },
        MemoryAccess::Rowclone(rc) => {
            let a = text::address_text(rc.from);
            let b = text::address_text(rc.to);
            text::lemma_address_is_word(rc.from);
            text::lemma_address_is_word(rc.to);
            lemma_joined_three(n, a, b);
            assert(line(prev, access) =~= text::joined(seq![n, a, b]));
            text::law_words_of_joined(seq![n, a, b]);
        },
    }
}

/// Law: the line of an entry can be read back. Its words stand one space apart; the last is the
/// whole address of a load or store, and the last two are the source and the target of a row copy;
/// the word `-1` stands in it exactly for a store. The first word is the number of instructions
/// since the entry before: it leads from the count of that entry to the count of this one, where
/// the counts of a load or store do not run backwards; else, and for the first entry, it is 0.
pub proof fn law_line_read_back(prev: Option<u64>, access: MemoryAccess)
    ensures
        ({
            let words = text::words(line(prev, access));
            let count = text::unsigned(words[0], 10, u64::MAX as nat);
            &&& text::joined(words) == line(prev, access)
            &&& count matches Some(n) && match access {
                MemoryAccess::Regular(mem) => {
                    &&& words.len() == if mem.store {
                        3int
                    } else {
                        2int
                    }
                    &&& words.contains(seq!['-', '1']) == mem.store
                    &&& text::hex_address(words.last()) == Some(mem.address as nat)
                    &&& match prev {
                        None => n == 0,
                        Some(prev) => if prev <= mem.insn_count {
                            prev + n == mem.insn_count
                        } else {
                            n == 0
                        },
                    }
                },
                MemoryAccess::Rowclone(rc) => {
                    &&& words.len() == 3
                    &&& !words.contains(seq!['-', '1'])
                    &&& text::hex_address(words[1]) == Some(rc.from as nat)
                    &&& text::hex_address(words[2]) == Some(rc.to as nat)
                    &&& match prev {
                        None => n == 0,
                        Some(prev) => (prev + n) % 0x1_0000_0000_0000_0000 == rc.insn_count,
                    }
                },
            }
        }),
{
    let words = text::words(line(prev, access));
    let b = bubble(prev, access);
    lemma_line_words(prev, access);
    lemma_store_mark();
    text::law_decimal_round_trip(b as nat, u64::MAX as nat);
    text::lemma_decimal_starts(b as nat);
    match access {
        MemoryAccess::Regular(mem) => {
            text::law_address_round_trip(mem.address);
            if mem.store {
                assert(words[1] == seq!['-', '1']);
            } else {
                assert(words[0][0] != '-' && words[1][0] == '0');
            }
        },
        MemoryAccess::Rowclone(rc) => {
            text::law_address_round_trip(rc.from);
            text::law_address_round_trip(rc.to);
            assert(words[0][0] != '-' && words[1][0] == '0' && words[2][0] == '0');
        },
    }
}

} // verus!
