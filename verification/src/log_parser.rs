//! The binary memory trace: 24-byte records, and the parser that takes them from a byte stream.
use crate::text;
use vstd::arithmetic::power2::*;
use vstd::endian::*;
use vstd::prelude::*;
use vstd::string::*;

verus! {

/// One memory access of the trace.
#[derive(Clone, Copy)]
pub struct LogRecord {
    pub insn_count: u64,
    pub address: u64,
    pub cpu: u8,
    pub store: u8,
    pub size: u8,
    pub _padding: [u8; 5],
}

/// The eight bytes of a number, least significant first.
pub open spec fn le_bytes(x: u64) -> Seq<u8> {
    seq![
        (x % 0x100) as u8,
        ((x / 0x100) % 0x100) as u8,
        ((x / 0x1_0000) % 0x100) as u8,
        ((x / 0x100_0000) % 0x100) as u8,
        ((x / 0x1_0000_0000) % 0x100) as u8,
        ((x / 0x100_0000_0000) % 0x100) as u8,
        ((x / 0x1_0000_0000_0000) % 0x100) as u8,
        ((x / 0x100_0000_0000_0000) % 0x100) as u8,
    ]
}

/// The eight bytes of a number in the byte order of the machine.
pub open spec fn native_bytes(x: u64) -> Seq<u8> {
    match endianness() {
        Endian::Little => le_bytes(x),
        Endian::Big => le_bytes(x).reverse(),
    }
}

/// The number of bytes that an access of a given size exponent touches; the exponent counts
/// modulo 64.
pub open spec fn access_bytes(size: u8) -> u64 {
    pow2((size % 64) as nat) as u64
}

/// The first address after an access, modulo 2^64.
pub open spec fn access_end(access: LogRecord) -> u64 {
    access.address.wrapping_add(access_bytes(access.size))
}

proof fn lemma_quotients(x: u64)
    ensures
        x / 0x1_0000 == x / 0x100 / 0x100,
        x / 0x100_0000 == x / 0x100 / 0x100 / 0x100,
        x / 0x1_0000_0000 == x / 0x100 / 0x100 / 0x100 / 0x100,
        x / 0x100_0000_0000 == x / 0x100 / 0x100 / 0x100 / 0x100 / 0x100,
        x / 0x1_0000_0000_0000 == x / 0x100 / 0x100 / 0x100 / 0x100 / 0x100 / 0x100,
        x / 0x100_0000_0000_0000 == x / 0x100 / 0x100 / 0x100 / 0x100 / 0x100 / 0x100 / 0x100,
{
    assert(x / 0x1_0000 == x / 0x100 / 0x100);
    assert(x / 0x100_0000 == x / 0x1_0000 / 0x100);
    assert(x / 0x1_0000_0000 == x / 0x100_0000 / 0x100);
    assert(x / 0x100_0000_0000 == x / 0x1_0000_0000 / 0x100);
    assert(x / 0x1_0000_0000_0000 == x / 0x100_0000_0000 / 0x100);
    assert(x / 0x100_0000_0000_0000 == x / 0x1_0000_0000_0000 / 0x100);
}

proof fn lemma_native_bytes_injective(x: u64, y: u64)
    requires
        native_bytes(x) == native_bytes(y),
    ensures
        x == y,
{
    lemma_le_value(x);
    lemma_le_value(y);
    assert(le_bytes(x) =~= le_bytes(x).reverse().reverse());
    assert(le_bytes(y) =~= le_bytes(y).reverse().reverse());
}

proof fn lemma_le_value(x: u64)
    ensures
        ({
            let b = le_bytes(x);
            x == b[0] + 0x100 * b[1] + 0x1_0000 * b[2] + 0x100_0000 * b[3] + 0x1_0000_0000 * b[4]
                + 0x100_0000_0000 * b[5] + 0x1_0000_0000_0000 * b[6] + 0x100_0000_0000_0000 * b[7]
        }),
{
    lemma_quotients(x);
    let b = le_bytes(x);
    let q1 = x / 0x100;
    let q2 = q1 / 0x100;
    let q3 = q2 / 0x100;
    let q4 = q3 / 0x100;
    let q5 = q4 / 0x100;
    let q6 = q5 / 0x100;
    let q7 = q6 / 0x100;
    assert(x == b[0] + 0x100 * q1);
    assert(q1 == b[1] + 0x100 * q2);
    assert(q2 == b[2] + 0x100 * q3);
    assert(q3 == b[3] + 0x100 * q4);
    assert(q4 == b[4] + 0x100 * q5);
    assert(q5 == b[5] + 0x100 * q6);
    assert(q6 == b[6] + 0x100 * q7);
    assert(q7 == b[7]);
}

/// `u64::from_ne_bytes` of the standard library. Claimed: the bytes of the number, in the byte order
/// of the machine, are those given.
#[verifier::external_body]
fn number_of(bytes: [u8; 8]) -> (x: u64)
    ensures
        native_bytes(x) == bytes@,
{
    u64::from_ne_bytes(bytes)
}

fn read_u64(buffer: &[u8; 24], at: usize) -> (x: u64)
    requires
        at + 8 <= 24,
    ensures
        native_bytes(x) == buffer@.subrange(at as int, at + 8),
{
    let bytes: [u8; 8] = [
        buffer[at],
        buffer[at + 1],
        buffer[at + 2],
        buffer[at + 3],
        buffer[at + 4],
        buffer[at + 5],
        buffer[at + 6],
        buffer[at + 7],
    ];
    assert(bytes@ =~= buffer@.subrange(at as int, at + 8));
    number_of(bytes)
}

impl LogRecord {
    /// The number of bytes of a record in the trace.
    pub const SIZE: usize = 24;

    /// The bytes of the record in the trace: the two counters, in the byte order of the machine,
    /// then the three flags and the padding.
    pub open spec fn image(self) -> Seq<u8> {
        native_bytes(self.insn_count) + native_bytes(self.address) + seq![self.cpu, self.store, self.size]
            + self._padding@
    }

    /// The record that a buffer holds.
    pub fn deserialize(buffer: &mut [u8; 24]) -> (r: LogRecord)
        ensures
            r.image() == old(buffer)@,
            *final(buffer) == *old(buffer),
    {
        let r = LogRecord {
            insn_count: read_u64(buffer, 0),
            address: read_u64(buffer, 8),
            cpu: buffer[16],
            store: buffer[17],
            size: buffer[18],
            _padding: [buffer[19], buffer[20], buffer[21], buffer[22], buffer[23]],
        };
        assert(r.image() =~= old(buffer)@);
        r
    }

    /// The text of `debug_text`.
    pub open spec fn debug_view(self) -> Seq<char> {
        "LogRecord { insn_count: "@ + text::decimal_digits(self.insn_count as nat) + ", cpu: "@
            + text::decimal_digits(self.cpu as nat) + ", store: "@ + text::decimal_digits(
            self.store as nat,
        ) + ", size: "@ + text::decimal_digits(self.size as nat) + ", address: "@
            + text::address_text(self.address) + " }"@
    }

    /// The record in one line, for messages.
    pub fn debug_text(&self) -> (r: String)
        ensures
            r@ == self.debug_view(),
    {
        let mut r = String::new();
        r.append("LogRecord { insn_count: ");
        r.append(text::decimal(self.insn_count).as_str());
        r.append(", cpu: ");
        r.append(text::decimal(self.cpu as u64).as_str());
        r.append(", store: ");
        r.append(text::decimal(self.store as u64).as_str());
        r.append(", size: ");
        r.append(text::decimal(self.size as u64).as_str());
        r.append(", address: ");
        r.append(text::address(self.address).as_str());
        r.append(" }");
        assert(r@ =~= self.debug_view());
        r
    }
}

/// Law: the bytes of a record determine it.
pub proof fn law_image_injective(a: LogRecord, b: LogRecord)
    requires
        a.image() == b.image(),
    ensures
        a.insn_count == b.insn_count,
        a.address == b.address,
        a.cpu == b.cpu,
        a.store == b.store,
        a.size == b.size,
        a._padding@ == b._padding@,
{
    let x = a.image();
    let y = b.image();
    assert(native_bytes(a.insn_count) =~= x.subrange(0, 8));
    assert(native_bytes(b.insn_count) =~= y.subrange(0, 8));
    lemma_native_bytes_injective(a.insn_count, b.insn_count);
    assert(native_bytes(a.address) =~= x.subrange(8, 16));
    assert(native_bytes(b.address) =~= y.subrange(8, 16));
    lemma_native_bytes_injective(a.address, b.address);
    assert(a.cpu == x[16] && a.store == x[17] && a.size == x[18]);
    assert(b.cpu == y[16] && b.store == y[17] && b.size == y[18]);
    assert(a._padding@ =~= x.subrange(19, 24));
    assert(b._padding@ =~= y.subrange(19, 24));
}

/// The number of bytes that an access touches.
pub fn access_size_bytes(size: u8) -> (r: u64)
    ensures
        r == access_bytes(size),
{
    let shift: u64 = (size % 64) as u64;
    proof {
        vstd::bits::lemma_u64_pow2_no_overflow(shift as nat);
        vstd::bits::lemma_u64_shl_is_mul(1, shift);
    }
    1u64 << shift
}

/// The bytes of some records, one after the other.
pub open spec fn images(records: Seq<LogRecord>) -> Seq<u8>
    decreases records.len(),
{
    if records.len() == 0 {
        Seq::empty()
    } else {
        images(records.drop_last()) + records.last().image()
    }
}

/// Whether some records are all that some bytes hold, and what is left is less than one.
pub open spec fn all_taken(bytes: Seq<u8>, records: Seq<LogRecord>, left: Seq<u8>) -> bool {
    images(records) + left == bytes && left.len() < 24
}

/// Takes records from a byte stream that arrives in pieces.
pub struct LogParser {
    buffer: Vec<u8>,
    start: usize,
}

impl View for LogParser {
    type V = Seq<u8>;

    /// The bytes that have arrived and are not yet part of a record handed out.
    closed spec fn view(&self) -> Seq<u8> {
        self.buffer@.skip(self.start as int)
    }
}

impl LogParser {
    #[verifier::type_invariant]
    spec fn wf(self) -> bool {
        self.start <= self.buffer@.len()
    }

    /// A parser to which nothing has arrived.
    pub fn new() -> (r: LogParser)
        ensures
            r@ == Seq::<u8>::empty(),
    {
        let r = LogParser { buffer: Vec::new(), start: 0 };
        assert(r@ =~= Seq::<u8>::empty());
        r
    }

    /// Adds the next piece of the stream.
    pub fn feed(&mut self, piece: &[u8])
        ensures
            final(self)@ == old(self)@ + piece@,
    {
        proof {
            use_type_invariant(&*self);
        }
        let mut joined: Vec<u8> = Vec::new();
        let mut i: usize = self.start;
        while i < self.buffer.len()
            invariant
                self.start <= i <= self.buffer@.len(),
                joined@ == self.buffer@.subrange(self.start as int, i as int),
                *self == *old(self),
            decreases self.buffer.len() - i,
        {
            joined.push(self.buffer[i]);
            i += 1;
        }
        assert(joined@ =~= old(self)@);
        let mut k: usize = 0;
        while k < piece.len()
            invariant
                k <= piece@.len(),
                joined@ == old(self)@ + piece@.take(k as int),
            decreases piece.len() - k,
        {
            joined.push(piece[k]);
            k += 1;
        }
        assert(piece@.take(k as int) =~= piece@);
        *self = LogParser { buffer: joined, start: 0 };
        assert(self@ =~= joined@);
    }

    /// Takes the next record. There is none while fewer bytes than a record are left, and none
    /// follows at the end of the stream: a last record that is cut off is dropped.
    pub fn next(&mut self) -> (r: Option<LogRecord>)
        ensures
            match r {
                Some(record) => old(self)@.len() >= 24 && record.image() == old(self)@.take(24)
                    && final(self)@ == old(self)@.skip(24),
                None => old(self)@.len() < 24 && final(self)@ == old(self)@,
            },
    {
        proof {
            use_type_invariant(&*self);
        }
        if self.buffer.len() - self.start < LogRecord::SIZE {
            return None;
        }
        let mut image: [u8; 24] = [0u8; 24];
        let start = self.start;
        let mut i: usize = 0;
        while i < 24
            invariant
                i <= 24,
                start == self.start,
                start + 24 <= self.buffer.len(),
                forall|k: int| 0 <= k < i ==> image@[k] == self.buffer@[start + k],
                *self == *old(self),
            decreases 24 - i,
        {
            image[i] = self.buffer[start + i];
            i += 1;
        }
        assert(image@ =~= old(self)@.take(24));
        let record = LogRecord::deserialize(&mut image);
        self.start = self.start + 24;
        assert(self@ =~= old(self)@.skip(24));
        Some(record)
    }

    /// Takes all records that have arrived, and adds them to others.
    pub fn take_all(&mut self, records: &mut Vec<LogRecord>)
        ensures
            old(records)@.is_prefix_of(final(records)@),
            all_taken(
                old(self)@,
                final(records)@.skip(old(records)@.len() as int),
                final(self)@,
            ),
    {
        let ghost mut taken = Seq::<LogRecord>::empty();
        assert(records@ =~= old(records)@ + taken);
        assert(images(taken) + self@ =~= old(self)@);
        loop
            invariant
                records@ == old(records)@ + taken,
                images(taken) + self@ == old(self)@,
            decreases self@.len(),
        {
            let ghost before = self@;
            match self.next() {
                None => {
                    assert(taken =~= records@.skip(old(records)@.len() as int));
                    assert(old(records)@ =~= records@.subrange(0, old(records)@.len() as int));
                    return ;
                },
                Some(record) => {
                    records.push(record);
                    proof {
                        let more = taken.push(record);
                        assert(more.drop_last() =~= taken);
                        assert(images(more) + self@ =~= images(taken) + before);
                        taken = more;
                    }
                    assert(records@ =~= old(records)@ + taken);
                },
            }
        }
    }
}

/// Law: it does not matter where the stream is cut into pieces: taking all records of a first
/// piece, and then all records of what is left and a second piece, gives the same bytes of records
/// and leaves the same bytes as taking all records of both pieces at once.
pub proof fn law_pieces(
    a: Seq<u8>,
    b: Seq<u8>,
    first: Seq<LogRecord>,
    left: Seq<u8>,
    second: Seq<LogRecord>,
    rest: Seq<u8>,
    at_once: Seq<LogRecord>,
    end: Seq<u8>,
)
    requires
        all_taken(a, first, left),
        all_taken(left + b, second, rest),
        all_taken(a + b, at_once, end),
    ensures
        images(first + second) == images(at_once),
        first.len() + second.len() == at_once.len(),
        rest == end,
{
    lemma_images_add(first, second);
    lemma_images_len(first + second);
    lemma_images_len(at_once);
    lemma_rejoined(images(first), images(second), left, b, rest);
    lemma_same_split(
        images(first + second),
        rest,
        first.len() + second.len(),
        images(at_once),
        end,
        at_once.len(),
    );
}

proof fn lemma_rejoined(x: Seq<u8>, y: Seq<u8>, left: Seq<u8>, b: Seq<u8>, rest: Seq<u8>)
    requires
        y + rest == left + b,
    ensures
        (x + y) + rest == (x + left) + b,
{
    assert((x + y) + rest =~= x + (y + rest));
    assert((x + left) + b =~= x + (left + b));
}

proof fn lemma_same_split(x: Seq<u8>, r: Seq<u8>, m: nat, y: Seq<u8>, s: Seq<u8>, n: nat)
    requires
        x + r == y + s,
        x.len() == 24 * m,
        y.len() == 24 * n,
        r.len() < 24,
        s.len() < 24,
    ensures
        m == n,
        x == y,
        r == s,
{
    assert((x + r).len() == (y + s).len());
    assert(x =~= (x + r).take(x.len() as int));
    assert(y =~= (y + s).take(y.len() as int));
    assert(r =~= (x + r).skip(x.len() as int));
    assert(s =~= (y + s).skip(y.len() as int));
}

proof fn lemma_images_len(records: Seq<LogRecord>)
    ensures
        images(records).len() == 24 * records.len(),
    decreases records.len(),
{
    if records.len() > 0 {
        lemma_images_len(records.drop_last());
    }
}

proof fn lemma_images_add(a: Seq<LogRecord>, b: Seq<LogRecord>)
    ensures
        images(a + b) == images(a) + images(b),
    decreases b.len(),
{
    if b.len() == 0 {
        assert(a + b =~= a);
    } else {
        lemma_images_add(a, b.drop_last());
        assert((a + b).drop_last() =~= a + b.drop_last());
        assert(images(a + b) =~= images(a) + images(b));
    }
}

/// Law: an access of size exponent 0 touches one byte, each exponent more doubles that up to 2^63
/// bytes, and the exponent counts modulo 64.
pub proof fn law_access_bytes(size: u8)
    ensures
        access_bytes(0) == 1,
        size < 63 ==> access_bytes((size + 1) as u8) == 2 * access_bytes(size),
        size >= 64 ==> access_bytes(size) == access_bytes((size - 64) as u8),
{
    let n = (size % 64) as nat;
    lemma2_to64();
    vstd::bits::lemma_u64_pow2_no_overflow(n);
    if size < 63 {
        vstd::bits::lemma_u64_pow2_no_overflow(n + 1);
        lemma_pow2_unfold(n + 1);
        assert((size + 1) as u8 % 64 == size % 64 + 1);
    }
    if size >= 64 {
        assert(((size - 64) as u8) % 64 == size % 64);
    }
}

/// Law: the bytes of a record are 24: eight of the instruction count and eight of the address, each
/// from the least significant on a machine of that order and from the most significant on one of
/// the other, then one each of the processor, the store flag and the size exponent, and the padding.
pub proof fn law_layout(r: LogRecord, i: int)
    requires
        0 <= i < 8,
    ensures
        r.image().len() == 24,
        r.image()[16] == r.cpu,
        r.image()[17] == r.store,
        r.image()[18] == r.size,
        i < 5 ==> r.image()[19 + i] == r._padding@[i],
        ({
            let at = match endianness() {
                Endian::Little => i,
                Endian::Big => 7 - i,
            };
            &&& r.image()[at] == (r.insn_count as nat / pow2((8 * i) as nat)) % 256
            &&& r.image()[8 + at] == (r.address as nat / pow2((8 * i) as nat)) % 256
        }),
{
    lemma_byte(r.insn_count, i);
    lemma_byte(r.address, i);
    let at = match endianness() {
        Endian::Little => i,
        Endian::Big => 7 - i,
    };
    assert(native_bytes(r.insn_count)[at] == le_bytes(r.insn_count)[i]);
    assert(native_bytes(r.address)[at] == le_bytes(r.address)[i]);
    assert(r.image()[at] == native_bytes(r.insn_count)[at]);
    assert(r.image()[8 + at] == native_bytes(r.address)[at]);
}

proof fn lemma_byte(x: u64, i: int)
    requires
        0 <= i < 8,
    ensures
        le_bytes(x)[i] == (x as nat / pow2((8 * i) as nat)) % 256,
{
    lemma2_to64();
    lemma2_to64_rest();
    let n = x as nat;
    let d = pow2((8 * i) as nat);
    if i == 0 {
        assert(d == 1);
        assert(n / d == n / 1);
        assert(le_bytes(x)[0] == (n / 1) % 256);
    } else if i == 1 {
        assert(d == 0x100);
        assert(n / d == n / 0x100);
        assert(le_bytes(x)[1] == (n / 0x100) % 256);
    } else if i == 2 {
        assert(d == 0x1_0000);
        assert(n / d == n / 0x1_0000);
        assert(le_bytes(x)[2] == (n / 0x1_0000) % 256);
    } else if i == 3 {
        assert(d == 0x100_0000);
        assert(n / d == n / 0x100_0000);
        assert(le_bytes(x)[3] == (n / 0x100_0000) % 256);
    } else if i == 4 {
        assert(d == 0x1_0000_0000);
        assert(n / d == n / 0x1_0000_0000);
        assert(le_bytes(x)[4] == (n / 0x1_0000_0000) % 256);
    } else if i == 5 {
        assert(d == 0x100_0000_0000);
        assert(n / d == n / 0x100_0000_0000);
        assert(le_bytes(x)[5] == (n / 0x100_0000_0000) % 256);
    } else if i == 6 {
        assert(d == 0x1_0000_0000_0000);
        assert(n / d == n / 0x1_0000_0000_0000);
        assert(le_bytes(x)[6] == (n / 0x1_0000_0000_0000) % 256);
    } else {
        assert(d == 0x100_0000_0000_0000);
        assert(n / d == n / 0x100_0000_0000_0000);
        assert(le_bytes(x)[7] == (n / 0x100_0000_0000_0000) % 256);
    }
}

/// Law: the text of a record for messages can be read back: its instruction
/// count, its processor, its store flag, its size exponent and its whole address stand in it, each
/// behind its label.
pub proof fn law_debug_text(record: LogRecord)
    ensures
        ({
            let words = text::words(record.debug_view());
            &&& words.len() == 13
            &&& text::unsigned(words[3].drop_last(), 10, u64::MAX as nat) == Some(record.insn_count as nat)
            &&& words[4] == "cpu:"@
            &&& text::unsigned(words[5].drop_last(), 10, u64::MAX as nat) == Some(record.cpu as nat)
            &&& words[6] == "store:"@
            &&& text::unsigned(words[7].drop_last(), 10, u64::MAX as nat) == Some(record.store as nat)
            &&& words[8] == "size:"@
            &&& text::unsigned(words[9].drop_last(), 10, u64::MAX as nat) == Some(record.size as nat)
            &&& words[10] == "address:"@
            &&& text::hex_address(words[11]) == Some(record.address as nat)
        }),
{
    reveal_strlit("LogRecord { insn_count: ");
    reveal_strlit("LogRecord");
    reveal_strlit("{");
    reveal_strlit("insn_count:");
    let none = Seq::<char>::empty();
    assert(text::words(none) =~= Seq::<Seq<char>>::empty());
    text::lemma_add_word(none, "LogRecord"@, ' ');
    let a0 = none + "LogRecord"@ + seq![' '];
    text::lemma_add_word(a0, "{"@, ' ');
    let a1 = a0 + "{"@ + seq![' '];
    text::lemma_add_word(a1, "insn_count:"@, ' ');
    let a2 = a1 + "insn_count:"@ + seq![' '];
    assert("LogRecord { insn_count: "@ =~= a2);
    text::lemma_decimal_is_word(record.insn_count as nat);
    text::law_decimal_round_trip(record.insn_count as nat, u64::MAX as nat);
    let f0 = text::decimal_digits(record.insn_count as nat);
    reveal_strlit(", cpu: ");
    reveal_strlit("cpu:");
    assert(", cpu: "@ =~= seq![',', ' '] + "cpu:"@ + seq![' ']);
    text::lemma_add_item(a2, f0, "cpu:"@, ", cpu: "@);
    let t0 = a2 + f0 + ", cpu: "@;
    text::lemma_decimal_is_word(record.cpu as nat);
    text::law_decimal_round_trip(record.cpu as nat, u64::MAX as nat);
    let f1 = text::decimal_digits(record.cpu as nat);
    reveal_strlit(", store: ");
    reveal_strlit("store:");
    assert(", store: "@ =~= seq![',', ' '] + "store:"@ + seq![' ']);
    text::lemma_add_item(t0, f1, "store:"@, ", store: "@);
    let t1 = t0 + f1 + ", store: "@;
    text::lemma_decimal_is_word(record.store as nat);
    text::law_decimal_round_trip(record.store as nat, u64::MAX as nat);
    let f2 = text::decimal_digits(record.store as nat);
    reveal_strlit(", size: ");
    reveal_strlit("size:");
    assert(", size: "@ =~= seq![',', ' '] + "size:"@ + seq![' ']);
    text::lemma_add_item(t1, f2, "size:"@, ", size: "@);
    let t2 = t1 + f2 + ", size: "@;
    text::lemma_decimal_is_word(record.size as nat);
    text::law_decimal_round_trip(record.size as nat, u64::MAX as nat);
    let f3 = text::decimal_digits(record.size as nat);
    reveal_strlit(", address: ");
    reveal_strlit("address:");
    assert(", address: "@ =~= seq![',', ' '] + "address:"@ + seq![' ']);
    text::lemma_add_item(t2, f3, "address:"@, ", address: "@);
    let t3 = t2 + f3 + ", address: "@;
    text::lemma_address_is_word(record.address);
    text::law_address_round_trip(record.address);
    let f4 = text::address_text(record.address);
    text::lemma_add_end(t3, f4);
    assert(record.debug_view() == t3 + f4 + " }"@);
    let words = text::words(record.debug_view());
    assert(words[3].drop_last() =~= f0);
    assert(words[5].drop_last() =~= f1);
    assert(words[7].drop_last() =~= f2);
    assert(words[9].drop_last() =~= f3);
}

/// Law: the bytes of records are those of each, one record behind the other, 24 each; so records and
/// less than one record left over are all that the bytes hold.
pub proof fn law_images(a: Seq<LogRecord>, b: Seq<LogRecord>, left: Seq<u8>)
    ensures
        images(a + b) == images(a) + images(b),
        images(a).len() == 24 * a.len(),
        b.len() == 1 ==> images(b) == b[0].image(),
        all_taken(images(a) + left, a, left) <==> left.len() < 24,
{
    lemma_images_add(a, b);
    lemma_images_len(a);
    if b.len() == 1 {
        assert(b.drop_last() =~= Seq::<LogRecord>::empty());
        assert(images(b.drop_last()) =~= Seq::<u8>::empty());
        assert(images(b) =~= b[0].image());
    }
}

} // verus!
