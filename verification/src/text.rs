//! Reading and writing the numbers and words that the trace formats are made of.
use vstd::arithmetic::power::*;
use vstd::prelude::*;
use vstd::string::*;

verus! {

/// The value of a hexadecimal digit of either case; 16 for every other character.
pub open spec fn digit_value(c: char) -> nat {
    if '0' <= c <= '9' {
        (c as nat - '0' as nat) as nat
    } else if 'a' <= c <= 'f' {
        (c as nat - 'a' as nat + 10) as nat
    } else if 'A' <= c <= 'F' {
        (c as nat - 'A' as nat + 10) as nat
    } else {
        16
    }
}

/// The lower-case digit of a value below 16.
pub open spec fn digit_char(d: nat) -> char {
    if d < 10 {
        ('0' as nat + d) as char
    } else {
        ('a' as nat + d - 10) as char
    }
}

/// Every character is a digit of the radix (at most 16).
pub open spec fn all_digits(s: Seq<char>, radix: nat) -> bool {
    forall|i: int| 0 <= i < s.len() ==> digit_value(#[trigger] s[i]) < radix
}

/// The number that a run of digits stands for, most significant digit first.
pub open spec fn digits_value(s: Seq<char>, radix: nat) -> nat
    decreases s.len(),
{
    if s.len() == 0 {
        0
    } else {
        digits_value(s.drop_last(), radix) * radix + digit_value(s.last())
    }
}

/// A text without its leading plus sign, if it has one.
pub open spec fn without_plus(s: Seq<char>) -> Seq<char> {
    if s.len() > 0 && s[0] == '+' {
        s.skip(1)
    } else {
        s
    }
}

/// The number, at most `max`, that a text holds: an optional plus sign and at least one digit.
pub open spec fn unsigned(s: Seq<char>, radix: nat, max: nat) -> Option<nat> {
    let digits = without_plus(s);
    if digits.len() > 0 && all_digits(digits, radix) && digits_value(digits, radix) <= max {
        Some(digits_value(digits, radix))
    } else {
        None
    }
}

/// A text without the `0x` that it starts with, however often it is repeated.
pub open spec fn without_0x(s: Seq<char>) -> Seq<char>
    decreases s.len(),
{
    if s.len() >= 2 && s[0] == '0' && s[1] == 'x' {
        without_0x(s.skip(2))
    } else {
        s
    }
}

/// The address that a text holds: a hexadecimal number of at most 64 bits after any `0x`.
pub open spec fn hex_address(s: Seq<char>) -> Option<nat> {
    unsigned(without_0x(s), 16, u64::MAX as nat)
}

/// The decimal digits of a number, without leading zeros.
pub open spec fn decimal_digits(n: nat) -> Seq<char>
    decreases n,
{
    if n < 10 {
        seq![digit_char(n)]
    } else {
        decimal_digits(n / 10).push(digit_char(n % 10))
    }
}

/// The last `width` hexadecimal digits of a number.
pub open spec fn hex_digits(n: nat, width: nat) -> Seq<char>
    decreases width,
{
    if width == 0 {
        Seq::empty()
    } else {
        hex_digits(n / 16, (width - 1) as nat).push(digit_char(n % 16))
    }
}

/// An address as `0x` and 16 digits.
pub open spec fn address_text(a: u64) -> Seq<char> {
    seq!['0', 'x'] + hex_digits(a as nat, 16)
}

/// A text brought to at least `width` characters by zeros in front.
pub open spec fn zero_padded(s: Seq<char>, width: nat) -> Seq<char> {
    if s.len() >= width {
        s
    } else {
        Seq::new((width - s.len()) as nat, |i: int| '0') + s
    }
}

/// The characters with Unicode's White_Space property.
pub open spec fn white_space(c: char) -> bool {
    ||| '\u{9}' <= c <= '\u{d}'
    ||| c == ' '
    ||| c == '\u{85}'
    ||| c == '\u{a0}'
    ||| c == '\u{1680}'
    ||| '\u{2000}' <= c <= '\u{200a}'
    ||| c == '\u{2028}'
    ||| c == '\u{2029}'
    ||| c == '\u{202f}'
    ||| c == '\u{205f}'
    ||| c == '\u{3000}'
}

/// The length of the run without white space that a text starts with.
pub open spec fn word_len(s: Seq<char>) -> nat
    decreases s.len(),
{
    if s.len() == 0 || white_space(s[0]) {
        0
    } else {
        1 + word_len(s.skip(1))
    }
}

/// The words of a text: its longest runs without white space, in order.
pub open spec fn words(s: Seq<char>) -> Seq<Seq<char>>
    decreases s.len(),
    via words_decreases
{
    if s.len() == 0 {
        Seq::empty()
    } else if white_space(s[0]) {
        words(s.skip(1))
    } else {
        let n = word_len(s) as int;
        seq![s.take(n)] + words(s.skip(n))
    }
}

#[via_fn]
proof fn words_decreases(s: Seq<char>) {
    lemma_word_len(s);
}

pub(crate) proof fn lemma_word_len(s: Seq<char>)
    ensures
        word_len(s) <= s.len(),
        forall|i: int| 0 <= i < word_len(s) ==> !white_space(#[trigger] s[i]),
        word_len(s) < s.len() ==> white_space(s[word_len(s) as int]),
        s.len() > 0 && !white_space(s[0]) ==> word_len(s) > 0,
    decreases s.len(),
{
    if s.len() > 0 && !white_space(s[0]) {
        lemma_word_len(s.skip(1));
        assert forall|i: int| 0 <= i < word_len(s) implies !white_space(#[trigger] s[i]) by {
            if i > 0 {
                assert(s[i] == s.skip(1)[i - 1]);
            }
        }
    }
}

proof fn lemma_word_len_unique(s: Seq<char>, n: int)
    requires
        0 <= n <= s.len(),
        forall|i: int| 0 <= i < n ==> !white_space(#[trigger] s[i]),
        n < s.len() ==> white_space(s[n]),
    ensures
        word_len(s) == n,
{
    lemma_word_len(s);
    let w = word_len(s) as int;
    if w < n {
        assert(!white_space(s[w]));
    } else if n < w {
        assert(!white_space(s[n]));
    }
}

/// Words in one text, with a space between any two.
pub open spec fn joined(words: Seq<Seq<char>>) -> Seq<char>
    decreases words.len(),
{
    if words.len() == 0 {
        Seq::empty()
    } else if words.len() == 1 {
        words[0]
    } else {
        words[0] + seq![' '] + joined(words.skip(1))
    }
}

/// Whether a text is not empty and has no white space.
pub open spec fn is_word(s: Seq<char>) -> bool {
    s.len() > 0 && forall|i: int| 0 <= i < s.len() ==> !white_space(#[trigger] s[i])
}

/// Law: splitting a text that was joined from words gives those words.
pub proof fn law_words_of_joined(parts: Seq<Seq<char>>)
    requires
        forall|i: int| 0 <= i < parts.len() ==> is_word(#[trigger] parts[i]),
    ensures
        words(joined(parts)) == parts,
    decreases parts.len(),
{
    let s = joined(parts);
    if parts.len() == 0 {
        assert(words(s) =~= parts);
    } else {
        let first = parts[0];
        let n = first.len() as int;
        assert(is_word(parts[0]));
        assert forall|i: int| 0 <= i < n implies !white_space(#[trigger] s[i]) by {
            assert(s[i] == first[i]);
        }
        lemma_word_len_unique(s, n);
        assert(s.take(n) =~= first);
        let rest = s.skip(n);
        if parts.len() == 1 {
            assert(rest =~= Seq::<char>::empty());
            assert(words(rest) =~= Seq::<Seq<char>>::empty());
        } else {
            let tail = parts.skip(1);
            assert forall|i: int| 0 <= i < tail.len() implies is_word(#[trigger] tail[i]) by {
                assert(tail[i] == parts[i + 1]);
            }
            law_words_of_joined(tail);
            assert(rest =~= seq![' '] + joined(tail));
            assert(rest.skip(1) =~= joined(tail));
            assert(words(rest) == tail);
        }
        assert(seq![first] + words(rest) =~= parts);
    }
}

/// Law: where white space stands at the seam of two texts, or one is empty, the words of both
/// together are those of the first and then those of the second.
pub proof fn law_words_of_two(x: Seq<char>, y: Seq<char>)
    requires
        x.len() == 0 || y.len() == 0 || white_space(x.last()) || white_space(y[0]),
    ensures
        words(x + y) == words(x) + words(y),
    decreases x.len(),
{
    let s = x + y;
    if x.len() == 0 {
        assert(s =~= y);
        assert(words(x) + words(y) =~= words(y));
    } else if white_space(x[0]) {
        let rest = x.skip(1);
        assert(s.skip(1) =~= rest + y);
        assert(rest.len() > 0 ==> rest.last() == x.last());
        law_words_of_two(rest, y);
    } else {
        let n = word_len(x) as int;
        lemma_word_len(x);
        assert forall|i: int| 0 <= i < n implies !white_space(#[trigger] s[i]) by {
            assert(s[i] == x[i]);
        }
        lemma_word_len_unique(s, n);
        let rest = x.skip(n);
        assert(s.skip(n) =~= rest + y);
        assert(s.take(n) =~= x.take(n));
        assert(rest.len() > 0 ==> rest.last() == x.last());
        law_words_of_two(rest, y);
        assert(seq![x.take(n)] + (words(rest) + words(y)) =~= words(x) + words(y));
    }
}

/// A word and white space behind a text that ends in white space.
pub(crate) proof fn lemma_add_word(t: Seq<char>, w: Seq<char>, c: char)
    requires
        t.len() == 0 || white_space(t.last()),
        is_word(w),
        white_space(c),
    ensures
        words(t + w + seq![c]) == words(t).push(w),
        white_space((t + w + seq![c]).last()),
{
    law_words_of_two(t + w, seq![c]);
    law_words_of_two(t, w);
    assert(joined(seq![w]) == w);
    law_words_of_joined(seq![w]);
    assert(seq![c].skip(1) =~= Seq::<char>::empty());
    assert(words(seq![c].skip(1)) =~= Seq::<Seq<char>>::empty());
    assert(words(seq![c]) =~= Seq::<Seq<char>>::empty());
    assert(words(t) + seq![w] + words(seq![c]) =~= words(t).push(w));
}

proof fn lemma_value_grows(s: Seq<char>, k: int, radix: nat)
    requires
        0 <= k <= s.len(),
        radix >= 1,
    ensures
        digits_value(s.take(k), radix) <= digits_value(s, radix),
    decreases s.len() - k,
{
    if k == s.len() {
        assert(s.take(k) =~= s);
    } else {
        lemma_value_grows(s, k + 1, radix);
        assert(s.take(k + 1).drop_last() =~= s.take(k));
        let v = digits_value(s.take(k), radix);
        assert(v <= v * radix) by (nonlinear_arith)
            requires
                radix >= 1,
        ;
    }
}

proof fn lemma_digit_round_trip(d: nat)
    requires
        d < 16,
    ensures
        digit_value(digit_char(d)) == d,
        digit_char(d) != '+',
        digit_char(d) != 'x',
{
}

proof fn lemma_decimal_digits(n: nat)
    ensures
        decimal_digits(n).len() > 0,
        decimal_digits(n)[0] != '+',
        all_digits(decimal_digits(n), 10),
        digits_value(decimal_digits(n), 10) == n,
    decreases n,
{
    lemma_digit_round_trip(n % 10);
    let s = decimal_digits(n);
    if n < 10 {
        assert(s.drop_last() =~= Seq::<char>::empty());
        assert(digits_value(s.drop_last(), 10) == 0);
    } else {
        lemma_decimal_digits(n / 10);
        assert(s.drop_last() =~= decimal_digits(n / 10));
        assert forall|i: int| 0 <= i < s.len() implies digit_value(#[trigger] s[i]) < 10 by {
            if i < s.len() - 1 {
                assert(s[i] == decimal_digits(n / 10)[i]);
            }
        }
    }
}

proof fn lemma_leading_zeros(s: Seq<char>, n: nat)
    ensures
        digits_value(Seq::new(n, |i: int| '0') + s, 10) == digits_value(s, 10),
    decreases s.len(),
{
    let zeros = Seq::new(n, |i: int| '0');
    if s.len() == 0 {
        assert(zeros + s =~= zeros);
        lemma_zeros(n);
    } else {
        assert((zeros + s).drop_last() =~= zeros + s.drop_last());
        lemma_leading_zeros(s.drop_last(), n);
    }
}

proof fn lemma_zeros(n: nat)
    ensures
        digits_value(Seq::new(n, |i: int| '0'), 10) == 0,
    decreases n,
{
    if n > 0 {
        let m = (n - 1) as nat;
        lemma_zeros(m);
        assert(Seq::new(n, |i: int| '0').drop_last() =~= Seq::new(m, |i: int| '0'));
    }
}

/// Law: a number is read back through any zeros in front of its decimal text.
pub proof fn law_padded_round_trip(n: nat, width: nat, max: nat)
    requires
        n <= max,
    ensures
        unsigned(zero_padded(decimal_digits(n), width), 10, max) == Some(n),
        is_word(zero_padded(decimal_digits(n), width)),
        zero_padded(decimal_digits(n), width).len() >= width,
{
    lemma_decimal_digits(n);
    let s = decimal_digits(n);
    let p = zero_padded(s, width);
    if s.len() < width {
        lemma_leading_zeros(s, (width - s.len()) as nat);
        assert(p[0] == '0');
    }
    assert forall|i: int| 0 <= i < p.len() implies digit_value(#[trigger] p[i]) < 10 by {
        let z = p.len() - s.len();
        if i >= z {
            assert(p[i] == s[i - z]);
        }
    }
    assert forall|i: int| 0 <= i < p.len() implies !white_space(#[trigger] p[i]) by {
        assert(digit_value(p[i]) < 10);
    }
}

/// Law: reading back the decimal text of a number within the limit gives that number.
pub proof fn law_decimal_round_trip(n: nat, max: nat)
    requires
        n <= max,
    ensures
        unsigned(decimal_digits(n), 10, max) == Some(n),
{
    lemma_decimal_digits(n);
}

proof fn lemma_hex_digits(n: nat, width: nat)
    requires
        n < pow(16, width),
    ensures
        hex_digits(n, width).len() == width,
        all_digits(hex_digits(n, width), 16),
        digits_value(hex_digits(n, width), 16) == n,
        forall|i: int| 0 <= i < width ==> #[trigger] hex_digits(n, width)[i] != 'x',
        width > 0 ==> hex_digits(n, width)[0] != '+',
    decreases width,
{
    reveal(pow);
    if width > 0 {
        let s = hex_digits(n, width);
        let m = n / 16;
        let w = (width - 1) as nat;
        assert(pow(16, width) == 16 * pow(16, w));
        lemma_hex_digits(m, w);
        lemma_digit_round_trip(n % 16);
        assert(s.drop_last() =~= hex_digits(m, w));
        assert forall|i: int| 0 <= i < s.len() implies digit_value(#[trigger] s[i]) < 16 && s[i]
            != 'x' by {
            if i < s.len() - 1 {
                assert(s[i] == hex_digits(m, w)[i]);
            }
        }
    }
}

/// Law: reading back the text of an address gives that address.
pub proof fn law_address_round_trip(a: u64)
    ensures
        hex_address(address_text(a)) == Some(a as nat),
{
    assert(pow(16, 16) == 0x1_0000_0000_0000_0000) by {
        reveal_with_fuel(pow, 17);
    }
    lemma_hex_digits(a as nat, 16);
    let digits = hex_digits(a as nat, 16);
    let s = address_text(a);
    assert(s.skip(2) =~= digits);
    assert(digits[1] != 'x');
    assert(without_0x(digits) == digits);
    assert(without_0x(s) == digits);
}

/// The text of a number is a word.
pub(crate) proof fn lemma_decimal_is_word(n: nat)
    ensures
        is_word(decimal_digits(n)),
{
    lemma_decimal_digits(n);
    let s = decimal_digits(n);
    assert forall|i: int| 0 <= i < s.len() implies !white_space(#[trigger] s[i]) by {
        assert(digit_value(s[i]) < 10);
    }
}

/// The text of a number has no sign.
pub(crate) proof fn lemma_decimal_starts(n: nat)
    ensures
        decimal_digits(n).len() > 0,
        decimal_digits(n)[0] != '-',
{
    lemma_decimal_digits(n);
    assert(digit_value(decimal_digits(n)[0]) < 10);
}

/// The text of an address is a word.
pub(crate) proof fn lemma_address_is_word(a: u64)
    ensures
        is_word(address_text(a)),
{
    assert(pow(16, 16) == 0x1_0000_0000_0000_0000) by {
        reveal_with_fuel(pow, 17);
    }
    lemma_hex_digits(a as nat, 16);
    let s = address_text(a);
    assert forall|i: int| 0 <= i < s.len() implies !white_space(#[trigger] s[i]) by {
        if i >= 2 {
            assert(s[i] == hex_digits(a as nat, 16)[i - 2]);
            assert(digit_value(s[i]) < 16);
        }
    }
}

/// The characters of a text.
pub fn to_chars(s: &str) -> (r: Vec<char>)
    ensures
        r@ == s@,
{
    let mut r: Vec<char> = Vec::new();
    for c in it: s.chars()
        invariant
            it.seq() == s@,
            r@ == s@.take(it.index() as int),
    {
        r.push(c);
    }
    r
}

fn value_of_digit(c: char) -> (d: u64)
    ensures
        d == digit_value(c),
{
    if '0' <= c && c <= '9' {
        c as u64 - '0' as u64
    } else if 'a' <= c && c <= 'f' {
        c as u64 - 'a' as u64 + 10
    } else if 'A' <= c && c <= 'F' {
        c as u64 - 'A' as u64 + 10
    } else {
        16
    }
}

/// Reads an unsigned number of at most `max` in a radix of at most 16.
pub fn parse_unsigned(s: &Vec<char>, radix: u64, max: u64) -> (r: Option<u64>)
    requires
        1 <= radix <= 16,
    ensures
        match r {
            Some(n) => unsigned(s@, radix as nat, max as nat) == Some(n as nat),
            None => unsigned(s@, radix as nat, max as nat) is None,
        },
{
    let start: usize = if s.len() > 0 && s[0] == '+' {
        1
    } else {
        0
    };
    let ghost digits = without_plus(s@);
    assert(digits =~= s@.skip(start as int));
    if start == s.len() {
        return None;
    }
    let mut value: u64 = 0;
    let mut i: usize = start;
    while i < s.len()
        invariant
            start <= i <= s.len(),
            1 <= radix <= 16,
            digits == s@.skip(start as int),
            digits == without_plus(s@),
            forall|k: int|
                0 <= k < i - start ==> digit_value(#[trigger] digits[k]) < radix,
            value == digits_value(digits.take(i - start), radix as nat),
            value <= max,
        decreases s.len() - i,
    {
        let d = value_of_digit(s[i]);
        assert(digits[i - start] == s@[i as int]);
        if d >= radix {
            return None;
        }
        assert(value * radix + d <= u64::MAX * 16 + 16) by (nonlinear_arith)
            requires
                value <= u64::MAX,
                radix <= 16,
                d <= 16,
        ;
        let next: u128 = value as u128 * radix as u128 + d as u128;
        assert(digits.take(i + 1 - start).drop_last() =~= digits.take(i - start));
        assert(next == digits_value(digits.take(i + 1 - start), radix as nat));
        if next > max as u128 {
            proof {
                lemma_value_grows(digits, i + 1 - start, radix as nat);
            }
            return None;
        }
        value = next as u64;
        i += 1;
    }
    assert(digits.take(i - start) =~= digits);
    Some(value)
}

/// Reads a decimal number of at most `max`.
pub fn parse_decimal(s: &str, max: u64) -> (r: Option<u64>)
    ensures
        match r {
            Some(n) => unsigned(s@, 10, max as nat) == Some(n as nat),
            None => unsigned(s@, 10, max as nat) is None,
        },
{
    let chars = to_chars(s);
    parse_unsigned(&chars, 10, max)
}

/// Reads a hexadecimal address from characters.
pub fn parse_hex_chars(s: &Vec<char>) -> (r: Option<u64>)
    ensures
        match r {
            Some(a) => hex_address(s@) == Some(a as nat),
            None => hex_address(s@) is None,
        },
{
    let mut start: usize = 0;
    assert(s@.skip(0) =~= s@);
    while s.len() - start >= 2 && s[start] == '0' && s[start + 1] == 'x'
        invariant
            start <= s.len(),
            without_0x(s@) == without_0x(s@.skip(start as int)),
        decreases s.len() - start,
    {
        assert(s@.skip(start as int).skip(2) =~= s@.skip(start + 2));
        start += 2;
    }
    let mut rest: Vec<char> = Vec::new();
    let mut i: usize = start;
    while i < s.len()
        invariant
            start <= i <= s.len(),
            rest@ == s@.subrange(start as int, i as int),
        decreases s.len() - i,
    {
        rest.push(s[i]);
        i += 1;
    }
    assert(rest@ =~= s@.skip(start as int));
    parse_unsigned(&rest, 16, u64::MAX)
}

/// Reads a hexadecimal address, with or without `0x` in front.
pub fn parse_hex_address(hex_str: &str) -> (r: Option<u64>)
    ensures
        match r {
            Some(a) => hex_address(hex_str@) == Some(a as nat),
            None => hex_address(hex_str@) is None,
        },
{
    let chars = to_chars(hex_str);
    parse_hex_chars(&chars)
}

fn is_white_space(c: char) -> (r: bool)
    ensures
        r == white_space(c),
{
    ('\u{9}' <= c && c <= '\u{d}') || c == ' ' || c == '\u{85}' || c == '\u{a0}' || c == '\u{1680}'
        || ('\u{2000}' <= c && c <= '\u{200a}') || c == '\u{2028}' || c == '\u{2029}' || c
        == '\u{202f}' || c == '\u{205f}' || c == '\u{3000}'
}

/// The views of the words of a split text.
pub open spec fn word_views(v: Seq<Vec<char>>) -> Seq<Seq<char>> {
    v.map_values(|w: Vec<char>| w@)
}

/// Splits a text into its words.
pub fn split_words(line: &str) -> (r: Vec<Vec<char>>)
    ensures
        word_views(r@) == words(line@),
{
    let s = to_chars(line);
    let mut found: Vec<Vec<char>> = Vec::new();
    let mut i: usize = 0;
    assert(s@.skip(0) =~= s@);
    assert(word_views(found@) =~= Seq::<Seq<char>>::empty());
    assert(word_views(found@) + words(s@) =~= words(s@));
    while i < s.len()
        invariant
            i <= s.len(),
            s@ == line@,
            word_views(found@) + words(s@.skip(i as int)) == words(s@),
        decreases s.len() - i,
    {
        let ghost rest = s@.skip(i as int);
        if is_white_space(s[i]) {
            assert(rest.skip(1) =~= s@.skip(i + 1));
            i += 1;
        } else {
            let mut word: Vec<char> = Vec::new();
            let start = i;
            while i < s.len() && !is_white_space(s[i])
                invariant
                    start <= i <= s.len(),
                    rest == s@.skip(start as int),
                    word@ == rest.take(i - start),
                    forall|k: int| 0 <= k < i - start ==> !white_space(#[trigger] rest[k]),
                decreases s.len() - i,
            {
                assert(rest[i - start] == s@[i as int]);
                word.push(s[i]);
                i += 1;
                assert(word@ =~= rest.take(i - start));
            }
            let ghost n = i - start;
            proof {
                assert(n < rest.len() ==> rest[n] == s@[i as int]);
                lemma_word_len_unique(rest, n);
                assert(rest[0] == s@[start as int]);
                assert(rest.skip(n) =~= s@.skip(i as int));
            }
            let ghost before = word_views(found@);
            found.push(word);
            proof {
                assert(word_views(found@) =~= before.push(rest.take(n)));
                assert(word_views(found@) + words(s@.skip(i as int)) =~= before + words(rest));
            }
        }
    }
    assert(words(s@.skip(i as int)) =~= Seq::<Seq<char>>::empty());
    assert(word_views(found@) =~= words(s@));
    found
}

/// `String::push` of the standard library. Claimed: it adds the character at the end of the text.
pub assume_specification[ String::push ](s: &mut String, ch: char)
    ensures
        final(s)@ == old(s)@.push(ch),
;

fn digit_of(d: u64) -> (c: char)
    requires
        d < 16,
    ensures
        c == digit_char(d as nat),
{
    if d < 10 {
        ('0' as u8 + d as u8) as char
    } else {
        ('a' as u8 + (d - 10) as u8) as char
    }
}

/// The decimal text of a number.
pub fn decimal(n: u64) -> (r: String)
    ensures
        r@ == decimal_digits(n as nat),
    decreases n,
{
    if n < 10 {
        let mut r = String::new();
        r.push(digit_of(n));
        r
    } else {
        let mut r = decimal(n / 10);
        r.push(digit_of(n % 10));
        r
    }
}

fn hex(n: u64, width: u64) -> (r: String)
    ensures
        r@ == hex_digits(n as nat, width as nat),
    decreases width,
{
    if width == 0 {
        String::new()
    } else {
        let mut r = hex(n / 16, width - 1);
        r.push(digit_of(n % 16));
        r
    }
}

/// The text of an address: `0x` and 16 digits.
pub fn address(a: u64) -> (r: String)
    ensures
        r@ == address_text(a),
{
    let mut r = String::new();
    proof {
        reveal_strlit("0x");
    }
    r.append("0x");
    r.append(hex(a, 16).as_str());
    assert(r@ =~= address_text(a));
    r
}

/// The decimal text of a number with zeros in front up to three digits.
pub fn decimal_padded3(n: u64) -> (r: String)
    ensures
        r@ == zero_padded(decimal_digits(n as nat), 3),
{
    let digits = decimal(n);
    let mut r = String::new();
    proof {
        reveal_strlit("0");
        reveal_strlit("00");
        lemma_decimal_len(n as nat);
    }
    if n < 10 {
        r.append("00");
    } else if n < 100 {
        r.append("0");
    }
    r.append(digits.as_str());
    assert(r@ =~= zero_padded(decimal_digits(n as nat), 3));
    r
}

proof fn lemma_decimal_len(n: nat)
    ensures
        n < 10 ==> decimal_digits(n).len() == 1,
        10 <= n < 100 ==> decimal_digits(n).len() == 2,
        100 <= n ==> decimal_digits(n).len() >= 3,
{
    if n >= 10 {
        assert(decimal_digits(n).len() == decimal_digits(n / 10).len() + 1);
        if n >= 100 {
            assert(decimal_digits(n / 10).len() == decimal_digits(n / 10 / 10).len() + 1);
            lemma_decimal_digits(n / 10 / 10);
        }
    }
}

/// Whether a text starts with a prefix.
pub fn starts_with(s: &str, prefix: &str) -> (r: bool)
    ensures
        r == prefix@.is_prefix_of(s@),
{
    let t = to_chars(s);
    let p = to_chars(prefix);
    if p.len() > t.len() {
        return false;
    }
    let mut i: usize = 0;
    while i < p.len()
        invariant
            t@ == s@,
            p@ == prefix@,
            i <= p.len() <= t.len(),
            forall|k: int| 0 <= k < i ==> p@[k] == t@[k],
        decreases p.len() - i,
    {
        if p[i] != t[i] {
            assert(p@[i as int] != t@.subrange(0, p@.len() as int)[i as int]);
            return false;
        }
        i += 1;
    }
    assert(p@ =~= t@.subrange(0, p@.len() as int));
    true
}

/// Whether two texts are the same.
pub fn same_text(a: &str, b: &str) -> (r: bool)
    ensures
        r == (a@ == b@),
{
    let a_in_b = starts_with(b, a);
    let b_in_a = starts_with(a, b);
    proof {
        if a_in_b && b_in_a {
            assert(b@.subrange(0, a@.len() as int) =~= b@);
        } else if a@ == b@ {
            assert(a@ =~= b@.subrange(0, a@.len() as int));
        }
    }
    a_in_b && b_in_a
}

/// Whether a character is a digit with a value: `0` to `9`, then `a` to `f` in either case.
pub open spec fn is_digit(c: char, d: nat) -> bool {
    ||| d < 10 && c as nat == 0x30 + d
    ||| 10 <= d < 16 && (c as nat == 0x61 + d - 10 || c as nat == 0x41 + d - 10)
}

/// Law: a single digit of the radix is a number if it is not too large; a digit more makes a number
/// `radix` times as large and adds the digit, and what is too large stays so with more digits. A
/// plus sign in front changes nothing.
pub proof fn law_unsigned(s: Seq<char>, c: char, d: nat, radix: nat, max: nat)
    requires
        is_digit(c, d),
        d < radix <= 16,
    ensures
        unsigned(seq![c], radix, max) == if d <= max {
            Some(d)
        } else {
            None
        },
        unsigned(s, radix, max) matches Some(v) ==> unsigned(s.push(c), radix, max) == if v * radix
            + d <= max {
            Some(v * radix + d)
        } else {
            None
        },
        s.len() > 0 && s[0] != '+' && unsigned(s, radix, max) is None ==> unsigned(
            s.push(c),
            radix,
            max,
        ) is None,
        s.len() > 0 && s[0] != '+' ==> unsigned(seq!['+'] + s, radix, max) == unsigned(
            s,
            radix,
            max,
        ),
{
    reveal_with_fuel(digits_value, 2);
    assert(digit_value(c) == d);
    let one = seq![c];
    assert(without_plus(one) == one);
    assert(one.drop_last() =~= Seq::<char>::empty());
    assert(all_digits(one, radix));
    let digits = without_plus(s);
    let more = s.push(c);
    if s.len() > 0 {
        assert(without_plus(more) =~= digits.push(c));
        assert(digits.push(c).drop_last() =~= digits);
        let v = digits_value(digits, radix);
        assert(v <= v * radix) by (nonlinear_arith)
            requires
                radix >= 1,
        ;
        if all_digits(digits, radix) {
            assert(all_digits(digits.push(c), radix));
        } else {
            let i = choose|i: int|
                0 <= i < digits.len() && !(digit_value(#[trigger] digits[i]) < radix);
            assert(digits.push(c)[i] == digits[i]);
        }
        assert(without_plus(seq!['+'] + s) =~= s);
    }
}

/// Law: an empty text is no number, nor a plus sign alone, nor a text with a character, other than a
/// plus sign in front, that is no digit of the radix.
pub proof fn law_no_number(s: Seq<char>, i: int, radix: nat, max: nat)
    requires
        radix <= 16,
        0 <= i < s.len(),
        i > 0 || s[0] != '+',
        forall|d: nat| d < radix ==> !#[trigger] is_digit(s[i], d),
    ensures
        unsigned(s, radix, max) is None,
        unsigned(Seq::<char>::empty(), radix, max) is None,
        unsigned(seq!['+'], radix, max) is None,
{
    let digits = without_plus(s);
    let j = if s[0] == '+' {
        i - 1
    } else {
        i
    };
    assert(digits[j] == s[i]);
    if digit_value(s[i]) < radix {
        assert(is_digit(s[i], digit_value(s[i])));
    }
    assert(without_plus(seq!['+']) =~= Seq::<char>::empty());
}

/// Law: an address is read the same with and without `0x` in front; without it, it is a hexadecimal
/// number of at most 64 bits.
pub proof fn law_hex_address(s: Seq<char>)
    ensures
        hex_address(seq!['0', 'x'] + s) == hex_address(s),
        !(seq!['0', 'x']).is_prefix_of(s) ==> hex_address(s) == unsigned(
            s,
            16,
            0xffff_ffff_ffff_ffff,
        ),
{
    let more = seq!['0', 'x'] + s;
    assert(more.skip(2) =~= s);
    if s.len() >= 2 && s[0] == '0' && s[1] == 'x' {
        assert(seq!['0', 'x'] =~= s.subrange(0, 2));
    }
}

/// Law: the decimal text of a number consists of the digits `0` to `9`, and only 0 starts with a
/// zero.
pub proof fn law_decimal_text(n: nat, i: int)
    requires
        0 <= i < decimal_digits(n).len(),
    ensures
        '0' <= decimal_digits(n)[i] <= '9',
        decimal_digits(n)[0] == '0' ==> n == 0,
    decreases n,
{
    lemma_decimal_digits(n);
    assert(digit_value(decimal_digits(n)[i]) < 10);
    if n >= 10 {
        lemma_decimal_digits(n / 10);
        law_decimal_text(n / 10, 0);
        assert(decimal_digits(n)[0] == decimal_digits(n / 10)[0]);
        lemma_decimal_char(n, i);
    }
}

proof fn lemma_decimal_char(n: nat, i: int)
    requires
        0 <= i < decimal_digits(n).len(),
    ensures
        '0' <= decimal_digits(n)[i] <= '9',
    decreases n,
{
    if n >= 10 && i < decimal_digits(n / 10).len() {
        lemma_decimal_char(n / 10, i);
    }
}

/// Law: the text of an address is `0x` and sixteen digits, the letters among them in lower case.
pub proof fn law_address_text(a: u64, i: int)
    requires
        0 <= i < 16,
    ensures
        address_text(a).len() == 18,
        address_text(a)[0] == '0',
        address_text(a)[1] == 'x',
        ({
            let c = address_text(a)[2 + i];
            '0' <= c <= '9' || 'a' <= c <= 'f'
        }),
{
    lemma_hex_chars(a as nat, 16, i);
}

proof fn lemma_hex_chars(n: nat, width: nat, i: int)
    requires
        0 <= i < width,
    ensures
        hex_digits(n, width).len() == width,
        ({
            let c = hex_digits(n, width)[i];
            '0' <= c <= '9' || 'a' <= c <= 'f'
        }),
    decreases width,
{
    let w = (width - 1) as nat;
    if w > 0 {
        lemma_hex_chars(n / 16, w, if i < w {
            i
        } else {
            0
        });
    } else {
        assert(hex_digits(n / 16, 0).len() == 0);
    }
}

/// A word with a comma behind it, and then a label, behind a text that ends in white space.
pub(crate) proof fn lemma_add_item(t: Seq<char>, w: Seq<char>, label: Seq<char>, between: Seq<char>)
    requires
        t.len() > 0,
        white_space(t.last()),
        is_word(w),
        is_word(label),
        between == seq![',', ' '] + label + seq![' '],
    ensures
        words(t + w + between) == words(t).push(w + seq![',']).push(label),
        white_space((t + w + between).last()),
{
    let item = w + seq![','];
    assert(is_word(item)) by {
        assert forall|i: int| 0 <= i < item.len() implies !white_space(#[trigger] item[i]) by {
            if i < w.len() {
                assert(item[i] == w[i]);
            }
        }
    }
    lemma_add_word(t, item, ' ');
    let a = t + item + seq![' '];
    lemma_add_word(a, label, ' ');
    assert(t + w + between =~= a + label + seq![' ']);
}

/// A last word, and then a closing brace, behind a text that ends in white space.
pub(crate) proof fn lemma_add_end(t: Seq<char>, w: Seq<char>)
    requires
        t.len() > 0,
        white_space(t.last()),
        is_word(w),
    ensures
        words(t + w + " }"@) == words(t).push(w).push(seq!['}']),
{
    reveal_strlit(" }");
    lemma_add_word(t, w, ' ');
    let a = t + w + seq![' '];
    let brace = seq!['}'];
    law_words_of_two(a, brace);
    assert(joined(seq![brace]) == brace);
    law_words_of_joined(seq![brace]);
    assert(t + w + " }"@ =~= a + brace);
    assert(words(t).push(w) + seq![brace] =~= words(t).push(w).push(brace));
}

} // verus!
