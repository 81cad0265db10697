//! The lines that the reports of copies have in common.
use crate::log_parser::LogRecord;
use crate::text;
use vstd::prelude::*;
use vstd::string::*;

verus! {

/// The line above a copy.
pub const DOUBLE_RULE: &'static str =
    "=============================================================\n";

/// The line between what is said of a copy and its accesses.
pub const RULE: &'static str = "-------------------------------------------------------------\n";

/// The line of an access, with the number that it has in its copy.
pub open spec fn access_line(number: Seq<char>, access: LogRecord) -> Seq<char> {
    "  ["@ + number + "] CPU: "@ + text::decimal_digits(access.cpu as nat) + " | INSN: "@
        + text::decimal_digits(access.insn_count as nat) + " | ADDR: "@ + text::address_text(
        access.address,
    ) + " | TYPE: "@ + (if access.store == 1 {
        "STORE"@
    } else {
        "LOAD"@
    }) + " | SIZE: 2^"@ + text::decimal_digits(access.size as nat) + "\n"@
}

/// Adds the line of an access.
pub fn append_access_line(out: &mut String, number: &str, access: &LogRecord)
    ensures
        final(out)@ == old(out)@ + access_line(number@, *access),
{
    out.append("  [");
    out.append(number);
    out.append("] CPU: ");
    out.append(text::decimal(access.cpu as u64).as_str());
    out.append(" | INSN: ");
    out.append(text::decimal(access.insn_count).as_str());
    out.append(" | ADDR: ");
    out.append(text::address(access.address).as_str());
    out.append(" | TYPE: ");
    out.append(if access.store == 1 {
        "STORE"
    } else {
        "LOAD"
    });
    out.append(" | SIZE: 2^");
    out.append(text::decimal(access.size as u64).as_str());
    out.append("\n");
    assert(out@ =~= old(out)@ + access_line(number@, *access));
}

/// The line of the addresses that a copy goes from and to.
pub open spec fn addresses_line(from: u64, to: u64) -> Seq<char> {
    "Source (From): "@ + text::address_text(from) + " -> Destination (To): "@ + text::address_text(
        to,
    ) + "\n"@
}

/// Adds the line of the addresses of a copy.
pub fn append_addresses_line(out: &mut String, from: u64, to: u64)
    ensures
        final(out)@ == old(out)@ + addresses_line(from, to),
{
    out.append("Source (From): ");
    out.append(text::address(from).as_str());
    out.append(" -> Destination (To): ");
    out.append(text::address(to).as_str());
    out.append("\n");
    assert(out@ =~= old(out)@ + addresses_line(from, to));
}

pub(crate) proof fn lemma_rules()
    ensures
        DOUBLE_RULE@.len() == 62,
        DOUBLE_RULE@.last() == '\n',
        text::is_word(DOUBLE_RULE@.drop_last()),
        RULE@.len() == 62,
        RULE@.last() == '\n',
        text::is_word(RULE@.drop_last()),
{
    reveal_strlit("=============================================================\n");
    reveal_strlit("-------------------------------------------------------------\n");
}

proof fn lemma_labels()
    ensures
        text::is_word("CPU:"@),
        text::is_word("|"@),
        text::is_word("INSN:"@),
        text::is_word("ADDR:"@),
        text::is_word("TYPE:"@),
        text::is_word("STORE"@),
        text::is_word("LOAD"@),
        text::is_word("SIZE:"@),
        "STORE"@ != "LOAD"@,
{
    reveal_strlit("CPU:");
    reveal_strlit("|");
    reveal_strlit("INSN:");
    reveal_strlit("ADDR:");
    reveal_strlit("TYPE:");
    reveal_strlit("STORE");
    reveal_strlit("LOAD");
    reveal_strlit("SIZE:");
    assert("STORE"@.len() != "LOAD"@.len());
}

/// A number between white space, and then a bar and a label, behind a text that ends in white space.
proof fn lemma_add_field(t: Seq<char>, n: Seq<char>, label: Seq<char>, between: Seq<char>)
    requires
        t.len() > 0,
        text::white_space(t.last()),
        text::is_word(n),
        text::is_word(label),
        between == seq![' '] + "|"@ + seq![' '] + label + seq![' '],
    ensures
        text::words(t + n + between) == text::words(t).push(n).push("|"@).push(label),
        text::white_space((t + n + between).last()),
{
    lemma_labels();
    let a = t + n + seq![' '];
    text::lemma_add_word(t, n, ' ');
    let b = a + "|"@ + seq![' '];
    text::lemma_add_word(a, "|"@, ' ');
    let c = b + label + seq![' '];
    text::lemma_add_word(b, label, ' ');
    assert(t + n + between =~= c);
}

/// Law: the line of an access can be read back. Between its labels stand the number that it has in
/// its copy, in brackets, its processor, its instruction count, its whole address, `STORE` for a
/// store and `LOAD` else, and its size exponent behind `2^`. It starts with white space and ends
/// with the end of the line.
pub proof fn law_access_line(number: Seq<char>, access: LogRecord)
    requires
        text::is_word(number),
    ensures
        ({
            let line = access_line(number, access);
            let words = text::words(line);
            &&& words.len() == 15
            &&& words[0] == seq!['['] + number + seq![']']
            &&& words[1] == "CPU:"@
            &&& text::unsigned(words[2], 10, 255) == Some(access.cpu as nat)
            &&& words[4] == "INSN:"@
            &&& text::unsigned(words[5], 10, u64::MAX as nat) == Some(access.insn_count as nat)
            &&& words[7] == "ADDR:"@
            &&& text::hex_address(words[8]) == Some(access.address as nat)
            &&& words[10] == "TYPE:"@
            &&& words[11] == "STORE"@ <==> access.store == 1
            &&& words[11] == "LOAD"@ <==> access.store != 1
            &&& words[13] == "SIZE:"@
            &&& words[14].len() > 2 && words[14].take(2) == seq!['2', '^']
            &&& text::unsigned(words[14].skip(2), 10, 255) == Some(access.size as nat)
            &&& line.len() > 0 && text::white_space(line[0]) && line.last() == '\n'
        }),
{
    lemma_labels();
    reveal_strlit("  [");
    reveal_strlit("] CPU: ");
    reveal_strlit(" | INSN: ");
    reveal_strlit(" | ADDR: ");
    reveal_strlit(" | TYPE: ");
    reveal_strlit(" | SIZE: 2^");
    reveal_strlit("\n");
    reveal_strlit("CPU:");
    reveal_strlit("|");
    reveal_strlit("INSN:");
    reveal_strlit("ADDR:");
    reveal_strlit("TYPE:");
    reveal_strlit("SIZE:");
    let cpu = text::decimal_digits(access.cpu as nat);
    let insn = text::decimal_digits(access.insn_count as nat);
    let address = text::address_text(access.address);
    let size = text::decimal_digits(access.size as nat);
    let of_type = if access.store == 1 {
        "STORE"@
    } else {
        "LOAD"@
    };
    text::lemma_decimal_is_word(access.cpu as nat);
    text::lemma_decimal_is_word(access.insn_count as nat);
    text::lemma_address_is_word(access.address);
    text::lemma_decimal_is_word(access.size as nat);
    text::law_decimal_round_trip(access.cpu as nat, 255);
    text::law_decimal_round_trip(access.insn_count as nat, u64::MAX as nat);
    text::law_address_round_trip(access.address);
    text::law_decimal_round_trip(access.size as nat, 255);

    let space = seq![' ', ' '];
    lemma_spaces();
    let bracket = seq!['['] + number + seq![']'];
    assert(text::is_word(bracket)) by {
        assert forall|i: int| 0 <= i < bracket.len() implies !text::white_space(
            #[trigger] bracket[i],
        ) by {
            if 0 < i < bracket.len() - 1 {
                assert(bracket[i] == number[i - 1]);
            }
        }
    }
    let a = space + bracket + seq![' '];
    text::lemma_add_word(space, bracket, ' ');
    let b = a + "CPU:"@ + seq![' '];
    text::lemma_add_word(a, "CPU:"@, ' ');
    assert("  ["@ + number + "] CPU: "@ =~= b);
    assert(" | INSN: "@ =~= seq![' '] + "|"@ + seq![' '] + "INSN:"@ + seq![' ']);
    lemma_add_field(b, cpu, "INSN:"@, " | INSN: "@);
    let c = b + cpu + " | INSN: "@;
    assert(" | ADDR: "@ =~= seq![' '] + "|"@ + seq![' '] + "ADDR:"@ + seq![' ']);
    lemma_add_field(c, insn, "ADDR:"@, " | ADDR: "@);
    let d = c + insn + " | ADDR: "@;
    assert(" | TYPE: "@ =~= seq![' '] + "|"@ + seq![' '] + "TYPE:"@ + seq![' ']);
    lemma_add_field(d, address, "TYPE:"@, " | TYPE: "@);
    let e = d + address + " | TYPE: "@;
    let label = seq![' '] + "|"@ + seq![' '] + "SIZE:"@ + seq![' '];
    lemma_add_field(e, of_type, "SIZE:"@, label);
    let f = e + of_type + label;
    let exponent = seq!['2', '^'] + size;
    assert(text::is_word(exponent)) by {
        assert forall|i: int| 0 <= i < exponent.len() implies !text::white_space(
            #[trigger] exponent[i],
        ) by {
            if i >= 2 {
                assert(exponent[i] == size[i - 2]);
            }
        }
    }
    text::lemma_add_word(f, exponent, '\n');
    let g = f + exponent + seq!['\n'];
    assert(" | SIZE: 2^"@ =~= label + seq!['2', '^']);
    let h = e + of_type;
    assert(access_line(number, access) == h + " | SIZE: 2^"@ + size + "\n"@);
    assert(access_line(number, access) =~= g);
    assert(exponent.take(2) =~= seq!['2', '^']);
    assert(exponent.skip(2) =~= size);
    assert(g[0] == ' ') by {
        assert(b[0] == ' ');
        assert(c[0] == b[0]);
        assert(d[0] == c[0]);
        assert(e[0] == d[0]);
        assert(f[0] == e[0]);
    }
}

proof fn lemma_spaces()
    ensures
        text::words(seq![' ', ' ']) == Seq::<Seq<char>>::empty(),
{
    let s = seq![' ', ' '];
    assert(s.skip(1) =~= seq![' ']);
    assert(s.skip(1).skip(1) =~= Seq::<char>::empty());
    assert(text::words(s.skip(1).skip(1)) =~= Seq::<Seq<char>>::empty());
    assert(text::words(s.skip(1)) =~= Seq::<Seq<char>>::empty());
    assert(text::words(s) =~= Seq::<Seq<char>>::empty());
}

/// Law: the line of the addresses of a copy can be read back: its third word is the whole source and
/// its last the whole target.
pub proof fn law_addresses_line(from: u64, to: u64)
    ensures
        ({
            let line = addresses_line(from, to);
            let words = text::words(line);
            &&& words.len() == 7
            &&& words[0] == "Source"@
            &&& words[1] == "(From):"@
            &&& text::hex_address(words[2]) == Some(from as nat)
            &&& words[3] == "->"@
            &&& words[4] == "Destination"@
            &&& words[5] == "(To):"@
            &&& text::hex_address(words[6]) == Some(to as nat)
            &&& line.len() > 0 && line.last() == '\n'
        }),
{
    reveal_strlit("Source (From): ");
    reveal_strlit(" -> Destination (To): ");
    reveal_strlit("\n");
    reveal_strlit("Source");
    reveal_strlit("(From):");
    reveal_strlit("->");
    reveal_strlit("Destination");
    reveal_strlit("(To):");
    text::lemma_address_is_word(from);
    text::lemma_address_is_word(to);
    text::law_address_round_trip(from);
    text::law_address_round_trip(to);
    let none = Seq::<char>::empty();
    assert(text::words(none) =~= Seq::<Seq<char>>::empty());
    let a = none + "Source"@ + seq![' '];
    text::lemma_add_word(none, "Source"@, ' ');
    let b = a + "(From):"@ + seq![' '];
    text::lemma_add_word(a, "(From):"@, ' ');
    assert("Source (From): "@ =~= b);
    let x = text::address_text(from);
    let c = b + x + seq![' '];
    text::lemma_add_word(b, x, ' ');
    let d = c + "->"@ + seq![' '];
    text::lemma_add_word(c, "->"@, ' ');
    let e = d + "Destination"@ + seq![' '];
    text::lemma_add_word(d, "Destination"@, ' ');
    let f = e + "(To):"@ + seq![' '];
    text::lemma_add_word(e, "(To):"@, ' ');
    assert(" -> Destination (To): "@ =~= seq![' '] + "->"@ + seq![' '] + "Destination"@ + seq![' ']
        + "(To):"@ + seq![' ']);
    assert(b + x + " -> Destination (To): "@ =~= f);
    let y = text::address_text(to);
    let g = f + y + seq!['\n'];
    text::lemma_add_word(f, y, '\n');
    assert(addresses_line(from, to) =~= g);
}

} // verus!
