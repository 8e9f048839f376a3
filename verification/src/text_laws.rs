//! How texts are read and written: numbers, hexadecimal digits, places and parts.
use crate::hextext::{hex_chars, hex_digit, spells, spells_byte};
use crate::proposal::ProposalAction;
use crate::text::{
    begins_with, comma_parts, decimal, digits_fault, digits_value, first_place, is_white_space,
    kept_part, last_place, lemma_first_place, lemma_last_place, number_fault, number_in,
    signed_number_in, trimmed, without_back_space, without_front_space, NumberFault,
};
use vstd::prelude::*;
use vstd::string::*;

verus! {

/// A decimal digit with its value.
pub open spec fn is_digit(c: char, d: int) -> bool {
    ||| c == '0' && d == 0
    ||| c == '1' && d == 1
    ||| c == '2' && d == 2
    ||| c == '3' && d == 3
    ||| c == '4' && d == 4
    ||| c == '5' && d == 5
    ||| c == '6' && d == 6
    ||| c == '7' && d == 7
    ||| c == '8' && d == 8
    ||| c == '9' && d == 9
}

/// A number is written in decimal digits, the last of which is its remainder by ten, and without
/// a zero in front.
pub proof fn law_numbers_are_written_in_decimal(n: nat)
    ensures
        decimal(n).len() > 0,
        is_digit(decimal(n).last(), (n % 10) as int),
        n < 10 ==> decimal(n).len() == 1,
        n >= 10 ==> decimal(n).drop_last() == decimal(n / 10) && decimal(n)[0] != '0',
    decreases n,
{
    if n >= 10 {
        assert(decimal(n).drop_last() =~= decimal(n / 10));
        law_numbers_are_written_in_decimal(n / 10);
        assert(decimal(n)[0] == decimal(n / 10)[0]);
        if n / 10 < 10 {
            assert(decimal(n / 10)[0] == decimal(n / 10).last());
        }
    }
}

/// Digits are read from the left: each makes the number ten times what it was, and adds its
/// value. A text with anything else in it is no number.
pub proof fn law_digits_are_read(s: Seq<char>, c: char, d: int)
    ensures
        digits_value(Seq::empty()) == Some(0nat),
        is_digit(c, d) ==> digits_value(s.push(c)) == match digits_value(s) {
            Some(n) => Some((10 * n + d) as nat),
            None => None,
        },
        !('0' <= c <= '9') ==> digits_value(s.push(c)) is None,
{
    assert(s.push(c).drop_last() =~= s);
}

proof fn lemma_decimal_reads(n: nat)
    ensures
        digits_value(decimal(n)) == Some(n),
        decimal(n).len() > 0,
        '0' <= decimal(n)[0] <= '9',
    decreases n,
{
    if n >= 10 {
        lemma_decimal_reads(n / 10);
        assert(decimal(n).drop_last() =~= decimal(n / 10));
        assert(decimal(n)[0] == decimal(n / 10)[0]);
    } else {
        assert(decimal(n).drop_last() =~= Seq::empty());
        assert(digits_value(decimal(n).drop_last()) == Some(0nat));
    }
    assert(decimal(n).last() as nat == 48 + n % 10);
}

/// What was written is read back, with or without a plus, and with a minus it is the number's
/// opposite; each as long as it is in range.
pub proof fn law_numbers_are_read_back(n: nat)
    ensures
        number_in(decimal(n)) == if n <= u64::MAX {
            Some(n as u64)
        } else {
            None
        },
        number_in(seq!['+'] + decimal(n)) == number_in(decimal(n)),
        number_in(seq!['-'] + decimal(n)) is None,
        signed_number_in(decimal(n)) == if n <= i64::MAX {
            Some(n as i64)
        } else {
            None
        },
        signed_number_in(seq!['+'] + decimal(n)) == signed_number_in(decimal(n)),
        signed_number_in(seq!['-'] + decimal(n)) == if n <= 0x8000_0000_0000_0000 {
            Some((-(n as int)) as i64)
        } else {
            None
        },
{
    lemma_decimal_reads(n);
    let plus = seq!['+'] + decimal(n);
    let minus = seq!['-'] + decimal(n);
    assert(plus.skip(1) =~= decimal(n));
    assert(minus.skip(1) =~= decimal(n));
    lemma_not_digits(minus, 0);
    assert(decimal(n)[0] != '+' && decimal(n)[0] != '-');
}

proof fn lemma_not_digits(s: Seq<char>, i: int)
    requires
        0 <= i < s.len(),
        !('0' <= s[i] <= '9'),
    ensures
        digits_value(s) is None,
    decreases s.len(),
{
    if i < s.len() - 1 {
        lemma_not_digits(s.drop_last(), i);
    }
}

/// A text is no number where it is empty, or where, after a sign in front that is not alone,
/// anything but digits stands in it.
pub proof fn law_other_texts_are_no_numbers(s: Seq<char>, i: int)
    ensures
        number_in(Seq::empty()) is None,
        signed_number_in(Seq::empty()) is None,
        0 < i < s.len() && !('0' <= s[i] <= '9') ==> number_in(s) is None && signed_number_in(s)
            is None,
        s.len() > 0 && !('0' <= s[0] <= '9') && s[0] != '+' ==> number_in(s) is None,
        s.len() > 0 && !('0' <= s[0] <= '9') && s[0] != '+' && s[0] != '-' ==> signed_number_in(s)
            is None,
        s.len() == 1 && !('0' <= s[0] <= '9') ==> number_in(s) is None && signed_number_in(s)
            is None,
{
    if 0 < i < s.len() && !('0' <= s[i] <= '9') {
        assert(s.skip(1)[i - 1] == s[i]);
        lemma_not_digits(s.skip(1), i - 1);
        lemma_not_digits(s, i);
    }
    if s.len() > 0 && !('0' <= s[0] <= '9') {
        lemma_not_digits(s, 0);
    }
}

/// How faults of numbers are told.
pub proof fn law_number_faults_are_told(s: Seq<char>)
    ensures
        NumberFault::Empty.said() == "cannot parse integer from empty string"@,
        NumberFault::InvalidDigit.said() == "invalid digit found in string"@,
        NumberFault::TooLarge.said() == "number too large to fit in target type"@,
        NumberFault::TooSmall.said() == "number too small to fit in target type"@,
        number_fault(Seq::empty()) == Some(NumberFault::Empty),
{
}

/// White space, as Unicode has it.
pub proof fn law_white_space(c: char)
    ensures
        is_white_space(c) <==> c == ' ' || (9 <= c as u32 && c as u32 <= 13) || c as u32 == 0x85
            || c as u32 == 0xA0 || c as u32 == 0x1680 || (0x2000 <= c as u32 && c as u32 <= 0x200A)
            || c as u32 == 0x2028 || c as u32 == 0x2029 || c as u32 == 0x202F || c as u32 == 0x205F
            || c as u32 == 0x3000,
{
}

/// What is left of a text that is trimmed: a piece of it, with white space all around and none
/// at its ends.
pub proof fn law_trimmed_texts(s: Seq<char>) -> (ends: (int, int))
    ensures
        0 <= ends.0 <= ends.1 <= s.len(),
        trimmed(s) == s.subrange(ends.0, ends.1),
        forall|i: int| 0 <= i < ends.0 ==> is_white_space(#[trigger] s[i]),
        forall|i: int| ends.1 <= i < s.len() ==> is_white_space(#[trigger] s[i]),
        ends.0 < ends.1 ==> !is_white_space(s[ends.0]) && !is_white_space(s[ends.1 - 1]),
{
    let a = lemma_front(s);
    let t = s.skip(a);
    let b = lemma_back(t);
    assert(trimmed(s) =~= s.subrange(a, a + b));
    assert forall|i: int| a + b <= i < s.len() implies is_white_space(#[trigger] s[i]) by {
        assert(t[i - a] == s[i]);
    }
    if b > 0 {
        assert(t[0] == s[a]);
        assert(t[b - 1] == s[a + b - 1]);
    }
    (a, a + b)
}

proof fn lemma_front(s: Seq<char>) -> (a: int)
    ensures
        0 <= a <= s.len(),
        without_front_space(s) == s.skip(a),
        forall|i: int| 0 <= i < a ==> is_white_space(#[trigger] s[i]),
        a < s.len() ==> !is_white_space(s[a]),
    decreases s.len(),
{
    if s.len() > 0 && is_white_space(s[0]) {
        let b = lemma_front(s.skip(1));
        assert(s.skip(1).skip(b) =~= s.skip(b + 1));
        assert forall|i: int| 0 <= i < b + 1 implies is_white_space(#[trigger] s[i]) by {
            if i > 0 {
                assert(s.skip(1)[i - 1] == s[i]);
            }
        }
        if b + 1 < s.len() {
            assert(s.skip(1)[b] == s[b + 1]);
        }
        b + 1
    } else {
        assert(s.skip(0) =~= s);
        0
    }
}

proof fn lemma_back(s: Seq<char>) -> (b: int)
    ensures
        0 <= b <= s.len(),
        without_back_space(s) == s.take(b),
        forall|i: int| b <= i < s.len() ==> is_white_space(#[trigger] s[i]),
        b > 0 ==> !is_white_space(s[b - 1]),
    decreases s.len(),
{
    if s.len() > 0 && is_white_space(s.last()) {
        let t = s.drop_last();
        let b = lemma_back(t);
        assert(t.take(b) =~= s.take(b));
        assert forall|i: int| b <= i < s.len() implies is_white_space(#[trigger] s[i]) by {
            if i < t.len() {
                assert(t[i] == s[i]);
            }
        }
        if b > 0 {
            assert(t[b - 1] == s[b - 1]);
        }
        b
    } else {
        assert(s.take(s.len() as int) =~= s);
        s.len() as int
    }
}

/// The first and the last place of a character in a text, and none where it is not there.
pub proof fn law_places(s: Seq<char>, c: char)
    ensures
        match first_place(s, c) {
            Some(i) => 0 <= i < s.len() && s[i] == c && forall|j: int|
                0 <= j < i ==> #[trigger] s[j] != c,
            None => !s.contains(c),
        },
        match last_place(s, c) {
            Some(i) => 0 <= i < s.len() && s[i] == c && forall|j: int|
                i < j < s.len() ==> #[trigger] s[j] != c,
            None => !s.contains(c),
        },
{
    lemma_first_place(s, c);
    lemma_last_place(s, c);
}

/// A text begins with another exactly where the other is its front.
pub proof fn law_beginnings(text: Seq<char>, prefix: Seq<char>)
    ensures
        begins_with(text, prefix) <==> prefix.len() <= text.len() && forall|i: int|
            0 <= i < prefix.len() ==> #[trigger] text[i] == prefix[i],
{
    if prefix.len() <= text.len() {
        let n = prefix.len() as int;
        if forall|i: int| 0 <= i < prefix.len() ==> #[trigger] text[i] == prefix[i] {
            assert(text.take(n) =~= prefix);
        }
        if text.take(n) == prefix {
            assert forall|i: int| 0 <= i < prefix.len() implies #[trigger] text[i] == prefix[i] by {
                assert(text.take(n)[i] == text[i]);
            }
        }
    }
}

/// The parts between commas, each trimmed, without the empty ones, in their order.
pub proof fn law_parts_between_commas(part: Seq<char>, rest: Seq<char>)
    requires
        !part.contains(','),
    ensures
        trimmed(part).len() == 0 ==> comma_parts(part).len() == 0 && comma_parts(
            part.push(',') + rest,
        ) == comma_parts(rest),
        trimmed(part).len() > 0 ==> comma_parts(part) == seq![trimmed(part)] && comma_parts(
            part.push(',') + rest,
        ) == seq![trimmed(part)] + comma_parts(rest),
{
    let s = part.push(',') + rest;
    lemma_first_place(part, ',');
    lemma_first_place(s, ',');
    let n = part.len() as int;
    assert(s[n] == ',');
    assert(s.contains(','));
    let i = first_place(s, ',')->0;
    assert(i == n) by {
        if i < n {
            assert(part[i] == s[i]);
            assert(part.contains(','));
        }
    }
    assert(s.take(n) =~= part);
    assert(s.skip(n + 1) =~= rest);
    assert(kept_part(part) + comma_parts(rest) =~= if trimmed(part).len() > 0 {
        seq![trimmed(part)] + comma_parts(rest)
    } else {
        comma_parts(rest)
    });
}

/// Bytes are written in two hexadecimal digits each, the higher first, in small letters; digits
/// are read in small letters and in capitals.
pub proof fn law_hexadecimal_digits(bytes: Seq<u8>, i: int, b: u8)
    ensures
        hex_chars(bytes).len() == 2 * bytes.len(),
        0 <= i < bytes.len() ==> hex_chars(bytes)[2 * i] == "0123456789abcdef"@[(bytes[i] / 16) as int]
            && hex_chars(bytes)[2 * i + 1] == "0123456789abcdef"@[(bytes[i] % 16) as int],
        hex_digit(b) == if 48 <= b <= 57 {
            Some((b - 48) as nat)
        } else if 97 <= b <= 102 {
            Some((b - 87) as nat)
        } else if 65 <= b <= 70 {
            Some((b - 55) as nat)
        } else {
            None
        },
{
    reveal_strlit("0123456789abcdef");
    if 0 <= i < bytes.len() {
        assert((2 * i) / 2 == i && (2 * i) % 2 == 0);
        assert((2 * i + 1) / 2 == i && (2 * i + 1) % 2 == 1);
    }
}

/// The value of the digits in the place of a byte, where both are digits.
pub open spec fn spelled(digits: Seq<u8>, i: int) -> Option<int> {
    match (hex_digit(digits[2 * i]), hex_digit(digits[2 * i + 1])) {
        (Some(high), Some(low)) => Some((16 * high + low) as int),
        _ => None,
    }
}

/// Digits spell bytes where there are two for each, and each two are its value.
pub proof fn law_digits_spell_bytes(digits: Seq<u8>, bytes: Seq<u8>)
    ensures
        spells(digits, bytes) <==> digits.len() == 2 * bytes.len() && forall|i: int|
            0 <= i < bytes.len() ==> #[trigger] spelled(digits, i) == Some(bytes[i] as int),
{
    if spells(digits, bytes) {
        assert forall|i: int| 0 <= i < bytes.len() implies #[trigger] spelled(digits, i) == Some(
            bytes[i] as int,
        ) by {
            assert(spells_byte(digits, i, bytes[i]));
        }
    }
    if digits.len() == 2 * bytes.len() && forall|i: int|
        0 <= i < bytes.len() ==> #[trigger] spelled(digits, i) == Some(bytes[i] as int) {
        assert forall|i: int| 0 <= i < bytes.len() implies spells_byte(
            digits,
            i,
            #[trigger] bytes[i],
        ) by {
            assert(spelled(digits, i) == Some(bytes[i] as int));
        }
    }
}

/// How what a proposal asks for is told.
pub proof fn law_proposals_are_told(v: u64, id: u64, name: String)
    ensures
        ProposalAction::SetBaseFeePerByte(v).said() == "Fijar fee base por byte = "@ + decimal(
            v as nat,
        ),
        ProposalAction::SetDustThreshold(v).said() == "Fijar umbral de polvo = "@ + decimal(
            v as nat,
        ),
        ProposalAction::SetGasPricePerFuel(v).said() == "Fijar precio de gas por fuel = "@
            + decimal(v as nat),
        ProposalAction::SetStakingCommissionBps(v).said() == "Fijar comisión de staking = "@
            + decimal(v as nat) + " bps"@,
        ProposalAction::SetEmissionApr(v).said() == "Fijar emisión (APR) = "@ + decimal(v as nat)
            + " bps"@,
        (ProposalAction::ActivateAlgorithm { name, algorithm: id }).said() == "Activar algoritmo "@
            + name@ + " (id "@ + decimal(id as nat) + ")"@,
        ProposalAction::DeprecateAlgorithm(id).said() == "Deprecar algoritmo id "@ + decimal(
            id as nat,
        ),
        ProposalAction::RetireAlgorithm(id).said() == "Retirar algoritmo id "@ + decimal(id as nat),
{
}

/// A number out of range is told to be too large or too small, and a sign alone or anything else
/// that is no digit to be no digit.
pub proof fn law_number_faults(n: nat, c: char)
    ensures
        number_fault(decimal(n)) == if n <= i64::MAX {
            None
        } else {
            Some(NumberFault::TooLarge)
        },
        number_fault(seq!['+'] + decimal(n)) == number_fault(decimal(n)),
        number_fault(seq!['-'] + decimal(n)) == if n <= 0x8000_0000_0000_0000 {
            None
        } else {
            Some(NumberFault::TooSmall)
        },
        !('0' <= c <= '9') ==> number_fault(seq![c]) == Some(NumberFault::InvalidDigit),
{
    lemma_decimal_reads(n);
    lemma_decimal_fault(n, false);
    lemma_decimal_fault(n, true);
    assert((seq!['+'] + decimal(n)).skip(1) =~= decimal(n));
    assert((seq!['-'] + decimal(n)).skip(1) =~= decimal(n));
    assert(seq![c].drop_last() =~= Seq::empty());
    assert(digits_fault(seq![c].drop_last(), false) is None);
}

proof fn lemma_decimal_fault(n: nat, negative: bool)
    ensures
        digits_fault(decimal(n), negative) == if negative && n > 0x8000_0000_0000_0000 {
            Some(NumberFault::TooSmall)
        } else if !negative && n > i64::MAX {
            Some(NumberFault::TooLarge)
        } else {
            None
        },
    decreases n,
{
    lemma_decimal_reads(n);
    if n >= 10 {
        lemma_decimal_fault(n / 10, negative);
        assert(decimal(n).drop_last() =~= decimal(n / 10));
    } else {
        assert(decimal(n).drop_last() =~= Seq::empty());
        assert(digits_fault(decimal(n).drop_last(), negative) is None);
    }
    assert('0' <= decimal(n).last() <= '9');
}

} // verus!
