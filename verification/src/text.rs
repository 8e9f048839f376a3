//! Pieces of text.
use vstd::prelude::*;
use vstd::string::*;
use vstd::utf8::*;

verus! {

/// The character of a decimal digit.
pub open spec fn digit_char(d: nat) -> char {
    (48 + d) as char
}

/// `n` in decimal.
pub open spec fn decimal(n: nat) -> Seq<char>
    decreases n,
{
    if n < 10 {
        seq![digit_char(n)]
    } else {
        decimal(n / 10).push(digit_char(n % 10))
    }
}

fn digit_text(d: u64) -> (text: &'static str)
    requires
        d < 10,
    ensures
        text@ == seq![digit_char(d as nat)],
{
    proof {
        reveal_strlit("0");
        reveal_strlit("1");
        reveal_strlit("2");
        reveal_strlit("3");
        reveal_strlit("4");
        reveal_strlit("5");
        reveal_strlit("6");
        reveal_strlit("7");
        reveal_strlit("8");
        reveal_strlit("9");
    }
    let text: &'static str = match d {
        0 => "0",
        1 => "1",
        2 => "2",
        3 => "3",
        4 => "4",
        5 => "5",
        6 => "6",
        7 => "7",
        8 => "8",
        _ => "9",
    };
    proof {
        assert(text@ =~= seq![digit_char(d as nat)]);
    }
    text
}

fn push_decimal(out: &mut String, n: u64)
    ensures
        final(out)@ == old(out)@ + decimal(n as nat),
    decreases n,
{
    let ghost before = out@;
    if n >= 10 {
        push_decimal(out, n / 10);
    }
    out.append(digit_text(n % 10));
    proof {
        assert(out@ =~= before + decimal(n as nat));
    }
}

/// `n` in decimal.
pub fn decimal_text(n: u64) -> (text: String)
    ensures
        text@ == decimal(n as nat),
{
    let mut out: String = String::new();
    push_decimal(&mut out, n);
    proof {
        assert(out@ =~= decimal(n as nat));
    }
    out
}

/// `a` followed by `b`.
pub fn joined(a: &str, b: &str) -> (text: String)
    ensures
        text@ == a@ + b@,
{
    a.to_owned().concat(b)
}

/// Whether two texts are the same.
pub fn same_text(a: &str, b: &str) -> (same: bool)
    ensures
        same == (a@ == b@),
{
    a.to_owned() == b.to_owned()
}

/// `text` begins with `prefix`.
pub open spec fn begins_with(text: Seq<char>, prefix: Seq<char>) -> bool {
    prefix.len() <= text.len() && text.take(prefix.len() as int) == prefix
}

/// Whether `text` begins with `prefix`.
pub fn has_prefix(text: &str, prefix: &str) -> (found: bool)
    ensures
        found == begins_with(text@, prefix@),
{
    let n: usize = prefix.unicode_len();
    if text.unicode_len() < n {
        return false;
    }
    same_text(text.substring_char(0, n), prefix)
}

/// What follows the first `n` characters of `text`.
pub fn after_prefix<'a>(text: &'a str, n: usize) -> (rest: &'a str)
    requires
        n <= text@.len(),
    ensures
        rest@ == text@.skip(n as int),
{
    let rest = text.substring_char(n, text.unicode_len());
    proof {
        assert(rest@ =~= text@.skip(n as int));
    }
    rest
}

/// Calls `String::from_utf8`: the text whose UTF-8 encoding the bytes are, or an error
/// where they are no UTF-8.
#[verifier::external_body]
pub(crate) fn text_from_utf8(bytes: Vec<u8>) -> (text: Option<String>)
    ensures
        match text {
            Some(t) => encode_utf8(t@) == bytes@,
            None => !valid_utf8(bytes@),
        },
{
    String::from_utf8(bytes).ok()
}

/// The characters of a text.
pub fn chars_of(text: &str) -> (chars: Vec<char>)
    ensures
        chars@ == text@,
{
    let mut chars: Vec<char> = Vec::new();
    for c in it: text.chars()
        invariant
            chars@ == it.seq().take(it.index()),
            it.seq() == text@,
    {
        chars.push(c);
        proof {
            assert(chars@ =~= it.seq().take(it.index() + 1));
        }
    }
    proof {
        assert(chars@ =~= text@);
    }
    chars
}

/// A character that counts as white space.
pub open spec fn is_white_space(c: char) -> bool {
    let n = c as u32;
    ||| 0x09 <= n <= 0x0D
    ||| n == 0x20
    ||| n == 0x85
    ||| n == 0xA0
    ||| n == 0x1680
    ||| 0x2000 <= n <= 0x200A
    ||| n == 0x2028
    ||| n == 0x2029
    ||| n == 0x202F
    ||| n == 0x205F
    ||| n == 0x3000
}

fn white_space(c: char) -> (yes: bool)
    ensures
        yes == is_white_space(c),
{
    let n: u32 = c as u32;
    (0x09 <= n && n <= 0x0D) || n == 0x20 || n == 0x85 || n == 0xA0 || n == 0x1680 || (0x2000 <= n
        && n <= 0x200A) || n == 0x2028 || n == 0x2029 || n == 0x202F || n == 0x205F || n == 0x3000
}

/// `s` without the white space at its front.
pub open spec fn without_front_space(s: Seq<char>) -> Seq<char>
    decreases s.len(),
{
    if s.len() > 0 && is_white_space(s[0]) {
        without_front_space(s.skip(1))
    } else {
        s
    }
}

/// `s` without the white space at its back.
pub open spec fn without_back_space(s: Seq<char>) -> Seq<char>
    decreases s.len(),
{
    if s.len() > 0 && is_white_space(s.last()) {
        without_back_space(s.drop_last())
    } else {
        s
    }
}

/// `s` without the white space at either end.
pub open spec fn trimmed(s: Seq<char>) -> Seq<char> {
    without_back_space(without_front_space(s))
}

/// A text without the white space at either end.
pub fn trim<'a>(text: &'a str) -> (inner: &'a str)
    ensures
        inner@ == trimmed(text@),
{
    let chars = chars_of(text);
    let mut start: usize = 0;
    proof {
        assert(chars@.skip(0) =~= chars@);
    }
    while start < chars.len() && white_space(chars[start])
        invariant
            start <= chars@.len(),
            without_front_space(chars@.skip(start as int)) == without_front_space(chars@),
        decreases chars@.len() - start,
    {
        proof {
            assert(chars@.skip(start as int).skip(1) =~= chars@.skip(start + 1));
        }
        start += 1;
    }
    let mut end: usize = chars.len();
    let ghost front = chars@.skip(start as int);
    proof {
        assert(chars@.subrange(start as int, end as int) =~= front);
    }
    while end > start && white_space(chars[end - 1])
        invariant
            start <= end <= chars@.len(),
            without_back_space(chars@.subrange(start as int, end as int)) == without_back_space(
                front,
            ),
        decreases end,
    {
        proof {
            let s = chars@.subrange(start as int, end as int);
            assert(s.last() == chars@[end - 1]);
            assert(s.drop_last() =~= chars@.subrange(start as int, end - 1));
        }
        end -= 1;
    }
    proof {
        let s = chars@.subrange(start as int, end as int);
        if s.len() > 0 {
            assert(s.last() == chars@[end - 1]);
        }
        assert(without_back_space(s) == s);
    }
    text.substring_char(start, end)
}

/// The place of the first `c` in `s`.
pub open spec fn first_place(s: Seq<char>, c: char) -> Option<int>
    decreases s.len(),
{
    if s.len() == 0 {
        None
    } else if s[0] == c {
        Some(0)
    } else {
        match first_place(s.skip(1), c) {
            Some(i) => Some(i + 1),
            None => None,
        }
    }
}

/// The place of the last `c` in `s`.
pub open spec fn last_place(s: Seq<char>, c: char) -> Option<int>
    decreases s.len(),
{
    if s.len() == 0 {
        None
    } else if s.last() == c {
        Some(s.len() - 1)
    } else {
        last_place(s.drop_last(), c)
    }
}

/// The place is one of `c`, and no earlier one is.
pub proof fn lemma_first_place(s: Seq<char>, c: char)
    ensures
        match first_place(s, c) {
            Some(i) => 0 <= i < s.len() && s[i] == c && forall|j: int| 0 <= j < i ==> s[j] != c,
            None => forall|j: int| 0 <= j < s.len() ==> s[j] != c,
        },
    decreases s.len(),
{
    if s.len() > 0 && s[0] != c {
        lemma_first_place(s.skip(1), c);
        let n = match first_place(s, c) {
            Some(i) => i,
            None => s.len() as int,
        };
        assert forall|j: int| 0 <= j < n implies s[j] != c by {
            if j > 0 {
                assert(s[j] == s.skip(1)[j - 1]);
            }
        }
    }
}

/// The place is one of `c`, and no later one is.
pub proof fn lemma_last_place(s: Seq<char>, c: char)
    ensures
        match last_place(s, c) {
            Some(i) => 0 <= i < s.len() && s[i] == c && forall|j: int|
                i < j < s.len() ==> s[j] != c,
            None => forall|j: int| 0 <= j < s.len() ==> s[j] != c,
        },
    decreases s.len(),
{
    if s.len() > 0 && s.last() != c {
        lemma_last_place(s.drop_last(), c);
        let n = match last_place(s, c) {
            Some(i) => i,
            None => -1,
        };
        assert forall|j: int| n < j < s.len() implies s[j] != c by {
            if j < s.len() - 1 {
                assert(s[j] == s.drop_last()[j]);
            }
        }
    }
}

/// The place of the first `c` in a text.
pub fn find_first(text: &str, c: char) -> (place: Option<usize>)
    ensures
        match place {
            Some(i) => first_place(text@, c) == Some(i as int) && i < text@.len(),
            None => first_place(text@, c) is None,
        },
{
    let chars = chars_of(text);
    let mut i: usize = 0;
    proof {
        lemma_first_place(chars@, c);
    }
    while i < chars.len()
        invariant
            i <= chars@.len(),
            chars@ == text@,
            forall|j: int| 0 <= j < i ==> chars@[j] != c,
            match first_place(chars@, c) {
                Some(p) => 0 <= p < chars@.len() && chars@[p] == c && forall|j: int|
                    0 <= j < p ==> chars@[j] != c,
                None => forall|j: int| 0 <= j < chars@.len() ==> chars@[j] != c,
            },
        decreases chars@.len() - i,
    {
        if chars[i] == c {
            return Some(i);
        }
        i += 1;
    }
    None
}

/// The place of the last `c` in a text.
pub fn find_last(text: &str, c: char) -> (place: Option<usize>)
    ensures
        match place {
            Some(i) => last_place(text@, c) == Some(i as int) && i < text@.len(),
            None => last_place(text@, c) is None,
        },
{
    let chars = chars_of(text);
    let mut i: usize = chars.len();
    proof {
        lemma_last_place(chars@, c);
    }
    while i > 0
        invariant
            i <= chars@.len(),
            chars@ == text@,
            forall|j: int| i <= j < chars@.len() ==> chars@[j] != c,
            match last_place(chars@, c) {
                Some(p) => 0 <= p < chars@.len() && chars@[p] == c && forall|j: int|
                    p < j < chars@.len() ==> chars@[j] != c,
                None => forall|j: int| 0 <= j < chars@.len() ==> chars@[j] != c,
            },
        decreases i,
    {
        if chars[i - 1] == c {
            return Some(i - 1);
        }
        i -= 1;
    }
    None
}

/// The number that decimal digits stand for.
pub open spec fn digits_value(s: Seq<char>) -> Option<nat>
    decreases s.len(),
{
    if s.len() == 0 {
        Some(0)
    } else if '0' <= s.last() <= '9' {
        match digits_value(s.drop_last()) {
            Some(n) => Some(10 * n + (s.last() as nat - 48) as nat),
            None => None,
        }
    } else {
        None
    }
}

/// The number that one or more decimal digits stand for, where it stays below two to the
/// power of 64.
pub open spec fn digits_in(s: Seq<char>) -> Option<u64> {
    match digits_value(s) {
        Some(n) => if s.len() > 0 && n <= u64::MAX {
            Some(n as u64)
        } else {
            None
        },
        None => None,
    }
}

/// The number that a text stands for: decimal digits, with a plus sign before them or
/// without.
pub open spec fn number_in(s: Seq<char>) -> Option<u64> {
    if s.len() > 1 && s[0] == '+' {
        digits_in(s.skip(1))
    } else {
        digits_in(s)
    }
}

/// The number that a text stands for: decimal digits, with a plus or minus sign before them
/// or without, from minus two to the power of 63 up to below it.
pub open spec fn signed_number_in(s: Seq<char>) -> Option<i64> {
    if s.len() > 1 && s[0] == '-' {
        match digits_in(s.skip(1)) {
            Some(n) => if n <= 0x8000_0000_0000_0000 {
                Some((-(n as int)) as i64)
            } else {
                None
            },
            None => None,
        }
    } else {
        match number_in(s) {
            Some(n) => if n <= 0x7FFF_FFFF_FFFF_FFFF {
                Some(n as i64)
            } else {
                None
            },
            None => None,
        }
    }
}

proof fn lemma_digits_prefix(s: Seq<char>, i: int)
    requires
        0 <= i <= s.len(),
    ensures
        digits_value(s) is Some ==> digits_value(s.take(i)) is Some && digits_value(s.take(i))->0
            <= digits_value(s)->0,
    decreases s.len() - i,
{
    if i == s.len() {
        assert(s.take(i) =~= s);
    } else {
        lemma_digits_prefix(s, i + 1);
        assert(s.take(i + 1).drop_last() =~= s.take(i));
    }
}

fn parse_digits(text: &str) -> (n: Option<u64>)
    ensures
        n == digits_in(text@),
{
    let chars = chars_of(text);
    let ghost digits = text@;
    if chars.len() == 0 {
        return None;
    }
    let mut n: u64 = 0;
    let mut i: usize = 0;
    proof {
        assert(digits.take(0) =~= Seq::empty());
    }
    while i < chars.len()
        invariant
            0 < chars@.len(),
            i <= chars@.len(),
            chars@ == digits,
            digits == text@,
            digits_value(digits.take(i as int)) == Some(n as nat),
        decreases chars@.len() - i,
    {
        let c: char = chars[i];
        proof {
            assert(digits.take(i + 1).drop_last() =~= digits.take(i as int));
            assert(digits.take(i + 1).last() == c);
            lemma_digits_prefix(digits, i + 1);
        }
        if !('0' <= c && c <= '9') {
            return None;
        }
        let d: u64 = (c as u32 - 48) as u64;
        if n > (u64::MAX - d) / 10 {
            return None;
        }
        n = 10 * n + d;
        i += 1;
    }
    proof {
        assert(digits.take(digits.len() as int) =~= digits);
    }
    Some(n)
}

/// The number that a text stands for.
pub fn parse_number(text: &str) -> (n: Option<u64>)
    ensures
        n == number_in(text@),
{
    if text.unicode_len() > 1 && text.get_char(0) == '+' {
        return parse_digits(after_prefix(text, 1));
    }
    parse_digits(text)
}

/// Why a text stands for no number with a sign.
#[derive(Clone, Copy, Debug, PartialEq, Eq)]
pub enum NumberFault {
    Empty,
    InvalidDigit,
    TooLarge,
    TooSmall,
}

impl NumberFault {
    /// What is said about the fault.
    pub open spec fn said(&self) -> Seq<char> {
        match self {
            NumberFault::Empty => "cannot parse integer from empty string"@,
            NumberFault::InvalidDigit => "invalid digit found in string"@,
            NumberFault::TooLarge => "number too large to fit in target type"@,
            NumberFault::TooSmall => "number too small to fit in target type"@,
        }
    }

    /// The fault in words.
    pub fn message(&self) -> (text: String)
        ensures
            text@ == self.said(),
    {
        match self {
            NumberFault::Empty => "cannot parse integer from empty string".to_owned(),
            NumberFault::InvalidDigit => "invalid digit found in string".to_owned(),
            NumberFault::TooLarge => "number too large to fit in target type".to_owned(),
            NumberFault::TooSmall => "number too small to fit in target type".to_owned(),
        }
    }
}

/// The first fault in a row of digits, from the left: a character that is no digit, or one
/// with which the number goes over its bound.
pub open spec fn digits_fault(s: Seq<char>, negative: bool) -> Option<NumberFault>
    decreases s.len(),
{
    if s.len() == 0 {
        None
    } else if digits_fault(s.drop_last(), negative) is Some {
        digits_fault(s.drop_last(), negative)
    } else if !('0' <= s.last() <= '9') {
        Some(NumberFault::InvalidDigit)
    } else if negative && digits_value(s)->0 > 0x8000_0000_0000_0000 {
        Some(NumberFault::TooSmall)
    } else if !negative && digits_value(s)->0 > 0x7FFF_FFFF_FFFF_FFFF {
        Some(NumberFault::TooLarge)
    } else {
        None
    }
}

/// Why a text stands for no number with a sign, where it stands for none.
pub open spec fn number_fault(s: Seq<char>) -> Option<NumberFault> {
    if s.len() == 0 {
        Some(NumberFault::Empty)
    } else if s.len() > 1 && s[0] == '-' {
        digits_fault(s.skip(1), true)
    } else if s.len() > 1 && s[0] == '+' {
        digits_fault(s.skip(1), false)
    } else {
        digits_fault(s, false)
    }
}

proof fn lemma_digits_fault(s: Seq<char>, negative: bool)
    ensures
        digits_fault(s, negative) is None <==> digits_value(s) is Some && digits_value(s)->0
            <= if negative {
            0x8000_0000_0000_0000
        } else {
            0x7FFF_FFFF_FFFF_FFFFint
        },
    decreases s.len(),
{
    if s.len() > 0 {
        lemma_digits_fault(s.drop_last(), negative);
    }
}

/// A text stands for a number with a sign exactly where there is no fault in it.
pub proof fn law_faults_are_no_numbers(s: Seq<char>)
    ensures
        number_fault(s) is Some <==> signed_number_in(s) is None,
{
    if s.len() > 1 && s[0] == '-' {
        lemma_digits_fault(s.skip(1), true);
    } else if s.len() > 1 && s[0] == '+' {
        lemma_digits_fault(s.skip(1), false);
    } else {
        lemma_digits_fault(s, false);
    }
}

proof fn lemma_fault_stays(s: Seq<char>, i: int, negative: bool)
    requires
        0 <= i <= s.len(),
    ensures
        digits_fault(s.take(i), negative) is Some ==> digits_fault(s, negative) == digits_fault(
            s.take(i),
            negative,
        ),
    decreases s.len() - i,
{
    if i == s.len() {
        assert(s.take(i) =~= s);
    } else {
        lemma_fault_stays(s, i + 1, negative);
        assert(s.take(i + 1).drop_last() =~= s.take(i));
    }
}

fn find_digits_fault(text: &str, negative: bool) -> (fault: Option<NumberFault>)
    ensures
        fault == digits_fault(text@, negative),
{
    let chars = chars_of(text);
    let ghost digits = text@;
    let mut n: u128 = 0;
    let mut i: usize = 0;
    proof {
        assert(digits.take(0) =~= Seq::empty());
    }
    while i < chars.len()
        invariant
            i <= chars@.len(),
            chars@ == digits,
            digits == text@,
            digits_fault(digits.take(i as int), negative) is None,
            digits_value(digits.take(i as int)) == Some(n as nat),
            n <= 0x8000_0000_0000_0000,
        decreases chars@.len() - i,
    {
        let c: char = chars[i];
        proof {
            assert(digits.take(i + 1).drop_last() =~= digits.take(i as int));
            assert(digits.take(i + 1).last() == c);
            lemma_fault_stays(digits, i + 1, negative);
        }
        if !('0' <= c && c <= '9') {
            return Some(NumberFault::InvalidDigit);
        }
        n = 10 * n + (c as u32 - 48) as u128;
        if negative && n > 0x8000_0000_0000_0000 {
            return Some(NumberFault::TooSmall);
        }
        if !negative && n > 0x7FFF_FFFF_FFFF_FFFF {
            return Some(NumberFault::TooLarge);
        }
        i += 1;
    }
    proof {
        assert(digits.take(digits.len() as int) =~= digits);
    }
    None
}

/// Why a text stands for no number with a sign, where it stands for none.
pub fn find_number_fault(text: &str) -> (fault: Option<NumberFault>)
    ensures
        fault == number_fault(text@),
{
    let n: usize = text.unicode_len();
    if n == 0 {
        return Some(NumberFault::Empty);
    }
    if n > 1 && text.get_char(0) == '-' {
        return find_digits_fault(after_prefix(text, 1), true);
    }
    if n > 1 && text.get_char(0) == '+' {
        return find_digits_fault(after_prefix(text, 1), false);
    }
    find_digits_fault(text, false)
}

/// The number that a text stands for, with its sign.
pub fn parse_signed_number(text: &str) -> (n: Option<i64>)
    ensures
        n == signed_number_in(text@),
{
    if text.unicode_len() > 1 && text.get_char(0) == '-' {
        return match parse_digits(after_prefix(text, 1)) {
            Some(n) => if n <= 0x7FFF_FFFF_FFFF_FFFF {
                Some(-(n as i64))
            } else if n == 0x8000_0000_0000_0000 {
                Some(i64::MIN)
            } else {
                None
            },
            None => None,
        };
    }
    match parse_number(text) {
        Some(n) => if n <= 0x7FFF_FFFF_FFFF_FFFF {
            Some(n as i64)
        } else {
            None
        },
        None => None,
    }
}

/// The parts of a text between commas, without white space around them; empty ones are
/// left out.
pub open spec fn comma_parts(s: Seq<char>) -> Seq<Seq<char>>
    decreases s.len(),
{
    match first_place(s, ',') {
        Some(i) => if 0 <= i < s.len() {
            kept_part(s.take(i)) + comma_parts(s.skip(i + 1))
        } else {
            Seq::empty()
        },
        None => kept_part(s),
    }
}

/// The part without white space around it, where it is not empty.
pub open spec fn kept_part(part: Seq<char>) -> Seq<Seq<char>> {
    if trimmed(part).len() > 0 {
        seq![trimmed(part)]
    } else {
        Seq::empty()
    }
}

/// The texts that strings hold.
pub open spec fn texts(list: Seq<String>) -> Seq<Seq<char>> {
    list.map_values(|t: String| t@)
}

fn keep_part(out: &mut Vec<String>, part: &str)
    ensures
        texts(final(out)@) == texts(old(out)@) + kept_part(part@),
{
    let ghost before = out@;
    let t = trim(part);
    if !t.is_empty() {
        out.push(t.to_owned());
    }
    proof {
        assert(texts(out@) =~= texts(before) + kept_part(part@));
    }
}

/// The parts of a text between commas.
pub fn split_at_commas(text: &str) -> (parts: Vec<String>)
    ensures
        texts(parts@) == comma_parts(text@),
{
    let mut out: Vec<String> = Vec::new();
    let mut rest: &str = text;
    proof {
        assert(texts(out@) + comma_parts(rest@) =~= comma_parts(text@));
    }
    loop
        invariant
            texts(out@) + comma_parts(rest@) == comma_parts(text@),
        decreases rest@.len(),
    {
        let n: usize = rest.unicode_len();
        match find_first(rest, ',') {
            None => {
                keep_part(&mut out, rest);
                return out;
            },
            Some(i) => {
                assert(i < n);
                let ghost before = texts(out@);
                let part = rest.substring_char(0, i);
                proof {
                    assert(part@ =~= rest@.take(i as int));
                }
                keep_part(&mut out, part);
                let ghost whole = rest@;
                rest = after_prefix(rest, i + 1);
                proof {
                    assert(texts(out@) + comma_parts(rest@) =~= before + comma_parts(whole));
                }
            },
        }
    }
}

} // verus!
