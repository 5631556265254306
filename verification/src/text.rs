//! Text that messages are made of.

use vstd::prelude::*;
use vstd::utf8::{decode_utf8, valid_utf8};

verus! {

/// The character of one decimal or hexadecimal digit, lower case.
pub open spec fn digit_char(d: int) -> char {
    if d < 10 {
        (48 + d) as char
    } else {
        (87 + d) as char
    }
}

/// `n` written in base `base`, without leading zeros.
pub open spec fn numeral(n: nat, base: nat) -> Seq<char>
    decreases n,
{
    if base < 2 || n < base {
        seq![digit_char(n as int)]
    } else {
        proof {
            assert(n / base < n) by (nonlinear_arith)
                requires
                    n >= base,
                    base >= 2,
            ;
        }
        numeral(n / base, base).push(digit_char((n % base) as int))
    }
}

/// `n` in decimal.
pub open spec fn decimal(n: int) -> Seq<char> {
    if n < 0 {
        "-"@ + numeral((-n) as nat, 10)
    } else {
        numeral(n as nat, 10)
    }
}

/// `n` in lower-case hexadecimal, without a prefix.
pub open spec fn hex(n: int) -> Seq<char> {
    numeral(n as nat, 16)
}

/// A byte in hexadecimal with its prefix, both digits written.
pub open spec fn hex_byte(n: int) -> Seq<char> {
    "0x"@.push(digit_char(n / 16)).push(digit_char(n % 16))
}

fn push_digit(text: &mut String, d: u8)
    requires
        d < 16,
    ensures
        final(text)@ == old(text)@.push(digit_char(d as int)),
{
    proof {
        reveal_strlit("0");
        reveal_strlit("1");
        reveal_strlit("2");
        reveal_strlit("3");
        reveal_strlit("4");
        reveal_strlit("5");
        reveal_strlit("6");
        reveal_strlit("7");
        reveal_strlit("8");
        reveal_strlit("9");
        reveal_strlit("a");
        reveal_strlit("b");
        reveal_strlit("c");
        reveal_strlit("d");
        reveal_strlit("e");
        reveal_strlit("f");
    }
    let digit: &str = match d {
        0 => "0",
        1 => "1",
        2 => "2",
        3 => "3",
        4 => "4",
        5 => "5",
        6 => "6",
        7 => "7",
        8 => "8",
        9 => "9",
        10 => "a",
        11 => "b",
        12 => "c",
        13 => "d",
        14 => "e",
        _ => "f",
    };
    text.append(digit);
    assert(text@ =~= old(text)@.push(digit_char(d as int)));
}

fn push_numeral(text: &mut String, n: u128, base: u128)
    requires
        2 <= base <= 16,
    ensures
        final(text)@ == old(text)@ + numeral(n as nat, base as nat),
    decreases n,
{
    if n < base {
        push_digit(text, n as u8);
        assert(text@ =~= old(text)@ + numeral(n as nat, base as nat));
    } else {
        proof {
            assert(n / base < n) by (nonlinear_arith)
                requires
                    n >= base,
                    base >= 2,
            ;
            assert((n as int) / (base as int) == (n as nat) / (base as nat));
        }
        push_numeral(text, n / base, base);
        push_digit(text, (n % base) as u8);
        assert(text@ =~= old(text)@ + numeral(n as nat, base as nat));
    }
}

/// Appends `n` in decimal.
pub fn push_decimal(text: &mut String, n: u64)
    ensures
        final(text)@ == old(text)@ + decimal(n as int),
{
    push_numeral(text, n as u128, 10);
}

/// Appends `n` in decimal, however wide.
pub fn push_wide(text: &mut String, n: u128)
    ensures
        final(text)@ == old(text)@ + decimal(n as int),
{
    push_numeral(text, n, 10);
}

/// The last `k` decimal digits of `n`, leading zeros and all.
pub open spec fn last_digits(n: int, k: nat) -> Seq<char>
    decreases k,
{
    if k == 0 {
        Seq::empty()
    } else {
        last_digits(n / 10, (k - 1) as nat).push(digit_char(n % 10))
    }
}

/// Appends the last `k` decimal digits of `n`, leading zeros and all.
pub fn push_last_digits(text: &mut String, n: u64, k: usize)
    ensures
        final(text)@ == old(text)@ + last_digits(n as int, k as nat),
    decreases k,
{
    if k > 0 {
        push_last_digits(text, n / 10, k - 1);
        push_digit(text, (n % 10) as u8);
    }
    assert(text@ =~= old(text)@ + last_digits(n as int, k as nat));
}

/// Appends `n` in decimal, with its sign when it is negative.
pub fn push_signed(text: &mut String, n: i64)
    ensures
        final(text)@ == old(text)@ + decimal(n as int),
{
    if n < 0 {
        text.append("-");
        let magnitude: u128 = (-(n as i128)) as u128;
        push_numeral(text, magnitude, 10);
        assert(text@ =~= old(text)@ + decimal(n as int));
    } else {
        push_numeral(text, n as u128, 10);
    }
}

/// Appends `n` in lower-case hexadecimal.
pub fn push_hex(text: &mut String, n: u64)
    ensures
        final(text)@ == old(text)@ + hex(n as int),
{
    push_numeral(text, n as u128, 16);
}

/// The characters of a string.
pub fn characters(text: &str) -> (r: Vec<char>)
    ensures
        r@ == text@,
{
    let mut out: Vec<char> = Vec::new();
    for c in it: text.chars()
        invariant
            it.seq() == text@,
            out@ == it.seq().take(it.index() as int),
    {
        assert(it.seq().take(it.index() + 1) =~= it.seq().take(it.index() as int).push(c));
        out.push(c);
    }
    assert(text@.take(text@.len() as int) =~= text@);
    out
}

/// Whether a character is white space in Unicode's sense.
pub open spec fn is_space(c: char) -> bool {
    let u = c as u32;
    ||| 0x09 <= u <= 0x0d
    ||| u == 0x20
    ||| u == 0x85
    ||| u == 0xa0
    ||| u == 0x1680
    ||| 0x2000 <= u <= 0x200a
    ||| u == 0x2028
    ||| u == 0x2029
    ||| u == 0x202f
    ||| u == 0x205f
    ||| u == 0x3000
}

fn is_space_char(c: char) -> (r: bool)
    ensures
        r == is_space(c),
{
    let u: u32 = c as u32;
    (0x09 <= u && u <= 0x0d) || u == 0x20 || u == 0x85 || u == 0xa0 || u == 0x1680 || (0x2000 <= u
        && u <= 0x200a) || u == 0x2028 || u == 0x2029 || u == 0x202f || u == 0x205f || u == 0x3000
}

/// `text` without the white space it begins with.
pub open spec fn trimmed_front(text: Seq<char>) -> Seq<char>
    decreases text.len(),
{
    if text.len() > 0 && is_space(text[0]) {
        trimmed_front(text.skip(1))
    } else {
        text
    }
}

/// `text` without the white space it ends with.
pub open spec fn trimmed_back(text: Seq<char>) -> Seq<char>
    decreases text.len(),
{
    if text.len() > 0 && is_space(text.last()) {
        trimmed_back(text.drop_last())
    } else {
        text
    }
}

/// `text` without white space around it.
pub open spec fn trimmed(text: Seq<char>) -> Seq<char> {
    trimmed_back(trimmed_front(text))
}

/// `text` without the NULs it ends with.
pub open spec fn without_nuls(text: Seq<char>) -> Seq<char>
    decreases text.len(),
{
    if text.len() > 0 && text.last() == '\0' {
        without_nuls(text.drop_last())
    } else {
        text
    }
}

/// Drops the white space around a text.
pub fn trim(text: &[char]) -> (r: Vec<char>)
    ensures
        r@ == trimmed(text@),
{
    let mut start: usize = 0;
    assert(text@.skip(0) =~= text@);
    while start < text.len() && is_space_char(text[start])
        invariant
            start <= text@.len(),
            trimmed_front(text@) == trimmed_front(text@.skip(start as int)),
        decreases text@.len() - start,
    {
        assert(text@.skip(start as int).skip(1) =~= text@.skip(start + 1));
        start = start + 1;
    }
    let ghost rest = text@.skip(start as int);
    assert(trimmed_front(text@) == rest);
    let mut end: usize = text.len();
    assert(text@.subrange(start as int, end as int) =~= rest);
    while end > start && is_space_char(text[end - 1])
        invariant
            start <= end <= text@.len(),
            trimmed_back(rest) == trimmed_back(text@.subrange(start as int, end as int)),
        decreases end,
    {
        assert(text@.subrange(start as int, end as int).drop_last() =~= text@.subrange(
            start as int,
            end - 1,
        ));
        end = end - 1;
    }
    copied(text, start, end)
}

/// Drops the NULs a text ends with.
pub fn strip_nuls(text: &[char]) -> (r: Vec<char>)
    ensures
        r@ == without_nuls(text@),
{
    let mut end: usize = text.len();
    assert(text@.take(end as int) =~= text@);
    while end > 0 && text[end - 1] == '\0'
        invariant
            end <= text@.len(),
            without_nuls(text@) == without_nuls(text@.take(end as int)),
        decreases end,
    {
        assert(text@.take(end as int).drop_last() =~= text@.take(end - 1));
        end = end - 1;
    }
    assert(text@.take(end as int) =~= text@.subrange(0, end as int));
    copied(text, 0, end)
}

fn copied(text: &[char], start: usize, end: usize) -> (r: Vec<char>)
    requires
        start <= end <= text@.len(),
    ensures
        r@ == text@.subrange(start as int, end as int),
{
    let mut out: Vec<char> = Vec::new();
    let mut i: usize = start;
    while i < end
        invariant
            start <= i <= end <= text@.len(),
            out@ == text@.subrange(start as int, i as int),
        decreases end - i,
    {
        out.push(text[i]);
        i = i + 1;
        assert(out@ =~= text@.subrange(start as int, i as int));
    }
    out
}

/// An ASCII letter in upper case; any other character unchanged.
pub open spec fn upper(c: char) -> char {
    if 0x61 <= c as u32 <= 0x7a {
        ((c as u32 - 0x20) as u32) as char
    } else {
        c
    }
}

/// Whether `text`, its ASCII letters in upper case, starts with `prefix`.
pub open spec fn starts_upper(text: Seq<char>, prefix: Seq<char>) -> bool {
    &&& prefix.len() <= text.len()
    &&& forall|i: int| 0 <= i < prefix.len() ==> upper(text[i]) as u32 == #[trigger] prefix[i] as u32
}

fn upper_code(c: char) -> (u: u32)
    ensures
        u == upper(c) as u32,
{
    let code: u32 = c as u32;
    if 0x61 <= code && code <= 0x7a {
        code - 0x20
    } else {
        code
    }
}

/// Whether a text starts with `prefix`, whatever the case of its ASCII
/// letters.
pub fn has_upper_prefix(text: &[char], prefix: &str) -> (r: bool)
    ensures
        r == starts_upper(text@, prefix@),
{
    let n: usize = prefix.unicode_len();
    if n > text.len() {
        return false;
    }
    let mut i: usize = 0;
    while i < n
        invariant
            n == prefix@.len(),
            n <= text@.len(),
            i <= n,
            forall|j: int|
                0 <= j < i ==> upper(text@[j]) as u32 == #[trigger] prefix@[j] as u32,
        decreases n - i,
    {
        if upper_code(text[i]) != prefix.get_char(i) as u32 {
            return false;
        }
        i = i + 1;
    }
    true
}

/// The text that a byte sequence stands for when what is not UTF-8 in it
/// is replaced.
pub uninterp spec fn lossy_text(bytes: Seq<u8>) -> Seq<char>;

/// `String::from_utf8_lossy`: bytes as text, with U+FFFD for what is not
/// UTF-8. Bytes that are UTF-8 become the text they encode; how the others
/// are split into replacements is left to the name.
#[verifier::external_body]
pub(crate) fn text_of(bytes: &[u8]) -> (text: String)
    ensures
        text@ == lossy_text(bytes@),
        valid_utf8(bytes@) ==> text@ == decode_utf8(bytes@),
{
    String::from_utf8_lossy(bytes).into_owned()
}

/// `String::push`: appends one character.
#[verifier::external_body]
pub(crate) fn push_char(text: &mut String, c: char)
    ensures
        final(text)@ == old(text)@.push(c),
{
    text.push(c)
}

/// The string made of these characters.
pub fn joined(characters: &[char]) -> (text: String)
    ensures
        text@ == characters@,
{
    let mut text = String::new();
    let mut i: usize = 0;
    assert(text@ =~= characters@.take(0));
    while i < characters.len()
        invariant
            i <= characters@.len(),
            text@ == characters@.take(i as int),
        decreases characters@.len() - i,
    {
        push_char(&mut text, characters[i]);
        i = i + 1;
        assert(text@ =~= characters@.take(i as int));
    }
    assert(characters@.take(i as int) =~= characters@);
    text
}

/// Whether two texts are the same.
pub fn same_text(a: &str, b: &str) -> (r: bool)
    ensures
        r == (a@ == b@),
{
    let (left, right) = (characters(a), characters(b));
    if left.len() != right.len() {
        return false;
    }
    let mut i: usize = 0;
    while i < left.len()
        invariant
            i <= left@.len() == right@.len(),
            left@ == a@,
            right@ == b@,
            forall|j: int| 0 <= j < i ==> left@[j] == right@[j],
        decreases left@.len() - i,
    {
        if left[i] != right[i] {
            return false;
        }
        i = i + 1;
    }
    assert(left@ =~= right@);
    true
}

/// Appends a byte in hexadecimal with its prefix, both digits written.
pub fn push_hex_byte(text: &mut String, n: u8)
    ensures
        final(text)@ == old(text)@ + hex_byte(n as int),
{
    text.append("0x");
    push_digit(text, n / 16);
    push_digit(text, n % 16);
    assert(text@ =~= old(text)@ + hex_byte(n as int));
}

/// A 16-bit number in hexadecimal, all four digits written.
pub open spec fn hex_word(n: int) -> Seq<char> {
    seq![
        digit_char(n / 4096),
        digit_char(n / 256 % 16),
        digit_char(n / 16 % 16),
        digit_char(n % 16),
    ]
}

/// Appends a 16-bit number in hexadecimal, all four digits written.
pub fn push_hex_word(text: &mut String, n: u16)
    ensures
        final(text)@ == old(text)@ + hex_word(n as int),
{
    push_digit(text, (n / 4096) as u8);
    push_digit(text, (n / 256 % 16) as u8);
    push_digit(text, (n / 16 % 16) as u8);
    push_digit(text, (n % 16) as u8);
    assert(text@ =~= old(text)@ + hex_word(n as int));
}

/// Whether a character is a control character.
pub open spec fn is_control(c: char) -> bool {
    c as u32 <= 0x1f || 0x7f <= c as u32 <= 0x9f
}

/// A text without its control characters.
pub open spec fn without_controls(text: Seq<char>) -> Seq<char>
    decreases text.len(),
{
    if text.len() == 0 {
        text
    } else if is_control(text.last()) {
        without_controls(text.drop_last())
    } else {
        without_controls(text.drop_last()).push(text.last())
    }
}

/// A text without its control characters.
pub fn strip_controls(text: &[char]) -> (r: Vec<char>)
    ensures
        r@ == without_controls(text@),
{
    let mut r: Vec<char> = Vec::new();
    let mut i: usize = 0;
    assert(text@.take(0) =~= Seq::<char>::empty());
    while i < text.len()
        invariant
            i <= text@.len(),
            r@ == without_controls(text@.take(i as int)),
        decreases text@.len() - i,
    {
        let code: u32 = text[i] as u32;
        proof {
            let next = text@.take(i + 1);
            assert(next.drop_last() =~= text@.take(i as int));
            assert(next.last() == text@[i as int]);
        }
        if !(code <= 0x1f || (0x7f <= code && code <= 0x9f)) {
            r.push(text[i]);
        }
        i = i + 1;
    }
    assert(text@.take(i as int) =~= text@);
    r
}

/// Whether a text stands somewhere in another.
pub open spec fn contains_text(text: Seq<char>, part: Seq<char>) -> bool {
    exists|at: int|
        0 <= at && at + part.len() <= text.len() && #[trigger] text.subrange(at, at + part.len())
            == part
}

/// Whether a text stands somewhere in another.
pub fn has_text(text: &[char], part: &str) -> (r: bool)
    ensures
        r == contains_text(text@, part@),
{
    let wanted = characters(part);
    assert(text@.len() == text.len());
    if wanted.len() > text.len() {
        return false;
    }
    let last: usize = text.len() - wanted.len();
    let mut at: usize = 0;
    while at <= last
        invariant
            text@.len() == text.len(),
            wanted@ == part@,
            last == text@.len() - wanted@.len(),
            at <= last + 1,
            last + wanted@.len() <= usize::MAX,
            forall|k: int|
                0 <= k < at ==> #[trigger] text@.subrange(k, k + part@.len()) != part@,
        decreases last + 1 - at,
    {
        let mut i: usize = 0;
        while i < wanted.len() && text[at + i] == wanted[i]
            invariant
                text@.len() == text.len(),
                at <= last,
                last == text@.len() - wanted@.len(),
                i <= wanted@.len(),
                forall|k: int| 0 <= k < i ==> text@[at + k] == wanted@[k],
            decreases wanted@.len() - i,
        {
            i = i + 1;
        }
        if i == wanted.len() {
            assert(text@.subrange(at as int, at + part@.len()) =~= part@);
            return true;
        }
        assert(text@.subrange(at as int, at + part@.len())[i as int] != part@[i as int]);
        if at == last {
            assert forall|k: int| 0 <= k && k + part@.len() <= text@.len() implies #[trigger] text@.subrange(
                k,
                k + part@.len(),
            ) != part@ by {
                if k < at {
                } else {
                    assert(k == at);
                }
            }
            return false;
        }
        at = at + 1;
    }
    false
}

/// Whether `text`, its ASCII letters in upper case, is `name`.
pub open spec fn is_upper(text: Seq<char>, name: Seq<char>) -> bool {
    text.len() == name.len() && starts_upper(text, name)
}

/// Whether a text is `name`, whatever the case of its ASCII letters.
pub fn same_upper(text: &[char], name: &str) -> (r: bool)
    ensures
        r == is_upper(text@, name@),
{
    text.len() == name.unicode_len() && has_upper_prefix(text, name)
}

// ---------------------------------------------------------- what they say

/// What a digit counts, in bases up to sixteen.
pub open spec fn digit_value(c: char) -> int {
    if '0' <= c && c <= '9' {
        c as int - '0' as int
    } else if 'a' <= c && c <= 'f' {
        c as int - 'a' as int + 10
    } else {
        -1
    }
}

/// What digits stand for, the last of them for ones.
pub open spec fn numeral_value(text: Seq<char>, base: int) -> int
    decreases text.len(),
{
    if text.len() == 0 {
        0
    } else {
        base * numeral_value(text.drop_last(), base) + digit_value(text.last())
    }
}

/// A number is read back from its digits, which do not begin with a zero
/// unless it is the only one, and are all digits of the base.
pub proof fn law_numerals_stand_for_their_numbers(n: nat, base: nat)
    requires
        2 <= base <= 16,
    ensures
        numeral_value(numeral(n, base), base as int) == n,
        numeral(n, base).len() > 0,
        numeral(n, base).len() > 1 ==> numeral(n, base)[0] != '0',
        n > 0 ==> numeral(n, base)[0] != '0',
        forall|i: int|
            0 <= i < numeral(n, base).len() ==> 0 <= digit_value(#[trigger] numeral(n, base)[i])
                < base,
    decreases n,
{
    let text = numeral(n, base);
    if n < base {
        assert(text =~= seq![digit_char(n as int)]);
        assert(text.drop_last() =~= Seq::<char>::empty());
        assert(numeral_value(text.drop_last(), base as int) == 0);
        assert((base as int) * 0 == 0);
        assert(digit_value(digit_char(n as int)) == n);
    } else {
        let (upper, digit) = (n / base, (n % base) as int);
        assert(0 < upper < n && 0 <= digit < base && n == base * upper + digit) by (nonlinear_arith)
            requires
                n >= base,
                base >= 2,
                upper == n / base,
                digit == n % base,
        ;
        law_numerals_stand_for_their_numbers(upper, base);
        assert(text.drop_last() =~= numeral(upper, base));
        assert(digit_value(digit_char(digit)) == digit);
        assert(numeral_value(text, base as int) == (base as int) * (upper as int) + digit);
        assert(text[0] == numeral(upper, base)[0]);
        assert forall|i: int| 0 <= i < text.len() implies 0 <= digit_value(#[trigger] text[i])
            < base by {
            if i < text.len() - 1 {
                assert(text[i] == numeral(upper, base)[i]);
            }
        }
    }
}

/// The two digits of a byte and the four of a word stand for them.
pub proof fn law_fixed_digits_stand_for_their_numbers(n: int)
    ensures
        0 <= n < 0x100 ==> hex_byte(n).len() == 4 && hex_byte(n).take(2) == "0x"@ && numeral_value(
            hex_byte(n).skip(2),
            16,
        ) == n,
        0 <= n < 0x1_0000 ==> hex_word(n).len() == 4 && numeral_value(hex_word(n), 16) == n,
{
    reveal_strlit("0x");
    reveal_with_fuel(numeral_value, 5);
    if 0 <= n < 0x100 {
        let text = hex_byte(n);
        assert(text.take(2) =~= "0x"@);
        let two = text.skip(2);
        assert(two =~= seq![digit_char(n / 16), digit_char(n % 16)]);
        assert(two.drop_last() =~= seq![digit_char(n / 16)]);
        assert(two.drop_last().drop_last() =~= Seq::<char>::empty());
        assert(digit_value(digit_char(n / 16)) == n / 16);
        assert(digit_value(digit_char(n % 16)) == n % 16);
    }
    if 0 <= n < 0x1_0000 {
        let text = hex_word(n);
        let (a, b, c, d) = (n / 4096, n / 256 % 16, n / 16 % 16, n % 16);
        let three = text.drop_last();
        let two = three.drop_last();
        let one = two.drop_last();
        assert(three =~= seq![digit_char(a), digit_char(b), digit_char(c)]);
        assert(two =~= seq![digit_char(a), digit_char(b)]);
        assert(one =~= seq![digit_char(a)]);
        assert(one.drop_last() =~= Seq::<char>::empty());
        assert(digit_value(digit_char(a)) == a && digit_value(digit_char(b)) == b);
        assert(digit_value(digit_char(c)) == c && digit_value(digit_char(d)) == d);
        assert(numeral_value(one, 16) == a);
        assert(numeral_value(two, 16) == 16 * a + b);
        assert(numeral_value(three, 16) == 16 * (16 * a + b) + c);
        assert(numeral_value(text, 16) == 16 * (16 * (16 * a + b) + c) + d);
        assert(n == 4096 * a + 256 * b + 16 * c + d);
    }
}

/// Trimming takes white space off both ends of a text, all of it there and
/// nothing else.
pub proof fn law_trimming_takes_only_the_space_around(text: Seq<char>) -> (span: (int, int))
    ensures
        0 <= span.0 <= span.1 <= text.len(),
        trimmed(text) == text.subrange(span.0, span.1),
        forall|i: int|
            0 <= i < span.0 || span.1 <= i < text.len() ==> is_space(#[trigger] text[i]),
        trimmed(text).len() > 0 ==> !is_space(trimmed(text)[0]) && !is_space(trimmed(text).last()),
{
    let a = lemma_trimmed_front(text);
    let rest = trimmed_front(text);
    let b = lemma_trimmed_back(rest);
    assert(rest.take(b) =~= text.subrange(a, a + b));
    assert forall|i: int| a + b <= i < text.len() implies is_space(#[trigger] text[i]) by {
        assert(rest[i - a] == text[i]);
    }
    (a, a + b)
}

proof fn lemma_trimmed_front(text: Seq<char>) -> (a: int)
    ensures
        0 <= a <= text.len(),
        trimmed_front(text) == text.skip(a),
        forall|i: int| 0 <= i < a ==> is_space(#[trigger] text[i]),
        a < text.len() ==> !is_space(text[a]),
    decreases text.len(),
{
    if text.len() > 0 && is_space(text[0]) {
        let rest = text.skip(1);
        let b = lemma_trimmed_front(rest);
        assert(rest.skip(b) =~= text.skip(b + 1));
        assert forall|i: int| 0 <= i < b + 1 implies is_space(#[trigger] text[i]) by {
            if i > 0 {
                assert(text[i] == rest[i - 1]);
            }
        }
        b + 1
    } else {
        assert(text.skip(0) =~= text);
        0
    }
}

proof fn lemma_trimmed_back(text: Seq<char>) -> (b: int)
    ensures
        0 <= b <= text.len(),
        trimmed_back(text) == text.take(b),
        forall|i: int| b <= i < text.len() ==> is_space(#[trigger] text[i]),
        b > 0 ==> !is_space(text[b - 1]),
    decreases text.len(),
{
    if text.len() > 0 && is_space(text.last()) {
        let rest = text.drop_last();
        let b = lemma_trimmed_back(rest);
        assert(rest.take(b) =~= text.take(b));
        assert forall|i: int| b <= i < text.len() implies is_space(#[trigger] text[i]) by {
            if i < text.len() - 1 {
                assert(text[i] == rest[i]);
            }
        }
        b
    } else {
        assert(text.take(text.len() as int) =~= text);
        text.len() as int
    }
}

/// The NULs at the end of a text go, all of them and nothing else.
pub proof fn law_only_last_nuls_go(text: Seq<char>)
    ensures
        without_nuls(text).len() <= text.len(),
        without_nuls(text) == text.take(without_nuls(text).len() as int),
        forall|i: int| without_nuls(text).len() <= i < text.len() ==> #[trigger] text[i] == '\0',
        without_nuls(text).len() > 0 ==> without_nuls(text).last() != '\0',
    decreases text.len(),
{
    if text.len() > 0 && text.last() == '\0' {
        let rest = text.drop_last();
        law_only_last_nuls_go(rest);
        let n = without_nuls(rest).len() as int;
        assert(rest.take(n) =~= text.take(n));
        assert forall|i: int| n <= i < text.len() implies #[trigger] text[i] == '\0' by {
            if i < text.len() - 1 {
                assert(text[i] == rest[i]);
            }
        }
    } else {
        assert(text.take(text.len() as int) =~= text);
    }
}

/// Stripping control characters goes character by character: a text of two
/// parts is stripped part by part, a control character leaves nothing, and
/// any other stays.
pub proof fn law_stripping_goes_character_by_character(a: Seq<char>, b: Seq<char>, c: char)
    ensures
        without_controls(a + b) == without_controls(a) + without_controls(b),
        (c as u32) < 0x20 || 0x7f <= c as u32 && (c as u32) < 0xa0 ==> without_controls(seq![c])
            == Seq::<char>::empty(),
        0x20 <= c as u32 && (c as u32) < 0x7f || 0xa0 <= c as u32 ==> without_controls(seq![c])
            == seq![c],
    decreases b.len(),
{
    let one = seq![c];
    let none = Seq::<char>::empty();
    assert(one.drop_last() =~= none);
    assert(without_controls(none) == none);
    assert(none.push(c) =~= one);
    if b.len() == 0 {
        assert(a + b =~= a);
        assert(without_controls(a) + without_controls(b) =~= without_controls(a));
    } else {
        law_stripping_goes_character_by_character(a, b.drop_last(), c);
        assert((a + b).drop_last() =~= a + b.drop_last());
        assert((a + b).last() == b.last());
        assert(without_controls(a + b) =~= without_controls(a) + without_controls(b));
    }
}

/// A prefix is found whatever the case of a text's letters, and a prefix in
/// small letters never.
pub proof fn law_prefixes_ignore_case(text: Seq<char>, other: Seq<char>, prefix: Seq<char>)
    requires
        text.len() == other.len(),
        forall|i: int|
            0 <= i < text.len() ==> #[trigger] text[i] == other[i] || ('a' <= text[i] && text[i]
                <= 'z' && other[i] as int == text[i] as int - 32),
    ensures
        starts_upper(text, prefix) == starts_upper(other, prefix),
        prefix.len() > 0 && 'a' <= prefix[0] && prefix[0] <= 'z' ==> !starts_upper(text, prefix),
{
    assert forall|i: int| 0 <= i < text.len() implies upper(#[trigger] text[i]) as u32 == upper(
        other[i],
    ) as u32 by {}
}

} // verus!
