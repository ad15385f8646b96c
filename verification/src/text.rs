//! Small text utilities: fixed-width hexadecimal and decimal rendering and
//! prefix tests, each with an exact description of the characters produced.

use vstd::prelude::*;
use vstd::string::StringExecFns;
use vstd::string::StrSliceExecFns;

verus! {

/// The lower-case hexadecimal digit for a value below sixteen.
pub open spec fn hex_char(d: int) -> char {
    if d == 0 {
        '0'
    } else if d == 1 {
        '1'
    } else if d == 2 {
        '2'
    } else if d == 3 {
        '3'
    } else if d == 4 {
        '4'
    } else if d == 5 {
        '5'
    } else if d == 6 {
        '6'
    } else if d == 7 {
        '7'
    } else if d == 8 {
        '8'
    } else if d == 9 {
        '9'
    } else if d == 10 {
        'a'
    } else if d == 11 {
        'b'
    } else if d == 12 {
        'c'
    } else if d == 13 {
        'd'
    } else if d == 14 {
        'e'
    } else {
        'f'
    }
}

/// Sixteen to the power `e`.
pub open spec fn pow16(e: nat) -> nat
    decreases e,
{
    if e == 0 {
        1
    } else {
        16 * pow16((e - 1) as nat)
    }
}

/// The `width` low-order hexadecimal digits of `v`, most significant first.
pub open spec fn hex_digits(v: nat, width: nat) -> Seq<char> {
    Seq::new(width, |i: int| hex_char(((v / pow16((width - 1 - i) as nat)) % 16) as int))
}

/// A 64-bit value as sixteen lower-case hexadecimal digits, zero padded.
pub open spec fn hex16(v: u64) -> Seq<char> {
    hex_digits(v as nat, 16)
}

/// A byte string as lower-case hexadecimal, two digits per byte.
pub open spec fn hex_bytes(bytes: Seq<u8>) -> Seq<char> {
    Seq::new(
        2 * bytes.len(),
        |i: int| hex_char(if i % 2 == 0 { bytes[i / 2] as int / 16 } else { bytes[i / 2] as int % 16 }),
    )
}

/// The decimal digit for a value below ten.
pub open spec fn dec_char(d: int) -> char {
    hex_char(if 0 <= d < 10 { d } else { 0 })
}

/// The decimal rendering of `n` without leading zeros.
pub open spec fn decimal(n: nat) -> Seq<char>
    decreases n,
{
    if n < 10 {
        seq![dec_char(n as int)]
    } else {
        decimal(n / 10).push(dec_char((n % 10) as int))
    }
}

/// The one-character string holding the hexadecimal digit of `d`.
pub fn hex_digit_str(d: u8) -> (s: &'static str)
    requires
        d < 16,
    ensures
        s@ == seq![hex_char(d as int)],
{
    proof {
        reveal_strlit("0");
        reveal_strlit("1");
        reveal_strlit("2");
        reveal_strlit("3");
        reveal_strlit("4");
        reveal_strlit("5");
        reveal_strlit("6");
        reveal_strlit("7");
        reveal_strlit("8");
        reveal_strlit("9");
        reveal_strlit("a");
        reveal_strlit("b");
        reveal_strlit("c");
        reveal_strlit("d");
        reveal_strlit("e");
        reveal_strlit("f");
    }
    let s = if d == 0 {
        "0"
    } else if d == 1 {
        "1"
    } else if d == 2 {
        "2"
    } else if d == 3 {
        "3"
    } else if d == 4 {
        "4"
    } else if d == 5 {
        "5"
    } else if d == 6 {
        "6"
    } else if d == 7 {
        "7"
    } else if d == 8 {
        "8"
    } else if d == 9 {
        "9"
    } else if d == 10 {
        "a"
    } else if d == 11 {
        "b"
    } else if d == 12 {
        "c"
    } else if d == 13 {
        "d"
    } else if d == 14 {
        "e"
    } else {
        "f"
    };
    assert(s@ =~= seq![hex_char(d as int)]);
    s
}

proof fn lemma_pow16_15()
    ensures
        pow16(15) == 0x1000_0000_0000_0000,
{
    reveal_with_fuel(pow16, 16);
}

proof fn lemma_pow16_positive(e: nat)
    ensures
        pow16(e) > 0,
    decreases e,
{
    if e > 0 {
        lemma_pow16_positive((e - 1) as nat);
    }
}

/// Renders `v` as sixteen lower-case hexadecimal digits.
pub fn format_hex16(v: u64) -> (s: String)
    ensures
        s@ == hex16(v),
{
    let mut out = String::new();
    let mut div: u64 = 0x1000_0000_0000_0000;
    let mut i: usize = 0;
    proof {
        lemma_pow16_15();
    }
    while i < 16
        invariant
            i <= 16,
            i < 16 ==> div as nat == pow16((15 - i) as nat),
            out@ == hex_digits(v as nat, 16).subrange(0, i as int),
        decreases 16 - i,
    {
        proof {
            lemma_pow16_positive((15 - i) as nat);
        }
        let d = ((v / div) % 16) as u8;
        out.append(hex_digit_str(d));
        proof {
            assert(out@ =~= hex_digits(v as nat, 16).subrange(0, i as int + 1));
            if i < 15 {
                assert(pow16((15 - i) as nat) == 16 * pow16((14 - i) as nat));
            }
        }
        if i < 15 {
            div = div / 16;
        }
        i += 1;
    }
    assert(out@ =~= hex_digits(v as nat, 16));
    out
}

/// Renders a byte string as lower-case hexadecimal, two digits per byte.
pub fn format_hex_bytes(bytes: &Vec<u8>) -> (s: String)
    ensures
        s@ == hex_bytes(bytes@),
{
    let mut out = String::new();
    let mut i: usize = 0;
    while i < bytes.len()
        invariant
            i <= bytes.len(),
            out@ == hex_bytes(bytes@).subrange(0, 2 * i as int),
        decreases bytes.len() - i,
    {
        let b = bytes[i];
        out.append(hex_digit_str(b / 16));
        out.append(hex_digit_str(b % 16));
        proof {
            assert(out@ =~= hex_bytes(bytes@).subrange(0, 2 * i as int + 2));
        }
        i += 1;
    }
    assert(out@ =~= hex_bytes(bytes@));
    out
}

/// Renders `n` in decimal without leading zeros.
pub fn format_decimal(n: u64) -> (s: String)
    ensures
        s@ == decimal(n as nat),
{
    let mut rest: u64 = n / 10;
    let mut out = String::from_str(hex_digit_str((n % 10) as u8));
    proof {
        assert(out@ =~= seq![dec_char((n % 10) as int)]);
    }
    while rest > 0
        invariant
            decimal(n as nat) == (if rest > 0 {
                decimal(rest as nat)
            } else {
                Seq::<char>::empty()
            }) + out@,
        decreases rest,
    {
        let digit = String::from_str(hex_digit_str((rest % 10) as u8));
        let ghost before = out@;
        out = digit.concat(out.as_str());
        proof {
            let d = seq![dec_char((rest % 10) as int)];
            assert(out@ == d + before);
            if rest >= 10 {
                assert(decimal(rest as nat) == decimal((rest / 10) as nat).push(
                    dec_char((rest % 10) as int),
                ));
                assert(decimal((rest / 10) as nat).push(dec_char((rest % 10) as int)) + before
                    =~= decimal((rest / 10) as nat) + (d + before));
            } else {
                assert(decimal(rest as nat) == d);
                assert(d + before =~= Seq::<char>::empty() + (d + before));
            }
        }
        rest = rest / 10;
    }
    assert(Seq::<char>::empty() + out@ =~= out@);
    out
}

/// Tells whether `text` begins with `prefix`.
pub fn starts_with(text: &str, prefix: &str) -> (b: bool)
    ensures
        b == prefix@.is_prefix_of(text@),
{
    let n = prefix.unicode_len();
    if text.unicode_len() < n {
        return false;
    }
    let mut i: usize = 0;
    while i < n
        invariant
            i <= n,
            n == prefix@.len(),
            n <= text@.len(),
            forall|j: int| 0 <= j < i ==> text@[j] == prefix@[j],
        decreases n - i,
    {
        if text.get_char(i) != prefix.get_char(i) {
            proof {
                if prefix@.is_prefix_of(text@) {
                    assert(text@.subrange(0, n as int)[i as int] == prefix@[i as int]);
                }
            }
            return false;
        }
        i += 1;
    }
    assert(text@.subrange(0, n as int) =~= prefix@);
    true
}

/// Tells whether two strings hold the same characters.
pub fn same_text(a: &str, b: &str) -> (r: bool)
    ensures
        r == (a@ == b@),
{
    let n = a.unicode_len();
    if b.unicode_len() != n {
        return false;
    }
    let mut i: usize = 0;
    while i < n
        invariant
            i <= n,
            n == a@.len(),
            n == b@.len(),
            forall|j: int| 0 <= j < i ==> a@[j] == b@[j],
        decreases n - i,
    {
        if a.get_char(i) != b.get_char(i) {
            return false;
        }
        i += 1;
    }
    assert(a@ =~= b@);
    true
}

/// Tells whether `text` holds the character `c`.
pub fn contains_char(text: &str, c: char) -> (b: bool)
    ensures
        b == text@.contains(c),
{
    let n = text.unicode_len();
    let mut i: usize = 0;
    while i < n
        invariant
            i <= n,
            n == text@.len(),
            forall|j: int| 0 <= j < i ==> text@[j] != c,
        decreases n - i,
    {
        if text.get_char(i) == c {
            return true;
        }
        i += 1;
    }
    false
}

/// A text in which every occurrence of the character `c` is replaced by the
/// text `with`.
pub open spec fn replaced(text: Seq<char>, c: char, with: Seq<char>) -> Seq<char>
    decreases text.len(),
{
    if text.len() == 0 {
        Seq::empty()
    } else if text.last() == c {
        replaced(text.drop_last(), c, with) + with
    } else {
        replaced(text.drop_last(), c, with).push(text.last())
    }
}

/// Replaces every occurrence of the character `c` in `text` by `with`.
pub fn replace_char(text: &str, c: char, with: &str) -> (out: String)
    ensures
        out@ == replaced(text@, c, with@),
{
    let n = text.unicode_len();
    let mut out = String::new();
    let mut i: usize = 0;
    proof {
        assert(text@.subrange(0, 0) =~= Seq::<char>::empty());
    }
    while i < n
        invariant
            i <= n,
            n == text@.len(),
            out@ == replaced(text@.subrange(0, i as int), c, with@),
        decreases n - i,
    {
        proof {
            assert(text@.subrange(0, i as int + 1).drop_last() =~= text@.subrange(0, i as int));
            assert(text@.subrange(i as int, i as int + 1) =~= seq![text@[i as int]]);
        }
        let ghost before = out@;
        if text.get_char(i) == c {
            out.append(with);
        } else {
            out.append(text.substring_char(i, i + 1));
            proof {
                assert(before + seq![text@[i as int]] =~= before.push(text@[i as int]));
            }
        }
        i += 1;
    }
    proof {
        assert(text@.subrange(0, n as int) =~= text@);
    }
    out
}

/// The lower-case form of a text, as the standard library gives it.
pub uninterp spec fn lowercase_of(text: Seq<char>) -> Seq<char>;

/// Calls `str::to_lowercase`. The result is taken to depend on the text
/// alone; nothing more is claimed of it.
#[verifier::external_body]
pub(crate) fn to_lowercase(text: &str) -> (out: String)
    ensures
        out@ == lowercase_of(text@),
{
    text.to_lowercase()
}

/// White space as the standard library knows it.
pub open spec fn is_white(c: char) -> bool {
    let u = c as u32;
    (0x09 <= u && u <= 0x0d) || u == 0x20 || u == 0x85 || u == 0xa0 || u == 0x1680 || (0x2000 <= u
        && u <= 0x200a) || u == 0x2028 || u == 0x2029 || u == 0x202f || u == 0x205f || u == 0x3000
}

/// Tells whether a character is white space.
pub fn is_white_char(c: char) -> (b: bool)
    ensures
        b == is_white(c),
{
    let u = c as u32;
    (0x09 <= u && u <= 0x0d) || u == 0x20 || u == 0x85 || u == 0xa0 || u == 0x1680 || (0x2000 <= u
        && u <= 0x200a) || u == 0x2028 || u == 0x2029 || u == 0x202f || u == 0x205f || u == 0x3000
}

/// The first position at or after `from`, and before `to`, that holds no
/// white space; `to` if there is none.
pub open spec fn first_black(s: Seq<char>, from: int, to: int) -> int
    decreases to - from,
{
    if from < to && 0 <= from < s.len() && is_white(s[from]) {
        first_black(s, from + 1, to)
    } else {
        from
    }
}

/// The position just past the last character before `to`, and at or after
/// `from`, that is no white space; `from` if there is none.
pub open spec fn last_black(s: Seq<char>, from: int, to: int) -> int
    decreases to - from,
{
    if from < to && 0 < to <= s.len() && is_white(s[to - 1]) {
        last_black(s, from, to - 1)
    } else {
        to
    }
}

/// The part of `s` between `from` and `to` without the white space at its
/// ends.
pub open spec fn trimmed_part(s: Seq<char>, from: int, to: int) -> Seq<char> {
    s.subrange(first_black(s, from, to), last_black(s, first_black(s, from, to), to))
}

/// A text without the white space at its ends.
pub open spec fn trimmed(s: Seq<char>) -> Seq<char> {
    trimmed_part(s, 0, s.len() as int)
}

/// Returns the part of `text` between two positions without the white
/// space at its ends.
pub fn trim_part<'a>(text: &'a str, from: usize, to: usize) -> (out: &'a str)
    requires
        from <= to <= text@.len(),
    ensures
        out@ == trimmed_part(text@, from as int, to as int),
{
    let mut a = from;
    while a < to && is_white_char(text.get_char(a))
        invariant
            from <= a <= to,
            to <= text@.len(),
            first_black(text@, from as int, to as int) == first_black(text@, a as int, to as int),
        decreases to - a,
    {
        a += 1;
    }
    let mut b = to;
    while a < b && is_white_char(text.get_char(b - 1))
        invariant
            a <= b <= to,
            to <= text@.len(),
            last_black(text@, a as int, to as int) == last_black(text@, a as int, b as int),
        decreases b - a,
    {
        b -= 1;
    }
    text.substring_char(a, b)
}

/// Returns `text` without the white space at its ends.
pub fn trim(text: &str) -> (out: &str)
    ensures
        out@ == trimmed(text@),
{
    trim_part(text, 0, text.unicode_len())
}

/// The first position at or after `from` that holds the character `c`; the
/// length of the text if there is none.
pub open spec fn position_of(s: Seq<char>, c: char, from: int) -> int
    decreases s.len() - from,
{
    if 0 <= from < s.len() && s[from] != c {
        position_of(s, c, from + 1)
    } else if from < s.len() {
        from
    } else {
        s.len() as int
    }
}

/// Finds the first position at or after `from` that holds the character
/// `c`; the length of the text if there is none.
pub fn find_char(text: &str, c: char, from: usize) -> (at: usize)
    requires
        from <= text@.len(),
    ensures
        at == position_of(text@, c, from as int),
        from <= at <= text@.len(),
{
    let n = text.unicode_len();
    let mut i = from;
    while i < n && text.get_char(i) != c
        invariant
            from <= i <= n,
            n == text@.len(),
            position_of(text@, c, from as int) == position_of(text@, c, i as int),
        decreases n - i,
    {
        i += 1;
    }
    i
}

/// Whether a character is one of the ten ASCII digits.
pub open spec fn is_digit(c: char) -> bool {
    '0' <= c && c <= '9'
}

/// Whether a text holds nothing but ASCII digits.
pub open spec fn all_digits(s: Seq<char>) -> bool {
    forall|i: int| 0 <= i < s.len() ==> is_digit(#[trigger] s[i])
}

/// The number that a run of ASCII digits spells in decimal.
pub open spec fn digits_value(s: Seq<char>) -> int
    decreases s.len(),
{
    if s.len() == 0 {
        0
    } else {
        digits_value(s.drop_last()) * 10 + (s.last() as u32 - '0' as u32)
    }
}

/// The digits of a text that spells a number: the text without a plus sign
/// in front.
pub open spec fn unsigned_part(text: Seq<char>) -> Seq<char> {
    if text.len() > 0 && text[0] == '+' {
        text.subrange(1, text.len() as int)
    } else {
        text
    }
}

/// The number that a text spells in decimal: an optional plus sign and then
/// one or more ASCII digits, whose value fits in 64 bits; nothing for any
/// other text.
pub open spec fn parsed_u64(text: Seq<char>) -> Option<u64> {
    let digits = unsigned_part(text);
    if digits.len() > 0 && all_digits(digits) && digits_value(digits) <= u64::MAX {
        Some(digits_value(digits) as u64)
    } else {
        None
    }
}

/// The value of a run of digits is no less than that of any of its
/// beginnings, and never negative.
pub proof fn lemma_digits_grow(s: Seq<char>, j: int)
    requires
        all_digits(s),
        0 <= j <= s.len(),
    ensures
        0 <= digits_value(s.subrange(0, j)) <= digits_value(s),
    decreases s.len() - j,
{
    lemma_digits_nonnegative(s.subrange(0, j));
    if j == s.len() {
        assert(s.subrange(0, j) =~= s);
    } else {
        lemma_digits_grow(s, j + 1);
        let longer = s.subrange(0, j + 1);
        assert(longer.drop_last() =~= s.subrange(0, j));
        assert(is_digit(s[j]));
        assert(longer.last() == s[j]);
    }
}

proof fn lemma_digits_nonnegative(s: Seq<char>)
    requires
        all_digits(s),
    ensures
        0 <= digits_value(s),
    decreases s.len(),
{
    if s.len() > 0 {
        assert(is_digit(s[s.len() - 1]));
        assert forall|i: int| 0 <= i < s.drop_last().len() implies is_digit(
            #[trigger] s.drop_last()[i],
        ) by {
            assert(is_digit(s[i]));
        }
        lemma_digits_nonnegative(s.drop_last());
    }
}

/// Reads the number that a text spells in decimal.
pub fn parse_u64(text: &str) -> (r: Option<u64>)
    ensures
        r == parsed_u64(text@),
{
    let n = text.unicode_len();
    let start: usize = if n > 0 && text.get_char(0) == '+' {
        1
    } else {
        0
    };
    let ghost digits = unsigned_part(text@);
    proof {
        assert(digits =~= text@.subrange(start as int, n as int));
    }
    if start == n {
        return None;
    }
    let mut acc: u64 = 0;
    let mut i: usize = start;
    proof {
        assert(digits.subrange(0, 0) =~= Seq::<char>::empty());
    }
    while i < n
        invariant
            start <= i <= n,
            n == text@.len(),
            digits == text@.subrange(start as int, n as int),
            digits == unsigned_part(text@),
            all_digits(digits.subrange(0, i - start)),
            acc == digits_value(digits.subrange(0, i - start)),
        decreases n - i,
    {
        let c = text.get_char(i);
        let ghost shorter = digits.subrange(0, i - start);
        let ghost longer = digits.subrange(0, i - start + 1);
        proof {
            assert(digits[i - start] == c);
            assert(longer.drop_last() =~= shorter);
            assert(longer.last() == c);
        }
        if !('0' <= c && c <= '9') {
            proof {
                assert(!is_digit(digits[i - start]));
            }
            return None;
        }
        let d = (c as u32 - '0' as u32) as u64;
        proof {
            assert forall|x: int| 0 <= x < longer.len() implies is_digit(#[trigger] longer[x]) by {
                if x < shorter.len() {
                    assert(is_digit(shorter[x]));
                }
            }
        }
        let next = match acc.checked_mul(10) {
            Some(m) => m.checked_add(d),
            None => None,
        };
        match next {
            Some(v) => {
                acc = v;
            },
            None => {
                proof {
                    assert(digits_value(longer) == digits_value(shorter) * 10 + d);
                    assert(digits_value(longer) > u64::MAX);
                    if all_digits(digits) {
                        lemma_digits_grow(digits, i - start + 1);
                    }
                }
                return None;
            },
        }
        i += 1;
    }
    proof {
        assert(digits.subrange(0, n - start) =~= digits);
    }
    Some(acc)
}

/// A text as the standard library writes it for debugging: in quotes, with
/// what needs it escaped.
pub uninterp spec fn debug_text(text: Seq<char>) -> Seq<char>;

/// Formats a text with `{:?}`. The result is taken to depend on the text
/// alone; nothing more is claimed of it.
#[verifier::external_body]
pub(crate) fn format_debug(text: &str) -> (out: String)
    ensures
        out@ == debug_text(text@),
{
    format!("{:?}", text)
}

} // verus!
