//! Text as sequences of characters: joining, searching, numerals.
use vstd::arithmetic::power::{lemma_pow_positive, pow};
use vstd::prelude::*;

verus! {

/// `String::push` appends one character.
pub assume_specification[ String::push ](s: &mut String, c: char)
    ensures
        final(s)@ == old(s)@.push(c),
;

/// The texts of some strings.
pub open spec fn texts(strings: Seq<String>) -> Seq<Seq<char>> {
    strings.map_values(|s: String| s@)
}

/// The characters of a string.
pub fn chars_of(s: &str) -> (r: Vec<char>)
    ensures
        r@ == s@,
{
    let mut r: Vec<char> = Vec::new();
    for c in it: s.chars()
        invariant
            r@ == it.seq().take(it.index() as int),
    {
        r.push(c);
    }
    r
}

/// The string of the given characters.
pub fn text_of(chars: &[char]) -> (r: String)
    ensures
        r@ == chars@,
{
    let mut r = String::new();
    let mut i: usize = 0;
    while i < chars.len()
        invariant
            i <= chars.len(),
            r@ == chars@.take(i as int),
        decreases chars.len() - i,
    {
        r.push(chars[i]);
        i = i + 1;
    }
    assert(chars@.take(i as int) == chars@);
    r
}

/// Whether two strings hold the same characters.
pub fn same(a: &str, b: &str) -> (r: bool)
    ensures
        r == (a@ == b@),
{
    let x = chars_of(a);
    let y = chars_of(b);
    assert(x@.subrange(0, x@.len() as int) == x@);
    x.len() == y.len() && occurs_at(&y, &x, 0)
}

/// Whether `needle` stands in `hay` from position `at` on.
pub open spec fn stands_at(needle: Seq<char>, hay: Seq<char>, at: int) -> bool {
    0 <= at && at + needle.len() <= hay.len() && hay.subrange(at, at + needle.len()) == needle
}

pub fn occurs_at(needle: &[char], hay: &[char], at: usize) -> (r: bool)
    ensures
        r == stands_at(needle@, hay@, at as int),
{
    if at > hay.len() || needle.len() > hay.len() - at {
        return false;
    }
    let mut i: usize = 0;
    while i < needle.len()
        invariant
            i <= needle.len(),
            at + needle.len() <= hay.len(),
            forall|j: int| 0 <= j < i ==> hay@[at + j] == needle@[j],
        decreases needle.len() - i,
    {
        if hay[at + i] != needle[i] {
            assert(hay@.subrange(at as int, at + needle.len())[i as int] != needle@[i as int]);
            return false;
        }
        i = i + 1;
    }
    assert(hay@.subrange(at as int, at + needle.len()) =~= needle@);
    true
}

/// The first position of `needle` in `hay` from `from` on.
pub open spec fn first_at(needle: Seq<char>, hay: Seq<char>, from: int) -> Option<int>
    decreases hay.len() + 1 - from,
{
    if from < 0 || from > hay.len() {
        None
    } else if stands_at(needle, hay, from) {
        Some(from)
    } else {
        first_at(needle, hay, from + 1)
    }
}

/// Whether `needle` stands anywhere in `hay`.
pub open spec fn has(hay: Seq<char>, needle: Seq<char>) -> bool {
    first_at(needle, hay, 0) is Some
}

/// `first_at` finds a position if there is one, and none before it.
pub proof fn first_is_first(needle: Seq<char>, hay: Seq<char>, from: int)
    requires
        0 <= from,
    ensures
        match first_at(needle, hay, from) {
            Some(at) => from <= at && stands_at(needle, hay, at) && forall|j: int|
                from <= j < at ==> !stands_at(needle, hay, j),
            None => forall|j: int| from <= j ==> !stands_at(needle, hay, j),
        },
    decreases hay.len() + 1 - from,
{
    if from <= hay.len() && !stands_at(needle, hay, from) {
        first_is_first(needle, hay, from + 1);
    }
}

/// The first position of `needle` in `hay`.
pub fn find(needle: &[char], hay: &[char]) -> (r: Option<usize>)
    ensures
        match r {
            Some(at) => first_at(needle@, hay@, 0) == Some(at as int),
            None => first_at(needle@, hay@, 0) is None,
        },
{
    let mut at: usize = 0;
    while at < hay.len()
        invariant
            at <= hay.len(),
            first_at(needle@, hay@, 0) == first_at(needle@, hay@, at as int),
        decreases hay.len() - at,
    {
        if occurs_at(needle, hay, at) {
            return Some(at);
        }
        at = at + 1;
    }
    if occurs_at(needle, hay, at) {
        Some(at)
    } else {
        assert(first_at(needle@, hay@, at + 1) is None);
        None
    }
}

/// A text stands at a position if it is a prefix of what follows the position.
pub proof fn standing_is_being_a_prefix(needle: Seq<char>, hay: Seq<char>, at: int)
    ensures
        stands_at(needle, hay, at) <==> 0 <= at <= hay.len() && needle.is_prefix_of(hay.skip(at)),
        stands_at(needle, hay, at) <==> 0 <= at && at + needle.len() <= hay.len() && forall|j: int|
            0 <= j < needle.len() ==> hay[at + j] == #[trigger] needle[j],
{
    let there = hay.subrange(at, at + needle.len());
    if 0 <= at && at + needle.len() <= hay.len() {
        assert(hay.skip(at).subrange(0, needle.len() as int) =~= there);
        if forall|j: int| 0 <= j < needle.len() ==> hay[at + j] == #[trigger] needle[j] {
            assert(there =~= needle);
        }
        if there == needle {
            assert forall|j: int| 0 <= j < needle.len() implies hay[at + j] == #[trigger] needle[j] by {
                assert(there[j] == needle[j]);
            }
        }
    }
}

/// A text has another one if that is a prefix of what follows some position.
pub proof fn having_is_being_a_prefix_somewhere(hay: Seq<char>, needle: Seq<char>)
    ensures
        has(hay, needle) <==> exists|at: int|
            0 <= at <= hay.len() && needle.is_prefix_of(#[trigger] hay.skip(at)),
{
    first_is_first(needle, hay, 0);
    match first_at(needle, hay, 0) {
        Some(at) => {
            standing_is_being_a_prefix(needle, hay, at);
            assert(needle.is_prefix_of(hay.skip(at)));
        },
        None => {
            assert forall|at: int| 0 <= at <= hay.len() implies !needle.is_prefix_of(
                #[trigger] hay.skip(at),
            ) by {
                standing_is_being_a_prefix(needle, hay, at);
            }
        },
    }
}

/// Whether all characters are decimal digits.
pub open spec fn all_digits(s: Seq<char>) -> bool {
    forall|i: int| 0 <= i < s.len() ==> '0' <= #[trigger] s[i] <= '9'
}

/// The number that decimal digits stand for.
pub open spec fn digits_value(s: Seq<char>) -> nat
    decreases s.len(),
{
    if s.len() == 0 {
        0
    } else {
        (10 * digits_value(s.drop_last()) + (s.last() as u32 - 48)) as nat
    }
}

/// The number that a text says: decimal digits, after a plus sign or without
/// one, for a number that fits in 32 bits.
pub open spec fn number_said(s: Seq<char>) -> Option<u32> {
    let digits = if s.len() > 0 && s[0] == '+' {
        s.skip(1)
    } else {
        s
    };
    if digits.len() > 0 && all_digits(digits) && digits_value(digits) <= u32::MAX {
        Some(digits_value(digits) as u32)
    } else {
        None
    }
}

/// More digits make no smaller number.
proof fn lemma_prefix_value(s: Seq<char>, n: int)
    requires
        0 <= n <= s.len(),
        all_digits(s),
    ensures
        digits_value(s.take(n)) <= digits_value(s),
    decreases s.len() - n,
{
    if n < s.len() {
        lemma_prefix_value(s, n + 1);
        assert(s.take(n + 1).drop_last() =~= s.take(n));
        assert(s.take(n + 1).last() == s[n]);
    } else {
        assert(s.take(n) =~= s);
    }
}

/// The number that a text says.
pub fn number_of(s: &[char]) -> (r: Option<u32>)
    ensures
        r == number_said(s@),
{
    let start: usize = if s.len() > 0 && s[0] == '+' {
        1
    } else {
        0
    };
    let ghost digits = s@.skip(start as int);
    assert(start == 0 ==> digits =~= s@);
    if start == s.len() {
        return None;
    }
    let mut value: u64 = 0;
    let mut i: usize = start;
    assert(digits.take(0) =~= seq![]);
    while i < s.len()
        invariant
            start <= i <= s.len(),
            start <= 1,
            digits == s@.skip(start as int),
            digits == (if s@.len() > 0 && s@[0] == '+' {
                s@.skip(1)
            } else {
                s@
            }),
            forall|j: int| 0 <= j < i - start ==> '0' <= #[trigger] digits[j] <= '9',
            value == digits_value(digits.take(i - start)),
            value <= u32::MAX,
        decreases s.len() - i,
    {
        let c = s[i];
        assert(c == digits[i - start]);
        if !('0' <= c && c <= '9') {
            assert(!all_digits(digits));
            return None;
        }
        assert(digits.take(i - start + 1).drop_last() =~= digits.take(i - start));
        value = 10 * value + (c as u32 - 48) as u64;
        i = i + 1;
        if value > u32::MAX as u64 {
            proof {
                if all_digits(digits) {
                    lemma_prefix_value(digits, i - start);
                }
            }
            return None;
        }
    }
    assert(digits.take(i - start) =~= digits);
    Some(value as u32)
}

/// An ASCII capital letter turned small, any other character kept.
pub open spec fn ascii_lower(c: char) -> char {
    if 'A' <= c <= 'Z' {
        ((c as u32) + 32) as char
    } else {
        c
    }
}

pub open spec fn ascii_lowercase(s: Seq<char>) -> Seq<char> {
    s.map_values(|c: char| ascii_lower(c))
}

pub fn to_ascii_lowercase(s: &[char]) -> (r: Vec<char>)
    ensures
        r@ == ascii_lowercase(s@),
{
    let mut r: Vec<char> = Vec::new();
    let mut i: usize = 0;
    while i < s.len()
        invariant
            i <= s.len(),
            r@ == ascii_lowercase(s@.take(i as int)),
        decreases s.len() - i,
    {
        let c = s[i];
        let low: char = if 'A' <= c && c <= 'Z' {
            (c as u8 + 32) as char
        } else {
            c
        };
        r.push(low);
        i = i + 1;
    }
    assert(s@.take(i as int) == s@);
    r
}

/// Lowering keeps the length and every character but the capital letters of
/// ASCII, which become the small letters 32 places behind them.
pub proof fn lowering_changes_capitals_alone(s: Seq<char>, i: int)
    requires
        0 <= i < s.len(),
    ensures
        ascii_lowercase(s).len() == s.len(),
        65 <= s[i] as u32 <= 90 ==> ascii_lowercase(s)[i] as u32 == s[i] as u32 + 32,
        !(65 <= s[i] as u32 <= 90) ==> ascii_lowercase(s)[i] == s[i],
{
    vstd::utf8::char_u32_cast('A', 65);
    vstd::utf8::char_u32_cast('Z', 90);
    let c = s[i];
    if 65 <= c as u32 <= 90 {
        vstd::utf8::char_u32_cast(ascii_lower(c), ((c as u32) + 32) as u32);
    }
}

/// The characters with the Unicode property White_Space.
pub open spec fn is_white(c: char) -> bool {
    let u = c as u32;
    ||| 9 <= u <= 13
    ||| u == 0x20
    ||| u == 0x85
    ||| u == 0xa0
    ||| u == 0x1680
    ||| 0x2000 <= u <= 0x200a
    ||| u == 0x2028
    ||| u == 0x2029
    ||| u == 0x202f
    ||| u == 0x205f
    ||| u == 0x3000
}

fn white(c: char) -> (r: bool)
    ensures
        r == is_white(c),
{
    let u: u32 = c as u32;
    (9 <= u && u <= 13) || u == 0x20 || u == 0x85 || u == 0xa0 || u == 0x1680 || (0x2000 <= u && u
        <= 0x200a) || u == 0x2028 || u == 0x2029 || u == 0x202f || u == 0x205f || u == 0x3000
}

/// `s` without the white space at its start.
pub open spec fn trim_start(s: Seq<char>) -> Seq<char>
    decreases s.len(),
{
    if s.len() > 0 && is_white(s[0]) {
        trim_start(s.skip(1))
    } else {
        s
    }
}

/// `s` without the white space at its start and at its end.
pub open spec fn trim_both(s: Seq<char>) -> Seq<char> {
    trim_start(trim_start(s).reverse()).reverse()
}

/// A position up to which all is white, and at which nothing white stands, ends the white start.
proof fn lemma_trim_start(s: Seq<char>, n: int)
    requires
        0 <= n <= s.len(),
        forall|j: int| 0 <= j < n ==> is_white(s[j]),
        n < s.len() ==> !is_white(s[n]),
    ensures
        trim_start(s) == s.skip(n),
    decreases n,
{
    if n == 0 {
        assert(s.skip(0) == s);
    } else {
        lemma_trim_start(s.skip(1), n - 1);
        assert(s.skip(1).skip(n - 1) == s.skip(n));
    }
}

/// The text without white space at its ends.
pub fn trimmed(s: &[char]) -> (r: Vec<char>)
    ensures
        r@ == trim_both(s@),
{
    let mut start: usize = 0;
    while start < s.len() && white(s[start])
        invariant
            start <= s.len(),
            forall|j: int| 0 <= j < start ==> is_white(s@[j]),
        decreases s.len() - start,
    {
        start = start + 1;
    }
    let mut end: usize = s.len();
    while end > start && white(s[end - 1])
        invariant
            start <= end <= s.len(),
            forall|j: int| end <= j < s.len() ==> is_white(s@[j]),
        decreases end,
    {
        end = end - 1;
    }
    let mut r: Vec<char> = Vec::new();
    let mut i: usize = start;
    while i < end
        invariant
            start <= i <= end <= s.len(),
            r@ == s@.subrange(start as int, i as int),
        decreases end - i,
    {
        r.push(s[i]);
        i = i + 1;
    }
    proof {
        lemma_trim_start(s@, start as int);
        let tail = s@.skip(start as int).reverse();
        lemma_trim_start(tail, s@.len() - end);
        assert(tail.skip(s@.len() - end).reverse() =~= s@.subrange(start as int, end as int));
    }
    r
}

/// The decimal digit `d`.
pub open spec fn digit(d: nat) -> char {
    ((48 + d) as u32) as char
}

/// The decimal numeral of `n`.
pub open spec fn decimal(n: nat) -> Seq<char>
    decreases n,
{
    if n < 10 {
        seq![digit(n)]
    } else {
        decimal(n / 10).push(digit(n % 10))
    }
}

/// The two-digit decimal numeral of `n`.
pub open spec fn two_digits(n: nat) -> Seq<char> {
    seq![digit(n / 10), digit(n % 10)]
}

pub fn digit_char(d: u8) -> (c: char)
    requires
        d < 10,
    ensures
        c == digit(d as nat),
{
    (48 + d) as char
}

/// The decimal numeral of `n`.
pub fn decimal_text(n: u64) -> (r: String)
    ensures
        r@ == decimal(n as nat),
    decreases n,
{
    if n < 10 {
        let mut r = String::new();
        r.push(digit_char(n as u8));
        assert(r@ =~= seq![digit(n as nat)]);
        r
    } else {
        let mut r = decimal_text(n / 10);
        r.push(digit_char((n % 10) as u8));
        r
    }
}

pub fn two_digit_text(n: u64) -> (r: String)
    requires
        n < 100,
    ensures
        r@ == two_digits(n as nat),
{
    let mut r = String::new();
    r.push(digit_char((n / 10) as u8));
    r.push(digit_char((n % 10) as u8));
    assert(r@ =~= two_digits(n as nat));
    r
}

/// The hexadecimal digit `d`, with capital letters if `capital`.
pub open spec fn hex_digit(d: nat, capital: bool) -> char {
    if d < 10 {
        digit(d)
    } else if capital {
        ((55 + d) as u32) as char
    } else {
        ((87 + d) as u32) as char
    }
}

/// The last `width` hexadecimal digits of `n`.
pub open spec fn hex(n: nat, width: nat, capital: bool) -> Seq<char>
    decreases width,
{
    if width == 0 {
        seq![]
    } else {
        hex(n / 16, (width - 1) as nat, capital).push(hex_digit(n % 16, capital))
    }
}

pub fn hex_text(n: u64, width: u32, capital: bool) -> (r: String)
    ensures
        r@ == hex(n as nat, width as nat, capital),
    decreases width,
{
    if width == 0 {
        let r = String::new();
        assert(r@ =~= hex(n as nat, 0, capital));
        r
    } else {
        let mut r = hex_text(n / 16, width - 1, capital);
        let d: u8 = (n % 16) as u8;
        let c: char = if d < 10 {
            (48 + d) as char
        } else if capital {
            (55 + d) as char
        } else {
            (87 + d) as char
        };
        r.push(c);
        r
    }
}

/// The unsigned number with the bit pattern of a signed 32-bit code.
pub open spec fn unsigned(code: i32) -> nat {
    if code >= 0 {
        code as nat
    } else {
        (code + 0x1_0000_0000) as nat
    }
}

pub fn unsigned_of(code: i32) -> (r: u32)
    ensures
        r == unsigned(code),
{
    if code >= 0 {
        code as u32
    } else {
        (code as i64 + 0x1_0000_0000) as u32
    }
}

/// `char::from_u32` gives the character with the code point `i`, and nothing
/// for a surrogate or a number past the last code point.
pub assume_specification[ char::from_u32 ](i: u32) -> (r: Option<char>)
    ensures
        r is Some <==> (i < 0xd800 || 0xe000 <= i <= 0x10_ffff),
        r matches Some(c) ==> c as u32 == i,
;

/// The text that UTF-16 code units encode, with U+FFFD for each surrogate that has no partner.
pub open spec fn decode_utf16(units: Seq<u16>) -> Seq<char>
    decreases units.len(),
{
    if units.len() == 0 {
        seq![]
    } else if units[0] < 0xd800 || units[0] > 0xdfff {
        seq![units[0] as u32 as char] + decode_utf16(units.skip(1))
    } else if units[0] < 0xdc00 && units.len() > 1 && 0xdc00 <= units[1] <= 0xdfff {
        seq![(0x10000 + (units[0] - 0xd800) * 0x400 + (units[1] - 0xdc00)) as u32 as char]
            + decode_utf16(
            units.skip(2),
        )
    } else {
        seq!['\u{fffd}'] + decode_utf16(units.skip(1))
    }
}

/// What stands before the first zero, or all if there is none.
pub open spec fn before_zero(units: Seq<u16>) -> Seq<u16>
    decreases units.len(),
{
    if units.len() == 0 || units[0] == 0 {
        seq![]
    } else {
        seq![units[0]] + before_zero(units.skip(1))
    }
}

/// The text of zero-terminated UTF-16.
pub fn utf16(units: &[u16]) -> (r: String)
    ensures
        r@ == decode_utf16(before_zero(units@)),
{
    let mut end: usize = 0;
    assert(units@.skip(0) == units@);
    assert(units@.take(0) =~= seq![]);
    while end < units.len() && units[end] != 0
        invariant
            end <= units.len(),
            before_zero(units@) == units@.take(end as int) + before_zero(units@.skip(end as int)),
        decreases units.len() - end,
    {
        proof {
            let tail = units@.skip(end as int);
            assert(tail.skip(1) == units@.skip(end + 1));
            assert(units@.take(end as int) + (seq![tail[0]] + before_zero(tail.skip(1)))
                =~= units@.take(end + 1) + before_zero(tail.skip(1)));
        }
        end = end + 1;
    }
    assert(before_zero(units@.skip(end as int)) =~= seq![]);
    let ghost text = units@.take(end as int);
    assert(before_zero(units@) =~= text);
    let mut r = String::new();
    let mut i: usize = 0;
    assert(text.skip(0) == text);
    assert(r@ + decode_utf16(text) =~= decode_utf16(text));
    while i < end
        invariant
            i <= end <= units.len(),
            text == units@.take(end as int),
            r@ + decode_utf16(text.skip(i as int)) == decode_utf16(text),
        decreases end - i,
    {
        let unit: u16 = units[i];
        let ghost tail = text.skip(i as int);
        let ghost before = r@;
        assert(tail[0] == unit);
        assert(tail.skip(1) == text.skip(i + 1));
        if unit < 0xd800 || unit > 0xdfff {
            let c = char::from_u32(unit as u32).unwrap();
            proof {
                vstd::utf8::char_u32_cast(c, unit as u32);
            }
            r.push(c);
            assert(r@ + decode_utf16(tail.skip(1)) =~= before + (seq![c] + decode_utf16(
                tail.skip(1),
            )));
            i = i + 1;
        } else if unit < 0xdc00 && end - i > 1 && 0xdc00 <= units[i + 1] && units[i + 1] <= 0xdfff {
            let next: u16 = units[i + 1];
            assert(tail[1] == next);
            assert(tail.skip(2) == text.skip(i + 2));
            let code: u32 = 0x10000 + (unit as u32 - 0xd800) * 0x400 + (next as u32 - 0xdc00);
            let c = char::from_u32(code).unwrap();
            proof {
                vstd::utf8::char_u32_cast(c, code);
            }
            r.push(c);
            assert(r@ + decode_utf16(tail.skip(2)) =~= before + (seq![c] + decode_utf16(
                tail.skip(2),
            )));
            i = i + 2;
        } else {
            let c = '\u{fffd}';
            r.push(c);
            assert(r@ + decode_utf16(tail.skip(1)) =~= before + (seq![c] + decode_utf16(
                tail.skip(1),
            )));
            i = i + 1;
        }
    }
    assert(decode_utf16(text.skip(i as int)) =~= seq![]);
    r
}

/// The lowercase form of a text, as `str::to_lowercase` gives it.
pub uninterp spec fn lowercased(s: Seq<char>) -> Seq<char>;

/// `str::to_lowercase`: the Unicode lowercase form of the text, which depends on the text alone.
#[verifier::external_body]
pub(crate) fn lowercase(s: &str) -> (r: String)
    ensures
        r@ == lowercased(s@),
{
    s.to_lowercase()
}

/// A text in quotation marks, as its `Debug` form shows it.
pub uninterp spec fn quoted(s: Seq<char>) -> Seq<char>;

/// The `Debug` form of `str`: the text in quotation marks, with what cannot be
/// shown escaped. It depends on the text alone.
#[verifier::external_body]
pub(crate) fn quote(s: &str) -> (r: String)
    ensures
        r@ == quoted(s@),
{
    format!("{:?}", s)
}

/// The text that bytes of UTF-8 encode, as `String::from_utf8_lossy` gives it.
pub uninterp spec fn utf8_lossy(bytes: Seq<u8>) -> Seq<char>;

/// `String::from_utf8_lossy`: the text that the bytes encode, with U+FFFD in
/// place of what is not UTF-8. It depends on the bytes alone, and bytes that
/// are UTF-8 give the text that they encode.
#[verifier::external_body]
pub(crate) fn utf8_text(bytes: &[u8]) -> (r: String)
    ensures
        r@ == utf8_lossy(bytes@),
        vstd::utf8::valid_utf8(bytes@) ==> r@ == vstd::utf8::decode_utf8(bytes@),
{
    String::from_utf8_lossy(bytes).into_owned()
}

pub open spec fn bool_text(b: bool) -> Seq<char> {
    if b {
        "true"@
    } else {
        "false"@
    }
}

pub fn bool_str(b: bool) -> (r: &'static str)
    ensures
        r@ == bool_text(b),
{
    if b {
        "true"
    } else {
        "false"
    }
}

/// Digits count by tens: digits put behind others shift those by as many
/// places, and a digit alone counts from zero to nine.
pub proof fn digits_count_by_tens(a: Seq<char>, b: Seq<char>, c: char)
    requires
        all_digits(a),
        all_digits(b),
        '0' <= c <= '9',
    ensures
        digits_value(a + b) == digits_value(a) * pow(10, b.len()) + digits_value(b),
        digits_value(seq![c]) == c as u32 - 48,
    decreases b.len(),
{
    reveal(pow);
    assert(seq![c].drop_last() =~= seq![]);
    assert(digits_value(seq![c].drop_last()) == 0);
    if b.len() == 0 {
        assert(a + b =~= a);
        assert(pow(10, 0) == 1);
        assert(digits_value(a) * 1 == digits_value(a));
    } else {
        let rest = b.drop_last();
        digits_count_by_tens(a, rest, c);
        assert((a + b).drop_last() =~= a + rest);
        let p = pow(10, rest.len());
        assert(pow(10, b.len()) == 10 * p);
        assert(digits_value(a) * (10 * p) == 10 * (digits_value(a) * p)) by (nonlinear_arith);
        lemma_pow_positive(10, rest.len());
        assert(digits_value(a) * p >= 0) by (nonlinear_arith)
            requires p > 0,
        ;
    }
}

/// A decimal numeral is made of digits that say the number, the first of which
/// is no zero unless it is the only one.
pub proof fn numerals_say_their_number(n: nat)
    ensures
        decimal(n).len() > 0,
        all_digits(decimal(n)),
        digits_value(decimal(n)) == n,
        decimal(n).len() > 1 ==> decimal(n)[0] != '0',
        n > 0 ==> decimal(n)[0] != '0',
    decreases n,
{
    if n < 10 {
        assert(decimal(n).drop_last() =~= seq![]);
        assert(digits_value(decimal(n).drop_last()) == 0);
    } else {
        numerals_say_their_number(n / 10);
        assert(decimal(n).drop_last() =~= decimal(n / 10));
    }
}

/// Different numbers have different numerals.
pub proof fn numerals_tell_numbers_apart(n: nat, m: nat)
    requires
        decimal(n) == decimal(m),
    ensures
        n == m,
{
    numerals_say_their_number(n);
    numerals_say_their_number(m);
}

/// A numeral of two digits says the number, with a zero in front if need be.
pub proof fn two_digits_say_their_number(n: nat)
    requires
        n < 100,
    ensures
        two_digits(n).len() == 2,
        all_digits(two_digits(n)),
        digits_value(two_digits(n)) == n,
{
    let s = two_digits(n);
    let t = s.drop_last();
    assert(t =~= seq![digit(n / 10)]);
    assert(digits_value(t.drop_last()) == 0);
    assert(digits_value(t) == n / 10);
    assert(s.last() == digit(n % 10));
    assert(digits_value(s) == 10 * digits_value(t) + n % 10);
}

/// A number that fits in 32 bits is read from its numeral, with a plus sign or
/// without one, and a larger one is not.
pub proof fn numbers_are_read_from_numerals(n: nat)
    ensures
        n <= u32::MAX ==> number_said(decimal(n)) == Some(n as u32) && number_said(
            seq!['+'] + decimal(n),
        ) == Some(n as u32),
        n > u32::MAX ==> number_said(decimal(n)) is None && number_said(seq!['+'] + decimal(n))
            is None,
{
    numerals_say_their_number(n);
    assert('0' <= decimal(n)[0] <= '9');
    assert((seq!['+'] + decimal(n)).skip(1) =~= decimal(n));
}

/// Where a number is read, the text is decimal digits that say it, at least
/// one, behind a plus sign or not.
pub proof fn only_digits_are_read_as_numbers(s: Seq<char>, n: u32)
    requires
        number_said(s) == Some(n),
    ensures
        exists|digits: Seq<char>|
            #![trigger all_digits(digits)]
            (s == digits || s == seq!['+'] + digits) && digits.len() > 0 && all_digits(digits)
                && digits_value(digits) == n,
{
    let digits = if s.len() > 0 && s[0] == '+' {
        s.skip(1)
    } else {
        s
    };
    assert(s == digits || s =~= seq!['+'] + digits);
    assert(all_digits(digits));
}

/// A hexadecimal numeral has as many digits as were asked for; the one that
/// `j` others follow counts the sixteenth powers of `j`, from ten on with a
/// letter, capital or small.
pub proof fn hexadecimal_digits_count_sixteens(n: nat, width: nat, capital: bool, j: nat)
    requires
        j < width,
    ensures
        hex(n, width, capital).len() == width,
        ({
            let d = (n as int / pow(16, j)) % 16;
            hex(n, width, capital)[width - 1 - j] as u32 == (if d < 10 {
                48 + d
            } else if capital {
                55 + d
            } else {
                87 + d
            })
        }),
    decreases width,
{
    reveal(pow);
    lemma_hex_len((n / 16) as nat, (width - 1) as nat, capital);
    if j == 0 {
        assert(pow(16, 0) == 1);
        assert(n as int / 1 == n);
    } else {
        hexadecimal_digits_count_sixteens(n / 16, (width - 1) as nat, capital, (j - 1) as nat);
        let p = pow(16, (j - 1) as nat);
        lemma_pow_positive(16, (j - 1) as nat);
        assert(pow(16, j) == 16 * p);
        vstd::arithmetic::div_mod::lemma_div_denominator(n as int, 16, p);
    }
}

proof fn lemma_hex_len(n: nat, width: nat, capital: bool)
    ensures
        hex(n, width, capital).len() == width,
    decreases width,
{
    if width > 0 {
        lemma_hex_len(n / 16, (width - 1) as nat, capital);
    }
}

/// A signed code keeps its bit pattern.
pub proof fn codes_keep_their_bits(code: i32)
    ensures
        unsigned(code) == code as u32,
        unsigned(code) < 0x1_0000_0000,
{
    assert(code < 0 ==> code as u32 == code + 0x1_0000_0000) by (bit_vector);
    assert(code >= 0 ==> code as u32 == code) by (bit_vector);
}

/// Trimming takes white space from both ends, all of it and nothing else.
pub proof fn trimming_takes_white_space_from_the_ends(s: Seq<char>) -> (ends: (int, int))
    ensures
        0 <= ends.0 <= ends.1 <= s.len(),
        trim_both(s) == s.subrange(ends.0, ends.1),
        forall|i: int| 0 <= i < ends.0 || ends.1 <= i < s.len() ==> is_white(#[trigger] s[i]),
        ends.0 < ends.1 ==> !is_white(s[ends.0]) && !is_white(s[ends.1 - 1]),
{
    let a = lemma_white_start(s);
    lemma_trim_start(s, a);
    let tail = s.skip(a).reverse();
    let b = lemma_white_start(tail);
    lemma_trim_start(tail, b);
    assert(tail.skip(b).reverse() =~= s.subrange(a, s.len() - b));
    assert forall|i: int| 0 <= i < a || s.len() - b <= i < s.len() implies is_white(
        #[trigger] s[i],
    ) by {
        if i >= s.len() - b {
            assert(is_white(tail[s.len() - 1 - i]));
        }
    }
    if a < s.len() - b {
        assert(tail[b] == s[s.len() - b - 1]);
    }
    (a, s.len() - b)
}

/// Where the white space at the start of a text ends.
proof fn lemma_white_start(s: Seq<char>) -> (n: int)
    ensures
        0 <= n <= s.len(),
        forall|j: int| 0 <= j < n ==> is_white(#[trigger] s[j]),
        n < s.len() ==> !is_white(s[n]),
    decreases s.len(),
{
    if s.len() == 0 || !is_white(s[0]) {
        0
    } else {
        let n = lemma_white_start(s.skip(1));
        assert forall|j: int| 0 <= j < n + 1 implies is_white(#[trigger] s[j]) by {
            if j > 0 {
                assert(is_white(s.skip(1)[j - 1]));
            }
        }
        n + 1
    }
}

/// A text that starts and ends with something else than white space stays as it is.
pub proof fn trimming_keeps_texts_without_white_ends(s: Seq<char>)
    requires
        s.len() > 0 ==> !is_white(s[0]) && !is_white(s.last()),
    ensures
        trim_both(s) == s,
{
    let (a, b) = trimming_takes_white_space_from_the_ends(s);
    if s.len() > 0 {
        assert(a == 0 && b == s.len()) by {
            if a > 0 {
                assert(is_white(s[0]));
            }
            if b < s.len() {
                assert(is_white(s[s.len() - 1]));
            }
        }
    }
    assert(s.subrange(0, s.len() as int) =~= s);
}

/// No visible character of ASCII is white, and the blank, the tab and the line ends are.
pub proof fn visible_characters_are_not_white(c: char)
    ensures
        0x21 <= c as u32 <= 0x7e ==> !is_white(c),
        c as u32 == 0x20 || 9 <= c as u32 <= 13 ==> is_white(c),
{
}

/// Zero-terminated text ends before its first zero, or where the units end.
pub proof fn text_ends_before_its_first_zero(units: Seq<u16>) -> (n: int)
    ensures
        0 <= n <= units.len(),
        before_zero(units) == units.take(n),
        forall|j: int| 0 <= j < n ==> #[trigger] units[j] != 0,
        n < units.len() ==> units[n] == 0,
    decreases units.len(),
{
    if units.len() == 0 || units[0] == 0 {
        assert(units.take(0) =~= seq![]);
        0
    } else {
        let n = text_ends_before_its_first_zero(units.skip(1));
        assert forall|j: int| 0 <= j < n + 1 implies #[trigger] units[j] != 0 by {
            if j > 0 {
                assert(units.skip(1)[j - 1] != 0);
            }
        }
        assert(seq![units[0]] + units.skip(1).take(n) =~= units.take(n + 1));
        n + 1
    }
}

/// Units that are no surrogates are their characters, one for one.
pub proof fn units_without_surrogates_are_their_characters(units: Seq<u16>)
    requires
        forall|i: int|
            0 <= i < units.len() ==> (#[trigger] units[i] < 0xd800 || units[i] > 0xdfff),
    ensures
        decode_utf16(units).len() == units.len(),
        forall|i: int|
            0 <= i < units.len() ==> (#[trigger] decode_utf16(units)[i]) as u32 == units[i],
    decreases units.len(),
{
    if units.len() > 0 {
        let rest = units.skip(1);
        assert forall|i: int| 0 <= i < rest.len() implies (#[trigger] rest[i] < 0xd800 || rest[i]
            > 0xdfff) by {
            assert(rest[i] == units[i + 1]);
        }
        units_without_surrogates_are_their_characters(rest);
        let c = units[0] as u32 as char;
        assert(decode_utf16(units) =~= seq![c] + decode_utf16(rest));
        assert forall|i: int| 0 <= i < units.len() implies (#[trigger] decode_utf16(
            units,
        )[i]) as u32 == units[i] by {
            if i > 0 {
                assert(decode_utf16(rest)[i - 1] as u32 == rest[i - 1]);
            }
        }
    }
}

/// A high surrogate and the low one behind it are one character, and a
/// surrogate without its partner is a replacement character.
pub proof fn surrogates_pair_up(high: u16, low: u16, rest: Seq<u16>)
    requires
        0xd800 <= high <= 0xdbff,
    ensures
        0xdc00 <= low <= 0xdfff ==> decode_utf16(seq![high, low] + rest).len() == 1 + decode_utf16(
            rest,
        ).len() && decode_utf16(seq![high, low] + rest)[0] as u32 == 0x1_0000 + (high - 0xd800)
            * 0x400 + (low - 0xdc00) && decode_utf16(seq![high, low] + rest).skip(1)
            == decode_utf16(rest),
        !(0xdc00 <= low <= 0xdfff) ==> decode_utf16(seq![high, low] + rest) == seq!['\u{fffd}']
            + decode_utf16(seq![low] + rest),
        0xdc00 <= low <= 0xdfff ==> decode_utf16(seq![low] + rest) == seq!['\u{fffd}']
            + decode_utf16(rest),
{
    let pair = seq![high, low] + rest;
    assert(pair.skip(1) =~= seq![low] + rest);
    assert(pair.skip(2) =~= rest);
    let single = seq![low] + rest;
    assert(single.skip(1) =~= rest);
    assert(pair[0] == high && pair[1] == low && single[0] == low);
    if 0xdc00 <= low <= 0xdfff {
        let c = (0x10000 + (high - 0xd800) * 0x400 + (low - 0xdc00)) as u32 as char;
        assert(decode_utf16(pair) =~= seq![c] + decode_utf16(rest));
        assert((seq![c] + decode_utf16(rest)).skip(1) =~= decode_utf16(rest));
    }
}

/// The 25 characters that are white, and no others.
pub proof fn white_space_is_that_of_unicode(c: char)
    ensures
        is_white(c) <==> seq![
            0x9u32, 0xa, 0xb, 0xc, 0xd, 0x20, 0x85, 0xa0, 0x1680, 0x2000, 0x2001, 0x2002, 0x2003,
            0x2004, 0x2005, 0x2006, 0x2007, 0x2008, 0x2009, 0x200a, 0x2028, 0x2029, 0x202f, 0x205f,
            0x3000,
        ].contains(c as u32),
{
    let all = seq![
        0x9u32, 0xa, 0xb, 0xc, 0xd, 0x20, 0x85, 0xa0, 0x1680, 0x2000, 0x2001, 0x2002, 0x2003,
        0x2004, 0x2005, 0x2006, 0x2007, 0x2008, 0x2009, 0x200a, 0x2028, 0x2029, 0x202f, 0x205f,
        0x3000,
    ];
    let u = c as u32;
    if is_white(c) {
        let i: int = if u <= 13 {
            u - 9
        } else if u == 0x20 {
            5
        } else if u == 0x85 {
            6
        } else if u == 0xa0 {
            7
        } else if u == 0x1680 {
            8
        } else if u <= 0x200a {
            9 + (u - 0x2000)
        } else if u == 0x2028 {
            20
        } else if u == 0x2029 {
            21
        } else if u == 0x202f {
            22
        } else if u == 0x205f {
            23
        } else {
            24
        };
        assert(all[i] == u);
    }
}

} // verus!
