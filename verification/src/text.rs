//! Small pieces of text handling: numbers, white space, separators.

use vstd::prelude::*;

verus! {

// ─── Views ───────────────────────────────────────────────────────────────────

/// The characters of an optional string.
pub open spec fn opt(s: Option<String>) -> Option<Seq<char>> {
    match s {
        Some(s) => Some(s@),
        None => None,
    }
}

/// The characters of each string.
pub open spec fn each(strings: Seq<String>) -> Seq<Seq<char>> {
    strings.map_values(|s: String| s@)
}

/// The characters of each pair of strings.
pub open spec fn each_pair(pairs: Seq<(String, String)>) -> Seq<(Seq<char>, Seq<char>)> {
    pairs.map_values(|p: (String, String)| (p.0@, p.1@))
}

/// A copy of a list of strings.
pub fn copy_strings(strings: &Vec<String>) -> (copy: Vec<String>)
    ensures
        copy@ == strings@,
{
    let copy = strings.clone();
    assert(copy@ =~= strings@);
    copy
}

/// A copy of a list of pairs of strings.
pub fn copy_pairs(pairs: &Vec<(String, String)>) -> (copy: Vec<(String, String)>)
    ensures
        copy@ == pairs@,
{
    let mut copy: Vec<(String, String)> = Vec::new();
    let mut i: usize = 0;
    while i < pairs.len()
        invariant
            i <= pairs@.len(),
            copy@ == pairs@.take(i as int),
        decreases pairs@.len() - i,
    {
        copy.push((pairs[i].0.clone(), pairs[i].1.clone()));
        i += 1;
        assert(copy@ =~= pairs@.take(i as int));
    }
    assert(pairs@.take(i as int) =~= pairs@);
    copy
}

// ─── Decimal numbers ─────────────────────────────────────────────────────────

/// The character of the digit `d`.
pub open spec fn digit_char(d: int) -> char {
    (48 + d) as char
}

/// The character is one of `0` to `9`.
pub open spec fn is_digit(c: char) -> bool {
    48 <= c as u32 <= 57
}

/// `n` in decimal, without leading zeros.
pub open spec fn decimal(n: nat) -> Seq<char>
    decreases n,
{
    if n < 10 {
        seq![digit_char(n as int)]
    } else {
        decimal(n / 10).push(digit_char((n % 10) as int))
    }
}

fn push_digit(s: &mut String, d: u64)
    requires
        d < 10,
    ensures
        final(s)@ == old(s)@.push(digit_char(d as int)),
{
    proof {
        reveal_strlit("0");
        reveal_strlit("1");
        reveal_strlit("2");
        reveal_strlit("3");
        reveal_strlit("4");
        reveal_strlit("5");
        reveal_strlit("6");
        reveal_strlit("7");
        reveal_strlit("8");
        reveal_strlit("9");
    }
    let digit: &str = match d {
        0 => "0",
        1 => "1",
        2 => "2",
        3 => "3",
        4 => "4",
        5 => "5",
        6 => "6",
        7 => "7",
        8 => "8",
        _ => "9",
    };
    assert(digit@ =~= seq![digit_char(d as int)]);
    s.append(digit);
    assert(s@ =~= old(s)@.push(digit_char(d as int)));
}

/// `n` in decimal.
pub fn decimal_string(n: u64) -> (s: String)
    ensures
        s@ == decimal(n as nat),
    decreases n,
{
    let mut s: String = if n < 10 {
        String::new()
    } else {
        decimal_string(n / 10)
    };
    push_digit(&mut s, n % 10);
    s
}

/// The value of a run of digits.
pub open spec fn digits_value(digits: Seq<char>) -> int
    decreases digits.len(),
{
    if digits.len() == 0 {
        0
    } else {
        digits_value(digits.drop_last()) * 10 + (digits.last() as u32 - 48)
    }
}

/// The digits of a number that is written with or without a leading `+`.
pub open spec fn unsigned_digits(s: Seq<char>) -> Seq<char> {
    if s.len() > 0 && s[0] == '+' {
        s.drop_first()
    } else {
        s
    }
}

/// The number that `s` spells: digits only, at least one, with an optional
/// leading `+`; `None` if it spells none or one that is no `u64`.
pub open spec fn parsed_u64(s: Seq<char>) -> Option<u64> {
    let digits = unsigned_digits(s);
    if digits.len() > 0 && (forall|i: int| 0 <= i < digits.len() ==> is_digit(#[trigger] digits[i]))
        && digits_value(digits) <= u64::MAX {
        Some(digits_value(digits) as u64)
    } else {
        None
    }
}

/// The characters of `s`.
fn chars_of(s: &str) -> (chars: Vec<char>)
    ensures
        chars@ == s@,
{
    let mut chars: Vec<char> = Vec::new();
    for c in it: s.chars()
        invariant
            it.seq() == s@,
            chars@ == s@.take(it.index()),
    {
        assert(s@.take(it.index() + 1) =~= s@.take(it.index()).push(c));
        chars.push(c);
    }
    assert(s@.take(s@.len() as int) =~= s@);
    chars
}

proof fn lemma_digits_value_prefix(digits: Seq<char>, k: int)
    requires
        0 <= k <= digits.len(),
        forall|i: int| 0 <= i < digits.len() ==> is_digit(#[trigger] digits[i]),
    ensures
        0 <= digits_value(digits.take(k)) <= digits_value(digits),
    decreases digits.len(),
{
    if digits.len() == 0 {
        assert(digits.take(k) =~= digits);
    } else {
        let front = digits.drop_last();
        if k == digits.len() {
            lemma_digits_value_prefix(front, k - 1);
            assert(digits.take(k) =~= digits);
            assert(is_digit(digits[k - 1]));
        } else {
            lemma_digits_value_prefix(front, k);
            assert(front.take(k) =~= digits.take(k));
            assert(is_digit(digits.last()));
        }
    }
}

/// Read an unsigned decimal number.
pub fn parse_u64(s: &str) -> (n: Option<u64>)
    ensures
        n == parsed_u64(s@),
{
    let chars = chars_of(s);
    let ghost digits = unsigned_digits(s@);
    let first: usize = if chars.len() > 0 && chars[0] == '+' {
        1
    } else {
        0
    };
    assert(digits =~= s@.skip(first as int));
    if chars.len() == first {
        return None;
    }
    let mut value: u64 = 0;
    let mut i: usize = first;
    while i < chars.len()
        invariant
            first <= i <= chars@.len(),
            first <= 1,
            chars@ == s@,
            digits == s@.skip(first as int),
            digits == unsigned_digits(s@),
            forall|k: int| 0 <= k < i - first ==> is_digit(#[trigger] digits[k]),
            value == digits_value(digits.take(i - first)),
        decreases chars@.len() - i,
    {
        let c: char = chars[i];
        assert(digits[i - first] == c);
        let n: u32 = c as u32;
        if n < 48 || n > 57 {
            assert(!is_digit(digits[i - first]));
            return None;
        }
        let d: u64 = (n - 48) as u64;
        let ghost upto = digits.take(i - first + 1);
        proof {
            assert(upto.drop_last() =~= digits.take(i - first));
            assert(digits_value(upto) == value * 10 + d);
            if forall|k: int| 0 <= k < digits.len() ==> is_digit(#[trigger] digits[k]) {
                lemma_digits_value_prefix(digits, i - first + 1);
            }
        }
        if value > (u64::MAX - d) / 10 {
            return None;
        }
        value = value * 10 + d;
        i += 1;
    }
    assert(digits.take(i - first) =~= digits);
    Some(value)
}

/// Writing a number and reading it back gives the number.
pub proof fn decimal_round_trip(n: u64)
    ensures
        parsed_u64(decimal(n as nat)) == Some(n),
{
    lemma_decimal(n as nat);
    let s = decimal(n as nat);
    assert(is_digit(s[0]));
    assert(unsigned_digits(s) == s);
}

proof fn lemma_decimal(n: nat)
    ensures
        decimal(n).len() > 0,
        forall|i: int| 0 <= i < decimal(n).len() ==> is_digit(#[trigger] decimal(n)[i]),
        digits_value(decimal(n)) == n,
    decreases n,
{
    let s = decimal(n);
    if n < 10 {
        assert(s.drop_last() =~= Seq::<char>::empty());
        assert(digits_value(s) == digits_value(s.drop_last()) * 10 + (s.last() as u32 - 48));
    } else {
        lemma_decimal(n / 10);
        assert(s.drop_last() =~= decimal(n / 10));
    }
}

// ─── White space and separators ──────────────────────────────────────────────

/// The characters with Unicode's property `White_Space`.
pub open spec fn is_white(c: char) -> bool {
    let n = c as u32;
    ||| 0x9 <= n <= 0xd
    ||| n == 0x20
    ||| n == 0x85
    ||| n == 0xa0
    ||| n == 0x1680
    ||| 0x2000 <= n <= 0x200a
    ||| 0x2028 <= n <= 0x2029
    ||| n == 0x202f
    ||| n == 0x205f
    ||| n == 0x3000
}

fn white(c: char) -> (r: bool)
    ensures
        r == is_white(c),
{
    let n: u32 = c as u32;
    (0x9 <= n && n <= 0xd) || n == 0x20 || n == 0x85 || n == 0xa0 || n == 0x1680 || (0x2000 <= n
        && n <= 0x200a) || n == 0x2028 || n == 0x2029 || n == 0x202f || n == 0x205f || n == 0x3000
}

/// `s` without leading and trailing white space.
pub open spec fn trimmed(s: Seq<char>) -> Seq<char>
    decreases s.len(),
{
    if s.len() > 0 && is_white(s[0]) {
        trimmed(s.drop_first())
    } else if s.len() > 0 && is_white(s.last()) {
        trimmed(s.drop_last())
    } else {
        s
    }
}

/// `s` without leading and trailing white space.
pub fn trim(s: &str) -> (t: &str)
    ensures
        t@ == trimmed(s@),
{
    let chars = chars_of(s);
    let mut from: usize = 0;
    let mut to: usize = chars.len();
    assert(s@.subrange(0, to as int) =~= s@);
    while from < to && white(chars[from])
        invariant
            chars@ == s@,
            from <= to == chars@.len(),
            trimmed(s@.subrange(from as int, to as int)) == trimmed(s@),
        decreases to - from,
    {
        assert(s@.subrange(from as int, to as int).drop_first() =~= s@.subrange(
            from + 1,
            to as int,
        ));
        from += 1;
    }
    while from < to && white(chars[to - 1])
        invariant
            chars@ == s@,
            from <= to <= chars@.len(),
            from == to || !is_white(s@[from as int]),
            trimmed(s@.subrange(from as int, to as int)) == trimmed(s@),
        decreases to - from,
    {
        assert(s@.subrange(from as int, to as int).drop_last() =~= s@.subrange(
            from as int,
            to - 1,
        ));
        to -= 1;
    }
    s.substring_char(from, to)
}

/// Where `c` first occurs in `s`.
pub open spec fn first_of(s: Seq<char>, c: char) -> Option<int>
    decreases s.len(),
{
    if s.len() == 0 {
        None
    } else if s[0] == c {
        Some(0)
    } else {
        match first_of(s.drop_first(), c) {
            Some(i) => Some(i + 1),
            None => None,
        }
    }
}

/// `s` cut in two at the first `c`, which belongs to neither part.
pub open spec fn cut_at(s: Seq<char>, c: char) -> Option<(Seq<char>, Seq<char>)> {
    match first_of(s, c) {
        Some(i) => Some((s.take(i), s.skip(i + 1))),
        None => None,
    }
}

/// Where `c` first occurs is in range, and it occurs nowhere before.
pub proof fn first_of_is_first(s: Seq<char>, c: char)
    ensures
        first_of(s, c) matches Some(i) ==> {
            &&& 0 <= i < s.len()
            &&& s[i] == c
            &&& forall|j: int| 0 <= j < i ==> s[j] != c
        },
        first_of(s, c) is None <==> !s.contains(c),
    decreases s.len(),
{
    if s.len() > 0 && s[0] != c {
        let rest = s.drop_first();
        first_of_is_first(rest, c);
        assert forall|j: int| 0 <= j < rest.len() implies rest[j] == #[trigger] s[j + 1] by {}
        if let Some(i) = first_of(rest, c) {
            assert forall|j: int| 0 <= j < i + 1 implies s[j] != c by {
                if j > 0 {
                    assert(rest[j - 1] == s[j]);
                }
            }
            assert(s[i + 1] == c);
        } else if s.contains(c) {
            let j = choose|j: int| 0 <= j < s.len() && s[j] == c;
            assert(rest[j - 1] == c);
        }
    }
}

/// Cut `s` at the first `c`.
pub fn split_once(s: &str, c: char) -> (parts: Option<(&str, &str)>)
    ensures
        match parts {
            Some(p) => cut_at(s@, c) == Some((p.0@, p.1@)),
            None => cut_at(s@, c) is None,
        },
{
    let chars = chars_of(s);
    proof {
        first_of_is_first(s@, c);
    }
    let mut i: usize = 0;
    while i < chars.len()
        invariant
            i <= chars@.len(),
            chars@ == s@,
            forall|j: int| 0 <= j < i ==> s@[j] != c,
        decreases chars@.len() - i,
    {
        if chars[i] == c {
            proof {
                first_of_is_first(s@, c);
                assert(s@.contains(c));
                assert(first_of(s@, c) == Some(i as int));
            }
            let head = s.substring_char(0, i);
            let rest = s.substring_char(i + 1, chars.len());
            assert(head@ =~= s@.take(i as int));
            assert(rest@ =~= s@.skip(i + 1));
            return Some((head, rest));
        }
        i += 1;
    }
    None
}

/// Compare two strings.
pub fn same(a: &str, b: &str) -> (r: bool)
    ensures
        r == (a@ == b@),
{
    let x: String = a.to_string();
    let y: String = b.to_string();
    x == y
}

/// Compare two optional strings.
pub fn same_opt(a: &Option<String>, b: &Option<String>) -> (r: bool)
    ensures
        r == (opt(*a) == opt(*b)),
{
    match (a, b) {
        (Some(x), Some(y)) => same(x.as_str(), y.as_str()),
        (None, None) => true,
        _ => false,
    }
}

// ─── Case ────────────────────────────────────────────────────────────────────

/// An ASCII letter in lower case; any other character as it is.
pub open spec fn ascii_lower(c: char) -> char {
    if 65 <= c as u32 <= 90 {
        (c as u32 + 32) as char
    } else {
        c
    }
}

/// `s` with its ASCII letters in lower case.
pub open spec fn ascii_lowered(s: Seq<char>) -> Seq<char> {
    s.map_values(|c: char| ascii_lower(c))
}

fn lower(c: char) -> (l: u32)
    ensures
        l == ascii_lower(c) as u32,
{
    let n: u32 = c as u32;
    if 65 <= n && n <= 90 {
        n + 32
    } else {
        n
    }
}

/// Compare two strings, ignoring the case of ASCII letters.
pub fn eq_ignore_ascii_case(a: &str, b: &str) -> (r: bool)
    ensures
        r == (ascii_lowered(a@) == ascii_lowered(b@)),
{
    let x = chars_of(a);
    let y = chars_of(b);
    if x.len() != y.len() {
        assert(ascii_lowered(a@).len() != ascii_lowered(b@).len());
        return false;
    }
    let mut i: usize = 0;
    while i < x.len()
        invariant
            i <= x@.len() == y@.len(),
            x@ == a@,
            y@ == b@,
            forall|k: int| 0 <= k < i ==> ascii_lowered(a@)[k] == ascii_lowered(b@)[k],
        decreases x@.len() - i,
    {
        if lower(x[i]) != lower(y[i]) {
            assert(ascii_lowered(a@)[i as int] != ascii_lowered(b@)[i as int]);
            return false;
        }
        i += 1;
    }
    assert(ascii_lowered(a@) =~= ascii_lowered(b@));
    true
}

/// What `str::to_lowercase` returns: the string in lower case by Unicode's
/// rules.
pub uninterp spec fn unicode_lowercase(s: Seq<char>) -> Seq<char>;

/// `str::to_lowercase`: the result is a function of the string alone; where the
/// string is ASCII, its letters are mapped to lower case one by one.
pub assume_specification[ str::to_lowercase ](s: &str) -> (lower: String)
    ensures
        lower@ == unicode_lowercase(s@),
        vstd::utf8::is_ascii_chars(s@) ==> lower@ == ascii_lowered(s@),
;

/// What is seen of strings are their characters, one string for one.
pub proof fn strings_are_seen_by_their_characters(
    s: Option<String>,
    strings: Seq<String>,
    pairs: Seq<(String, String)>,
)
    ensures
        opt(s) is Some <==> s is Some,
        s matches Some(t) ==> opt(s)->0 == t@,
        each(strings).len() == strings.len(),
        forall|i: int| 0 <= i < strings.len() ==> #[trigger] each(strings)[i] == strings[i]@,
        each_pair(pairs).len() == pairs.len(),
        forall|i: int|
            0 <= i < pairs.len() ==> {
                let pair = #[trigger] each_pair(pairs)[i];
                let strings = pairs[i];
                pair.0 == strings.0@ && pair.1 == strings.1@
            },
{
}

/// A number is read digit by digit: one more digit makes it ten times as large and adds
/// the digit. No digits at all, or any other character, are no number, and neither is one
/// beyond `u64`; a leading plus makes no difference.
pub proof fn numbers_are_read_digit_by_digit(s: Seq<char>, d: char)
    ensures
        parsed_u64(Seq::empty()) is None,
        48 <= d as u32 <= 57 ==> parsed_u64(seq![d]) == Some((d as u32 - 48) as u64),
        parsed_u64(s) matches Some(n) ==> {
            &&& 48 <= d as u32 <= 57 && n * 10 + (d as u32 - 48) <= u64::MAX ==> parsed_u64(
                s.push(d),
            ) == Some((n * 10 + (d as u32 - 48)) as u64)
            &&& 48 <= d as u32 <= 57 && n * 10 + (d as u32 - 48) > u64::MAX ==> parsed_u64(
                s.push(d),
            ) is None
        },
        !(48 <= d as u32 <= 57) && s.len() > 0 ==> parsed_u64(s.push(d)) is None,
        s.len() > 0 && s[0] != '+' ==> parsed_u64(seq!['+'] + s) == parsed_u64(s),
{
    assert(unsigned_digits(Seq::empty()).len() == 0);
    let one = seq![d];
    assert(one.drop_last() =~= Seq::<char>::empty());
    assert(digits_value(one) == digits_value(one.drop_last()) * 10 + (d as u32 - 48));
    if 48 <= d as u32 <= 57 {
        assert(unsigned_digits(one) == one);
        assert forall|i: int| 0 <= i < one.len() implies is_digit(#[trigger] one[i]) by {}
    }
    let longer = s.push(d);
    if s.len() > 0 {
        let digits = unsigned_digits(s);
        assert(unsigned_digits(longer) =~= digits.push(d));
        assert(digits.push(d).drop_last() =~= digits);
        let all = digits.push(d);
        assert(all[digits.len() as int] == d);
        assert(all.last() == d);
        assert(digits_value(all) == digits_value(digits) * 10 + (d as u32 - 48));
        if parsed_u64(s) is Some {
            lemma_digits_value_prefix(digits, 0);
        }
        if parsed_u64(s) is Some && 48 <= d as u32 <= 57 {
            assert forall|i: int| 0 <= i < all.len() implies is_digit(#[trigger] all[i]) by {
                if i < digits.len() {
                    assert(is_digit(digits[i]));
                }
            }
        }
        if !(48 <= d as u32 <= 57) {
            assert(!is_digit(all[digits.len() as int]));
        }
        if s[0] != '+' {
            assert((seq!['+'] + s).drop_first() =~= s);
        }
    }
}

/// Numbers are written without leading zeros, in digits, and can be read back.
pub proof fn numbers_are_written_in_digits(n: u64)
    ensures
        decimal(n as nat).len() > 0,
        forall|i: int|
            0 <= i < decimal(n as nat).len() ==> 48 <= #[trigger] decimal(n as nat)[i] as u32 <= 57,
        decimal(n as nat)[0] == '0' ==> n == 0,
        parsed_u64(decimal(n as nat)) == Some(n),
    decreases n,
{
    decimal_round_trip(n);
    lemma_decimal(n as nat);
    let s = decimal(n as nat);
    assert forall|i: int| 0 <= i < s.len() implies 48 <= #[trigger] s[i] as u32 <= 57 by {
        assert(is_digit(s[i]));
    }
    if n >= 10 {
        numbers_are_written_in_digits((n / 10) as u64);
        assert(s[0] == decimal((n / 10) as nat)[0]);
    } else {
        assert(s[0] == digit_char(n as int));
        assert(digit_char(n as int) as u32 == 48 + n);
    }
}

/// A part of `s` that only white space was taken off.
pub open spec fn stripped(s: Seq<char>, from: int, to: int) -> bool {
    &&& 0 <= from <= to <= s.len()
    &&& forall|i: int| 0 <= i < from || to <= i < s.len() ==> is_white(#[trigger] s[i])
}

proof fn lemma_trimmed_part(s: Seq<char>) -> (part: (int, int))
    ensures
        stripped(s, part.0, part.1),
        trimmed(s) == s.subrange(part.0, part.1),
    decreases s.len(),
{
    if s.len() > 0 && is_white(s[0]) {
        let rest = s.drop_first();
        let (from, to) = lemma_trimmed_part(rest);
        assert(rest.subrange(from, to) =~= s.subrange(from + 1, to + 1));
        assert forall|i: int| 0 <= i < from + 1 || to + 1 <= i < s.len() implies is_white(
            #[trigger] s[i],
        ) by {
            if i > 0 {
                assert(is_white(rest[i - 1]));
                assert(s[i] == rest[i - 1]);
            }
        }
        (from + 1, to + 1)
    } else if s.len() > 0 && is_white(s.last()) {
        let rest = s.drop_last();
        let (from, to) = lemma_trimmed_part(rest);
        assert(rest.subrange(from, to) =~= s.subrange(from, to));
        assert forall|i: int| 0 <= i < from || to <= i < s.len() implies is_white(
            #[trigger] s[i],
        ) by {
            if i < rest.len() {
                assert(is_white(rest[i]));
                assert(s[i] == rest[i]);
            }
        }
        (from, to)
    } else {
        assert(s.subrange(0, s.len() as int) =~= s);
        (0, s.len() as int)
    }
}

proof fn lemma_trimmed_ends(s: Seq<char>)
    ensures
        trimmed(s).len() > 0 ==> !is_white(trimmed(s)[0]) && !is_white(trimmed(s).last()),
    decreases s.len(),
{
    if s.len() > 0 && is_white(s[0]) {
        lemma_trimmed_ends(s.drop_first());
    } else if s.len() > 0 && is_white(s.last()) {
        lemma_trimmed_ends(s.drop_last());
    }
}

/// Trimming takes white space off both ends and nothing else: what is left neither begins
/// nor ends with it, and what was taken is nothing but white space.
pub proof fn trimming_takes_white_space_off(s: Seq<char>)
    ensures
        trimmed(s).len() > 0 ==> !is_white(trimmed(s)[0]) && !is_white(trimmed(s).last()),
        exists|from: int, to: int| #[trigger]
            stripped(s, from, to) && trimmed(s) == s.subrange(from, to),
{
    lemma_trimmed_ends(s);
    let (from, to) = lemma_trimmed_part(s);
    assert(stripped(s, from, to));
}

/// In ASCII, white space is the space and the control characters from tab to carriage
/// return.
pub proof fn white_space_is_blank(c: char)
    requires
        (c as u32) < 128,
    ensures
        is_white(c) <==> c == ' ' || '\t' as u32 <= c as u32 <= '\r' as u32,
{
}

/// Text is cut at the first separator: the two parts with the separator between them are
/// the text, and it does not occur in the first; text without it is not cut.
pub proof fn text_is_cut_at_the_first_separator(s: Seq<char>, c: char)
    ensures
        cut_at(s, c) is None <==> !s.contains(c),
        cut_at(s, c) matches Some((before, after)) ==> before.push(c) + after == s
            && !before.contains(c),
{
    first_of_is_first(s, c);
    if let Some(i) = first_of(s, c) {
        assert(s.take(i).push(c) + s.skip(i + 1) =~= s);
        assert(!s.take(i).contains(c));
    }
}

/// A text that is put together from two parts is cut between them again.
pub proof fn cutting_undoes_joining(before: Seq<char>, c: char, after: Seq<char>)
    requires
        !before.contains(c),
    ensures
        cut_at(before.push(c) + after, c) == Some((before, after)),
{
    let s = before.push(c) + after;
    first_of_is_first(s, c);
    let n = before.len() as int;
    assert(s[n] == c);
    assert(s.contains(c));
    let i = first_of(s, c)->0;
    if i < n {
        assert(before[i] == c);
    }
    assert(i == n);
    assert(s.take(n) =~= before);
    assert(s.skip(n + 1) =~= after);
}

/// Only the capital letters of ASCII change in lower case, each to its small letter.
pub proof fn only_ascii_capitals_are_lowered(s: Seq<char>)
    ensures
        ascii_lowered(s).len() == s.len(),
        forall|i: int|
            0 <= i < s.len() ==> {
                let before = #[trigger] s[i];
                let after = ascii_lowered(s)[i];
                &&& 'A' as u32 <= before as u32 <= 'Z' as u32 ==> after as u32 - 'a' as u32
                    == before as u32 - 'A' as u32
                &&& !('A' as u32 <= before as u32 <= 'Z' as u32) ==> after == before
            },
        ascii_lowered(ascii_lowered(s)) == ascii_lowered(s),
{
    assert(ascii_lowered(ascii_lowered(s)) =~= ascii_lowered(s));
}

} // verus!
