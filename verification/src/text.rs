//! Text primitives over the characters of a string.
//!
//! Every function here is specified on `Seq<char>`, the view that a string has in contracts, so
//! that the modules above can state labels, messages and paths exactly.
use vstd::prelude::*;

verus! {

/// `String::push` appends the given character to the end of the string.
pub assume_specification[ String::push ](s: &mut String, c: char)
    ensures
        final(s)@ == old(s)@.push(c),
;

/// The characters of each string of a list.
pub open spec fn texts(list: Seq<String>) -> Seq<Seq<char>> {
    list.map_values(text_of())
}

/// The view of a string as a function.
pub open spec fn text_of() -> spec_fn(String) -> Seq<char> {
    |s: String| s@
}

/// Appending to a list of strings appends to its texts.
pub broadcast proof fn lemma_texts_push(list: Seq<String>, s: String)
    ensures
        #[trigger] texts(list.push(s)) == texts(list).push(s@),
{
    assert(texts(list.push(s)) =~= texts(list).push(s@));
}

/// Concatenating lists of strings concatenates their texts.
pub broadcast proof fn lemma_texts_add(a: Seq<String>, b: Seq<String>)
    ensures
        #[trigger] texts(a + b) == texts(a) + texts(b),
{
    assert(texts(a + b) =~= texts(a) + texts(b));
}

/// An empty list of strings has no texts.
pub broadcast proof fn lemma_texts_empty(list: Seq<String>)
    requires
        list.len() == 0,
    ensures
        #[trigger] texts(list) == Seq::<Seq<char>>::empty(),
{
    assert(texts(list) =~= Seq::<Seq<char>>::empty());
}

pub broadcast group group_texts {
    lemma_texts_push,
    lemma_texts_add,
    lemma_texts_empty,
}

/// The characters of `s`, in order.
pub fn chars_of(s: &str) -> (r: Vec<char>)
    ensures
        r@ == s@,
{
    let mut out: Vec<char> = Vec::new();
    for c in it: s.chars()
        invariant
            out@ == it.seq().take(it.index() as int),
            it.seq() == s@,
    {
        out.push(c);
    }
    out
}

/// The string made of `chars[from..to]`.
pub fn string_between(chars: &Vec<char>, from: usize, to: usize) -> (r: String)
    requires
        from <= to <= chars@.len(),
    ensures
        r@ == chars@.subrange(from as int, to as int),
{
    let mut out = String::new();
    let mut i: usize = from;
    while i < to
        invariant
            from <= i <= to <= chars@.len(),
            out@ == chars@.subrange(from as int, i as int),
        decreases to - i,
    {
        out.push(chars[i]);
        i += 1;
        assert(chars@.subrange(from as int, i as int) =~= chars@.subrange(
            from as int,
            i - 1,
        ).push(chars@[i - 1]));
    }
    out
}

/// Whether the characters at `at..` of `chars` begin with `pattern`.
fn matches_at(chars: &Vec<char>, at: usize, pattern: &Vec<char>) -> (r: bool)
    requires
        at + pattern@.len() <= chars@.len(),
    ensures
        r == (chars@.subrange(at as int, at + pattern@.len()) == pattern@),
{
    let n: usize = chars.len();
    let mut i: usize = 0;
    while i < pattern.len()
        invariant
            i <= pattern@.len(),
            at + pattern@.len() <= chars@.len(),
            n == chars@.len(),
            forall|j: int| 0 <= j < i ==> chars@[at + j] == pattern@[j],
        decreases pattern@.len() - i,
    {
        if chars[at + i] != pattern[i] {
            assert(chars@.subrange(at as int, at + pattern@.len())[i as int] != pattern@[i as int]);
            return false;
        }
        i += 1;
    }
    assert(chars@.subrange(at as int, at + pattern@.len()) =~= pattern@);
    true
}

/// String equality.
pub fn str_eq(a: &str, b: &str) -> (r: bool)
    ensures
        r == (a@ == b@),
{
    let x = chars_of(a);
    let y = chars_of(b);
    if x.len() != y.len() {
        return false;
    }
    let r = matches_at(&x, 0, &y);
    assert(x@.subrange(0, x@.len() as int) =~= x@);
    r
}

/// Whether `s` has no characters.
pub fn is_empty(s: &str) -> (r: bool)
    ensures
        r == (s@.len() == 0),
{
    s.is_empty()
}

/// Whether `s` begins with `prefix`.
pub fn starts_with(s: &str, prefix: &str) -> (r: bool)
    ensures
        r == prefix@.is_prefix_of(s@),
{
    let x = chars_of(s);
    let y = chars_of(prefix);
    if y.len() > x.len() {
        return false;
    }
    matches_at(&x, 0, &y)
}

/// Whether `s` ends with `suffix`.
pub fn ends_with(s: &str, suffix: &str) -> (r: bool)
    ensures
        r == suffix@.is_suffix_of(s@),
{
    let x = chars_of(s);
    let y = chars_of(suffix);
    if y.len() > x.len() {
        return false;
    }
    matches_at(&x, x.len() - y.len(), &y)
}

/// `pattern` stands at position `at` of `s`.
pub open spec fn occurs_at(s: Seq<char>, pattern: Seq<char>, at: int) -> bool {
    0 <= at && at + pattern.len() <= s.len() && s.subrange(at, at + pattern.len()) == pattern
}

/// `pattern` stands somewhere in `s`.
pub open spec fn occurs(s: Seq<char>, pattern: Seq<char>) -> bool {
    exists|at: int| occurs_at(s, pattern, at)
}

/// Whether `pattern` occurs in `s`.
pub fn contains(s: &str, pattern: &str) -> (r: bool)
    ensures
        r == occurs(s@, pattern@),
{
    let x = chars_of(s);
    let y = chars_of(pattern);
    if y.len() > x.len() {
        return false;
    }
    let last: usize = x.len() - y.len();
    let mut at: usize = 0;
    while at <= last
        invariant
            x@ == s@,
            y@ == pattern@,
            at <= last + 1,
            last == x@.len() - y@.len(),
            x@.len() <= usize::MAX,
            forall|j: int| 0 <= j < at ==> !#[trigger] occurs_at(s@, pattern@, j),
        decreases last + 1 - at,
    {
        if matches_at(&x, at, &y) {
            assert(occurs_at(s@, pattern@, at as int));
            return true;
        }
        if at == last {
            assert(forall|j: int| !#[trigger] occurs_at(s@, pattern@, j));
            return false;
        }
        at += 1;
    }
    false
}

/// `s` without the prefix.
pub open spec fn without_prefix(s: Seq<char>, prefix: Seq<char>) -> Option<Seq<char>> {
    if prefix.is_prefix_of(s) {
        Some(s.subrange(prefix.len() as int, s.len() as int))
    } else {
        None
    }
}

/// `s` without the suffix.
pub open spec fn without_suffix(s: Seq<char>, suffix: Seq<char>) -> Option<Seq<char>> {
    if suffix.is_suffix_of(s) {
        Some(s.subrange(0, s.len() - suffix.len()))
    } else {
        None
    }
}

/// The view of an optional string.
pub open spec fn opt_text(s: Option<String>) -> Option<Seq<char>> {
    match s {
        Some(s) => Some(s@),
        None => None,
    }
}

/// Strips `prefix` from `s` if it is there.
pub fn strip_prefix(s: &str, prefix: &str) -> (r: Option<String>)
    ensures
        opt_text(r) == without_prefix(s@, prefix@),
{
    let x = chars_of(s);
    let y = chars_of(prefix);
    if y.len() > x.len() || !matches_at(&x, 0, &y) {
        return None;
    }
    Some(string_between(&x, y.len(), x.len()))
}

/// Strips `suffix` from `s` if it is there.
pub fn strip_suffix(s: &str, suffix: &str) -> (r: Option<String>)
    ensures
        opt_text(r) == without_suffix(s@, suffix@),
{
    let x = chars_of(s);
    let y = chars_of(suffix);
    if y.len() > x.len() || !matches_at(&x, x.len() - y.len(), &y) {
        return None;
    }
    Some(string_between(&x, 0, x.len() - y.len()))
}

/// The characters with the Unicode property `White_Space`.
pub open spec fn is_space(c: char) -> bool {
    ||| '\u{9}' <= c <= '\u{d}'
    ||| c == ' '
    ||| c == '\u{85}'
    ||| c == '\u{a0}'
    ||| c == '\u{1680}'
    ||| '\u{2000}' <= c <= '\u{200a}'
    ||| c == '\u{2028}'
    ||| c == '\u{2029}'
    ||| c == '\u{202f}'
    ||| c == '\u{205f}'
    ||| c == '\u{3000}'
}

/// Whether `c` is white space.
pub fn space(c: char) -> (r: bool)
    ensures
        r == is_space(c),
{
    ('\u{9}' <= c && c <= '\u{d}') || c == ' ' || c == '\u{85}' || c == '\u{a0}' || c == '\u{1680}'
        || ('\u{2000}' <= c && c <= '\u{200a}') || c == '\u{2028}' || c == '\u{2029}'
        || c == '\u{202f}' || c == '\u{205f}' || c == '\u{3000}'
}

/// `s` without its leading white space.
pub open spec fn trimmed_start(s: Seq<char>) -> Seq<char>
    decreases s.len(),
{
    if s.len() > 0 && is_space(s[0]) {
        trimmed_start(s.subrange(1, s.len() as int))
    } else {
        s
    }
}

/// `s` without its trailing white space.
pub open spec fn trimmed_end(s: Seq<char>) -> Seq<char>
    decreases s.len(),
{
    if s.len() > 0 && is_space(s.last()) {
        trimmed_end(s.drop_last())
    } else {
        s
    }
}

/// `s` without white space at either end.
pub open spec fn trimmed(s: Seq<char>) -> Seq<char> {
    trimmed_end(trimmed_start(s))
}

/// `s` without white space at either end.
pub fn trim(s: &str) -> (r: String)
    ensures
        r@ == trimmed(s@),
{
    let x = chars_of(s);
    let mut from: usize = 0;
    assert(x@.subrange(0, x@.len() as int) =~= x@);
    while from < x.len() && space(x[from])
        invariant
            from <= x@.len(),
            trimmed_start(x@.subrange(from as int, x@.len() as int)) == trimmed_start(x@),
        decreases x@.len() - from,
    {
        assert(x@.subrange(from as int, x@.len() as int).subrange(
            1,
            (x@.len() - from) as int,
        ) =~= x@.subrange(from + 1, x@.len() as int));
        from += 1;
    }
    assert(trimmed_start(x@) == x@.subrange(from as int, x@.len() as int));
    let mut to: usize = x.len();
    while to > from && space(x[to - 1])
        invariant
            from <= to <= x@.len(),
            trimmed_end(x@.subrange(from as int, to as int)) == trimmed(x@),
        decreases to,
    {
        assert(x@.subrange(from as int, to as int).drop_last() =~= x@.subrange(
            from as int,
            to - 1,
        ));
        to -= 1;
    }
    string_between(&x, from, to)
}


/// `a` followed by `b`.
pub fn concat2(a: &str, b: &str) -> (r: String)
    ensures
        r@ == a@ + b@,
{
    let mut out = a.to_string();
    out.append(b);
    out
}

/// `a`, `b` and `c`, one after the other.
pub fn concat3(a: &str, b: &str, c: &str) -> (r: String)
    ensures
        r@ == a@ + b@ + c@,
{
    let mut out = concat2(a, b);
    out.append(c);
    out
}

/// Four strings, one after the other.
pub fn concat4(a: &str, b: &str, c: &str, d: &str) -> (r: String)
    ensures
        r@ == a@ + b@ + c@ + d@,
{
    let mut out = concat3(a, b, c);
    out.append(d);
    out
}

/// Five strings, one after the other.
pub fn concat5(a: &str, b: &str, c: &str, d: &str, e: &str) -> (r: String)
    ensures
        r@ == a@ + b@ + c@ + d@ + e@,
{
    let mut out = concat4(a, b, c, d);
    out.append(e);
    out
}

/// Six strings, one after the other.
pub fn concat6(a: &str, b: &str, c: &str, d: &str, e: &str, f: &str) -> (r: String)
    ensures
        r@ == a@ + b@ + c@ + d@ + e@ + f@,
{
    let mut out = concat5(a, b, c, d, e);
    out.append(f);
    out
}

/// Seven strings, one after the other.
pub fn concat7(a: &str, b: &str, c: &str, d: &str, e: &str, f: &str, g: &str) -> (r: String)
    ensures
        r@ == a@ + b@ + c@ + d@ + e@ + f@ + g@,
{
    let mut out = concat6(a, b, c, d, e, f);
    out.append(g);
    out
}

/// The parts with `sep` between each two neighbours.
pub open spec fn joined(parts: Seq<Seq<char>>, sep: Seq<char>) -> Seq<char>
    decreases parts.len(),
{
    if parts.len() == 0 {
        Seq::empty()
    } else if parts.len() == 1 {
        parts[0]
    } else {
        joined(parts.drop_last(), sep) + sep + parts.last()
    }
}

/// Joins the strings of a list with `sep` between each two neighbours.
pub fn join(parts: &Vec<String>, sep: &str) -> (r: String)
    ensures
        r@ == joined(texts(parts@), sep@),
{
    let mut out = String::new();
    let mut i: usize = 0;
    while i < parts.len()
        invariant
            i <= parts@.len(),
            out@ == joined(texts(parts@).take(i as int), sep@),
        decreases parts@.len() - i,
    {
        proof {
            assert(texts(parts@).take(i + 1).drop_last() =~= texts(parts@).take(i as int));
        }
        if i > 0 {
            out.append(sep);
        }
        out.append(&parts[i]);
        proof {
            if i == 0 {
                assert(out@ =~= parts@[0]@);
            }
        }
        i += 1;
    }
    assert(texts(parts@).take(i as int) =~= texts(parts@));
    out
}

/// The decimal digit with value `d`.
pub open spec fn digit_char(d: int) -> char {
    if d == 0 {
        '0'
    } else if d == 1 {
        '1'
    } else if d == 2 {
        '2'
    } else if d == 3 {
        '3'
    } else if d == 4 {
        '4'
    } else if d == 5 {
        '5'
    } else if d == 6 {
        '6'
    } else if d == 7 {
        '7'
    } else if d == 8 {
        '8'
    } else {
        '9'
    }
}

/// `n` in decimal, without leading zeros.
pub open spec fn decimal(n: nat) -> Seq<char>
    decreases n,
{
    if n < 10 {
        seq![digit_char(n as int)]
    } else {
        decimal(n / 10).push(digit_char((n % 10) as int))
    }
}

/// The decimal digit with value `d`.
fn digit_of(d: u64) -> (r: char)
    requires
        d < 10,
    ensures
        r == digit_char(d as int),
{
    match d {
        0 => '0',
        1 => '1',
        2 => '2',
        3 => '3',
        4 => '4',
        5 => '5',
        6 => '6',
        7 => '7',
        8 => '8',
        _ => '9',
    }
}

/// `n` in decimal.
pub fn decimal_of(n: u64) -> (r: String)
    ensures
        r@ == decimal(n as nat),
    decreases n,
{
    let mut out = if n < 10 {
        String::new()
    } else {
        decimal_of(n / 10)
    };
    out.push(digit_of(n % 10));
    proof {
        if n < 10 {
            assert(out@ =~= seq![digit_char(n as int)]);
        }
    }
    out
}

/// Whether `c` is one of `0` to `9`.
pub open spec fn is_digit(c: char) -> bool {
    '0' <= c <= '9'
}

/// Every character of `s` is one of `0` to `9`.
pub open spec fn all_digits(s: Seq<char>) -> bool {
    forall|i: int| 0 <= i < s.len() ==> is_digit(#[trigger] s[i])
}

/// Whether every character of `s` from `from` on is one of `0` to `9`.
pub fn digits_from(s: &Vec<char>, from: usize) -> (r: bool)
    requires
        from <= s@.len(),
    ensures
        r == all_digits(s@.subrange(from as int, s@.len() as int)),
{
    let mut i: usize = from;
    while i < s.len()
        invariant
            from <= i <= s@.len(),
            forall|j: int| from <= j < i ==> is_digit(#[trigger] s@[j]),
        decreases s@.len() - i,
    {
        let c = s[i];
        if !('0' <= c && c <= '9') {
            assert(!is_digit(s@.subrange(from as int, s@.len() as int)[i - from]));
            return false;
        }
        i += 1;
    }
    assert forall|j: int| 0 <= j < s@.len() - from implies is_digit(
        #[trigger] s@.subrange(from as int, s@.len() as int)[j],
    ) by {
        assert(is_digit(s@[from + j]));
    }
    true
}

/// The value of a decimal digit.
pub open spec fn digit_value(c: char) -> nat {
    (c as u32 - '0' as u32) as nat
}

/// The number that a row of decimal digits stands for.
pub open spec fn decimal_value(s: Seq<char>) -> nat
    decreases s.len(),
{
    if s.len() == 0 {
        0
    } else {
        decimal_value(s.drop_last()) * 10 + digit_value(s.last())
    }
}

/// The digits of a number written with an optional `+` in front.
pub open spec fn number_digits(s: Seq<char>) -> Seq<char> {
    if s.len() > 1 && s[0] == '+' {
        s.subrange(1, s.len() as int)
    } else {
        s
    }
}

/// The unsigned number that `s` stands for, if it is one and is at most `max`: decimal digits,
/// at least one, with an optional `+` in front.
pub open spec fn parsed_number(s: Seq<char>, max: nat) -> Option<nat> {
    let digits = number_digits(s);
    if digits.len() > 0 && all_digits(digits) && decimal_value(digits) <= max {
        Some(decimal_value(digits))
    } else {
        None
    }
}

/// A longer row of digits stands for no smaller number.
proof fn lemma_decimal_value_grows(s: Seq<char>, i: int)
    requires
        0 <= i <= s.len(),
    ensures
        decimal_value(s.take(i)) <= decimal_value(s),
    decreases s.len(),
{
    if i < s.len() {
        lemma_decimal_value_grows(s.drop_last(), i);
        assert(s.drop_last().take(i) =~= s.take(i));
    } else {
        assert(s.take(i) =~= s);
    }
}

/// Parses an unsigned number of at most `max`.
pub fn parse_number(s: &str, max: u64) -> (r: Option<u64>)
    ensures
        match r {
            Some(n) => parsed_number(s@, max as nat) == Some(n as nat),
            None => parsed_number(s@, max as nat) is None,
        },
{
    let x = chars_of(s);
    let from: usize = if x.len() > 1 && x[0] == '+' {
        1
    } else {
        0
    };
    let ghost digits = number_digits(s@);
    assert(x@.subrange(from as int, x@.len() as int) =~= digits);
    if from >= x.len() || !digits_from(&x, from) {
        return None;
    }
    let mut value: u64 = 0;
    let mut i: usize = from;
    while i < x.len()
        invariant
            from <= i <= x@.len(),
            digits == x@.subrange(from as int, x@.len() as int),
            digits == number_digits(s@),
            digits.len() > 0,
            all_digits(digits),
            value == decimal_value(digits.take(i - from)),
            value <= max,
        decreases x@.len() - i,
    {
        let c = x[i];
        proof {
            assert(c == digits[i - from]);
            assert(digits.take(i + 1 - from).drop_last() =~= digits.take(i - from));
            lemma_decimal_value_grows(digits, i + 1 - from);
        }
        let d: u64 = (c as u32 - '0' as u32) as u64;
        if value > (u64::MAX - d) / 10 {
            return None;
        }
        value = value * 10 + d;
        if value > max {
            return None;
        }
        i += 1;
    }
    assert(digits.take(i - from) =~= digits);
    Some(value)
}

/// Parses a `u32`.
pub fn parse_u32(s: &str) -> (r: Option<u32>)
    ensures
        match r {
            Some(n) => parsed_number(s@, u32::MAX as nat) == Some(n as nat),
            None => parsed_number(s@, u32::MAX as nat) is None,
        },
{
    match parse_number(s, u32::MAX as u64) {
        Some(n) => Some(n as u32),
        None => None,
    }
}

/// Parses a `usize`.
pub fn parse_usize(s: &str) -> (r: Option<usize>)
    ensures
        match r {
            Some(n) => parsed_number(s@, usize::MAX as nat) == Some(n as nat),
            None => parsed_number(s@, usize::MAX as nat) is None,
        },
{
    match parse_number(s, usize::MAX as u64) {
        Some(n) => Some(n as usize),
        None => None,
    }
}

/// A number in decimal is a non-empty row of digits that stands for it.
pub proof fn lemma_decimal_parses(n: nat)
    ensures
        decimal(n).len() > 0,
        all_digits(decimal(n)),
        decimal_value(decimal(n)) == n,
    decreases n,
{
    reveal_with_fuel(decimal_value, 2);
    if n >= 10 {
        lemma_decimal_parses(n / 10);
        let d = digit_char((n % 10) as int);
        assert(decimal(n).drop_last() =~= decimal(n / 10));
        assert(digit_value(d) == n % 10);
    } else {
        assert(decimal(n).drop_last() =~= Seq::empty());
    }
}

/// What is printed in decimal is read back as the same number.
pub proof fn lemma_number_roundtrip(n: nat, max: nat)
    requires
        n <= max,
    ensures
        parsed_number(decimal(n), max) == Some(n),
{
    lemma_decimal_parses(n);
    assert(is_digit(decimal(n)[0]));
}

/// The line, where the condition holds.
pub open spec fn line_if(condition: bool, line: Seq<char>) -> Seq<Seq<char>> {
    if condition {
        seq![line]
    } else {
        Seq::empty()
    }
}

/// The lines, where the condition holds.
pub open spec fn lines_if(condition: bool, lines: Seq<Seq<char>>) -> Seq<Seq<char>> {
    if condition {
        lines
    } else {
        Seq::empty()
    }
}

/// Adds a line.
pub fn add_line(out: &mut Vec<String>, line: &str)
    ensures
        texts(final(out)@) == texts(old(out)@) + seq![line@],
{
    let ghost before = texts(out@);
    out.push(line.to_string());
    proof {
        lemma_texts_push(old(out)@, out@.last());
        assert(before.push(line@) =~= before + seq![line@]);
    }
}

/// Adds a line, where the condition holds.
pub fn add_line_if(out: &mut Vec<String>, condition: bool, line: &str)
    ensures
        texts(final(out)@) == texts(old(out)@) + line_if(condition, line@),
{
    if condition {
        add_line(out, line);
    } else {
        assert(texts(out@) =~= texts(out@) + Seq::<Seq<char>>::empty());
    }
}

/// Adds lines.
pub fn add_lines(out: &mut Vec<String>, lines: Vec<String>)
    ensures
        texts(final(out)@) == texts(old(out)@) + texts(lines@),
{
    let mut lines = lines;
    proof {
        lemma_texts_add(out@, lines@);
    }
    out.append(&mut lines);
}

/// Each text of a list, with a mark before it.
pub open spec fn marked(list: Seq<Seq<char>>, mark: Seq<char>) -> Seq<Seq<char>> {
    list.map_values(|text: Seq<char>| mark + text)
}

/// Each text of a list, with a mark before it.
pub fn mark_lines(list: &Vec<String>, mark: &str) -> (r: Vec<String>)
    ensures
        texts(r@) == marked(texts(list@), mark@),
{
    broadcast use group_texts;

    let ghost all = marked(texts(list@), mark@);
    let mut out: Vec<String> = Vec::new();
    let mut i: usize = 0;
    assert(texts(out@) =~= all.take(0));
    assert(texts(list@).len() == list@.len());
    while i < list.len()
        invariant
            i <= list@.len(),
            texts(list@).len() == list@.len(),
            all == marked(texts(list@), mark@),
            texts(out@) == all.take(i as int),
        decreases list@.len() - i,
    {
        let line = concat2(mark, &list[i]);
        assert(texts(list@)[i as int] == list@[i as int]@);
        assert(line@ == all[i as int]);
        out.push(line);
        assert(all.take(i + 1) =~= all.take(i as int).push(line@));
        i += 1;
    }
    assert(all.take(i as int) =~= all);
    out
}

/// Whether a text is in a list.
pub fn has_text(list: &Vec<String>, s: &str) -> (r: bool)
    ensures
        r == texts(list@).contains(s@),
{
    let mut i: usize = 0;
    assert(texts(list@).len() == list@.len());
    while i < list.len()
        invariant
            i <= list@.len(),
            texts(list@).len() == list@.len(),
            forall|j: int| 0 <= j < i ==> #[trigger] texts(list@)[j] != s@,
        decreases list@.len() - i,
    {
        assert(texts(list@)[i as int] == list@[i as int]@);
        if str_eq(&list[i], s) {
            return true;
        }
        i += 1;
    }
    false
}

/// White space around a text is taken away, and nothing else: what stands between it is kept whole.
pub proof fn lemma_trimmed(before: Seq<char>, s: Seq<char>, after: Seq<char>)
    requires
        forall|i: int| 0 <= i < before.len() ==> is_space(#[trigger] before[i]),
        forall|i: int| 0 <= i < after.len() ==> is_space(#[trigger] after[i]),
        s.len() > 0 ==> !is_space(s[0]) && !is_space(s.last()),
    ensures
        trimmed(before + s + after) == s,
    decreases before.len() + after.len(),
{
    let whole = before + s + after;
    if before.len() > 0 {
        let rest = before.subrange(1, before.len() as int);
        lemma_trimmed(rest, s, after);
        assert(whole[0] == before[0]);
        assert(whole.subrange(1, whole.len() as int) =~= rest + s + after);
    } else if s.len() > 0 {
        assert(whole[0] == s[0]);
        assert(trimmed_start(whole) == whole);
        if after.len() > 0 {
            lemma_trimmed(before, s, after.drop_last());
            let shorter = before + s + after.drop_last();
            assert(whole.last() == after.last());
            assert(whole.drop_last() =~= shorter);
            assert(shorter[0] == s[0]);
            assert(trimmed_start(shorter) == shorter);
        } else {
            assert(whole =~= s);
        }
    } else if after.len() > 0 {
        let rest = after.subrange(1, after.len() as int);
        lemma_trimmed(before, s, rest);
        assert(whole[0] == after[0]);
        assert(whole.subrange(1, whole.len() as int) =~= before + s + rest);
    } else {
        assert(whole =~= s);
    }
}

/// A trimmed text stands in the text it was made from, with white space alone around it, and neither
/// begins nor ends with white space.
pub proof fn lemma_trimmed_parts(s: Seq<char>) -> (r: (Seq<char>, Seq<char>))
    ensures
        s == r.0 + trimmed(s) + r.1,
        forall|i: int| 0 <= i < r.0.len() ==> is_space(#[trigger] r.0[i]),
        forall|i: int| 0 <= i < r.1.len() ==> is_space(#[trigger] r.1[i]),
        trimmed(s).len() > 0 ==> !is_space(trimmed(s)[0]) && !is_space(trimmed(s).last()),
    decreases s.len(),
{
    if s.len() > 0 && is_space(s[0]) {
        let rest = s.subrange(1, s.len() as int);
        let (before, after) = lemma_trimmed_parts(rest);
        let longer = seq![s[0]] + before;
        assert(trimmed(s) == trimmed(rest));
        assert(s =~= seq![s[0]] + rest);
        assert(seq![s[0]] + (before + trimmed(s) + after) =~= longer + trimmed(s) + after);
        (longer, after)
    } else {
        let after = lemma_trimmed_end_parts(s);
        assert(s =~= Seq::<char>::empty() + trimmed(s) + after);
        (Seq::empty(), after)
    }
}

proof fn lemma_trimmed_end_parts(s: Seq<char>) -> (after: Seq<char>)
    ensures
        s == trimmed_end(s) + after,
        forall|i: int| 0 <= i < after.len() ==> is_space(#[trigger] after[i]),
        trimmed_end(s).len() > 0 ==> !is_space(trimmed_end(s).last()),
    decreases s.len(),
{
    if s.len() > 0 && is_space(s.last()) {
        let rest = lemma_trimmed_end_parts(s.drop_last());
        let after = rest.push(s.last());
        assert(trimmed_end(s) == trimmed_end(s.drop_last()));
        assert(s =~= s.drop_last().push(s.last()));
        assert((trimmed_end(s) + rest).push(s.last()) =~= trimmed_end(s) + after);
        after
    } else {
        assert(s =~= trimmed_end(s) + Seq::<char>::empty());
        Seq::empty()
    }
}

} // verus!
