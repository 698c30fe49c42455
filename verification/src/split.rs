//! Cutting sequences into parts: at a separator, into lines, into words, into path components.
use vstd::prelude::*;

use crate::text::{
    chars_of, is_empty, opt_text, string_between, str_eq, texts, is_space, space,
};
use vstd::utf8::{decode_utf8, valid_utf8};

verus! {

broadcast use crate::text::group_texts;

/// The position of the first element for which `p` holds, or the length of `s`.
pub open spec fn first_where<A>(s: Seq<A>, p: spec_fn(A) -> bool) -> int
    decreases s.len(),
{
    if s.len() == 0 || p(s[0]) {
        0
    } else {
        1 + first_where(s.subrange(1, s.len() as int), p)
    }
}

/// What `first_where` returns is the first position, and only that one is.
pub proof fn lemma_first_where<A>(s: Seq<A>, p: spec_fn(A) -> bool, at: int)
    requires
        0 <= at <= s.len(),
        forall|j: int| 0 <= j < at ==> !p(#[trigger] s[j]),
        at < s.len() ==> p(s[at]),
    ensures
        first_where(s, p) == at,
    decreases s.len(),
{
    if s.len() > 0 && !p(s[0]) {
        let rest = s.subrange(1, s.len() as int);
        assert forall|j: int| 0 <= j < at - 1 implies !p(#[trigger] rest[j]) by {
            assert(!p(s[j + 1]));
        }
        lemma_first_where(rest, p, at - 1);
    } else if s.len() > 0 {
        assert(at == 0);
    }
}

/// `first_where` gives the position of an element for which `p` holds, with none before it, or the
/// length where there is none.
pub proof fn lemma_first_found<A>(s: Seq<A>, p: spec_fn(A) -> bool)
    ensures
        0 <= first_where(s, p) <= s.len(),
        first_where(s, p) < s.len() ==> p(s[first_where(s, p)]),
        forall|j: int| 0 <= j < first_where(s, p) ==> !p(#[trigger] s[j]),
    decreases s.len(),
{
    if s.len() > 0 && !p(s[0]) {
        let rest = s.subrange(1, s.len() as int);
        lemma_first_found(rest, p);
        assert forall|j: int| 0 <= j < first_where(s, p) implies !p(#[trigger] s[j]) by {
            if j > 0 {
                assert(!p(rest[j - 1]));
            }
        }
    }
}

/// The parts of `s` between the elements for which `p` holds.
pub open spec fn split_where<A>(s: Seq<A>, p: spec_fn(A) -> bool) -> Seq<Seq<A>>
    decreases s.len(),
{
    let at = first_where(s, p);
    if 0 <= at < s.len() {
        seq![s.subrange(0, at)] + split_where(s.subrange(at + 1, s.len() as int), p)
    } else {
        seq![s]
    }
}

/// There is always at least one part.
pub broadcast proof fn lemma_split_nonempty<A>(s: Seq<A>, p: spec_fn(A) -> bool)
    ensures
        #[trigger] split_where(s, p).len() > 0,
    decreases s.len(),
{
}

/// Equality with `sep`, as a predicate.
pub open spec fn is_sep<A>(sep: A) -> spec_fn(A) -> bool {
    |a: A| a == sep
}

/// White space, as a predicate.
pub open spec fn is_space_fn() -> spec_fn(char) -> bool {
    |c: char| is_space(c)
}

/// Whether a part holds anything.
pub open spec fn non_empty<A>() -> spec_fn(Seq<A>) -> bool {
    |part: Seq<A>| part.len() > 0
}

/// The parts of `s` between the occurrences of `sep`.
pub open spec fn split_on<A>(s: Seq<A>, sep: A) -> Seq<Seq<A>> {
    split_where(s, is_sep(sep))
}

/// The position of the first `sep` at or after `from`, or the length.
fn find_from(x: &Vec<char>, from: usize, sep: char) -> (at: usize)
    requires
        from <= x@.len(),
    ensures
        from <= at <= x@.len(),
        at - from == first_where(x@.subrange(from as int, x@.len() as int), is_sep(sep)),
        at < x@.len() ==> x@[at as int] == sep,
{
    let ghost rest = x@.subrange(from as int, x@.len() as int);
    let mut at: usize = from;
    while at < x.len() && x[at] != sep
        invariant
            from <= at <= x@.len(),
            rest == x@.subrange(from as int, x@.len() as int),
            forall|j: int| 0 <= j < at - from ==> #[trigger] rest[j] != sep,
        decreases x@.len() - at,
    {
        assert(rest[at - from] == x@[at as int]);
        at += 1;
    }
    proof {
        lemma_first_where(rest, is_sep(sep), at - from);
    }
    at
}

/// Cuts `s` at every `sep`.
pub fn split(s: &str, sep: char) -> (r: Vec<String>)
    ensures
        texts(r@) == split_on(s@, sep),
{
    let x = chars_of(s);
    let mut out: Vec<String> = Vec::new();
    let mut from: usize = 0;
    assert(x@.subrange(0, x@.len() as int) =~= x@);
    assert(texts(out@) + split_on(x@, sep) =~= split_on(x@, sep));
    loop
        invariant_except_break
            from <= x@.len(),
            texts(out@) + split_on(x@.subrange(from as int, x@.len() as int), sep) == split_on(
                x@,
                sep,
            ),
        ensures
            texts(out@) == split_on(x@, sep),
        decreases x@.len() - from,
    {
        let at = find_from(&x, from, sep);
        let ghost rest = x@.subrange(from as int, x@.len() as int);
        let ghost before = texts(out@);
        out.push(string_between(&x, from, at));
        assert(x@.subrange(from as int, at as int) =~= rest.subrange(0, at - from));
        if at >= x.len() {
            assert(rest.subrange(0, at - from) =~= rest);
            assert(before + seq![rest] =~= before.push(rest));
            break;
        }
        assert(x@.subrange(at + 1, x@.len() as int) =~= rest.subrange(
            at - from + 1,
            rest.len() as int,
        ));
        assert(texts(out@) + split_on(x@.subrange(at + 1, x@.len() as int), sep) =~= before
            + split_on(rest, sep));
        from = at + 1;
    }
    out
}

/// The text before the first `sep` and the text after it.
pub open spec fn split_once_on(s: Seq<char>, sep: char) -> Option<(Seq<char>, Seq<char>)> {
    let at = first_where(s, is_sep(sep));
    if at < s.len() {
        Some((s.subrange(0, at), s.subrange(at + 1, s.len() as int)))
    } else {
        None
    }
}

/// Cuts `s` at the first `sep`, if it holds one.
pub fn split_once(s: &str, sep: char) -> (r: Option<(String, String)>)
    ensures
        match r {
            Some((a, b)) => split_once_on(s@, sep) == Some((a@, b@)),
            None => split_once_on(s@, sep) is None,
        },
{
    let x = chars_of(s);
    assert(x@.subrange(0, x@.len() as int) =~= x@);
    let at = find_from(&x, 0, sep);
    if at >= x.len() {
        return None;
    }
    Some((string_between(&x, 0, at), string_between(&x, at + 1, x.len())))
}

/// The words of `s`: its longest runs of characters that are not white space.
pub open spec fn words_of(s: Seq<char>) -> Seq<Seq<char>> {
    split_where(s, is_space_fn()).filter(non_empty())
}

/// The words of `s`.
pub fn words(s: &str) -> (r: Vec<String>)
    ensures
        texts(r@) == words_of(s@),
{
    broadcast use vstd::seq_lib::group_filter_ensures;

    let x = chars_of(s);
    let mut out: Vec<String> = Vec::new();
    let mut from: usize = 0;
    assert(x@.subrange(0, x@.len() as int) =~= x@);
    let ghost mut done: Seq<Seq<char>> = Seq::empty();
    assert(done + split_where(x@, is_space_fn()) =~= split_where(x@, is_space_fn()));
    assert(done.filter(non_empty()) =~= Seq::empty()) by {
        reveal(Seq::filter);
    }
    loop
        invariant_except_break
            from <= x@.len(),
            texts(out@) == done.filter(non_empty()),
            done + split_where(x@.subrange(from as int, x@.len() as int), is_space_fn())
                == split_where(x@, is_space_fn()),
        ensures
            texts(out@) == words_of(x@),
        decreases x@.len() - from,
    {
        let ghost rest = x@.subrange(from as int, x@.len() as int);
        let mut at: usize = from;
        while at < x.len() && !space(x[at])
            invariant
                from <= at <= x@.len(),
                rest == x@.subrange(from as int, x@.len() as int),
                forall|j: int| 0 <= j < at - from ==> !is_space(#[trigger] rest[j]),
            decreases x@.len() - at,
        {
            assert(rest[at - from] == x@[at as int]);
            at += 1;
        }
        proof {
            lemma_first_where(rest, is_space_fn(), at - from);
        }
        let ghost part = rest.subrange(0, at - from);
        assert(x@.subrange(from as int, at as int) =~= part);
        if at > from {
            out.push(string_between(&x, from, at));
        }
        proof {
            let before = done;
            done = before.push(part);
            assert(done.filter(non_empty()) == if part.len() > 0 {
                before.filter(non_empty()).push(part)
            } else {
                before.filter(non_empty())
            }) by {
                reveal(Seq::filter);
                assert(done.drop_last() =~= before);
            }
            if at < x@.len() {
                assert(x@.subrange(at + 1, x@.len() as int) =~= rest.subrange(
                    at - from + 1,
                    rest.len() as int,
                ));
                assert(done + split_where(
                    x@.subrange(at + 1, x@.len() as int),
                    is_space_fn(),
                ) =~= before + split_where(rest, is_space_fn()));
            } else {
                assert(part =~= rest);
                assert(done =~= before + split_where(rest, is_space_fn()));
            }
        }
        if at >= x.len() {
            break;
        }
        from = at + 1;
    }
    out
}

/// A line ended by a line feed loses one carriage return before it.
pub open spec fn without_cr() -> spec_fn(Seq<char>) -> Seq<char> {
    |line: Seq<char>|
        if line.len() > 0 && line.last() == '\r' {
            line.drop_last()
        } else {
            line
        }
}

/// The lines of `s`: the parts ended by a line feed, without the line feed and a carriage return
/// before it, and what follows the last line feed unless that is empty.
pub open spec fn lines_of(s: Seq<char>) -> Seq<Seq<char>> {
    let parts = split_on(s, '\n');
    let ended = parts.drop_last().map_values(without_cr());
    if parts.last().len() == 0 {
        ended
    } else {
        ended.push(parts.last())
    }
}

/// The lines of `s`.
pub fn lines(s: &str) -> (r: Vec<String>)
    ensures
        texts(r@) == lines_of(s@),
{
    broadcast use lemma_split_nonempty;

    let parts = split(s, '\n');
    let ghost all = split_on(s@, '\n');
    assert(texts(parts@).len() == parts@.len());
    let mut out: Vec<String> = Vec::new();
    let last: usize = parts.len() - 1;
    let mut i: usize = 0;
    assert(all.take(0).map_values(without_cr()) =~= Seq::empty());
    while i < last
        invariant
            i <= last,
            last + 1 == parts@.len(),
            texts(parts@) == all,
            texts(out@) == all.take(i as int).map_values(without_cr()),
        decreases last - i,
    {
        let x = chars_of(&parts[i]);
        assert(x@ == all[i as int]);
        let n: usize = x.len();
        if n > 0 && x[n - 1] == '\r' {
            out.push(string_between(&x, 0, n - 1));
            assert(x@.subrange(0, n - 1) =~= x@.drop_last());
        } else {
            out.push(string_between(&x, 0, n));
            assert(x@.subrange(0, n as int) =~= x@);
        }
        assert(all.take(i + 1).map_values(without_cr()) =~= all.take(i as int).map_values(
            without_cr(),
        ).push(without_cr()(all[i as int])));
        i += 1;
    }
    assert(all.take(last as int) =~= all.drop_last());
    assert(all.last() == parts@[last as int]@);
    if !is_empty(&parts[last]) {
        out.push(parts[last].clone());
    }
    out
}

/// Whether a path component names something: neither empty nor the current directory.
pub open spec fn names_entry() -> spec_fn(Seq<char>) -> bool {
    |part: Seq<char>| part.len() > 0 && part != "."@
}

/// The last component of a path, unless it is the parent directory or there is none.
pub open spec fn file_name_of(path: Seq<char>) -> Option<Seq<char>> {
    let names = split_on(path, '/').filter(names_entry());
    if names.len() == 0 || names.last() == ".."@ {
        None
    } else {
        Some(names.last())
    }
}

/// The last of `parts` that names something.
proof fn lemma_last_name(parts: Seq<Seq<char>>, at: int)
    requires
        0 <= at < parts.len(),
        names_entry()(parts[at]),
        forall|j: int| at < j < parts.len() ==> !names_entry()(#[trigger] parts[j]),
    ensures
        parts.filter(names_entry()).len() > 0,
        parts.filter(names_entry()).last() == parts[at],
    decreases parts.len(),
{
    reveal(Seq::filter);
    if at < parts.len() - 1 {
        assert(!names_entry()(parts[parts.len() - 1]));
        lemma_last_name(parts.drop_last(), at);
    }
}

/// The file name of a path.
pub fn file_name(path: &str) -> (r: Option<String>)
    ensures
        opt_text(r) == file_name_of(path@),
{
    let parts = split(path, '/');
    let ghost all = split_on(path@, '/');
    let mut i: usize = parts.len();
    assert(texts(parts@).len() == parts@.len());
    while i > 0
        invariant
            i <= parts@.len(),
            texts(parts@) == all,
            all == split_on(path@, '/'),
            all.len() == parts@.len(),
            forall|j: int| i <= j < all.len() ==> !names_entry()(#[trigger] all[j]),
        decreases i,
    {
        i -= 1;
        assert(all[i as int] == parts@[i as int]@);
        if !is_empty(&parts[i]) && !str_eq(&parts[i], ".") {
            proof {
                lemma_last_name(all, i as int);
            }
            if str_eq(&parts[i], "..") {
                return None;
            }
            return Some(parts[i].clone());
        }
    }
    proof {
        assert(all.filter(names_entry()).len() == 0) by {
            all.lemma_all_neg_filter_empty(names_entry());
        }
    }
    None
}

/// The text after the last `sep`, or the whole text.
pub fn after_last(s: &str, sep: char) -> (r: String)
    ensures
        r@ == split_on(s@, sep).last(),
{
    broadcast use lemma_split_nonempty;

    let parts = split(s, sep);
    assert(texts(parts@).len() == parts@.len());
    assert(texts(parts@).last() == parts@[parts@.len() - 1]@);
    parts[parts.len() - 1].clone()
}

/// `std::str::from_utf8` accepts exactly the byte sequences that are valid UTF-8, and gives the
/// characters that they encode.
#[verifier::external_body]
pub(crate) fn utf8_text(bytes: &[u8]) -> (r: Option<String>)
    ensures
        r is Some <==> valid_utf8(bytes@),
        r matches Some(s) ==> s@ == decode_utf8(bytes@),
{
    match std::str::from_utf8(bytes) {
        Ok(s) => Some(s.to_string()),
        Err(_) => None,
    }
}

/// The parts of `raw` between its zero bytes that hold anything.
pub open spec fn zero_separated(raw: Seq<u8>) -> Seq<Seq<u8>> {
    split_on(raw, 0u8).filter(non_empty())
}

/// Cuts `raw` at its zero bytes and drops the empty parts.
pub fn split_zero(raw: &[u8]) -> (r: Vec<Vec<u8>>)
    ensures
        r@.map_values(bytes_of()) == zero_separated(raw@),
{
    let mut out: Vec<Vec<u8>> = Vec::new();
    let mut from: usize = 0;
    let n: usize = raw.len();
    let ghost all = split_on(raw@, 0u8);
    let ghost mut done: Seq<Seq<u8>> = Seq::empty();
    assert(raw@.subrange(0, n as int) =~= raw@);
    assert(done + all =~= all);
    assert(done.filter(non_empty()) =~= Seq::empty()) by {
        reveal(Seq::filter);
    }
    loop
        invariant_except_break
            from <= n == raw@.len(),
            all == split_on(raw@, 0u8),
            out@.map_values(bytes_of()) == done.filter(non_empty()),
            done + split_on(raw@.subrange(from as int, n as int), 0u8) == all,
        ensures
            out@.map_values(bytes_of()) == zero_separated(raw@),
        decreases n - from,
    {
        let ghost rest = raw@.subrange(from as int, n as int);
        let mut part: Vec<u8> = Vec::new();
        let mut at: usize = from;
        while at < n && raw[at] != 0u8
            invariant
                from <= at <= n == raw@.len(),
                rest == raw@.subrange(from as int, n as int),
                part@ == rest.subrange(0, at - from),
                forall|j: int| 0 <= j < at - from ==> #[trigger] rest[j] != 0u8,
            decreases n - at,
        {
            assert(rest[at - from] == raw@[at as int]);
            part.push(raw[at]);
            at += 1;
            assert(rest.subrange(0, at - from) =~= rest.subrange(0, at - from - 1).push(
                rest[at - from - 1],
            ));
        }
        proof {
            lemma_first_where(rest, is_sep(0u8), at - from);
            let before = done;
            done = before.push(part@);
            assert(done.filter(non_empty()) == if part@.len() > 0 {
                before.filter(non_empty()).push(part@)
            } else {
                before.filter(non_empty())
            }) by {
                reveal(Seq::filter);
                assert(done.drop_last() =~= before);
            }
            if at < n {
                assert(raw@.subrange(at + 1, n as int) =~= rest.subrange(
                    at - from + 1,
                    rest.len() as int,
                ));
                assert(done + split_on(raw@.subrange(at + 1, n as int), 0u8) =~= before
                    + split_on(rest, 0u8));
            } else {
                assert(part@ =~= rest);
                assert(done =~= before + split_on(rest, 0u8));
            }
        }
        if part.len() > 0 {
            let ghost before = out@;
            out.push(part);
            assert(out@.map_values(bytes_of()) =~= before.map_values(bytes_of()).push(part@));
        }
        if at >= n {
            break;
        }
        from = at + 1;
    }
    out
}

/// The bytes of a vector, as a function.
pub open spec fn bytes_of() -> spec_fn(Vec<u8>) -> Seq<u8> {
    |v: Vec<u8>| v@
}

/// Filtering one item more.
pub proof fn lemma_filter_step<A>(s: Seq<A>, p: spec_fn(A) -> bool, i: int)
    requires
        0 <= i < s.len(),
    ensures
        s.take(i + 1).filter(p) == if p(s[i]) {
            s.take(i).filter(p).push(s[i])
        } else {
            s.take(i).filter(p)
        },
{
    assert(s.take(i + 1).drop_last() =~= s.take(i));
    reveal(Seq::filter);
}

/// Filtering nothing.
pub proof fn lemma_filter_nothing<A>(s: Seq<A>, p: spec_fn(A) -> bool)
    ensures
        s.take(0).filter(p) == Seq::<A>::empty(),
        s.take(s.len() as int) == s,
{
    assert(s.take(0).filter(p) =~= Seq::<A>::empty()) by {
        reveal(Seq::filter);
    }
    assert(s.take(s.len() as int) =~= s);
}

/// Mapping one item more.
pub proof fn lemma_map_push<A, B>(s: Seq<A>, f: spec_fn(A) -> B, a: A)
    ensures
        s.push(a).map_values(f) == s.map_values(f).push(f(a)),
{
    assert(s.push(a).map_values(f) =~= s.map_values(f).push(f(a)));
}

/// A filtered list holds what the list holds and the predicate admits.
pub proof fn lemma_filter_members<A>(s: Seq<A>, p: spec_fn(A) -> bool, x: A)
    ensures
        s.filter(p).contains(x) <==> s.contains(x) && p(x),
{
    broadcast use vstd::seq_lib::group_filter_ensures;

    if s.filter(p).contains(x) {
        s.lemma_filter_contains_rev(p, x);
        let i = choose|i: int| 0 <= i < s.filter(p).len() && s.filter(p)[i] == x;
        assert(p(s.filter(p)[i]));
    }
    if s.contains(x) && p(x) {
        let i = choose|i: int| 0 <= i < s.len() && s[i] == x;
        assert(s.filter(p).contains(s[i]));
    }
}

/// The parts of a text that ends with a separator and a tail without one are those of the text
/// before them, and the tail.
pub proof fn lemma_split_tail<A>(head: Seq<A>, sep: A, tail: Seq<A>)
    requires
        !tail.contains(sep),
    ensures
        split_on(head + seq![sep] + tail, sep) == split_on(head, sep).push(tail),
    decreases head.len(),
{
    let p = is_sep(sep);
    let s = head + seq![sep] + tail;
    lemma_first_found(head, p);
    let at = first_where(head, p);
    if at < head.len() {
        lemma_first_where(s, p, at);
        let rest = head.subrange(at + 1, head.len() as int);
        lemma_split_tail(rest, sep, tail);
        assert(s.subrange(at + 1, s.len() as int) =~= rest + seq![sep] + tail);
        assert(s.subrange(0, at) =~= head.subrange(0, at));
        assert(split_on(s, sep) =~= split_on(head, sep).push(tail));
    } else {
        assert(s[head.len() as int] == sep);
        lemma_first_where(s, p, head.len() as int);
        assert(s.subrange(0, head.len() as int) =~= head);
        let after = s.subrange(head.len() as int + 1, s.len() as int);
        assert(after =~= tail);
        lemma_split_none(tail, sep);
        assert(!head.contains(sep)) by {
            if head.contains(sep) {
                let i = choose|i: int| 0 <= i < head.len() && head[i] == sep;
                assert(!p(head[i]));
            }
        }
        lemma_split_none(head, sep);
        assert(split_on(s, sep) =~= seq![head] + seq![tail]);
        assert(split_on(s, sep) =~= split_on(head, sep).push(tail));
    }
}

/// A text without the separator is its only part.
pub proof fn lemma_split_none<A>(s: Seq<A>, sep: A)
    requires
        !s.contains(sep),
    ensures
        split_on(s, sep) == seq![s],
{
    assert forall|i: int| 0 <= i < s.len() implies !is_sep(sep)(#[trigger] s[i]) by {
        assert(s.contains(s[i]));
    }
    lemma_first_where(s, is_sep(sep), s.len() as int);
}

/// The file name of a path is what follows its last slash, where that names something.
pub proof fn lemma_file_name(dir: Seq<char>, name: Seq<char>)
    requires
        !name.contains('/'),
        name.len() > 0,
        name != "."@,
        name != ".."@,
    ensures
        file_name_of(dir + seq!['/'] + name) == Some(name),
        file_name_of(name) == Some(name),
{
    lemma_split_tail(dir, '/', name);
    let parts = split_on(dir + seq!['/'] + name, '/');
    lemma_last_name(parts, parts.len() - 1);
    lemma_split_none(name, '/');
    lemma_last_name(split_on(name, '/'), 0);
}

/// A line that holds a separator is cut at the first one.
pub proof fn lemma_split_once(key: Seq<char>, sep: char, value: Seq<char>)
    requires
        !key.contains(sep),
    ensures
        split_once_on(key + seq![sep] + value, sep) == Some((key, value)),
        split_once_on(key, sep) is None,
{
    let s = key + seq![sep] + value;
    let p = is_sep(sep);
    assert forall|i: int| 0 <= i < key.len() implies !p(#[trigger] s[i]) by {
        assert(key.contains(key[i]));
    }
    assert forall|i: int| 0 <= i < key.len() implies !p(#[trigger] key[i]) by {
        assert(key.contains(key[i]));
    }
    lemma_first_where(s, p, key.len() as int);
    lemma_first_where(key, p, key.len() as int);
    assert(s.subrange(0, key.len() as int) =~= key);
    assert(s.subrange(key.len() as int + 1, s.len() as int) =~= value);
}

/// Texts that are joined by a separator which none of them holds are got back by cutting at it.
pub proof fn lemma_joined_is_cut(parts: Seq<Seq<char>>, sep: char)
    requires
        parts.len() > 0,
        forall|i: int| 0 <= i < parts.len() ==> !(#[trigger] parts[i]).contains(sep),
    ensures
        split_on(crate::text::joined(parts, seq![sep]), sep) == parts,
    decreases parts.len(),
{
    if parts.len() == 1 {
        lemma_split_none(parts[0], sep);
        assert(seq![parts[0]] =~= parts);
    } else {
        let rest = parts.drop_last();
        assert forall|i: int| 0 <= i < rest.len() implies !(#[trigger] rest[i]).contains(sep) by {
            assert(rest[i] == parts[i]);
        }
        lemma_joined_is_cut(rest, sep);
        lemma_split_tail(crate::text::joined(rest, seq![sep]), sep, parts.last());
        assert(rest.push(parts.last()) =~= parts);
    }
}

/// Lines that are joined by line feeds are read back, unless the last one is empty.
pub proof fn lemma_lines_are_read_back(lines: Seq<Seq<char>>)
    requires
        lines.len() > 0,
        lines.last().len() > 0,
        forall|i: int|
            0 <= i < lines.len() ==> !(#[trigger] lines[i]).contains('\n') && !lines[i].contains('\r'),
    ensures
        lines_of(crate::text::joined(lines, seq!['\n'])) == lines,
{
    lemma_joined_is_cut(lines, '\n');
    let ended = lines.drop_last().map_values(without_cr());
    assert forall|i: int| 0 <= i < ended.len() implies #[trigger] ended[i] == lines[i] by {
        if lines[i].len() > 0 {
            assert(lines[i].contains(lines[i].last()));
        }
    }
    assert(ended.push(lines.last()) =~= lines);
}

/// Two parts that each end with a zero byte and hold no other are got back.
pub proof fn lemma_two_zero_ended(a: Seq<u8>, b: Seq<u8>)
    requires
        a.len() > 0,
        b.len() > 0,
        !a.contains(0u8),
        !b.contains(0u8),
    ensures
        zero_separated(a + seq![0u8] + b + seq![0u8]) == seq![a, b],
{
    let head = a + seq![0u8] + b;
    let raw = head + seq![0u8] + Seq::<u8>::empty();
    assert(raw =~= a + seq![0u8] + b + seq![0u8]);
    lemma_split_none(a, 0u8);
    lemma_split_tail(a, 0u8, b);
    lemma_split_tail(head, 0u8, Seq::<u8>::empty());
    let p = non_empty::<u8>();
    assert(split_on(raw, 0u8) =~= seq![a, b].push(Seq::<u8>::empty()));
    lemma_filter_push(seq![a, b], p, Seq::<u8>::empty());
    lemma_filter_two(a, b, p);
}

/// Filtering a list of two of which neither is dropped.
pub proof fn lemma_filter_two<A>(a: A, b: A, p: spec_fn(A) -> bool)
    requires
        p(a),
        p(b),
    ensures
        seq![a, b].filter(p) == seq![a, b],
{
    let none = Seq::<A>::empty();
    lemma_filter_nothing(none, p);
    assert(none.take(0) =~= none);
    lemma_filter_push(none, p, a);
    lemma_filter_push(none.push(a), p, b);
    assert(none.push(a).push(b) =~= seq![a, b]);
}

/// Filtering a list with one item more.
pub proof fn lemma_filter_push<A>(s: Seq<A>, p: spec_fn(A) -> bool, a: A)
    ensures
        s.push(a).filter(p) == if p(a) {
            s.filter(p).push(a)
        } else {
            s.filter(p)
        },
{
    lemma_filter_step(s.push(a), p, s.len() as int);
    assert(s.push(a).take(s.len() as int) =~= s);
    assert(s.push(a).take(s.len() as int + 1) =~= s.push(a));
}

} // verus!
