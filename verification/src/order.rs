//! Stable sorting by a key.
use vstd::prelude::*;

use crate::text::{chars_of, texts};

verus! {

/// A key that items are sorted by: `before` is a strict weak order.
pub trait SortKey: Sized {
    spec fn before(self, other: Self) -> bool;

    proof fn before_transitive(a: Self, b: Self, c: Self)
        ensures
            a.before(b) && b.before(c) ==> a.before(c),
    ;

    proof fn before_negative(a: Self, b: Self, c: Self)
        ensures
            !a.before(a),
            a.before(c) ==> a.before(b) || b.before(c),
    ;

    fn is_before(&self, other: &Self) -> (r: bool)
        ensures
            r == self.before(*other),
    ;
}

/// `order` lists each position of `items` once, by rank, and positions of items of the same rank
/// from the lowest up.
pub open spec fn is_stable_order<A>(
    items: Seq<A>,
    before: spec_fn(A, A) -> bool,
    order: Seq<int>,
) -> bool {
    &&& order.len() == items.len()
    &&& forall|i: int| 0 <= i < order.len() ==> 0 <= #[trigger] order[i] < items.len()
    &&& forall|i: int, j: int|
        0 <= i < j < order.len() ==> precedes(
            items,
            before,
            #[trigger] order[i],
            #[trigger] order[j],
        )
}

/// Position `a` comes before position `b` in the stable order.
pub open spec fn precedes<A>(items: Seq<A>, before: spec_fn(A, A) -> bool, a: int, b: int) -> bool {
    ||| before(items[a], items[b])
    ||| !before(items[b], items[a]) && a < b
}

/// `output` holds the items of `input` in stable order.
pub open spec fn sorted_by<A>(input: Seq<A>, output: Seq<A>, before: spec_fn(A, A) -> bool) -> bool {
    exists|order: Seq<int>| #[trigger]
        is_stable_order(input, before, order) && output == picked(input, order)
}

/// The items at the given positions.
pub open spec fn picked<A>(items: Seq<A>, order: Seq<int>) -> Seq<A> {
    order.map_values(|i: int| items[i])
}

/// The order of the keys of a type.
pub open spec fn key_order<K: SortKey>() -> spec_fn(K, K) -> bool {
    |a: K, b: K| a.before(b)
}

/// The positions as integers.
pub open spec fn as_positions(order: Seq<usize>) -> Seq<int> {
    order.map_values(|i: usize| i as int)
}

/// The stable order of the keys is the stable order of the items that they rank.
pub proof fn lemma_order_of_items<A, K: SortKey>(
    keys: Seq<K>,
    items: Seq<A>,
    before: spec_fn(A, A) -> bool,
    order: Seq<int>,
)
    requires
        keys.len() == items.len(),
        forall|i: int, j: int|
            0 <= i < keys.len() && 0 <= j < keys.len() ==> (#[trigger] keys[i]).before(
                #[trigger] keys[j],
            ) == before(items[i], items[j]),
        is_stable_order(keys, key_order(), order),
    ensures
        is_stable_order(items, before, order),
{
    assert forall|i: int, j: int| 0 <= i < j < order.len() implies precedes(
        items,
        before,
        #[trigger] order[i],
        #[trigger] order[j],
    ) by {
        assert(precedes(keys, key_order(), order[i], order[j]));
        assert(keys[order[i]].before(keys[order[j]]) == before(items[order[i]], items[order[j]]));
        assert(keys[order[j]].before(keys[order[i]]) == before(items[order[j]], items[order[i]]));
    }
}

/// A stable order names no position twice.
pub proof fn lemma_order_distinct<A>(items: Seq<A>, before: spec_fn(A, A) -> bool, order: Seq<int>)
    requires
        is_stable_order(items, before, order),
        forall|a: A| !#[trigger] before(a, a),
    ensures
        order.no_duplicates(),
{
    assert forall|i: int, j: int| 0 <= i < j < order.len() implies order[i] != order[j] by {
        assert(precedes(items, before, order[i], order[j]));
        assert(!before(items[order[i]], items[order[i]]));
    }
}

/// A stable order names every position.
pub proof fn lemma_order_covers<A>(
    items: Seq<A>,
    before: spec_fn(A, A) -> bool,
    order: Seq<int>,
    at: int,
)
    requires
        is_stable_order(items, before, order),
        forall|a: A| !#[trigger] before(a, a),
        0 <= at < items.len(),
    ensures
        order.contains(at),
{
    lemma_order_distinct(items, before, order);
    let positions = vstd::set_lib::set_int_range(0, items.len() as int);
    vstd::set_lib::lemma_int_range(0, items.len() as int);
    let named = order.to_set();
    order.unique_seq_to_set();
    assert(named.subset_of(positions));
    vstd::set_lib::lemma_subset_equality(named, positions);
    assert(positions.contains(at));
}

spec fn ranked<K: SortKey>(keys: Seq<K>, a: usize, b: usize) -> bool {
    ||| keys[a as int].before(keys[b as int])
    ||| !keys[b as int].before(keys[a as int]) && a < b
}

/// Positions from `from` up to `to`, in stable order.
spec fn sorted_run<K: SortKey>(keys: Seq<K>, run: Seq<usize>, from: int, to: int) -> bool {
    &&& forall|i: int| 0 <= i < run.len() ==> from <= #[trigger] run[i] < to
    &&& forall|i: int, j: int|
        0 <= i < j < run.len() ==> ranked(keys, #[trigger] run[i], #[trigger] run[j])
}

/// Every position of `out` ranks before every one of `run` from `at` on.
spec fn all_ranked<K: SortKey>(keys: Seq<K>, out: Seq<usize>, run: Seq<usize>, at: int) -> bool {
    forall|i: int, j: int|
        0 <= i < out.len() && at <= j < run.len() ==> ranked(
            keys,
            #[trigger] out[i],
            #[trigger] run[j],
        )
}

/// Merges two runs, the first of which has the lower positions.
fn merge_runs<K: SortKey>(
    keys: &Vec<K>,
    left: &Vec<usize>,
    right: &Vec<usize>,
    Ghost(from): Ghost<int>,
    Ghost(mid): Ghost<int>,
    Ghost(to): Ghost<int>,
) -> (out: Vec<usize>)
    requires
        0 <= from <= mid <= to <= keys@.len(),
        sorted_run(keys@, left@, from, mid),
        sorted_run(keys@, right@, mid, to),
    ensures
        sorted_run(keys@, out@, from, to),
        out@.len() == left@.len() + right@.len(),
{
    let mut out: Vec<usize> = Vec::new();
    let mut i: usize = 0;
    let mut j: usize = 0;
    while i < left.len() || j < right.len()
        invariant
            0 <= from <= mid <= to <= keys@.len(),
            sorted_run(keys@, left@, from, mid),
            sorted_run(keys@, right@, mid, to),
            i <= left@.len(),
            j <= right@.len(),
            out@.len() == i + j,
            sorted_run(keys@, out@, from, to),
            all_ranked(keys@, out@, left@, i as int),
            all_ranked(keys@, out@, right@, j as int),
        decreases left@.len() - i + right@.len() - j,
    {
        let ghost before = out@;
        let take_right = j < right.len() && (i >= left.len() || keys[right[j]].is_before(
            &keys[left[i]],
        ));
        if take_right {
            proof {
                let next = right@[j as int];
                assert forall|b: int| i <= b < left@.len() implies ranked(
                    keys@,
                    next,
                    #[trigger] left@[b],
                ) by {
                    let first = keys@[left@[i as int] as int];
                    let later = keys@[left@[b] as int];
                    if b > i {
                        assert(ranked(keys@, left@[i as int], left@[b]));
                        K::before_negative(keys@[next as int], later, first);
                        K::before_transitive(first, later, first);
                        K::before_negative(first, first, first);
                    }
                }
            }
            out.push(right[j]);
            j += 1;
        } else {
            proof {
                let next = left@[i as int];
                assert forall|b: int| j <= b < right@.len() implies ranked(
                    keys@,
                    next,
                    #[trigger] right@[b],
                ) by {
                    let first = keys@[right@[j as int] as int];
                    let later = keys@[right@[b] as int];
                    if b > j {
                        assert(ranked(keys@, right@[j as int], right@[b]));
                        K::before_negative(later, first, keys@[next as int]);
                        K::before_transitive(first, later, first);
                        K::before_negative(first, first, first);
                    }
                }
            }
            out.push(left[i]);
            i += 1;
        }
        proof {
            assert forall|a: int, b: int| 0 <= a < b < out@.len() implies ranked(
                keys@,
                #[trigger] out@[a],
                #[trigger] out@[b],
            ) by {
                if b < before.len() {
                    assert(ranked(keys@, before[a], before[b]));
                } else if take_right {
                    assert(ranked(keys@, before[a], right@[j - 1]));
                } else {
                    assert(ranked(keys@, before[a], left@[i - 1]));
                }
            }
            assert forall|a: int, b: int| 0 <= a < out@.len() && i <= b < left@.len() implies ranked(
                keys@,
                #[trigger] out@[a],
                #[trigger] left@[b],
            ) by {
                if a < before.len() {
                    assert(ranked(keys@, before[a], left@[b]));
                } else if !take_right {
                    assert(ranked(keys@, left@[i - 1], left@[b]));
                }
            }
            assert forall|a: int, b: int| 0 <= a < out@.len() && j <= b < right@.len() implies ranked(
                keys@,
                #[trigger] out@[a],
                #[trigger] right@[b],
            ) by {
                if a < before.len() {
                    assert(ranked(keys@, before[a], right@[b]));
                } else if take_right {
                    assert(ranked(keys@, right@[j - 1], right@[b]));
                }
            }
        }
    }
    out
}

fn sort_run<K: SortKey>(keys: &Vec<K>, from: usize, to: usize) -> (out: Vec<usize>)
    requires
        from <= to <= keys@.len(),
    ensures
        sorted_run(keys@, out@, from as int, to as int),
        out@.len() == to - from,
    decreases to - from,
{
    if to - from <= 1 {
        let mut out: Vec<usize> = Vec::new();
        if from < to {
            out.push(from);
        }
        return out;
    }
    let mid: usize = from + (to - from) / 2;
    let left = sort_run(keys, from, mid);
    let right = sort_run(keys, mid, to);
    merge_runs(
        keys,
        &left,
        &right,
        Ghost(from as int),
        Ghost(mid as int),
        Ghost(to as int),
    )
}

/// The stable order of the positions of `keys`.
pub fn stable_order<K: SortKey>(keys: &Vec<K>) -> (order: Vec<usize>)
    ensures
        is_stable_order(keys@, key_order(), as_positions(order@)),
{
    let order = sort_run(keys, 0, keys.len());
    proof {
        let positions = as_positions(order@);
        assert forall|i: int, j: int| 0 <= i < j < positions.len() implies precedes(
            keys@,
            key_order(),
            #[trigger] positions[i],
            #[trigger] positions[j],
        ) by {
            assert(ranked(keys@, order@[i], order@[j]));
        }
        assert forall|i: int| 0 <= i < positions.len() implies 0 <= #[trigger] positions[i]
            < keys@.len() by {
            assert(0 <= order@[i] < keys@.len());
        }
    }
    order
}

/// The items at the given positions.
pub fn pick<T: Clone>(items: &Vec<T>, order: &Vec<usize>) -> (r: Vec<T>)
    requires
        forall|i: int| 0 <= i < order@.len() ==> #[trigger] order@[i] < items@.len(),
        forall|a: T, b: T| #[trigger] cloned(a, b) ==> a == b,
    ensures
        r@ == picked(items@, as_positions(order@)),
{
    let mut out: Vec<T> = Vec::new();
    let mut i: usize = 0;
    while i < order.len()
        invariant
            i <= order@.len(),
            forall|i: int| 0 <= i < order@.len() ==> #[trigger] order@[i] < items@.len(),
            forall|a: T, b: T| #[trigger] cloned(a, b) ==> a == b,
            out@ == picked(items@, as_positions(order@)).take(i as int),
        decreases order@.len() - i,
    {
        let ghost before = out@;
        let item = items[order[i]].clone();
        assert(cloned(items@[order@[i as int] as int], item));
        out.push(item);
        assert(out@ =~= picked(items@, as_positions(order@)).take(i + 1));
        i += 1;
    }
    assert(out@ =~= picked(items@, as_positions(order@)));
    out
}

/// Text order: at the first difference the smaller character comes first, and a prefix comes
/// before what it begins.
pub open spec fn text_before(a: Seq<char>, b: Seq<char>) -> bool
    decreases a.len(),
{
    if b.len() == 0 {
        false
    } else if a.len() == 0 {
        true
    } else if a[0] != b[0] {
        a[0] < b[0]
    } else {
        text_before(a.subrange(1, a.len() as int), b.subrange(1, b.len() as int))
    }
}

/// Text order is transitive.
pub proof fn lemma_text_before_transitive(a: Seq<char>, b: Seq<char>, c: Seq<char>)
    ensures
        text_before(a, b) && text_before(b, c) ==> text_before(a, c),
    decreases a.len(),
{
    if a.len() > 0 && b.len() > 0 && c.len() > 0 {
        lemma_text_before_transitive(
            a.subrange(1, a.len() as int),
            b.subrange(1, b.len() as int),
            c.subrange(1, c.len() as int),
        );
    }
}

/// Of two different texts one comes before the other, and no text comes before itself.
pub proof fn lemma_text_before_total(a: Seq<char>, b: Seq<char>)
    ensures
        a == b <==> !text_before(a, b) && !text_before(b, a),
        !(text_before(a, b) && text_before(b, a)),
    decreases a.len(),
{
    if a.len() > 0 && b.len() > 0 {
        let x = a.subrange(1, a.len() as int);
        let y = b.subrange(1, b.len() as int);
        lemma_text_before_total(x, y);
        if a[0] == b[0] && x == y {
            assert(a =~= seq![a[0]] + x);
            assert(b =~= seq![b[0]] + y);
        }
    } else if a.len() == 0 && b.len() == 0 {
        assert(a =~= b);
    }
}

/// Whether `a` comes before `b` in text order.
pub fn text_is_before(a: &str, b: &str) -> (r: bool)
    ensures
        r == text_before(a@, b@),
{
    let x = chars_of(a);
    let y = chars_of(b);
    let mut i: usize = 0;
    assert(x@.subrange(0, x@.len() as int) =~= x@);
    assert(y@.subrange(0, y@.len() as int) =~= y@);
    while i < x.len() && i < y.len() && x[i] == y[i]
        invariant
            i <= x@.len(),
            i <= y@.len(),
            text_before(a@, b@) == text_before(
                x@.subrange(i as int, x@.len() as int),
                y@.subrange(i as int, y@.len() as int),
            ),
        decreases x@.len() - i,
    {
        assert(x@.subrange(i as int, x@.len() as int).subrange(1, x@.len() - i) =~= x@.subrange(
            i + 1,
            x@.len() as int,
        ));
        assert(y@.subrange(i as int, y@.len() as int).subrange(1, y@.len() - i) =~= y@.subrange(
            i + 1,
            y@.len() as int,
        ));
        i += 1;
    }
    if i >= y.len() {
        false
    } else if i >= x.len() {
        true
    } else {
        x[i] < y[i]
    }
}

impl SortKey for String {
    open spec fn before(self, other: Self) -> bool {
        text_before(self@, other@)
    }

    proof fn before_transitive(a: Self, b: Self, c: Self) {
        lemma_text_before_transitive(a@, b@, c@);
    }

    proof fn before_negative(a: Self, b: Self, c: Self) {
        lemma_text_before_total(a@, a@);
        lemma_text_before_total(a@, b@);
        lemma_text_before_total(b@, c@);
        lemma_text_before_transitive(b@, a@, c@);
        lemma_text_before_transitive(a@, c@, b@);
    }

    fn is_before(&self, other: &Self) -> (r: bool) {
        text_is_before(self, other)
    }
}

/// Numbers from the lowest up.
impl SortKey for u64 {
    open spec fn before(self, other: Self) -> bool {
        self < other
    }

    proof fn before_transitive(a: Self, b: Self, c: Self) {
    }

    proof fn before_negative(a: Self, b: Self, c: Self) {
    }

    fn is_before(&self, other: &Self) -> (r: bool) {
        *self < *other
    }
}

/// A number that sorts from the highest down.
#[derive(Clone, Copy)]
pub struct Descending(pub u64);

impl SortKey for Descending {
    open spec fn before(self, other: Self) -> bool {
        self.0 > other.0
    }

    proof fn before_transitive(a: Self, b: Self, c: Self) {
    }

    proof fn before_negative(a: Self, b: Self, c: Self) {
    }

    fn is_before(&self, other: &Self) -> (r: bool) {
        self.0 > other.0
    }
}

/// No key comes after a key that is further down, and none has the rank of another.
pub open spec fn strictly_sorted<K: SortKey>(keys: Seq<K>) -> bool {
    forall|i: int, j: int| 0 <= i < j < keys.len() ==> (#[trigger] keys[i]).before(#[trigger] keys[j])
}

/// A key of the rank of `key` is among `keys`.
pub open spec fn has_rank<K: SortKey>(keys: Seq<K>, key: K) -> bool {
    exists|i: int| 0 <= i < keys.len() && same_rank(#[trigger] keys[i], key)
}

/// Neither key comes before the other.
pub open spec fn same_rank<K: SortKey>(a: K, b: K) -> bool {
    !a.before(b) && !b.before(a)
}

/// Puts `key` in its place among strictly sorted keys, unless its rank is taken.
pub fn insert_unique<K: SortKey>(keys: &mut Vec<K>, key: K)
    requires
        strictly_sorted(old(keys)@),
    ensures
        strictly_sorted(final(keys)@),
        has_rank(old(keys)@, key) ==> final(keys)@ == old(keys)@,
        !has_rank(old(keys)@, key) ==> exists|pos: int|
            0 <= pos <= old(keys)@.len() && final(keys)@ == #[trigger] old(keys)@.insert(pos, key),
{
    let mut pos: usize = keys.len();
    let ghost before = keys@;
    while pos > 0 && key.is_before(&keys[pos - 1])
        invariant
            pos <= keys@.len(),
            keys@ == before,
            strictly_sorted(before),
            forall|j: int| pos <= j < before.len() ==> key.before(#[trigger] before[j]),
        decreases pos,
    {
        pos -= 1;
    }
    if pos > 0 && !keys[pos - 1].is_before(&key) {
        assert(same_rank(before[pos - 1], key));
        return;
    }
    proof {
        assert forall|j: int| 0 <= j < pos implies (#[trigger] before[j]).before(key) by {
            if j < pos - 1 {
                assert(before[j].before(before[pos - 1]));
                K::before_transitive(before[j], before[pos - 1], key);
            }
        }
        assert(!has_rank(before, key));
    }
    keys.insert(pos, key);
    proof {
        let after = keys@;
        assert(after == before.insert(pos as int, key));
        assert forall|i: int, j: int| 0 <= i < j < after.len() implies (#[trigger] after[i]).before(
            #[trigger] after[j],
        ) by {
            if i < pos && j > pos {
                assert(before[i].before(before[j - 1]));
            } else if i > pos {
                assert(before[i - 1].before(before[j - 1]));
            } else if j < pos {
                assert(before[i].before(before[j]));
            }
        }
    }
}

/// The texts stand in strictly growing order.
pub open spec fn texts_sorted(list: Seq<Seq<char>>) -> bool {
    forall|i: int, j: int|
        0 <= i < j < list.len() ==> text_before(#[trigger] list[i], #[trigger] list[j])
}

/// Sorts the strings and drops repeated ones.
pub fn sort_dedup(list: &Vec<String>) -> (r: Vec<String>)
    ensures
        texts_sorted(texts(r@)),
        forall|t: Seq<char>| #[trigger] texts(r@).contains(t) <==> texts(list@).contains(t),
{
    let mut out: Vec<String> = Vec::new();
    let mut i: usize = 0;
    while i < list.len()
        invariant
            i <= list@.len(),
            strictly_sorted(out@),
            forall|t: Seq<char>| #[trigger]
                texts(out@).contains(t) <==> texts(list@).take(i as int).contains(t),
        decreases list@.len() - i,
    {
        let ghost before = out@;
        let ghost seen = texts(list@).take(i as int);
        let item = list[i].clone();
        insert_unique(&mut out, item);
        proof {
            let now = texts(list@).take(i + 1);
            assert(now =~= seen.push(item@));
            lemma_has_text(before, item);
            assert forall|t: Seq<char>| #[trigger] texts(out@).contains(t) <==> now.contains(t) by {
                lemma_push_contains(seen, item@, t);
                if !has_rank(before, item) {
                    let pos = choose|pos: int|
                        0 <= pos <= before.len() && out@ == #[trigger] before.insert(pos, item);
                    assert(texts(out@) =~= texts(before).insert(pos, item@));
                    lemma_insert_contains(texts(before), pos, item@, t);
                }
            }
        }
        i += 1;
    }
    assert(texts(list@).take(i as int) =~= texts(list@));
    proof {
        assert forall|i: int, j: int| 0 <= i < j < texts(out@).len() implies text_before(
            #[trigger] texts(out@)[i],
            #[trigger] texts(out@)[j],
        ) by {
            assert(out@[i].before(out@[j]));
        }
    }
    out
}

proof fn lemma_has_text(list: Seq<String>, s: String)
    ensures
        has_rank(list, s) <==> texts(list).contains(s@),
{
    assert forall|i: int| 0 <= i < list.len() implies (same_rank(#[trigger] list[i], s) <==> list[i]@
        == s@) by {
        lemma_text_before_total(list[i]@, s@);
    }
    if texts(list).contains(s@) {
        let i = choose|i: int| 0 <= i < texts(list).len() && texts(list)[i] == s@;
        assert(same_rank(list[i], s));
    }
    if has_rank(list, s) {
        let i = choose|i: int| 0 <= i < list.len() && same_rank(#[trigger] list[i], s);
        assert(texts(list)[i] == s@);
    }
}

/// What a sequence with one more element at its end contains.
pub proof fn lemma_push_contains<A>(s: Seq<A>, a: A, x: A)
    ensures
        s.push(a).contains(x) <==> s.contains(x) || x == a,
{
    if s.contains(x) {
        let i = choose|i: int| 0 <= i < s.len() && s[i] == x;
        assert(s.push(a)[i] == x);
    }
    assert(s.push(a)[s.len() as int] == a);
}

/// What a sequence with one more element in it contains.
pub proof fn lemma_insert_contains<A>(s: Seq<A>, pos: int, a: A, x: A)
    requires
        0 <= pos <= s.len(),
    ensures
        s.insert(pos, a).contains(x) <==> s.contains(x) || x == a,
{
    if s.contains(x) {
        let i = choose|i: int| 0 <= i < s.len() && s[i] == x;
        if i < pos {
            assert(s.insert(pos, a)[i] == x);
        } else {
            assert(s.insert(pos, a)[i + 1] == x);
        }
    }
    assert(s.insert(pos, a)[pos] == a);
}

/// Text order, as a relation.
pub open spec fn text_order() -> spec_fn(Seq<char>, Seq<char>) -> bool {
    |a: Seq<char>, b: Seq<char>| text_before(a, b)
}

/// The texts in text order.
pub fn sort_texts(list: &Vec<String>) -> (r: Vec<String>)
    ensures
        sorted_by(texts(list@), texts(r@), text_order()),
{
    let order = stable_order(list);
    proof {
        lemma_order_of_items(list@, texts(list@), text_order(), as_positions(order@));
        lemma_positions_in_range(list@, key_order(), order@);
    }
    let r = pick(list, &order);
    assert(texts(r@) =~= picked(texts(list@), as_positions(order@)));
    r
}

/// The positions of a stable order lie within the items.
pub proof fn lemma_positions_in_range<A>(
    items: Seq<A>,
    before: spec_fn(A, A) -> bool,
    order: Seq<usize>,
)
    requires
        is_stable_order(items, before, as_positions(order)),
    ensures
        order.len() == items.len(),
        forall|i: int| 0 <= i < order.len() ==> #[trigger] order[i] < items.len(),
{
    assert forall|i: int| 0 <= i < order.len() implies #[trigger] order[i] < items.len() by {
        assert(as_positions(order)[i] < items.len());
    }
}

/// Every item of a sorted list stands in the list that was sorted, and the lists are as long.
pub proof fn lemma_sorted_from<A>(
    input: Seq<A>,
    output: Seq<A>,
    before: spec_fn(A, A) -> bool,
    at: int,
) -> (r: int)
    requires
        sorted_by(input, output, before),
        0 <= at < output.len(),
    ensures
        output.len() == input.len(),
        0 <= r < input.len(),
        input[r] == output[at],
{
    let order = choose|order: Seq<int>| #[trigger]
        is_stable_order(input, before, order) && output == picked(input, order);
    order[at]
}

/// Every item of a list stands in the sorted list.
pub proof fn lemma_sorted_keeps<A>(
    input: Seq<A>,
    output: Seq<A>,
    before: spec_fn(A, A) -> bool,
    at: int,
) -> (r: int)
    requires
        sorted_by(input, output, before),
        forall|a: A| !#[trigger] before(a, a),
        0 <= at < input.len(),
    ensures
        output.len() == input.len(),
        0 <= r < output.len(),
        output[r] == input[at],
{
    let order = choose|order: Seq<int>| #[trigger]
        is_stable_order(input, before, order) && output == picked(input, order);
    lemma_order_covers(input, before, order, at);
    choose|r: int| 0 <= r < order.len() && order[r] == at
}

/// A sorted list holds what the list that was sorted holds, and nothing else.
pub proof fn lemma_sorted_members<A>(
    input: Seq<A>,
    output: Seq<A>,
    before: spec_fn(A, A) -> bool,
    x: A,
)
    requires
        sorted_by(input, output, before),
        forall|a: A| !#[trigger] before(a, a),
    ensures
        output.len() == input.len(),
        output.contains(x) <==> input.contains(x),
{
    if output.contains(x) {
        let at = choose|at: int| 0 <= at < output.len() && output[at] == x;
        let from = lemma_sorted_from(input, output, before, at);
        assert(input[from] == x);
    }
    if input.contains(x) {
        let from = choose|from: int| 0 <= from < input.len() && input[from] == x;
        let at = lemma_sorted_keeps(input, output, before, from);
        assert(output[at] == x);
    }
    let order = choose|order: Seq<int>| #[trigger]
        is_stable_order(input, before, order) && output == picked(input, order);
    assert(output.len() == order.len());
}

/// In a sorted list nothing stands before what it comes after.
pub proof fn lemma_sorted_in_order<A>(
    input: Seq<A>,
    output: Seq<A>,
    before: spec_fn(A, A) -> bool,
    i: int,
    j: int,
)
    requires
        sorted_by(input, output, before),
        forall|a: A, b: A| #[trigger] before(a, b) ==> !before(b, a),
        0 <= i < j < output.len(),
    ensures
        !before(output[j], output[i]),
{
    let order = choose|order: Seq<int>| #[trigger]
        is_stable_order(input, before, order) && output == picked(input, order);
    assert(precedes(input, before, order[i], order[j]));
    assert(output[i] == input[order[i]] && output[j] == input[order[j]]);
}

/// A text comes before another exactly when it is a proper beginning of it, or has the lower
/// character where they first differ.
pub proof fn lemma_text_order(a: Seq<char>, b: Seq<char>)
    ensures
        text_before(a, b) <==> {
            ||| a.len() < b.len() && a == b.take(a.len() as int)
            ||| exists|k: int|
                {
                    &&& 0 <= k < a.len()
                    &&& k < b.len()
                    &&& #[trigger] a.take(k) == b.take(k)
                    &&& a[k] < b[k]
                }
        },
    decreases a.len(),
{
    if a.len() > 0 && b.len() > 0 {
        if a[0] == b[0] {
            let x = a.subrange(1, a.len() as int);
            let y = b.subrange(1, b.len() as int);
            lemma_text_order(x, y);
            if x.len() < y.len() && x == y.take(x.len() as int) {
                assert forall|i: int| 0 <= i < a.len() implies a[i] == b[i] by {
                    if i > 0 {
                        assert(x[i - 1] == y.take(x.len() as int)[i - 1]);
                    }
                }
                assert(a =~= b.take(a.len() as int));
            }
            if a.len() < b.len() && a == b.take(a.len() as int) {
                assert forall|i: int| 0 <= i < x.len() implies x[i] == y[i] by {
                    assert(a[i + 1] == b.take(a.len() as int)[i + 1]);
                }
                assert(x =~= y.take(x.len() as int));
            }
            if exists|k: int|
                0 <= k < x.len() && k < y.len() && #[trigger] x.take(k) == y.take(k) && x[k] < y[k] {
                let k = choose|k: int|
                    0 <= k < x.len() && k < y.len() && #[trigger] x.take(k) == y.take(k) && x[k]
                        < y[k];
                assert forall|i: int| 0 <= i < k + 1 implies a[i] == b[i] by {
                    if i > 0 {
                        assert(x.take(k)[i - 1] == y.take(k)[i - 1]);
                    }
                }
                assert(a.take(k + 1) =~= b.take(k + 1));
                assert(a[k + 1] < b[k + 1]);
            }
            if exists|k: int|
                0 <= k < a.len() && k < b.len() && #[trigger] a.take(k) == b.take(k) && a[k] < b[k] {
                let k = choose|k: int|
                    0 <= k < a.len() && k < b.len() && #[trigger] a.take(k) == b.take(k) && a[k]
                        < b[k];
                assert(k > 0);
                assert forall|i: int| 0 <= i < k - 1 implies x[i] == y[i] by {
                    assert(a.take(k)[i + 1] == b.take(k)[i + 1]);
                }
                assert(x.take(k - 1) =~= y.take(k - 1));
                assert(x[k - 1] < y[k - 1]);
            }
        } else {
            if a[0] < b[0] {
                assert(a.take(0) =~= b.take(0));
            }
            if a.len() < b.len() && a == b.take(a.len() as int) {
                assert(a[0] == b.take(a.len() as int)[0]);
            }
            if exists|k: int|
                0 <= k < a.len() && k < b.len() && #[trigger] a.take(k) == b.take(k) && a[k] < b[k] {
                let k = choose|k: int|
                    0 <= k < a.len() && k < b.len() && #[trigger] a.take(k) == b.take(k) && a[k]
                        < b[k];
                if k > 0 {
                    assert(a.take(k)[0] == b.take(k)[0]);
                }
            }
        }
    } else if a.len() == 0 && b.len() > 0 {
        assert(a =~= b.take(0));
    }
}

} // verus!
