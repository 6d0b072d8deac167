//! Ordering of text keys and a stable sort over keyed items.
//!
//! `str`'s `Ord` compares UTF-8 bytes lexicographically, which orders
//! strings exactly as comparing their characters by code point does; the
//! comparisons below are stated over characters.
use vstd::prelude::*;

verus! {

broadcast use vstd::seq_lib::group_seq_properties;

/// Strict lexicographic order on character sequences, by code point.
pub open spec fn chars_lt(a: Seq<char>, b: Seq<char>) -> bool
    decreases a.len(),
{
    if a.len() == 0 {
        b.len() > 0
    } else if b.len() == 0 {
        false
    } else if a[0] == b[0] {
        chars_lt(a.drop_first(), b.drop_first())
    } else {
        a[0] < b[0]
    }
}

/// A sort key: a rank compared first, then a text compared lexicographically.
pub struct SortKey {
    pub rank: u8,
    pub text: Vec<char>,
}

impl View for SortKey {
    type V = (u8, Seq<char>);

    open spec fn view(&self) -> (u8, Seq<char>) {
        (self.rank, self.text@)
    }
}

/// Strict order on key views: by rank, then by text.
pub open spec fn key_lt(a: (u8, Seq<char>), b: (u8, Seq<char>)) -> bool {
    a.0 < b.0 || (a.0 == b.0 && chars_lt(a.1, b.1))
}

/// Every element's key is no greater than any later element's key.
pub open spec fn sorted_by_key<T>(s: Seq<(SortKey, T)>) -> bool {
    forall|i: int, j: int| 0 <= i < j < s.len() ==> !key_lt(#[trigger] s[j].0@, #[trigger] s[i].0@)
}

/// The predicate "this item's key is `k`".
pub open spec fn has_key<T>(k: (u8, Seq<char>)) -> spec_fn((SortKey, T)) -> bool {
    |p: (SortKey, T)| p.0@ == k
}

/// `out` lists the items of `input` ordered by key, with items of equal
/// keys kept in their input order.
pub open spec fn stably_sorted<T>(input: Seq<(SortKey, T)>, out: Seq<(SortKey, T)>) -> bool {
    &&& sorted_by_key(out)
    &&& forall|k: (u8, Seq<char>)| #[trigger] out.filter(has_key::<T>(k)) == input.filter(has_key::<T>(k))
}

pub proof fn lemma_chars_lt_irreflexive(a: Seq<char>)
    ensures
        !chars_lt(a, a),
    decreases a.len(),
{
    if a.len() > 0 {
        lemma_chars_lt_irreflexive(a.drop_first());
    }
}

pub proof fn lemma_chars_lt_total(a: Seq<char>, b: Seq<char>)
    ensures
        a == b || chars_lt(a, b) || chars_lt(b, a),
        !(chars_lt(a, b) && chars_lt(b, a)),
    decreases a.len(),
{
    if a.len() > 0 && b.len() > 0 {
        lemma_chars_lt_total(a.drop_first(), b.drop_first());
        if a[0] == b[0] && a.drop_first() == b.drop_first() {
            assert(a =~= seq![a[0]] + a.drop_first());
            assert(b =~= seq![b[0]] + b.drop_first());
        }
    } else if a.len() == 0 && b.len() == 0 {
        assert(a =~= b);
    }
}

pub proof fn lemma_chars_lt_transitive(a: Seq<char>, b: Seq<char>, c: Seq<char>)
    requires
        chars_lt(a, b),
        chars_lt(b, c),
    ensures
        chars_lt(a, c),
    decreases a.len(),
{
    if a.len() > 0 && b.len() > 0 && c.len() > 0 {
        if a[0] == b[0] && b[0] == c[0] {
            lemma_chars_lt_transitive(a.drop_first(), b.drop_first(), c.drop_first());
        }
    }
}

pub proof fn lemma_key_lt_facts(a: (u8, Seq<char>), b: (u8, Seq<char>))
    ensures
        !key_lt(a, a),
        a == b || key_lt(a, b) || key_lt(b, a),
        !(key_lt(a, b) && key_lt(b, a)),
{
    lemma_chars_lt_irreflexive(a.1);
    lemma_chars_lt_total(a.1, b.1);
}

pub proof fn lemma_key_lt_transitive(a: (u8, Seq<char>), b: (u8, Seq<char>), c: (u8, Seq<char>))
    requires
        key_lt(a, b),
        key_lt(b, c),
    ensures
        key_lt(a, c),
{
    if a.0 == b.0 && b.0 == c.0 {
        lemma_chars_lt_transitive(a.1, b.1, c.1);
    }
}

proof fn lemma_chars_lt_skip(a: Seq<char>, b: Seq<char>, i: int)
    requires
        0 <= i <= a.len(),
        i <= b.len(),
        forall|j: int| 0 <= j < i ==> a[j] == b[j],
    ensures
        chars_lt(a, b) == chars_lt(a.skip(i), b.skip(i)),
    decreases i,
{
    if i > 0 {
        assert forall|j: int| 0 <= j < i - 1 implies a.drop_first()[j] == b.drop_first()[j] by {
            assert(a.drop_first()[j] == a[j + 1]);
        }
        lemma_chars_lt_skip(a.drop_first(), b.drop_first(), i - 1);
        assert(a.drop_first().skip(i - 1) =~= a.skip(i));
        assert(b.drop_first().skip(i - 1) =~= b.skip(i));
    } else {
        assert(a.skip(0) =~= a);
        assert(b.skip(0) =~= b);
    }
}

/// `a < b` for character sequences, as `str`'s `Ord` orders them.
pub fn chars_less(a: &Vec<char>, b: &Vec<char>) -> (r: bool)
    ensures
        r == chars_lt(a@, b@),
{
    let mut i: usize = 0;
    while i < a.len() && i < b.len() && a[i] == b[i]
        invariant
            i <= a@.len(),
            i <= b@.len(),
            forall|j: int| 0 <= j < i ==> a@[j] == b@[j],
        decreases a.len() - i,
    {
        i = i + 1;
    }
    proof {
        lemma_chars_lt_skip(a@, b@, i as int);
    }
    if i == a.len() {
        i < b.len()
    } else if i == b.len() {
        false
    } else {
        a[i] < b[i]
    }
}

/// `a < b` for sort keys.
pub fn key_less(a: &SortKey, b: &SortKey) -> (r: bool)
    ensures
        r == key_lt(a@, b@),
{
    if a.rank != b.rank {
        a.rank < b.rank
    } else {
        chars_less(&a.text, &b.text)
    }
}

pub(crate) proof fn lemma_filter_none<A>(s: Seq<A>, pred: spec_fn(A) -> bool)
    requires
        forall|j: int| 0 <= j < s.len() ==> !pred(s[j]),
    ensures
        s.filter(pred) == Seq::<A>::empty(),
    decreases s.len(),
{
    reveal(Seq::filter);
    if s.len() > 0 {
        lemma_filter_none(s.drop_last(), pred);
    }
}

pub(crate) proof fn lemma_filter_insert<A>(s: Seq<A>, p: int, e: A, pred: spec_fn(A) -> bool)
    requires
        0 <= p <= s.len(),
    ensures
        s.insert(p, e).filter(pred) == s.take(p).filter(pred) + seq![e].filter(pred) + s.skip(p).filter(pred),
        s.filter(pred) == s.take(p).filter(pred) + s.skip(p).filter(pred),
{
    assert(s.insert(p, e) =~= s.take(p) + seq![e] + s.skip(p));
    assert(s =~= s.take(p) + s.skip(p));
    Seq::filter_distributes_over_add(s.take(p) + seq![e], s.skip(p), pred);
    Seq::filter_distributes_over_add(s.take(p), seq![e], pred);
    Seq::filter_distributes_over_add(s.take(p), s.skip(p), pred);
}

pub(crate) proof fn lemma_filter_single<A>(e: A, pred: spec_fn(A) -> bool)
    ensures
        seq![e].filter(pred) == (if pred(e) { seq![e] } else { Seq::<A>::empty() }),
{
    Seq::<A>::empty().lemma_filter_push(e, pred);
    assert(Seq::<A>::empty().push(e) =~= seq![e]);
    lemma_filter_none(Seq::<A>::empty(), pred);
}

/// Sorts `items` by key, keeping items with equal keys in their input
/// order (a stable sort, as `slice::sort_by` is).
pub fn stable_sort_by_key<T>(items: Vec<(SortKey, T)>) -> (out: Vec<(SortKey, T)>)
    ensures
        stably_sorted(items@, out@),
        out@.len() == items@.len(),
{
    let ghost input = items@;
    let mut rest = items;
    let mut out: Vec<(SortKey, T)> = Vec::new();
    let ghost mut done: int = 0;
    while rest.len() > 0
        invariant
            0 <= done <= input.len(),
            rest@ == input.skip(done),
            sorted_by_key(out@),
            out@.len() == done,
            forall|k: (u8, Seq<char>)| #[trigger] out@.filter(has_key::<T>(k)) == input.take(done).filter(has_key::<T>(k)),
        decreases rest.len(),
    {
        let e = rest.remove(0);
        let ghost ek = e.0@;
        let mut p = out.len();
        while p > 0 && key_less(&e.0, &out[p - 1].0)
            invariant
                p <= out@.len(),
                ek == e.0@,
                forall|j: int| p <= j < out@.len() ==> key_lt(ek, #[trigger] out@[j].0@),
            decreases p,
        {
            p = p - 1;
        }
        let ghost old_out = out@;
        proof {
            assert forall|k: (u8, Seq<char>)| #[trigger] old_out.insert(p as int, e).filter(has_key::<T>(k))
                == input.take(done + 1).filter(has_key::<T>(k)) by {
                let f = has_key::<T>(k);
                lemma_filter_insert(old_out, p as int, e, f);
                lemma_filter_single(e, f);
                assert(input.take(done + 1) =~= input.take(done) + seq![e]);
                Seq::filter_distributes_over_add(input.take(done), seq![e], f);
                if ek == k {
                    assert forall|j: int| 0 <= j < old_out.skip(p as int).len() implies !f(old_out.skip(p as int)[j]) by {
                        assert(old_out.skip(p as int)[j] == old_out[p + j]);
                        lemma_key_lt_facts(ek, old_out[p + j].0@);
                    }
                    lemma_filter_none(old_out.skip(p as int), f);
                    assert(old_out.skip(p as int).filter(f) + seq![e] =~= seq![e]);
                } else {
                    assert(seq![e].filter(f) =~= Seq::<(SortKey, T)>::empty());
                }
                assert(old_out.take(p as int).filter(f) + seq![e].filter(f) + old_out.skip(p as int).filter(f)
                    =~= old_out.filter(f) + seq![e].filter(f)) by {
                    if ek == k {
                        assert(old_out.skip(p as int).filter(f) =~= Seq::<(SortKey, T)>::empty());
                    } else {
                        assert(seq![e].filter(f) =~= Seq::<(SortKey, T)>::empty());
                    }
                }
            }
            let ins = old_out.insert(p as int, e);
            old_out.insert_ensures(p as int, e);
            assert forall|i: int, j: int| 0 <= i < j < ins.len() implies !key_lt(#[trigger] ins[j].0@, #[trigger] ins[i].0@) by {
                if j < p {
                    assert(ins[i] == old_out[i]);
                    assert(ins[j] == old_out[j]);
                } else if j == p {
                    assert(ins[i] == old_out[i]);
                    // old_out[p - 1] is not above e; everything before is not above it
                    let last = old_out[p - 1].0@;
                    lemma_key_lt_facts(ek, last);
                    if i < p - 1 {
                        lemma_key_lt_facts(old_out[i].0@, last);
                        if key_lt(ek, old_out[i].0@) {
                            if ek == last {
                            } else {
                                lemma_key_lt_transitive(last, ek, old_out[i].0@);
                            }
                        }
                    }
                } else if i == p {
                    assert(ins[j] == old_out[j - 1]);
                    lemma_key_lt_facts(ek, old_out[j - 1].0@);
                } else if i < p {
                    assert(ins[i] == old_out[i]);
                    assert(ins[j] == old_out[j - 1]);
                } else {
                    assert(ins[i] == old_out[i - 1]);
                    assert(ins[j] == old_out[j - 1]);
                }
            }
        }
        out.insert(p, e);
        proof {
            done = done + 1;
            assert(rest@ =~= input.skip(done));
        }
    }
    assert(input.take(done) =~= input);
    out
}


/// `out` lists the elements of `input` ordered by `key`, elements with
/// equal keys in their input order: what a stable sort by `key` produces.
pub open spec fn stably_sorted_by<T>(input: Seq<T>, out: Seq<T>, key: spec_fn(T) -> (u8, Seq<char>)) -> bool {
    &&& forall|i: int, j: int| 0 <= i < j < out.len() ==> !key_lt(key(#[trigger] out[j]), key(#[trigger] out[i]))
    &&& forall|k: (u8, Seq<char>)| #[trigger] out.filter(key_is(key, k)) == input.filter(key_is(key, k))
}

/// The predicate "`key` gives `k`".
pub open spec fn key_is<T>(key: spec_fn(T) -> (u8, Seq<char>), k: (u8, Seq<char>)) -> spec_fn(T) -> bool {
    |x: T| key(x) == k
}

/// The items of keyed pairs.
pub open spec fn items_of<T>(s: Seq<(SortKey, T)>) -> Seq<T> {
    s.map_values(|p: (SortKey, T)| p.1)
}

/// Every pair's key is `key` of its item.
pub open spec fn keys_agree<T>(s: Seq<(SortKey, T)>, key: spec_fn(T) -> (u8, Seq<char>)) -> bool {
    forall|i: int| 0 <= i < s.len() ==> #[trigger] s[i].0@ == key(s[i].1)
}

proof fn lemma_items_filter<T>(s: Seq<(SortKey, T)>, key: spec_fn(T) -> (u8, Seq<char>), k: (u8, Seq<char>))
    requires
        keys_agree(s, key),
    ensures
        items_of(s).filter(key_is(key, k)) == items_of(s.filter(has_key::<T>(k))),
    decreases s.len(),
{
    reveal(Seq::filter);
    if s.len() > 0 {
        let init = s.drop_last();
        assert(keys_agree(init, key)) by {
            assert forall|i: int| 0 <= i < init.len() implies #[trigger] init[i].0@ == key(init[i].1) by {
                assert(init[i] == s[i]);
            }
        }
        lemma_items_filter(init, key, k);
        assert(items_of(s).drop_last() =~= items_of(init));
        assert(s.last().0@ == key(s.last().1));
        let f = has_key::<T>(k);
        if f(s.last()) {
            assert(items_of(s.filter(f)) =~= items_of(init.filter(f)).push(s.last().1));
        } else {
            assert(items_of(s.filter(f)) =~= items_of(init.filter(f)));
        }
    } else {
        assert(items_of(s) =~= Seq::<T>::empty());
        assert(items_of(s.filter(has_key::<T>(k))) =~= Seq::<T>::empty());
    }
}

/// A stable sort of keyed pairs whose keys are `key` of their items is a
/// stable sort of the items by `key`.
pub proof fn lemma_sorted_items<T>(
    input: Seq<(SortKey, T)>,
    out: Seq<(SortKey, T)>,
    key: spec_fn(T) -> (u8, Seq<char>),
)
    requires
        stably_sorted(input, out),
        keys_agree(input, key),
    ensures
        keys_agree(out, key),
        stably_sorted_by(items_of(input), items_of(out), key),
{
    assert forall|i: int| 0 <= i < out.len() implies #[trigger] out[i].0@ == key(out[i].1) by {
        let f = has_key::<T>(out[i].0@);
        out.lemma_filter_contains(f, i);
        assert(input.filter(f).contains(out[i]));
        input.lemma_filter_contains_rev(f, out[i]);
        let j = choose|j: int| 0 <= j < input.len() && input[j] == out[i];
        assert(input[j].0@ == key(input[j].1));
    }
    assert forall|k: (u8, Seq<char>)| #[trigger] items_of(out).filter(key_is(key, k))
        == items_of(input).filter(key_is(key, k)) by {
        lemma_items_filter(out, key, k);
        lemma_items_filter(input, key, k);
    }
    assert forall|i: int, j: int| 0 <= i < j < items_of(out).len() implies
        !key_lt(key(#[trigger] items_of(out)[j]), key(#[trigger] items_of(out)[i])) by {
        assert(out[i].0@ == key(out[i].1));
        assert(out[j].0@ == key(out[j].1));
        assert(!key_lt(out[j].0@, out[i].0@));
    }
}


/// The views of a sequence's elements.
pub open spec fn views<T: View>(s: Seq<T>) -> Seq<T::V> {
    s.map_values(|x: T| x@)
}

proof fn lemma_views_filter<T: View>(s: Seq<T>, key: spec_fn(T::V) -> (u8, Seq<char>), k: (u8, Seq<char>))
    ensures
        views(s).filter(key_is(key, k)) == views(s.filter(key_is(|x: T| key(x@), k))),
    decreases s.len(),
{
    reveal(Seq::filter);
    if s.len() > 0 {
        let init = s.drop_last();
        lemma_views_filter(init, key, k);
        assert(views(s).drop_last() =~= views(init));
        let f = key_is(|x: T| key(x@), k);
        if f(s.last()) {
            assert(views(s.filter(f)) =~= views(init.filter(f)).push(s.last()@));
        } else {
            assert(views(s.filter(f)) =~= views(init.filter(f)));
        }
    } else {
        assert(views(s) =~= Seq::<T::V>::empty());
        assert(views(s.filter(key_is(|x: T| key(x@), k))) =~= Seq::<T::V>::empty());
    }
}

/// A stable sort by a key that depends only on the view sorts the views.
pub proof fn lemma_sorted_views<T: View>(input: Seq<T>, out: Seq<T>, key: spec_fn(T::V) -> (u8, Seq<char>))
    requires
        stably_sorted_by(input, out, |x: T| key(x@)),
    ensures
        stably_sorted_by(views(input), views(out), key),
{
    let kx = |x: T| key(x@);
    assert forall|k: (u8, Seq<char>)| #[trigger] views(out).filter(key_is(key, k))
        == views(input).filter(key_is(key, k)) by {
        lemma_views_filter(out, key, k);
        lemma_views_filter(input, key, k);
        assert(out.filter(key_is(kx, k)) == input.filter(key_is(kx, k)));
    }
    assert forall|i: int, j: int| 0 <= i < j < views(out).len() implies
        !key_lt(key(#[trigger] views(out)[j]), key(#[trigger] views(out)[i])) by {
        assert(!key_lt(kx(out[j]), kx(out[i])));
    }
}

/// Moves the items of keyed pairs, in order, onto the end of `out`.
pub fn append_items<T>(out: &mut Vec<T>, pairs: Vec<(SortKey, T)>)
    ensures
        final(out)@ == old(out)@ + items_of(pairs@),
{
    let ghost start = out@;
    let ghost all = items_of(pairs@);
    let mut rest = pairs;
    let ghost mut j: int = 0;
    while rest.len() > 0
        invariant
            0 <= j <= all.len(),
            rest@.len() + j == all.len(),
            items_of(rest@) == all.skip(j),
            out@ == start + all.take(j),
        decreases rest.len(),
    {
        let ghost before = rest@;
        let p = rest.remove(0);
        let ghost item = p.1;
        out.push(p.1);
        proof {
            assert(items_of(before)[0] == item);
            assert(all.skip(j)[0] == all[j]);
            assert forall|m: int| 0 <= m < rest@.len() implies #[trigger] items_of(rest@)[m] == all.skip(j + 1)[m] by {
                assert(rest@[m] == before[m + 1]);
                assert(items_of(before)[m + 1] == all.skip(j)[m + 1]);
            }
            j = j + 1;
            assert(items_of(rest@) =~= all.skip(j));
            assert(out@ =~= start + all.take(j));
        }
    }
    proof {
        assert(all.take(j) =~= all);
    }
}

proof fn lemma_mapped_filter<T, V>(s: Seq<T>, f: spec_fn(T) -> V, key: spec_fn(V) -> (u8, Seq<char>), k: (u8, Seq<char>))
    ensures
        s.map_values(f).filter(key_is(key, k)) == s.filter(key_is(|x: T| key(f(x)), k)).map_values(f),
    decreases s.len(),
{
    reveal(Seq::filter);
    if s.len() > 0 {
        let init = s.drop_last();
        lemma_mapped_filter(init, f, key, k);
        assert(s.map_values(f).drop_last() =~= init.map_values(f));
        let g = key_is(|x: T| key(f(x)), k);
        if g(s.last()) {
            assert(s.filter(g).map_values(f) =~= init.filter(g).map_values(f).push(f(s.last())));
        } else {
            assert(s.filter(g).map_values(f) =~= init.filter(g).map_values(f));
        }
    } else {
        assert(s.map_values(f) =~= Seq::<V>::empty());
        assert(s.filter(key_is(|x: T| key(f(x)), k)).map_values(f) =~= Seq::<V>::empty());
    }
}

/// A stable sort by a key that depends on a mapped value sorts the mapped
/// values.
pub proof fn lemma_sorted_mapped<T, V>(
    input: Seq<T>,
    out: Seq<T>,
    f: spec_fn(T) -> V,
    key: spec_fn(V) -> (u8, Seq<char>),
)
    requires
        stably_sorted_by(input, out, |x: T| key(f(x))),
    ensures
        stably_sorted_by(input.map_values(f), out.map_values(f), key),
{
    let kx = |x: T| key(f(x));
    assert forall|k: (u8, Seq<char>)| #[trigger] out.map_values(f).filter(key_is(key, k))
        == input.map_values(f).filter(key_is(key, k)) by {
        lemma_mapped_filter(out, f, key, k);
        lemma_mapped_filter(input, f, key, k);
        assert(out.filter(key_is(kx, k)) == input.filter(key_is(kx, k)));
    }
    assert forall|i: int, j: int| 0 <= i < j < out.map_values(f).len() implies
        !key_lt(key(#[trigger] out.map_values(f)[j]), key(#[trigger] out.map_values(f)[i])) by {
        assert(!key_lt(kx(out[j]), kx(out[i])));
    }
}

} // verus!
