//! The sidebar's repository order: alphabetical by name, case-insensitive,
//! with the path as tie-break, paths ordered as `Path` orders them (by
//! components).
use vstd::prelude::*;
use crate::files::{lowercase, to_lowercase};
use crate::order::{
    chars_less, chars_lt, lemma_chars_lt_irreflexive, lemma_chars_lt_total, lemma_chars_lt_transitive,
    lemma_filter_insert, lemma_filter_none, lemma_filter_single,
};
use crate::paths::{path_components, path_components_of};
use crate::remote_url::chars_eq;

verus! {

broadcast use vstd::seq_lib::group_seq_properties;

/// A repository the sidebar lists: its display name and its path.
pub struct RepoEntry {
    pub name: String,
    pub path: String,
}

/// A component's kind in `Component`'s order: the root, then the current
/// directory, then the parent directory, then named components.
pub open spec fn component_rank(c: Seq<char>) -> u8 {
    if c == seq!['/'] {
        0
    } else if c == seq!['.'] {
        1
    } else if c == seq!['.', '.'] {
        2
    } else {
        3
    }
}

/// `Component`'s order: by kind, named components by their text.
pub open spec fn component_lt(a: Seq<char>, b: Seq<char>) -> bool {
    component_rank(a) < component_rank(b) || (component_rank(a) == component_rank(b) && chars_lt(a, b))
}

/// Lexicographic order on component lists (`Path`'s order).
pub open spec fn components_lt(a: Seq<Seq<char>>, b: Seq<Seq<char>>) -> bool
    decreases a.len(),
{
    if a.len() == 0 {
        b.len() > 0
    } else if b.len() == 0 {
        false
    } else if a[0] == b[0] {
        components_lt(a.drop_first(), b.drop_first())
    } else {
        component_lt(a[0], b[0])
    }
}

/// What the sidebar orders an entry by: its lower-cased name, then its
/// path's components.
pub open spec fn sidebar_key(e: RepoEntry) -> (Seq<char>, Seq<Seq<char>>) {
    (lowercase(e.name@), path_components(e.path@))
}

/// The sidebar's strict order on keys.
pub open spec fn sidebar_lt(a: (Seq<char>, Seq<Seq<char>>), b: (Seq<char>, Seq<Seq<char>>)) -> bool {
    chars_lt(a.0, b.0) || (a.0 == b.0 && components_lt(a.1, b.1))
}

proof fn lemma_component_lt_facts(a: Seq<char>, b: Seq<char>)
    ensures
        !component_lt(a, a),
        a == b || component_lt(a, b) || component_lt(b, a),
        !(component_lt(a, b) && component_lt(b, a)),
{
    lemma_chars_lt_irreflexive(a);
    lemma_chars_lt_total(a, b);
}

proof fn lemma_component_lt_transitive(a: Seq<char>, b: Seq<char>, c: Seq<char>)
    requires
        component_lt(a, b),
        component_lt(b, c),
    ensures
        component_lt(a, c),
{
    if component_rank(a) == component_rank(b) && component_rank(b) == component_rank(c) {
        lemma_chars_lt_transitive(a, b, c);
    }
}

proof fn lemma_components_lt_facts(a: Seq<Seq<char>>, b: Seq<Seq<char>>)
    ensures
        !components_lt(a, a),
        a == b || components_lt(a, b) || components_lt(b, a),
        !(components_lt(a, b) && components_lt(b, a)),
    decreases a.len(),
{
    if a.len() > 0 {
        lemma_components_lt_facts(a.drop_first(), a.drop_first());
    }
    if a.len() > 0 && b.len() > 0 {
        lemma_components_lt_facts(a.drop_first(), b.drop_first());
        lemma_component_lt_facts(a[0], b[0]);
        if a[0] == b[0] && a.drop_first() == b.drop_first() {
            assert(a =~= seq![a[0]] + a.drop_first());
            assert(b =~= seq![b[0]] + b.drop_first());
        }
    } else if a.len() == 0 && b.len() == 0 {
        assert(a =~= b);
    }
}

proof fn lemma_components_lt_transitive(a: Seq<Seq<char>>, b: Seq<Seq<char>>, c: Seq<Seq<char>>)
    requires
        components_lt(a, b),
        components_lt(b, c),
    ensures
        components_lt(a, c),
    decreases a.len(),
{
    if a.len() > 0 && b.len() > 0 && c.len() > 0 {
        if a[0] == b[0] && b[0] == c[0] {
            lemma_components_lt_transitive(a.drop_first(), b.drop_first(), c.drop_first());
        } else if a[0] == b[0] {
            assert(component_lt(b[0], c[0]));
            assert(a[0] != c[0]);
        } else if b[0] == c[0] {
            assert(component_lt(a[0], b[0]));
            assert(a[0] != c[0]);
        } else {
            lemma_component_lt_transitive(a[0], b[0], c[0]);
            if a[0] == c[0] {
                lemma_component_lt_facts(a[0], b[0]);
            }
        }
    }
}

proof fn lemma_sidebar_lt_facts(a: (Seq<char>, Seq<Seq<char>>), b: (Seq<char>, Seq<Seq<char>>))
    ensures
        !sidebar_lt(a, a),
        a == b || sidebar_lt(a, b) || sidebar_lt(b, a),
        !(sidebar_lt(a, b) && sidebar_lt(b, a)),
{
    lemma_chars_lt_irreflexive(a.0);
    lemma_chars_lt_total(a.0, b.0);
    lemma_components_lt_facts(a.1, b.1);
}

proof fn lemma_sidebar_lt_transitive(
    a: (Seq<char>, Seq<Seq<char>>),
    b: (Seq<char>, Seq<Seq<char>>),
    c: (Seq<char>, Seq<Seq<char>>),
)
    requires
        sidebar_lt(a, b),
        sidebar_lt(b, c),
    ensures
        sidebar_lt(a, c),
{
    if chars_lt(a.0, b.0) && chars_lt(b.0, c.0) {
        lemma_chars_lt_transitive(a.0, b.0, c.0);
    } else if a.0 == b.0 && b.0 == c.0 {
        lemma_components_lt_transitive(a.1, b.1, c.1);
    }
}

fn component_rank_of(c: &Vec<char>) -> (r: u8)
    ensures
        r == component_rank(c@),
{
    proof {
        if c@.len() == 1 && c@[0] == '/' {
            assert(c@ =~= seq!['/']);
        }
        if c@.len() == 1 && c@[0] == '.' {
            assert(c@ =~= seq!['.']);
        }
        if c@.len() == 2 && c@[0] == '.' && c@[1] == '.' {
            assert(c@ =~= seq!['.', '.']);
        }
    }
    if c.len() == 1 && c[0] == '/' {
        0
    } else if c.len() == 1 && c[0] == '.' {
        1
    } else if c.len() == 2 && c[0] == '.' && c[1] == '.' {
        2
    } else {
        3
    }
}

fn component_less(a: &Vec<char>, b: &Vec<char>) -> (r: bool)
    ensures
        r == component_lt(a@, b@),
{
    let ra = component_rank_of(a);
    let rb = component_rank_of(b);
    if ra != rb {
        ra < rb
    } else {
        chars_less(a, b)
    }
}

proof fn lemma_components_lt_skip(a: Seq<Seq<char>>, b: Seq<Seq<char>>, i: int)
    requires
        0 <= i <= a.len(),
        i <= b.len(),
        forall|j: int| 0 <= j < i ==> a[j] == b[j],
    ensures
        components_lt(a, b) == components_lt(a.skip(i), b.skip(i)),
    decreases i,
{
    if i > 0 {
        assert forall|j: int| 0 <= j < i - 1 implies a.drop_first()[j] == b.drop_first()[j] by {
            assert(a.drop_first()[j] == a[j + 1]);
        }
        lemma_components_lt_skip(a.drop_first(), b.drop_first(), i - 1);
        assert(a.drop_first().skip(i - 1) =~= a.skip(i));
        assert(b.drop_first().skip(i - 1) =~= b.skip(i));
    } else {
        assert(a.skip(0) =~= a);
        assert(b.skip(0) =~= b);
    }
}

fn components_less(a: &Vec<Vec<char>>, b: &Vec<Vec<char>>) -> (r: bool)
    ensures
        r == components_lt(crate::order::views(a@), crate::order::views(b@)),
{
    let ghost av = crate::order::views(a@);
    let ghost bv = crate::order::views(b@);
    let mut i: usize = 0;
    while i < a.len() && i < b.len() && chars_eq(&a[i], &b[i])
        invariant
            i <= a@.len(),
            i <= b@.len(),
            av == crate::order::views(a@),
            bv == crate::order::views(b@),
            forall|j: int| 0 <= j < i ==> av[j] == bv[j],
        decreases a.len() - i,
    {
        i = i + 1;
    }
    proof {
        lemma_components_lt_skip(av, bv, i as int);
    }
    if i == a.len() {
        i < b.len()
    } else if i == b.len() {
        false
    } else {
        proof {
            assert(av.skip(i as int)[0] == av[i as int]);
            assert(bv.skip(i as int)[0] == bv[i as int]);
        }
        component_less(&a[i], &b[i])
    }
}

fn entry_less(a: &RepoEntry, b: &RepoEntry) -> (r: bool)
    ensures
        r == sidebar_lt(sidebar_key(*a), sidebar_key(*b)),
{
    let la = crate::text::chars_of(to_lowercase(a.name.as_str()).as_str());
    let lb = crate::text::chars_of(to_lowercase(b.name.as_str()).as_str());
    if chars_less(&la, &lb) {
        return true;
    }
    if !chars_eq(&la, &lb) {
        return false;
    }
    let ca = path_components_of(a.path.as_str());
    let cb = path_components_of(b.path.as_str());
    components_less(&ca, &cb)
}

/// Whether `s` is in sidebar order: no entry sorts before an earlier one.
pub open spec fn sidebar_ordered(s: Seq<RepoEntry>) -> bool {
    forall|i: int, j: int| 0 <= i < j < s.len() ==> !sidebar_lt(sidebar_key(#[trigger] s[j]), sidebar_key(#[trigger] s[i]))
}

/// The predicate "this entry's sidebar key is `k`".
pub open spec fn keyed(k: (Seq<char>, Seq<Seq<char>>)) -> spec_fn(RepoEntry) -> bool {
    |e: RepoEntry| sidebar_key(e) == k
}

/// Sorts registry entries into sidebar order: alphabetically by name,
/// case-insensitively, the path (compared as a path) breaking ties;
/// entries equal on both keep their order (a stable sort, as
/// `slice::sort_by` is).
pub fn sidebar_sorted(entries: Vec<RepoEntry>) -> (out: Vec<RepoEntry>)
    ensures
        out@.len() == entries@.len(),
        sidebar_ordered(out@),
        forall|k: (Seq<char>, Seq<Seq<char>>)| #[trigger] out@.filter(keyed(k)) == entries@.filter(keyed(k)),
{
    let ghost input = entries@;
    let mut rest = entries;
    let mut out: Vec<RepoEntry> = Vec::new();
    let ghost mut done: int = 0;
    while rest.len() > 0
        invariant
            0 <= done <= input.len(),
            rest@ == input.skip(done),
            sidebar_ordered(out@),
            out@.len() == done,
            forall|k: (Seq<char>, Seq<Seq<char>>)| #[trigger] out@.filter(keyed(k)) == input.take(done).filter(keyed(k)),
        decreases rest.len(),
    {
        let e = rest.remove(0);
        let ghost ek = sidebar_key(e);
        let mut p = out.len();
        while p > 0 && entry_less(&e, &out[p - 1])
            invariant
                p <= out@.len(),
                ek == sidebar_key(e),
                forall|j: int| p <= j < out@.len() ==> sidebar_lt(ek, sidebar_key(#[trigger] out@[j])),
            decreases p,
        {
            p = p - 1;
        }
        let ghost old_out = out@;
        proof {
            assert forall|k: (Seq<char>, Seq<Seq<char>>)| #[trigger] old_out.insert(p as int, e).filter(keyed(k))
                == input.take(done + 1).filter(keyed(k)) by {
                let f = keyed(k);
                lemma_filter_insert(old_out, p as int, e, f);
                lemma_filter_single(e, f);
                assert(input.take(done + 1) =~= input.take(done) + seq![e]);
                Seq::filter_distributes_over_add(input.take(done), seq![e], f);
                if ek == k {
                    assert forall|j: int| 0 <= j < old_out.skip(p as int).len() implies !f(old_out.skip(p as int)[j]) by {
                        assert(old_out.skip(p as int)[j] == old_out[p + j]);
                        lemma_sidebar_lt_facts(ek, sidebar_key(old_out[p + j]));
                    }
                    lemma_filter_none(old_out.skip(p as int), f);
                    assert(old_out.skip(p as int).filter(f) + seq![e] =~= seq![e]);
                } else {
                    assert(seq![e].filter(f) =~= Seq::<RepoEntry>::empty());
                }
                assert(old_out.take(p as int).filter(f) + seq![e].filter(f) + old_out.skip(p as int).filter(f)
                    =~= old_out.filter(f) + seq![e].filter(f)) by {
                    if ek == k {
                        assert(old_out.skip(p as int).filter(f) =~= Seq::<RepoEntry>::empty());
                    } else {
                        assert(seq![e].filter(f) =~= Seq::<RepoEntry>::empty());
                    }
                }
            }
            let ins = old_out.insert(p as int, e);
            old_out.insert_ensures(p as int, e);
            assert forall|i: int, j: int| 0 <= i < j < ins.len() implies !sidebar_lt(
                sidebar_key(#[trigger] ins[j]),
                sidebar_key(#[trigger] ins[i]),
            ) by {
                if j < p {
                    assert(ins[i] == old_out[i]);
                    assert(ins[j] == old_out[j]);
                } else if j == p {
                    assert(ins[i] == old_out[i]);
                    let last = sidebar_key(old_out[p - 1]);
                    lemma_sidebar_lt_facts(ek, last);
                    if i < p - 1 {
                        lemma_sidebar_lt_facts(sidebar_key(old_out[i]), last);
                        if sidebar_lt(ek, sidebar_key(old_out[i])) {
                            if ek != last {
                                lemma_sidebar_lt_transitive(last, ek, sidebar_key(old_out[i]));
                            }
                        }
                    }
                } else if i == p {
                    assert(ins[j] == old_out[j - 1]);
                    lemma_sidebar_lt_facts(ek, sidebar_key(old_out[j - 1]));
                } else if i < p {
                    assert(ins[i] == old_out[i]);
                    assert(ins[j] == old_out[j - 1]);
                } else {
                    assert(ins[i] == old_out[i - 1]);
                    assert(ins[j] == old_out[j - 1]);
                }
            }
        }
        out.insert(p, e);
        proof {
            done = done + 1;
            assert(rest@ =~= input.skip(done));
        }
    }
    assert(input.take(done) =~= input);
    out
}

} // verus!
