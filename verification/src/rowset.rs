//! Sets of row indices, kept as strictly increasing vectors (the order a
//! `BTreeSet<usize>` walks them in), and positions in sequences.
use vstd::prelude::*;

verus! {

broadcast use vstd::seq_lib::group_seq_properties;

/// Strictly increasing: sorted, and no index twice.
pub open spec fn strictly_sorted(s: Seq<usize>) -> bool {
    forall|i: int, j: int| 0 <= i < j < s.len() ==> s[i] < s[j]
}

/// Position of the first `x` in `s`, or `-1` when `s` holds none.
pub open spec fn position_of<T>(s: Seq<T>, x: T) -> int
    decreases s.len(),
{
    if s.len() == 0 {
        -1
    } else {
        let k = position_of(s.drop_last(), x);
        if k >= 0 {
            k
        } else if s.last() == x {
            s.len() - 1
        } else {
            -1
        }
    }
}

/// `position_of` is the least position holding `x`.
pub proof fn lemma_position_of<T>(s: Seq<T>, x: T, i: int)
    requires
        0 <= i <= s.len(),
        i < s.len() ==> s[i] == x,
        forall|j: int| 0 <= j < i ==> s[j] != x,
    ensures
        position_of(s, x) == (if i < s.len() { i } else { -1 }),
    decreases s.len(),
{
    if s.len() > 0 {
        if i < s.len() - 1 {
            assert(s.drop_last()[i] == s[i]);
            assert forall|j: int| 0 <= j < i implies s.drop_last()[j] != x by {
                assert(s.drop_last()[j] == s[j]);
            }
            lemma_position_of(s.drop_last(), x, i);
        } else {
            assert forall|j: int| 0 <= j < s.len() - 1 implies s.drop_last()[j] != x by {
                assert(s.drop_last()[j] == s[j]);
            }
            lemma_position_of(s.drop_last(), x, s.len() - 1);
        }
    }
}

/// `position_of` is `-1` or a position holding `x`, with none before it.
pub proof fn lemma_position_of_facts<T>(s: Seq<T>, x: T)
    ensures
        -1 <= position_of(s, x) < s.len(),
        position_of(s, x) >= 0 ==> s[position_of(s, x)] == x,
        position_of(s, x) >= 0 <==> s.contains(x),
        forall|j: int| 0 <= j < position_of(s, x) ==> s[j] != x,
    decreases s.len(),
{
    if s.len() > 0 {
        lemma_position_of_facts(s.drop_last(), x);
        let k = position_of(s.drop_last(), x);
        if k >= 0 {
            assert(s[k] == s.drop_last()[k]);
            assert forall|j: int| 0 <= j < k implies s[j] != x by {
                assert(s[j] == s.drop_last()[j]);
            }
        } else {
            assert forall|j: int| 0 <= j < s.len() - 1 implies s[j] != x by {
                assert(s[j] == s.drop_last()[j]);
                if s[j] == x {
                    assert(s.drop_last().contains(x));
                }
            }
            if s.contains(x) {
                let j = choose|j: int| 0 <= j < s.len() && s[j] == x;
            }
        }
    }
}

/// Position of the first `x` in `v`.
pub fn find_index(v: &Vec<usize>, x: usize) -> (r: Option<usize>)
    ensures
        match r {
            Some(i) => i as int == position_of(v@, x) && i < v@.len(),
            None => position_of(v@, x) == -1,
        },
{
    let mut i: usize = 0;
    while i < v.len()
        invariant
            i <= v@.len(),
            forall|j: int| 0 <= j < i ==> v@[j] != x,
        decreases v.len() - i,
    {
        if v[i] == x {
            proof {
                lemma_position_of(v@, x, i as int);
            }
            return Some(i);
        }
        i = i + 1;
    }
    proof {
        lemma_position_of(v@, x, v@.len() as int);
    }
    None
}

/// Adds `x` to the set `s`.
pub fn set_insert(s: &mut Vec<usize>, x: usize)
    requires
        strictly_sorted(old(s)@),
    ensures
        strictly_sorted(final(s)@),
        final(s)@.to_set() == old(s)@.to_set().insert(x),
{
    let ghost before = s@;
    let mut p: usize = 0;
    while p < s.len() && s[p] < x
        invariant
            p <= s@.len(),
            s@ == before,
            forall|j: int| 0 <= j < p ==> s@[j] < x,
        decreases s.len() - p,
    {
        p = p + 1;
    }
    if p < s.len() && s[p] == x {
        assert(s@.to_set() =~= before.to_set().insert(x)) by {
            assert(before.contains(x)) by {
                assert(before[p as int] == x);
            }
        }
        return;
    }
    s.insert(p, x);
    proof {
        let after = s@;
        assert(after =~= before.take(p as int).push(x) + before.skip(p as int));
        assert forall|i: int, j: int| 0 <= i < j < after.len() implies after[i] < after[j] by {
            if j < p {
                assert(after[i] == before[i] && after[j] == before[j]);
            } else if j == p {
                assert(after[i] == before[i]);
            } else if i == p {
                assert(after[j] == before[j - 1]);
                assert(before[p as int] > x || before[p as int] == x);
                if j - 1 > p {
                    assert(before[p as int] < before[j - 1]);
                }
            } else if i < p {
                assert(after[i] == before[i] && after[j] == before[j - 1]);
            } else {
                assert(after[i] == before[i - 1] && after[j] == before[j - 1]);
            }
        }
        assert forall|y: usize| #[trigger] after.to_set().contains(y) <==> before.to_set().insert(x).contains(y) by {
            if after.contains(y) {
                let k = choose|k: int| 0 <= k < after.len() && after[k] == y;
                if k < p {
                    assert(before[k] == y);
                } else if k > p {
                    assert(before[k - 1] == y);
                }
            }
            if before.contains(y) {
                let k = choose|k: int| 0 <= k < before.len() && before[k] == y;
                if k < p {
                    assert(after[k] == y);
                } else {
                    assert(after[k + 1] == y);
                }
            }
            if y == x {
                assert(after[p as int] == x);
            }
        }
        assert(after.to_set() =~= before.to_set().insert(x));
    }
}

/// Removes `x` from the set `s`; whether it was there.
pub fn set_remove(s: &mut Vec<usize>, x: usize) -> (found: bool)
    requires
        strictly_sorted(old(s)@),
    ensures
        strictly_sorted(final(s)@),
        final(s)@.to_set() == old(s)@.to_set().remove(x),
        found == old(s)@.contains(x),
{
    let ghost before = s@;
    match find_index(s, x) {
        None => {
            proof {
                lemma_position_of_facts(before, x);
                assert(before.to_set() =~= before.to_set().remove(x));
            }
            false
        },
        Some(p) => {
            proof {
                lemma_position_of_facts(before, x);
            }
            s.remove(p);
            proof {
                let after = s@;
                assert(after =~= before.take(p as int) + before.skip(p + 1));
                assert forall|i: int, j: int| 0 <= i < j < after.len() implies after[i] < after[j] by {
                    if j < p {
                        assert(after[i] == before[i] && after[j] == before[j]);
                    } else if i < p {
                        assert(after[i] == before[i] && after[j] == before[j + 1]);
                    } else {
                        assert(after[i] == before[i + 1] && after[j] == before[j + 1]);
                    }
                }
                assert forall|y: usize| #[trigger] after.to_set().contains(y) <==> before.to_set().remove(x).contains(y) by {
                    if after.contains(y) {
                        let k = choose|k: int| 0 <= k < after.len() && after[k] == y;
                        if k < p {
                            assert(before[k] == y);
                            assert(before[k] < before[p as int]);
                        } else {
                            assert(before[k + 1] == y);
                            assert(before[p as int] < before[k + 1]);
                        }
                    }
                    if before.contains(y) && y != x {
                        let k = choose|k: int| 0 <= k < before.len() && before[k] == y;
                        if k < p {
                            assert(after[k] == y);
                        } else {
                            assert(k != p);
                            assert(after[k - 1] == y);
                        }
                    }
                }
                assert(after.to_set() =~= before.to_set().remove(x));
            }
            true
        },
    }
}

/// The set of the indices in `v`.
pub fn set_of(v: &[usize]) -> (s: Vec<usize>)
    ensures
        strictly_sorted(s@),
        s@.to_set() == v@.to_set(),
{
    let mut s: Vec<usize> = Vec::new();
    let mut i: usize = 0;
    proof {
        assert(s@.to_set() =~= v@.take(0).to_set());
    }
    while i < v.len()
        invariant
            i <= v@.len(),
            strictly_sorted(s@),
            s@.to_set() == v@.take(i as int).to_set(),
        decreases v.len() - i,
    {
        set_insert(&mut s, v[i]);
        proof {
            assert(v@.take(i + 1) =~= v@.take(i as int).push(v@[i as int]));
            assert(v@.take(i + 1).to_set() =~= v@.take(i as int).to_set().insert(v@[i as int]));
        }
        i = i + 1;
    }
    proof {
        assert(v@.take(v@.len() as int) =~= v@);
    }
    s
}

} // verus!
