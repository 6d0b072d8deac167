//! Paths compared the way `std::path::Path` compares them on Unix: by
//! their components, so `/a/`, `/a` and `//a/.` name the same path while
//! `./a` and `a` do not.
use vstd::prelude::*;
use crate::order::views;
use crate::rowset::{lemma_position_of, position_of};
use crate::text::{chars_of, lemma_split_on_step, split_on};

verus! {

broadcast use vstd::seq_lib::group_seq_properties;

/// Whether a piece between separators names a component: neither empty
/// (a doubled or trailing `/`) nor `.` (the current directory).
pub open spec fn names_a_component(piece: Seq<char>) -> bool {
    piece.len() > 0 && piece != seq!['.']
}

/// The pieces of `pieces` that name a component, in order.
pub open spec fn kept_pieces(pieces: Seq<Seq<char>>) -> Seq<Seq<char>>
    decreases pieces.len(),
{
    if pieces.len() == 0 {
        Seq::empty()
    } else if names_a_component(pieces.last()) {
        kept_pieces(pieces.drop_last()).push(pieces.last())
    } else {
        kept_pieces(pieces.drop_last())
    }
}

/// The component a path starts with besides its named ones: the root `/`
/// for an absolute path, the current directory `.` for a relative path
/// that is `.` or starts with `./`, and none otherwise.
pub open spec fn leading_component(p: Seq<char>) -> Seq<Seq<char>> {
    if p.len() > 0 && p[0] == '/' {
        seq![seq!['/']]
    } else if p.len() > 0 && p[0] == '.' && (p.len() == 1 || p[1] == '/') {
        seq![seq!['.']]
    } else {
        Seq::empty()
    }
}

/// The components of `p` (`Path::components`), each as its text: the
/// leading component, then every piece between `/` that names one.
pub open spec fn path_components(p: Seq<char>) -> Seq<Seq<char>> {
    leading_component(p) + kept_pieces(split_on(p, '/'))
}

/// Whether `a` and `b` name the same path (`Path`'s `==`).
pub open spec fn same_path(a: Seq<char>, b: Seq<char>) -> bool {
    path_components(a) == path_components(b)
}

/// Each path of `paths` by its components, the form `same_path` compares.
pub open spec fn path_keys(paths: Seq<Seq<char>>) -> Seq<Seq<Seq<char>>> {
    paths.map_values(|p: Seq<char>| path_components(p))
}

fn names_component(piece: &Vec<char>) -> (r: bool)
    ensures
        r == names_a_component(piece@),
{
    let dot_alone = piece.len() == 1 && piece[0] == '.';
    proof {
        if piece@.len() == 1 && piece@[0] == '.' {
            assert(piece@ =~= seq!['.']);
        }
    }
    piece.len() > 0 && !dot_alone
}

/// The components of `p`; see [`path_components`].
pub fn path_components_of(p: &str) -> (r: Vec<Vec<char>>)
    ensures
        views(r@) == path_components(p@),
{
    let v = chars_of(p);
    let mut out: Vec<Vec<char>> = Vec::new();
    if v.len() > 0 && v[0] == '/' {
        let mut root: Vec<char> = Vec::new();
        root.push('/');
        out.push(root);
    } else if v.len() > 0 && v[0] == '.' && (v.len() == 1 || v[1] == '/') {
        let mut cur_dir: Vec<char> = Vec::new();
        cur_dir.push('.');
        out.push(cur_dir);
    }
    let ghost lead = views(out@);
    assert(lead =~= leading_component(p@));
    let mut cur: Vec<char> = Vec::new();
    let mut i: usize = 0;
    proof {
        assert(v@.take(0) =~= Seq::<char>::empty());
        assert(cur@ =~= Seq::<char>::empty());
        assert(split_on(v@.take(0), '/').drop_last() =~= Seq::<Seq<char>>::empty());
    }
    while i < v.len()
        invariant
            i <= v@.len(),
            v@ == p@,
            lead == leading_component(p@),
            split_on(v@.take(i as int), '/').len() >= 1,
            cur@ == split_on(v@.take(i as int), '/').last(),
            views(out@) == lead + kept_pieces(split_on(v@.take(i as int), '/').drop_last()),
        decreases v.len() - i,
    {
        let c = v[i];
        let ghost before = split_on(v@.take(i as int), '/');
        proof {
            lemma_split_on_step(v@, '/', i as int);
        }
        if c == '/' {
            let ghost out_before = views(out@);
            let ghost cur_v = cur@;
            let keep = names_component(&cur);
            if keep {
                out.push(cur);
            }
            cur = Vec::new();
            proof {
                if keep {
                    assert(views(out@) =~= out_before.push(cur_v));
                } else {
                    assert(views(out@) =~= out_before);
                }
                let after = before.push(Seq::<char>::empty());
                assert(after.drop_last() =~= before);
                assert(before =~= before.drop_last().push(before.last()));
                assert(kept_pieces(before) == if names_a_component(before.last()) {
                    kept_pieces(before.drop_last()).push(before.last())
                } else {
                    kept_pieces(before.drop_last())
                });
                assert(views(out@) =~= lead + kept_pieces(after.drop_last()));
                assert(cur@ =~= Seq::<char>::empty());
            }
        } else {
            cur.push(c);
            proof {
                let after = before.update(before.len() - 1, before.last().push(c));
                assert(after.drop_last() =~= before.drop_last());
            }
        }
        i = i + 1;
    }
    let ghost all = split_on(v@, '/');
    proof {
        assert(v@.take(v@.len() as int) =~= v@);
        assert(all =~= all.drop_last().push(all.last()));
    }
    let ghost out_before = views(out@);
    let ghost cur_v = cur@;
    let keep = names_component(&cur);
    if keep {
        out.push(cur);
    }
    proof {
        if keep {
            assert(views(out@) =~= out_before.push(cur_v));
        } else {
            assert(views(out@) =~= out_before);
        }
        assert(kept_pieces(all) == if names_a_component(all.last()) {
            kept_pieces(all.drop_last()).push(all.last())
        } else {
            kept_pieces(all.drop_last())
        });
        assert(views(out@) =~= lead + kept_pieces(all));
    }
    out
}

/// Whether two component lists are equal.
pub fn same_components(a: &Vec<Vec<char>>, b: &Vec<Vec<char>>) -> (r: bool)
    ensures
        r == (views(a@) == views(b@)),
{
    if a.len() != b.len() {
        proof {
            assert(views(a@).len() != views(b@).len());
        }
        return false;
    }
    let mut i: usize = 0;
    while i < a.len()
        invariant
            a@.len() == b@.len(),
            i <= a@.len(),
            forall|j: int| 0 <= j < i ==> a@[j]@ == b@[j]@,
        decreases a.len() - i,
    {
        if !crate::remote_url::chars_eq(&a[i], &b[i]) {
            proof {
                assert(views(a@)[i as int] != views(b@)[i as int]);
            }
            return false;
        }
        i = i + 1;
    }
    assert(views(a@) =~= views(b@));
    true
}

/// Whether `a` and `b` name the same path; see [`same_path`].
pub fn paths_equal(a: &str, b: &str) -> (r: bool)
    ensures
        r == same_path(a@, b@),
{
    let ca = path_components_of(a);
    let cb = path_components_of(b);
    same_components(&ca, &cb)
}

/// Whether the path `p` is the path whose components are `key`.
pub fn path_has_components(p: &str, key: &Vec<Vec<char>>) -> (r: bool)
    ensures
        r == (path_components(p@) == views(key@)),
{
    let c = path_components_of(p);
    same_components(&c, key)
}

/// The first row of `paths` that names the same path as `p`, or `-1`.
pub open spec fn path_row(paths: Seq<Seq<char>>, p: Seq<char>) -> int {
    position_of(path_keys(paths), path_components(p))
}

/// The first row whose path is `p`, compared as paths; see [`path_row`].
pub fn find_path(paths: &Vec<String>, p: &str) -> (r: Option<usize>)
    ensures
        match r {
            Some(i) => i as int == path_row(views(paths@), p@),
            None => path_row(views(paths@), p@) < 0,
        },
{
    let key = path_components_of(p);
    let ghost kv = path_keys(views(paths@));
    let mut i: usize = 0;
    while i < paths.len()
        invariant
            i <= paths@.len(),
            kv == path_keys(views(paths@)),
            views(key@) == path_components(p@),
            forall|j: int| 0 <= j < i ==> kv[j] != path_components(p@),
        decreases paths.len() - i,
    {
        proof {
            assert(kv[i as int] == path_components(paths@[i as int]@));
        }
        if path_has_components(paths[i].as_str(), &key) {
            proof {
                lemma_position_of(kv, path_components(p@), i as int);
            }
            return Some(i);
        }
        i = i + 1;
    }
    proof {
        lemma_position_of(kv, path_components(p@), kv.len() as int);
    }
    None
}

} // verus!
