//! Text shaping for the detail panel: fitting a long path, branch name or
//! commit subject into a budget of grapheme clusters with an ellipsis, and
//! the remote named by an upstream shorthand.
//!
//! Texts are cut between extended grapheme clusters, never inside one, so
//! a base character keeps its combining marks and a multi-scalar emoji
//! stays whole.
use vstd::prelude::*;
use unicode_segmentation::UnicodeSegmentation;
use crate::order::views;
use crate::text::{first_index, lemma_first_index, push_char, push_str};

verus! {

broadcast use vstd::seq_lib::group_seq_properties;

/// The extended grapheme clusters of `s`, in order, as
/// `UnicodeSegmentation::graphemes(s, true)` yields them.
pub uninterp spec fn extended_graphemes(s: Seq<char>) -> Seq<Seq<char>>;

/// `UnicodeSegmentation::graphemes(s, true)`, each cluster as an owned
/// string. The clusters are consecutive non-empty slices of `s`, so they
/// join back to `s`.
#[verifier::external_body]
fn grapheme_clusters(s: &str) -> (r: Vec<String>)
    ensures
        views(r@) == extended_graphemes(s@),
        views(r@).flatten() == s@,
        forall|i: int| 0 <= i < r@.len() ==> #[trigger] r@[i]@.len() > 0,
{
    s.graphemes(true).map(str::to_owned).collect()
}

/// The ellipsis marking cut text.
pub open spec fn ellipsis() -> Seq<char> {
    seq!['\u{2026}']
}

/// `max` less one, but not below zero: the clusters that fit beside the
/// ellipsis.
pub open spec fn room_beside_ellipsis(max: nat) -> nat {
    if max == 0 {
        0
    } else {
        (max - 1) as nat
    }
}

/// `s` (split into `clusters`) fitted into `max` clusters by keeping its
/// start: unchanged when it fits, else its first `max - 1` clusters and an
/// ellipsis.
pub open spec fn end_ellipsized(s: Seq<char>, clusters: Seq<Seq<char>>, max: nat) -> Seq<char> {
    if clusters.len() <= max {
        s
    } else {
        clusters.take(room_beside_ellipsis(max) as int).flatten() + ellipsis()
    }
}

/// `s` (split into `clusters`) fitted into `max` clusters by keeping its
/// end: unchanged when it fits, else an ellipsis and its last `max - 1`
/// clusters.
pub open spec fn start_ellipsized(s: Seq<char>, clusters: Seq<Seq<char>>, max: nat) -> Seq<char> {
    if clusters.len() <= max {
        s
    } else {
        ellipsis() + clusters.skip(clusters.len() - room_beside_ellipsis(max)).flatten()
    }
}

proof fn lemma_flatten_push(gs: Seq<Seq<char>>, g: Seq<char>)
    ensures
        gs.push(g).flatten() == gs.flatten() + g,
{
    vstd::seq_lib::lemma_flatten_concat(gs, seq![g]);
    assert(gs.push(g) =~= gs + seq![g]);
    seq![g].lemma_flatten_one_element();
}

/// Joins `clusters[from..to]`.
fn join_range(clusters: &Vec<String>, from: usize, to: usize, out: &mut String)
    requires
        from <= to <= clusters@.len(),
    ensures
        final(out)@ == old(out)@ + views(clusters@).subrange(from as int, to as int).flatten(),
{
    let ghost start = out@;
    let ghost cv = views(clusters@);
    let mut k = from;
    proof {
        assert(cv.subrange(from as int, from as int) =~= Seq::<Seq<char>>::empty());
        assert(out@ =~= start + cv.subrange(from as int, from as int).flatten());
    }
    while k < to
        invariant
            from <= k <= to <= clusters@.len(),
            cv == views(clusters@),
            out@ == start + cv.subrange(from as int, k as int).flatten(),
        decreases to - k,
    {
        push_str(out, clusters[k].as_str());
        proof {
            assert(cv.subrange(from as int, k + 1) =~= cv.subrange(from as int, k as int).push(cv[k as int]));
            lemma_flatten_push(cv.subrange(from as int, k as int), cv[k as int]);
            assert(cv[k as int] == clusters@[k as int]@);
        }
        k = k + 1;
        proof {
            assert(out@ =~= start + cv.subrange(from as int, k as int).flatten());
        }
    }
}

/// Fits `s`, given as its grapheme `clusters`, into `max_chars` clusters,
/// keeping its start and ending it with an ellipsis when it is cut.
pub fn ellipsize_end(s: &str, clusters: &Vec<String>, max_chars: usize) -> (r: String)
    ensures
        r@ == end_ellipsized(s@, views(clusters@), max_chars as nat),
{
    if clusters.len() <= max_chars {
        return s.to_owned();
    }
    let head_len: usize = if max_chars == 0 { 0 } else { max_chars - 1 };
    let mut out = String::new();
    join_range(clusters, 0, head_len, &mut out);
    push_char(&mut out, '\u{2026}');
    proof {
        assert(views(clusters@).subrange(0, head_len as int) =~= views(clusters@).take(head_len as int));
        assert(out@ =~= views(clusters@).take(head_len as int).flatten() + ellipsis());
    }
    out
}

/// Fits `s`, given as its grapheme `clusters`, into `max_chars` clusters,
/// keeping its end and starting it with an ellipsis when it is cut.
pub fn ellipsize_start(s: &str, clusters: &Vec<String>, max_chars: usize) -> (r: String)
    ensures
        r@ == start_ellipsized(s@, views(clusters@), max_chars as nat),
{
    if clusters.len() <= max_chars {
        return s.to_owned();
    }
    let tail_len: usize = if max_chars == 0 { 0 } else { max_chars - 1 };
    let from = clusters.len() - tail_len;
    let mut out = String::new();
    push_char(&mut out, '\u{2026}');
    join_range(clusters, from, clusters.len(), &mut out);
    proof {
        let cv = views(clusters@);
        assert(cv.subrange(from as int, cv.len() as int) =~= cv.skip(from as int));
        assert(out@ =~= ellipsis() + cv.skip(from as int).flatten());
    }
    out
}

/// `r` is made of whole `clusters` and ellipses: at most `max` pieces
/// (one for a budget of zero), each a cluster of the source or the
/// ellipsis.
pub open spec fn whole_cluster_fit(r: Seq<char>, clusters: Seq<Seq<char>>, max: nat) -> bool {
    exists|parts: Seq<Seq<char>>|
        parts.len() <= (if max == 0 { 1 } else { max })
            && #[trigger] parts.flatten() == r
            && forall|i: int| 0 <= i < parts.len() ==> parts[i] == ellipsis() || clusters.contains(#[trigger] parts[i])
}

/// The clusters of `s` join back to `s`, and none is empty.
pub open spec fn segments(s: Seq<char>, clusters: Seq<Seq<char>>) -> bool {
    clusters.flatten() == s && forall|i: int| 0 <= i < clusters.len() ==> #[trigger] clusters[i].len() > 0
}

/// Condenses a long path to `max_chars` grapheme clusters, keeping the
/// readable tail behind a leading ellipsis.
pub fn truncate_path_tail(path: &str, max_chars: usize) -> (r: String)
    ensures
        r@ == start_ellipsized(path@, extended_graphemes(path@), max_chars as nat),
        segments(path@, extended_graphemes(path@)),
        whole_cluster_fit(r@, extended_graphemes(path@), max_chars as nat),
{
    let clusters = grapheme_clusters(path);
    proof {
        assert forall|i: int| 0 <= i < extended_graphemes(path@).len() implies #[trigger] extended_graphemes(path@)[i].len() > 0 by {
            assert(extended_graphemes(path@)[i] == clusters@[i]@);
        }
        law_start_fit_keeps_whole_clusters(path@, extended_graphemes(path@), max_chars as nat);
    }
    ellipsize_start(path, &clusters, max_chars)
}

/// Condenses a long name or subject to `max_chars` grapheme clusters,
/// keeping its start before a trailing ellipsis.
pub fn truncate_tail(s: &str, max_chars: usize) -> (r: String)
    ensures
        r@ == end_ellipsized(s@, extended_graphemes(s@), max_chars as nat),
        segments(s@, extended_graphemes(s@)),
        whole_cluster_fit(r@, extended_graphemes(s@), max_chars as nat),
{
    let clusters = grapheme_clusters(s);
    proof {
        assert forall|i: int| 0 <= i < extended_graphemes(s@).len() implies #[trigger] extended_graphemes(s@)[i].len() > 0 by {
            assert(extended_graphemes(s@)[i] == clusters@[i]@);
        }
        law_end_fit_keeps_whole_clusters(s@, extended_graphemes(s@), max_chars as nat);
    }
    ellipsize_end(s, &clusters, max_chars)
}

/// A fitted text is made of whole clusters of the source, plus the
/// ellipsis when it was cut, and of no more pieces than the budget allows
/// (one, the ellipsis alone, for a budget of zero): the start-keeping fit.
pub proof fn law_end_fit_keeps_whole_clusters(s: Seq<char>, clusters: Seq<Seq<char>>, max: nat)
    requires
        clusters.flatten() == s,
    ensures
        whole_cluster_fit(end_ellipsized(s, clusters, max), clusters, max),
{
    if clusters.len() <= max {
        assert forall|i: int| 0 <= i < clusters.len() implies clusters[i] == ellipsis() || clusters.contains(#[trigger] clusters[i]) by {}
        assert(clusters.flatten() == end_ellipsized(s, clusters, max));
    } else {
        let head = clusters.take(room_beside_ellipsis(max) as int);
        let parts = head.push(ellipsis());
        lemma_flatten_push(head, ellipsis());
        assert forall|i: int| 0 <= i < parts.len() implies parts[i] == ellipsis() || clusters.contains(#[trigger] parts[i]) by {
            if i < head.len() {
                assert(parts[i] == clusters[i]);
            }
        }
        assert(parts.flatten() == end_ellipsized(s, clusters, max));
    }
}

/// The same for the end-keeping fit of paths.
pub proof fn law_start_fit_keeps_whole_clusters(s: Seq<char>, clusters: Seq<Seq<char>>, max: nat)
    requires
        clusters.flatten() == s,
    ensures
        whole_cluster_fit(start_ellipsized(s, clusters, max), clusters, max),
{
    if clusters.len() <= max {
        assert forall|i: int| 0 <= i < clusters.len() implies clusters[i] == ellipsis() || clusters.contains(#[trigger] clusters[i]) by {}
        assert(clusters.flatten() == start_ellipsized(s, clusters, max));
    } else {
        let from = clusters.len() - room_beside_ellipsis(max);
        let tail = clusters.skip(from);
        let parts = seq![ellipsis()] + tail;
        vstd::seq_lib::lemma_flatten_concat(seq![ellipsis()], tail);
        seq![ellipsis()].lemma_flatten_one_element();
        assert forall|i: int| 0 <= i < parts.len() implies parts[i] == ellipsis() || clusters.contains(#[trigger] parts[i]) by {
            if i > 0 {
                assert(parts[i] == clusters[from + i - 1]);
            }
        }
        assert(parts.flatten() == start_ellipsized(s, clusters, max));
    }
}

/// The remote named by an upstream shorthand: the text before its first
/// `/` (`origin/main` names `origin`); `None` without an upstream or a `/`.
pub open spec fn remote_of_upstream(upstream: Option<Seq<char>>) -> Option<Seq<char>> {
    match upstream {
        Some(u) => if first_index(u, '/') >= 0 {
            Some(u.take(first_index(u, '/')))
        } else {
            None
        },
        None => None,
    }
}

/// The remote name of an upstream shorthand: the segment before the first
/// `/` (`"origin/main"` names `"origin"`).
pub fn remote_name(upstream: Option<&str>) -> (r: Option<&str>)
    ensures
        match r {
            Some(name) => remote_of_upstream(crate::refs::str_opt(upstream)) == Some(name@),
            None => remote_of_upstream(crate::refs::str_opt(upstream)).is_none(),
        },
{
    match upstream {
        None => None,
        Some(u) => {
            let n = u.unicode_len();
            let mut i: usize = 0;
            while i < n
                invariant
                    n == u@.len(),
                    upstream == Some(u),
                    i <= n,
                    forall|j: int| 0 <= j < i ==> u@[j] != '/',
                decreases n - i,
            {
                if u.get_char(i) == '/' {
                    proof {
                        lemma_first_index(u@, '/', i as int);
                    }
                    let name = u.substring_char(0, i);
                    assert(name@ =~= u@.take(i as int));
                    return Some(name);
                }
                i = i + 1;
            }
            proof {
                lemma_first_index(u@, '/', n as int);
            }
            None
        },
    }
}

/// A directory shown relative to the home directory: `~` and the rest when
/// `home` is set, non-empty and a prefix of `dir`; `dir` itself otherwise.
pub open spec fn home_relative(dir: Seq<char>, home: Option<Seq<char>>) -> Seq<char> {
    match home {
        Some(h) => if h.len() > 0 && h.is_prefix_of(dir) {
            seq!['~'] + dir.skip(h.len() as int)
        } else {
            dir
        },
        None => dir,
    }
}

/// A sidebar repository's secondary line: the directory holding it, home
/// shown as `~`, condensed to `max_chars` clusters keeping its tail.
pub fn parent_label(parent: &str, home: Option<&str>, max_chars: usize) -> (r: String)
    ensures
        r@ == start_ellipsized(
            home_relative(parent@, crate::refs::str_opt(home)),
            extended_graphemes(home_relative(parent@, crate::refs::str_opt(home))),
            max_chars as nat,
        ),
        segments(
            home_relative(parent@, crate::refs::str_opt(home)),
            extended_graphemes(home_relative(parent@, crate::refs::str_opt(home))),
        ),
        whole_cluster_fit(
            r@,
            extended_graphemes(home_relative(parent@, crate::refs::str_opt(home))),
            max_chars as nat,
        ),
{
    let shown: String = match home {
        Some(h) => {
            let pv = crate::text::chars_of(parent);
            let hv = crate::text::chars_of(h);
            if hv.len() > 0 && crate::text::starts_with(&pv, &hv) {
                let rest = crate::text::slice_chars(&pv, hv.len(), pv.len());
                let mut s = String::new();
                push_char(&mut s, '~');
                crate::text::push_chars(&mut s, &rest);
                proof {
                    assert(rest@ =~= parent@.skip(h@.len() as int));
                    assert(s@ =~= seq!['~'] + parent@.skip(h@.len() as int));
                }
                s
            } else {
                parent.to_owned()
            }
        },
        None => parent.to_owned(),
    };
    truncate_path_tail(shown.as_str(), max_chars)
}

} // verus!
