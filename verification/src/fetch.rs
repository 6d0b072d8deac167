//! Fetching: which remote a fetch uses when none is named, how many refs
//! git's output reports as moved, and what a finished fetch is answered.
use vstd::prelude::*;
use crate::diff::utf8_lossy;
use crate::order::{chars_lt, chars_less, lemma_chars_lt_irreflexive, lemma_chars_lt_total, lemma_chars_lt_transitive, views};
use crate::text::{
    chars_of, contains_chars, contains_run, lemma_split_on_step, push_str, split_on, trim,
    trim_chars, string_of,
};

verus! {

broadcast use vstd::seq_lib::group_seq_properties;

/// Result of a fetch: which remote it hit and how many refs it moved.
#[derive(Debug, Clone, PartialEq, Eq)]
pub struct FetchOutcome {
    pub remote: String,
    pub updated_refs: usize,
}

/// The marker git prints on every line for an updated, new or deleted ref.
pub open spec fn arrow() -> Seq<char> {
    seq![' ', '-', '>', ' ']
}

/// How many of `lines` contain `p`.
pub open spec fn lines_with(lines: Seq<Seq<char>>, p: Seq<char>) -> nat
    decreases lines.len(),
{
    if lines.len() == 0 {
        0
    } else {
        lines_with(lines.drop_last(), p) + if contains_run(lines.last(), p) { 1nat } else { 0nat }
    }
}

/// The number of lines of `output` that report a touched ref: those that
/// contain ` -> `.
pub open spec fn updated_ref_count(output: Seq<char>) -> nat {
    lines_with(split_on(output, '\n'), arrow())
}

/// Counts how many refs `git fetch`'s output reports as touched: every
/// line git prints for an updated, new or deleted ref contains ` -> `;
/// progress lines and the leading `From <url>` line never do.
pub fn count_updated_refs(output: &str) -> (r: usize)
    ensures
        r == updated_ref_count(output@),
{
    let v = chars_of(output);
    let pat = chars_of(" -> ");
    proof {
        reveal_strlit(" -> ");
        assert(pat@ =~= arrow());
        assert(v@.take(0) =~= Seq::<char>::empty());
    }
    let mut count: usize = 0;
    let mut cur: Vec<char> = Vec::new();
    let mut i: usize = 0;
    while i < v.len()
        invariant
            i <= v@.len(),
            pat@ == arrow(),
            split_on(v@.take(i as int), '\n').len() >= 1,
            cur@ == split_on(v@.take(i as int), '\n').last(),
            count == lines_with(split_on(v@.take(i as int), '\n').drop_last(), arrow()),
            count + cur@.len() <= i,
        decreases v.len() - i,
    {
        let c = v[i];
        let ghost before = split_on(v@.take(i as int), '\n');
        proof {
            lemma_split_on_step(v@, '\n', i as int);
        }
        if c == '\n' {
            let hit = contains_chars(&cur, &pat);
            proof {
                let after = before.push(Seq::<char>::empty());
                assert(after.drop_last() =~= before);
                assert(before =~= before.drop_last().push(before.last()));
                assert(before.drop_last() == before.drop_last().push(before.last()).drop_last());
            }
            if hit {
                count = count + 1;
            }
            cur = Vec::new();
            proof {
                assert(cur@ =~= Seq::<char>::empty());
            }
        } else {
            cur.push(c);
            proof {
                let after = before.update(before.len() - 1, before.last().push(c));
                assert(after.drop_last() =~= before.drop_last());
            }
        }
        i = i + 1;
    }
    let last_hit = contains_chars(&cur, &pat);
    proof {
        let segs = split_on(v@, '\n');
        assert(v@.take(v@.len() as int) =~= v@);
        assert(segs =~= segs.drop_last().push(segs.last()));
        assert(segs.drop_last() == segs.drop_last().push(segs.last()).drop_last());
        if last_hit {
            let k = choose|k: int| 0 <= k && k + arrow().len() <= cur@.len() && #[trigger] cur@.subrange(k, k + arrow().len()) == arrow();
            assert(cur@.len() >= 4);
        }
    }
    if last_hit {
        count + 1
    } else {
        count
    }
}

/// Whether `m` is one of `names` and no name sorts before it.
pub open spec fn sorts_first(names: Seq<Seq<char>>, m: Seq<char>) -> bool {
    names.contains(m) && forall|n: Seq<char>| #[trigger] names.contains(n) ==> !chars_lt(n, m)
}

/// The remote a fetch uses when none is named: `origin` if configured,
/// else the remote that sorts first; `None` when there are none.
pub open spec fn default_remote_of(names: Seq<Seq<char>>) -> Option<Seq<char>> {
    if names.contains(seq!['o', 'r', 'i', 'g', 'i', 'n']) {
        Some(seq!['o', 'r', 'i', 'g', 'i', 'n'])
    } else if names.len() == 0 {
        None
    } else {
        Some(choose|m: Seq<char>| sorts_first(names, m))
    }
}

proof fn lemma_some_name_sorts_first(names: Seq<Seq<char>>)
    requires
        names.len() > 0,
    ensures
        exists|m: Seq<char>| sorts_first(names, m),
    decreases names.len(),
{
    if names.len() == 1 {
        let m = names[0];
        lemma_chars_lt_irreflexive(m);
        assert forall|n: Seq<char>| #[trigger] names.contains(n) implies !chars_lt(n, m) by {
            let j = choose|j: int| 0 <= j < names.len() && names[j] == n;
        }
        assert(names.contains(m)) by {
            assert(names[0] == m);
        }
        assert(sorts_first(names, m));
    } else {
        let init = names.drop_last();
        lemma_some_name_sorts_first(init);
        let m0 = choose|m: Seq<char>| sorts_first(init, m);
        let x = names.last();
        lemma_chars_lt_total(x, m0);
        lemma_chars_lt_irreflexive(x);
        assert(names =~= init.push(x));
        if chars_lt(x, m0) {
            assert forall|n: Seq<char>| #[trigger] names.contains(n) implies !chars_lt(n, x) by {
                if n != x {
                    let j = choose|j: int| 0 <= j < names.len() && names[j] == n;
                    assert(init[j] == n);
                    assert(init.contains(n));
                    if chars_lt(n, x) {
                        lemma_chars_lt_transitive(n, x, m0);
                    }
                }
            }
            assert(names[names.len() - 1] == x);
            assert(sorts_first(names, x));
        } else {
            assert forall|n: Seq<char>| #[trigger] names.contains(n) implies !chars_lt(n, m0) by {
                if n != x {
                    let j = choose|j: int| 0 <= j < names.len() && names[j] == n;
                    assert(init[j] == n);
                    assert(init.contains(n));
                }
            }
            let k = choose|k: int| 0 <= k < init.len() && init[k] == m0;
            assert(names[k] == m0);
            assert(sorts_first(names, m0));
        }
    }
}

/// Without an `origin`, the default remote of a non-empty list is the one
/// name in it that no other name sorts before.
pub proof fn law_default_remote_sorts_first(names: Seq<Seq<char>>)
    requires
        names.len() > 0,
        !names.contains(seq!['o', 'r', 'i', 'g', 'i', 'n']),
    ensures
        default_remote_of(names) matches Some(m) && sorts_first(names, m)
            && forall|m2: Seq<char>| #[trigger] sorts_first(names, m2) ==> m2 == m,
{
    lemma_some_name_sorts_first(names);
    let m = default_remote_of(names)->0;
    assert(sorts_first(names, m));
    assert forall|m2: Seq<char>| #[trigger] sorts_first(names, m2) implies m2 == m by {
        assert(names.contains(m2) && names.contains(m));
        lemma_chars_lt_total(m2, m);
    }
}

/// The error of a repository without remotes.
pub open spec fn no_remotes_message() -> Seq<char> {
    "this repository has no configured remotes"@
}

/// Picks the remote a fetch uses when the caller names none, from the
/// names of the configured remotes: `origin` if configured, else whichever
/// sorts first alphabetically; an error saying so when there are none.
pub fn default_remote_name(names: &Vec<String>) -> (r: Result<String, String>)
    ensures
        match r {
            Ok(n) => default_remote_of(views(names@)) == Some(n@),
            Err(e) => default_remote_of(views(names@)).is_none() && e@ == no_remotes_message(),
        },
{
    let ghost nv = views(names@);
    let origin = "origin".to_owned();
    proof {
        reveal_strlit("origin");
        assert(origin@ =~= seq!['o', 'r', 'i', 'g', 'i', 'n']);
    }
    if crate::text::contains_string(names, &origin) {
        return Ok(origin);
    }
    if names.len() == 0 {
        proof {
            assert(nv.len() == 0);
        }
        return Err("this repository has no configured remotes".to_owned());
    }
    let mut best: usize = 0;
    let mut best_chars = chars_of(names[0].as_str());
    let mut i: usize = 1;
    proof {
        lemma_chars_lt_irreflexive(nv[0]);
    }
    while i < names.len()
        invariant
            1 <= i <= names@.len(),
            nv == views(names@),
            best < i,
            best_chars@ == nv[best as int],
            forall|j: int| 0 <= j < i ==> !chars_lt(#[trigger] nv[j], nv[best as int]),
        decreases names.len() - i,
    {
        let c = chars_of(names[i].as_str());
        proof {
            assert(nv[i as int] == names@[i as int]@);
        }
        if chars_less(&c, &best_chars) {
            proof {
                assert forall|j: int| 0 <= j <= i implies !chars_lt(#[trigger] nv[j], nv[i as int]) by {
                    lemma_chars_lt_total(nv[j], nv[i as int]);
                    if j < i && chars_lt(nv[j], nv[i as int]) {
                        lemma_chars_lt_transitive(nv[j], nv[i as int], nv[best as int]);
                    }
                }
            }
            best = i;
            best_chars = c;
        }
        i = i + 1;
    }
    let m = names[best].clone();
    proof {
        let mv = nv[best as int];
        assert(m@ == mv);
        assert(nv.contains(mv));
        assert forall|n: Seq<char>| #[trigger] nv.contains(n) implies !chars_lt(n, mv) by {
            let j = choose|j: int| 0 <= j < nv.len() && nv[j] == n;
        }
        assert(sorts_first(nv, mv));
        let w = choose|w: Seq<char>| sorts_first(nv, w);
        assert(!chars_lt(w, mv) && !chars_lt(mv, w));
        lemma_chars_lt_total(w, mv);
    }
    Ok(m)
}

/// What a finished `git fetch --prune <remote>` is answered, from its exit
/// (`success`, and `status`, the exit status as text) and its output
/// streams: the count of touched refs on success; otherwise the trimmed
/// combined output, or, when that is empty, that git exited with `status`.
pub open spec fn fetch_result_of(
    remote: Seq<char>,
    success: bool,
    status: Seq<char>,
    stdout: Seq<u8>,
    stderr: Seq<u8>,
) -> Result<(Seq<char>, nat), Seq<char>> {
    let combined = utf8_lossy(stdout) + utf8_lossy(stderr);
    if !success {
        let trimmed = trim(combined);
        if trimmed.len() == 0 {
            Err("git fetch exited with "@ + status)
        } else {
            Err(trimmed)
        }
    } else {
        Ok((remote, updated_ref_count(combined)))
    }
}

/// Decides what a finished fetch of `remote` is answered; see
/// [`fetch_result_of`].
pub fn fetch_result(
    remote: String,
    success: bool,
    status: &str,
    stdout: &Vec<u8>,
    stderr: &Vec<u8>,
) -> (r: Result<FetchOutcome, String>)
    ensures
        match r {
            Ok(o) => fetch_result_of(remote@, success, status@, stdout@, stderr@) == Ok::<(Seq<char>, nat), Seq<char>>((o.remote@, o.updated_refs as nat)),
            Err(e) => fetch_result_of(remote@, success, status@, stdout@, stderr@) == Err::<(Seq<char>, nat), Seq<char>>(e@),
        },
{
    let mut combined = crate::diff::decode_utf8_lossy(stdout);
    let err_text = crate::diff::decode_utf8_lossy(stderr);
    push_str(&mut combined, err_text.as_str());
    if !success {
        let trimmed = trim_chars(&chars_of(combined.as_str()));
        if trimmed.len() == 0 {
            let mut msg = "git fetch exited with ".to_owned();
            push_str(&mut msg, status);
            return Err(msg);
        }
        return Err(string_of(&trimmed));
    }
    let n = count_updated_refs(combined.as_str());
    Ok(FetchOutcome { remote, updated_refs: n })
}

} // verus!
