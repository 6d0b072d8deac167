//! Character-level string helpers shared by the formatting and parsing code.
//!
//! Strings are worked on as `Vec<char>` (their view is the same `Seq<char>`
//! as the `String`'s), which keeps every slice and search below verified.
use vstd::prelude::*;

verus! {

// ---------------------------------------------------------------------
// Building strings
// ---------------------------------------------------------------------

/// Appends one character to `s` (`String::push`).
#[verifier::external_body]
pub(crate) fn push_char(s: &mut String, c: char)
    ensures
        final(s)@ == old(s)@.push(c),
{
    s.push(c);
}

/// Appends a string slice to `s`.
pub(crate) fn push_str(s: &mut String, t: &str)
    ensures
        final(s)@ == old(s)@ + t@,
{
    s.append(t);
}

/// The characters of `s`, in order.
pub fn chars_of(s: &str) -> (v: Vec<char>)
    ensures
        v@ == s@,
{
    let n = s.unicode_len();
    let mut v: Vec<char> = Vec::new();
    let mut i: usize = 0;
    while i < n
        invariant
            n == s@.len(),
            i <= n,
            v@ == s@.take(i as int),
        decreases n - i,
    {
        let c = s.get_char(i);
        v.push(c);
        i = i + 1;
        assert(v@ =~= s@.take(i as int));
    }
    assert(v@ =~= s@);
    v
}

/// Appends every character of `v` to `s`.
pub fn push_chars(s: &mut String, v: &Vec<char>)
    ensures
        final(s)@ == old(s)@ + v@,
{
    let mut i: usize = 0;
    let ghost start = s@;
    while i < v.len()
        invariant
            i <= v.len(),
            s@ == start + v@.take(i as int),
        decreases v.len() - i,
    {
        push_char(s, v[i]);
        i = i + 1;
        assert(s@ =~= start + v@.take(i as int));
    }
    assert(v@.take(v.len() as int) =~= v@);
}

/// A `String` holding exactly the characters of `v`.
pub fn string_of(v: &Vec<char>) -> (s: String)
    ensures
        s@ == v@,
{
    let mut s = String::new();
    push_chars(&mut s, v);
    assert(s@ =~= v@);
    s
}

// ---------------------------------------------------------------------
// Decimal numbers
// ---------------------------------------------------------------------

/// The ASCII digit for `d < 10`.
pub open spec fn digit_char(d: nat) -> char {
    ((d + 48) as u32) as char
}

/// Decimal rendering of a natural number, most significant digit first.
pub open spec fn decimal(n: nat) -> Seq<char>
    decreases n,
{
    if n < 10 {
        seq![digit_char(n)]
    } else {
        decimal(n / 10).push(digit_char(n % 10))
    }
}

fn digit(d: u64) -> (c: char)
    requires
        d < 10,
    ensures
        c == digit_char(d as nat),
{
    if d == 0 { '0' } else if d == 1 { '1' } else if d == 2 { '2' } else if d == 3 { '3' }
    else if d == 4 { '4' } else if d == 5 { '5' } else if d == 6 { '6' } else if d == 7 { '7' }
    else if d == 8 { '8' } else { '9' }
}

/// Appends `n` in decimal, as `format!("{n}")` renders it.
pub fn push_decimal(s: &mut String, n: u64)
    ensures
        final(s)@ == old(s)@ + decimal(n as nat),
    decreases n,
{
    if n < 10 {
        push_char(s, digit(n));
    } else {
        push_decimal(s, n / 10);
        push_char(s, digit(n % 10));
    }
}

// ---------------------------------------------------------------------
// Searching
// ---------------------------------------------------------------------

/// Index of the first `c` in `s`, or `-1` when `s` holds none.
pub open spec fn first_index(s: Seq<char>, c: char) -> int
    decreases s.len(),
{
    if s.len() == 0 {
        -1
    } else if s[0] == c {
        0
    } else {
        let r = first_index(s.drop_first(), c);
        if r < 0 { -1 } else { r + 1 }
    }
}

/// `first_index` is the least position holding `c`.
pub proof fn lemma_first_index(s: Seq<char>, c: char, i: int)
    requires
        0 <= i <= s.len(),
        i < s.len() ==> s[i] == c,
        forall|j: int| 0 <= j < i ==> s[j] != c,
    ensures
        first_index(s, c) == (if i < s.len() { i } else { -1 }),
    decreases s.len(),
{
    if s.len() > 0 && i > 0 {
        assert forall|j: int| 0 <= j < i - 1 implies s.drop_first()[j] != c by {
            assert(s.drop_first()[j] == s[j + 1]);
        }
        lemma_first_index(s.drop_first(), c, i - 1);
    }
}

/// The text before and after the first `c` in `s` (`str::split_once`).
pub open spec fn split_once(s: Seq<char>, c: char) -> Option<(Seq<char>, Seq<char>)> {
    let i = first_index(s, c);
    if i < 0 {
        None
    } else {
        Some((s.take(i), s.skip(i + 1)))
    }
}

/// Position of the first `c` in `v`.
pub fn find_char(v: &Vec<char>, c: char) -> (r: Option<usize>)
    ensures
        match r {
            Some(i) => i == first_index(v@, c) && i < v@.len() && v@[i as int] == c,
            None => first_index(v@, c) == -1,
        },
        first_index(v@, c) >= -1,
{
    let mut i: usize = 0;
    while i < v.len()
        invariant
            i <= v.len(),
            forall|j: int| 0 <= j < i ==> v@[j] != c,
        decreases v.len() - i,
    {
        if v[i] == c {
            proof {
                lemma_first_index(v@, c, i as int);
            }
            return Some(i);
        }
        i = i + 1;
    }
    proof {
        lemma_first_index(v@, c, v@.len() as int);
    }
    None
}

/// Whether `v` holds `c`.
pub fn contains_char(v: &Vec<char>, c: char) -> (b: bool)
    ensures
        b == v@.contains(c),
{
    let r = find_char(v, c);
    proof {
        if v@.contains(c) {
            let k = choose|k: int| 0 <= k < v@.len() && v@[k] == c;
            if r.is_none() {
                // first_index is -1 only when no position holds `c`
                lemma_first_index_minus_one(v@, c, k);
            }
        }
    }
    r.is_some()
}

proof fn lemma_first_index_minus_one(s: Seq<char>, c: char, k: int)
    requires
        0 <= k < s.len(),
        s[k] == c,
    ensures
        first_index(s, c) >= 0,
    decreases s.len(),
{
    if k > 0 && s[0] != c {
        assert(s.drop_first()[k - 1] == s[k]);
        lemma_first_index_minus_one(s.drop_first(), c, k - 1);
    }
}

/// The characters of `v` from `i` up to `j`.
pub fn slice_chars(v: &Vec<char>, i: usize, j: usize) -> (r: Vec<char>)
    requires
        i <= j <= v@.len(),
    ensures
        r@ == v@.subrange(i as int, j as int),
{
    let mut r: Vec<char> = Vec::new();
    let mut k = i;
    while k < j
        invariant
            i <= k <= j,
            j <= v@.len(),
            r@ == v@.subrange(i as int, k as int),
        decreases j - k,
    {
        r.push(v[k]);
        k = k + 1;
        assert(r@ =~= v@.subrange(i as int, k as int));
    }
    r
}

/// `str::split_once` with a single-character pattern.
pub fn split_once_char(v: &Vec<char>, c: char) -> (r: Option<(Vec<char>, Vec<char>)>)
    ensures
        match r {
            Some((a, b)) => split_once(v@, c) == Some((a@, b@)),
            None => split_once(v@, c).is_none(),
        },
{
    match find_char(v, c) {
        Some(i) => {
            assert(i < v.len());
            let a = slice_chars(v, 0, i);
            let b = slice_chars(v, i + 1, v.len());
            assert(a@ =~= v@.take(i as int));
            assert(b@ =~= v@.skip(i + 1));
            Some((a, b))
        },
        None => None,
    }
}

/// `str::starts_with`.
pub fn starts_with(v: &Vec<char>, p: &Vec<char>) -> (b: bool)
    ensures
        b == p@.is_prefix_of(v@),
{
    if p.len() > v.len() {
        return false;
    }
    let mut i: usize = 0;
    while i < p.len()
        invariant
            p@.len() <= v@.len(),
            i <= p@.len(),
            forall|j: int| 0 <= j < i ==> p@[j] == v@[j],
        decreases p.len() - i,
    {
        if p[i] != v[i] {
            assert(p@[i as int] != v@.subrange(0, p@.len() as int)[i as int]);
            return false;
        }
        i = i + 1;
    }
    assert(p@ =~= v@.subrange(0, p@.len() as int));
    true
}

/// `str::ends_with`.
pub fn ends_with(v: &Vec<char>, p: &Vec<char>) -> (b: bool)
    ensures
        b == p@.is_suffix_of(v@),
{
    if p.len() > v.len() {
        return false;
    }
    let off = v.len() - p.len();
    let mut i: usize = 0;
    while i < p.len()
        invariant
            off + p@.len() == v@.len(),
            i <= p@.len(),
            forall|j: int| 0 <= j < i ==> p@[j] == v@[off + j],
        decreases p.len() - i,
    {
        assert(off + i < v.len());
        if p[i] != v[off + i] {
            assert(p@[i as int] != v@.subrange(off as int, v@.len() as int)[i as int]);
            return false;
        }
        i = i + 1;
    }
    assert(p@ =~= v@.subrange(off as int, v@.len() as int));
    true
}

/// `str::strip_prefix`.
pub open spec fn strip_prefix(s: Seq<char>, p: Seq<char>) -> Option<Seq<char>> {
    if p.is_prefix_of(s) {
        Some(s.skip(p.len() as int))
    } else {
        None
    }
}

/// `str::strip_suffix`.
pub open spec fn strip_suffix(s: Seq<char>, p: Seq<char>) -> Option<Seq<char>> {
    if p.is_suffix_of(s) {
        Some(s.take(s.len() - p.len()))
    } else {
        None
    }
}

pub fn strip_prefix_chars(v: &Vec<char>, p: &Vec<char>) -> (r: Option<Vec<char>>)
    ensures
        match r {
            Some(x) => strip_prefix(v@, p@) == Some(x@),
            None => strip_prefix(v@, p@).is_none(),
        },
{
    if starts_with(v, p) {
        let x = slice_chars(v, p.len(), v.len());
        assert(x@ =~= v@.skip(p@.len() as int));
        Some(x)
    } else {
        None
    }
}

pub fn strip_suffix_chars(v: &Vec<char>, p: &Vec<char>) -> (r: Option<Vec<char>>)
    ensures
        match r {
            Some(x) => strip_suffix(v@, p@) == Some(x@),
            None => strip_suffix(v@, p@).is_none(),
        },
{
    if ends_with(v, p) {
        let x = slice_chars(v, 0, v.len() - p.len());
        assert(x@ =~= v@.take(v@.len() - p@.len()));
        Some(x)
    } else {
        None
    }
}

// ---------------------------------------------------------------------
// Trimming
// ---------------------------------------------------------------------

/// Whether `c` has the Unicode `White_Space` property (PropList.txt), the
/// set `char::is_whitespace` tests: tab through carriage return, space,
/// next line, no-break space, ogham space mark, en quad through hair
/// space, line and paragraph separators, narrow no-break space, medium
/// mathematical space and ideographic space.
pub open spec fn unicode_white_space(c: char) -> bool {
    let u = c as u32;
    (0x09 <= u <= 0x0D) || u == 0x20 || u == 0x85 || u == 0xA0 || u == 0x1680
        || (0x2000 <= u <= 0x200A) || u == 0x2028 || u == 0x2029 || u == 0x202F || u == 0x205F
        || u == 0x3000
}

/// Whether `c` is Unicode white space (what `char::is_whitespace` answers).
pub fn is_whitespace(c: char) -> (b: bool)
    ensures
        b == unicode_white_space(c),
{
    let u = c as u32;
    (0x09 <= u && u <= 0x0D) || u == 0x20 || u == 0x85 || u == 0xA0 || u == 0x1680
        || (0x2000 <= u && u <= 0x200A) || u == 0x2028 || u == 0x2029 || u == 0x202F || u == 0x205F
        || u == 0x3000
}

/// `s` without the leading characters that satisfy `drop`.
pub open spec fn trim_start_by(s: Seq<char>, drop: spec_fn(char) -> bool) -> Seq<char>
    decreases s.len(),
{
    if s.len() > 0 && drop(s[0]) {
        trim_start_by(s.drop_first(), drop)
    } else {
        s
    }
}

/// `s` without the trailing characters that satisfy `drop`.
pub open spec fn trim_end_by(s: Seq<char>, drop: spec_fn(char) -> bool) -> Seq<char>
    decreases s.len(),
{
    if s.len() > 0 && drop(s.last()) {
        trim_end_by(s.drop_last(), drop)
    } else {
        s
    }
}

/// `str::trim`: both ends, Unicode white space.
pub open spec fn trim(s: Seq<char>) -> Seq<char> {
    trim_end_by(trim_start_by(s, |c: char| unicode_white_space(c)), |c: char| unicode_white_space(c))
}

/// `str::trim_matches` with a single character.
pub open spec fn trim_matches(s: Seq<char>, c: char) -> Seq<char> {
    trim_end_by(trim_start_by(s, is_char(c)), is_char(c))
}

/// The predicate "equals `c`".
pub open spec fn is_char(c: char) -> spec_fn(char) -> bool {
    |x: char| x == c
}

/// Trimming never lengthens; a non-empty result starts with a kept
/// character.
pub proof fn lemma_trim_start_facts(s: Seq<char>, drop: spec_fn(char) -> bool)
    ensures
        trim_start_by(s, drop).len() <= s.len(),
        trim_start_by(s, drop).len() > 0 ==> !drop(trim_start_by(s, drop)[0]),
        trim_start_by(s, drop) == s.skip(s.len() - trim_start_by(s, drop).len()),
    decreases s.len(),
{
    if s.len() > 0 && drop(s[0]) {
        lemma_trim_start_facts(s.drop_first(), drop);
        let r = trim_start_by(s.drop_first(), drop);
        assert(s.drop_first().skip(s.drop_first().len() - r.len()) =~= s.skip(s.len() - r.len()));
    } else {
        assert(s.skip(0) =~= s);
    }
}

/// Trimming never lengthens; a non-empty result ends with a kept
/// character, and the result is a prefix of the input.
pub proof fn lemma_trim_end_facts(s: Seq<char>, drop: spec_fn(char) -> bool)
    ensures
        trim_end_by(s, drop).len() <= s.len(),
        trim_end_by(s, drop).len() > 0 ==> !drop(trim_end_by(s, drop).last()),
        trim_end_by(s, drop) == s.take(trim_end_by(s, drop).len() as int),
    decreases s.len(),
{
    if s.len() > 0 && drop(s.last()) {
        lemma_trim_end_facts(s.drop_last(), drop);
        let r = trim_end_by(s.drop_last(), drop);
        assert(s.drop_last().take(r.len() as int) =~= s.take(r.len() as int));
    } else {
        assert(s.take(s.len() as int) =~= s);
    }
}

/// `trim_matches` never lengthens, and a non-empty result neither starts
/// nor ends with the trimmed character.
pub proof fn lemma_trim_matches_facts(s: Seq<char>, c: char)
    ensures
        trim_matches(s, c).len() <= s.len(),
        trim_matches(s, c).len() > 0 ==> trim_matches(s, c)[0] != c && trim_matches(s, c).last() != c,
{
    let t = trim_start_by(s, is_char(c));
    lemma_trim_start_facts(s, is_char(c));
    lemma_trim_end_facts(t, is_char(c));
    let r = trim_end_by(t, is_char(c));
    if r.len() > 0 {
        assert(r[0] == t[0]);
    }
}

proof fn lemma_trim_start_skip(s: Seq<char>, drop: spec_fn(char) -> bool, i: int)
    requires
        0 <= i <= s.len(),
        forall|j: int| 0 <= j < i ==> drop(s[j]),
    ensures
        trim_start_by(s, drop) == trim_start_by(s.skip(i), drop),
    decreases i,
{
    if i > 0 {
        assert(s.skip(1) =~= s.drop_first());
        assert forall|j: int| 0 <= j < i - 1 implies drop(s.drop_first()[j]) by {
            assert(s.drop_first()[j] == s[j + 1]);
        }
        lemma_trim_start_skip(s.drop_first(), drop, i - 1);
        assert(s.drop_first().skip(i - 1) =~= s.skip(i));
    } else {
        assert(s.skip(0) =~= s);
    }
}

proof fn lemma_trim_end_take(s: Seq<char>, drop: spec_fn(char) -> bool, i: int)
    requires
        0 <= i <= s.len(),
        forall|j: int| i <= j < s.len() ==> drop(s[j]),
    ensures
        trim_end_by(s, drop) == trim_end_by(s.take(i), drop),
    decreases s.len() - i,
{
    if i < s.len() {
        assert forall|j: int| i <= j < s.drop_last().len() implies drop(s.drop_last()[j]) by {
            assert(s.drop_last()[j] == s[j]);
        }
        lemma_trim_end_take(s.drop_last(), drop, i);
        assert(s.drop_last().take(i) =~= s.take(i));
    } else {
        assert(s.take(s.len() as int) =~= s);
    }
}

/// `str::trim`.
pub fn trim_chars(v: &Vec<char>) -> (r: Vec<char>)
    ensures
        r@ == trim(v@),
{
    let ghost ws = |c: char| unicode_white_space(c);
    let mut a: usize = 0;
    while a < v.len() && is_whitespace(v[a])
        invariant
            a <= v@.len(),
            forall|j: int| 0 <= j < a ==> unicode_white_space(v@[j]),
        decreases v.len() - a,
    {
        a = a + 1;
    }
    proof {
        lemma_trim_start_skip(v@, ws, a as int);
        if a < v@.len() {
            assert(!ws(v@.skip(a as int)[0]));
        }
    }
    let mut b: usize = v.len();
    while b > a && is_whitespace(v[b - 1])
        invariant
            a <= b <= v@.len(),
            forall|j: int| b <= j < v@.len() ==> unicode_white_space(v@[j]),
        decreases b - a,
    {
        b = b - 1;
    }
    let r = slice_chars(v, a, b);
    proof {
        let t = v@.skip(a as int);
        assert(trim_start_by(t, ws) == t);
        assert forall|j: int| (b - a) <= j < t.len() implies ws(t[j]) by {
            assert(t[j] == v@[a + j]);
        }
        lemma_trim_end_take(t, ws, (b - a) as int);
        assert(t.take((b - a) as int) =~= r@);
        if b > a {
            assert(r@.last() == v@[b - 1]);
        }
        assert(trim_end_by(r@, ws) == r@);
    }
    r
}

/// `str::trim_matches` with a single character.
pub fn trim_matches_char(v: &Vec<char>, c: char) -> (r: Vec<char>)
    ensures
        r@ == trim_matches(v@, c),
{
    let ghost is_c = is_char(c);
    let mut a: usize = 0;
    while a < v.len() && v[a] == c
        invariant
            a <= v@.len(),
            forall|j: int| 0 <= j < a ==> v@[j] == c,
        decreases v.len() - a,
    {
        a = a + 1;
    }
    proof {
        lemma_trim_start_skip(v@, is_c, a as int);
        if a < v@.len() {
            assert(!is_c(v@.skip(a as int)[0]));
        }
    }
    let mut b: usize = v.len();
    while b > a && v[b - 1] == c
        invariant
            a <= b <= v@.len(),
            forall|j: int| b <= j < v@.len() ==> v@[j] == c,
        decreases b - a,
    {
        b = b - 1;
    }
    let r = slice_chars(v, a, b);
    proof {
        let t = v@.skip(a as int);
        assert(trim_start_by(t, is_c) == t);
        assert forall|j: int| (b - a) <= j < t.len() implies is_c(t[j]) by {
            assert(t[j] == v@[a + j]);
        }
        lemma_trim_end_take(t, is_c, (b - a) as int);
        assert(t.take((b - a) as int) =~= r@);
        if b > a {
            assert(r@.last() == v@[b - 1]);
        }
        assert(trim_end_by(r@, is_c) == r@);
    }
    r
}


/// `str::trim_end`: trailing Unicode white space.
pub open spec fn trim_end(s: Seq<char>) -> Seq<char> {
    trim_end_by(s, |c: char| unicode_white_space(c))
}

/// `str::trim_end`.
pub fn trim_end_chars(v: &Vec<char>) -> (r: Vec<char>)
    ensures
        r@ == trim_end(v@),
{
    let ghost ws = |c: char| unicode_white_space(c);
    let mut b: usize = v.len();
    while b > 0 && is_whitespace(v[b - 1])
        invariant
            b <= v@.len(),
            forall|j: int| b <= j < v@.len() ==> unicode_white_space(v@[j]),
        decreases b,
    {
        b = b - 1;
    }
    let r = slice_chars(v, 0, b);
    proof {
        lemma_trim_end_take(v@, ws, b as int);
        assert(v@.take(b as int) =~= r@);
        if b > 0 {
            assert(r@.last() == v@[b - 1]);
        }
        assert(trim_end_by(r@, ws) == r@);
    }
    r
}

/// `str::trim_end_matches` with a single character.
pub fn trim_end_matches_char(v: &Vec<char>, c: char) -> (r: Vec<char>)
    ensures
        r@ == trim_end_by(v@, is_char(c)),
{
    let ghost is_c = is_char(c);
    let mut b: usize = v.len();
    while b > 0 && v[b - 1] == c
        invariant
            b <= v@.len(),
            forall|j: int| b <= j < v@.len() ==> v@[j] == c,
        decreases b,
    {
        b = b - 1;
    }
    let r = slice_chars(v, 0, b);
    proof {
        lemma_trim_end_take(v@, is_c, b as int);
        assert(v@.take(b as int) =~= r@);
        if b > 0 {
            assert(r@.last() == v@[b - 1]);
        }
        assert(trim_end_by(r@, is_c) == r@);
    }
    r
}

// ---------------------------------------------------------------------
// Splitting and substrings
// ---------------------------------------------------------------------

/// The pieces of `s` between occurrences of `c` (`str::split`): always at
/// least one piece, empty pieces included.
pub open spec fn split_on(s: Seq<char>, c: char) -> Seq<Seq<char>>
    decreases s.len(),
{
    if s.len() == 0 {
        seq![Seq::<char>::empty()]
    } else {
        let init = split_on(s.drop_last(), c);
        if s.last() == c {
            init.push(Seq::<char>::empty())
        } else {
            init.update(init.len() - 1, init.last().push(s.last()))
        }
    }
}

pub proof fn lemma_split_on_nonempty(s: Seq<char>, c: char)
    ensures
        split_on(s, c).len() >= 1,
    decreases s.len(),
{
    if s.len() > 0 {
        lemma_split_on_nonempty(s.drop_last(), c);
    }
}

/// One step of `split_on` over the first `i + 1` characters.
pub proof fn lemma_split_on_step(s: Seq<char>, c: char, i: int)
    requires
        0 <= i < s.len(),
    ensures
        split_on(s.take(i + 1), c) == (if s[i] == c {
            split_on(s.take(i), c).push(Seq::<char>::empty())
        } else {
            split_on(s.take(i), c).update(
                split_on(s.take(i), c).len() - 1,
                split_on(s.take(i), c).last().push(s[i]),
            )
        }),
{
    assert(s.take(i + 1).drop_last() =~= s.take(i));
}

/// Whether `p` occurs in `s` as a contiguous run.
pub open spec fn contains_run(s: Seq<char>, p: Seq<char>) -> bool {
    exists|i: int| 0 <= i && i + p.len() <= s.len() && #[trigger] s.subrange(i, i + p.len()) == p
}

/// Whether `p` occurs in `s` starting at position `i`.
fn matches_at(s: &Vec<char>, p: &Vec<char>, i: usize) -> (r: bool)
    requires
        i + p@.len() <= s@.len(),
    ensures
        r == (s@.subrange(i as int, i + p@.len()) == p@),
{
    let n = s.len();
    let mut j: usize = 0;
    while j < p.len()
        invariant
            n == s@.len(),
            i + p@.len() <= s@.len(),
            j <= p@.len(),
            forall|m: int| 0 <= m < j ==> s@[i + m] == p@[m],
        decreases p.len() - j,
    {
        if s[i + j] != p[j] {
            assert(s@.subrange(i as int, i + p@.len())[j as int] != p@[j as int]);
            return false;
        }
        j = j + 1;
    }
    assert(s@.subrange(i as int, i + p@.len()) =~= p@);
    true
}

/// `str::contains` with a string pattern.
pub fn contains_chars(s: &Vec<char>, p: &Vec<char>) -> (r: bool)
    ensures
        r == contains_run(s@, p@),
{
    if p.len() > s.len() {
        return false;
    }
    let lim = s.len() - p.len();
    let mut i: usize = 0;
    loop
        invariant
            lim + p@.len() == s@.len(),
            i <= lim,
            forall|k: int| 0 <= k < i ==> #[trigger] s@.subrange(k, k + p@.len()) != p@,
        ensures
            i == lim,
            forall|k: int| 0 <= k <= i ==> #[trigger] s@.subrange(k, k + p@.len()) != p@,
        decreases lim - i,
    {
        if matches_at(s, p, i) {
            return true;
        }
        if i == lim {
            break;
        }
        i = i + 1;
    }
    assert forall|k: int| 0 <= k && k + p@.len() <= s@.len() implies #[trigger] s@.subrange(k, k + p@.len()) != p@ by {
        assert(k <= i);
    }
    false
}

/// Whether some string of `list` equals `s`.
pub fn contains_string(list: &Vec<String>, s: &String) -> (b: bool)
    ensures
        b == crate::order::views(list@).contains(s@),
{
    let ghost vs = crate::order::views(list@);
    let mut j: usize = 0;
    while j < list.len()
        invariant
            j <= list.len(),
            vs == crate::order::views(list@),
            forall|k: int| 0 <= k < j ==> #[trigger] list@[k]@ != s@,
        decreases list.len() - j,
    {
        if list[j] == *s {
            assert(vs[j as int] == s@);
            return true;
        }
        j = j + 1;
    }
    proof {
        if vs.contains(s@) {
            let k = choose|k: int| 0 <= k < vs.len() && vs[k] == s@;
            assert(list@[k]@ == s@);
        }
    }
    false
}

/// `parts` joined with `sep` between neighbours (`[String]::join`).
pub open spec fn joined(parts: Seq<Seq<char>>, sep: Seq<char>) -> Seq<char>
    decreases parts.len(),
{
    if parts.len() == 0 {
        Seq::empty()
    } else if parts.len() == 1 {
        parts[0]
    } else {
        joined(parts.drop_last(), sep) + sep + parts.last()
    }
}

/// Joins `parts` with `sep` between neighbours.
pub fn join_strings(parts: &Vec<String>, sep: &str) -> (r: String)
    ensures
        r@ == joined(crate::order::views(parts@), sep@),
{
    let ghost pv = crate::order::views(parts@);
    let mut out = String::new();
    let mut i: usize = 0;
    proof {
        assert(pv.take(0) =~= Seq::<Seq<char>>::empty());
    }
    while i < parts.len()
        invariant
            i <= parts@.len(),
            pv == crate::order::views(parts@),
            out@ == joined(pv.take(i as int), sep@),
        decreases parts.len() - i,
    {
        proof {
            assert(pv.take(i + 1).drop_last() =~= pv.take(i as int));
            assert(pv.take(i + 1).last() == pv[i as int]);
            assert(pv[i as int] == parts@[i as int]@);
            if i == 0 {
                assert(pv.take(1)[0] == pv[0]);
            }
        }
        if i > 0 {
            push_str(&mut out, sep);
        }
        push_str(&mut out, parts[i].as_str());
        proof {
            if i == 0 {
                assert(out@ =~= pv[0]);
            }
        }
        i = i + 1;
    }
    proof {
        assert(pv.take(parts@.len() as int) =~= pv);
    }
    out
}

} // verus!
