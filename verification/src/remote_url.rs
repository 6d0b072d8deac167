//! Turning a git remote URL plus a branch name into a browsable web URL.
use vstd::prelude::*;
use crate::text::{
    chars_of, contains_char, push_char, push_chars, push_str, split_once, split_once_char, strip_prefix,
    strip_prefix_chars, strip_suffix_chars, trim, trim_chars, trim_matches,
    trim_matches_char, lemma_trim_matches_facts, unicode_white_space, lemma_first_index, trim_start_by,
};

verus! {

/// `.git`, the suffix of a bare repository's path.
pub open spec fn dot_git() -> Seq<char> {
    seq!['.', 'g', 'i', 't']
}

/// A repository path cleaned up: slashes trimmed from both ends and one
/// trailing `.git` stripped, repeated until neither applies.
pub open spec fn clean_repo_path(p: Seq<char>) -> Seq<char>
    decreases p.len(),
{
    let t = trim_matches(p, '/');
    if dot_git().is_suffix_of(t) {
        proof {
            lemma_trim_matches_facts(p, '/');
        }
        clean_repo_path(t.take(t.len() - 4))
    } else {
        t
    }
}

/// `https://<host>/<path>` with `path` cleaned up; `None` when either half
/// is empty.
pub open spec fn https_base(host: Seq<char>, path: Seq<char>) -> Option<Seq<char>> {
    let p = clean_repo_path(path);
    if host.len() == 0 || p.len() == 0 {
        None
    } else {
        Some("https://"@ + host + seq!['/'] + p)
    }
}

/// What a web base looks like: `https://`, a non-empty host, `/`, and a
/// non-empty path that neither starts nor ends with `/` and does not end
/// with `.git`.
pub open spec fn is_web_base(b: Seq<char>) -> bool {
    exists|host: Seq<char>, p: Seq<char>|
        #![trigger host + p]
        b == "https://"@ + host + seq!['/'] + p && host.len() > 0 && p.len() > 0 && p[0] != '/'
            && p.last() != '/' && !dot_git().is_suffix_of(p)
}

proof fn lemma_clean_repo_path(p: Seq<char>)
    ensures
        clean_repo_path(p).len() > 0 ==> clean_repo_path(p)[0] != '/' && clean_repo_path(p).last() != '/',
        !dot_git().is_suffix_of(clean_repo_path(p)),
    decreases p.len(),
{
    let t = trim_matches(p, '/');
    lemma_trim_matches_facts(p, '/');
    if dot_git().is_suffix_of(t) {
        lemma_clean_repo_path(t.take(t.len() - 4));
    }
}

/// Every base built is a web base: it ends with neither `/` nor `.git`.
pub proof fn lemma_https_base_shape(host: Seq<char>, path: Seq<char>)
    ensures
        https_base(host, path) matches Some(b) ==> is_web_base(b) && b.last() != '/' && !dot_git().is_suffix_of(b),
{
    let p = clean_repo_path(path);
    lemma_clean_repo_path(path);
    if let Some(b) = https_base(host, path) {
        let pre = "https://"@ + host + seq!['/'];
        assert(b == pre + p);
        assert(b =~= "https://"@ + host + seq!['/'] + p);
        assert(host + p == host + p);
        assert(b.last() == p.last());
        if dot_git().is_suffix_of(b) {
            if p.len() >= 4 {
                assert(dot_git().is_suffix_of(p)) by {
                    assert forall|j: int| 0 <= j < 4 implies p[p.len() - 4 + j] == dot_git()[j] by {
                        assert(b[b.len() - 4 + j] == p[p.len() - 4 + j]);
                    }
                    assert(p.subrange(p.len() - 4, p.len() as int) =~= dot_git());
                }
            } else {
                let k = b.len() - 1 - p.len();
                assert(b[k] == '/');
                let j = 3 - p.len();
                assert(b.subrange(b.len() - 4, b.len() as int) == dot_git());
                assert(b.subrange(b.len() - 4, b.len() as int)[j] == b[k]);
                assert(dot_git()[j] != '/');
            }
        }
    }
}

/// The text after the first `c`, or all of `s` when it holds none.
pub open spec fn after_first_or_all(s: Seq<char>, c: char) -> Seq<char> {
    match split_once(s, c) {
        Some((_, b)) => b,
        None => s,
    }
}

/// The text before the first `c`, or all of `s` when it holds none.
pub open spec fn before_first_or_all(s: Seq<char>, c: char) -> Seq<char> {
    match split_once(s, c) {
        Some((a, _)) => a,
        None => s,
    }
}

/// The `https://host/owner/repo` base for an `https://`, `http://`,
/// `ssh://` or scp-like (`[user@]host:path`) remote URL.
pub open spec fn https_base_of_remote(url: Seq<char>) -> Option<Seq<char>> {
    let u = trim(url);
    let web = match strip_prefix(u, "https://"@) {
        Some(rest) => Some(rest),
        None => strip_prefix(u, "http://"@),
    };
    match web {
        Some(rest) => match split_once(rest, '/') {
            Some((host, path)) => https_base(host, path),
            None => None,
        },
        None => match strip_prefix(u, "ssh://"@) {
            Some(rest) => {
                let rest = after_first_or_all(rest, '@');
                match split_once(rest, '/') {
                    Some((host_and_port, path)) => https_base(
                        before_first_or_all(host_and_port, ':'),
                        path,
                    ),
                    None => None,
                }
            },
            None => match split_once(u, ':') {
                Some((user_host, path)) => if user_host.contains('/') || path.len() == 0 {
                    None
                } else {
                    https_base(after_first_or_all(user_host, '@'), path)
                },
                None => None,
            },
        },
    }
}

/// Whether `b` is one of the URL-safe unreserved bytes: ASCII letters,
/// digits, `-`, `.`, `_` and `~`.
pub open spec fn is_unreserved(b: u8) -> bool {
    (65 <= b <= 90) || (97 <= b <= 122) || (48 <= b <= 57) || b == 45 || b == 46 || b == 95
        || b == 126
}

/// Upper-case hexadecimal digit for `d < 16`.
pub open spec fn hex_digit(d: nat) -> char {
    if d < 10 {
        ((d + 48) as u32) as char
    } else {
        ((d + 55) as u32) as char
    }
}

/// One byte of a percent-encoded path segment.
pub open spec fn encode_byte(b: u8) -> Seq<char> {
    if is_unreserved(b) {
        seq![(b as u32) as char]
    } else {
        seq!['%', hex_digit((b / 16) as nat), hex_digit((b % 16) as nat)]
    }
}

/// Percent-encoding of a byte string, byte by byte.
pub open spec fn encode_bytes(bs: Seq<u8>) -> Seq<char>
    decreases bs.len(),
{
    if bs.len() == 0 {
        Seq::empty()
    } else {
        encode_bytes(bs.drop_last()) + encode_byte(bs.last())
    }
}

/// Percent-encoding of a branch name: every `/` stays a path separator,
/// every other byte is encoded as in a path segment.
pub open spec fn encode_branch_bytes(bs: Seq<u8>) -> Seq<char>
    decreases bs.len(),
{
    if bs.len() == 0 {
        Seq::empty()
    } else {
        encode_branch_bytes(bs.drop_last()) + branch_piece(bs.last())
    }
}

/// What one byte of a branch name becomes: `/` stays, any other byte is
/// encoded as in a path segment.
pub open spec fn branch_piece(b: u8) -> Seq<char> {
    if b == 47 {
        seq!['/']
    } else {
        encode_byte(b)
    }
}

/// Value of a hexadecimal digit (either case); `None` for any other character.
pub open spec fn hex_value(c: char) -> Option<nat> {
    let n = c as u32;
    if 48 <= n <= 57 {
        Some((n - 48) as nat)
    } else if 65 <= n <= 70 {
        Some((n - 55) as nat)
    } else if 97 <= n <= 102 {
        Some((n - 87) as nat)
    } else {
        None
    }
}

/// Percent-decoding: `%` followed by two hex digits stands for the byte they
/// spell, any other character for its own code. Encoded text is ASCII, so
/// the low byte of a character's code is the code itself.
pub open spec fn percent_decode(s: Seq<char>) -> Seq<u8>
    decreases s.len(),
{
    if s.len() == 0 {
        Seq::empty()
    } else if s[0] == '%' && s.len() >= 3 && hex_value(s[1]) is Some && hex_value(s[2]) is Some {
        seq![(hex_value(s[1])->0 * 16 + hex_value(s[2])->0) as u8] + percent_decode(s.skip(3))
    } else {
        seq![(s[0] as u32) as u8] + percent_decode(s.skip(1))
    }
}

proof fn lemma_hex_digit(d: nat)
    requires
        d < 16,
    ensures
        hex_value(hex_digit(d)) == Some(d),
        is_upper_hex(hex_digit(d)),
        hex_digit(d) != '/',
        hex_digit(d) != '%',
{
}

proof fn lemma_decode_encoded_byte(b: u8, rest: Seq<char>)
    ensures
        percent_decode(encode_byte(b) + rest) == seq![b] + percent_decode(rest),
{
    let s = encode_byte(b) + rest;
    if is_unreserved(b) {
        assert(s[0] == (b as u32) as char);
        assert(s.skip(1) =~= rest);
    } else {
        lemma_hex_digit((b / 16) as nat);
        lemma_hex_digit((b % 16) as nat);
        assert(s[0] == '%');
        assert(s[1] == hex_digit((b / 16) as nat));
        assert(s[2] == hex_digit((b % 16) as nat));
        assert(s.skip(3) =~= rest);
        assert((b / 16) * 16 + b % 16 == b);
    }
}

proof fn lemma_decode_branch_piece(b: u8, rest: Seq<char>)
    ensures
        percent_decode(branch_piece(b) + rest) == seq![b] + percent_decode(rest),
{
    if b == 47 {
        let s = branch_piece(b) + rest;
        assert(s[0] == '/');
        assert(s.skip(1) =~= rest);
    } else {
        lemma_decode_encoded_byte(b, rest);
    }
}

proof fn lemma_encode_bytes_append(a: Seq<u8>, b: Seq<u8>)
    ensures
        encode_bytes(a + b) == encode_bytes(a) + encode_bytes(b),
    decreases b.len(),
{
    if b.len() == 0 {
        assert(a + b =~= a);
        assert(encode_bytes(a) + encode_bytes(b) =~= encode_bytes(a));
    } else {
        lemma_encode_bytes_append(a, b.drop_last());
        assert((a + b).drop_last() =~= a + b.drop_last());
        assert(encode_bytes(a + b) =~= encode_bytes(a) + encode_bytes(b));
    }
}

proof fn lemma_encode_branch_append(a: Seq<u8>, b: Seq<u8>)
    ensures
        encode_branch_bytes(a + b) == encode_branch_bytes(a) + encode_branch_bytes(b),
    decreases b.len(),
{
    if b.len() == 0 {
        assert(a + b =~= a);
        assert(encode_branch_bytes(a) + encode_branch_bytes(b) =~= encode_branch_bytes(a));
    } else {
        lemma_encode_branch_append(a, b.drop_last());
        assert((a + b).drop_last() =~= a + b.drop_last());
        assert(encode_branch_bytes(a + b) =~= encode_branch_bytes(a) + encode_branch_bytes(b));
    }
}

/// Decoding a percent-encoded path segment gives its bytes back.
pub proof fn law_segment_decodes_back(bs: Seq<u8>)
    ensures
        percent_decode(encode_bytes(bs)) == bs,
    decreases bs.len(),
{
    if bs.len() > 0 {
        let head = seq![bs[0]];
        let tail = bs.skip(1);
        assert(bs =~= head + tail);
        lemma_encode_bytes_append(head, tail);
        assert(head.drop_last() =~= Seq::<u8>::empty());
        assert(encode_bytes(head) =~= encode_byte(bs[0])) by {
            reveal_with_fuel(encode_bytes, 2);
        }
        lemma_decode_encoded_byte(bs[0], encode_bytes(tail));
        law_segment_decodes_back(tail);
        assert(seq![bs[0]] + tail =~= bs);
    }
}

/// Decoding a percent-encoded branch path gives the branch's bytes back.
pub proof fn law_branch_decodes_back(bs: Seq<u8>)
    ensures
        percent_decode(encode_branch_bytes(bs)) == bs,
    decreases bs.len(),
{
    if bs.len() > 0 {
        let head = seq![bs[0]];
        let tail = bs.skip(1);
        assert(bs =~= head + tail);
        lemma_encode_branch_append(head, tail);
        assert(head.drop_last() =~= Seq::<u8>::empty());
        assert(encode_branch_bytes(head) =~= branch_piece(bs[0])) by {
            reveal_with_fuel(encode_branch_bytes, 2);
        }
        lemma_decode_branch_piece(bs[0], encode_branch_bytes(tail));
        law_branch_decodes_back(tail);
        assert(seq![bs[0]] + tail =~= bs);
    }
}

/// An upper-case hexadecimal digit.
pub open spec fn is_upper_hex(c: char) -> bool {
    ('0' <= c && c <= '9') || ('A' <= c && c <= 'F')
}

/// A character that may stand in an encoded path: an unreserved ASCII
/// character, `/` or `%`.
pub open spec fn is_url_char(c: char) -> bool {
    c == '/' || c == '%' || ((c as u32) < 128 && is_unreserved((c as u32) as u8))
}

/// Whether a branch byte passes through unchanged: unreserved, or `/`.
pub open spec fn is_plain_branch_byte(b: u8) -> bool {
    is_unreserved(b) || b == 47
}

/// How many times `x` occurs in `s`.
pub open spec fn count_of<T>(s: Seq<T>, x: T) -> nat
    decreases s.len(),
{
    if s.len() == 0 {
        0
    } else {
        count_of(s.drop_last(), x) + if s.last() == x {
            1nat
        } else {
            0nat
        }
    }
}

proof fn lemma_count_append<T>(a: Seq<T>, b: Seq<T>, x: T)
    ensures
        count_of(a + b, x) == count_of(a, x) + count_of(b, x),
    decreases b.len(),
{
    if b.len() == 0 {
        assert(a + b =~= a);
    } else {
        lemma_count_append(a, b.drop_last(), x);
        assert((a + b).drop_last() =~= a + b.drop_last());
    }
}

/// Percent-encoding keeps a branch's path segments: the encoded text holds
/// exactly as many `/` as the branch's bytes.
pub proof fn law_branch_keeps_segments(bs: Seq<u8>)
    ensures
        count_of(encode_branch_bytes(bs), '/') == count_of(bs, 47u8),
    decreases bs.len(),
{
    if bs.len() > 0 {
        let b = bs.last();
        law_branch_keeps_segments(bs.drop_last());
        lemma_count_append(encode_branch_bytes(bs.drop_last()), branch_piece(b), '/');
        let pc = branch_piece(b);
        if b == 47 || is_unreserved(b) {
            assert(pc.drop_last() =~= Seq::<char>::empty());
            assert(count_of(pc, '/') == if b == 47 { 1nat } else { 0nat }) by {
                reveal_with_fuel(count_of, 2);
            }
        } else {
            lemma_hex_digit((b / 16) as nat);
            lemma_hex_digit((b % 16) as nat);
            assert(pc.drop_last().drop_last().drop_last() =~= Seq::<char>::empty());
            assert(count_of(pc, '/') == 0) by {
                reveal_with_fuel(count_of, 4);
            }
        }
    }
}

/// Every character of an encoded branch path may stand in a URL path, and
/// every `%` in it is followed by two upper-case hex digits.
pub proof fn law_branch_encoding_alphabet(bs: Seq<u8>)
    ensures
        forall|i: int| 0 <= i < encode_branch_bytes(bs).len() ==> is_url_char(#[trigger] encode_branch_bytes(bs)[i]),
        forall|i: int| 0 <= i < encode_branch_bytes(bs).len() && #[trigger] encode_branch_bytes(bs)[i] == '%' ==>
            i + 2 < encode_branch_bytes(bs).len() && is_upper_hex(encode_branch_bytes(bs)[i + 1])
                && is_upper_hex(encode_branch_bytes(bs)[i + 2]),
    decreases bs.len(),
{
    if bs.len() > 0 {
        let b = bs.last();
        let e = encode_branch_bytes(bs.drop_last());
        let pc = branch_piece(b);
        let all = encode_branch_bytes(bs);
        law_branch_encoding_alphabet(bs.drop_last());
        assert(all == e + pc);
        if !(b == 47 || is_unreserved(b)) {
            lemma_hex_digit((b / 16) as nat);
            lemma_hex_digit((b % 16) as nat);
        }
        assert forall|i: int| 0 <= i < all.len() implies is_url_char(#[trigger] all[i]) by {
            if i < e.len() {
                assert(all[i] == e[i]);
            } else {
                assert(all[i] == pc[i - e.len()]);
            }
        }
        assert forall|i: int| 0 <= i < all.len() && #[trigger] all[i] == '%' implies i + 2 < all.len()
            && is_upper_hex(all[i + 1]) && is_upper_hex(all[i + 2]) by {
            if i < e.len() {
                assert(all[i] == e[i]);
                assert(all[i + 1] == e[i + 1]);
                assert(all[i + 2] == e[i + 2]);
            } else {
                assert(all[i] == pc[i - e.len()]);
                assert(i - e.len() == 0);
                assert(all[i + 1] == pc[1]);
                assert(all[i + 2] == pc[2]);
            }
        }
    }
}

/// A branch path comes out unchanged exactly when every byte of it is
/// unreserved or `/`.
pub proof fn law_branch_unchanged_iff_plain(bs: Seq<u8>)
    ensures
        (encode_branch_bytes(bs) == bs.map_values(|b: u8| (b as u32) as char)) <==> (forall|i: int|
            0 <= i < bs.len() ==> is_plain_branch_byte(#[trigger] bs[i])),
    decreases bs.len(),
{
    lemma_branch_encoding_len(bs);
    if forall|i: int| 0 <= i < bs.len() ==> is_plain_branch_byte(#[trigger] bs[i]) {
        lemma_plain_branch_unchanged(bs);
    }
}

/// Whether a branch character passes through unchanged: an ASCII
/// unreserved character, or `/`.
pub open spec fn is_plain_branch_char(c: char) -> bool {
    (c as u32) < 128 && is_plain_branch_byte((c as u32) as u8)
}

/// Whether every character of `chars` is ASCII.
pub open spec fn all_ascii(chars: Seq<char>) -> bool {
    forall|i: int| 0 <= i < chars.len() ==> (#[trigger] chars[i] as u32) < 128
}

proof fn lemma_utf8_of_ascii(chars: Seq<char>)
    requires
        all_ascii(chars),
    ensures
        vstd::utf8::encode_utf8(chars).len() == chars.len(),
        forall|i: int| 0 <= i < chars.len() ==> #[trigger] vstd::utf8::encode_utf8(chars)[i] == (chars[i] as u32) as u8,
    decreases chars.len(),
{
    if chars.len() > 0 {
        let rest = chars.drop_first();
        assert forall|i: int| 0 <= i < rest.len() implies (#[trigger] rest[i] as u32) < 128 by {
            assert(rest[i] == chars[i + 1]);
        }
        lemma_utf8_of_ascii(rest);
        let v = chars[0] as u32;
        assert(v < 128);
        assert(vstd::utf8::has_width_1_encoding(v));
        assert(v as u8 == vstd::utf8::leading_byte_width_1(v)) by (bit_vector)
            requires
                vstd::utf8::has_width_1_encoding(v),
        ;
        let e = vstd::utf8::encode_utf8(chars);
        assert(e == seq![v as u8] + vstd::utf8::encode_utf8(rest));
        assert forall|i: int| 0 <= i < chars.len() implies #[trigger] e[i] == (chars[i] as u32) as u8 by {
            if i > 0 {
                assert(e[i] == vstd::utf8::encode_utf8(rest)[i - 1]);
                assert(rest[i - 1] == chars[i]);
            }
        }
    }
}

proof fn lemma_utf8_len(chars: Seq<char>)
    ensures
        vstd::utf8::encode_utf8(chars).len() >= chars.len(),
        vstd::utf8::encode_utf8(chars).len() == chars.len() ==> all_ascii(chars),
    decreases chars.len(),
{
    if chars.len() > 0 {
        let rest = chars.drop_first();
        lemma_utf8_len(rest);
        let v = chars[0] as u32;
        vstd::utf8::char_is_scalar(chars[0]);
        assert(vstd::utf8::encode_utf8(chars) == vstd::utf8::encode_scalar(v) + vstd::utf8::encode_utf8(rest));
        assert(vstd::utf8::encode_scalar(v).len() >= 1);
        if vstd::utf8::encode_utf8(chars).len() == chars.len() {
            assert(vstd::utf8::encode_scalar(v).len() == 1);
            assert(vstd::utf8::has_width_1_encoding(v));
            assert(vstd::utf8::encode_utf8(rest).len() == rest.len());
            assert forall|i: int| 0 <= i < chars.len() implies (#[trigger] chars[i] as u32) < 128 by {
                if i > 0 {
                    assert(chars[i] == rest[i - 1]);
                }
            }
        }
    }
}

/// A branch name comes out of [`encode_branch_path`] unchanged exactly
/// when every character of it is an ASCII unreserved character or `/`.
pub proof fn law_branch_path_unchanged_iff_plain(branch: Seq<char>)
    ensures
        (encode_branch_bytes(vstd::utf8::encode_utf8(branch)) == branch) <==> (forall|i: int|
            0 <= i < branch.len() ==> is_plain_branch_char(#[trigger] branch[i])),
{
    let bs = vstd::utf8::encode_utf8(branch);
    lemma_utf8_len(branch);
    lemma_branch_encoding_len(bs);
    if forall|i: int| 0 <= i < branch.len() ==> is_plain_branch_char(#[trigger] branch[i]) {
        assert forall|i: int| 0 <= i < branch.len() implies (#[trigger] branch[i] as u32) < 128 by {
            assert(is_plain_branch_char(branch[i]));
        }
        lemma_utf8_of_ascii(branch);
        assert forall|i: int| 0 <= i < bs.len() implies is_plain_branch_byte(#[trigger] bs[i]) by {
            assert(is_plain_branch_char(branch[i]));
        }
        lemma_plain_branch_unchanged(bs);
        let shown = bs.map_values(|b: u8| (b as u32) as char);
        assert(shown =~= branch) by {
            assert forall|i: int| 0 <= i < branch.len() implies #[trigger] shown[i] == branch[i] by {
                assert(is_plain_branch_char(branch[i]));
                assert(bs[i] == (branch[i] as u32) as u8);
                assert(bs[i] as u32 == branch[i] as u32);
                vstd::utf8::char_u32_cast(branch[i], branch[i] as u32);
            }
        }
    }
    if encode_branch_bytes(bs) == branch {
        assert(bs.len() == branch.len());
        lemma_utf8_of_ascii(branch);
        assert forall|i: int| 0 <= i < branch.len() implies is_plain_branch_char(#[trigger] branch[i]) by {
            assert(bs[i] == (branch[i] as u32) as u8);
            if !is_plain_branch_byte(bs[i]) {
                assert(exists|j: int| 0 <= j < bs.len() && !is_plain_branch_byte(#[trigger] bs[j]));
            }
        }
    }
}

proof fn lemma_plain_branch_unchanged(bs: Seq<u8>)
    requires
        forall|i: int| 0 <= i < bs.len() ==> is_plain_branch_byte(#[trigger] bs[i]),
    ensures
        encode_branch_bytes(bs) == bs.map_values(|b: u8| (b as u32) as char),
    decreases bs.len(),
{
    if bs.len() > 0 {
        let init = bs.drop_last();
        assert forall|i: int| 0 <= i < init.len() implies is_plain_branch_byte(#[trigger] init[i]) by {
            assert(init[i] == bs[i]);
        }
        lemma_plain_branch_unchanged(init);
        assert(is_plain_branch_byte(bs[bs.len() - 1]));
        assert(bs.map_values(|b: u8| (b as u32) as char) =~= init.map_values(|b: u8| (b as u32) as char)
            + seq![(bs.last() as u32) as char]);
    } else {
        assert(bs.map_values(|b: u8| (b as u32) as char) =~= Seq::<char>::empty());
    }
}

proof fn lemma_branch_encoding_len(bs: Seq<u8>)
    ensures
        encode_branch_bytes(bs).len() >= bs.len(),
        (exists|i: int| 0 <= i < bs.len() && !is_plain_branch_byte(#[trigger] bs[i]))
            ==> encode_branch_bytes(bs).len() > bs.len(),
    decreases bs.len(),
{
    if bs.len() > 0 {
        let init = bs.drop_last();
        lemma_branch_encoding_len(init);
        if exists|i: int| 0 <= i < bs.len() && !is_plain_branch_byte(#[trigger] bs[i]) {
            let i = choose|i: int| 0 <= i < bs.len() && !is_plain_branch_byte(#[trigger] bs[i]);
            if i < init.len() {
                assert(init[i] == bs[i]);
            }
        }
    }
}

/// The host part of an `https://host/...` URL.
pub open spec fn https_host(base: Seq<char>) -> Option<Seq<char>> {
    match strip_prefix(base, "https://"@) {
        Some(rest) => Some(before_first_or_all(rest, '/')),
        None => None,
    }
}

/// The branch's page under `base`: `/tree/<branch>` on GitHub and GitLab,
/// `/src/<branch>` on Bitbucket, and `base` itself on any other host.
pub open spec fn branch_url(base: Seq<char>, branch: Seq<char>) -> Seq<char> {
    let enc = encode_branch_bytes(vstd::utf8::encode_utf8(branch));
    match https_host(base) {
        Some(h) => if h == "github.com"@ || h == "gitlab.com"@ {
            base + "/tree/"@ + enc
        } else if h == "bitbucket.org"@ {
            base + "/src/"@ + enc
        } else {
            base
        },
        None => base,
    }
}

/// The browsable URL for `branch` given the raw remote URL.
pub open spec fn remote_branch_url_of(raw: Option<Seq<char>>, branch: Seq<char>) -> Option<Seq<char>> {
    match raw {
        Some(url) => match https_base_of_remote(url) {
            Some(base) => Some(branch_url(base, branch)),
            None => None,
        },
        None => None,
    }
}

fn after_first_or_all_chars(v: Vec<char>, c: char) -> (r: Vec<char>)
    ensures
        r@ == after_first_or_all(v@, c),
{
    match split_once_char(&v, c) {
        Some((_, b)) => b,
        None => v,
    }
}

fn before_first_or_all_chars(v: Vec<char>, c: char) -> (r: Vec<char>)
    ensures
        r@ == before_first_or_all(v@, c),
{
    match split_once_char(&v, c) {
        Some((a, _)) => a,
        None => v,
    }
}

/// Joins a host and an `owner/repo[.git]` path into an `https://` base,
/// the path cleaned up as [`clean_repo_path`] says.
pub fn build_https_base(host: &Vec<char>, path: &Vec<char>) -> (r: Option<String>)
    ensures
        match r {
            Some(s) => https_base(host@, path@) == Some(s@),
            None => https_base(host@, path@).is_none(),
        },
        r matches Some(s) ==> is_web_base(s@) && s@.last() != '/' && !dot_git().is_suffix_of(s@),
{
    let dot_git_v = chars_of(".git");
    proof {
        reveal_strlit(".git");
        assert(dot_git_v@ =~= dot_git());
    }
    let ghost mut q = path@;
    let mut p = trim_matches_char(path, '/');
    loop
        invariant
            dot_git_v@ == dot_git(),
            p@ == trim_matches(q, '/'),
            clean_repo_path(q) == clean_repo_path(path@),
        ensures
            p@ == clean_repo_path(path@),
        decreases p@.len(),
    {
        match strip_suffix_chars(&p, &dot_git_v) {
            Some(x) => {
                proof {
                    q = x@;
                    lemma_trim_matches_facts(x@, '/');
                }
                p = trim_matches_char(&x, '/');
            },
            None => {
                break;
            },
        }
    }
    proof {
        lemma_https_base_shape(host@, path@);
    }
    if host.len() == 0 || p.len() == 0 {
        return None;
    }
    let mut s = String::new();
    push_str(&mut s, "https://");
    push_chars(&mut s, host);
    push_char(&mut s, '/');
    push_chars(&mut s, &p);
    assert(s@ =~= "https://"@ + host@ + seq!['/'] + p@);
    Some(s)
}

/// Converts an SSH or HTTPS git remote URL into an `https://host/owner/repo`
/// base (no trailing slash, no `.git` suffix); `None` for anything else,
/// such as a local filesystem path.
pub fn remote_url_to_https_base(url: &str) -> (r: Option<String>)
    ensures
        match r {
            Some(s) => https_base_of_remote(url@) == Some(s@),
            None => https_base_of_remote(url@).is_none(),
        },
        r matches Some(s) ==> is_web_base(s@) && s@.last() != '/' && !dot_git().is_suffix_of(s@),
{
    let all = chars_of(url);
    let u = trim_chars(&all);
    let https = chars_of("https://");
    let http = chars_of("http://");
    let web = match strip_prefix_chars(&u, &https) {
        Some(rest) => Some(rest),
        None => strip_prefix_chars(&u, &http),
    };
    if let Some(rest) = web {
        return match split_once_char(&rest, '/') {
            Some((host, path)) => build_https_base(&host, &path),
            None => None,
        };
    }
    let ssh = chars_of("ssh://");
    if let Some(rest) = strip_prefix_chars(&u, &ssh) {
        let rest = after_first_or_all_chars(rest, '@');
        return match split_once_char(&rest, '/') {
            Some((host_and_port, path)) => {
                let host = before_first_or_all_chars(host_and_port, ':');
                build_https_base(&host, &path)
            },
            None => None,
        };
    }
    match split_once_char(&u, ':') {
        Some((user_host, path)) => {
            if contains_char(&user_host, '/') || path.len() == 0 {
                return None;
            }
            let host = after_first_or_all_chars(user_host, '@');
            build_https_base(&host, &path)
        },
        None => None,
    }
}

fn hex(d: u8) -> (c: char)
    requires
        d < 16,
    ensures
        c == hex_digit(d as nat),
{
    if d < 10 {
        (d + 48) as char
    } else {
        (d + 55) as char
    }
}

fn push_encoded_byte(s: &mut String, b: u8)
    ensures
        final(s)@ == old(s)@ + encode_byte(b),
{
    if (65 <= b && b <= 90) || (97 <= b && b <= 122) || (48 <= b && b <= 57) || b == 45 || b == 46
        || b == 95 || b == 126 {
        push_char(s, b as char);
        assert(final(s)@ =~= old(s)@ + encode_byte(b));
    } else {
        push_char(s, '%');
        push_char(s, hex(b / 16));
        push_char(s, hex(b % 16));
        assert(final(s)@ =~= old(s)@ + encode_byte(b));
    }
}

/// Percent-encodes one `/`-free path segment: every byte outside the
/// unreserved set (letters, digits, `-`, `.`, `_`, `~`) becomes `%XX`.
pub fn encode_path_segment(segment: &str) -> (r: String)
    ensures
        r@ == encode_bytes(vstd::utf8::encode_utf8(segment@)),
        percent_decode(r@) == vstd::utf8::encode_utf8(segment@),
{
    let bytes = segment.as_bytes();
    let mut out = String::new();
    let mut i: usize = 0;
    while i < bytes.len()
        invariant
            i <= bytes@.len(),
            bytes@ == vstd::utf8::encode_utf8(segment@),
            out@ == encode_bytes(bytes@.take(i as int)),
        decreases bytes.len() - i,
    {
        push_encoded_byte(&mut out, bytes[i]);
        proof {
            assert(bytes@.take(i + 1).drop_last() =~= bytes@.take(i as int));
        }
        i = i + 1;
    }
    assert(bytes@.take(bytes@.len() as int) =~= bytes@);
    proof {
        law_segment_decodes_back(bytes@);
    }
    out
}

/// Percent-encodes `branch` one `/`-separated segment at a time, keeping
/// each `/` as a path separator.
pub fn encode_branch_path(branch: &str) -> (r: String)
    ensures
        r@ == encode_branch_bytes(vstd::utf8::encode_utf8(branch@)),
        percent_decode(r@) == vstd::utf8::encode_utf8(branch@),
        count_of(r@, '/') == count_of(vstd::utf8::encode_utf8(branch@), 47u8),
        (r@ == branch@) <==> (forall|i: int| 0 <= i < branch@.len() ==> is_plain_branch_char(#[trigger] branch@[i])),
        forall|i: int| 0 <= i < r@.len() ==> is_url_char(#[trigger] r@[i]),
{
    let bytes = branch.as_bytes();
    let mut out = String::new();
    let mut i: usize = 0;
    while i < bytes.len()
        invariant
            i <= bytes@.len(),
            bytes@ == vstd::utf8::encode_utf8(branch@),
            out@ == encode_branch_bytes(bytes@.take(i as int)),
        decreases bytes.len() - i,
    {
        let b = bytes[i];
        if b == 47 {
            push_char(&mut out, '/');
        } else {
            push_encoded_byte(&mut out, b);
        }
        proof {
            assert(bytes@.take(i + 1).drop_last() =~= bytes@.take(i as int));
            assert(out@ =~= encode_branch_bytes(bytes@.take(i + 1)));
        }
        i = i + 1;
    }
    assert(bytes@.take(bytes@.len() as int) =~= bytes@);
    proof {
        law_branch_decodes_back(bytes@);
        law_branch_keeps_segments(bytes@);
        law_branch_path_unchanged_iff_plain(branch@);
        law_branch_encoding_alphabet(bytes@);
    }
    out
}

/// Appends the host-appropriate branch path onto `base`.
pub fn branch_url_for_host(base: &str, branch: &str) -> (r: String)
    ensures
        r@ == branch_url(base@, branch@),
{
    let b = chars_of(base);
    let https = chars_of("https://");
    let host = match strip_prefix_chars(&b, &https) {
        Some(rest) => Some(before_first_or_all_chars(rest, '/')),
        None => None,
    };
    let encoded = encode_branch_path(branch);
    let github = chars_of("github.com");
    let gitlab = chars_of("gitlab.com");
    let bitbucket = chars_of("bitbucket.org");
    let mut out = String::new();
    push_str(&mut out, base);
    match host {
        Some(h) => {
            if chars_eq(&h, &github) || chars_eq(&h, &gitlab) {
                push_str(&mut out, "/tree/");
                push_str(&mut out, encoded.as_str());
            } else if chars_eq(&h, &bitbucket) {
                push_str(&mut out, "/src/");
                push_str(&mut out, encoded.as_str());
            }
        },
        None => {},
    }
    assert(base@ =~= Seq::<char>::empty() + base@);
    out
}

/// Whether two character sequences are equal.
pub fn chars_eq(a: &Vec<char>, b: &Vec<char>) -> (r: bool)
    ensures
        r == (a@ == b@),
{
    if a.len() != b.len() {
        return false;
    }
    let mut i: usize = 0;
    while i < a.len()
        invariant
            a@.len() == b@.len(),
            i <= a@.len(),
            forall|j: int| 0 <= j < i ==> a@[j] == b@[j],
        decreases a.len() - i,
    {
        if a[i] != b[i] {
            return false;
        }
        i = i + 1;
    }
    assert(a@ =~= b@);
    true
}

/// Pure core of the "open on remote" action: the browsable URL for
/// `branch` given the raw remote URL (`None` when there is no remote).
pub fn build_remote_branch_url(raw_url: Option<&str>, branch: &str) -> (r: Option<String>)
    ensures
        match r {
            Some(s) => remote_branch_url_of(
                match raw_url { Some(u) => Some(u@), None => None },
                branch@,
            ) == Some(s@),
            None => remote_branch_url_of(
                match raw_url { Some(u) => Some(u@), None => None },
                branch@,
            ).is_none(),
        },
{
    let url = match raw_url {
        Some(u) => u,
        None => return None,
    };
    match remote_url_to_https_base(url) {
        Some(base) => Some(branch_url_for_host(base.as_str(), branch)),
        None => None,
    }
}

/// Unreserved bytes (ASCII letters, digits, `-`, `.`, `_`, `~`) pass
/// through percent-encoding unchanged.
pub proof fn law_unreserved_is_unchanged(bs: Seq<u8>)
    requires
        forall|i: int| 0 <= i < bs.len() ==> is_unreserved(#[trigger] bs[i]),
    ensures
        encode_bytes(bs) == bs.map_values(|b: u8| (b as u32) as char),
    decreases bs.len(),
{
    if bs.len() > 0 {
        let init = bs.drop_last();
        assert forall|i: int| 0 <= i < init.len() implies is_unreserved(#[trigger] init[i]) by {
            assert(init[i] == bs[i]);
        }
        law_unreserved_is_unchanged(init);
        assert(is_unreserved(bs[bs.len() - 1]));
        assert(bs.map_values(|b: u8| (b as u32) as char) =~= init.map_values(|b: u8| (b as u32) as char) + seq![(bs.last() as u32) as char]);
    } else {
        assert(bs.map_values(|b: u8| (b as u32) as char) =~= Seq::<char>::empty());
    }
}

proof fn lemma_web_url_base(scheme: Seq<char>, host: Seq<char>, path: Seq<char>)
    requires
        scheme == "https://"@ || scheme == "http://"@,
        !host.contains('/'),
        path.len() == 0 || !unicode_white_space(path.last()),
    ensures
        https_base_of_remote(scheme + host + seq!['/'] + path) == https_base(host, path),
{
    reveal_strlit("https://");
    reveal_strlit("http://");
    let u = scheme + host + seq!['/'] + path;
    assert(u[0] == 'h');
    assert(u.last() == (if path.len() == 0 { '/' } else { path.last() }));
    assert(trim_start_by(u, |c: char| unicode_white_space(c)) == u);
    assert(trim(u) == u);
    let rest = host + seq!['/'] + path;
    if scheme == "https://"@ {
        assert(scheme.is_prefix_of(u));
        assert(u.skip(8) =~= rest);
    } else {
        assert(!"https://"@.is_prefix_of(u)) by {
            assert(u[4] == ':');
        }
        assert(scheme.is_prefix_of(u));
        assert(u.skip(7) =~= rest);
    }
    assert forall|j: int| 0 <= j < host.len() implies rest[j] != '/' by {
        assert(rest[j] == host[j]);
        if host[j] == '/' {
            assert(host.contains('/'));
        }
    }
    assert(rest[host.len() as int] == '/');
    lemma_first_index(rest, '/', host.len() as int);
    assert(rest.take(host.len() as int) =~= host);
    assert(rest.skip(host.len() as int + 1) =~= path);
}

/// An `http://` remote is read exactly as the same `https://` remote: for
/// any host without `/` and any path (not ending in white space), both
/// give the base `https://<host>/<path>` built from that host and path.
pub proof fn law_http_remote_reads_as_https(host: Seq<char>, path: Seq<char>)
    requires
        !host.contains('/'),
        path.len() == 0 || !unicode_white_space(path.last()),
    ensures
        https_base_of_remote("http://"@ + host + seq!['/'] + path) == https_base(host, path),
        https_base_of_remote("https://"@ + host + seq!['/'] + path) == https_base(host, path),
{
    lemma_web_url_base("http://"@, host, path);
    lemma_web_url_base("https://"@, host, path);
}

proof fn lemma_split_once_at(a: Seq<char>, c: char, b: Seq<char>)
    requires
        !a.contains(c),
    ensures
        split_once(a + seq![c] + b, c) == Some((a, b)),
{
    let s = a + seq![c] + b;
    assert forall|j: int| 0 <= j < a.len() implies s[j] != c by {
        assert(s[j] == a[j]);
        if a[j] == c {
            assert(a.contains(c));
        }
    }
    assert(s[a.len() as int] == c);
    lemma_first_index(s, c, a.len() as int);
    assert(s.take(a.len() as int) =~= a);
    assert(s.skip(a.len() as int + 1) =~= b);
}

proof fn lemma_split_once_none(s: Seq<char>, c: char)
    requires
        !s.contains(c),
    ensures
        split_once(s, c).is_none(),
{
    assert forall|j: int| 0 <= j < s.len() implies s[j] != c by {
        if s[j] == c {
            assert(s.contains(c));
        }
    }
    lemma_first_index(s, c, s.len() as int);
}

/// `[user@]host`.
pub open spec fn with_user(user: Option<Seq<char>>, host: Seq<char>) -> Seq<char> {
    match user {
        Some(u) => u + seq!['@'] + host,
        None => host,
    }
}

/// A scp-like remote `[user@]host:path` names the repository at `path`
/// on `host`: its base is the one built from that host and path, whatever
/// the user.
pub proof fn law_scp_remote_names_host_and_path(user: Option<Seq<char>>, host: Seq<char>, path: Seq<char>)
    requires
        host.len() > 0,
        !host.contains('/') && !host.contains(':') && !host.contains('@'),
        user is Some ==> user->0.len() > 0 && !user->0.contains('/') && !user->0.contains(':')
            && !user->0.contains('@') && !unicode_white_space(user->0[0]),
        user is None ==> !unicode_white_space(host[0]),
        path.len() > 0,
        path[0] != '/',
        !unicode_white_space(path.last()),
    ensures
        https_base_of_remote(with_user(user, host) + seq![':'] + path) == https_base(host, path),
{
    reveal_strlit("https://");
    reveal_strlit("http://");
    reveal_strlit("ssh://");
    let w = with_user(user, host);
    let url = w + seq![':'] + path;
    assert(!w.contains('/') && !w.contains(':')) by {
        if let Some(u) = user {
            assert forall|j: int| 0 <= j < w.len() implies w[j] != '/' && w[j] != ':' by {
                if j < u.len() {
                    assert(w[j] == u[j]);
                    if u[j] == '/' || u[j] == ':' {
                        assert(u.contains(u[j]));
                    }
                } else if j > u.len() {
                    assert(w[j] == host[j - u.len() - 1]);
                    if host[j - u.len() - 1] == '/' || host[j - u.len() - 1] == ':' {
                        assert(host.contains(host[j - u.len() - 1]));
                    }
                }
            }
        }
    }
    assert(url[0] == w[0]);
    if let Some(u) = user {
        assert(w[0] == u[0]);
    }
    assert(url.last() == path.last());
    assert(trim_start_by(url, |c: char| unicode_white_space(c)) == url);
    assert(trim(url) == url);
    assert(url[w.len() as int] == ':');
    assert(url[w.len() as int + 1] == path[0]);
    assert forall|j: int| 0 <= j < w.len() implies url[j] != ':' && url[j] == w[j] by {
        if w[j] == ':' {
            assert(w.contains(':'));
        }
    }
    assert(!"https://"@.is_prefix_of(url)) by {
        let p = "https://"@;
        if p.is_prefix_of(url) {
            assert forall|j: int| 0 <= j < 8 implies url[j] == p[j] by {
                assert(url.subrange(0, 8)[j] == url[j]);
            }
            if w.len() < 5 {
                assert(url[w.len() as int] == p[w.len() as int]);
            } else if w.len() == 5 {
                assert(url[6] == p[6]);
            } else {
                assert(url[5] == p[5]);
            }
        }
    }
    assert(!"http://"@.is_prefix_of(url)) by {
        let p = "http://"@;
        if p.is_prefix_of(url) {
            assert forall|j: int| 0 <= j < 7 implies url[j] == p[j] by {
                assert(url.subrange(0, 7)[j] == url[j]);
            }
            if w.len() < 4 {
                assert(url[w.len() as int] == p[w.len() as int]);
            } else if w.len() == 4 {
                assert(url[5] == p[5]);
            } else {
                assert(url[4] == p[4]);
            }
        }
    }
    assert(!"ssh://"@.is_prefix_of(url)) by {
        let p = "ssh://"@;
        if p.is_prefix_of(url) {
            assert forall|j: int| 0 <= j < 6 implies url[j] == p[j] by {
                assert(url.subrange(0, 6)[j] == url[j]);
            }
            if w.len() < 3 {
                assert(url[w.len() as int] == p[w.len() as int]);
            } else if w.len() == 3 {
                assert(url[4] == p[4]);
            } else {
                assert(url[3] == p[3]);
            }
        }
    }
    lemma_split_once_at(w, ':', path);
    match user {
        Some(u) => {
            lemma_split_once_at(u, '@', host);
        },
        None => {
            lemma_split_once_none(host, '@');
        },
    }
}

/// `host[:port]`.
pub open spec fn with_port(host: Seq<char>, port: Option<Seq<char>>) -> Seq<char> {
    match port {
        Some(p) => host + seq![':'] + p,
        None => host,
    }
}

/// An `ssh://[user@]host[:port]/path` remote names the repository at
/// `path` on `host`: its base is the one built from that host and path,
/// whatever the user and port.
pub proof fn law_ssh_remote_names_host_and_path(
    user: Option<Seq<char>>,
    host: Seq<char>,
    port: Option<Seq<char>>,
    path: Seq<char>,
)
    requires
        !host.contains('/') && !host.contains(':') && !host.contains('@'),
        port is Some ==> !port->0.contains('/') && !port->0.contains('@'),
        user is Some ==> !user->0.contains('@'),
        user is None ==> !path.contains('@'),
        path.len() == 0 || !unicode_white_space(path.last()),
    ensures
        https_base_of_remote("ssh://"@ + with_user(user, with_port(host, port)) + seq!['/'] + path)
            == https_base(host, path),
{
    reveal_strlit("https://");
    reveal_strlit("http://");
    reveal_strlit("ssh://");
    let hp = with_port(host, port);
    let w = with_user(user, hp);
    let url = "ssh://"@ + w + seq!['/'] + path;
    assert(url[0] == 's');
    assert(url[1] == 's');
    assert(url.last() == (if path.len() == 0 { '/' } else { path.last() }));
    assert(trim_start_by(url, |c: char| unicode_white_space(c)) == url);
    assert(trim(url) == url);
    assert(!"https://"@.is_prefix_of(url)) by {
        if "https://"@.is_prefix_of(url) {
            assert(url.subrange(0, 8)[1] == url[1]);
        }
    }
    assert(!"http://"@.is_prefix_of(url)) by {
        if "http://"@.is_prefix_of(url) {
            assert(url.subrange(0, 7)[1] == url[1]);
        }
    }
    assert("ssh://"@.is_prefix_of(url));
    let rest = w + seq!['/'] + path;
    assert(url.skip(6) =~= rest);
    let rest2 = hp + seq!['/'] + path;
    assert(!hp.contains('/') && !hp.contains('@')) by {
        if let Some(p) = port {
            assert forall|j: int| 0 <= j < hp.len() implies hp[j] != '/' && hp[j] != '@' by {
                if j < host.len() {
                    assert(hp[j] == host[j]);
                    if host[j] == '/' || host[j] == '@' {
                        assert(host.contains(host[j]));
                    }
                } else if j > host.len() {
                    assert(hp[j] == p[j - host.len() - 1]);
                    if p[j - host.len() - 1] == '/' || p[j - host.len() - 1] == '@' {
                        assert(p.contains(p[j - host.len() - 1]));
                    }
                }
            }
        }
    }
    match user {
        Some(u) => {
            assert(rest =~= u + seq!['@'] + rest2);
            lemma_split_once_at(u, '@', rest2);
        },
        None => {
            assert(rest == rest2);
            assert(!rest2.contains('@')) by {
                assert forall|j: int| 0 <= j < rest2.len() implies rest2[j] != '@' by {
                    if j < hp.len() {
                        assert(rest2[j] == hp[j]);
                        if hp[j] == '@' {
                            assert(hp.contains('@'));
                        }
                    } else if j > hp.len() {
                        assert(rest2[j] == path[j - hp.len() - 1]);
                        if path[j - hp.len() - 1] == '@' {
                            assert(path.contains('@'));
                        }
                    }
                }
            }
            lemma_split_once_none(rest2, '@');
        },
    }
    lemma_split_once_at(hp, '/', path);
    match port {
        Some(p) => {
            lemma_split_once_at(host, ':', p);
        },
        None => {
            lemma_split_once_none(host, ':');
        },
    }
}

} // verus!
