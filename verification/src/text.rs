//! Character-level text algorithms: substring search, literal replacement,
//! splitting and joining on a separator character, trimming, and decimal
//! conversions.  Everything here is stated over `Seq<char>`, the view that
//! `String` and `&str` carry.
use vstd::prelude::*;

verus! {

use vstd::string::StrSliceExecFns;
use vstd::string::StringExecFns;

/// True when `needle` occurs in `hay` starting at position `i`.
pub open spec fn occurs_at(hay: Seq<char>, needle: Seq<char>, i: int) -> bool {
    &&& 0 <= i
    &&& i + needle.len() <= hay.len()
    &&& hay.subrange(i, i + needle.len() as int) == needle
}

/// True when `needle` occurs somewhere in `hay` as a contiguous substring.
pub open spec fn contains_seq(hay: Seq<char>, needle: Seq<char>) -> bool {
    exists|i: int| occurs_at(hay, needle, i)
}

/// The empty pattern occurs in every text.
pub proof fn lemma_empty_needle_occurs(hay: Seq<char>)
    ensures
        contains_seq(hay, Seq::<char>::empty()),
{
    assert(occurs_at(hay, Seq::<char>::empty(), 0)) by {
        assert(hay.subrange(0, 0) =~= Seq::<char>::empty());
    }
}

/// Copy the characters of a string slice into a vector.
pub fn chars_of(s: &str) -> (r: Vec<char>)
    ensures
        r@ == s@,
{
    let n: usize = s.unicode_len();
    let mut r: Vec<char> = Vec::new();
    let mut i: usize = 0;
    while i < n
        invariant
            n == s@.len(),
            i <= n,
            r@ == s@.subrange(0, i as int),
        decreases n - i,
    {
        r.push(s.get_char(i));
        proof {
            assert(r@ =~= s@.subrange(0, i + 1 as int));
        }
        i = i + 1;
    }
    proof {
        assert(r@ =~= s@);
    }
    r
}

/// Relies on std's `String::push`: appends one character to the string.
#[verifier::external_body]
fn push_char(s: &mut String, c: char)
    ensures
        final(s)@ == old(s)@.push(c),
{
    s.push(c);
}

/// Build a `String` whose characters are exactly `chars`.
pub fn string_from_chars(chars: &Vec<char>) -> (r: String)
    ensures
        r@ == chars@,
{
    let mut r: String = String::new();
    let mut i: usize = 0;
    while i < chars.len()
        invariant
            i <= chars@.len(),
            r@ == chars@.subrange(0, i as int),
        decreases chars@.len() - i,
    {
        push_char(&mut r, chars[i]);
        proof {
            assert(r@ =~= chars@.subrange(0, i + 1 as int));
        }
        i = i + 1;
    }
    proof {
        assert(r@ =~= chars@);
    }
    r
}

/// Decide whether `needle` occurs in `hay` starting exactly at `i`.
pub fn occurs_at_exec(hay: &Vec<char>, needle: &Vec<char>, i: usize) -> (r: bool)
    requires
        i + needle@.len() <= hay@.len(),
    ensures
        r == occurs_at(hay@, needle@, i as int),
{
    let hl: usize = hay.len();
    let mut j: usize = 0;
    while j < needle.len()
        invariant
            hl == hay@.len(),
            i + needle@.len() <= hay@.len(),
            j <= needle@.len(),
            forall|k: int| 0 <= k < j ==> hay@[i + k] == needle@[k],
        decreases needle@.len() - j,
    {
        if hay[i + j] != needle[j] {
            assert(hay@.subrange(i as int, i + needle@.len() as int)[j as int] != needle@[j as int]);
            return false;
        }
        j = j + 1;
    }
    proof {
        assert(hay@.subrange(i as int, i + needle@.len() as int) =~= needle@);
    }
    true
}

/// Decide whether `needle` occurs anywhere in `hay`.
pub fn contains_chars(hay: &Vec<char>, needle: &Vec<char>) -> (r: bool)
    ensures
        r == contains_seq(hay@, needle@),
{
    if needle.len() == 0 {
        proof {
            assert(needle@ =~= Seq::<char>::empty());
            lemma_empty_needle_occurs(hay@);
        }
        return true;
    }
    if needle.len() > hay.len() {
        return false;
    }
    let hl: usize = hay.len();
    let last: usize = hay.len() - needle.len();
    let mut i: usize = 0;
    while i <= last
        invariant
            hl == hay@.len(),
            1 <= needle@.len() <= hay@.len(),
            last == hay@.len() - needle@.len(),
            i <= last + 1,
            forall|k: int| 0 <= k < i ==> !occurs_at(hay@, needle@, k),
        decreases last + 1 - i,
    {
        if occurs_at_exec(hay, needle, i) {
            return true;
        }
        i = i + 1;
    }
    false
}

/// Decide whether `pat` occurs in the string `hay`.
pub fn str_contains(hay: &str, pat: &str) -> (r: bool)
    ensures
        r == contains_seq(hay@, pat@),
{
    let h = chars_of(hay);
    let p = chars_of(pat);
    contains_chars(&h, &p)
}

/// If a text contains a pattern, so does any extension of it on the left.
pub proof fn lemma_contains_extend_left(u: Seq<char>, t: Seq<char>, n: Seq<char>)
    requires
        contains_seq(t, n),
    ensures
        contains_seq(u + t, n),
{
    let i = choose|i: int| occurs_at(t, n, i);
    assert((u + t).subrange(u.len() + i, u.len() + i + n.len() as int) =~= t.subrange(
        i,
        i + n.len() as int,
    ));
    assert(occurs_at(u + t, n, u.len() + i));
}

/// A prefix of a concatenation is found in the concatenation.
pub proof fn lemma_concat_contains_prefix(u: Seq<char>, t: Seq<char>)
    ensures
        contains_seq(u + t, u),
{
    assert((u + t).subrange(0, u.len() as int) =~= u);
    assert(occurs_at(u + t, u, 0));
}

/// The result of replacing every occurrence of `pat` in `s` by `sub`,
/// scanning left to right and never rescanning substituted text.
/// An empty pattern leaves the text unchanged.
pub open spec fn replace_all_spec(s: Seq<char>, pat: Seq<char>, sub: Seq<char>) -> Seq<char>
    decreases s.len(),
{
    if pat.len() == 0 || s.len() == 0 {
        s
    } else if pat.len() <= s.len() && s.subrange(0, pat.len() as int) == pat {
        sub + replace_all_spec(s.skip(pat.len() as int), pat, sub)
    } else {
        seq![s[0]] + replace_all_spec(s.skip(1), pat, sub)
    }
}

/// Replacement on a text free of the pattern changes nothing.
pub proof fn lemma_replace_no_occurrence(s: Seq<char>, pat: Seq<char>, sub: Seq<char>)
    requires
        !contains_seq(s, pat) || pat.len() == 0,
    ensures
        replace_all_spec(s, pat, sub) == s,
    decreases s.len(),
{
    if pat.len() == 0 || s.len() == 0 {
    } else {
        if pat.len() <= s.len() && s.subrange(0, pat.len() as int) == pat {
            assert(occurs_at(s, pat, 0));
            assert(false);
        }
        assert forall|i: int| !occurs_at(s.skip(1), pat, i) by {
            if occurs_at(s.skip(1), pat, i) {
                assert(s.subrange(i + 1, i + 1 + pat.len() as int) =~= s.skip(1).subrange(
                    i,
                    i + pat.len() as int,
                ));
                assert(occurs_at(s, pat, i + 1));
            }
        }
        lemma_replace_no_occurrence(s.skip(1), pat, sub);
        assert(replace_all_spec(s, pat, sub) =~= s);
    }
}

/// When the pattern was found, the substitute occurs in the replaced text.
pub proof fn lemma_replace_contains_sub(s: Seq<char>, pat: Seq<char>, sub: Seq<char>)
    requires
        pat.len() > 0,
        contains_seq(s, pat),
    ensures
        contains_seq(replace_all_spec(s, pat, sub), sub),
    decreases s.len(),
{
    let i = choose|i: int| occurs_at(s, pat, i);
    assert(s.len() > 0);
    if pat.len() <= s.len() && s.subrange(0, pat.len() as int) == pat {
        lemma_concat_contains_prefix(sub, replace_all_spec(s.skip(pat.len() as int), pat, sub));
    } else {
        assert(i != 0);
        assert(s.skip(1).subrange(i - 1, i - 1 + pat.len() as int) =~= s.subrange(
            i,
            i + pat.len() as int,
        ));
        assert(occurs_at(s.skip(1), pat, i - 1));
        lemma_replace_contains_sub(s.skip(1), pat, sub);
        lemma_contains_extend_left(seq![s[0]], replace_all_spec(s.skip(1), pat, sub), sub);
    }
}

/// A single character occurs in a concatenation exactly when it occurs in
/// one of the parts.
pub proof fn lemma_single_char_concat(a: Seq<char>, b: Seq<char>, n: Seq<char>)
    requires
        n.len() == 1,
    ensures
        contains_seq(a + b, n) <==> contains_seq(a, n) || contains_seq(b, n),
{
    if contains_seq(a + b, n) {
        let i = choose|i: int| occurs_at(a + b, n, i);
        if i < a.len() {
            assert(a.subrange(i, i + 1) =~= (a + b).subrange(i, i + 1));
            assert(occurs_at(a, n, i));
        } else {
            assert(b.subrange(i - a.len(), i - a.len() + 1) =~= (a + b).subrange(i, i + 1));
            assert(occurs_at(b, n, i - a.len()));
        }
    }
    if contains_seq(a, n) {
        let i = choose|i: int| occurs_at(a, n, i);
        assert((a + b).subrange(i, i + 1) =~= a.subrange(i, i + 1));
        assert(occurs_at(a + b, n, i));
    }
    if contains_seq(b, n) {
        let i = choose|i: int| occurs_at(b, n, i);
        assert((a + b).subrange(a.len() + i, a.len() + i + 1) =~= b.subrange(i, i + 1));
        assert(occurs_at(a + b, n, a.len() + i));
    }
}

/// For a single-character pattern, replacement removes every occurrence,
/// provided the substitute does not itself contain the pattern.
pub proof fn lemma_replace_removes_single_char(s: Seq<char>, pat: Seq<char>, sub: Seq<char>)
    requires
        pat.len() == 1,
        !contains_seq(sub, pat),
    ensures
        !contains_seq(replace_all_spec(s, pat, sub), pat),
    decreases s.len(),
{
    if s.len() == 0 {
        if contains_seq(s, pat) {
            let i = choose|i: int| occurs_at(s, pat, i);
            assert(false);
        }
        if contains_seq(replace_all_spec(s, pat, sub), pat) {
            let i = choose|i: int| occurs_at(replace_all_spec(s, pat, sub), pat, i);
            assert(false);
        }
    } else if s.subrange(0, 1) == pat {
        lemma_replace_removes_single_char(s.skip(1), pat, sub);
        lemma_single_char_concat(sub, replace_all_spec(s.skip(1), pat, sub), pat);
    } else {
        lemma_replace_removes_single_char(s.skip(1), pat, sub);
        lemma_single_char_concat(seq![s[0]], replace_all_spec(s.skip(1), pat, sub), pat);
        if contains_seq(seq![s[0]], pat) {
            let i = choose|i: int| occurs_at(seq![s[0]], pat, i);
            assert(i == 0);
            assert(seq![s[0]].subrange(0, 1) =~= s.subrange(0, 1));
            assert(false);
        }
    }
}

/// Append every character of `src` to `out`.
pub fn push_all(out: &mut Vec<char>, src: &Vec<char>)
    ensures
        final(out)@ == old(out)@ + src@,
{
    let mut k: usize = 0;
    while k < src.len()
        invariant
            k <= src@.len(),
            out@ == old(out)@ + src@.subrange(0, k as int),
        decreases src@.len() - k,
    {
        out.push(src[k]);
        proof {
            assert(old(out)@ + src@.subrange(0, k as int) + seq![src@[k as int]] =~= old(out)@
                + src@.subrange(0, k + 1 as int));
        }
        k = k + 1;
    }
    proof {
        assert(old(out)@ + src@.subrange(0, src@.len() as int) =~= old(out)@ + src@);
    }
}

/// Replace every occurrence of `pat` in `hay` by `sub`, left to right.
pub fn replace_chars(hay: &Vec<char>, pat: &Vec<char>, sub: &Vec<char>) -> (r: Vec<char>)
    ensures
        r@ == replace_all_spec(hay@, pat@, sub@),
{
    let mut out: Vec<char> = Vec::new();
    if pat.len() == 0 {
        push_all(&mut out, hay);
        proof {
            assert(out@ =~= hay@);
        }
        return out;
    }
    let hl: usize = hay.len();
    let mut i: usize = 0;
    proof {
        assert(hay@.skip(0) =~= hay@);
        assert(out@ + replace_all_spec(hay@, pat@, sub@) =~= replace_all_spec(hay@, pat@, sub@));
    }
    while i < hl
        invariant
            hl == hay@.len(),
            pat@.len() >= 1,
            i <= hl,
            replace_all_spec(hay@, pat@, sub@) == out@ + replace_all_spec(
                hay@.skip(i as int),
                pat@,
                sub@,
            ),
        decreases hl - i,
    {
        let ghost rest = hay@.skip(i as int);
        if pat.len() <= hl - i && occurs_at_exec(hay, pat, i) {
            proof {
                assert(rest.subrange(0, pat@.len() as int) =~= hay@.subrange(
                    i as int,
                    i + pat@.len() as int,
                ));
                assert(rest.skip(pat@.len() as int) =~= hay@.skip(i + pat@.len() as int));
            }
            push_all(&mut out, sub);
            i = i + pat.len();
        } else {
            proof {
                if i + pat@.len() <= hl {
                    assert(rest.subrange(0, pat@.len() as int) =~= hay@.subrange(
                        i as int,
                        i + pat@.len() as int,
                    ));
                }
                assert(rest.skip(1) =~= hay@.skip(i + 1));
                assert(seq![rest[0]] =~= seq![hay@[i as int]]);
            }
            out.push(hay[i]);
            i = i + 1;
        }
    }
    proof {
        assert(hay@.skip(hl as int) =~= Seq::<char>::empty());
    }
    out
}

/// Replace every occurrence of `pat` in the string `hay` by `sub`.
pub fn str_replace_all(hay: &str, pat: &str, sub: &str) -> (r: String)
    ensures
        r@ == replace_all_spec(hay@, pat@, sub@),
{
    let h = chars_of(hay);
    let p = chars_of(pat);
    let s = chars_of(sub);
    let out = replace_chars(&h, &p, &s);
    string_from_chars(&out)
}

/// The segments of `s` between occurrences of the separator.  Splitting
/// never yields an empty list: a text without the separator is one segment.
pub open spec fn split_seq(s: Seq<char>, sep: char) -> Seq<Seq<char>>
    decreases s.len(),
{
    if s.len() == 0 {
        seq![Seq::<char>::empty()]
    } else if s[0] == sep {
        seq![Seq::<char>::empty()] + split_seq(s.skip(1), sep)
    } else {
        seq![seq![s[0]] + split_seq(s.skip(1), sep)[0]] + split_seq(s.skip(1), sep).skip(1)
    }
}

pub proof fn lemma_split_nonempty(s: Seq<char>, sep: char)
    ensures
        split_seq(s, sep).len() >= 1,
    decreases s.len(),
{
    if s.len() == 0 {
    } else {
        lemma_split_nonempty(s.skip(1), sep)
    }
}

/// The segments interleaved with the separator, in order.
pub open spec fn join_seq(parts: Seq<Seq<char>>, sep: char) -> Seq<char>
    decreases parts.len(),
{
    if parts.len() == 0 {
        Seq::empty()
    } else if parts.len() == 1 {
        parts[0]
    } else {
        parts[0] + seq![sep] + join_seq(parts.skip(1), sep)
    }
}

/// Joining the split of a text gives the text back.
pub proof fn lemma_join_split(s: Seq<char>, sep: char)
    ensures
        join_seq(split_seq(s, sep), sep) == s,
    decreases s.len(),
{
    if s.len() == 0 {
    } else if s[0] == sep {
        lemma_join_split(s.skip(1), sep);
        lemma_split_nonempty(s.skip(1), sep);
        assert(Seq::<char>::empty() + seq![sep] + join_seq(split_seq(s.skip(1), sep), sep) =~= s);
        assert((seq![Seq::<char>::empty()] + split_seq(s.skip(1), sep)).skip(1) =~= split_seq(
            s.skip(1),
            sep,
        ));
    } else {
        lemma_join_split(s.skip(1), sep);
        lemma_split_nonempty(s.skip(1), sep);
        let tail = split_seq(s.skip(1), sep);
        let whole = seq![seq![s[0]] + tail[0]] + tail.skip(1);
        if tail.len() == 1 {
            assert(whole.len() == 1);
            assert(join_seq(whole, sep) == seq![s[0]] + tail[0]);
            assert(join_seq(tail, sep) == tail[0]);
            assert(seq![s[0]] + tail[0] =~= s);
        } else {
            assert(whole.len() >= 2);
            assert(whole.skip(1) =~= tail.skip(1));
            assert(join_seq(whole, sep) == seq![s[0]] + tail[0] + seq![sep] + join_seq(
                tail.skip(1),
                sep,
            ));
            assert(join_seq(tail, sep) == tail[0] + seq![sep] + join_seq(tail.skip(1), sep));
            assert(seq![s[0]] + tail[0] + seq![sep] + join_seq(tail.skip(1), sep) =~= seq![s[0]]
                + (tail[0] + seq![sep] + join_seq(tail.skip(1), sep)));
            assert(seq![s[0]] + s.skip(1) =~= s);
        }
    }
}

/// Joining a list extended by one more segment.
pub proof fn lemma_join_push(parts: Seq<Seq<char>>, x: Seq<char>, sep: char)
    ensures
        parts.len() == 0 ==> join_seq(parts.push(x), sep) == x,
        parts.len() >= 1 ==> join_seq(parts.push(x), sep) == join_seq(parts, sep) + seq![sep] + x,
    decreases parts.len(),
{
    if parts.len() == 0 {
        assert(parts.push(x).len() == 1);
        assert(parts.push(x)[0] == x);
    } else if parts.len() == 1 {
        assert(parts.push(x).len() == 2);
        assert(parts.push(x).skip(1) =~= seq![x]);
        assert(join_seq(seq![x], sep) == x);
        assert(parts.push(x)[0] == parts[0]);
    } else {
        lemma_join_push(parts.skip(1), x, sep);
        assert(parts.push(x).skip(1) =~= parts.skip(1).push(x));
        assert(parts.push(x)[0] == parts[0]);
        assert(parts[0] + seq![sep] + (join_seq(parts.skip(1), sep) + seq![sep] + x) =~= parts[0]
            + seq![sep] + join_seq(parts.skip(1), sep) + seq![sep] + x);
    }
}

/// Split a string into the segments between occurrences of `sep`.
pub fn split_str(s: &str, sep: char) -> (r: Vec<String>)
    ensures
        r.deep_view() == split_seq(s@, sep),
        r@.len() >= 1,
{
    let cs = chars_of(s);
    let n: usize = cs.len();
    let mut finished: Vec<String> = Vec::new();
    let mut cur: Vec<char> = Vec::new();
    let mut i: usize = 0;
    proof {
        assert(s@.skip(0) =~= s@);
        lemma_split_nonempty(s@, sep);
    }
    while i < n
        invariant
            cs@ == s@,
            n == s@.len(),
            i <= n,
            split_seq(s@, sep) == finished.deep_view() + (seq![
                cur@ + split_seq(s@.skip(i as int), sep)[0],
            ] + split_seq(s@.skip(i as int), sep).skip(1)),
        decreases n - i,
    {
        let ghost rest = s@.skip(i as int);
        proof {
            assert(rest.len() > 0);
            assert(rest.skip(1) =~= s@.skip(i + 1));
            lemma_split_nonempty(s@.skip(i + 1), sep);
        }
        if cs[i] == sep {
            let seg = string_from_chars(&cur);
            finished.push(seg);
            cur = Vec::new();
            proof {
                assert(cur@ + split_seq(s@.skip(i + 1), sep)[0] =~= Seq::<char>::empty()
                    + split_seq(s@.skip(i + 1), sep)[0]);
                assert(split_seq(rest, sep) == seq![Seq::<char>::empty()] + split_seq(
                    s@.skip(i + 1),
                    sep,
                ));
            }
        } else {
            cur.push(cs[i]);
            proof {
                assert(split_seq(rest, sep)[0] == seq![rest[0]] + split_seq(s@.skip(i + 1), sep)[0]);
                assert(split_seq(rest, sep).skip(1) =~= split_seq(s@.skip(i + 1), sep).skip(1));
            }
        }
        i = i + 1;
        proof {
            lemma_split_nonempty(s@.skip(i as int), sep);
            assert(split_seq(s@, sep) =~~= finished.deep_view() + (seq![
                cur@ + split_seq(s@.skip(i as int), sep)[0],
            ] + split_seq(s@.skip(i as int), sep).skip(1)));
        }
    }
    proof {
        assert(s@.skip(n as int) =~= Seq::<char>::empty());
    }
    let seg = string_from_chars(&cur);
    finished.push(seg);
    proof {
        assert(cur@ + split_seq(Seq::<char>::empty(), sep)[0] =~= cur@);
        assert(split_seq(Seq::<char>::empty(), sep).skip(1) =~= Seq::<Seq<char>>::empty());
        assert(finished.deep_view() =~~= split_seq(s@, sep));
    }
    finished
}

/// The whitespace characters stripped by trimming.
pub open spec fn is_blank(c: char) -> bool {
    c == ' ' || c == '\t' || c == '\n' || c == '\r' || c == '\u{c}'
}

pub open spec fn trim_start_spec(s: Seq<char>) -> Seq<char>
    decreases s.len(),
{
    if s.len() > 0 && is_blank(s[0]) {
        trim_start_spec(s.skip(1))
    } else {
        s
    }
}

pub open spec fn trim_end_spec(s: Seq<char>) -> Seq<char>
    decreases s.len(),
{
    if s.len() > 0 && is_blank(s.last()) {
        trim_end_spec(s.drop_last())
    } else {
        s
    }
}

/// `s` with blank characters removed from both ends.
pub open spec fn trim_spec(s: Seq<char>) -> Seq<char> {
    trim_end_spec(trim_start_spec(s))
}

fn is_blank_exec(c: char) -> (r: bool)
    ensures
        r == is_blank(c),
{
    c == ' ' || c == '\t' || c == '\n' || c == '\r' || c == '\u{c}'
}

/// Remove blank characters from both ends of the character list.
pub fn trim_chars(s: &Vec<char>) -> (r: Vec<char>)
    ensures
        r@ == trim_spec(s@),
{
    let n: usize = s.len();
    let mut start: usize = 0;
    proof {
        assert(s@.skip(0) =~= s@);
    }
    while start < n && is_blank_exec(s[start])
        invariant
            n == s@.len(),
            start <= n,
            trim_start_spec(s@) == trim_start_spec(s@.skip(start as int)),
        decreases n - start,
    {
        proof {
            assert(s@.skip(start as int).skip(1) =~= s@.skip(start + 1));
        }
        start = start + 1;
    }
    proof {
        assert(trim_start_spec(s@.skip(start as int)) == s@.skip(start as int));
    }
    let mut end: usize = n;
    proof {
        assert(s@.subrange(start as int, end as int) =~= s@.skip(start as int));
    }
    while end > start && is_blank_exec(s[end - 1])
        invariant
            n == s@.len(),
            start <= end <= n,
            trim_end_spec(s@.skip(start as int)) == trim_end_spec(
                s@.subrange(start as int, end as int),
            ),
        decreases end,
    {
        proof {
            let cur = s@.subrange(start as int, end as int);
            assert(cur.last() == s@[end - 1]);
            assert(cur.drop_last() =~= s@.subrange(start as int, end - 1));
        }
        end = end - 1;
    }
    proof {
        assert(trim_end_spec(s@.subrange(start as int, end as int)) == s@.subrange(
            start as int,
            end as int,
        ));
    }
    let mut r: Vec<char> = Vec::new();
    let mut i: usize = start;
    while i < end
        invariant
            n == s@.len(),
            start <= i <= end <= n,
            r@ == s@.subrange(start as int, i as int),
        decreases end - i,
    {
        r.push(s[i]);
        proof {
            assert(s@.subrange(start as int, i as int).push(s@[i as int]) =~= s@.subrange(
                start as int,
                i + 1,
            ));
        }
        i = i + 1;
    }
    r
}

pub open spec fn is_digit(c: char) -> bool {
    '0' as u32 <= c as u32 <= '9' as u32
}

pub open spec fn digit_val(c: char) -> int {
    c as u32 - '0' as u32
}

pub open spec fn all_digits(s: Seq<char>) -> bool {
    forall|i: int| 0 <= i < s.len() ==> is_digit(#[trigger] s[i])
}

/// The number that a string of decimal digits denotes.
pub open spec fn digits_value(s: Seq<char>) -> int
    decreases s.len(),
{
    if s.len() == 0 {
        0
    } else {
        digits_value(s.drop_last()) * 10 + digit_val(s.last())
    }
}

pub open spec fn strip_plus(s: Seq<char>) -> Seq<char> {
    if s.len() > 0 && s[0] == '+' {
        s.skip(1)
    } else {
        s
    }
}

/// What `usize` decimal parsing accepts: an optional leading `+`, then one
/// or more digits, denoting a value that fits in `usize`.
pub open spec fn parse_usize_spec(s: Seq<char>) -> Option<int> {
    let d = strip_plus(s);
    if d.len() > 0 && all_digits(d) && digits_value(d) <= usize::MAX as int {
        Some(digits_value(d))
    } else {
        None
    }
}

proof fn lemma_digits_value_nonneg(s: Seq<char>)
    requires
        all_digits(s),
    ensures
        digits_value(s) >= 0,
    decreases s.len(),
{
    if s.len() > 0 {
        assert(all_digits(s.drop_last())) by {
            assert(forall|i: int| 0 <= i < s.len() - 1 ==> #[trigger] s.drop_last()[i] == s[i]);
        }
        lemma_digits_value_nonneg(s.drop_last());
    }
}

proof fn lemma_digits_value_monotone(s: Seq<char>, k: int)
    requires
        all_digits(s),
        0 <= k <= s.len(),
    ensures
        digits_value(s) >= digits_value(s.take(k)),
    decreases s.len() - k,
{
    if k < s.len() {
        lemma_digits_value_monotone(s, k + 1);
        let t = s.take(k + 1);
        assert(t.drop_last() =~= s.take(k));
        assert(all_digits(t)) by {
            assert(forall|i: int| 0 <= i < t.len() ==> #[trigger] t[i] == s[i]);
        }
        assert(all_digits(s.take(k))) by {
            assert(forall|i: int| 0 <= i < s.take(k).len() ==> #[trigger] s.take(k)[i] == s[i]);
        }
        lemma_digits_value_nonneg(s.take(k));
        assert(digits_value(t) == digits_value(s.take(k)) * 10 + digit_val(t.last()));
        assert(digits_value(s.take(k)) * 10 >= digits_value(s.take(k))) by (nonlinear_arith)
            requires
                digits_value(s.take(k)) >= 0,
        ;
    } else {
        assert(s.take(k) =~= s);
    }
}

fn digit_of(c: char) -> (r: usize)
    requires
        is_digit(c),
    ensures
        r == digit_val(c),
        r < 10,
{
    (c as u32 as usize) - ('0' as u32 as usize)
}

/// Parse a decimal `usize`, accepting exactly what `parse_usize_spec` admits.
pub fn parse_usize(chars: &Vec<char>) -> (r: Option<usize>)
    ensures
        r is Some <==> parse_usize_spec(chars@) is Some,
        r is Some ==> r->0 == parse_usize_spec(chars@)->0,
{
    let n: usize = chars.len();
    let start: usize = if n > 0 && chars[0] == '+' {
        1
    } else {
        0
    };
    let ghost d = strip_plus(chars@);
    proof {
        assert(d =~= chars@.skip(start as int));
    }
    if n == start {
        return None;
    }
    let mut v: usize = 0;
    let mut i: usize = start;
    proof {
        assert(d.take(0) =~= Seq::<char>::empty());
    }
    while i < n
        invariant
            n == chars@.len(),
            start <= i <= n,
            d == chars@.skip(start as int),
            d == strip_plus(chars@),
            all_digits(d.take(i - start)),
            v == digits_value(d.take(i - start)),
        decreases n - i,
    {
        let c = chars[i];
        if !(c as u32 >= '0' as u32 && c as u32 <= '9' as u32) {
            proof {
                assert(d[i - start] == c);
                assert(!is_digit(d[i - start]));
                assert(!all_digits(d));
            }
            return None;
        }
        let dv = digit_of(c);
        proof {
            let t = d.take(i + 1 - start);
            assert(t.drop_last() =~= d.take(i - start));
            assert(t.last() == c);
            assert(all_digits(t)) by {
                assert(forall|j: int| 0 <= j < t.len() - 1 ==> #[trigger] t[j] == d.take(
                    i - start,
                )[j]);
            }
        }
        if v > (usize::MAX - dv) / 10 {
            proof {
                let t = d.take(i + 1 - start);
                assert(digits_value(t) == v * 10 + dv);
                assert(v * 10 + dv > usize::MAX as int) by (nonlinear_arith)
                    requires
                        v > (usize::MAX as int - dv) / 10,
                        0 <= dv < 10,
                        v >= 0,
                ;
                if all_digits(d) {
                    lemma_digits_value_monotone(d, i + 1 - start);
                }
            }
            return None;
        }
        v = v * 10 + dv;
        i = i + 1;
    }
    proof {
        assert(d.take(n - start) =~= d);
    }
    Some(v)
}

/// The decimal digit characters of a non-negative number.
pub open spec fn decimal_spec(n: int) -> Seq<char>
    decreases n,
{
    if n < 10 {
        seq![digit_char_spec(n)]
    } else {
        decimal_spec(n / 10) + seq![digit_char_spec(n % 10)]
    }
}

pub open spec fn digit_char_spec(d: int) -> char {
    if d == 0 {
        '0'
    } else if d == 1 {
        '1'
    } else if d == 2 {
        '2'
    } else if d == 3 {
        '3'
    } else if d == 4 {
        '4'
    } else if d == 5 {
        '5'
    } else if d == 6 {
        '6'
    } else if d == 7 {
        '7'
    } else if d == 8 {
        '8'
    } else {
        '9'
    }
}

fn digit_char(d: usize) -> (r: char)
    requires
        d < 10,
    ensures
        r == digit_char_spec(d as int),
{
    if d == 0 {
        '0'
    } else if d == 1 {
        '1'
    } else if d == 2 {
        '2'
    } else if d == 3 {
        '3'
    } else if d == 4 {
        '4'
    } else if d == 5 {
        '5'
    } else if d == 6 {
        '6'
    } else if d == 7 {
        '7'
    } else if d == 8 {
        '8'
    } else {
        '9'
    }
}

/// Render a number in decimal.
pub fn usize_to_string(n: usize) -> (r: String)
    ensures
        r@ == decimal_spec(n as int),
{
    let mut m: usize = n;
    let mut out: Vec<char> = Vec::new();
    proof {
        assert(decimal_spec(n as int) + Seq::<char>::empty() =~= decimal_spec(n as int));
    }
    while m >= 10
        invariant
            decimal_spec(n as int) == decimal_spec(m as int) + out@,
        decreases m,
    {
        let dg = digit_char(m % 10);
        let ghost before = out@;
        out.insert(0, dg);
        proof {
            assert(out@ =~= seq![dg] + before);
            assert(decimal_spec(m as int) == decimal_spec(m as int / 10) + seq![
                digit_char_spec(m as int % 10),
            ]);
            assert(m as int / 10 == (m / 10) as int);
        }
        m = m / 10;
        proof {
            assert(decimal_spec(n as int) =~= decimal_spec(m as int) + out@);
        }
    }
    let dg = digit_char(m);
    out.insert(0, dg);
    proof {
        assert(decimal_spec(m as int) == seq![digit_char_spec(m as int)]);
        assert(out@ =~= decimal_spec(n as int));
    }
    string_from_chars(&out)
}

/// Join segments with `sep` between each pair of neighbours.
pub fn join_strings(parts: &Vec<String>, sep: char) -> (r: String)
    ensures
        r@ == join_seq(parts.deep_view(), sep),
{
    let sep_chars: Vec<char> = vec![sep];
    let mut out: String = String::new();
    let mut i: usize = 0;
    proof {
        assert(parts.deep_view().take(0) =~= Seq::<Seq<char>>::empty());
    }
    while i < parts.len()
        invariant
            i <= parts@.len(),
            parts.deep_view().len() == parts@.len(),
            out@ == join_seq(parts.deep_view().take(i as int), sep),
            sep_chars@ == seq![sep],
        decreases parts@.len() - i,
    {
        proof {
            assert(parts.deep_view().take(i + 1) =~= parts.deep_view().take(i as int).push(
                parts.deep_view()[i as int],
            ));
            lemma_join_push(parts.deep_view().take(i as int), parts.deep_view()[i as int], sep);
        }
        if i > 0 {
            let sep_str = string_from_chars(&sep_chars);
            out.append(sep_str.as_str());
        }
        out.append(parts[i].as_str());
        i = i + 1;
    }
    proof {
        assert(parts.deep_view().take(parts@.len() as int) =~= parts.deep_view());
    }
    out
}

} // verus!

