//! The line scanner: finds every line of a text that contains a literal
//! pattern, with 1-based line numbers and an exact count of scanned lines.
use vstd::prelude::*;

verus! {

use vstd::string::StrSliceExecFns;
use vstd::string::StringExecFns;
use crate::text::chars_of;
use crate::text::contains_chars;
use crate::text::contains_seq;
use crate::text::split_seq;
use crate::text::split_str;

/// The lowercase conversion of a text, a function of its characters alone.
pub uninterp spec fn lower_of(s: Seq<char>) -> Seq<char>;

/// Relies on `str::to_lowercase`: the result depends on the characters of
/// `s` alone.
#[verifier::external_body]
fn to_lowercase_string(s: &str) -> (r: String)
    ensures
        r@ == lower_of(s@),
{
    s.to_lowercase()
}

/// One line that contains the pattern.
pub struct MatchRecord {
    /// 1-based physical line number within the scanned text.
    pub line_number: usize,
    /// The line's text, as read.
    pub text: String,
}

impl View for MatchRecord {
    type V = (int, Seq<char>);

    open spec fn view(&self) -> (int, Seq<char>) {
        (self.line_number as int, self.text@)
    }
}

impl DeepView for MatchRecord {
    type V = (int, Seq<char>);

    open spec fn deep_view(&self) -> (int, Seq<char>) {
        self@
    }
}

/// Whether a line contains the pattern under the active case rule.
pub open spec fn line_matches(line: Seq<char>, pat: Seq<char>, ignore_case: bool) -> bool {
    if ignore_case {
        contains_seq(lower_of(line), lower_of(pat))
    } else {
        contains_seq(line, pat)
    }
}

/// The matching lines, paired with line numbers counted from `base + 1`.
pub open spec fn scan_from(
    lines: Seq<Seq<char>>,
    pat: Seq<char>,
    ignore_case: bool,
    base: int,
) -> Seq<(int, Seq<char>)>
    decreases lines.len(),
{
    if lines.len() == 0 {
        Seq::empty()
    } else {
        let rest = scan_from(lines.skip(1), pat, ignore_case, base + 1);
        if line_matches(lines[0], pat, ignore_case) {
            seq![(base + 1, lines[0])] + rest
        } else {
            rest
        }
    }
}

/// The matching lines with their 1-based line numbers.
pub open spec fn scan_lines_spec(lines: Seq<Seq<char>>, pat: Seq<char>, ignore_case: bool) -> Seq<
    (int, Seq<char>),
> {
    scan_from(lines, pat, ignore_case, 0)
}

/// How many of the lines match.
pub open spec fn count_matching(lines: Seq<Seq<char>>, pat: Seq<char>, ignore_case: bool) -> int
    decreases lines.len(),
{
    if lines.len() == 0 {
        0
    } else {
        count_matching(lines.skip(1), pat, ignore_case) + if line_matches(
            lines[0],
            pat,
            ignore_case,
        ) {
            1int
        } else {
            0int
        }
    }
}

/// Scanning one more line extends the matches by at most that line.
pub proof fn lemma_scan_push(
    lines: Seq<Seq<char>>,
    x: Seq<char>,
    pat: Seq<char>,
    ignore_case: bool,
    base: int,
)
    ensures
        scan_from(lines.push(x), pat, ignore_case, base) == scan_from(lines, pat, ignore_case, base)
            + (if line_matches(x, pat, ignore_case) {
            seq![(base + lines.len() + 1, x)]
        } else {
            Seq::<(int, Seq<char>)>::empty()
        }),
    decreases lines.len(),
{
    if lines.len() == 0 {
        assert(lines.push(x)[0] == x);
        assert(lines.push(x).skip(1) =~= Seq::<Seq<char>>::empty());
        assert(scan_from(Seq::<Seq<char>>::empty(), pat, ignore_case, base + 1) =~= Seq::<
            (int, Seq<char>),
        >::empty());
        assert(scan_from(lines, pat, ignore_case, base) =~= Seq::<(int, Seq<char>)>::empty());
        if line_matches(x, pat, ignore_case) {
            assert(scan_from(lines.push(x), pat, ignore_case, base) == seq![(base + 1, x)]
                + scan_from(lines.push(x).skip(1), pat, ignore_case, base + 1));
            assert(scan_from(lines.push(x), pat, ignore_case, base) =~= scan_from(
                lines,
                pat,
                ignore_case,
                base,
            ) + seq![(base + lines.len() + 1, x)]);
        } else {
            assert(scan_from(lines.push(x), pat, ignore_case, base) == scan_from(
                lines.push(x).skip(1),
                pat,
                ignore_case,
                base + 1,
            ));
            assert(scan_from(lines.push(x), pat, ignore_case, base) =~= scan_from(
                lines,
                pat,
                ignore_case,
                base,
            ));
        }
    } else {
        assert(lines.push(x).skip(1) =~= lines.skip(1).push(x));
        assert(lines.push(x)[0] == lines[0]);
        lemma_scan_push(lines.skip(1), x, pat, ignore_case, base + 1);
        assert(scan_from(lines.push(x), pat, ignore_case, base) =~= scan_from(
            lines,
            pat,
            ignore_case,
            base,
        ) + (if line_matches(x, pat, ignore_case) {
            seq![(base + lines.len() + 1, x)]
        } else {
            Seq::<(int, Seq<char>)>::empty()
        }));
    }
}

/// There are as many matches as matching lines.
pub proof fn lemma_scan_len(lines: Seq<Seq<char>>, pat: Seq<char>, ignore_case: bool, base: int)
    ensures
        scan_from(lines, pat, ignore_case, base).len() == count_matching(lines, pat, ignore_case),
    decreases lines.len(),
{
    if lines.len() > 0 {
        lemma_scan_len(lines.skip(1), pat, ignore_case, base + 1);
    }
}

/// What the scan result means: every entry names a matching line by its
/// 1-based ordinal, entries come in increasing line order, and every
/// matching line is represented.
pub proof fn lemma_scan_props(lines: Seq<Seq<char>>, pat: Seq<char>, ignore_case: bool, base: int)
    ensures
        ({
            let s = scan_from(lines, pat, ignore_case, base);
            &&& forall|j: int|
                0 <= j < s.len() ==> base + 1 <= (#[trigger] s[j]).0 <= base + lines.len()
            &&& forall|j: int|
                0 <= j < s.len() ==> (#[trigger] s[j]).1 == lines[s[j].0 - base - 1]
                    && line_matches(s[j].1, pat, ignore_case)
            &&& forall|j: int, k: int| 0 <= j < k < s.len() ==> s[j].0 < s[k].0
            &&& forall|i: int|
                0 <= i < lines.len() && line_matches(#[trigger] lines[i], pat, ignore_case)
                    ==> exists|j: int| 0 <= j < s.len() && (#[trigger] s[j]).0 == base + 1 + i
        }),
    decreases lines.len(),
{
    let s = scan_from(lines, pat, ignore_case, base);
    if lines.len() == 0 {
    } else {
        let rest = scan_from(lines.skip(1), pat, ignore_case, base + 1);
        lemma_scan_props(lines.skip(1), pat, ignore_case, base + 1);
        assert(forall|i: int| 0 <= i < lines.skip(1).len() ==> #[trigger] lines.skip(1)[i]
            == lines[i + 1]);
        if line_matches(lines[0], pat, ignore_case) {
            assert(s == seq![(base + 1, lines[0])] + rest);
            assert(s[0] == (base + 1, lines[0]));
            assert(forall|j: int| 1 <= j < s.len() ==> #[trigger] s[j] == rest[j - 1]);
            assert forall|i: int|
                0 <= i < lines.len() && line_matches(#[trigger] lines[i], pat, ignore_case)
                    implies exists|j: int| 0 <= j < s.len() && (#[trigger] s[j]).0 == base + 1
                + i by {
                if i == 0 {
                    assert(s[0].0 == base + 1);
                } else {
                    assert(line_matches(lines.skip(1)[i - 1], pat, ignore_case));
                    let j0 = choose|j0: int|
                        0 <= j0 < rest.len() && (#[trigger] rest[j0]).0 == base + 2 + (i - 1);
                    assert(s[j0 + 1].0 == base + 1 + i);
                }
            }
        } else {
            assert(s == rest);
            assert forall|i: int|
                0 <= i < lines.len() && line_matches(#[trigger] lines[i], pat, ignore_case)
                    implies exists|j: int| 0 <= j < s.len() && (#[trigger] s[j]).0 == base + 1
                + i by {
                assert(i != 0);
                assert(line_matches(lines.skip(1)[i - 1], pat, ignore_case));
                let j0 = choose|j0: int|
                    0 <= j0 < rest.len() && (#[trigger] rest[j0]).0 == base + 2 + (i - 1);
                assert(s[j0].0 == base + 1 + i);
            }
        }
    }
}

/// No more lines match than there are lines.
pub proof fn lemma_count_matching_le(lines: Seq<Seq<char>>, pat: Seq<char>, ignore_case: bool)
    ensures
        0 <= count_matching(lines, pat, ignore_case) <= lines.len(),
    decreases lines.len(),
{
    if lines.len() > 0 {
        lemma_count_matching_le(lines.skip(1), pat, ignore_case);
    }
}

/// How many physical lines a split text has: a final empty segment marks a
/// trailing line break and is not itself a line.
pub open spec fn scanned_count(lines: Seq<Seq<char>>) -> int {
    if lines.len() >= 1 && lines.last().len() == 0 {
        lines.len() - 1
    } else {
        lines.len() as int
    }
}

/// The physical lines of a text.
pub open spec fn content_lines(content: Seq<char>) -> Seq<Seq<char>> {
    let ls = split_seq(content, '\n');
    ls.take(scanned_count(ls))
}

/// A scanned file: its matching lines and how many lines were read.
pub struct ScanOutcome {
    pub matches: Vec<MatchRecord>,
    pub lines_scanned: usize,
}

/// The line scanner.
pub struct Searcher {}

impl Searcher {
    pub fn new() -> (s: Searcher)
        ensures
            s == (Searcher {  }),
    {
        Searcher {  }
    }

    /// Scan a text for every line containing `pattern` under the case rule.
    ///
    /// The match count equals the number of physical lines that contain the
    /// pattern; line numbers are 1-based physical ordinals; matches come in
    /// line order and carry the line's text as read.
    pub fn lookup(&self, content: &str, pattern: &str, ignore_case: bool) -> (r: ScanOutcome)
        ensures
            r.lines_scanned == scanned_count(split_seq(content@, '\n')),
            r.matches.deep_view() == scan_lines_spec(
                content_lines(content@),
                pattern@,
                ignore_case,
            ),
            r.matches@.len() == count_matching(content_lines(content@), pattern@, ignore_case),
            forall|j: int|
                0 <= j < r.matches@.len() ==> 1 <= (#[trigger] r.matches@[j]).line_number
                    <= r.lines_scanned,
            forall|j: int|
                0 <= j < r.matches@.len() ==> (#[trigger] r.matches@[j]).text@ == content_lines(
                    content@,
                )[r.matches@[j].line_number - 1] && line_matches(
                    r.matches@[j].text@,
                    pattern@,
                    ignore_case,
                ),
            forall|j: int, k: int|
                0 <= j < k < r.matches@.len() ==> r.matches@[j].line_number
                    < r.matches@[k].line_number,
            forall|i: int|
                0 <= i < content_lines(content@).len() && line_matches(
                    #[trigger] content_lines(content@)[i],
                    pattern@,
                    ignore_case,
                ) ==> exists|j: int|
                    0 <= j < r.matches@.len() && (#[trigger] r.matches@[j]).line_number == i + 1,
    {
        let split = split_str(content, '\n');
        let total: usize = split.len();
        let count: usize = if split[total - 1].as_str().unicode_len() == 0 {
            total - 1
        } else {
            total
        };
        let ghost lines = content_lines(content@);
        proof {
            assert(split.deep_view().last() == split@[total - 1]@);
            assert(count == scanned_count(split_seq(content@, '\n')));
            assert(lines == split.deep_view().take(count as int));
        }
        let pat_eff: String = if ignore_case {
            to_lowercase_string(pattern)
        } else {
            String::from_str(pattern)
        };
        let pat_chars = chars_of(pat_eff.as_str());
        let ghost pat_view = if ignore_case {
            lower_of(pattern@)
        } else {
            pattern@
        };
        let mut matches: Vec<MatchRecord> = Vec::new();
        let mut i: usize = 0;
        proof {
            assert(lines.take(0) =~= Seq::<Seq<char>>::empty());
        }
        while i < count
            invariant
                lines == content_lines(content@),
                count <= total,
                total == split@.len(),
                split.deep_view() == split_seq(content@, '\n'),
                lines == split.deep_view().take(count as int),
                i <= count,
                pat_chars@ == pat_view,
                pat_view == (if ignore_case {
                    lower_of(pattern@)
                } else {
                    pattern@
                }),
                matches.deep_view() == scan_from(lines.take(i as int), pattern@, ignore_case, 0),
            decreases count - i,
        {
            proof {
                assert(lines[i as int] == split@[i as int]@);
            }
            let is_match: bool = if ignore_case {
                let low = to_lowercase_string(split[i].as_str());
                let low_chars = chars_of(low.as_str());
                contains_chars(&low_chars, &pat_chars)
            } else {
                let line_chars = chars_of(split[i].as_str());
                contains_chars(&line_chars, &pat_chars)
            };
            proof {
                assert(is_match == line_matches(lines[i as int], pattern@, ignore_case));
                assert(lines.take(i + 1) =~= lines.take(i as int).push(lines[i as int]));
                lemma_scan_push(lines.take(i as int), lines[i as int], pattern@, ignore_case, 0);
            }
            if is_match {
                let text = split[i].clone();
                let rec = MatchRecord { line_number: i + 1, text };
                matches.push(rec);
                proof {
                    assert(matches.deep_view() =~= scan_from(
                        lines.take(i + 1),
                        pattern@,
                        ignore_case,
                        0,
                    ));
                }
            } else {
                proof {
                    assert(matches.deep_view() =~= scan_from(
                        lines.take(i + 1),
                        pattern@,
                        ignore_case,
                        0,
                    ));
                }
            }
            i = i + 1;
        }
        proof {
            assert(lines.take(count as int) =~= lines);
            lemma_scan_len(lines, pattern@, ignore_case, 0);
            lemma_scan_props(lines, pattern@, ignore_case, 0);
            assert(forall|j: int|
                0 <= j < matches@.len() ==> (#[trigger] matches@[j]).deep_view()
                    == matches.deep_view()[j]);
        }
        ScanOutcome { matches, lines_scanned: count }
    }
}

} // verus!
