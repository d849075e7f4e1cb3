//! The orchestrator: scans pre-read files in visitation order, assigns each
//! match a global 1-based ordinal, applies the selection, dispatches each
//! match as a lookup report, a preview or an applied replacement, and
//! accumulates the run's totals and warning.
use vstd::prelude::*;

verus! {

use vstd::string::StrSliceExecFns;
use vstd::string::StringExecFns;
use crate::console::Console;
use crate::pattern_matcher::Searcher;
use crate::pattern_matcher::content_lines;
use crate::pattern_matcher::line_matches;
use crate::pattern_matcher::scan_lines_spec;
use crate::pattern_matcher::lemma_scan_len;
use crate::pattern_matcher::lemma_scan_props;
use crate::replacer::Replacer;
use crate::report::Diagnostic;
use crate::report::FileContent;
use crate::report::FileInput;
use crate::report::FileUpdate;
use crate::report::MatchAction;
use crate::report::MatchEvent;
use crate::report::RunOutput;
use crate::report::RunTotals;
use crate::report::RunWarning;
use crate::settings::Options;
use crate::settings::Settings;
use crate::text::join_seq;
use crate::text::replace_all_spec;
use crate::text::split_seq;
use crate::text::split_str;
use crate::utils::is_omitted;
use crate::utils::should_omit_path;

/// The scanner's matches for one file: none unless its text could be read.
pub open spec fn file_scan(f: FileInput, pat: Seq<char>, ci: bool) -> Seq<(int, Seq<char>)> {
    match f.content {
        FileContent::Text(s) => scan_lines_spec(content_lines(s@), pat, ci),
        FileContent::DecodeError(_) => Seq::empty(),
        FileContent::ReadError(_) => Seq::empty(),
    }
}

/// One file's contribution to the run's matches: path, line number, text.
pub open spec fn file_gmatches(f: FileInput, pat: Seq<char>, ci: bool, omit: Seq<Seq<char>>) -> Seq<
    (Seq<char>, int, Seq<char>),
> {
    if is_omitted(f.path@, omit) {
        Seq::empty()
    } else {
        file_scan(f, pat, ci).map_values(|m: (int, Seq<char>)| (f.path@, m.0, m.1))
    }
}

/// Every match of the run, in visitation order.  The match at position `k`
/// carries the ordinal `k + 1`.
pub open spec fn gmatches(
    files: Seq<FileInput>,
    pat: Seq<char>,
    ci: bool,
    omit: Seq<Seq<char>>,
) -> Seq<(Seq<char>, int, Seq<char>)>
    decreases files.len(),
{
    if files.len() == 0 {
        Seq::empty()
    } else {
        file_gmatches(files[0], pat, ci, omit) + gmatches(files.skip(1), pat, ci, omit)
    }
}

/// How many lines scanning one file reads.
pub open spec fn file_scanned(f: FileInput, omit: Seq<Seq<char>>) -> int {
    if is_omitted(f.path@, omit) {
        0
    } else {
        match f.content {
            FileContent::Text(s) => crate::pattern_matcher::scanned_count(split_seq(s@, '\n')),
            FileContent::DecodeError(_) => 0,
            FileContent::ReadError(_) => 0,
        }
    }
}

/// The lines read across all files.
pub open spec fn total_scanned(files: Seq<FileInput>, omit: Seq<Seq<char>>) -> int
    decreases files.len(),
{
    if files.len() == 0 {
        0
    } else {
        file_scanned(files[0], omit) + total_scanned(files.skip(1), omit)
    }
}

/// Whether the match with this 1-based ordinal is eligible: every match is
/// when no selection is active, else exactly the selected ordinals are.
pub open spec fn eligible_spec(ord: int, sel: Option<Vec<usize>>) -> bool {
    sel is None || exists|j: int| 0 <= j < sel->0@.len() && (#[trigger] sel->0@[j]) as int == ord
}

/// How many of the ordinals `1 ..= n` are eligible.
pub open spec fn count_eligible(n: int, sel: Option<Vec<usize>>) -> int
    decreases n,
{
    if n <= 0 {
        0
    } else {
        count_eligible(n - 1, sel) + if eligible_spec(n, sel) {
            1int
        } else {
            0int
        }
    }
}

/// How one match is dispatched, from the mode flags and its eligibility.
pub open spec fn action_spec(lookup: bool, write: bool, eligible: bool) -> MatchAction {
    if lookup {
        MatchAction::Lookup
    } else if write && eligible {
        MatchAction::Write
    } else {
        MatchAction::Preview
    }
}

/// What one emitted match event must say, given the `k`-th global match.
pub open spec fn event_ok(
    ev: MatchEvent,
    gm: (Seq<char>, int, Seq<char>),
    k: int,
    pat: Seq<char>,
    sub: Seq<char>,
    lookup: bool,
    write: bool,
    sel: Option<Vec<usize>>,
) -> bool {
    &&& ev.path@ == gm.0
    &&& ev.line_number as int == gm.1
    &&& ev.ordinal as int == k + 1
    &&& ev.text@ == gm.2
    &&& ev.eligible == eligible_spec(k + 1, sel)
    &&& ev.action == action_spec(lookup, write, eligible_spec(k + 1, sel))
    &&& if lookup {
        ev.new_text is None
    } else {
        ev.new_text is Some && ev.new_text->0@ == replace_all_spec(gm.2, pat, sub)
    }
}

/// One file's diagnostics: read failures are always reported; a file that
/// is not text is reported only in verbose mode.
pub open spec fn file_diags(f: FileInput, verbose: bool) -> Seq<(Seq<char>, Seq<char>)> {
    match f.content {
        FileContent::Text(_) => Seq::empty(),
        FileContent::ReadError(m) => seq![(f.path@, m@)],
        FileContent::DecodeError(m) => if verbose {
            seq![(f.path@, m@)]
        } else {
            Seq::empty()
        },
    }
}

/// The run's diagnostics, in visitation order; omitted files are silent.
pub open spec fn diags_spec(
    files: Seq<FileInput>,
    omit: Seq<Seq<char>>,
    verbose: bool,
) -> Seq<(Seq<char>, Seq<char>)>
    decreases files.len(),
{
    if files.len() == 0 {
        Seq::empty()
    } else {
        (if is_omitted(files[0].path@, omit) {
            Seq::empty()
        } else {
            file_diags(files[0], verbose)
        }) + diags_spec(files.skip(1), omit, verbose)
    }
}

/// A file's line list after rewriting its eligible matched lines; segments
/// that are not matched eligible lines are untouched.
pub open spec fn updated_lines_spec(
    segs: Seq<Seq<char>>,
    scan: Seq<(int, Seq<char>)>,
    base: int,
    sel: Option<Vec<usize>>,
    pat: Seq<char>,
    sub: Seq<char>,
) -> Seq<Seq<char>> {
    Seq::new(
        segs.len(),
        |l: int|
            if exists|k: int|
                0 <= k < scan.len() && (#[trigger] scan[k]).0 == l + 1 && eligible_spec(
                    base + k + 1,
                    sel,
                ) {
                replace_all_spec(segs[l], pat, sub)
            } else {
                segs[l]
            },
    )
}

/// Whether a write run rewrites this file: it is scanned and at least one
/// of its matches is eligible.
pub open spec fn file_needs_update(
    f: FileInput,
    pat: Seq<char>,
    ci: bool,
    omit: Seq<Seq<char>>,
    sel: Option<Vec<usize>>,
    base: int,
) -> bool {
    &&& !is_omitted(f.path@, omit)
    &&& f.content is Text
    &&& exists|k: int|
        0 <= k < file_scan(f, pat, ci).len() && #[trigger] eligible_spec(base + k + 1, sel)
}

/// The new content of a rewritten file.
pub open spec fn file_update_content(
    f: FileInput,
    pat: Seq<char>,
    ci: bool,
    sub: Seq<char>,
    sel: Option<Vec<usize>>,
    base: int,
) -> Seq<char> {
    join_seq(
        updated_lines_spec(
            split_seq(f.content->Text_0@, '\n'),
            file_scan(f, pat, ci),
            base,
            sel,
            pat,
            sub,
        ),
        '\n',
    )
}

/// The files a write run rewrites, with their new contents, in order.
pub open spec fn updates_spec(
    files: Seq<FileInput>,
    pat: Seq<char>,
    ci: bool,
    sub: Seq<char>,
    omit: Seq<Seq<char>>,
    sel: Option<Vec<usize>>,
    write: bool,
    lookup: bool,
    base: int,
) -> Seq<(Seq<char>, Seq<char>)>
    decreases files.len(),
{
    if files.len() == 0 {
        Seq::empty()
    } else {
        (if write && !lookup && file_needs_update(files[0], pat, ci, omit, sel, base) {
            seq![(files[0].path@, file_update_content(files[0], pat, ci, sub, sel, base))]
        } else {
            Seq::<(Seq<char>, Seq<char>)>::empty()
        }) + updates_spec(
            files.skip(1),
            pat,
            ci,
            sub,
            omit,
            sel,
            write,
            lookup,
            base + file_gmatches(files[0], pat, ci, omit).len(),
        )
    }
}

pub proof fn lemma_gmatches_push(
    files: Seq<FileInput>,
    x: FileInput,
    pat: Seq<char>,
    ci: bool,
    omit: Seq<Seq<char>>,
)
    ensures
        gmatches(files.push(x), pat, ci, omit) == gmatches(files, pat, ci, omit) + file_gmatches(
            x,
            pat,
            ci,
            omit,
        ),
    decreases files.len(),
{
    if files.len() == 0 {
        assert(files.push(x)[0] == x);
        assert(files.push(x).skip(1) =~= Seq::<FileInput>::empty());
        assert(gmatches(files.push(x), pat, ci, omit) == file_gmatches(x, pat, ci, omit)
            + gmatches(files.push(x).skip(1), pat, ci, omit));
        assert(gmatches(files, pat, ci, omit) =~= Seq::<(Seq<char>, int, Seq<char>)>::empty());
        assert(gmatches(files.push(x), pat, ci, omit) =~~= gmatches(files, pat, ci, omit)
            + file_gmatches(x, pat, ci, omit));
    } else {
        assert(files.push(x)[0] == files[0]);
        assert(files.push(x).skip(1) =~= files.skip(1).push(x));
        lemma_gmatches_push(files.skip(1), x, pat, ci, omit);
        assert(gmatches(files.push(x), pat, ci, omit) == file_gmatches(files[0], pat, ci, omit)
            + gmatches(files.push(x).skip(1), pat, ci, omit));
        assert(gmatches(files.push(x), pat, ci, omit) =~~= gmatches(files, pat, ci, omit)
            + file_gmatches(x, pat, ci, omit));
    }
}

pub proof fn lemma_total_scanned_push(files: Seq<FileInput>, x: FileInput, omit: Seq<Seq<char>>)
    ensures
        total_scanned(files.push(x), omit) == total_scanned(files, omit) + file_scanned(x, omit),
    decreases files.len(),
{
    if files.len() == 0 {
        assert(files.push(x)[0] == x);
        assert(files.push(x).skip(1) =~= Seq::<FileInput>::empty());
        assert(total_scanned(files.push(x), omit) == file_scanned(x, omit) + total_scanned(
            files.push(x).skip(1),
            omit,
        ));
        assert(total_scanned(Seq::<FileInput>::empty(), omit) == 0);
        assert(total_scanned(files, omit) == 0);
    } else {
        assert(files.push(x)[0] == files[0]);
        assert(files.push(x).skip(1) =~= files.skip(1).push(x));
        lemma_total_scanned_push(files.skip(1), x, omit);
        assert(total_scanned(files.push(x), omit) == file_scanned(files[0], omit) + total_scanned(
            files.push(x).skip(1),
            omit,
        ));
        assert(total_scanned(files, omit) == file_scanned(files[0], omit) + total_scanned(
            files.skip(1),
            omit,
        ));
    }
}

pub proof fn lemma_total_scanned_nonneg(files: Seq<FileInput>, omit: Seq<Seq<char>>)
    ensures
        total_scanned(files, omit) >= 0,
    decreases files.len(),
{
    if files.len() > 0 {
        lemma_total_scanned_nonneg(files.skip(1), omit);
    }
}

/// Each file contributes at most as many matches as it has lines.
pub proof fn lemma_file_gmatches_le_scanned(
    f: FileInput,
    pat: Seq<char>,
    ci: bool,
    omit: Seq<Seq<char>>,
)
    ensures
        0 <= file_gmatches(f, pat, ci, omit).len() <= file_scanned(f, omit),
{
    if !is_omitted(f.path@, omit) {
        match f.content {
            FileContent::Text(s) => {
                let ls = split_seq(s@, '\n');
                lemma_scan_len(content_lines(s@), pat, ci, 0);
                crate::pattern_matcher::lemma_count_matching_le(content_lines(s@), pat, ci);
            },
            FileContent::DecodeError(_) => {
            },
            FileContent::ReadError(_) => {
            },
        }
    }
}

/// A run finds no more matches than it scans lines.
pub proof fn lemma_gmatches_le_scanned(
    files: Seq<FileInput>,
    pat: Seq<char>,
    ci: bool,
    omit: Seq<Seq<char>>,
)
    ensures
        gmatches(files, pat, ci, omit).len() <= total_scanned(files, omit),
    decreases files.len(),
{
    if files.len() > 0 {
        lemma_file_gmatches_le_scanned(files[0], pat, ci, omit);
        lemma_gmatches_le_scanned(files.skip(1), pat, ci, omit);
    }
}

/// The matches of a run split at any file boundary.
pub proof fn lemma_gmatches_split(
    files: Seq<FileInput>,
    pat: Seq<char>,
    ci: bool,
    omit: Seq<Seq<char>>,
    i: int,
)
    requires
        0 <= i <= files.len(),
    ensures
        gmatches(files, pat, ci, omit) == gmatches(files.take(i), pat, ci, omit) + gmatches(
            files.skip(i),
            pat,
            ci,
            omit,
        ),
    decreases files.len() - i,
{
    if i == files.len() {
        assert(files.take(i) =~= files);
        assert(files.skip(i) =~= Seq::<FileInput>::empty());
        assert(gmatches(files, pat, ci, omit) =~~= gmatches(files.take(i), pat, ci, omit)
            + gmatches(files.skip(i), pat, ci, omit));
    } else {
        lemma_gmatches_split(files, pat, ci, omit, i + 1);
        assert(files.take(i + 1) =~= files.take(i).push(files[i]));
        lemma_gmatches_push(files.take(i), files[i], pat, ci, omit);
        assert(files.skip(i)[0] == files[i]);
        assert(files.skip(i).skip(1) =~= files.skip(i + 1));
        assert(gmatches(files.skip(i), pat, ci, omit) == file_gmatches(files[i], pat, ci, omit)
            + gmatches(files.skip(i + 1), pat, ci, omit));
        assert(gmatches(files.take(i), pat, ci, omit) + gmatches(files.skip(i), pat, ci, omit)
            =~~= gmatches(files.take(i + 1), pat, ci, omit) + gmatches(
            files.skip(i + 1),
            pat,
            ci,
            omit,
        ));
    }
}

/// The scanned-line total splits at any file boundary.
pub proof fn lemma_total_scanned_split(files: Seq<FileInput>, omit: Seq<Seq<char>>, i: int)
    requires
        0 <= i <= files.len(),
    ensures
        total_scanned(files, omit) == total_scanned(files.take(i), omit) + total_scanned(
            files.skip(i),
            omit,
        ),
    decreases files.len() - i,
{
    if i == files.len() {
        assert(files.take(i) =~= files);
        assert(files.skip(i) =~= Seq::<FileInput>::empty());
    } else {
        lemma_total_scanned_split(files, omit, i + 1);
        assert(files.take(i + 1) =~= files.take(i).push(files[i]));
        lemma_total_scanned_push(files.take(i), files[i], omit);
        assert(files.skip(i)[0] == files[i]);
        assert(files.skip(i).skip(1) =~= files.skip(i + 1));
        assert(total_scanned(files.skip(i), omit) == file_scanned(files[i], omit) + total_scanned(
            files.skip(i + 1),
            omit,
        ));
    }
}

pub proof fn lemma_diags_push(
    files: Seq<FileInput>,
    x: FileInput,
    omit: Seq<Seq<char>>,
    verbose: bool,
)
    ensures
        diags_spec(files.push(x), omit, verbose) == diags_spec(files, omit, verbose) + (if
        is_omitted(x.path@, omit) {
            Seq::<(Seq<char>, Seq<char>)>::empty()
        } else {
            file_diags(x, verbose)
        }),
    decreases files.len(),
{
    if files.len() == 0 {
        assert(files.push(x)[0] == x);
        assert(files.push(x).skip(1) =~= Seq::<FileInput>::empty());
        assert(diags_spec(files.push(x), omit, verbose) == (if is_omitted(x.path@, omit) {
            Seq::<(Seq<char>, Seq<char>)>::empty()
        } else {
            file_diags(x, verbose)
        }) + diags_spec(files.push(x).skip(1), omit, verbose));
        assert(diags_spec(Seq::<FileInput>::empty(), omit, verbose) == Seq::<
            (Seq<char>, Seq<char>),
        >::empty());
        assert(diags_spec(files, omit, verbose) =~= Seq::<(Seq<char>, Seq<char>)>::empty());
        assert(diags_spec(files.push(x), omit, verbose) =~~= diags_spec(files, omit, verbose) + (
        if is_omitted(x.path@, omit) {
            Seq::<(Seq<char>, Seq<char>)>::empty()
        } else {
            file_diags(x, verbose)
        }));
    } else {
        assert(files.push(x)[0] == files[0]);
        assert(files.push(x).skip(1) =~= files.skip(1).push(x));
        lemma_diags_push(files.skip(1), x, omit, verbose);
        assert(diags_spec(files.push(x), omit, verbose) == (if is_omitted(files[0].path@, omit) {
            Seq::<(Seq<char>, Seq<char>)>::empty()
        } else {
            file_diags(files[0], verbose)
        }) + diags_spec(files.push(x).skip(1), omit, verbose));
        assert(diags_spec(files, omit, verbose) == (if is_omitted(files[0].path@, omit) {
            Seq::<(Seq<char>, Seq<char>)>::empty()
        } else {
            file_diags(files[0], verbose)
        }) + diags_spec(files.skip(1), omit, verbose));
        assert(diags_spec(files.push(x), omit, verbose) =~~= diags_spec(files, omit, verbose) + (
        if is_omitted(x.path@, omit) {
            Seq::<(Seq<char>, Seq<char>)>::empty()
        } else {
            file_diags(x, verbose)
        }));
    }
}

pub proof fn lemma_updates_push(
    files: Seq<FileInput>,
    x: FileInput,
    pat: Seq<char>,
    ci: bool,
    sub: Seq<char>,
    omit: Seq<Seq<char>>,
    sel: Option<Vec<usize>>,
    write: bool,
    lookup: bool,
    base: int,
)
    ensures
        updates_spec(files.push(x), pat, ci, sub, omit, sel, write, lookup, base) == updates_spec(
            files,
            pat,
            ci,
            sub,
            omit,
            sel,
            write,
            lookup,
            base,
        ) + (if write && !lookup && file_needs_update(
            x,
            pat,
            ci,
            omit,
            sel,
            base + gmatches(files, pat, ci, omit).len(),
        ) {
            seq![
                (
                    x.path@,
                    file_update_content(
                        x,
                        pat,
                        ci,
                        sub,
                        sel,
                        base + gmatches(files, pat, ci, omit).len(),
                    ),
                ),
            ]
        } else {
            Seq::<(Seq<char>, Seq<char>)>::empty()
        }),
    decreases files.len(),
{
    if files.len() == 0 {
        assert(files.push(x)[0] == x);
        assert(files.push(x).skip(1) =~= Seq::<FileInput>::empty());
        assert(gmatches(files, pat, ci, omit) =~= Seq::<(Seq<char>, int, Seq<char>)>::empty());
        assert(updates_spec(files, pat, ci, sub, omit, sel, write, lookup, base) =~= Seq::<
            (Seq<char>, Seq<char>),
        >::empty());
        assert(updates_spec(files.push(x), pat, ci, sub, omit, sel, write, lookup, base) == (if
        write && !lookup && file_needs_update(x, pat, ci, omit, sel, base) {
            seq![(x.path@, file_update_content(x, pat, ci, sub, sel, base))]
        } else {
            Seq::<(Seq<char>, Seq<char>)>::empty()
        }) + updates_spec(
            files.push(x).skip(1),
            pat,
            ci,
            sub,
            omit,
            sel,
            write,
            lookup,
            base + file_gmatches(x, pat, ci, omit).len(),
        ));
        assert(updates_spec(
            Seq::<FileInput>::empty(),
            pat,
            ci,
            sub,
            omit,
            sel,
            write,
            lookup,
            base + file_gmatches(x, pat, ci, omit).len(),
        ) == Seq::<(Seq<char>, Seq<char>)>::empty());
        assert(updates_spec(files.push(x), pat, ci, sub, omit, sel, write, lookup, base) =~~= (if
        write && !lookup && file_needs_update(x, pat, ci, omit, sel, base) {
            seq![(x.path@, file_update_content(x, pat, ci, sub, sel, base))]
        } else {
            Seq::<(Seq<char>, Seq<char>)>::empty()
        }));
    } else {
        assert(files.push(x)[0] == files[0]);
        assert(files.push(x).skip(1) =~= files.skip(1).push(x));
        let b1 = base + file_gmatches(files[0], pat, ci, omit).len();
        lemma_updates_push(files.skip(1), x, pat, ci, sub, omit, sel, write, lookup, b1);
        assert(gmatches(files, pat, ci, omit).len() == file_gmatches(files[0], pat, ci, omit).len()
            + gmatches(files.skip(1), pat, ci, omit).len());
        assert(updates_spec(files.push(x), pat, ci, sub, omit, sel, write, lookup, base) == (if
        write && !lookup && file_needs_update(files[0], pat, ci, omit, sel, base) {
            seq![(files[0].path@, file_update_content(files[0], pat, ci, sub, sel, base))]
        } else {
            Seq::<(Seq<char>, Seq<char>)>::empty()
        }) + updates_spec(files.push(x).skip(1), pat, ci, sub, omit, sel, write, lookup, b1));
        assert(updates_spec(files, pat, ci, sub, omit, sel, write, lookup, base) == (if write
            && !lookup && file_needs_update(files[0], pat, ci, omit, sel, base) {
            seq![(files[0].path@, file_update_content(files[0], pat, ci, sub, sel, base))]
        } else {
            Seq::<(Seq<char>, Seq<char>)>::empty()
        }) + updates_spec(files.skip(1), pat, ci, sub, omit, sel, write, lookup, b1));
        assert(updates_spec(files.push(x), pat, ci, sub, omit, sel, write, lookup, base)
            =~~= updates_spec(files, pat, ci, sub, omit, sel, write, lookup, base) + (if write
            && !lookup && file_needs_update(
            x,
            pat,
            ci,
            omit,
            sel,
            base + gmatches(files, pat, ci, omit).len(),
        ) {
            seq![
                (
                    x.path@,
                    file_update_content(
                        x,
                        pat,
                        ci,
                        sub,
                        sel,
                        base + gmatches(files, pat, ci, omit).len(),
                    ),
                ),
            ]
        } else {
            Seq::<(Seq<char>, Seq<char>)>::empty()
        }));
    }
}

/// No reported match names an omitted file.
pub proof fn lemma_omitted_never_matched(
    files: Seq<FileInput>,
    pat: Seq<char>,
    ci: bool,
    omit: Seq<Seq<char>>,
    k: int,
)
    requires
        0 <= k < gmatches(files, pat, ci, omit).len(),
    ensures
        !is_omitted(gmatches(files, pat, ci, omit)[k].0, omit),
    decreases files.len(),
{
    if files.len() > 0 {
        let head = file_gmatches(files[0], pat, ci, omit);
        if k < head.len() {
            assert(gmatches(files, pat, ci, omit)[k] == head[k]);
        } else {
            lemma_omitted_never_matched(files.skip(1), pat, ci, omit, k - head.len());
            assert(gmatches(files, pat, ci, omit)[k] == gmatches(files.skip(1), pat, ci, omit)[k
                - head.len()]);
        }
    }
}

/// One step of rewriting a file's lines: handling the next match either
/// replaces its line (when eligible) or changes nothing.
proof fn lemma_updated_lines_step(
    segs: Seq<Seq<char>>,
    scan: Seq<(int, Seq<char>)>,
    j2: int,
    base: int,
    sel: Option<Vec<usize>>,
    pat: Seq<char>,
    sub: Seq<char>,
    prior: Seq<Seq<char>>,
)
    requires
        0 <= j2 < scan.len(),
        prior == updated_lines_spec(segs, scan.take(j2), base, sel, pat, sub),
        1 <= scan[j2].0 <= segs.len(),
        forall|k1: int, k2: int| 0 <= k1 < k2 < scan.len() ==> scan[k1].0 < scan[k2].0,
    ensures
        prior.len() == segs.len(),
        prior[scan[j2].0 - 1] == segs[scan[j2].0 - 1],
        eligible_spec(base + j2 + 1, sel) ==> updated_lines_spec(
            segs,
            scan.take(j2 + 1),
            base,
            sel,
            pat,
            sub,
        ) == prior.update(scan[j2].0 - 1, replace_all_spec(segs[scan[j2].0 - 1], pat, sub)),
        !eligible_spec(base + j2 + 1, sel) ==> updated_lines_spec(
            segs,
            scan.take(j2 + 1),
            base,
            sel,
            pat,
            sub,
        ) == prior,
{
    let ln = scan[j2].0;
    let sc0 = scan.take(j2);
    let sc1 = scan.take(j2 + 1);
    assert(forall|k: int| 0 <= k < j2 + 1 ==> #[trigger] sc1[k] == scan[k]);
    assert(forall|k: int| 0 <= k < j2 ==> #[trigger] sc0[k] == scan[k]);
    let up1 = updated_lines_spec(segs, sc1, base, sel, pat, sub);
    assert(prior[ln - 1] == segs[ln - 1]) by {
        if exists|k: int|
            0 <= k < sc0.len() && (#[trigger] sc0[k]).0 == ln - 1 + 1 && eligible_spec(
                base + k + 1,
                sel,
            ) {
            let k0 = choose|k0: int|
                0 <= k0 < sc0.len() && (#[trigger] sc0[k0]).0 == ln - 1 + 1 && eligible_spec(
                    base + k0 + 1,
                    sel,
                );
            assert(scan[k0].0 < scan[j2].0);
            assert(false);
        }
    }
    if eligible_spec(base + j2 + 1, sel) {
        let tgt = prior.update(ln - 1, replace_all_spec(segs[ln - 1], pat, sub));
        assert forall|l: int| 0 <= l < segs.len() implies up1[l] == tgt[l] by {
            if l == ln - 1 {
                assert((sc1[j2]).0 == l + 1);
                assert(up1[l] == replace_all_spec(segs[l], pat, sub));
            } else {
                if exists|k: int|
                    0 <= k < sc1.len() && (#[trigger] sc1[k]).0 == l + 1 && eligible_spec(
                        base + k + 1,
                        sel,
                    ) {
                    let k0 = choose|k0: int|
                        0 <= k0 < sc1.len() && (#[trigger] sc1[k0]).0 == l + 1 && eligible_spec(
                            base + k0 + 1,
                            sel,
                        );
                    assert(k0 != j2);
                    assert((sc0[k0]).0 == l + 1 && eligible_spec(base + k0 + 1, sel));
                    assert(up1[l] == replace_all_spec(segs[l], pat, sub));
                    assert(prior[l] == replace_all_spec(segs[l], pat, sub));
                } else {
                    assert(up1[l] == segs[l]);
                    assert(!(exists|k: int|
                        0 <= k < sc0.len() && (#[trigger] sc0[k]).0 == l + 1 && eligible_spec(
                            base + k + 1,
                            sel,
                        ))) by {
                        if exists|k: int|
                            0 <= k < sc0.len() && (#[trigger] sc0[k]).0 == l + 1 && eligible_spec(
                                base + k + 1,
                                sel,
                            ) {
                            let k1 = choose|k1: int|
                                0 <= k1 < sc0.len() && (#[trigger] sc0[k1]).0 == l + 1
                                    && eligible_spec(base + k1 + 1, sel);
                            assert((sc1[k1]).0 == l + 1);
                            assert(false);
                        }
                    }
                    assert(prior[l] == segs[l]);
                }
            }
        }
        assert(up1 =~= tgt);
    } else {
        assert forall|l: int| 0 <= l < segs.len() implies up1[l] == prior[l] by {
            if exists|k: int|
                0 <= k < sc1.len() && (#[trigger] sc1[k]).0 == l + 1 && eligible_spec(
                    base + k + 1,
                    sel,
                ) {
                let k0 = choose|k0: int|
                    0 <= k0 < sc1.len() && (#[trigger] sc1[k0]).0 == l + 1 && eligible_spec(
                        base + k0 + 1,
                        sel,
                    );
                assert(k0 != j2);
                assert((sc0[k0]).0 == l + 1 && eligible_spec(base + k0 + 1, sel));
                assert(up1[l] == replace_all_spec(segs[l], pat, sub));
                assert(prior[l] == replace_all_spec(segs[l], pat, sub));
            } else {
                assert(up1[l] == segs[l]);
                assert(!(exists|k: int|
                    0 <= k < sc0.len() && (#[trigger] sc0[k]).0 == l + 1 && eligible_spec(
                        base + k + 1,
                        sel,
                    ))) by {
                    if exists|k: int|
                        0 <= k < sc0.len() && (#[trigger] sc0[k]).0 == l + 1 && eligible_spec(
                            base + k + 1,
                            sel,
                        ) {
                        let k1 = choose|k1: int|
                            0 <= k1 < sc0.len() && (#[trigger] sc0[k1]).0 == l + 1 && eligible_spec(
                                base + k1 + 1,
                                sel,
                            );
                        assert((sc1[k1]).0 == l + 1);
                        assert(false);
                    }
                }
                assert(prior[l] == segs[l]);
            }
        }
        assert(up1 =~= prior);
    }
}

/// No rewritten file is an omitted one: pruned paths never reach the
/// replacement engine.
pub proof fn lemma_omitted_never_updated(
    files: Seq<FileInput>,
    pat: Seq<char>,
    ci: bool,
    sub: Seq<char>,
    omit: Seq<Seq<char>>,
    sel: Option<Vec<usize>>,
    write: bool,
    lookup: bool,
    base: int,
    k: int,
)
    requires
        0 <= k < updates_spec(files, pat, ci, sub, omit, sel, write, lookup, base).len(),
    ensures
        !is_omitted(updates_spec(files, pat, ci, sub, omit, sel, write, lookup, base)[k].0, omit),
    decreases files.len(),
{
    if files.len() > 0 {
        let head = if write && !lookup && file_needs_update(files[0], pat, ci, omit, sel, base) {
            seq![(files[0].path@, file_update_content(files[0], pat, ci, sub, sel, base))]
        } else {
            Seq::<(Seq<char>, Seq<char>)>::empty()
        };
        let b1 = base + file_gmatches(files[0], pat, ci, omit).len();
        if k < head.len() {
            assert(updates_spec(files, pat, ci, sub, omit, sel, write, lookup, base)[k] == head[k]);
        } else {
            lemma_omitted_never_updated(
                files.skip(1),
                pat,
                ci,
                sub,
                omit,
                sel,
                write,
                lookup,
                b1,
                k - head.len(),
            );
            assert(updates_spec(files, pat, ci, sub, omit, sel, write, lookup, base)[k]
                == updates_spec(files.skip(1), pat, ci, sub, omit, sel, write, lookup, b1)[k
                - head.len()]);
        }
    }
}

/// No diagnostic names an omitted file: pruned paths are silent.
pub proof fn lemma_omitted_never_diagnosed(
    files: Seq<FileInput>,
    omit: Seq<Seq<char>>,
    verbose: bool,
    k: int,
)
    requires
        0 <= k < diags_spec(files, omit, verbose).len(),
    ensures
        !is_omitted(diags_spec(files, omit, verbose)[k].0, omit),
    decreases files.len(),
{
    if files.len() > 0 {
        let head = if is_omitted(files[0].path@, omit) {
            Seq::<(Seq<char>, Seq<char>)>::empty()
        } else {
            file_diags(files[0], verbose)
        };
        if k < head.len() {
            assert(diags_spec(files, omit, verbose)[k] == head[k]);
        } else {
            lemma_omitted_never_diagnosed(files.skip(1), omit, verbose, k - head.len());
            assert(diags_spec(files, omit, verbose)[k] == diags_spec(
                files.skip(1),
                omit,
                verbose,
            )[k - head.len()]);
        }
    }
}

/// A write run whose selection matches none of the found ordinals rewrites
/// no file at all: every file's contents stay as they were.
pub proof fn lemma_none_selected_no_updates(
    files: Seq<FileInput>,
    pat: Seq<char>,
    ci: bool,
    sub: Seq<char>,
    omit: Seq<Seq<char>>,
    sel: Option<Vec<usize>>,
    write: bool,
    lookup: bool,
    base: int,
)
    requires
        forall|o: int|
            base < o <= base + gmatches(files, pat, ci, omit).len() ==> !eligible_spec(o, sel),
    ensures
        updates_spec(files, pat, ci, sub, omit, sel, write, lookup, base) == Seq::<
            (Seq<char>, Seq<char>),
        >::empty(),
    decreases files.len(),
{
    if files.len() == 0 {
    } else {
        let f0 = files[0];
        let fg0 = file_gmatches(f0, pat, ci, omit);
        assert(gmatches(files, pat, ci, omit).len() == fg0.len() + gmatches(
            files.skip(1),
            pat,
            ci,
            omit,
        ).len());
        if file_needs_update(f0, pat, ci, omit, sel, base) {
            let k = choose|k: int|
                0 <= k < file_scan(f0, pat, ci).len() && #[trigger] eligible_spec(
                    base + k + 1,
                    sel,
                );
            assert(fg0.len() == file_scan(f0, pat, ci).len());
            assert(base < base + k + 1 <= base + gmatches(files, pat, ci, omit).len());
            assert(false);
        }
        lemma_none_selected_no_updates(
            files.skip(1),
            pat,
            ci,
            sub,
            omit,
            sel,
            write,
            lookup,
            base + fg0.len(),
        );
        assert(updates_spec(files, pat, ci, sub, omit, sel, write, lookup, base) =~= Seq::<
            (Seq<char>, Seq<char>),
        >::empty());
    }
}

/// Re-scanning a rewritten line for the new pattern finds it: replacing a
/// non-empty pattern that the line contained leaves the substitute in it.
pub proof fn lemma_replaced_line_matches_new(line: Seq<char>, pat: Seq<char>, sub: Seq<char>)
    requires
        pat.len() > 0,
        line_matches(line, pat, false),
    ensures
        line_matches(replace_all_spec(line, pat, sub), sub, false),
{
    crate::text::lemma_replace_contains_sub(line, pat, sub);
}

/// The warning of a write run that wrote nothing; the two causes differ.
pub open spec fn warning_spec(write: bool, matches: int, selected: int) -> Option<RunWarning> {
    if !write {
        None
    } else if matches == 0 {
        Some(RunWarning::NoMatches)
    } else if selected == 0 {
        Some(RunWarning::NoneSelected)
    } else {
        None
    }
}

/// Whether the match with 1-based ordinal `ord` is eligible.
fn is_eligible(sel: &Option<Vec<usize>>, ord: usize) -> (r: bool)
    ensures
        r == eligible_spec(ord as int, *sel),
{
    match sel {
        None => true,
        Some(v) => {
            let mut j: usize = 0;
            while j < v.len()
                invariant
                    *sel == Some::<Vec<usize>>(*v),
                    j <= v@.len(),
                    forall|t: int| 0 <= t < j ==> #[trigger] v@[t] != ord,
                decreases v@.len() - j,
            {
                if v[j] == ord {
                    proof {
                        assert(*sel == Some::<Vec<usize>>(*v));
                        assert((sel->0@[j as int]) as int == ord as int);
                        assert(eligible_spec(ord as int, *sel));
                    }
                    return true;
                }
                j = j + 1;
            }
            false
        },
    }
}

/// One run's orchestrator: the patterns, the root path, and the settings.
pub struct Walker {
    pub old_pattern: String,
    pub new_pattern: String,
    pub path: String,
    pub settings: Settings,
}

impl Walker {
    /// The run one command-line invocation describes: its settings carry
    /// the flags and token lists as given, with the parsed selection, and
    /// the root path defaults to the current directory.
    pub fn from_options(options: Options, selection: Option<Vec<usize>>) -> (w: Walker)
        ensures
            w.old_pattern == options.pattern,
            w.new_pattern == options.new_pattern,
            options.path is Some ==> w.path == options.path->0,
            options.path is None ==> w.path@ == "."@,
            w.settings.verbose == options.verbose,
            w.settings.ignore_case == options.ignore_case,
            w.settings.search_hidden == options.hidden,
            w.settings.omit_pattern == options.omit,
            w.settings.selected_file_types == options.selected_file_types,
            w.settings.ignored_file_types == options.ignored_file_types,
            w.settings.write == options.write,
            w.settings.lookup == options.lookup,
            w.settings.selection == selection,
    {
        let Options {
            pattern,
            new_pattern,
            path,
            write,
            hidden,
            omit,
            verbose,
            ignore_case,
            lookup,
            selected_file_types,
            ignored_file_types,
            select: _,
        } = options;
        let settings = Settings {
            verbose,
            ignore_case,
            search_hidden: hidden,
            omit_pattern: omit,
            selected_file_types,
            ignored_file_types,
            write,
            lookup,
            selection,
        };
        let root: String = match path {
            Some(p) => p,
            None => String::from_str("."),
        };
        Walker { old_pattern: pattern, new_pattern, path: root, settings }
    }

    pub fn new(old_pattern: String, new_pattern: String, path: String, settings: Settings) -> (w:
        Walker)
        ensures
            w.old_pattern == old_pattern,
            w.new_pattern == new_pattern,
            w.path == path,
            w.settings == settings,
    {
        Walker { old_pattern, new_pattern, path, settings }
    }

    /// Drive one run over the files a traversal visited, in their order.
    ///
    /// Every line match of every non-omitted readable file becomes one event
    /// carrying its global 1-based ordinal; eligibility follows the
    /// selection; lookup, preview or write dispatch follows the mode flags;
    /// rewritten contents are produced for exactly the files with an
    /// eligible match when writing; diagnostics follow the error policy;
    /// and the totals and the warning summarize the run exactly.
    pub fn run(&self, files: Vec<FileInput>) -> (out: RunOutput)
        requires
            total_scanned(files@, self.settings.omit_pattern.deep_view()) <= usize::MAX,
        ensures
            ({
                let pat = self.old_pattern@;
                let sub = self.new_pattern@;
                let ci = self.settings.ignore_case;
                let omit = self.settings.omit_pattern.deep_view();
                let sel = self.settings.selection;
                let lookup = self.settings.lookup;
                let write = self.settings.write;
                let verbose = self.settings.verbose;
                let gms = gmatches(files@, pat, ci, omit);
                let ds = diags_spec(files@, omit, verbose);
                let us = updates_spec(files@, pat, ci, sub, omit, sel, write, lookup, 0);
                &&& out.events@.len() == gms.len()
                &&& forall|k: int|
                    0 <= k < gms.len() ==> event_ok(
                        #[trigger] out.events@[k],
                        gms[k],
                        k,
                        pat,
                        sub,
                        lookup,
                        write,
                        sel,
                    )
                &&& out.diagnostics@.len() == ds.len()
                &&& forall|k: int|
                    0 <= k < ds.len() ==> (#[trigger] out.diagnostics@[k]).path@ == ds[k].0
                        && out.diagnostics@[k].message@ == ds[k].1
                &&& out.updates@.len() == us.len()
                &&& forall|k: int|
                    0 <= k < us.len() ==> (#[trigger] out.updates@[k]).path@ == us[k].0
                        && out.updates@[k].content@ == us[k].1
                &&& out.totals.matches == gms.len()
                &&& out.totals.selected == count_eligible(gms.len() as int, sel)
                &&& out.totals.lines_scanned == total_scanned(files@, omit)
                &&& out.warning == warning_spec(
                    write,
                    gms.len() as int,
                    count_eligible(gms.len() as int, sel),
                )
            }),
    {
        let searcher = Searcher::new();
        let replacer = Replacer::new(Console::new(), self.settings.clone());
        let ghost pat = self.old_pattern@;
        let ghost sub = self.new_pattern@;
        let ghost ci = self.settings.ignore_case;
        let ghost omit = self.settings.omit_pattern.deep_view();
        let ghost sel = self.settings.selection;
        let ghost lookup = self.settings.lookup;
        let ghost write = self.settings.write;
        let ghost verbose = self.settings.verbose;
        let mut events: Vec<MatchEvent> = Vec::new();
        let mut diagnostics: Vec<Diagnostic> = Vec::new();
        let mut updates: Vec<FileUpdate> = Vec::new();
        let mut lines_scanned: usize = 0;
        let mut selected: usize = 0;
        let mut i: usize = 0;
        proof {
            assert(files@.take(0) =~= Seq::<FileInput>::empty());
        }
        while i < files.len()
            invariant
                pat == self.old_pattern@,
                sub == self.new_pattern@,
                ci == self.settings.ignore_case,
                omit == self.settings.omit_pattern.deep_view(),
                sel == self.settings.selection,
                lookup == self.settings.lookup,
                write == self.settings.write,
                verbose == self.settings.verbose,
                total_scanned(files@, omit) <= usize::MAX,
                i <= files@.len(),
                events@.len() == gmatches(files@.take(i as int), pat, ci, omit).len(),
                forall|k: int|
                    0 <= k < events@.len() ==> event_ok(
                        #[trigger] events@[k],
                        gmatches(files@.take(i as int), pat, ci, omit)[k],
                        k,
                        pat,
                        sub,
                        lookup,
                        write,
                        sel,
                    ),
                lines_scanned == total_scanned(files@.take(i as int), omit),
                selected == count_eligible(events@.len() as int, sel),
                selected <= events@.len(),
                diagnostics@.len() == diags_spec(files@.take(i as int), omit, verbose).len(),
                forall|k: int|
                    0 <= k < diagnostics@.len() ==> (#[trigger] diagnostics@[k]).path@
                        == diags_spec(files@.take(i as int), omit, verbose)[k].0
                        && diagnostics@[k].message@ == diags_spec(
                        files@.take(i as int),
                        omit,
                        verbose,
                    )[k].1,
                updates@.len() == updates_spec(
                    files@.take(i as int),
                    pat,
                    ci,
                    sub,
                    omit,
                    sel,
                    write,
                    lookup,
                    0,
                ).len(),
                forall|k: int|
                    0 <= k < updates@.len() ==> (#[trigger] updates@[k]).path@ == updates_spec(
                        files@.take(i as int),
                        pat,
                        ci,
                        sub,
                        omit,
                        sel,
                        write,
                        lookup,
                        0,
                    )[k].0 && updates@[k].content@ == updates_spec(
                        files@.take(i as int),
                        pat,
                        ci,
                        sub,
                        omit,
                        sel,
                        write,
                        lookup,
                        0,
                    )[k].1,
            decreases files@.len() - i,
        {
            let ghost tg = gmatches(files@.take(i as int), pat, ci, omit);
            let ghost f = files@[i as int];
            proof {
                assert(files@.take(i + 1) =~= files@.take(i as int).push(f));
                lemma_gmatches_push(files@.take(i as int), f, pat, ci, omit);
                lemma_total_scanned_push(files@.take(i as int), f, omit);
                lemma_diags_push(files@.take(i as int), f, omit, verbose);
                lemma_updates_push(
                    files@.take(i as int),
                    f,
                    pat,
                    ci,
                    sub,
                    omit,
                    sel,
                    write,
                    lookup,
                    0,
                );
                lemma_total_scanned_split(files@, omit, i + 1);
                lemma_total_scanned_nonneg(files@.skip(i + 1), omit);
                lemma_gmatches_split(files@, pat, ci, omit, i + 1);
                lemma_gmatches_le_scanned(files@, pat, ci, omit);
                lemma_file_gmatches_le_scanned(f, pat, ci, omit);
            }
            let omitted = should_omit_path(files[i].path.as_str(), &self.settings.omit_pattern);
            if omitted {
                proof {
                    assert(file_gmatches(f, pat, ci, omit) =~= Seq::<
                        (Seq<char>, int, Seq<char>),
                    >::empty());
                    assert(tg + file_gmatches(f, pat, ci, omit) =~~= tg);
                    assert(total_scanned(files@.take(i + 1), omit) == lines_scanned);
                    assert(diags_spec(files@.take(i + 1), omit, verbose) =~~= diags_spec(
                        files@.take(i as int),
                        omit,
                        verbose,
                    ));
                    assert(updates_spec(files@.take(i + 1), pat, ci, sub, omit, sel, write, lookup, 0)
                        =~~= updates_spec(
                        files@.take(i as int),
                        pat,
                        ci,
                        sub,
                        omit,
                        sel,
                        write,
                        lookup,
                        0,
                    ));
                }
                i = i + 1;
                continue ;
            }
            match &files[i].content {
                FileContent::ReadError(m) => {
                    let d = Diagnostic { path: files[i].path.clone(), message: m.clone() };
                    diagnostics.push(d);
                    proof {
                        assert(file_gmatches(f, pat, ci, omit) =~= Seq::<
                            (Seq<char>, int, Seq<char>),
                        >::empty());
                        assert(tg + file_gmatches(f, pat, ci, omit) =~~= tg);
                        assert(file_diags(f, verbose) == seq![(f.path@, f.content->ReadError_0@)]);
                        assert(diagnostics@.len() == diags_spec(
                            files@.take(i + 1),
                            omit,
                            verbose,
                        ).len());
                        assert(!(f.content is Text));
                        assert(updates_spec(
                            files@.take(i + 1),
                            pat,
                            ci,
                            sub,
                            omit,
                            sel,
                            write,
                            lookup,
                            0,
                        ) =~~= updates_spec(
                            files@.take(i as int),
                            pat,
                            ci,
                            sub,
                            omit,
                            sel,
                            write,
                            lookup,
                            0,
                        ));
                    }
                },
                FileContent::DecodeError(m) => {
                    if self.settings.verbose {
                        let d = Diagnostic { path: files[i].path.clone(), message: m.clone() };
                        diagnostics.push(d);
                    }
                    proof {
                        assert(file_gmatches(f, pat, ci, omit) =~= Seq::<
                            (Seq<char>, int, Seq<char>),
                        >::empty());
                        assert(tg + file_gmatches(f, pat, ci, omit) =~~= tg);
                        assert(!(f.content is Text));
                        assert(updates_spec(
                            files@.take(i + 1),
                            pat,
                            ci,
                            sub,
                            omit,
                            sel,
                            write,
                            lookup,
                            0,
                        ) =~~= updates_spec(
                            files@.take(i as int),
                            pat,
                            ci,
                            sub,
                            omit,
                            sel,
                            write,
                            lookup,
                            0,
                        ));
                    }
                },
                FileContent::Text(text) => {
                    let fpath: String = files[i].path.clone();
                    let outcome = searcher.lookup(
                        text.as_str(),
                        self.old_pattern.as_str(),
                        self.settings.ignore_case,
                    );
                    let ghost scan = file_scan(f, pat, ci);
                    let ghost tgx = tg + file_gmatches(f, pat, ci, omit);
                    proof {
                        assert(f.content->Text_0@ == text@);
                        assert(outcome.matches.deep_view() == scan);
                        assert(outcome.matches@.len() == scan.len());
                        assert(file_gmatches(f, pat, ci, omit).len() == scan.len());
                        assert(tgx == gmatches(files@.take(i + 1), pat, ci, omit));
                        assert(tgx.len() <= gmatches(files@, pat, ci, omit).len());
                        assert(gmatches(files@, pat, ci, omit).len() <= total_scanned(
                            files@,
                            omit,
                        ));
                        assert(outcome.lines_scanned == file_scanned(f, omit));
                        assert(lines_scanned + outcome.lines_scanned <= total_scanned(
                            files@,
                            omit,
                        ));
                    }
                    lines_scanned = lines_scanned + outcome.lines_scanned;
                    let base: usize = events.len();
                    let mut j: usize = 0;
                    while j < outcome.matches.len()
                        invariant
                            pat == self.old_pattern@,
                            sub == self.new_pattern@,
                            sel == self.settings.selection,
                            lookup == self.settings.lookup,
                            write == self.settings.write,
                            fpath@ == f.path@,
                            scan == outcome.matches.deep_view(),
                            outcome.matches@.len() == scan.len(),
                            j <= scan.len(),
                            base + scan.len() == tgx.len(),
                            tgx.len() <= usize::MAX,
                            events@.len() == base + j,
                            forall|k: int|
                                0 <= k < events@.len() ==> event_ok(
                                    #[trigger] events@[k],
                                    tgx[k],
                                    k,
                                    pat,
                                    sub,
                                    lookup,
                                    write,
                                    sel,
                                ),
                            forall|k: int|
                                0 <= k < tg.len() ==> tgx[k] == tg[k],
                            forall|k: int|
                                tg.len() <= k < tgx.len() ==> tgx[k] == (
                                    f.path@,
                                    scan[k - tg.len()].0,
                                    scan[k - tg.len()].1,
                                ),
                            tg.len() == base,
                            selected == count_eligible(events@.len() as int, sel),
                            selected <= events@.len(),
                        decreases scan.len() - j,
                    {
                        proof {
                            assert(outcome.matches.deep_view()[j as int] == outcome.matches@[
                                j as int].deep_view());
                        }
                        let ordinal: usize = events.len() + 1;
                        let elig = is_eligible(&self.settings.selection, ordinal);
                        let new_text: Option<String> = if self.settings.lookup {
                            None
                        } else {
                            Some(
                                replacer.replace_line(
                                    outcome.matches[j].text.as_str(),
                                    self.old_pattern.as_str(),
                                    self.new_pattern.as_str(),
                                ),
                            )
                        };
                        let action: MatchAction = if self.settings.lookup {
                            MatchAction::Lookup
                        } else if self.settings.write && elig {
                            MatchAction::Write
                        } else {
                            MatchAction::Preview
                        };
                        let ev = MatchEvent {
                            path: fpath.clone(),
                            line_number: outcome.matches[j].line_number,
                            ordinal,
                            text: outcome.matches[j].text.clone(),
                            new_text,
                            eligible: elig,
                            action,
                        };
                        events.push(ev);
                        if elig {
                            selected = selected + 1;
                        }
                        proof {
                            assert(event_ok(
                                events@[base + j],
                                tgx[base + j],
                                base + j,
                                pat,
                                sub,
                                lookup,
                                write,
                                sel,
                            ));
                            assert(count_eligible(base + j + 1, sel) == count_eligible(
                                base + j,
                                sel,
                            ) + if eligible_spec(base + j + 1, sel) {
                                1int
                            } else {
                                0int
                            });
                        }
                        j = j + 1;
                    }
                    if self.settings.write && !self.settings.lookup {
                        let mut lines = split_str(text.as_str(), '\n');
                        let ghost segs = split_seq(text@, '\n');
                        let mut any: bool = false;
                        let mut j2: usize = 0;
                        proof {
                            lemma_scan_props(content_lines(text@), pat, ci, 0);
                            assert(scan.take(0) =~= Seq::<(int, Seq<char>)>::empty());
                            assert(lines.deep_view() =~~= updated_lines_spec(
                                segs,
                                scan.take(0),
                                base as int,
                                sel,
                                pat,
                                sub,
                            ));
                        }
                        while j2 < outcome.matches.len()
                            invariant
                                pat == self.old_pattern@,
                                sub == self.new_pattern@,
                                sel == self.settings.selection,
                                scan == outcome.matches.deep_view(),
                                scan == scan_lines_spec(content_lines(text@), pat, ci),
                                outcome.matches@.len() == scan.len(),
                                j2 <= scan.len(),
                                fpath@ == f.path@,
                                segs == split_seq(text@, '\n'),
                                segs.len() >= 1,
                                lines@.len() == segs.len(),
                                lines.deep_view().len() == segs.len(),
                                base + scan.len() <= usize::MAX,
                                forall|k: int|
                                    0 <= k < scan.len() ==> 1 <= (#[trigger] scan[k]).0
                                        <= crate::pattern_matcher::scanned_count(segs),
                                crate::pattern_matcher::scanned_count(segs) <= segs.len(),
                                forall|k1: int, k2: int|
                                    0 <= k1 < k2 < scan.len() ==> scan[k1].0 < scan[k2].0,
                                lines.deep_view() == updated_lines_spec(
                                    segs,
                                    scan.take(j2 as int),
                                    base as int,
                                    sel,
                                    pat,
                                    sub,
                                ),
                                any == exists|k: int|
                                    0 <= k < j2 && #[trigger] eligible_spec(base + k + 1, sel),
                            decreases scan.len() - j2,
                        {
                            proof {
                                assert(outcome.matches.deep_view()[j2 as int] == outcome.matches@[
                                    j2 as int].deep_view());
                                assert(scan.take(j2 + 1) =~= scan.take(j2 as int).push(
                                    scan[j2 as int],
                                ));
                            }
                            let elig2 = is_eligible(&self.settings.selection, base + j2 + 1);
                            proof {
                                lemma_updated_lines_step(
                                    segs,
                                    scan,
                                    j2 as int,
                                    base as int,
                                    sel,
                                    pat,
                                    sub,
                                    lines.deep_view(),
                                );
                            }
                            if elig2 {
                                any = true;
                                let ln: usize = outcome.matches[j2].line_number;
                                let ghost ldv = lines.deep_view();
                                proof {
                                    assert(ln as int == scan[j2 as int].0);
                                    assert(1 <= ln <= segs.len());
                                    assert(ldv[ln - 1] == segs[ln - 1]);
                                }
                                let updated_line = crate::text::str_replace_all(
                                    lines[ln - 1].as_str(),
                                    self.old_pattern.as_str(),
                                    self.new_pattern.as_str(),
                                );
                                let ghost lraw = lines@;
                                lines[ln - 1] = updated_line;
                                proof {
                                    assert(lraw[ln - 1]@ == ldv[ln - 1]);
                                    assert(lines@ == lraw.update(ln - 1, lines@[ln - 1]));
                                    assert(lines@[ln - 1]@ == replace_all_spec(
                                        segs[ln - 1],
                                        pat,
                                        sub,
                                    ));
                                    assert forall|l: int| 0 <= l < segs.len() implies #[trigger] lines.deep_view()[l]
                                        == ldv.update(
                                        ln - 1,
                                        replace_all_spec(segs[ln - 1], pat, sub),
                                    )[l] by {
                                        if l != ln - 1 {
                                            assert(lines@[l] == lraw[l]);
                                            assert(lines.deep_view()[l] == ldv[l]);
                                        }
                                    }
                                    assert(lines.deep_view().len() == segs.len());
                                    assert(lines.deep_view() =~= ldv.update(
                                        ln - 1,
                                        replace_all_spec(segs[ln - 1], pat, sub),
                                    ));
                                    assert(lines.deep_view() == updated_lines_spec(
                                        segs,
                                        scan.take(j2 + 1),
                                        base as int,
                                        sel,
                                        pat,
                                        sub,
                                    ));
                                }
                            } else {
                                proof {
                                    assert(lines.deep_view() == updated_lines_spec(
                                        segs,
                                        scan.take(j2 + 1),
                                        base as int,
                                        sel,
                                        pat,
                                        sub,
                                    ));
                                    assert(!eligible_spec(base + j2 + 1, sel));
                                    if exists|k: int|
                                        0 <= k < j2 + 1 && #[trigger] eligible_spec(
                                            base + k + 1,
                                            sel,
                                        ) {
                                        let k0 = choose|k0: int|
                                            0 <= k0 < j2 + 1 && #[trigger] eligible_spec(
                                                base + k0 + 1,
                                                sel,
                                            );
                                        assert(k0 < j2);
                                    }
                                }
                            }
                            j2 = j2 + 1;
                        }
                        proof {
                            assert(scan.take(scan.len() as int) =~= scan);
                        }
                        if any {
                            let new_content = crate::text::join_strings(&lines, '\n');
                            let u = FileUpdate { path: fpath.clone(), content: new_content };
                            updates.push(u);
                            proof {
                                assert(file_needs_update(f, pat, ci, omit, sel, base as int));
                                assert(file_update_content(f, pat, ci, sub, sel, base as int)
                                    == u.content@);
                                assert(updates@.len() == updates_spec(
                                    files@.take(i + 1),
                                    pat,
                                    ci,
                                    sub,
                                    omit,
                                    sel,
                                    write,
                                    lookup,
                                    0,
                                ).len());
                            }
                        } else {
                            proof {
                                assert(!file_needs_update(f, pat, ci, omit, sel, base as int));
                                assert(updates_spec(
                                    files@.take(i + 1),
                                    pat,
                                    ci,
                                    sub,
                                    omit,
                                    sel,
                                    write,
                                    lookup,
                                    0,
                                ) =~~= updates_spec(
                                    files@.take(i as int),
                                    pat,
                                    ci,
                                    sub,
                                    omit,
                                    sel,
                                    write,
                                    lookup,
                                    0,
                                ));
                            }
                        }
                    } else {
                        proof {
                            assert(updates_spec(
                                files@.take(i + 1),
                                pat,
                                ci,
                                sub,
                                omit,
                                sel,
                                write,
                                lookup,
                                0,
                            ) =~~= updates_spec(
                                files@.take(i as int),
                                pat,
                                ci,
                                sub,
                                omit,
                                sel,
                                write,
                                lookup,
                                0,
                            ));
                        }
                    }
                },
            }
            i = i + 1;
        }
        proof {
            assert(files@.take(files@.len() as int) =~= files@);
        }
        let warning: Option<RunWarning> = if self.settings.write {
            if events.len() == 0 {
                Some(RunWarning::NoMatches)
            } else if selected == 0 {
                Some(RunWarning::NoneSelected)
            } else {
                None
            }
        } else {
            None
        };
        let totals = RunTotals { matches: events.len(), selected, lines_scanned };
        RunOutput { events, diagnostics, updates, totals, warning }
    }
}

} // verus!
