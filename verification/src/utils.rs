//! Path exclusion: a candidate path is omitted when the components of an
//! exclusion path appear as a contiguous run of the candidate's components.
//! A bare directory name such as `build` therefore matches anywhere in the
//! tree, and a prefix such as `tests/assets` matches from the root.
use vstd::prelude::*;

verus! {

use crate::text::split_seq;
use crate::text::split_str;

/// Drop empty segments, so `a//b/` and `a/b` have the same components.
pub open spec fn keep_nonempty(parts: Seq<Seq<char>>) -> Seq<Seq<char>>
    decreases parts.len(),
{
    if parts.len() == 0 {
        Seq::empty()
    } else if parts[0].len() > 0 {
        seq![parts[0]] + keep_nonempty(parts.skip(1))
    } else {
        keep_nonempty(parts.skip(1))
    }
}

/// The non-empty `/`-separated components of a path.
pub open spec fn path_components(p: Seq<char>) -> Seq<Seq<char>> {
    keep_nonempty(split_seq(p, '/'))
}

/// Whether `pat` equals the run of `cand` starting at `at`.
pub open spec fn run_matches_at(cand: Seq<Seq<char>>, pat: Seq<Seq<char>>, at: int) -> bool {
    &&& 0 <= at
    &&& at + pat.len() <= cand.len()
    &&& cand.subrange(at, at + pat.len() as int) == pat
}

/// Whether some exclusion path's components appear as a contiguous run of
/// the candidate's components.  A run at position 0 is a path prefix.
pub open spec fn is_omitted(path: Seq<char>, omit: Seq<Seq<char>>) -> bool {
    exists|oi: int, at: int|
        0 <= oi < omit.len() && run_matches_at(
            path_components(path),
            path_components(omit[oi]),
            at,
        )
}

pub proof fn lemma_keep_nonempty_push(parts: Seq<Seq<char>>, x: Seq<char>)
    ensures
        keep_nonempty(parts.push(x)) == keep_nonempty(parts) + (if x.len() > 0 {
            seq![x]
        } else {
            Seq::<Seq<char>>::empty()
        }),
    decreases parts.len(),
{
    if parts.len() == 0 {
        assert(parts.push(x)[0] == x);
        assert(parts.push(x).skip(1) =~= Seq::<Seq<char>>::empty());
        assert(keep_nonempty(Seq::<Seq<char>>::empty()) == Seq::<Seq<char>>::empty());
        assert(keep_nonempty(parts) == Seq::<Seq<char>>::empty());
        if x.len() > 0 {
            assert(keep_nonempty(parts.push(x)) == seq![x] + keep_nonempty(parts.push(x).skip(1)));
            assert(keep_nonempty(parts.push(x)) =~~= keep_nonempty(parts) + seq![x]);
        } else {
            assert(keep_nonempty(parts.push(x)) == keep_nonempty(parts.push(x).skip(1)));
            assert(keep_nonempty(parts.push(x)) =~~= keep_nonempty(parts));
        }
    } else {
        assert(parts.push(x)[0] == parts[0]);
        assert(parts.push(x).skip(1) =~= parts.skip(1).push(x));
        lemma_keep_nonempty_push(parts.skip(1), x);
        if parts[0].len() > 0 {
            assert(keep_nonempty(parts.push(x)) == seq![parts[0]] + keep_nonempty(
                parts.push(x).skip(1),
            ));
            assert(keep_nonempty(parts.push(x)) =~~= keep_nonempty(parts) + (if x.len() > 0 {
                seq![x]
            } else {
                Seq::<Seq<char>>::empty()
            }));
        } else {
            assert(keep_nonempty(parts.push(x)) == keep_nonempty(parts.push(x).skip(1)));
            assert(keep_nonempty(parts.push(x)) =~~= keep_nonempty(parts) + (if x.len() > 0 {
                seq![x]
            } else {
                Seq::<Seq<char>>::empty()
            }));
        }
    }
}

/// The non-empty components of a path.
pub fn components_of(path: &str) -> (r: Vec<String>)
    ensures
        r.deep_view() == path_components(path@),
{
    let parts = split_str(path, '/');
    let ghost pv = parts.deep_view();
    let mut r: Vec<String> = Vec::new();
    let mut i: usize = 0;
    proof {
        assert(pv.take(0) =~= Seq::<Seq<char>>::empty());
        assert(r.deep_view() =~~= keep_nonempty(pv.take(0)));
    }
    while i < parts.len()
        invariant
            i <= parts@.len(),
            pv == parts.deep_view(),
            pv.len() == parts@.len(),
            r.deep_view() == keep_nonempty(pv.take(i as int)),
        decreases parts@.len() - i,
    {
        proof {
            assert(pv.take(i + 1) =~= pv.take(i as int).push(pv[i as int]));
            lemma_keep_nonempty_push(pv.take(i as int), pv[i as int]);
        }
        let ghost rdv = r.deep_view();
        let ghost rraw = r@;
        if parts[i].as_str().unicode_len() > 0 {
            let piece = parts[i].clone();
            r.push(piece);
            proof {
                assert(r@ == rraw.push(r@[rraw.len() as int]));
                assert forall|t: int| 0 <= t < r@.len() implies #[trigger] r.deep_view()[t] == (rdv
                    + seq![pv[i as int]])[t] by {
                    if t < rraw.len() {
                        assert(r@[t] == rraw[t]);
                        assert(r.deep_view()[t] == rdv[t]);
                    } else {
                        assert(r@[t]@ == pv[i as int]);
                    }
                }
                assert(r.deep_view().len() == rdv.len() + 1);
                assert(r.deep_view() =~= keep_nonempty(pv.take(i + 1)));
            }
        } else {
            proof {
                assert(pv[i as int].len() == 0);
                assert(r.deep_view() =~~= keep_nonempty(pv.take(i + 1)));
            }
        }
        i = i + 1;
    }
    proof {
        assert(pv.take(parts@.len() as int) =~= pv);
    }
    r
}

/// Whether `pat` equals the run of `cand` starting at `at`.
fn run_at_exec(cand: &Vec<String>, pat: &Vec<String>, at: usize) -> (r: bool)
    requires
        at + pat@.len() <= cand@.len(),
    ensures
        r == run_matches_at(cand.deep_view(), pat.deep_view(), at as int),
{
    let cl: usize = cand.len();
    let mut j: usize = 0;
    while j < pat.len()
        invariant
            cl == cand@.len(),
            at + pat@.len() <= cand@.len(),
            j <= pat@.len(),
            forall|t: int| 0 <= t < j ==> cand.deep_view()[at + t] == pat.deep_view()[t],
        decreases pat@.len() - j,
    {
        if !(cand[at + j] == pat[j]) {
            proof {
                assert(cand.deep_view()[at + j] != pat.deep_view()[j as int]);
                assert(cand.deep_view().subrange(at as int, at + pat@.len() as int)[j as int]
                    == cand.deep_view()[at + j]);
            }
            return false;
        }
        j = j + 1;
    }
    proof {
        assert(cand.deep_view().subrange(at as int, at + pat.deep_view().len() as int)
            =~~= pat.deep_view());
    }
    true
}

/// Whether the components of `pat` appear as a contiguous run of `cand`.
fn has_run(cand: &Vec<String>, pat: &Vec<String>) -> (r: bool)
    ensures
        r == exists|at: int| run_matches_at(cand.deep_view(), pat.deep_view(), at),
{
    if pat.len() > cand.len() {
        proof {
            assert(forall|at: int| !run_matches_at(cand.deep_view(), pat.deep_view(), at));
        }
        return false;
    }
    if pat.len() == 0 {
        proof {
            assert(cand.deep_view().subrange(0, 0) =~~= pat.deep_view());
            assert(run_matches_at(cand.deep_view(), pat.deep_view(), 0));
        }
        return true;
    }
    let cl: usize = cand.len();
    let last: usize = cand.len() - pat.len();
    let mut at: usize = 0;
    while at <= last
        invariant
            cl == cand@.len(),
            cand.deep_view().len() == cand@.len(),
            pat.deep_view().len() == pat@.len(),
            1 <= pat@.len() <= cand@.len(),
            last == cand@.len() - pat@.len(),
            at <= last + 1,
            forall|t: int| 0 <= t < at ==> !run_matches_at(cand.deep_view(), pat.deep_view(), t),
        decreases last + 1 - at,
    {
        if run_at_exec(cand, pat, at) {
            return true;
        }
        at = at + 1;
    }
    proof {
        assert(forall|t: int| !run_matches_at(cand.deep_view(), pat.deep_view(), t));
    }
    false
}

/// Whether `path` is excluded by any of the omit paths.
pub fn should_omit_path(path: &str, omit: &Vec<String>) -> (r: bool)
    ensures
        r == is_omitted(path@, omit.deep_view()),
{
    let cand = components_of(path);
    let mut oi: usize = 0;
    while oi < omit.len()
        invariant
            omit.deep_view().len() == omit@.len(),
            cand.deep_view() == path_components(path@),
            oi <= omit@.len(),
            forall|t: int, at: int|
                0 <= t < oi ==> !run_matches_at(
                    path_components(path@),
                    path_components(omit.deep_view()[t]),
                    at,
                ),
        decreases omit@.len() - oi,
    {
        let pat = components_of(omit[oi].as_str());
        if has_run(&cand, &pat) {
            proof {
                assert(pat.deep_view() == path_components(omit.deep_view()[oi as int]));
                let at0 = choose|at: int|
                    run_matches_at(cand.deep_view(), pat.deep_view(), at);
                assert(run_matches_at(
                    path_components(path@),
                    path_components(omit.deep_view()[oi as int]),
                    at0,
                ));
            }
            return true;
        }
        oi = oi + 1;
    }
    false
}

/// A file anywhere under an omitted directory is itself omitted: the
/// directory's components are a prefix of the file's components, and a
/// prefix is a contiguous run at position 0.
pub proof fn lemma_under_omitted_dir(path: Seq<char>, omit: Seq<Seq<char>>, oi: int)
    requires
        0 <= oi < omit.len(),
        path_components(omit[oi]).len() <= path_components(path).len(),
        path_components(path).subrange(0, path_components(omit[oi]).len() as int)
            == path_components(omit[oi]),
    ensures
        is_omitted(path, omit),
{
    assert(run_matches_at(path_components(path), path_components(omit[oi]), 0));
}

/// Path-level predicates shared by the traversal's decision logic.
pub trait PathExt: View<V = Seq<char>> {
    /// Whether this path is excluded by any of the omit paths.
    fn should_omit(&self, omit: &Vec<String>) -> (r: bool)
        ensures
            r == is_omitted(self@, omit.deep_view()),
    ;
}

impl PathExt for String {
    fn should_omit(&self, omit: &Vec<String>) -> (r: bool) {
        should_omit_path(self.as_str(), omit)
    }
}

} // verus!
