//! The selection language: comma-separated index and range tokens choosing
//! which match ordinals are eligible for replacement.
use vstd::prelude::*;

verus! {

use crate::text::chars_of;
use crate::text::parse_usize;
use crate::text::parse_usize_spec;
use crate::text::split_seq;
use crate::text::split_str;
use crate::text::string_from_chars;
use crate::text::trim_chars;
use crate::text::trim_spec;

/// A selection token the parser refuses, carrying the offending text.
#[derive(Debug, Clone, PartialEq, Eq)]
pub enum SelectError {
    /// The text before the dash of a range is not a number.
    InvalidStart(String),
    /// The text after the dash of a range is not a number.
    InvalidEnd(String),
    /// A token without a dash is not a number.
    InvalidValue(String),
    /// An index of 0 in a 1-based addressing scheme.
    ZeroIndex(String),
    /// A range whose start exceeds its end.
    InvertedRange(String),
}

/// The position of the first occurrence of `c` in `s`, or -1.
pub open spec fn find_char_spec(s: Seq<char>, c: char) -> int
    decreases s.len(),
{
    if s.len() == 0 {
        -1
    } else if s[0] == c {
        0
    } else {
        let r = find_char_spec(s.skip(1), c);
        if r == -1 {
            -1
        } else {
            r + 1
        }
    }
}

pub proof fn lemma_find_char(s: Seq<char>, c: char)
    ensures
        find_char_spec(s, c) == -1 ==> forall|i: int| 0 <= i < s.len() ==> s[i] != c,
        find_char_spec(s, c) != -1 ==> {
            let d = find_char_spec(s, c);
            &&& 0 <= d < s.len()
            &&& s[d] == c
            &&& forall|i: int| 0 <= i < d ==> s[i] != c
        },
    decreases s.len(),
{
    if s.len() > 0 {
        lemma_find_char(s.skip(1), c);
        if s[0] != c {
            let r = find_char_spec(s.skip(1), c);
            if r == -1 {
                assert forall|i: int| 0 <= i < s.len() implies s[i] != c by {
                    if i >= 1 {
                        assert(s.skip(1)[i - 1] == s[i]);
                    }
                }
            } else {
                assert(s.skip(1)[r] == s[r + 1]);
                assert forall|i: int| 0 <= i < r + 1 implies s[i] != c by {
                    if i >= 1 {
                        assert(s.skip(1)[i - 1] == s[i]);
                    }
                }
            }
        }
    }
}

/// The tokens of a selection: every input string is split on commas.
pub open spec fn sel_tokens(inputs: Seq<Seq<char>>) -> Seq<Seq<char>>
    decreases inputs.len(),
{
    if inputs.len() == 0 {
        Seq::empty()
    } else {
        split_seq(inputs[0], ',') + sel_tokens(inputs.skip(1))
    }
}

/// A token that is empty after trimming is skipped.
pub open spec fn token_skipped(t: Seq<char>) -> bool {
    trim_spec(t).len() == 0
}

/// The piece before the first dash of a trimmed token.
pub open spec fn dash_start(t: Seq<char>) -> Seq<char> {
    trim_spec(t).take(find_char_spec(trim_spec(t), '-'))
}

/// The piece after the first dash of a trimmed token.
pub open spec fn dash_end(t: Seq<char>) -> Seq<char> {
    trim_spec(t).skip(find_char_spec(trim_spec(t), '-') + 1)
}

/// Whether the parser refuses this token.
pub open spec fn token_error(t: Seq<char>) -> bool {
    if token_skipped(t) {
        false
    } else if find_char_spec(trim_spec(t), '-') != -1 {
        ||| parse_usize_spec(trim_spec(dash_start(t))) is None
        ||| parse_usize_spec(trim_spec(dash_end(t))) is None
        ||| parse_usize_spec(trim_spec(dash_start(t)))->0 == 0
        ||| parse_usize_spec(trim_spec(dash_end(t)))->0 == 0
        ||| parse_usize_spec(trim_spec(dash_start(t)))->0 > parse_usize_spec(
            trim_spec(dash_end(t)),
        )->0
    } else {
        parse_usize_spec(trim_spec(t)) is None || parse_usize_spec(trim_spec(t))->0 == 0
    }
}

/// The match ordinals a well-formed token selects.
pub open spec fn token_indices(t: Seq<char>) -> Seq<int> {
    if token_skipped(t) {
        Seq::empty()
    } else if find_char_spec(trim_spec(t), '-') != -1 {
        let s = parse_usize_spec(trim_spec(dash_start(t)))->0;
        let e = parse_usize_spec(trim_spec(dash_end(t)))->0;
        Seq::new((e - s + 1) as nat, |k: int| s + k)
    } else {
        seq![parse_usize_spec(trim_spec(t))->0]
    }
}

/// The ordinals of a token list, in order of appearance.
pub open spec fn all_indices(tokens: Seq<Seq<char>>) -> Seq<int>
    decreases tokens.len(),
{
    if tokens.len() == 0 {
        Seq::empty()
    } else {
        token_indices(tokens[0]) + all_indices(tokens.skip(1))
    }
}

/// The error reported for a refused token, in order of detection.
pub open spec fn error_matches(e: SelectError, t: Seq<char>) -> bool {
    if find_char_spec(trim_spec(t), '-') != -1 {
        if parse_usize_spec(trim_spec(dash_start(t))) is None {
            e matches SelectError::InvalidStart(s) && s@ == dash_start(t)
        } else if parse_usize_spec(trim_spec(dash_end(t))) is None {
            e matches SelectError::InvalidEnd(s) && s@ == dash_end(t)
        } else if parse_usize_spec(trim_spec(dash_start(t)))->0 == 0 || parse_usize_spec(
            trim_spec(dash_end(t)),
        )->0 == 0 {
            e matches SelectError::ZeroIndex(s) && s@ == trim_spec(t)
        } else {
            e matches SelectError::InvertedRange(s) && s@ == trim_spec(t)
        }
    } else {
        if parse_usize_spec(trim_spec(t)) is None {
            e matches SelectError::InvalidValue(s) && s@ == trim_spec(t)
        } else {
            e matches SelectError::ZeroIndex(s) && s@ == trim_spec(t)
        }
    }
}

pub proof fn lemma_sel_tokens_push(inputs: Seq<Seq<char>>, x: Seq<char>)
    ensures
        sel_tokens(inputs.push(x)) == sel_tokens(inputs) + split_seq(x, ','),
    decreases inputs.len(),
{
    if inputs.len() == 0 {
        assert(inputs.push(x)[0] == x);
        assert(inputs.push(x).skip(1) =~= Seq::<Seq<char>>::empty());
        assert(sel_tokens(inputs.push(x)) == split_seq(inputs.push(x)[0], ',') + sel_tokens(
            inputs.push(x).skip(1),
        ));
        assert(sel_tokens(Seq::<Seq<char>>::empty()) =~~= Seq::<Seq<char>>::empty());
        assert(sel_tokens(inputs) =~~= Seq::<Seq<char>>::empty());
        assert(sel_tokens(inputs.push(x)) =~~= sel_tokens(inputs) + split_seq(x, ','));
    } else {
        assert(inputs.push(x)[0] == inputs[0]);
        assert(inputs.push(x).skip(1) =~= inputs.skip(1).push(x));
        lemma_sel_tokens_push(inputs.skip(1), x);
        assert(sel_tokens(inputs.push(x)) == split_seq(inputs[0], ',') + sel_tokens(
            inputs.push(x).skip(1),
        ));
        assert(sel_tokens(inputs.push(x)) == split_seq(inputs[0], ',') + (sel_tokens(inputs.skip(1))
            + split_seq(x, ',')));
        assert(sel_tokens(inputs.push(x)) =~~= sel_tokens(inputs) + split_seq(x, ','));
    }
}

pub proof fn lemma_all_indices_push(tokens: Seq<Seq<char>>, x: Seq<char>)
    ensures
        all_indices(tokens.push(x)) == all_indices(tokens) + token_indices(x),
    decreases tokens.len(),
{
    if tokens.len() == 0 {
        assert(tokens.push(x)[0] == x);
        assert(tokens.push(x).skip(1) =~= Seq::<Seq<char>>::empty());
        assert(all_indices(tokens.push(x)) == token_indices(tokens.push(x)[0]) + all_indices(
            tokens.push(x).skip(1),
        ));
        assert(all_indices(Seq::<Seq<char>>::empty()) =~= Seq::<int>::empty());
        assert(all_indices(tokens) =~= Seq::<int>::empty());
        assert(all_indices(tokens.push(x)) =~= all_indices(tokens) + token_indices(x));
    } else {
        assert(tokens.push(x)[0] == tokens[0]);
        assert(tokens.push(x).skip(1) =~= tokens.skip(1).push(x));
        lemma_all_indices_push(tokens.skip(1), x);
        assert(all_indices(tokens.push(x)) == token_indices(tokens[0]) + all_indices(
            tokens.push(x).skip(1),
        ));
        assert(all_indices(tokens.push(x)) == token_indices(tokens[0]) + (all_indices(
            tokens.skip(1),
        ) + token_indices(x)));
        assert(all_indices(tokens.push(x)) =~= all_indices(tokens) + token_indices(x));
    }
}

/// Parse the selection tokens into the eligible match ordinals.
///
/// Every input string is split on commas; each piece is trimmed; empty
/// pieces are skipped.  A piece is a positive index or a `start-end` range
/// with `start <= end`; anything else is refused with the offending text.
/// When nothing at all was selected the result is `None`: no filter.
pub fn parse_select(select: Option<Vec<String>>) -> (r: Result<
    Option<Vec<usize>>,
    SelectError,
>)
    ensures
        select is None ==> r == Ok::<Option<Vec<usize>>, SelectError>(None),
        select is Some ==> {
            let tokens = sel_tokens(select->0.deep_view());
            match r {
                Ok(opt) => {
                    &&& forall|k: int| 0 <= k < tokens.len() ==> !token_error(#[trigger] tokens[k])
                    &&& match opt {
                        Some(v) => {
                            &&& all_indices(tokens).len() > 0
                            &&& v@.len() == all_indices(tokens).len()
                            &&& forall|j: int|
                                0 <= j < v@.len() ==> #[trigger] v@[j] as int == all_indices(
                                    tokens,
                                )[j]
                        },
                        None => all_indices(tokens).len() == 0,
                    }
                },
                Err(e) => {
                    exists|k: int|
                        {
                            &&& 0 <= k < tokens.len()
                            &&& token_error(#[trigger] tokens[k])
                            &&& forall|j: int| 0 <= j < k ==> !token_error(#[trigger] tokens[j])
                            &&& error_matches(e, tokens[k])
                        }
                },
            }
        },
{
    let raw_inputs: &Vec<String> = match &select {
        Some(v) => v,
        None => {
            return Ok(None);
        },
    };
    let mut tokens: Vec<String> = Vec::new();
    let mut i: usize = 0;
    proof {
        assert(raw_inputs.deep_view().take(0) =~= Seq::<Seq<char>>::empty());
        assert(tokens.deep_view() =~= sel_tokens(raw_inputs.deep_view().take(0)));
    }
    while i < raw_inputs.len()
        invariant
            i <= raw_inputs@.len(),
            raw_inputs.deep_view().len() == raw_inputs@.len(),
            tokens.deep_view() == sel_tokens(raw_inputs.deep_view().take(i as int)),
        decreases raw_inputs@.len() - i,
    {
        let mut pieces = split_str(raw_inputs[i].as_str(), ',');
        proof {
            assert(raw_inputs.deep_view().take(i + 1) =~= raw_inputs.deep_view().take(
                i as int,
            ).push(raw_inputs.deep_view()[i as int]));
            lemma_sel_tokens_push(
                raw_inputs.deep_view().take(i as int),
                raw_inputs.deep_view()[i as int],
            );
        }
        let mut j: usize = 0;
        let ghost done = tokens.deep_view();
        let ghost cur_split = pieces.deep_view();
        while j < pieces.len()
            invariant
                j <= pieces@.len(),
                pieces.deep_view().len() == pieces@.len(),
                pieces.deep_view() == cur_split,
                tokens.deep_view() == done + cur_split.take(j as int),
            decreases pieces@.len() - j,
        {
            let piece = pieces[j].clone();
            let ghost traw = tokens@;
            let ghost tdv = tokens.deep_view();
            proof {
                assert(piece@ == cur_split[j as int]);
            }
            tokens.push(piece);
            proof {
                assert(tokens@ == traw.push(piece));
                assert(cur_split.take(j + 1) =~= cur_split.take(j as int).push(
                    cur_split[j as int],
                ));
                assert forall|t: int| 0 <= t < tokens@.len() implies #[trigger] tokens.deep_view()[t]
                    == (done + cur_split.take(j + 1))[t] by {
                    assert(cur_split.take(j as int).len() == j as int);
                    assert(cur_split.take(j + 1).len() == j + 1);
                    assert(tdv.len() == done.len() + j);
                    assert(traw.len() == tdv.len());
                    if t < traw.len() {
                        assert(tokens@[t] == traw[t]);
                        assert(tokens.deep_view()[t] == tdv[t]);
                        if t < done.len() {
                            assert((done + cur_split.take(j + 1))[t] == done[t]);
                            assert((done + cur_split.take(j as int))[t] == done[t]);
                        } else {
                            assert((done + cur_split.take(j + 1))[t] == cur_split.take(j + 1)[t
                                - done.len()]);
                            assert((done + cur_split.take(j as int))[t] == cur_split.take(
                                j as int,
                            )[t - done.len()]);
                            assert(cur_split.take(j + 1)[t - done.len()] == cur_split[t
                                - done.len()]);
                            assert(cur_split.take(j as int)[t - done.len()] == cur_split[t
                                - done.len()]);
                        }
                        assert(tdv[t] == (done + cur_split.take(j as int))[t]);
                    } else {
                        assert(t == traw.len());
                        assert(tokens@[t] == piece);
                        assert(tokens.deep_view()[t] == piece@);
                        assert((done + cur_split.take(j + 1))[t] == cur_split.take(j + 1)[t
                            - done.len()]);
                        assert(cur_split.take(j + 1)[t - done.len()] == cur_split[j as int]);
                    }
                }
                assert(tokens.deep_view().len() == tokens@.len());
                assert(tokens@.len() == traw.len() + 1);
                assert(traw.len() == tdv.len());
                assert(tdv.len() == done.len() + j);
                assert(cur_split.take(j + 1).len() == j + 1);
                assert(tokens.deep_view() =~= done + cur_split.take(j + 1));
            }
            j = j + 1;
        }
        proof {
            assert(cur_split.take(cur_split.len() as int) =~= cur_split);
            assert(tokens.deep_view() =~= sel_tokens(raw_inputs.deep_view().take(i + 1)));
        }
        i = i + 1;
    }
    proof {
        assert(raw_inputs.deep_view().take(raw_inputs@.len() as int) =~= raw_inputs.deep_view());
    }
    let ghost all_tokens = sel_tokens(raw_inputs.deep_view());
    let mut indices: Vec<usize> = Vec::new();
    let mut k: usize = 0;
    proof {
        assert(all_tokens.take(0) =~= Seq::<Seq<char>>::empty());
        assert(indices@.len() == all_indices(all_tokens.take(0)).len());
    }
    while k < tokens.len()
        invariant
            select is Some,
            all_tokens == sel_tokens(select->0.deep_view()),
            k <= tokens@.len(),
            tokens.deep_view().len() == tokens@.len(),
            tokens.deep_view() == all_tokens,
            forall|t: int| 0 <= t < k ==> !token_error(#[trigger] all_tokens[t]),
            indices@.len() == all_indices(all_tokens.take(k as int)).len(),
            forall|j: int|
                0 <= j < indices@.len() ==> #[trigger] indices@[j] as int == all_indices(
                    all_tokens.take(k as int),
                )[j],
        decreases tokens@.len() - k,
    {
        let ghost tok = all_tokens[k as int];
        proof {
            assert(all_tokens.take(k + 1) =~= all_tokens.take(k as int).push(tok));
            lemma_all_indices_push(all_tokens.take(k as int), tok);
        }
        let raw_chars = chars_of(tokens[k].as_str());
        let trimmed = trim_chars(&raw_chars);
        if trimmed.len() == 0 {
            proof {
                assert(token_skipped(tok));
                assert(all_indices(all_tokens.take(k + 1)) =~= all_indices(
                    all_tokens.take(k as int),
                ));
            }
            k = k + 1;
            continue ;
        }
        let dash = find_dash(&trimmed);
        proof {
            lemma_find_char(trimmed@, '-');
        }
        if let Some(d) = dash {
            let mut start_raw: Vec<char> = Vec::new();
            let mut end_raw: Vec<char> = Vec::new();
            let mut p: usize = 0;
            while p < d
                invariant
                    d < trimmed@.len(),
                    p <= d,
                    start_raw@ == trimmed@.subrange(0, p as int),
                decreases d - p,
            {
                start_raw.push(trimmed[p]);
                proof {
                    assert(start_raw@ =~= trimmed@.subrange(0, p + 1));
                }
                p = p + 1;
            }
            let mut q: usize = d + 1;
            while q < trimmed.len()
                invariant
                    d < trimmed@.len(),
                    d + 1 <= q <= trimmed@.len(),
                    end_raw@ == trimmed@.subrange(d + 1, q as int),
                decreases trimmed@.len() - q,
            {
                end_raw.push(trimmed[q]);
                proof {
                    assert(end_raw@ =~= trimmed@.subrange(d + 1, q + 1));
                }
                q = q + 1;
            }
            proof {
                assert(start_raw@ =~= dash_start(tok));
                assert(end_raw@ =~= dash_end(tok));
            }
            let start_trim = trim_chars(&start_raw);
            let end_trim = trim_chars(&end_raw);
            let sv_opt = parse_usize(&start_trim);
            let Some(sv) = sv_opt else {
                proof {
                    assert(token_error(tok));
                }
                return Err(SelectError::InvalidStart(string_from_chars(&start_raw)));
            };
            let ev_opt = parse_usize(&end_trim);
            let Some(ev) = ev_opt else {
                proof {
                    assert(token_error(tok));
                }
                return Err(SelectError::InvalidEnd(string_from_chars(&end_raw)));
            };
            if sv == 0 || ev == 0 {
                proof {
                    assert(token_error(tok));
                }
                return Err(SelectError::ZeroIndex(string_from_chars(&trimmed)));
            }
            if sv > ev {
                proof {
                    assert(token_error(tok));
                }
                return Err(SelectError::InvertedRange(string_from_chars(&trimmed)));
            }
            let cnt: usize = ev - sv + 1;
            let ghost before = indices@;
            let mut off: usize = 0;
            while off < cnt
                invariant
                    cnt == ev - sv + 1,
                    sv >= 1,
                    sv + cnt - 1 == ev,
                    off <= cnt,
                    indices@ == before + Seq::new(off as nat, |x: int| (sv + x) as usize),
                decreases cnt - off,
            {
                indices.push(sv + off);
                proof {
                    assert(indices@ =~= before + Seq::new(
                        (off + 1) as nat,
                        |x: int| (sv + x) as usize,
                    ));
                }
                off = off + 1;
            }
            proof {
                assert(!token_error(tok));
                assert(token_indices(tok) =~= Seq::new((ev - sv + 1) as nat, |x: int| sv + x));
                assert(indices@.len() == all_indices(all_tokens.take(k + 1)).len());
                assert(forall|j: int|
                    0 <= j < indices@.len() ==> #[trigger] indices@[j] as int == all_indices(
                        all_tokens.take(k + 1),
                    )[j]);
            }
        } else {
            let v_opt = parse_usize(&trimmed);
            let Some(v) = v_opt else {
                proof {
                    assert(token_error(tok));
                }
                return Err(SelectError::InvalidValue(string_from_chars(&trimmed)));
            };
            if v == 0 {
                proof {
                    assert(token_error(tok));
                }
                return Err(SelectError::ZeroIndex(string_from_chars(&trimmed)));
            }
            indices.push(v);
            proof {
                assert(!token_error(tok));
                assert(token_indices(tok) =~= seq![v as int]);
                assert(indices@.len() == all_indices(all_tokens.take(k + 1)).len());
                assert(forall|j: int|
                    0 <= j < indices@.len() ==> #[trigger] indices@[j] as int == all_indices(
                        all_tokens.take(k + 1),
                    )[j]);
            }
        }
        k = k + 1;
    }
    proof {
        assert(all_tokens.take(tokens@.len() as int) =~= all_tokens);
    }
    if indices.len() == 0 {
        Ok(None)
    } else {
        Ok(Some(indices))
    }
}

/// The position of the first dash in the characters, if any.
fn find_dash(chars: &Vec<char>) -> (r: Option<usize>)
    ensures
        r is Some ==> r->0 == find_char_spec(chars@, '-') && r->0 < chars@.len(),
        r is None ==> find_char_spec(chars@, '-') == -1,
{
    let mut i: usize = 0;
    while i < chars.len()
        invariant
            i <= chars@.len(),
            forall|j: int| 0 <= j < i ==> chars@[j] != '-',
        decreases chars@.len() - i,
    {
        if chars[i] == '-' {
            proof {
                lemma_find_char(chars@, '-');
            }
            return Some(i);
        }
        i = i + 1;
    }
    proof {
        lemma_find_char(chars@, '-');
    }
    None
}

} // verus!
