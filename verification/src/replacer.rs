//! The replacement engine: substitute every occurrence of the old pattern
//! on one line of a text, leaving every other line untouched.
use vstd::prelude::*;

verus! {

use crate::console::Console;
use crate::settings::Settings;
use crate::text::join_seq;
use crate::text::replace_all_spec;
use crate::text::split_seq;
use crate::text::split_str;
use crate::text::str_replace_all;
use crate::text::join_strings;

/// The line list after rewriting line `ln` (1-based).
pub open spec fn replaced_lines(
    lines: Seq<Seq<char>>,
    ln: int,
    pat: Seq<char>,
    sub: Seq<char>,
) -> Seq<Seq<char>> {
    lines.update(ln - 1, replace_all_spec(lines[ln - 1], pat, sub))
}

/// The replacement engine of one run.
pub struct Replacer {
    pub console: Console,
    pub settings: Settings,
}

impl Replacer {
    pub fn new(console: Console, settings: Settings) -> (r: Replacer)
        ensures
            r.settings == settings,
    {
        Replacer { console, settings }
    }

    /// The line with every occurrence of the old pattern substituted.
    pub fn replace_line(&self, line: &str, old_pattern: &str, new_pattern: &str) -> (r: String)
        ensures
            r@ == replace_all_spec(line@, old_pattern@, new_pattern@),
    {
        str_replace_all(line, old_pattern, new_pattern)
    }

    /// Rewrite line `line_number` of `content`: the whole line sequence with
    /// that one line replaced, joined back into a single text.
    pub fn replace(
        &self,
        content: &str,
        line_number: usize,
        old_pattern: &str,
        new_pattern: &str,
    ) -> (r: String)
        requires
            1 <= line_number <= split_seq(content@, '\n').len(),
        ensures
            r@ == join_seq(
                replaced_lines(
                    split_seq(content@, '\n'),
                    line_number as int,
                    old_pattern@,
                    new_pattern@,
                ),
                '\n',
            ),
    {
        let mut lines = split_str(content, '\n');
        let ghost segs = split_seq(content@, '\n');
        let ln: usize = line_number - 1;
        let updated = str_replace_all(lines[ln].as_str(), old_pattern, new_pattern);
        let ghost lraw = lines@;
        lines[ln] = updated;
        proof {
            assert(lines@ == lraw.update(ln as int, lines@[ln as int]));
            assert forall|t: int| 0 <= t < lines@.len() implies #[trigger] lines.deep_view()[t]
                == replaced_lines(segs, line_number as int, old_pattern@, new_pattern@)[t] by {
                if t != ln {
                    assert(lines@[t] == lraw[t]);
                }
            }
            assert(lines.deep_view().len() == segs.len());
            assert(lines.deep_view() =~= replaced_lines(
                segs,
                line_number as int,
                old_pattern@,
                new_pattern@,
            ));
        }
        join_strings(&lines, '\n')
    }
}

} // verus!
