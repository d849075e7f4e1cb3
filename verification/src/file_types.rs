//! File-type selection: each user token is either the name of a built-in
//! file category or an ad hoc glob pattern.  Tokens are classified once, at
//! configuration time; ad hoc globs are registered under generated names.
//! Compiling the matcher itself is the `ignore` crate's work.
use vstd::prelude::*;

verus! {

use vstd::string::StrSliceExecFns;
use vstd::string::StringExecFns;
use crate::text::chars_of;
use crate::text::decimal_spec;
use crate::text::digit_char_spec;
use crate::text::usize_to_string;

/// A classified file-type token.
#[derive(Debug, Clone, PartialEq, Eq)]
pub enum TypeFilter {
    /// A named built-in file category, passed through as given.
    Named(String),
    /// An ad hoc glob, registered under a generated name.
    Glob { name: String, pattern: String },
}

/// Whether a token is an ad hoc glob rather than a type name.
pub open spec fn has_wildcard(t: Seq<char>) -> bool {
    exists|i: int| 0 <= i < t.len() && t[i] == '*'
}

/// How many of the tokens are ad hoc globs.
pub open spec fn count_wild(tokens: Seq<Seq<char>>) -> int
    decreases tokens.len(),
{
    if tokens.len() == 0 {
        0
    } else {
        (if has_wildcard(tokens[0]) {
            1int
        } else {
            0int
        }) + count_wild(tokens.skip(1))
    }
}

/// The generated registration name of the `n`-th ad hoc glob.
pub open spec fn glob_name_spec(n: int) -> Seq<char> {
    "type"@ + decimal_spec(n)
}

/// What the classification of one token must yield, numbering its glob
/// (if it is one) with `wild_before`.
pub open spec fn filter_ok(r: TypeFilter, token: Seq<char>, wild_before: int) -> bool {
    if has_wildcard(token) {
        r matches TypeFilter::Glob { name, pattern } && name@ == glob_name_spec(wild_before)
            && pattern@ == token
    } else {
        r matches TypeFilter::Named(n) && n@ == token
    }
}

pub proof fn lemma_count_wild_push(tokens: Seq<Seq<char>>, x: Seq<char>)
    ensures
        count_wild(tokens.push(x)) == count_wild(tokens) + (if has_wildcard(x) {
            1int
        } else {
            0int
        }),
    decreases tokens.len(),
{
    if tokens.len() == 0 {
        assert(tokens.push(x)[0] == x);
        assert(tokens.push(x).skip(1) =~= Seq::<Seq<char>>::empty());
        assert(count_wild(tokens.push(x)) == (if has_wildcard(x) {
            1int
        } else {
            0int
        }) + count_wild(tokens.push(x).skip(1)));
        assert(count_wild(Seq::<Seq<char>>::empty()) == 0);
        assert(count_wild(tokens) == 0);
    } else {
        assert(tokens.push(x)[0] == tokens[0]);
        assert(tokens.push(x).skip(1) =~= tokens.skip(1).push(x));
        lemma_count_wild_push(tokens.skip(1), x);
        assert(count_wild(tokens.push(x)) == (if has_wildcard(tokens[0]) {
            1int
        } else {
            0int
        }) + count_wild(tokens.push(x).skip(1)));
        assert(count_wild(tokens) == (if has_wildcard(tokens[0]) {
            1int
        } else {
            0int
        }) + count_wild(tokens.skip(1)));
    }
}

pub proof fn lemma_count_wild_bounds(tokens: Seq<Seq<char>>)
    ensures
        0 <= count_wild(tokens) <= tokens.len(),
    decreases tokens.len(),
{
    if tokens.len() > 0 {
        lemma_count_wild_bounds(tokens.skip(1));
    }
}

fn token_has_wildcard(t: &str) -> (r: bool)
    ensures
        r == has_wildcard(t@),
{
    let cs = chars_of(t);
    let mut i: usize = 0;
    while i < cs.len()
        invariant
            cs@ == t@,
            i <= t@.len(),
            forall|k: int| 0 <= k < i ==> t@[k] != '*',
        decreases t@.len() - i,
    {
        if cs[i] == '*' {
            return true;
        }
        i = i + 1;
    }
    false
}

fn glob_name(n: usize) -> (r: String)
    ensures
        r@ == glob_name_spec(n as int),
{
    let mut name = String::from_str("type");
    let digits = usize_to_string(n);
    name.append(digits.as_str());
    name
}

/// Classify one list of tokens, numbering ad hoc globs from `wild_start`.
fn classify_tokens(tokens: &Vec<String>, wild_start: usize) -> (r: Vec<TypeFilter>)
    requires
        wild_start + tokens@.len() <= usize::MAX,
    ensures
        r@.len() == tokens@.len(),
        forall|i: int|
            0 <= i < tokens@.len() ==> filter_ok(
                #[trigger] r@[i],
                tokens.deep_view()[i],
                wild_start + count_wild(tokens.deep_view().take(i)),
            ),
{
    let ghost toks = tokens.deep_view();
    let mut r: Vec<TypeFilter> = Vec::new();
    let mut wild: usize = wild_start;
    let mut i: usize = 0;
    proof {
        assert(toks.take(0) =~= Seq::<Seq<char>>::empty());
    }
    while i < tokens.len()
        invariant
            toks == tokens.deep_view(),
            toks.len() == tokens@.len(),
            wild_start + tokens@.len() <= usize::MAX,
            i <= tokens@.len(),
            r@.len() == i,
            wild == wild_start + count_wild(toks.take(i as int)),
            wild <= wild_start + i,
            forall|k: int|
                0 <= k < i ==> filter_ok(
                    #[trigger] r@[k],
                    toks[k],
                    wild_start + count_wild(toks.take(k)),
                ),
        decreases tokens@.len() - i,
    {
        proof {
            assert(toks.take(i + 1) =~= toks.take(i as int).push(toks[i as int]));
            lemma_count_wild_push(toks.take(i as int), toks[i as int]);
            lemma_count_wild_bounds(toks.take(i as int));
        }
        if token_has_wildcard(tokens[i].as_str()) {
            let name = glob_name(wild);
            let pattern = tokens[i].clone();
            r.push(TypeFilter::Glob { name, pattern });
            wild = wild + 1;
        } else {
            let n = tokens[i].clone();
            r.push(TypeFilter::Named(n));
        }
        i = i + 1;
    }
    proof {
        assert(toks.take(tokens@.len() as int) =~= toks);
    }
    r
}

/// The `ignore` crate's file-type registry builder, declared so that its
/// values can pass through this library's signatures.
#[verifier::external_type_specification]
#[verifier::external_body]
pub struct ExTypesBuilder(ignore::types::TypesBuilder);

/// The `ignore` crate's compiled file-type matcher, declared so that the
/// traversal configuration can carry it.
#[verifier::external_type_specification]
#[verifier::external_body]
pub struct ExTypes(ignore::types::Types);

/// An invalid file-type configuration: a bad glob or an unknown type name.
/// Fatal before traversal starts, never per file.
#[derive(Debug, Clone, PartialEq, Eq)]
pub struct ConfigError {
    pub message: String,
}

pub open spec fn is_ascii_alnum(c: char) -> bool {
    ||| '0' as u32 <= c as u32 <= '9' as u32
    ||| 'a' as u32 <= c as u32 <= 'z' as u32
    ||| 'A' as u32 <= c as u32 <= 'Z' as u32
}

/// A name the type registry accepts: ASCII letters and digits, not `all`.
pub open spec fn name_addable(n: Seq<char>) -> bool {
    &&& forall|i: int| 0 <= i < n.len() ==> is_ascii_alnum(#[trigger] n[i])
    &&& n != seq!['a', 'l', 'l']
}

pub proof fn lemma_decimal_chars(n: int)
    requires
        n >= 0,
    ensures
        decimal_spec(n).len() >= 1,
        forall|i: int| 0 <= i < decimal_spec(n).len() ==> is_ascii_alnum(#[trigger] decimal_spec(n)[i]),
    decreases n,
{
    if n < 10 {
        assert(is_ascii_alnum(digit_char_spec(n)));
    } else {
        lemma_decimal_chars(n / 10);
        assert(is_ascii_alnum(digit_char_spec(n % 10)));
        assert(forall|i: int|
            0 <= i < decimal_spec(n / 10).len() ==> #[trigger] decimal_spec(n)[i] == decimal_spec(
                n / 10,
            )[i]);
        assert(decimal_spec(n)[decimal_spec(n).len() - 1] == digit_char_spec(n % 10));
    }
}

/// Generated glob names are registrable: alphanumeric, and never `all`.
pub proof fn lemma_glob_name_addable(m: int)
    requires
        m >= 0,
    ensures
        name_addable(glob_name_spec(m)),
{
    reveal_strlit("type");
    lemma_decimal_chars(m);
    assert("type"@.len() == 4);
    assert(is_ascii_alnum("type"@[0]));
    assert(is_ascii_alnum("type"@[1]));
    assert(is_ascii_alnum("type"@[2]));
    assert(is_ascii_alnum("type"@[3]));
    assert(forall|i: int|
        0 <= i < 4 ==> #[trigger] glob_name_spec(m)[i] == "type"@[i]);
    assert(forall|i: int|
        4 <= i < glob_name_spec(m).len() ==> #[trigger] glob_name_spec(m)[i] == decimal_spec(m)[i
            - 4]);
    assert(glob_name_spec(m).len() >= 5);
    assert(seq!['a', 'l', 'l'].len() == 3);
}

/// The ad hoc definitions registered on top of the defaults: the
/// (name, glob) pairs handed to `add`, in registration order.
pub uninterp spec fn builder_globs(b: ignore::types::TypesBuilder) -> Seq<(Seq<char>, Seq<char>)>;

/// The names handed to `select` and `negate`, in order; the word `all`
/// expands to the defined names instead of being recorded itself.
pub uninterp spec fn builder_sels(b: ignore::types::TypesBuilder) -> Seq<Seq<char>>;

/// Whether the default registry has been added to this builder.
pub uninterp spec fn has_default_types(b: ignore::types::TypesBuilder) -> bool;

/// Whether `n` names one of the crate's built-in default file types.
pub uninterp spec fn default_type_name(n: Seq<char>) -> bool;

/// Whether `g` parses as a glob pattern (with the literal path separator):
/// a function of the pattern alone.
pub uninterp spec fn glob_parses(g: Seq<char>) -> bool;

/// Whether compiling a registry made of the defaults, these ad hoc
/// definitions and these selections succeeds: the outcome of the type
/// matcher build, a function of the registry contents alone.
pub uninterp spec fn registry_builds(
    globs: Seq<(Seq<char>, Seq<char>)>,
    sels: Seq<Seq<char>>,
) -> bool;

/// Relies on `ignore::types::TypesBuilder::new`: an empty type registry
/// with no definitions and no selections.
#[verifier::external_body]
fn tb_new() -> (b: ignore::types::TypesBuilder)
    ensures
        builder_globs(b) == Seq::<(Seq<char>, Seq<char>)>::empty(),
        builder_sels(b) == Seq::<Seq<char>>::empty(),
        !has_default_types(b),
{
    ignore::types::TypesBuilder::new()
}

/// Relies on `ignore::types::TypesBuilder::add_defaults`: registers the
/// crate's built-in file-type definitions and touches nothing else; its
/// internal registrations cannot fail, since every default name is
/// alphanumeric.
#[verifier::external_body]
fn tb_add_defaults(b: &mut ignore::types::TypesBuilder)
    ensures
        has_default_types(*final(b)),
        builder_globs(*final(b)) == builder_globs(*old(b)),
        builder_sels(*final(b)) == builder_sels(*old(b)),
{
    b.add_defaults();
}

/// Relies on `ignore::types::TypesBuilder::add`: it accepts any name made
/// of letters and digits other than `all`, rejects nothing else about the
/// glob at this point, and on success records the pair.  It is asked only
/// after the defaults are present, so the registry's contents stay fixed
/// by the defaults, these pairs, and the selections.
#[verifier::external_body]
fn tb_add(b: &mut ignore::types::TypesBuilder, name: &str, glob: &str) -> (r: Result<(), ()>)
    requires
        has_default_types(*old(b)),
    ensures
        name_addable(name@) ==> r is Ok,
        has_default_types(*final(b)),
        builder_sels(*final(b)) == builder_sels(*old(b)),
        r is Ok ==> builder_globs(*final(b)) == builder_globs(*old(b)).push((name@, glob@)),
        r is Err ==> builder_globs(*final(b)) == builder_globs(*old(b)),
{
    match b.add(name, glob) {
        Ok(()) => Ok(()),
        Err(_) => Err(()),
    }
}

/// Relies on `ignore::types::TypesBuilder::select`: records the name;
/// the word `all` instead records every currently defined name, in an
/// unspecified order.  Never fails.  Asked only after the defaults are
/// present, so the defined names are the defaults plus the ad hoc ones.
#[verifier::external_body]
fn tb_select(b: &mut ignore::types::TypesBuilder, name: &str)
    requires
        has_default_types(*old(b)),
    ensures
        has_default_types(*final(b)),
        builder_globs(*final(b)) == builder_globs(*old(b)),
        forall|s: Seq<char>|
            builder_sels(*old(b)).contains(s) ==> builder_sels(*final(b)).contains(s),
        name@ != seq!['a', 'l', 'l'] ==> builder_sels(*final(b)) == builder_sels(*old(b)).push(
            name@,
        ),
        name@ == seq!['a', 'l', 'l'] ==> (forall|s: Seq<char>|
            builder_sels(*final(b)).contains(s) <==> (builder_sels(*old(b)).contains(s)
                || default_type_name(s) || (exists|p: (Seq<char>, Seq<char>)|
                builder_globs(*old(b)).contains(p) && p.0 == s))),
{
    b.select(name);
}

/// Relies on `ignore::types::TypesBuilder::negate`: records the name to be
/// ignored, with the same `all` expansion as `select`.  Never fails.
/// Asked only after the defaults are present, as `select` is.
#[verifier::external_body]
fn tb_negate(b: &mut ignore::types::TypesBuilder, name: &str)
    requires
        has_default_types(*old(b)),
    ensures
        has_default_types(*final(b)),
        builder_globs(*final(b)) == builder_globs(*old(b)),
        forall|s: Seq<char>|
            builder_sels(*old(b)).contains(s) ==> builder_sels(*final(b)).contains(s),
        name@ != seq!['a', 'l', 'l'] ==> builder_sels(*final(b)) == builder_sels(*old(b)).push(
            name@,
        ),
        name@ == seq!['a', 'l', 'l'] ==> (forall|s: Seq<char>|
            builder_sels(*final(b)).contains(s) <==> (builder_sels(*old(b)).contains(s)
                || default_type_name(s) || (exists|p: (Seq<char>, Seq<char>)|
                builder_globs(*old(b)).contains(p) && p.0 == s))),
{
    b.negate(name);
}

/// Relies on `ignore::types::TypesBuilder::build`: with the defaults
/// present, whether it succeeds is the named function `registry_builds`
/// of the recorded pairs and selections alone; a selection that names no
/// definition makes it fail, and so does a selected definition whose glob
/// does not parse.  The message renders the error.
#[verifier::external_body]
fn tb_build(b: &ignore::types::TypesBuilder) -> (r: Result<ignore::types::Types, String>)
    requires
        has_default_types(*b),
    ensures
        r is Ok <==> registry_builds(builder_globs(*b), builder_sels(*b)),
        (exists|s: Seq<char>|
            builder_sels(*b).contains(s) && !default_type_name(s) && !(exists|
                p: (Seq<char>, Seq<char>),
            |
                builder_globs(*b).contains(p) && p.0 == s)) ==> r is Err,
        (exists|p: (Seq<char>, Seq<char>)|
            builder_globs(*b).contains(p) && builder_sels(*b).contains(p.0) && !glob_parses(
                p.1,
            )) ==> r is Err,
{
    match b.build() {
        Ok(t) => Ok(t),
        Err(e) => Err(e.to_string()),
    }
}

/// Map the matcher build outcome onto the library's configuration error.
pub fn matcher_from_build(r: Result<ignore::types::Types, String>) -> (out: Result<
    ignore::types::Types,
    ConfigError,
>)
    ensures
        r is Ok <==> out is Ok,
        r is Ok ==> out->Ok_0 == r->Ok_0,
        r is Err ==> (out matches Err(e) && e.message@ == r->Err_0@),
{
    match r {
        Ok(t) => Ok(t),
        Err(message) => Err(ConfigError { message }),
    }
}

/// Membership in a pushed sequence.
proof fn lemma_push_membership<A>(s: Seq<A>, x: A)
    ensures
        forall|y: A| #[trigger] s.push(x).contains(y) <==> s.contains(y) || y == x,
{
    assert forall|y: A| #[trigger] s.push(x).contains(y) implies s.contains(y) || y == x by {
        let i = choose|i: int| 0 <= i < s.push(x).len() && s.push(x)[i] == y;
        if i < s.len() {
            assert(s[i] == y);
        }
    }
    assert forall|y: A| s.contains(y) implies s.push(x).contains(y) by {
        let i = choose|i: int| 0 <= i < s.len() && s[i] == y;
        assert(s.push(x)[i] == y);
    }
    assert(s.push(x)[s.len() as int] == x);
}

/// Membership in a concatenation.
proof fn lemma_concat_membership<A>(a: Seq<A>, b: Seq<A>)
    ensures
        forall|y: A| #[trigger] (a + b).contains(y) <==> a.contains(y) || b.contains(y),
{
    assert forall|y: A| #[trigger] (a + b).contains(y) implies a.contains(y) || b.contains(y) by {
        let i = choose|i: int| 0 <= i < (a + b).len() && (a + b)[i] == y;
        if i < a.len() {
            assert(a[i] == y);
        } else {
            assert(b[i - a.len()] == y);
        }
    }
    assert forall|y: A| a.contains(y) implies (a + b).contains(y) by {
        let i = choose|i: int| 0 <= i < a.len() && a[i] == y;
        assert((a + b)[i] == y);
    }
    assert forall|y: A| b.contains(y) implies (a + b).contains(y) by {
        let i = choose|i: int| 0 <= i < b.len() && b[i] == y;
        assert((a + b)[a.len() + i] == y);
    }
}

/// The ad hoc definitions a token list registers, numbering its globs
/// from `w`.
pub open spec fn reg_globs(tokens: Seq<Seq<char>>, w: int) -> Seq<(Seq<char>, Seq<char>)>
    decreases tokens.len(),
{
    if tokens.len() == 0 {
        Seq::empty()
    } else if has_wildcard(tokens[0]) {
        seq![(glob_name_spec(w), tokens[0])] + reg_globs(tokens.skip(1), w + 1)
    } else {
        reg_globs(tokens.skip(1), w)
    }
}

/// The names a token list hands to select or negate: the generated name
/// for a glob token, the token itself otherwise.
pub open spec fn reg_sels(tokens: Seq<Seq<char>>, w: int) -> Seq<Seq<char>>
    decreases tokens.len(),
{
    if tokens.len() == 0 {
        Seq::empty()
    } else if has_wildcard(tokens[0]) {
        seq![glob_name_spec(w)] + reg_sels(tokens.skip(1), w + 1)
    } else {
        seq![tokens[0]] + reg_sels(tokens.skip(1), w)
    }
}

/// The definitions a filter list registers.
pub open spec fn filters_globs(fs: Seq<TypeFilter>) -> Seq<(Seq<char>, Seq<char>)>
    decreases fs.len(),
{
    if fs.len() == 0 {
        Seq::empty()
    } else {
        (match fs[0] {
            TypeFilter::Glob { name, pattern } => seq![(name@, pattern@)],
            TypeFilter::Named(_) => Seq::<(Seq<char>, Seq<char>)>::empty(),
        }) + filters_globs(fs.skip(1))
    }
}

/// The name a filter selects or negates.
pub open spec fn sel_name_of(f: TypeFilter) -> Seq<char> {
    match f {
        TypeFilter::Named(n) => n@,
        TypeFilter::Glob { name, pattern } => name@,
    }
}

/// The names a filter list selects or negates, in order.
pub open spec fn filters_sels(fs: Seq<TypeFilter>) -> Seq<Seq<char>>
    decreases fs.len(),
{
    if fs.len() == 0 {
        Seq::empty()
    } else {
        seq![sel_name_of(fs[0])] + filters_sels(fs.skip(1))
    }
}

proof fn lemma_filters_push(fs: Seq<TypeFilter>, x: TypeFilter)
    ensures
        filters_globs(fs.push(x)) == filters_globs(fs) + (match x {
            TypeFilter::Glob { name, pattern } => seq![(name@, pattern@)],
            TypeFilter::Named(_) => Seq::<(Seq<char>, Seq<char>)>::empty(),
        }),
        filters_sels(fs.push(x)) == filters_sels(fs) + seq![sel_name_of(x)],
    decreases fs.len(),
{
    if fs.len() == 0 {
        assert(fs.push(x)[0] == x);
        assert(fs.push(x).skip(1) =~= Seq::<TypeFilter>::empty());
        assert(filters_globs(fs.push(x)) == (match fs.push(x)[0] {
            TypeFilter::Glob { name, pattern } => seq![(name@, pattern@)],
            TypeFilter::Named(_) => Seq::<(Seq<char>, Seq<char>)>::empty(),
        }) + filters_globs(fs.push(x).skip(1)));
        assert(filters_sels(fs.push(x)) == seq![sel_name_of(fs.push(x)[0])] + filters_sels(
            fs.push(x).skip(1),
        ));
        assert(filters_globs(Seq::<TypeFilter>::empty()) == Seq::<(Seq<char>, Seq<char>)>::empty());
        assert(filters_sels(Seq::<TypeFilter>::empty()) == Seq::<Seq<char>>::empty());
        assert(filters_globs(fs) =~= Seq::<(Seq<char>, Seq<char>)>::empty());
        assert(filters_sels(fs) =~= Seq::<Seq<char>>::empty());
        assert(filters_globs(fs.push(x)) =~~= filters_globs(fs) + (match x {
            TypeFilter::Glob { name, pattern } => seq![(name@, pattern@)],
            TypeFilter::Named(_) => Seq::<(Seq<char>, Seq<char>)>::empty(),
        }));
        assert(filters_sels(fs.push(x)) =~~= filters_sels(fs) + seq![sel_name_of(x)]);
    } else {
        assert(fs.push(x)[0] == fs[0]);
        assert(fs.push(x).skip(1) =~= fs.skip(1).push(x));
        lemma_filters_push(fs.skip(1), x);
        assert(filters_globs(fs.push(x)) == (match fs[0] {
            TypeFilter::Glob { name, pattern } => seq![(name@, pattern@)],
            TypeFilter::Named(_) => Seq::<(Seq<char>, Seq<char>)>::empty(),
        }) + filters_globs(fs.push(x).skip(1)));
        assert(filters_sels(fs.push(x)) == seq![sel_name_of(fs[0])] + filters_sels(
            fs.push(x).skip(1),
        ));
        assert(filters_globs(fs) == (match fs[0] {
            TypeFilter::Glob { name, pattern } => seq![(name@, pattern@)],
            TypeFilter::Named(_) => Seq::<(Seq<char>, Seq<char>)>::empty(),
        }) + filters_globs(fs.skip(1)));
        assert(filters_sels(fs) == seq![sel_name_of(fs[0])] + filters_sels(fs.skip(1)));
        assert(filters_globs(fs.push(x)) =~~= filters_globs(fs) + (match x {
            TypeFilter::Glob { name, pattern } => seq![(name@, pattern@)],
            TypeFilter::Named(_) => Seq::<(Seq<char>, Seq<char>)>::empty(),
        }));
        assert(filters_sels(fs.push(x)) =~~= filters_sels(fs) + seq![sel_name_of(x)]);
    }
}

/// Correctly classified filters register and select exactly what the
/// tokens describe.
proof fn lemma_filters_match_tokens(fs: Seq<TypeFilter>, toks: Seq<Seq<char>>, w: int)
    requires
        fs.len() == toks.len(),
        forall|i: int|
            0 <= i < toks.len() ==> filter_ok(
                #[trigger] fs[i],
                toks[i],
                w + count_wild(toks.take(i)),
            ),
    ensures
        filters_globs(fs) == reg_globs(toks, w),
        filters_sels(fs) == reg_sels(toks, w),
    decreases toks.len(),
{
    if toks.len() > 0 {
        assert(toks.take(0) =~= Seq::<Seq<char>>::empty());
        assert(filter_ok(fs[0], toks[0], w));
        let w1 = w + (if has_wildcard(toks[0]) {
            1int
        } else {
            0int
        });
        assert forall|i: int|
            0 <= i < toks.skip(1).len() implies filter_ok(
            #[trigger] fs.skip(1)[i],
            toks.skip(1)[i],
            w1 + count_wild(toks.skip(1).take(i)),
        ) by {
            assert(fs.skip(1)[i] == fs[i + 1]);
            assert(toks.skip(1)[i] == toks[i + 1]);
            assert(filter_ok(fs[i + 1], toks[i + 1], w + count_wild(toks.take(i + 1))));
            let cons = seq![toks[0]] + toks.skip(1).take(i);
            assert(toks.take(i + 1) =~= cons);
            assert(cons[0] == toks[0]);
            assert(cons.skip(1) =~= toks.skip(1).take(i));
            assert(count_wild(cons) == (if has_wildcard(toks[0]) {
                1int
            } else {
                0int
            }) + count_wild(toks.skip(1).take(i)));
        }
        lemma_filters_match_tokens(fs.skip(1), toks.skip(1), w1);
        assert(filters_globs(fs) =~~= reg_globs(toks, w));
        assert(filters_sels(fs) =~~= reg_sels(toks, w));
    } else {
        assert(filters_globs(fs) =~~= reg_globs(toks, w));
        assert(filters_sels(fs) =~~= reg_sels(toks, w));
    }
}

/// A token list's registrations and selections split at a concatenation,
/// with the glob numbering carried across.
pub proof fn lemma_reg_concat(a: Seq<Seq<char>>, b: Seq<Seq<char>>, w: int)
    ensures
        count_wild(a + b) == count_wild(a) + count_wild(b),
        reg_globs(a + b, w) == reg_globs(a, w) + reg_globs(b, w + count_wild(a)),
        reg_sels(a + b, w) == reg_sels(a, w) + reg_sels(b, w + count_wild(a)),
    decreases a.len(),
{
    if a.len() == 0 {
        assert(a + b =~= b);
        assert(count_wild(a) == 0);
        assert(reg_globs(a, w) =~= Seq::<(Seq<char>, Seq<char>)>::empty());
        assert(reg_sels(a, w) =~= Seq::<Seq<char>>::empty());
        assert(reg_globs(a + b, w) =~~= reg_globs(a, w) + reg_globs(b, w + count_wild(a)));
        assert(reg_sels(a + b, w) =~~= reg_sels(a, w) + reg_sels(b, w + count_wild(a)));
    } else {
        assert((a + b)[0] == a[0]);
        assert((a + b).skip(1) =~= a.skip(1) + b);
        let w1 = w + (if has_wildcard(a[0]) {
            1int
        } else {
            0int
        });
        lemma_reg_concat(a.skip(1), b, w1);
        assert(reg_globs(a + b, w) =~~= reg_globs(a, w) + reg_globs(b, w + count_wild(a)));
        assert(reg_sels(a + b, w) =~~= reg_sels(a, w) + reg_sels(b, w + count_wild(a)));
    }
}

/// Every registered definition carries a generated glob name in range.
pub proof fn lemma_reg_globs_names(toks: Seq<Seq<char>>, w: int, p: (Seq<char>, Seq<char>))
    requires
        reg_globs(toks, w).contains(p),
    ensures
        exists|j: int| w <= j < w + count_wild(toks) && p.0 == glob_name_spec(j),
    decreases toks.len(),
{
    if toks.len() == 0 {
        let i = choose|i: int| 0 <= i < reg_globs(toks, w).len() && reg_globs(toks, w)[i] == p;
        assert(false);
    } else if has_wildcard(toks[0]) {
        let head = seq![(glob_name_spec(w), toks[0])];
        lemma_concat_membership(head, reg_globs(toks.skip(1), w + 1));
        lemma_count_wild_bounds(toks.skip(1));
        if head.contains(p) {
            let i = choose|i: int| 0 <= i < head.len() && head[i] == p;
            assert(p.0 == glob_name_spec(w));
        } else {
            lemma_reg_globs_names(toks.skip(1), w + 1, p);
        }
    } else {
        lemma_reg_globs_names(toks.skip(1), w, p);
    }
}

/// A glob token's registration pair is present, under its position's name.
pub proof fn lemma_reg_globs_has_wild(toks: Seq<Seq<char>>, w: int, i: int)
    requires
        0 <= i < toks.len(),
        has_wildcard(toks[i]),
    ensures
        reg_globs(toks, w).contains((glob_name_spec(w + count_wild(toks.take(i))), toks[i])),
    decreases i,
{
    if i == 0 {
        assert(toks.take(0) =~= Seq::<Seq<char>>::empty());
        assert(count_wild(toks.take(0)) == 0);
        assert(reg_globs(toks, w)[0] == (glob_name_spec(w), toks[0]));
    } else {
        let w1 = w + (if has_wildcard(toks[0]) {
            1int
        } else {
            0int
        });
        assert(toks.skip(1)[i - 1] == toks[i]);
        lemma_reg_globs_has_wild(toks.skip(1), w1, i - 1);
        let cons = seq![toks[0]] + toks.skip(1).take(i - 1);
        assert(toks.take(i) =~= cons);
        assert(cons[0] == toks[0]);
        assert(cons.skip(1) =~= toks.skip(1).take(i - 1));
        assert(count_wild(toks.take(i)) == (if has_wildcard(toks[0]) {
            1int
        } else {
            0int
        }) + count_wild(toks.skip(1).take(i - 1)));
        if has_wildcard(toks[0]) {
            lemma_concat_membership(
                seq![(glob_name_spec(w), toks[0])],
                reg_globs(toks.skip(1), w + 1),
            );
        }
    }
}

/// Each token's selection name is present.
pub proof fn lemma_reg_sels_has(toks: Seq<Seq<char>>, w: int, i: int)
    requires
        0 <= i < toks.len(),
    ensures
        has_wildcard(toks[i]) ==> reg_sels(toks, w).contains(
            glob_name_spec(w + count_wild(toks.take(i))),
        ),
        !has_wildcard(toks[i]) ==> reg_sels(toks, w).contains(toks[i]),
    decreases i,
{
    if i == 0 {
        assert(toks.take(0) =~= Seq::<Seq<char>>::empty());
        assert(count_wild(toks.take(0)) == 0);
        if has_wildcard(toks[0]) {
            assert(reg_sels(toks, w)[0] == glob_name_spec(w));
        } else {
            assert(reg_sels(toks, w)[0] == toks[0]);
        }
    } else {
        let w1 = w + (if has_wildcard(toks[0]) {
            1int
        } else {
            0int
        });
        assert(toks.skip(1)[i - 1] == toks[i]);
        lemma_reg_sels_has(toks.skip(1), w1, i - 1);
        let cons = seq![toks[0]] + toks.skip(1).take(i - 1);
        assert(toks.take(i) =~= cons);
        assert(cons[0] == toks[0]);
        assert(cons.skip(1) =~= toks.skip(1).take(i - 1));
        assert(count_wild(toks.take(i)) == (if has_wildcard(toks[0]) {
            1int
        } else {
            0int
        }) + count_wild(toks.skip(1).take(i - 1)));
        if has_wildcard(toks[0]) {
            lemma_concat_membership(seq![glob_name_spec(w)], reg_sels(toks.skip(1), w + 1));
        } else {
            lemma_concat_membership(seq![toks[0]], reg_sels(toks.skip(1), w));
        }
    }
}

/// Register classified filters, selecting or negating each one.  The
/// generated glob names are provably registrable, so registration cannot
/// fail; selections are recorded exactly, except that a literal `all`
/// token expands instead of being recorded.
fn apply_filters(b: &mut ignore::types::TypesBuilder, filters: &Vec<TypeFilter>, negate: bool)
    requires
        has_default_types(*old(b)),
        forall|i: int|
            0 <= i < filters@.len() ==> ((#[trigger] filters@[i]) matches TypeFilter::Glob {
                name,
                pattern,
            } ==> name_addable(name@)),
    ensures
        has_default_types(*final(b)),
        builder_globs(*final(b)) == builder_globs(*old(b)) + filters_globs(filters@),
        forall|s: Seq<char>|
            builder_sels(*old(b)).contains(s) ==> builder_sels(*final(b)).contains(s),
        forall|s: Seq<char>|
            filters_sels(filters@).contains(s) && s != seq!['a', 'l', 'l']
                ==> builder_sels(*final(b)).contains(s),
        (forall|k: int|
            0 <= k < filters@.len() ==> sel_name_of(#[trigger] filters@[k]) != seq![
                'a',
                'l',
                'l',
            ]) ==> builder_sels(*final(b)) == builder_sels(*old(b)) + filters_sels(filters@),
{
    let mut j: usize = 0;
    proof {
        assert(filters@.take(0) =~= Seq::<TypeFilter>::empty());
        assert(builder_globs(*b) =~= builder_globs(*old(b)) + filters_globs(filters@.take(0)));
        assert(builder_sels(*b) =~= builder_sels(*old(b)) + filters_sels(filters@.take(0)));
    }
    while j < filters.len()
        invariant
            j <= filters@.len(),
            forall|i: int|
                0 <= i < filters@.len() ==> ((#[trigger] filters@[i]) matches TypeFilter::Glob {
                    name,
                    pattern,
                } ==> name_addable(name@)),
            has_default_types(*b),
            builder_globs(*b) == builder_globs(*old(b)) + filters_globs(filters@.take(j as int)),
            forall|s: Seq<char>| builder_sels(*old(b)).contains(s) ==> builder_sels(*b).contains(s),
            forall|s: Seq<char>|
                filters_sels(filters@.take(j as int)).contains(s) && s != seq!['a', 'l', 'l']
                    ==> builder_sels(*b).contains(s),
            (forall|k: int|
                0 <= k < j ==> sel_name_of(#[trigger] filters@[k]) != seq!['a', 'l', 'l'])
                ==> builder_sels(*b) == builder_sels(*old(b)) + filters_sels(
                filters@.take(j as int),
            ),
        decreases filters@.len() - j,
    {
        let ghost pre_globs = builder_globs(*b);
        let ghost pre_sels = builder_sels(*b);
        proof {
            assert(filters@.take(j + 1) =~= filters@.take(j as int).push(filters@[j as int]));
            lemma_filters_push(filters@.take(j as int), filters@[j as int]);
        }
        match &filters[j] {
            TypeFilter::Named(n) => {
                if negate {
                    tb_negate(b, n.as_str());
                } else {
                    tb_select(b, n.as_str());
                }
                proof {
                    assert(builder_globs(*b) =~= builder_globs(*old(b)) + filters_globs(
                        filters@.take(j + 1),
                    ));
                    if n@ != seq!['a', 'l', 'l'] {
                        lemma_push_membership(pre_sels, n@);
                        assert(pre_sels.push(n@) =~= pre_sels + seq![n@]);
                    }
                    lemma_concat_membership(
                        filters_sels(filters@.take(j as int)),
                        seq![sel_name_of(filters@[j as int])],
                    );
                    if (forall|k: int|
                        0 <= k < j + 1 ==> sel_name_of(#[trigger] filters@[k]) != seq![
                            'a',
                            'l',
                            'l',
                        ]) {
                        assert(sel_name_of(filters@[j as int]) != seq!['a', 'l', 'l']);
                        assert(builder_sels(*b) =~= builder_sels(*old(b)) + filters_sels(
                            filters@.take(j + 1),
                        ));
                    }
                }
            },
            TypeFilter::Glob { name, pattern } => {
                let added = tb_add(b, name.as_str(), pattern.as_str());
                if added.is_err() {
                    proof {
                        assert(false);
                    }
                }
                if negate {
                    tb_negate(b, name.as_str());
                } else {
                    tb_select(b, name.as_str());
                }
                proof {
                    assert(name_addable(name@));
                    assert(name@ != seq!['a', 'l', 'l']);
                    assert(pre_globs.push((name@, pattern@)) =~= pre_globs + seq![
                        (name@, pattern@),
                    ]);
                    assert(builder_globs(*b) =~= builder_globs(*old(b)) + filters_globs(
                        filters@.take(j + 1),
                    ));
                    lemma_push_membership(pre_sels, name@);
                    assert(pre_sels.push(name@) =~= pre_sels + seq![name@]);
                    lemma_concat_membership(
                        filters_sels(filters@.take(j as int)),
                        seq![sel_name_of(filters@[j as int])],
                    );
                    if (forall|k: int|
                        0 <= k < j + 1 ==> sel_name_of(#[trigger] filters@[k]) != seq![
                            'a',
                            'l',
                            'l',
                        ]) {
                        assert(builder_sels(*b) =~= builder_sels(*old(b)) + filters_sels(
                            filters@.take(j + 1),
                        ));
                    }
                }
            },
        }
        j = j + 1;
    }
    proof {
        assert(filters@.take(filters@.len() as int) =~= filters@);
    }
}

/// Build the file-type matcher for the run: classify every token, register
/// the defaults and the ad hoc globs, then compile.  An invalid glob or an
/// unknown type name surfaces here as a `ConfigError`, before any
/// traversal; whether compilation succeeds is the named outcome
/// `registry_builds` of exactly what the tokens register and select.
pub fn build_file_type_matcher(selected: &Vec<String>, ignored: &Vec<String>) -> (r: Result<
    ignore::types::Types,
    ConfigError,
>)
    requires
        selected@.len() + ignored@.len() <= usize::MAX,
    ensures
        ({
            let toks = selected.deep_view() + ignored.deep_view();
            &&& !toks.contains(seq!['a', 'l', 'l']) ==> (r is Ok <==> registry_builds(
                reg_globs(toks, 0),
                reg_sels(toks, 0),
            ))
            &&& (exists|i: int|
                0 <= i < toks.len() && !has_wildcard(#[trigger] toks[i]) && toks[i] != seq![
                    'a',
                    'l',
                    'l',
                ] && !default_type_name(toks[i]) && (forall|j: int|
                    0 <= j < count_wild(toks) ==> toks[i] != glob_name_spec(j))) ==> r is Err
            &&& (exists|i: int|
                0 <= i < toks.len() && has_wildcard(#[trigger] toks[i]) && !glob_parses(toks[i]))
                ==> r is Err
        }),
{
    let ghost sel_toks = selected.deep_view();
    let ghost ign_toks = ignored.deep_view();
    let ghost toks = sel_toks + ign_toks;
    let (sel_filters, ign_filters) = classify_type_tokens(selected, ignored);
    proof {
        assert forall|i: int|
            0 <= i < sel_filters@.len() implies ((#[trigger] sel_filters@[i])
            matches TypeFilter::Glob { name, pattern } ==> name_addable(name@)) by {
            if has_wildcard(sel_toks[i]) {
                lemma_count_wild_bounds(sel_toks.take(i));
                lemma_glob_name_addable(count_wild(sel_toks.take(i)));
            }
        }
        assert forall|i: int|
            0 <= i < ign_filters@.len() implies ((#[trigger] ign_filters@[i])
            matches TypeFilter::Glob { name, pattern } ==> name_addable(name@)) by {
            if has_wildcard(ign_toks[i]) {
                lemma_count_wild_bounds(sel_toks);
                lemma_count_wild_bounds(ign_toks.take(i));
                lemma_glob_name_addable(count_wild(sel_toks) + count_wild(ign_toks.take(i)));
            }
        }
        lemma_count_wild_bounds(sel_toks);
        lemma_filters_match_tokens(sel_filters@, sel_toks, 0);
        lemma_filters_match_tokens(ign_filters@, ign_toks, count_wild(sel_toks));
        lemma_reg_concat(sel_toks, ign_toks, 0);
    }
    let mut builder = tb_new();
    tb_add_defaults(&mut builder);
    let ghost base_sels = builder_sels(builder);
    apply_filters(&mut builder, &sel_filters, false);
    apply_filters(&mut builder, &ign_filters, true);
    proof {
        assert(builder_globs(builder) =~= reg_globs(toks, 0));
        lemma_concat_membership(reg_sels(sel_toks, 0), reg_sels(ign_toks, count_wild(sel_toks)));
        // every token's selection name, other than a literal `all`, was recorded
        assert forall|s: Seq<char>|
            reg_sels(toks, 0).contains(s) && s != seq!['a', 'l', 'l'] implies builder_sels(
            builder,
        ).contains(s) by {
            if reg_sels(sel_toks, 0).contains(s) {
                assert(filters_sels(sel_filters@).contains(s));
            } else {
                assert(filters_sels(ign_filters@).contains(s));
            }
        }
        // with no `all` token, the recorded selections are exactly the spec's
        if !toks.contains(seq!['a', 'l', 'l']) {
            assert forall|k: int|
                0 <= k < sel_filters@.len() implies sel_name_of(#[trigger] sel_filters@[k])
                != seq!['a', 'l', 'l'] by {
                assert(filter_ok(sel_filters@[k], sel_toks[k], count_wild(sel_toks.take(k))));
                assert(toks[k] == sel_toks[k]);
                if has_wildcard(sel_toks[k]) {
                    lemma_count_wild_bounds(sel_toks.take(k));
                    lemma_glob_name_addable(count_wild(sel_toks.take(k)));
                }
            }
            assert forall|k: int|
                0 <= k < ign_filters@.len() implies sel_name_of(#[trigger] ign_filters@[k])
                != seq!['a', 'l', 'l'] by {
                assert(filter_ok(
                    ign_filters@[k],
                    ign_toks[k],
                    count_wild(sel_toks) + count_wild(ign_toks.take(k)),
                ));
                assert(toks[sel_toks.len() + k] == ign_toks[k]);
                if has_wildcard(ign_toks[k]) {
                    lemma_count_wild_bounds(ign_toks.take(k));
                    lemma_glob_name_addable(
                        count_wild(sel_toks) + count_wild(ign_toks.take(k)),
                    );
                }
            }
            assert(builder_sels(builder) =~= base_sels + filters_sels(sel_filters@)
                + filters_sels(ign_filters@));
            assert(builder_sels(builder) =~= reg_sels(toks, 0));
        }
    }
    let out = matcher_from_build(tb_build(&builder));
    proof {
        // a named token that no definition carries makes the build fail
        if exists|i: int|
            0 <= i < toks.len() && !has_wildcard(#[trigger] toks[i]) && toks[i] != seq![
                'a',
                'l',
                'l',
            ] && !default_type_name(toks[i]) && (forall|j: int|
                0 <= j < count_wild(toks) ==> toks[i] != glob_name_spec(j)) {
            let i = choose|i: int|
                0 <= i < toks.len() && !has_wildcard(#[trigger] toks[i]) && toks[i] != seq![
                    'a',
                    'l',
                    'l',
                ] && !default_type_name(toks[i]) && (forall|j: int|
                    0 <= j < count_wild(toks) ==> toks[i] != glob_name_spec(j));
            lemma_reg_sels_has(toks, 0, i);
            assert(builder_sels(builder).contains(toks[i]));
            assert forall|p: (Seq<char>, Seq<char>)|
                builder_globs(builder).contains(p) implies p.0 != toks[i] by {
                lemma_reg_globs_names(toks, 0, p);
            }
            assert(out is Err);
        }
        // a glob token that does not parse makes the build fail
        if exists|i: int|
            0 <= i < toks.len() && has_wildcard(#[trigger] toks[i]) && !glob_parses(toks[i]) {
            let i = choose|i: int|
                0 <= i < toks.len() && has_wildcard(#[trigger] toks[i]) && !glob_parses(toks[i]);
            lemma_reg_globs_has_wild(toks, 0, i);
            lemma_reg_sels_has(toks, 0, i);
            let gname = glob_name_spec(count_wild(toks.take(i)));
            assert(builder_globs(builder).contains((gname, toks[i])));
            lemma_count_wild_bounds(toks.take(i));
            lemma_glob_name_addable(count_wild(toks.take(i)));
            assert(builder_sels(builder).contains(gname));
            assert(out is Err);
        }
    }
    out
}

/// Resolve the user's select and ignore tokens into classified filters.
/// Glob numbering is shared: the ignore list's globs continue where the
/// select list's globs stop.
pub fn classify_type_tokens(selected: &Vec<String>, ignored: &Vec<String>) -> (r: (
    Vec<TypeFilter>,
    Vec<TypeFilter>,
))
    requires
        selected@.len() + ignored@.len() <= usize::MAX,
    ensures
        r.0@.len() == selected@.len(),
        r.1@.len() == ignored@.len(),
        forall|i: int|
            0 <= i < selected@.len() ==> filter_ok(
                #[trigger] r.0@[i],
                selected.deep_view()[i],
                count_wild(selected.deep_view().take(i)),
            ),
        forall|i: int|
            0 <= i < ignored@.len() ==> filter_ok(
                #[trigger] r.1@[i],
                ignored.deep_view()[i],
                count_wild(selected.deep_view()) + count_wild(ignored.deep_view().take(i)),
            ),
{
    proof {
        lemma_count_wild_bounds(selected.deep_view());
    }
    let sel_filters = classify_tokens(selected, 0);
    let mut wild: usize = 0;
    let mut i: usize = 0;
    proof {
        assert(selected.deep_view().take(0) =~= Seq::<Seq<char>>::empty());
    }
    while i < selected.len()
        invariant
            selected.deep_view().len() == selected@.len(),
            i <= selected@.len(),
            wild == count_wild(selected.deep_view().take(i as int)),
            wild <= i,
        decreases selected@.len() - i,
    {
        proof {
            assert(selected.deep_view().take(i + 1) =~= selected.deep_view().take(i as int).push(
                selected.deep_view()[i as int],
            ));
            lemma_count_wild_push(selected.deep_view().take(i as int), selected.deep_view()[i as int]);
        }
        if token_has_wildcard(selected[i].as_str()) {
            wild = wild + 1;
        }
        i = i + 1;
    }
    proof {
        assert(selected.deep_view().take(selected@.len() as int) =~= selected.deep_view());
    }
    let ign_filters = classify_tokens(ignored, wild);
    (sel_filters, ign_filters)
}

} // verus!
