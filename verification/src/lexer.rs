//! Tokenizer: converts one line of raw text into a sequence of lexical
//! tokens terminated by an end-of-line marker.
//!
//! Recognition order (first match wins): comment, the declaration markers
//! (`/type/x`, `/lazytype/x`, `/ignore/x`, `/macro`, `/import`, `/render`),
//! reference (`type/ident`), auto-reference (`type/` followed by
//! whitespace), plain word. If nothing matches, one character is consumed
//! as a degenerate word, so tokenizing always terminates.

use crate::text::{chars_of, string_of_range};
use vstd::prelude::*;

verus! {

// ---------------------------------------------------------------------------
// Character classes
// ---------------------------------------------------------------------------
/// Whitespace, as this grammar recognizes it: the Unicode white-space
/// characters, the same set std's trimming and the common regex whitespace
/// class recognize.
pub open spec fn is_space(c: char) -> bool {
    let u = c as u32;
    (9 <= u && u <= 13) || u == 32 || u == 0x85 || u == 0xA0 || u == 0x1680 || (0x2000 <= u && u
        <= 0x200A) || u == 0x2028 || u == 0x2029 || u == 0x202F || u == 0x205F || u == 0x3000
}

/// Lowercase ASCII letter: the only characters a type name may contain.
pub open spec fn is_lower(c: char) -> bool {
    ('a' as u32) <= (c as u32) && (c as u32) <= ('z' as u32)
}

/// A character that continues a word for the purpose of the keyword
/// boundary after `/macro`, `/import` and `/render`: ASCII alphanumeric or
/// underscore.
pub open spec fn is_word_cont(c: char) -> bool {
    is_lower(c) || (('A' as u32) <= (c as u32) && (c as u32) <= ('Z' as u32)) || (('0' as u32) <= (
    c as u32) && (c as u32) <= ('9' as u32)) || c == '_'
}

/// A character a plain word may contain: anything but whitespace and `/`.
pub open spec fn is_word_piece(c: char) -> bool {
    !is_space(c) && c != '/'
}

/// The predicates as first-class spec functions, so that every use names
/// the same value.
pub open spec fn lower_p() -> spec_fn(char) -> bool {
    |c: char| is_lower(c)
}

pub open spec fn word_p() -> spec_fn(char) -> bool {
    |c: char| is_word_piece(c)
}

pub open spec fn nonspace_p() -> spec_fn(char) -> bool {
    |c: char| !is_space(c)
}

pub open spec fn space_p() -> spec_fn(char) -> bool {
    |c: char| is_space(c)
}

pub open spec fn nonnl_p() -> spec_fn(char) -> bool {
    |c: char| c != '\n'
}

fn space_c(c: char) -> (r: bool)
    ensures
        r == is_space(c),
{
    let u = c as u32;
    (9 <= u && u <= 13) || u == 32 || u == 0x85 || u == 0xA0 || u == 0x1680 || (0x2000 <= u && u
        <= 0x200A) || u == 0x2028 || u == 0x2029 || u == 0x202F || u == 0x205F || u == 0x3000
}

fn lower_c(c: char) -> (r: bool)
    ensures
        r == is_lower(c),
{
    ('a' as u32) <= (c as u32) && (c as u32) <= ('z' as u32)
}

fn word_cont_c(c: char) -> (r: bool)
    ensures
        r == is_word_cont(c),
{
    lower_c(c) || (('A' as u32) <= (c as u32) && (c as u32) <= ('Z' as u32)) || (('0' as u32) <= (
    c as u32) && (c as u32) <= ('9' as u32)) || c == '_'
}

fn word_piece_c(c: char) -> (r: bool)
    ensures
        r == is_word_piece(c),
{
    !space_c(c) && c != '/'
}

// ---------------------------------------------------------------------------
// Maximal runs and prefixes
// ---------------------------------------------------------------------------
/// Length of the maximal prefix of `s` whose characters all satisfy `p`.
pub open spec fn run_len(s: Seq<char>, p: spec_fn(char) -> bool) -> nat
    decreases s.len(),
{
    if s.len() > 0 && p(s[0]) {
        (1 + run_len(s.drop_first(), p)) as nat
    } else {
        0
    }
}

pub proof fn lemma_run_len(s: Seq<char>, p: spec_fn(char) -> bool)
    ensures
        run_len(s, p) <= s.len(),
        forall|i: int| 0 <= i < run_len(s, p) ==> p(s[i]),
        run_len(s, p) < s.len() ==> !p(s[run_len(s, p) as int]),
    decreases s.len(),
{
    if s.len() > 0 && p(s[0]) {
        lemma_run_len(s.drop_first(), p);
        assert forall|i: int| 0 <= i < run_len(s, p) implies p(s[i]) by {
            if i > 0 {
                assert(s.drop_first()[i - 1] == s[i]);
            }
        }
        if run_len(s, p) < s.len() {
            assert(s.drop_first()[run_len(s, p) - 1] == s[run_len(s, p) as int]);
        }
    }
}

/// `p` is an initial segment of `s`.
pub open spec fn has_prefix(s: Seq<char>, p: Seq<char>) -> bool {
    p.len() <= s.len() && forall|i: int| 0 <= i < p.len() ==> s[i] == p[i]
}

fn run_lower_from(cs: &Vec<char>, start: usize) -> (r: usize)
    requires
        start <= cs@.len(),
    ensures
        r == run_len(cs@.skip(start as int), lower_p()),
        start + r <= cs@.len(),
{
    run_scan(cs, start, 0)
}

fn run_word_from(cs: &Vec<char>, start: usize) -> (r: usize)
    requires
        start <= cs@.len(),
    ensures
        r == run_len(cs@.skip(start as int), word_p()),
        start + r <= cs@.len(),
{
    run_scan(cs, start, 1)
}

pub(crate) fn run_nonspace_from(cs: &Vec<char>, start: usize) -> (r: usize)
    requires
        start <= cs@.len(),
    ensures
        r == run_len(cs@.skip(start as int), nonspace_p()),
        start + r <= cs@.len(),
{
    run_scan(cs, start, 2)
}

pub(crate) fn run_space_from(cs: &Vec<char>, start: usize) -> (r: usize)
    requires
        start <= cs@.len(),
    ensures
        r == run_len(cs@.skip(start as int), space_p()),
        start + r <= cs@.len(),
{
    run_scan(cs, start, 3)
}

pub(crate) fn run_nonnl_from(cs: &Vec<char>, start: usize) -> (r: usize)
    requires
        start <= cs@.len(),
    ensures
        r == run_len(cs@.skip(start as int), nonnl_p()),
        start + r <= cs@.len(),
{
    run_scan(cs, start, 4)
}

/// The predicate each `kind` of scan tests for.
spec fn scan_pred(kind: u8) -> spec_fn(char) -> bool {
    if kind == 0 {
        lower_p()
    } else if kind == 1 {
        word_p()
    } else if kind == 2 {
        nonspace_p()
    } else if kind == 3 {
        space_p()
    } else {
        nonnl_p()
    }
}

fn scan_test(kind: u8, c: char) -> (r: bool)
    ensures
        r == scan_pred(kind)(c),
{
    if kind == 0 {
        lower_c(c)
    } else if kind == 1 {
        word_piece_c(c)
    } else if kind == 2 {
        !space_c(c)
    } else if kind == 3 {
        space_c(c)
    } else {
        c != '\n'
    }
}

fn run_scan(cs: &Vec<char>, start: usize, kind: u8) -> (r: usize)
    requires
        start <= cs@.len(),
    ensures
        r == run_len(cs@.skip(start as int), scan_pred(kind)),
        start + r <= cs@.len(),
{
    let n = cs.len();
    let mut k = start;
    while k < n && scan_test(kind, cs[k])
        invariant
            start <= k <= n == cs@.len(),
            run_len(cs@.skip(start as int), scan_pred(kind)) == (k - start) + run_len(
                cs@.skip(k as int),
                scan_pred(kind),
            ),
        decreases n - k,
    {
        proof {
            assert(cs@.skip(k as int)[0] == cs@[k as int]);
            assert(cs@.skip(k as int).drop_first() =~= cs@.skip(k as int + 1));
        }
        k = k + 1;
    }
    proof {
        if k < n {
            assert(cs@.skip(k as int)[0] == cs@[k as int]);
            assert(run_len(cs@.skip(k as int), scan_pred(kind)) == 0);
        } else {
            assert(cs@.skip(k as int).len() == 0);
        }
    }
    k - start
}

/// Whether `pat` occurs at position `start` of `cs`.
fn match_prefix(cs: &Vec<char>, start: usize, pat: &Vec<char>) -> (r: bool)
    requires
        start <= cs@.len(),
    ensures
        r == has_prefix(cs@.skip(start as int), pat@),
{
    let n = cs.len();
    let m = pat.len();
    if n - start < m {
        return false;
    }
    let mut i: usize = 0;
    while i < m
        invariant
            0 <= i <= m == pat@.len(),
            start + m <= n == cs@.len(),
            forall|j: int| 0 <= j < i ==> cs@.skip(start as int)[j] == pat@[j],
        decreases m - i,
    {
        if cs[start + i] != pat[i] {
            proof {
                assert(cs@.skip(start as int)[i as int] == cs@[start + i]);
            }
            return false;
        }
        proof {
            assert(cs@.skip(start as int)[i as int] == cs@[start + i]);
        }
        i = i + 1;
    }
    true
}

// ---------------------------------------------------------------------------
// Tokens
// ---------------------------------------------------------------------------
/// A lexical token of one source line.
#[derive(Debug, Clone, PartialEq)]
pub enum Token {
    /// A word: any run of text without whitespace or slashes.
    Word(String),
    /// A reference to an object, written `type/ident`.
    Reference { typename: String, ident: String },
    /// An auto-reference, written `type/` followed by whitespace.
    AutoReference(String),
    /// A strict type declaration, written `/type/name`.
    TypeDecl(String),
    /// A lazy type declaration, written `/lazytype/name`.
    LazyTypeDecl(String),
    /// An ignore type declaration, written `/ignore/name`.
    IgnoreTypeDecl(String),
    /// A macro declaration keyword, written `/macro`.
    MacroDecl,
    /// An import declaration keyword, written `/import`.
    ImportDecl,
    /// A render declaration keyword, written `/render`.
    RenderDecl,
    /// A comment: `#` and the rest of the line.
    Comment(String),
    /// End of line.
    EOL,
}

/// Mathematical image of a [`Token`].
#[verifier::ext_equal]
pub enum TokenModel {
    Word(Seq<char>),
    Reference { typename: Seq<char>, ident: Seq<char> },
    AutoReference(Seq<char>),
    TypeDecl(Seq<char>),
    LazyTypeDecl(Seq<char>),
    IgnoreTypeDecl(Seq<char>),
    MacroDecl,
    ImportDecl,
    RenderDecl,
    Comment(Seq<char>),
    EOL,
}

impl View for Token {
    type V = TokenModel;

    open spec fn view(&self) -> TokenModel {
        match self {
            Token::Word(w) => TokenModel::Word(w@),
            Token::Reference { typename, ident } => TokenModel::Reference {
                typename: typename@,
                ident: ident@,
            },
            Token::AutoReference(t) => TokenModel::AutoReference(t@),
            Token::TypeDecl(t) => TokenModel::TypeDecl(t@),
            Token::LazyTypeDecl(t) => TokenModel::LazyTypeDecl(t@),
            Token::IgnoreTypeDecl(t) => TokenModel::IgnoreTypeDecl(t@),
            Token::MacroDecl => TokenModel::MacroDecl,
            Token::ImportDecl => TokenModel::ImportDecl,
            Token::RenderDecl => TokenModel::RenderDecl,
            Token::Comment(c) => TokenModel::Comment(c@),
            Token::EOL => TokenModel::EOL,
        }
    }
}

/// The models of a token list.
pub open spec fn tokens_view(ts: Seq<Token>) -> Seq<TokenModel> {
    ts.map_values(|t: Token| t@)
}

// ---------------------------------------------------------------------------
// The tokenizing function, specification first
// ---------------------------------------------------------------------------
/// The keyword of `/macro`, `/import` and `/render` must end at a word
/// boundary: position `n` of `s` is past the end or not a word character.
pub open spec fn boundary_at(s: Seq<char>, n: int) -> bool {
    n >= s.len() || !is_word_cont(s[n])
}

/// Does a lowercase run followed by `/` and one whitespace character start
/// `s`? That is the auto-reference form `type/ `.
pub open spec fn auto_ref_matches(s: Seq<char>) -> bool {
    let k = run_len(s, lower_p()) as int;
    k > 0 && k + 1 < s.len() && s[k] == '/' && is_space(s[k + 1])
}

/// Does a lowercase run followed by `/` and a nonempty run of non-space
/// characters start `s`? That is the reference form `type/ident`.
pub open spec fn reference_matches(s: Seq<char>) -> bool {
    let k = run_len(s, lower_p()) as int;
    k > 0 && k < s.len() && s[k] == '/' && run_len(s.skip(k + 1), nonspace_p()) > 0
}

/// The first token of `s` and how many characters it consumes. `s` must be
/// nonempty and not start with whitespace.
pub open spec fn next_token(s: Seq<char>) -> (TokenModel, int)
    recommends
        s.len() > 0,
        !is_space(s[0]),
{
    let tp = "/type/"@;
    let lz = "/lazytype/"@;
    let ig = "/ignore/"@;
    let mc = "/macro"@;
    let im = "/import"@;
    let rd = "/render"@;
    if has_prefix(s, tp) && run_len(s.skip(tp.len() as int), lower_p()) > 0 {
        let k = run_len(s.skip(tp.len() as int), lower_p()) as int;
        (TokenModel::TypeDecl(s.subrange(tp.len() as int, tp.len() + k)), tp.len() + k)
    } else if has_prefix(s, lz) && run_len(s.skip(lz.len() as int), lower_p()) > 0 {
        let k = run_len(s.skip(lz.len() as int), lower_p()) as int;
        (TokenModel::LazyTypeDecl(s.subrange(lz.len() as int, lz.len() + k)), lz.len() + k)
    } else if has_prefix(s, ig) && run_len(s.skip(ig.len() as int), lower_p()) > 0 {
        let k = run_len(s.skip(ig.len() as int), lower_p()) as int;
        (TokenModel::IgnoreTypeDecl(s.subrange(ig.len() as int, ig.len() + k)), ig.len() + k)
    } else if has_prefix(s, mc) && boundary_at(s, mc.len() as int) {
        (TokenModel::MacroDecl, mc.len() as int)
    } else if has_prefix(s, im) && boundary_at(s, im.len() as int) {
        (TokenModel::ImportDecl, im.len() as int)
    } else if has_prefix(s, rd) && boundary_at(s, rd.len() as int) {
        (TokenModel::RenderDecl, rd.len() as int)
    } else if auto_ref_matches(s) {
        let k = run_len(s, lower_p()) as int;
        (TokenModel::AutoReference(s.subrange(0, k)), k + 2)
    } else if reference_matches(s) {
        let k = run_len(s, lower_p()) as int;
        let m = run_len(s.skip(k + 1), nonspace_p()) as int;
        (
            TokenModel::Reference {
                typename: s.subrange(0, k),
                ident: s.subrange(k + 1, k + 1 + m),
            },
            k + 1 + m,
        )
    } else if run_len(s, word_p()) > 0 {
        let w = run_len(s, word_p()) as int;
        (TokenModel::Word(s.subrange(0, w)), w)
    } else {
        (TokenModel::Word(s.subrange(0, 1)), 1)
    }
}

pub proof fn lemma_next_token_bounds(s: Seq<char>)
    requires
        s.len() > 0,
        !is_space(s[0]),
    ensures
        1 <= next_token(s).1 <= s.len(),
{
    reveal_strlit("/type/");
    reveal_strlit("/lazytype/");
    reveal_strlit("/ignore/");
    reveal_strlit("/macro");
    reveal_strlit("/import");
    reveal_strlit("/render");
    lemma_run_len(s, lower_p());
    lemma_run_len(s, word_p());
    if has_prefix(s, "/type/"@) {
        lemma_run_len(s.skip("/type/"@.len() as int), lower_p());
    }
    if has_prefix(s, "/lazytype/"@) {
        lemma_run_len(s.skip("/lazytype/"@.len() as int), lower_p());
    }
    if has_prefix(s, "/ignore/"@) {
        lemma_run_len(s.skip("/ignore/"@.len() as int), lower_p());
    }
    let k = run_len(s, lower_p()) as int;
    if k > 0 && k < s.len() && s[k] == '/' {
        lemma_run_len(s.skip(k + 1), nonspace_p());
    }
}

/// `s` without its leading whitespace.
pub open spec fn trim_start_spec(s: Seq<char>) -> Seq<char>
    decreases s.len(),
{
    if s.len() > 0 && is_space(s[0]) {
        trim_start_spec(s.drop_first())
    } else {
        s
    }
}

/// If the first `i` characters of `s` are whitespace and character `i` is
/// not, the trimmed sequence is `s` from `i` on.
pub proof fn lemma_trim_at(s: Seq<char>, i: int)
    requires
        0 <= i <= s.len(),
        forall|j: int| 0 <= j < i ==> is_space(s[j]),
        i < s.len() ==> !is_space(s[i]),
    ensures
        trim_start_spec(s) == s.skip(i),
    decreases i,
{
    if i == 0 {
        assert(s.skip(0) =~= s);
    } else {
        lemma_trim_at(s.drop_first(), i - 1);
        assert(s.drop_first().skip(i - 1) =~= s.skip(i));
    }
}

/// The tokens after the leading trim and the comment check: whitespace is
/// skipped between tokens, and each token consumes what `next_token` says.
pub open spec fn tokenize_rest(s: Seq<char>) -> Seq<TokenModel>
    decreases s.len(),
        via tokenize_rest_dec
{
    if s.len() == 0 {
        Seq::empty()
    } else if is_space(s[0]) {
        tokenize_rest(s.drop_first())
    } else {
        seq![next_token(s).0] + tokenize_rest(s.skip(next_token(s).1))
    }
}

#[via_fn]
proof fn tokenize_rest_dec(s: Seq<char>) {
    if s.len() > 0 && !is_space(s[0]) {
        lemma_next_token_bounds(s);
    }
}

/// The token sequence of one whole line: only an end-of-line marker if the
/// line is blank, a comment token if its first non-space character is `#`,
/// and otherwise the tokens of the line, always terminated by the marker.
pub open spec fn tokenize(s: Seq<char>) -> Seq<TokenModel> {
    let r = trim_start_spec(s);
    if r.len() == 0 {
        seq![TokenModel::EOL]
    } else if r[0] == '#' {
        seq![TokenModel::Comment(r.drop_first()), TokenModel::EOL]
    } else {
        tokenize_rest(r) + seq![TokenModel::EOL]
    }
}

// ---------------------------------------------------------------------------
// Executable tokenizer
// ---------------------------------------------------------------------------
/// The first token at position `j` of `cs` and how many characters it
/// consumes.
fn scan_token(cs: &Vec<char>, j: usize) -> (r: (Token, usize))
    requires
        j < cs@.len(),
        !is_space(cs@[j as int]),
    ensures
        next_token(cs@.skip(j as int)) == (r.0@, r.1 as int),
        1 <= r.1,
        j + r.1 <= cs@.len(),
{
    let ghost s = cs@.skip(j as int);
    proof {
        reveal_strlit("/type/");
        reveal_strlit("/lazytype/");
        reveal_strlit("/ignore/");
        reveal_strlit("/macro");
        reveal_strlit("/import");
        reveal_strlit("/render");
        assert(s[0] == cs@[j as int]);
        lemma_next_token_bounds(s);
    }
    let n = cs.len();
    let tp = chars_of("/type/");
    if match_prefix(cs, j, &tp) {
        let k = run_lower_from(cs, j + tp.len());
        if k > 0 {
            let name = string_of_range(cs, j + tp.len(), j + tp.len() + k);
            proof {
                assert(s.skip(tp@.len() as int) =~= cs@.skip(j + tp@.len()));
                assert(name@ =~= s.subrange(tp@.len() as int, tp@.len() + k));
            }
            return (Token::TypeDecl(name), tp.len() + k);
        }
    }
    let lz = chars_of("/lazytype/");
    if match_prefix(cs, j, &lz) {
        let k = run_lower_from(cs, j + lz.len());
        if k > 0 {
            let name = string_of_range(cs, j + lz.len(), j + lz.len() + k);
            proof {
                assert(s.skip(lz@.len() as int) =~= cs@.skip(j + lz@.len()));
                assert(name@ =~= s.subrange(lz@.len() as int, lz@.len() + k));
            }
            return (Token::LazyTypeDecl(name), lz.len() + k);
        }
    }
    let ig = chars_of("/ignore/");
    if match_prefix(cs, j, &ig) {
        let k = run_lower_from(cs, j + ig.len());
        if k > 0 {
            let name = string_of_range(cs, j + ig.len(), j + ig.len() + k);
            proof {
                assert(s.skip(ig@.len() as int) =~= cs@.skip(j + ig@.len()));
                assert(name@ =~= s.subrange(ig@.len() as int, ig@.len() + k));
            }
            return (Token::IgnoreTypeDecl(name), ig.len() + k);
        }
    }
    proof {
        assert(!(has_prefix(s, "/type/"@) && run_len(s.skip("/type/"@.len() as int), lower_p())
            > 0));
        assert(!(has_prefix(s, "/lazytype/"@) && run_len(
            s.skip("/lazytype/"@.len() as int),
            lower_p(),
        ) > 0));
        assert(!(has_prefix(s, "/ignore/"@) && run_len(s.skip("/ignore/"@.len() as int), lower_p())
            > 0));
    }
    let mc = chars_of("/macro");
    if match_prefix(cs, j, &mc) && (j + mc.len() >= n || !word_cont_c(cs[j + mc.len()])) {
        proof {
            assert(boundary_at(s, mc@.len() as int));
        }
        return (Token::MacroDecl, mc.len());
    }
    let im = chars_of("/import");
    if match_prefix(cs, j, &im) && (j + im.len() >= n || !word_cont_c(cs[j + im.len()])) {
        proof {
            assert(boundary_at(s, im@.len() as int));
        }
        return (Token::ImportDecl, im.len());
    }
    let rd = chars_of("/render");
    if match_prefix(cs, j, &rd) && (j + rd.len() >= n || !word_cont_c(cs[j + rd.len()])) {
        proof {
            assert(boundary_at(s, rd@.len() as int));
        }
        return (Token::RenderDecl, rd.len());
    }
    proof {
        assert(!(has_prefix(s, "/macro"@) && boundary_at(s, "/macro"@.len() as int)));
        assert(!(has_prefix(s, "/import"@) && boundary_at(s, "/import"@.len() as int)));
        assert(!(has_prefix(s, "/render"@) && boundary_at(s, "/render"@.len() as int)));
    }
    let k = run_lower_from(cs, j);
    proof {
        assert(run_len(s, lower_p()) == run_len(cs@.skip(j as int), lower_p()));
    }
    if k > 0 && j + k < n && cs[j + k] == '/' {
        proof {
            assert(s[k as int] == cs@[j + k]);
        }
        if j + k + 1 < n && space_c(cs[j + k + 1]) {
            proof {
                assert(s[k + 1] == cs@[j + k + 1]);
                assert(auto_ref_matches(s));
            }
            let name = string_of_range(cs, j, j + k);
            proof {
                assert(name@ =~= s.subrange(0, k as int));
            }
            return (Token::AutoReference(name), k + 2);
        }
        proof {
            if j + k + 1 < n {
                assert(s[k + 1] == cs@[j + k + 1]);
            }
            assert(!auto_ref_matches(s));
        }
        let m = run_nonspace_from(cs, j + k + 1);
        proof {
            assert(s.skip(k + 1) =~= cs@.skip(j + k + 1));
        }
        if m > 0 {
            proof {
                assert(reference_matches(s));
            }
            let tn = string_of_range(cs, j, j + k);
            let id = string_of_range(cs, j + k + 1, j + k + 1 + m);
            proof {
                assert(tn@ =~= s.subrange(0, k as int));
                assert(id@ =~= s.subrange(k + 1, k + 1 + m));
            }
            return (Token::Reference { typename: tn, ident: id }, k + 1 + m);
        }
        proof {
            assert(!reference_matches(s));
        }
    }
    proof {
        assert(!auto_ref_matches(s));
        assert(!reference_matches(s));
    }
    let w = run_word_from(cs, j);
    proof {
        assert(run_len(s, word_p()) == run_len(cs@.skip(j as int), word_p()));
    }
    if w > 0 {
        let word = string_of_range(cs, j, j + w);
        proof {
            assert(word@ =~= s.subrange(0, w as int));
        }
        return (Token::Word(word), w);
    }
    let word = string_of_range(cs, j, j + 1);
    proof {
        assert(word@ =~= s.subrange(0, 1));
    }
    (Token::Word(word), 1)
}

/// A token list always holds at least the end-of-line marker, as its last
/// entry.
pub proof fn lemma_tokenize_shape(s: Seq<char>)
    ensures
        tokenize(s).len() >= 1,
        tokenize(s).last() == TokenModel::EOL,
{
    let r = trim_start_spec(s);
    if r.len() != 0 && r[0] != '#' {
        assert((tokenize_rest(r) + seq![TokenModel::EOL]).last() == TokenModel::EOL);
    }
}

/// When a line's first token is a macro or render keyword, the trimmed line
/// indeed starts with that keyword, so re-reading the raw line may skip it.
pub proof fn lemma_first_token_prefix(s: Seq<char>)
    ensures
        tokenize(s).len() > 0,
        tokenize(s)[0] == TokenModel::MacroDecl ==> has_prefix(trim_start_spec(s), "/macro"@),
        tokenize(s)[0] == TokenModel::RenderDecl ==> has_prefix(trim_start_spec(s), "/render"@),
{
    let r = trim_start_spec(s);
    lemma_trim_not_space(s);
    if r.len() != 0 && r[0] != '#' {
        assert(tokenize(s) == tokenize_rest(r) + seq![TokenModel::EOL]);
        if !is_space(r[0]) {
            assert(tokenize_rest(r) == seq![next_token(r).0] + tokenize_rest(
                r.skip(next_token(r).1),
            ));
            assert(tokenize(s)[0] == next_token(r).0);
        }
    }
}

/// The trimmed line is empty or starts with a non-space character.
pub proof fn lemma_trim_not_space(s: Seq<char>)
    ensures
        trim_start_spec(s).len() > 0 ==> !is_space(trim_start_spec(s)[0]),
    decreases s.len(),
{
    if s.len() > 0 && is_space(s[0]) {
        lemma_trim_not_space(s.drop_first());
    }
}

/// Tokenize one line of source text.
pub fn tokenize_line(line: &str) -> (r: Vec<Token>)
    ensures
        tokens_view(r@) == tokenize(line@),
{
    let cs = chars_of(line);
    let n = cs.len();
    let mut i: usize = 0;
    while i < n && space_c(cs[i])
        invariant
            0 <= i <= n == cs@.len(),
            cs@ == line@,
            forall|j: int| 0 <= j < i ==> is_space(cs@[j]),
        decreases n - i,
    {
        i = i + 1;
    }
    proof {
        lemma_trim_at(cs@, i as int);
    }
    let mut out: Vec<Token> = Vec::new();
    if i == n {
        out.push(Token::EOL);
        proof {
            assert(trim_start_spec(line@).len() == 0);
            assert(tokens_view(out@) =~= tokenize(line@));
        }
        return out;
    }
    if cs[i] == '#' {
        let text = string_of_range(&cs, i + 1, n);
        out.push(Token::Comment(text));
        out.push(Token::EOL);
        proof {
            assert(trim_start_spec(line@)[0] == '#');
            assert(trim_start_spec(line@).drop_first() =~= cs@.subrange(i + 1, n as int));
            assert(tokens_view(out@) =~= tokenize(line@));
        }
        return out;
    }
    let ghost start = i as int;
    let mut j = i;
    while j < n
        invariant
            0 <= start <= j <= n == cs@.len(),
            cs@ == line@,
            tokens_view(out@) + tokenize_rest(cs@.skip(j as int)) == tokenize_rest(cs@.skip(start)),
        decreases n - j,
    {
        if space_c(cs[j]) {
            proof {
                assert(cs@.skip(j as int)[0] == cs@[j as int]);
                assert(cs@.skip(j as int).drop_first() =~= cs@.skip(j as int + 1));
                assert(tokens_view(out@) + tokenize_rest(cs@.skip(j as int + 1)) =~= tokenize_rest(
                    cs@.skip(start),
                ));
            }
            j = j + 1;
        } else {
            proof {
                assert(cs@.skip(j as int)[0] == cs@[j as int]);
            }
            let (tok, adv) = scan_token(&cs, j);
            proof {
                assert(cs@.skip(j as int).skip(adv as int) =~= cs@.skip(j + adv));
                assert(tokenize_rest(cs@.skip(j as int)) == seq![tok@] + tokenize_rest(
                    cs@.skip(j + adv),
                ));
                assert(tokens_view(out@.push(tok)) =~= tokens_view(out@) + seq![tok@]);
                assert(tokens_view(out@.push(tok)) + tokenize_rest(cs@.skip(j + adv))
                    =~= tokens_view(out@) + tokenize_rest(cs@.skip(j as int)));
            }
            out.push(tok);
            j = j + adv;
        }
    }
    proof {
        assert(cs@.skip(j as int).len() == 0);
        assert(tokens_view(out@) =~= tokenize_rest(cs@.skip(start)));
    }
    out.push(Token::EOL);
    proof {
        assert(trim_start_spec(line@)[0] != '#');
        assert(trim_start_spec(line@).len() > 0);
        assert(tokens_view(out@) =~= tokenize_rest(trim_start_spec(line@)) + seq![
            TokenModel::EOL,
        ]);
    }
    out
}

} // verus!
