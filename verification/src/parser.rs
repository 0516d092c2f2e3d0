//! Line parser: drives the tokenizer line by line, interprets the leading
//! token of each line (type, macro, render or import declaration, or an
//! object), maintains an indentation stack that attaches implicit parent
//! references, and parses imported files recursively.
//!
//! The parser itself never touches a file system: imported files are looked
//! up in a table of source files handed in by the caller. An import of a
//! file that is not in the table either fails (when the table is declared
//! complete, as by [`parse_string`]) or asks the caller to supply it (see
//! [`parse_with_files`] and [`ParseOutcome::NeedFile`]).

use crate::ast::{Object, ObjectId, ObjectModel, RefModel, Reference, Type, TypeFlavor, TypeModel};
use crate::error::{Error, ErrorModel};
use crate::lexer::{
    lemma_run_len, lemma_tokenize_shape, lemma_trim_at, nonnl_p, nonspace_p, run_len,
    run_nonnl_from, run_nonspace_from, run_space_from, space_p, tokenize, tokenize_line,
    tokens_view, trim_start_spec, Token, TokenModel,
};
use crate::macros::{apply_rules, regex_ok, MacroSystem, RenderSystem};
use crate::text::{chars_of, string_of_range};
use vstd::prelude::*;

verus! {

// ---------------------------------------------------------------------------
// Lines
// ---------------------------------------------------------------------------
/// A line with one trailing carriage return removed: what remains of a line
/// that was terminated by a carriage return and a line feed.
pub open spec fn strip_cr(l: Seq<char>) -> Seq<char> {
    if l.len() > 0 && l.last() == '\r' {
        l.drop_last()
    } else {
        l
    }
}

/// The lines of a text: split at every line feed, with a carriage return
/// before a line feed removed; a trailing line terminator yields no extra
/// empty line.
pub open spec fn split_lines(s: Seq<char>) -> Seq<Seq<char>>
    decreases s.len(),
        via split_lines_dec
{
    if s.len() == 0 {
        Seq::empty()
    } else {
        let i = run_len(s, nonnl_p()) as int;
        if i == s.len() {
            seq![s]
        } else {
            seq![strip_cr(s.subrange(0, i))] + split_lines(s.skip(i + 1))
        }
    }
}

#[via_fn]
proof fn split_lines_dec(s: Seq<char>) {
    lemma_run_len(s, nonnl_p());
}

/// The views of a list of lines.
pub open spec fn lines_view(ls: Seq<String>) -> Seq<Seq<char>> {
    ls.map_values(|l: String| l@)
}

/// The indentation width of a line: the number of its leading whitespace
/// characters.
pub open spec fn line_width(l: Seq<char>) -> nat {
    run_len(l, space_p())
}

// ---------------------------------------------------------------------------
// The file table
// ---------------------------------------------------------------------------
/// One entry of the file table: a path, and the file's content, or `None`
/// for a path that is known not to exist.
#[derive(Debug, Clone)]
pub struct SourceFile {
    /// The path this entry answers for.
    pub path: String,
    /// The file's text, or `None` when the path does not exist.
    pub content: Option<String>,
}

impl View for SourceFile {
    type V = (Seq<char>, Option<Seq<char>>);

    open spec fn view(&self) -> (Seq<char>, Option<Seq<char>>) {
        (self.path@, crate::ast::opt_str_view(self.content))
    }
}

/// The views of a file table.
pub open spec fn files_view(fs: Seq<SourceFile>) -> Seq<(Seq<char>, Option<Seq<char>>)> {
    fs.map_values(|f: SourceFile| f@)
}

/// What the table says about one path.
pub enum LookupModel {
    Present(Seq<char>),
    KnownMissing,
    Unknown,
}

/// The first table entry for a path decides; a path without an entry is
/// unknown.
pub open spec fn file_lookup(
    files: Seq<(Seq<char>, Option<Seq<char>>)>,
    path: Seq<char>,
) -> LookupModel
    decreases files.len(),
{
    if files.len() == 0 {
        LookupModel::Unknown
    } else if files[0].0 == path {
        match files[0].1 {
            Some(c) => LookupModel::Present(c),
            None => LookupModel::KnownMissing,
        }
    } else {
        file_lookup(files.drop_first(), path)
    }
}

/// The directory part of a path: everything before the last slash, or the
/// empty sequence when the path has no slash.
pub open spec fn dir_of(path: Seq<char>) -> Seq<char>
    decreases path.len(),
{
    if path.len() == 0 {
        Seq::empty()
    } else if path.last() == '/' {
        path.drop_last()
    } else {
        dir_of(path.drop_last())
    }
}

/// A file name resolved against a search directory; an empty directory
/// stands for the working directory and leaves the name as given.
pub open spec fn join_path(dir: Seq<char>, name: Seq<char>) -> Seq<char> {
    if dir.len() == 0 {
        name
    } else {
        dir + seq!['/'] + name
    }
}

/// The paths at which an import looks for its file, in order: each search
/// directory, the most recently entered first, then the name itself.
pub open spec fn candidates(dirs: Seq<Seq<char>>, name: Seq<char>) -> Seq<Seq<char>>
    decreases dirs.len(),
{
    if dirs.len() == 0 {
        seq![name]
    } else {
        seq![join_path(dirs.last(), name)] + candidates(dirs.drop_last(), name)
    }
}

/// How an import resolves against the table.
pub enum ResolutionModel {
    Found { path: Seq<char>, content: Seq<char> },
    Missing,
    Ask(Seq<char>),
}

/// Walk the candidate paths in order: the first present one wins; a known
/// missing one is skipped; an unknown one is skipped when the table is
/// complete (`closed`) and asked for otherwise.
pub open spec fn resolve_candidates(
    files: Seq<(Seq<char>, Option<Seq<char>>)>,
    cands: Seq<Seq<char>>,
    closed: bool,
) -> ResolutionModel
    decreases cands.len(),
{
    if cands.len() == 0 {
        ResolutionModel::Missing
    } else {
        match file_lookup(files, cands[0]) {
            LookupModel::Present(c) => ResolutionModel::Found { path: cands[0], content: c },
            LookupModel::KnownMissing => resolve_candidates(files, cands.drop_first(), closed),
            LookupModel::Unknown => if closed {
                resolve_candidates(files, cands.drop_first(), closed)
            } else {
                ResolutionModel::Ask(cands[0])
            },
        }
    }
}

// ---------------------------------------------------------------------------
// Parser state
// ---------------------------------------------------------------------------
/// Mathematical image of the parser's accumulated state.
#[verifier::ext_equal]
pub struct ParseStateModel {
    pub types: Seq<TypeModel>,
    pub objects: Seq<ObjectModel>,
    pub macros: Seq<(Seq<char>, Seq<char>)>,
    pub renders: Map<Seq<char>, Seq<char>>,
    pub dirs: Seq<Seq<char>>,
    pub indent: Seq<(usize, RefModel)>,
}

/// The built-in default type.
pub open spec fn item_type_model() -> TypeModel {
    TypeModel { name: "item"@, contents: "Item type"@, flavor: TypeFlavor::Lazy, lineno: None }
}

/// The state a parse starts from: only the default type is declared, and
/// the search path holds at most the directory of the file being parsed.
pub open spec fn init_state(base_dir: Option<Seq<char>>) -> ParseStateModel {
    ParseStateModel {
        types: seq![item_type_model()],
        objects: Seq::empty(),
        macros: Seq::empty(),
        renders: Map::empty(),
        dirs: match base_dir {
            None => Seq::empty(),
            Some(d) => seq![d],
        },
        indent: Seq::empty(),
    }
}

/// Pop the indentation stack down to the nearest entry strictly shallower
/// than the current width; that entry's reference, if any, is the implicit
/// parent of the current line.
pub open spec fn pop_indent(ind: Seq<(usize, RefModel)>, w: nat) -> (
    Seq<(usize, RefModel)>,
    Option<RefModel>,
)
    decreases ind.len(),
{
    if ind.len() == 0 {
        (ind, None::<RefModel>)
    } else if ind.last().0 >= w {
        pop_indent(ind.drop_last(), w)
    } else {
        (ind, Some(ind.last().1))
    }
}

// ---------------------------------------------------------------------------
// Token text
// ---------------------------------------------------------------------------
/// The text a token contributes to a type description: words keep their
/// text, everything else becomes a space.
pub open spec fn desc_text(t: TokenModel) -> Seq<char> {
    match t {
        TokenModel::Word(w) => w,
        _ => seq![' '],
    }
}

/// The text a token contributes to an object's contents: references render
/// back as `type/ident`, auto-references as `type/`.
pub open spec fn content_text(t: TokenModel) -> Seq<char> {
    match t {
        TokenModel::Word(w) => w,
        TokenModel::Reference { typename, ident } => typename + seq!['/'] + ident,
        TokenModel::AutoReference(typename) => typename + seq!['/'],
        _ => seq![' '],
    }
}

/// The description text function as a first-class value.
pub open spec fn desc_f() -> spec_fn(TokenModel) -> Seq<char> {
    |t: TokenModel| desc_text(t)
}

/// The contents text function as a first-class value.
pub open spec fn content_f() -> spec_fn(TokenModel) -> Seq<char> {
    |t: TokenModel| content_text(t)
}

/// The texts of a token list joined with single spaces.
pub open spec fn join_texts(ts: Seq<TokenModel>, f: spec_fn(TokenModel) -> Seq<char>) -> Seq<char>
    decreases ts.len(),
{
    if ts.len() == 0 {
        Seq::empty()
    } else {
        f(ts[0]) + join_tail(ts.drop_first(), f)
    }
}

/// The texts of the tokens after the first, each preceded by one space.
pub open spec fn join_tail(ts: Seq<TokenModel>, f: spec_fn(TokenModel) -> Seq<char>) -> Seq<char>
    decreases ts.len(),
{
    if ts.len() == 0 {
        Seq::empty()
    } else {
        seq![' '] + f(ts[0]) + join_tail(ts.drop_first(), f)
    }
}

/// The references among a token list, in order of first occurrence, each
/// once, appended to `acc`.
pub open spec fn refs_of_tokens(ts: Seq<TokenModel>, acc: Seq<RefModel>) -> Seq<RefModel>
    decreases ts.len(),
{
    if ts.len() == 0 {
        acc
    } else {
        let acc2 = match ts[0] {
            TokenModel::Reference { typename, ident } => {
                let r = RefModel { typename, ident };
                if acc.contains(r) {
                    acc
                } else {
                    acc.push(r)
                }
            },
            _ => acc,
        };
        refs_of_tokens(ts.drop_first(), acc2)
    }
}

/// A reference list with the implicit parent appended, unless the list
/// already holds it.
pub open spec fn with_parent(rs: Seq<RefModel>, parent: Option<RefModel>) -> Seq<RefModel> {
    match parent {
        None => rs,
        Some(p) => if rs.contains(p) {
            rs
        } else {
            rs.push(p)
        },
    }
}

// ---------------------------------------------------------------------------
// Raw re-parses of macro and render declarations
// ---------------------------------------------------------------------------
/// The pattern and replacement of a macro declaration, re-read from the raw
/// line: after the keyword, the first whitespace run ends the pattern and
/// the rest of the line is the replacement, verbatim. `None` when pattern
/// or replacement is missing.
pub open spec fn macro_parts(line: Seq<char>) -> Option<(Seq<char>, Seq<char>)> {
    let t = trim_start_spec(line);
    let rest = t.skip("/macro"@.len() as int);
    let rest2 = rest.skip(run_len(rest, space_p()) as int);
    let plen = run_len(rest2, nonspace_p()) as int;
    if plen == 0 {
        None
    } else {
        let pattern = rest2.subrange(0, plen);
        let after = rest2.skip(plen);
        let wslen = run_len(after, space_p()) as int;
        let repl = after.skip(wslen);
        if wslen == 0 || repl.len() == 0 {
            None
        } else {
            Some((pattern, repl))
        }
    }
}

/// The type name and template of a render declaration, re-read from the raw
/// line: after the keyword, the first whitespace-delimited word names the
/// type and the rest of the line, after one whitespace run, is the
/// template, verbatim (possibly empty). `None` when the type name is
/// missing.
pub open spec fn render_parts(line: Seq<char>) -> Option<(Seq<char>, Seq<char>)> {
    let t = trim_start_spec(line);
    let rest = t.skip("/render"@.len() as int);
    let rest2 = rest.skip(run_len(rest, space_p()) as int);
    let nlen = run_len(rest2, nonspace_p()) as int;
    if nlen == 0 {
        None
    } else {
        let name = rest2.subrange(0, nlen);
        let after = rest2.skip(nlen);
        let template = after.skip(run_len(after, space_p()) as int);
        Some((name, template))
    }
}

// ---------------------------------------------------------------------------
// One line
// ---------------------------------------------------------------------------
/// What processing one line yields: the next state, a failure, or an import
/// to perform (with the state as it stands, its indentation already
/// popped).
pub enum StepModel {
    Next(ParseStateModel),
    Fail(ErrorModel),
    Import { filename: Seq<char>, state: ParseStateModel },
}

/// Dispatch on the first token of the macro-expanded line.
pub open spec fn dispatch(
    st: ParseStateModel,
    toks: Seq<TokenModel>,
    expanded: Seq<char>,
    w: nat,
    parent: Option<RefModel>,
    lineno: usize,
) -> StepModel {
    match toks[0] {
        TokenModel::TypeDecl(name) => StepModel::Next(
            ParseStateModel {
                types: st.types.push(
                    TypeModel {
                        name,
                        contents: join_texts(toks.subrange(1, toks.len() - 1), desc_f()),
                        flavor: TypeFlavor::Strict,
                        lineno: Some(lineno),
                    },
                ),
                ..st
            },
        ),
        TokenModel::LazyTypeDecl(name) => StepModel::Next(
            ParseStateModel {
                types: st.types.push(
                    TypeModel {
                        name,
                        contents: join_texts(toks.subrange(1, toks.len() - 1), desc_f()),
                        flavor: TypeFlavor::Lazy,
                        lineno: Some(lineno),
                    },
                ),
                ..st
            },
        ),
        TokenModel::IgnoreTypeDecl(name) => StepModel::Next(
            ParseStateModel {
                types: st.types.push(
                    TypeModel {
                        name,
                        contents: join_texts(toks.subrange(1, toks.len() - 1), desc_f()),
                        flavor: TypeFlavor::Ignore,
                        lineno: Some(lineno),
                    },
                ),
                ..st
            },
        ),
        TokenModel::MacroDecl => match macro_parts(expanded) {
            None => StepModel::Fail(
                ErrorModel::Parse { line: lineno, message: "Invalid macro declaration"@ },
            ),
            Some((pattern, replacement)) => if regex_ok(pattern) {
                StepModel::Next(
                    ParseStateModel { macros: st.macros.push((pattern, replacement)), ..st },
                )
            } else {
                StepModel::Fail(ErrorModel::InvalidMacroPattern(pattern))
            },
        },
        TokenModel::RenderDecl => match render_parts(expanded) {
            None => StepModel::Fail(
                ErrorModel::Parse { line: lineno, message: "Invalid render declaration"@ },
            ),
            Some((name, template)) => StepModel::Next(
                ParseStateModel { renders: st.renders.insert(name, template), ..st },
            ),
        },
        TokenModel::ImportDecl => if toks.len() >= 2 && toks[1] is Word {
            StepModel::Import { filename: toks[1]->Word_0, state: st }
        } else {
            StepModel::Fail(
                ErrorModel::Parse { line: lineno, message: "Invalid import declaration"@ },
            )
        },
        TokenModel::Reference { typename, ident } => {
            let inner = toks.subrange(1, toks.len() - 1);
            let obj = ObjectModel {
                id: crate::ast::ObjectIdModel { typename, ident: Some(ident) },
                contents: join_texts(inner, content_f()),
                refs: Seq::empty(),
                unresolved_refs: with_parent(refs_of_tokens(inner, Seq::empty()), parent),
                lineno: Some(lineno),
            };
            StepModel::Next(
                ParseStateModel {
                    objects: st.objects.push(obj),
                    indent: st.indent.push((w as usize, RefModel { typename, ident })),
                    ..st
                },
            )
        },
        TokenModel::AutoReference(typename) => {
            let inner = toks.subrange(1, toks.len() - 1);
            let obj = ObjectModel {
                id: crate::ast::ObjectIdModel { typename, ident: None },
                contents: join_texts(inner, content_f()),
                refs: Seq::empty(),
                unresolved_refs: with_parent(refs_of_tokens(inner, Seq::empty()), parent),
                lineno: Some(lineno),
            };
            StepModel::Next(ParseStateModel { objects: st.objects.push(obj), ..st })
        },
        TokenModel::Word(_) => {
            let inner = toks.subrange(0, toks.len() - 1);
            let obj = ObjectModel {
                id: crate::ast::ObjectIdModel { typename: "item"@, ident: None },
                contents: join_texts(inner, content_f()),
                refs: Seq::empty(),
                unresolved_refs: with_parent(refs_of_tokens(inner, Seq::empty()), parent),
                lineno: Some(lineno),
            };
            StepModel::Next(ParseStateModel { objects: st.objects.push(obj), ..st })
        },
        _ => StepModel::Next(st),
    }
}

/// Process one physical line: a blank line is skipped whole; any other line
/// first drives the indentation stack by its width; a comment line does
/// nothing more; any other line is macro-expanded, tokenized and
/// dispatched.
pub open spec fn step_line(st: ParseStateModel, line: Seq<char>, lineno: usize) -> StepModel {
    let w = line_width(line);
    if w == line.len() {
        StepModel::Next(st)
    } else {
        let (ind2, parent) = pop_indent(st.indent, w);
        let st1 = ParseStateModel { indent: ind2, ..st };
        if line[w as int] == '#' {
            StepModel::Next(st1)
        } else {
            let expanded = apply_rules(st.macros, line);
            dispatch(st1, tokenize(expanded), expanded, w, parent, lineno)
        }
    }
}

// ---------------------------------------------------------------------------
// Running over lines and imports
// ---------------------------------------------------------------------------
/// What a run over a list of lines yields.
pub enum RunModel {
    Done(ParseStateModel),
    Fail(ErrorModel),
    Need(Seq<char>),
}

/// The paths of the file table, as a set.
pub open spec fn file_paths(files: Seq<(Seq<char>, Option<Seq<char>>)>) -> Set<Seq<char>> {
    files.map_values(|f: (Seq<char>, Option<Seq<char>>)| f.0).to_set()
}

/// How many table files are not on the current import chain: the measure
/// that bounds import recursion.
pub open spec fn unvisited(
    files: Seq<(Seq<char>, Option<Seq<char>>)>,
    visiting: Seq<Seq<char>>,
) -> nat {
    file_paths(files).difference(visiting.to_set()).len()
}

proof fn lemma_file_lookup_present(
    files: Seq<(Seq<char>, Option<Seq<char>>)>,
    path: Seq<char>,
)
    requires
        file_lookup(files, path) is Present,
    ensures
        file_paths(files).contains(path),
    decreases files.len(),
{
    if files.len() > 0 && files[0].0 != path {
        lemma_file_lookup_present(files.drop_first(), path);
        let m = |f: (Seq<char>, Option<Seq<char>>)| f.0;
        assert(files.drop_first().map_values(m) =~= files.map_values(m).drop_first());
        let q = choose|q: int|
            0 <= q < files.drop_first().map_values(m).len() && files.drop_first().map_values(m)[q]
                == path;
        assert(files.map_values(m)[q + 1] == path);
        assert(files.map_values(m).contains(path));
    } else {
        assert(files.map_values(|f: (Seq<char>, Option<Seq<char>>)| f.0)[0] == path);
        assert(files.map_values(|f: (Seq<char>, Option<Seq<char>>)| f.0).contains(path));
    }
}

/// Entering a file that is in the table and not yet on the import chain
/// strictly shrinks the measure.
proof fn lemma_unvisited_decreases(
    files: Seq<(Seq<char>, Option<Seq<char>>)>,
    visiting: Seq<Seq<char>>,
    path: Seq<char>,
)
    requires
        file_paths(files).contains(path),
        !visiting.contains(path),
    ensures
        unvisited(files, visiting.push(path)) < unvisited(files, visiting),
{
    let a = file_paths(files);
    let b = visiting.to_set();
    let b2 = visiting.push(path).to_set();
    assert(b2 =~= b.insert(path)) by {
        assert forall|x: Seq<char>| b2.contains(x) implies b.insert(path).contains(x) by {
            assert(visiting.push(path).contains(x));
            let q = choose|q: int|
                0 <= q < visiting.push(path).len() && visiting.push(path)[q] == x;
            if q < visiting.len() {
                assert(visiting[q] == x);
            }
        }
        assert forall|x: Seq<char>| b.insert(path).contains(x) implies b2.contains(x) by {
            if x == path {
                assert(visiting.push(path).last() == path);
            } else {
                let q = choose|q: int| 0 <= q < visiting.len() && visiting[q] == x;
                assert(visiting.push(path)[q] == x);
            }
        }
    }
    let d = a.difference(b);
    let d2 = a.difference(b2);
    assert(d2 =~= d.remove(path));
    assert(a.finite()) by {
        vstd::seq_lib::seq_to_set_is_finite::<Seq<char>>(
            files.map_values(|f: (Seq<char>, Option<Seq<char>>)| f.0),
        );
    }
    assert(d.finite()) by {
        vstd::set_lib::lemma_len_subset(d, a);
    }
    assert(d.contains(path));
    assert(d.remove(path).len() == d.len() - 1);
}

/// Run the parser over `lines` from line index `k`, with the given file
/// table and the chain of files currently being imported. An import line
/// resolves its file against the table, refuses a file already on the
/// chain, and otherwise parses the file's lines with its directory pushed
/// onto the search path; errors inside an imported file are wrapped in the
/// import-failed error naming the resolved path.
pub open spec fn run_lines(
    st: ParseStateModel,
    lines: Seq<Seq<char>>,
    k: int,
    files: Seq<(Seq<char>, Option<Seq<char>>)>,
    closed: bool,
    visiting: Seq<Seq<char>>,
) -> RunModel
    decreases unvisited(files, visiting), lines.len() - k, 1int,
        via run_lines_dec
{
    if k < 0 || k >= lines.len() {
        RunModel::Done(st)
    } else {
        match step_line(st, lines[k], (k + 1) as usize) {
            StepModel::Fail(e) => RunModel::Fail(e),
            StepModel::Next(st2) => run_lines(st2, lines, k + 1, files, closed, visiting),
            StepModel::Import { filename, state: st2 } => {
                match resolve_candidates(files, candidates(st2.dirs, filename), closed) {
                    ResolutionModel::Missing => RunModel::Fail(
                        ErrorModel::Import(
                            filename,
                            Box::new(ErrorModel::Io("file not found"@)),
                        ),
                    ),
                    ResolutionModel::Ask(p) => RunModel::Need(p),
                    ResolutionModel::Found { path, content } => {
                        if visiting.contains(path) {
                            RunModel::Fail(ErrorModel::CyclicImport(path))
                        } else {
                            let st3 = ParseStateModel {
                                dirs: st2.dirs.push(dir_of(path)),
                                ..st2
                            };
                            match run_lines(
                                st3,
                                split_lines(content),
                                0,
                                files,
                                closed,
                                visiting.push(path),
                            ) {
                                RunModel::Fail(e) => RunModel::Fail(
                                    ErrorModel::Import(path, Box::new(e)),
                                ),
                                RunModel::Need(p) => RunModel::Need(p),
                                RunModel::Done(st4) => run_lines(
                                    st4,
                                    lines,
                                    k + 1,
                                    files,
                                    closed,
                                    visiting,
                                ),
                            }
                        }
                    },
                }
            },
        }
    }
}

#[via_fn]
proof fn run_lines_dec(
    st: ParseStateModel,
    lines: Seq<Seq<char>>,
    k: int,
    files: Seq<(Seq<char>, Option<Seq<char>>)>,
    closed: bool,
    visiting: Seq<Seq<char>>,
) {
    if 0 <= k < lines.len() {
        match step_line(st, lines[k], (k + 1) as usize) {
            StepModel::Import { filename, state: st2 } => {
                match resolve_candidates(files, candidates(st2.dirs, filename), closed) {
                    ResolutionModel::Found { path, content } => {
                        if !visiting.contains(path) {
                            lemma_resolve_found_present(
                                files,
                                candidates(st2.dirs, filename),
                                closed,
                            );
                            lemma_unvisited_decreases(files, visiting, path);
                        }
                    },
                    _ => {},
                }
            },
            _ => {},
        }
    }
}

proof fn lemma_resolve_found_present(
    files: Seq<(Seq<char>, Option<Seq<char>>)>,
    cands: Seq<Seq<char>>,
    closed: bool,
)
    requires
        resolve_candidates(files, cands, closed) is Found,
    ensures
        file_paths(files).contains(
            resolve_candidates(files, cands, closed)->Found_path,
        ),
    decreases cands.len(),
{
    if cands.len() > 0 {
        match file_lookup(files, cands[0]) {
            LookupModel::Present(_) => {
                lemma_file_lookup_present(files, cands[0]);
            },
            _ => {
                if resolve_candidates(files, cands.drop_first(), closed) is Found {
                    lemma_resolve_found_present(files, cands.drop_first(), closed);
                }
            },
        }
    }
}

/// What a whole parse yields, from raw text: the parser state, an error, or
/// a request for a file the table does not answer for.
pub open spec fn parse_run(
    content: Seq<char>,
    base_dir: Option<Seq<char>>,
    files: Seq<(Seq<char>, Option<Seq<char>>)>,
    closed: bool,
) -> RunModel {
    run_lines(init_state(base_dir), split_lines(content), 0, files, closed, Seq::empty())
}

/// With a complete table, a run never asks for a file.
pub proof fn lemma_closed_no_need(
    st: ParseStateModel,
    lines: Seq<Seq<char>>,
    k: int,
    files: Seq<(Seq<char>, Option<Seq<char>>)>,
    visiting: Seq<Seq<char>>,
)
    ensures
        !(run_lines(st, lines, k, files, true, visiting) is Need),
    decreases unvisited(files, visiting), lines.len() - k, 2int,
{
    if 0 <= k < lines.len() {
        match step_line(st, lines[k], (k + 1) as usize) {
            StepModel::Fail(_) => {},
            StepModel::Next(st2) => {
                lemma_closed_no_need(st2, lines, k + 1, files, visiting);
            },
            StepModel::Import { filename, state: st2 } => {
                lemma_resolve_no_ask(files, candidates(st2.dirs, filename));
                match resolve_candidates(files, candidates(st2.dirs, filename), true) {
                    ResolutionModel::Found { path, content } => {
                        if !visiting.contains(path) {
                            let st3 = ParseStateModel {
                                dirs: st2.dirs.push(dir_of(path)),
                                ..st2
                            };
                            lemma_resolve_found_present(
                                files,
                                candidates(st2.dirs, filename),
                                true,
                            );
                            lemma_unvisited_decreases(files, visiting, path);
                            lemma_closed_no_need(
                                st3,
                                split_lines(content),
                                0,
                                files,
                                visiting.push(path),
                            );
                            match run_lines(
                                st3,
                                split_lines(content),
                                0,
                                files,
                                true,
                                visiting.push(path),
                            ) {
                                RunModel::Done(st4) => {
                                    lemma_closed_no_need(st4, lines, k + 1, files, visiting);
                                },
                                _ => {},
                            }
                        }
                    },
                    _ => {},
                }
            },
        }
    }
}

proof fn lemma_resolve_no_ask(
    files: Seq<(Seq<char>, Option<Seq<char>>)>,
    cands: Seq<Seq<char>>,
)
    ensures
        !(resolve_candidates(files, cands, true) is Ask),
    decreases cands.len(),
{
    if cands.len() > 0 {
        lemma_resolve_no_ask(files, cands.drop_first());
    }
}

} // verus!

verus! {

// ---------------------------------------------------------------------------
// Executable helpers
// ---------------------------------------------------------------------------
/// The views of the indentation stack.
pub open spec fn indent_view(s: Seq<(usize, Reference)>) -> Seq<(usize, RefModel)> {
    s.map_values(|p: (usize, Reference)| (p.0, p.1@))
}

/// The view of an optional reference.
pub open spec fn opt_ref_view(o: Option<Reference>) -> Option<RefModel> {
    match o {
        Some(r) => Some(r@),
        None => None,
    }
}

/// The lines of a text, as owned strings.
fn split_lines_exec(content: &str) -> (r: Vec<String>)
    ensures
        lines_view(r@) == split_lines(content@),
{
    let cs = chars_of(content);
    let n = cs.len();
    let mut out: Vec<String> = Vec::new();
    let mut pos: usize = 0;
    proof {
        assert(cs@.skip(0) =~= cs@);
        assert(lines_view(out@) + split_lines(cs@) =~= split_lines(cs@));
    }
    while pos < n
        invariant
            0 <= pos <= n == cs@.len(),
            cs@ == content@,
            lines_view(out@) + split_lines(cs@.skip(pos as int)) == split_lines(content@),
        decreases n - pos,
    {
        let ghost rem = cs@.skip(pos as int);
        let r = run_nonnl_from(&cs, pos);
        let end = pos + r;
        proof {
            assert(rem.len() == n - pos);
        }
        if end == n {
            let piece = string_of_range(&cs, pos, n);
            let ghost out0 = out@;
            out.push(piece);
            proof {
                assert(cs@.subrange(pos as int, n as int) =~= rem);
                assert(split_lines(rem) == seq![rem]);
                assert(lines_view(out@) =~= lines_view(out0).push(rem));
                assert(cs@.skip(n as int).len() == 0);
                assert(lines_view(out@) + split_lines(cs@.skip(n as int)) =~= split_lines(
                    content@,
                ));
            }
            pos = n;
        } else {
            proof {
                lemma_run_len(rem, nonnl_p());
                assert(rem[r as int] == cs@[end as int]);
                assert(cs@[end as int] == '\n');
            }
            let line_end = if r > 0 && cs[end - 1] == '\r' {
                end - 1
            } else {
                end
            };
            let piece = string_of_range(&cs, pos, line_end);
            let ghost out0 = out@;
            out.push(piece);
            proof {
                let sub = rem.subrange(0, r as int);
                assert(sub =~= cs@.subrange(pos as int, end as int));
                if r > 0 {
                    assert(sub.last() == cs@[end - 1]);
                }
                assert(strip_cr(sub) =~= cs@.subrange(pos as int, line_end as int));
                assert(split_lines(rem) == seq![strip_cr(sub)] + split_lines(
                    rem.skip(r + 1),
                ));
                assert(rem.skip(r + 1) =~= cs@.skip(end + 1));
                assert(lines_view(out@) =~= lines_view(out0).push(strip_cr(sub)));
                assert(lines_view(out@) + split_lines(cs@.skip(end + 1)) =~= split_lines(
                    content@,
                ));
            }
            pos = end + 1;
        }
    }
    proof {
        assert(cs@.skip(pos as int).len() == 0);
        assert(lines_view(out@) =~= split_lines(content@));
    }
    out
}

/// Pop the indentation stack down to the nearest entry strictly shallower
/// than `w` and hand back that entry's reference.
fn pop_indent_exec(ind: &mut Vec<(usize, Reference)>, w: usize) -> (r: Option<Reference>)
    ensures
        indent_view(final(ind)@) == pop_indent(indent_view(old(ind)@), w as nat).0,
        opt_ref_view(r) == pop_indent(indent_view(old(ind)@), w as nat).1,
{
    loop
        invariant
            pop_indent(indent_view(old(ind)@), w as nat) == pop_indent(
                indent_view(ind@),
                w as nat,
            ),
        ensures
            indent_view(ind@) == pop_indent(indent_view(old(ind)@), w as nat).0,
            ind@.len() > 0 ==> opt_ref_view(Some(ind@.last().1)) == pop_indent(
                indent_view(old(ind)@),
                w as nat,
            ).1,
            ind@.len() == 0 ==> pop_indent(indent_view(old(ind)@), w as nat).1 is None,
        decreases ind@.len(),
    {
        let len = ind.len();
        if len == 0 {
            proof {
                assert(indent_view(ind@) =~= pop_indent(indent_view(ind@), w as nat).0);
            }
            break ;
        }
        let top_w = ind[len - 1].0;
        if top_w >= w {
            let ghost pre = indent_view(ind@);
            ind.pop();
            proof {
                assert(indent_view(ind@) =~= pre.drop_last());
                assert(pre.last().0 == top_w);
            }
        } else {
            proof {
                let iv = indent_view(ind@);
                assert(iv.last().0 == top_w);
                assert(pop_indent(iv, w as nat) == (iv, Some(iv.last().1)));
                assert(iv.last().1 == ind@.last().1@);
            }
            break ;
        }
    }
    let len = ind.len();
    if len == 0 {
        None
    } else {
        Some(ind[len - 1].1.duplicate())
    }
}

/// The text one token contributes, for descriptions or contents.
fn token_text_exec(t: &Token, use_content: bool) -> (r: String)
    ensures
        use_content ==> r@ == content_f()(t@),
        !use_content ==> r@ == desc_f()(t@),
{
    proof {
        reveal_strlit(" ");
        assert(" "@ =~= seq![' ']);
    }
    match t {
        Token::Word(w) => w.clone(),
        Token::Reference { typename, ident } => {
            if use_content {
                let mut s = typename.clone();
                crate::text::push_char(&mut s, '/');
                let mut s2 = s;
                s2.append(ident.as_str());
                proof {
                    assert(s2@ =~= typename@ + seq!['/'] + ident@);
                }
                s2
            } else {
                " ".to_owned()
            }
        },
        Token::AutoReference(typename) => {
            if use_content {
                let mut s = typename.clone();
                crate::text::push_char(&mut s, '/');
                proof {
                    assert(s@ =~= typename@ + seq!['/']);
                }
                s
            } else {
                " ".to_owned()
            }
        },
        _ => " ".to_owned(),
    }
}

/// The texts of the tokens at `from..to`, joined with single spaces.
fn join_texts_exec(toks: &Vec<Token>, from: usize, to: usize, use_content: bool) -> (r: String)
    requires
        from <= to <= toks@.len(),
    ensures
        r@ == join_texts(
            tokens_view(toks@).subrange(from as int, to as int),
            if use_content {
                content_f()
            } else {
                desc_f()
            },
        ),
{
    let ghost f = if use_content {
        content_f()
    } else {
        desc_f()
    };
    let ghost tv = tokens_view(toks@);
    if from == to {
        proof {
            assert(tv.subrange(from as int, to as int).len() == 0);
        }
        return String::new();
    }
    let mut r = token_text_exec(&toks[from], use_content);
    let mut j = from + 1;
    proof {
        assert(tv.subrange(from as int, to as int)[0] == tv[from as int]);
        assert(tv.subrange(from as int, to as int).drop_first() =~= tv.subrange(
            from as int + 1,
            to as int,
        ));
        assert(tv[from as int] == toks@[from as int]@);
    }
    while j < to
        invariant
            from < j <= to <= toks@.len(),
            tv == tokens_view(toks@),
            f == if use_content {
                content_f()
            } else {
                desc_f()
            },
            r@ + join_tail(tv.subrange(j as int, to as int), f) == join_texts(
                tv.subrange(from as int, to as int),
                f,
            ),
        decreases to - j,
    {
        crate::text::push_char(&mut r, ' ');
        let piece = token_text_exec(&toks[j], use_content);
        r.append(piece.as_str());
        proof {
            let sub = tv.subrange(j as int, to as int);
            assert(sub[0] == tv[j as int]);
            assert(tv[j as int] == toks@[j as int]@);
            assert(sub.drop_first() =~= tv.subrange(j as int + 1, to as int));
            assert(join_tail(sub, f) == seq![' '] + f(sub[0]) + join_tail(
                sub.drop_first(),
                f,
            ));
            assert(r@ + join_tail(tv.subrange(j + 1, to as int), f) =~= join_texts(
                tv.subrange(from as int, to as int),
                f,
            ));
        }
        j = j + 1;
    }
    proof {
        assert(tv.subrange(to as int, to as int).len() == 0);
        assert(r@ =~= join_texts(tv.subrange(from as int, to as int), f));
    }
    r
}

/// Whether the list holds this reference.
fn contains_ref(v: &Vec<Reference>, r: &Reference) -> (b: bool)
    ensures
        b == crate::ast::refs_view(v@).contains(r@),
{
    let n = v.len();
    let mut i: usize = 0;
    while i < n
        invariant
            0 <= i <= n == v@.len(),
            forall|j: int| 0 <= j < i ==> crate::ast::refs_view(v@)[j] != r@,
        decreases n - i,
    {
        if v[i] == *r {
            proof {
                assert(crate::ast::refs_view(v@)[i as int] == r@);
            }
            return true;
        }
        i = i + 1;
    }
    false
}

/// The references among the tokens at `from..to`, in order of first
/// occurrence, each once, with the implicit parent appended last unless
/// already present.
fn collect_refs(toks: &Vec<Token>, from: usize, to: usize, parent: Option<Reference>) -> (r: Vec<
    Reference,
>)
    requires
        from <= to <= toks@.len(),
    ensures
        crate::ast::refs_view(r@) == with_parent(
            refs_of_tokens(
                tokens_view(toks@).subrange(from as int, to as int),
                Seq::<RefModel>::empty(),
            ),
            opt_ref_view(parent),
        ),
{
    let ghost tv = tokens_view(toks@);
    let ghost full = tv.subrange(from as int, to as int);
    let mut out: Vec<Reference> = Vec::new();
    let mut j = from;
    proof {
        assert(crate::ast::refs_view(out@) =~= Seq::<RefModel>::empty());
        assert(full.skip(0) =~= full);
    }
    while j < to
        invariant
            from <= j <= to <= toks@.len(),
            tv == tokens_view(toks@),
            full == tv.subrange(from as int, to as int),
            refs_of_tokens(full.skip(j - from), crate::ast::refs_view(out@)) == refs_of_tokens(
                full,
                Seq::<RefModel>::empty(),
            ),
        decreases to - j,
    {
        let ghost rem = full.skip(j - from);
        proof {
            assert(rem[0] == full[j - from]);
            assert(full[j - from] == tv[j as int]);
            assert(tv[j as int] == toks@[j as int]@);
            assert(rem.drop_first() =~= full.skip(j + 1 - from));
        }
        match &toks[j] {
            Token::Reference { typename, ident } => {
                let rr = Reference { typename: typename.clone(), ident: ident.clone() };
                if !contains_ref(&out, &rr) {
                    let ghost out0 = out@;
                    let ghost rrg = rr;
                    out.push(rr);
                    proof {
                        crate::database::lemma_refs_view_push(out0, rrg);
                    }
                }
            },
            _ => {},
        }
        j = j + 1;
    }
    proof {
        assert(full.skip(to - from).len() == 0);
    }
    match parent {
        Some(p) => {
            if !contains_ref(&out, &p) {
                let ghost out0 = out@;
                let ghost pg = p;
                out.push(p);
                proof {
                    crate::database::lemma_refs_view_push(out0, pg);
                }
            }
        },
        None => {},
    }
    out
}

} // verus!

verus! {

/// The pattern and replacement of a macro declaration, from the raw line.
fn macro_parts_exec(ecs: &Vec<char>) -> (r: Option<(String, String)>)
    requires
        tokenize(ecs@).len() > 0,
        tokenize(ecs@)[0] == TokenModel::MacroDecl,
    ensures
        match (r, macro_parts(ecs@)) {
            (None, None) => true,
            (Some(p), Some(pm)) => p.0@ == pm.0 && p.1@ == pm.1,
            _ => false,
        },
{
    let n = ecs.len();
    proof {
        crate::lexer::lemma_first_token_prefix(ecs@);
        reveal_strlit("/macro");
    }
    let trim = run_space_from(ecs, 0);
    proof {
        assert(ecs@.skip(0) =~= ecs@);
        lemma_run_len(ecs@, space_p());
        lemma_trim_at(ecs@, trim as int);
    }
    let kw_end = trim + 6;
    proof {
        assert(trim_start_spec(ecs@) == ecs@.skip(trim as int));
        assert("/macro"@.len() == 6);
        assert(kw_end <= n);
        assert(trim_start_spec(ecs@).skip(6) =~= ecs@.skip(kw_end as int));
    }
    let ws1 = run_space_from(ecs, kw_end);
    let p0 = kw_end + ws1;
    proof {
        assert(ecs@.skip(kw_end as int).skip(run_len(ecs@.skip(kw_end as int), space_p()) as int)
            =~= ecs@.skip(p0 as int));
    }
    let plen = run_nonspace_from(ecs, p0);
    if plen == 0 {
        return None;
    }
    let pattern = string_of_range(ecs, p0, p0 + plen);
    proof {
        assert(pattern@ =~= ecs@.skip(p0 as int).subrange(0, plen as int));
    }
    let a0 = p0 + plen;
    let ws2 = run_space_from(ecs, a0);
    proof {
        assert(ecs@.skip(p0 as int).skip(plen as int) =~= ecs@.skip(a0 as int));
    }
    let r0 = a0 + ws2;
    proof {
        assert(ecs@.skip(a0 as int).skip(ws2 as int) =~= ecs@.skip(r0 as int));
        assert(ecs@.skip(r0 as int).len() == n - r0);
    }
    if ws2 == 0 || r0 == n {
        return None;
    }
    let repl = string_of_range(ecs, r0, n);
    proof {
        assert(repl@ =~= ecs@.skip(r0 as int));
    }
    Some((pattern, repl))
}

/// The type name and template of a render declaration, from the raw line.
fn render_parts_exec(ecs: &Vec<char>) -> (r: Option<(String, String)>)
    requires
        tokenize(ecs@).len() > 0,
        tokenize(ecs@)[0] == TokenModel::RenderDecl,
    ensures
        match (r, render_parts(ecs@)) {
            (None, None) => true,
            (Some(p), Some(pm)) => p.0@ == pm.0 && p.1@ == pm.1,
            _ => false,
        },
{
    let n = ecs.len();
    proof {
        crate::lexer::lemma_first_token_prefix(ecs@);
        reveal_strlit("/render");
    }
    let trim = run_space_from(ecs, 0);
    proof {
        assert(ecs@.skip(0) =~= ecs@);
        lemma_run_len(ecs@, space_p());
        lemma_trim_at(ecs@, trim as int);
    }
    let kw_end = trim + 7;
    proof {
        assert(trim_start_spec(ecs@) == ecs@.skip(trim as int));
        assert("/render"@.len() == 7);
        assert(kw_end <= n);
        assert(trim_start_spec(ecs@).skip(7) =~= ecs@.skip(kw_end as int));
    }
    let ws1 = run_space_from(ecs, kw_end);
    let p0 = kw_end + ws1;
    proof {
        assert(ecs@.skip(kw_end as int).skip(run_len(ecs@.skip(kw_end as int), space_p()) as int)
            =~= ecs@.skip(p0 as int));
    }
    let nlen = run_nonspace_from(ecs, p0);
    if nlen == 0 {
        return None;
    }
    let name = string_of_range(ecs, p0, p0 + nlen);
    proof {
        assert(name@ =~= ecs@.skip(p0 as int).subrange(0, nlen as int));
    }
    let a0 = p0 + nlen;
    let ws2 = run_space_from(ecs, a0);
    proof {
        assert(ecs@.skip(p0 as int).skip(nlen as int) =~= ecs@.skip(a0 as int));
    }
    let t0 = a0 + ws2;
    let template = string_of_range(ecs, t0, n);
    proof {
        assert(ecs@.skip(a0 as int).skip(ws2 as int) =~= ecs@.skip(t0 as int));
        assert(template@ =~= ecs@.skip(t0 as int));
    }
    Some((name, template))
}

/// The directory part of a path.
fn dir_of_exec(path: &str) -> (r: String)
    ensures
        r@ == dir_of(path@),
{
    let cs = chars_of(path);
    let n = cs.len();
    let mut i = n;
    while i > 0
        invariant
            0 <= i <= n == cs@.len(),
            cs@ == path@,
            forall|j: int| i <= j < n ==> cs@[j] != '/',
        decreases i,
    {
        i = i - 1;
        if cs[i] == '/' {
            proof {
                lemma_dir_of_at(cs@, i as int);
            }
            return string_of_range(&cs, 0, i);
        }
    }
    proof {
        lemma_dir_of_none(cs@);
    }
    String::new()
}

proof fn lemma_dir_of_at(s: Seq<char>, i: int)
    requires
        0 <= i < s.len(),
        s[i] == '/',
        forall|j: int| i < j < s.len() ==> s[j] != '/',
    ensures
        dir_of(s) == s.subrange(0, i),
    decreases s.len(),
{
    if i == s.len() - 1 {
        assert(s.drop_last() =~= s.subrange(0, i));
    } else {
        assert(s.last() != '/');
        assert(forall|j: int| i < j < s.drop_last().len() ==> s.drop_last()[j] != '/');
        assert(s.drop_last()[i] == s[i]);
        lemma_dir_of_at(s.drop_last(), i);
        assert(s.drop_last().subrange(0, i) =~= s.subrange(0, i));
    }
}

proof fn lemma_dir_of_none(s: Seq<char>)
    requires
        forall|j: int| 0 <= j < s.len() ==> s[j] != '/',
    ensures
        dir_of(s) == Seq::<char>::empty(),
    decreases s.len(),
{
    if s.len() > 0 {
        lemma_dir_of_none(s.drop_last());
    }
}

/// A file name resolved against a search directory.
fn join_path_exec(dir: &String, name: &String) -> (r: String)
    ensures
        r@ == join_path(dir@, name@),
{
    if dir.as_str().is_empty() {
        name.clone()
    } else {
        let mut s = dir.clone();
        crate::text::push_char(&mut s, '/');
        let mut s2 = s;
        s2.append(name.as_str());
        proof {
            assert(s2@ =~= dir@ + seq!['/'] + name@);
        }
        s2
    }
}

/// The candidate paths of an import, in search order.
fn candidates_exec(dirs: &Vec<String>, name: &String) -> (r: Vec<String>)
    ensures
        lines_view(r@) == candidates(lines_view(dirs@), name@),
{
    let ghost dv = lines_view(dirs@);
    let mut out: Vec<String> = Vec::new();
    let mut i = dirs.len();
    proof {
        assert(dv.subrange(0, i as int) =~= dv);
        assert(lines_view(out@) + candidates(dv, name@) =~= candidates(dv, name@));
    }
    while i > 0
        invariant
            0 <= i <= dirs@.len(),
            dv == lines_view(dirs@),
            lines_view(out@) + candidates(dv.subrange(0, i as int), name@) == candidates(
                dv,
                name@,
            ),
        decreases i,
    {
        i = i - 1;
        let c = join_path_exec(&dirs[i], name);
        let ghost out0 = out@;
        out.push(c);
        proof {
            let sub = dv.subrange(0, i + 1);
            assert(sub.last() == dv[i as int]);
            assert(dv[i as int] == dirs@[i as int]@);
            assert(sub.drop_last() =~= dv.subrange(0, i as int));
            assert(candidates(sub, name@) == seq![join_path(dv[i as int], name@)] + candidates(
                dv.subrange(0, i as int),
                name@,
            ));
            assert(lines_view(out@) =~= lines_view(out0).push(join_path(dv[i as int], name@)));
            assert(lines_view(out@) + candidates(dv.subrange(0, i as int), name@) =~= candidates(
                dv,
                name@,
            ));
        }
    }
    let ghost out0 = out@;
    out.push(name.clone());
    proof {
        assert(dv.subrange(0, 0).len() == 0);
        assert(candidates(dv.subrange(0, 0), name@) == seq![name@]);
        assert(lines_view(out@) =~= lines_view(out0).push(name@));
        assert(lines_view(out@) =~= candidates(dv, name@));
    }
    out
}

/// What the table says about one path.
fn file_lookup_exec(files: &Vec<SourceFile>, path: &String) -> (r: Option<Option<String>>)
    ensures
        match file_lookup(files_view(files@), path@) {
            LookupModel::Present(c) => r matches Some(Some(s)) && s@ == c,
            LookupModel::KnownMissing => r matches Some(None),
            LookupModel::Unknown => r is None,
        },
{
    let ghost fv = files_view(files@);
    let n = files.len();
    let mut i: usize = 0;
    proof {
        assert(fv.skip(0) =~= fv);
    }
    while i < n
        invariant
            0 <= i <= n == files@.len(),
            fv == files_view(files@),
            file_lookup(fv.skip(i as int), path@) == file_lookup(fv, path@),
        decreases n - i,
    {
        proof {
            assert(fv.skip(i as int)[0] == fv[i as int]);
            assert(fv[i as int] == files@[i as int]@);
            assert(fv.skip(i as int).drop_first() =~= fv.skip(i as int + 1));
        }
        if files[i].path == *path {
            match &files[i].content {
                Some(c) => {
                    return Some(Some(c.clone()));
                },
                None => {
                    return Some(None);
                },
            }
        }
        i = i + 1;
    }
    proof {
        assert(fv.skip(n as int).len() == 0);
    }
    None
}

/// How an import resolved.
enum ImportFound {
    Located(String, String),
    Missing,
    Ask(String),
}

/// Resolve an import's candidate paths against the table.
fn resolve_import_exec(
    dirs: &Vec<String>,
    name: &String,
    files: &Vec<SourceFile>,
    closed: bool,
) -> (r: ImportFound)
    ensures
        match resolve_candidates(
            files_view(files@),
            candidates(lines_view(dirs@), name@),
            closed,
        ) {
            ResolutionModel::Found { path, content } => r matches ImportFound::Located(p, c)
                && p@ == path && c@ == content,
            ResolutionModel::Missing => r is Missing,
            ResolutionModel::Ask(p) => r matches ImportFound::Ask(q) && q@ == p,
        },
{
    let cands = candidates_exec(dirs, name);
    let ghost cv = candidates(lines_view(dirs@), name@);
    let ghost fv = files_view(files@);
    let n = cands.len();
    let mut i: usize = 0;
    proof {
        assert(cv.skip(0) =~= cv);
    }
    while i < n
        invariant
            0 <= i <= n == cands@.len(),
            cv == lines_view(cands@),
            cv == candidates(lines_view(dirs@), name@),
            fv == files_view(files@),
            resolve_candidates(fv, cv.skip(i as int), closed) == resolve_candidates(
                fv,
                cv,
                closed,
            ),
        decreases n - i,
    {
        proof {
            assert(cv.skip(i as int)[0] == cv[i as int]);
            assert(cv[i as int] == cands@[i as int]@);
            assert(cv.skip(i as int).drop_first() =~= cv.skip(i as int + 1));
        }
        match file_lookup_exec(files, &cands[i]) {
            Some(Some(content)) => {
                proof {
                    assert(file_lookup(fv, cv[i as int]) is Present);
                    assert(resolve_candidates(fv, cv.skip(i as int), closed)
                        == ResolutionModel::Found { path: cv[i as int], content: content@ });
                }
                return ImportFound::Located(cands[i].clone(), content);
            },
            Some(None) => {
                proof {
                    assert(file_lookup(fv, cv[i as int]) is KnownMissing);
                }
            },
            None => {
                proof {
                    assert(file_lookup(fv, cv[i as int]) is Unknown);
                }
                if !closed {
                    proof {
                        assert(resolve_candidates(fv, cv.skip(i as int), closed)
                            == ResolutionModel::Ask(cv[i as int]));
                    }
                    return ImportFound::Ask(cands[i].clone());
                }
            },
        }
        i = i + 1;
    }
    proof {
        assert(cv.skip(n as int).len() == 0);
    }
    ImportFound::Missing
}

/// Whether a path is on the current import chain.
fn contains_path(v: &Vec<String>, p: &String) -> (b: bool)
    ensures
        b == lines_view(v@).contains(p@),
{
    let n = v.len();
    let mut i: usize = 0;
    while i < n
        invariant
            0 <= i <= n == v@.len(),
            forall|j: int| 0 <= j < i ==> lines_view(v@)[j] != p@,
        decreases n - i,
    {
        if v[i] == *p {
            proof {
                assert(lines_view(v@)[i as int] == p@);
            }
            return true;
        }
        i = i + 1;
    }
    false
}

} // verus!

verus! {

proof fn lemma_indent_view_push(s: Seq<(usize, Reference)>, x: (usize, Reference))
    ensures
        indent_view(s.push(x)) == indent_view(s).push((x.0, x.1@)),
{
    assert forall|k: int| 0 <= k < s.len() + 1 implies indent_view(s.push(x))[k] == indent_view(
        s,
    ).push((x.0, x.1@))[k] by {
        if k < s.len() {
            assert(s.push(x)[k] == s[k]);
        }
    }
    assert(indent_view(s.push(x)) =~= indent_view(s).push((x.0, x.1@)));
}

proof fn lemma_lines_view_push(s: Seq<String>, x: String)
    ensures
        lines_view(s.push(x)) == lines_view(s).push(x@),
{
    assert forall|k: int| 0 <= k < s.len() + 1 implies lines_view(s.push(x))[k] == lines_view(
        s,
    ).push(x@)[k] by {
        if k < s.len() {
            assert(s.push(x)[k] == s[k]);
        }
    }
    assert(lines_view(s.push(x)) =~= lines_view(s).push(x@));
}

/// The parser's accumulated working state.
struct ParserCtx {
    types: Vec<Type>,
    objects: Vec<Object>,
    macro_system: MacroSystem,
    render_system: RenderSystem,
    dirs: Vec<String>,
    indent: Vec<(usize, Reference)>,
}

/// The model of the working state.
spec fn ctx_view(c: &ParserCtx) -> ParseStateModel {
    ParseStateModel {
        types: crate::database::types_view(c.types@),
        objects: crate::database::objects_view(c.objects@),
        macros: c.macro_system@,
        renders: c.render_system@,
        dirs: lines_view(c.dirs@),
        indent: indent_view(c.indent@),
    }
}

/// Why a run stopped early.
enum Stop {
    Failed(Error),
    Need(String),
}

/// Run the parser over a list of lines, recursing into imports.
#[verifier::rlimit(100)]
fn parse_lines_rec(
    ctx: &mut ParserCtx,
    lines: &Vec<String>,
    files: &Vec<SourceFile>,
    closed: bool,
    visiting: &mut Vec<String>,
) -> (r: Result<(), Stop>)
    ensures
        lines_view(final(visiting)@) == lines_view(old(visiting)@),
        match run_lines(
            ctx_view(old(ctx)),
            lines_view(lines@),
            0,
            files_view(files@),
            closed,
            lines_view(old(visiting)@),
        ) {
            RunModel::Done(st) => r is Ok && ctx_view(final(ctx)) == st,
            RunModel::Fail(e) => r matches Err(Stop::Failed(err)) && err@ == e,
            RunModel::Need(p) => r matches Err(Stop::Need(q)) && q@ == p,
        },
    decreases unvisited(files_view(files@), lines_view(visiting@)),
{
    let ghost st0 = ctx_view(ctx);
    let ghost lv = lines_view(lines@);
    let ghost fv = files_view(files@);
    let ghost vis0 = lines_view(visiting@);
    let nlines = lines.len();
    let mut k: usize = 0;
    while k < nlines
        invariant
            0 <= k <= nlines == lines@.len(),
            lv == lines_view(lines@),
            fv == files_view(files@),
            vis0 == lines_view(visiting@),
            vis0 == lines_view(old(visiting)@),
            st0 == ctx_view(old(ctx)),
            run_lines(st0, lv, 0, fv, closed, vis0) == run_lines(
                ctx_view(ctx),
                lv,
                k as int,
                fv,
                closed,
                vis0,
            ),
        decreases nlines - k,
    {
        let ghost st_k = ctx_view(ctx);
        let lineno = k + 1;
        let cs = chars_of(lines[k].as_str());
        proof {
            assert(lv[k as int] == lines@[k as int]@);
            assert(cs@ == lv[k as int]);
            assert(cs@.skip(0) =~= cs@);
        }
        let n_line = cs.len();
        let w = run_space_from(&cs, 0);
        proof {
            assert(w == line_width(cs@));
            lemma_run_len(cs@, space_p());
        }
        if w == n_line {
            proof {
                assert(step_line(st_k, lv[k as int], lineno) == StepModel::Next(st_k));
            }
            k = k + 1;
            continue ;
        }
        let parent = pop_indent_exec(&mut ctx.indent, w);
        let ghost st1 = ctx_view(ctx);
        proof {
            assert(st1 =~= (ParseStateModel { indent: pop_indent(st_k.indent, w as nat).0, ..st_k }));
            assert(opt_ref_view(parent) == pop_indent(st_k.indent, w as nat).1);
        }
        if cs[w] == '#' {
            proof {
                assert(step_line(st_k, lv[k as int], lineno) == StepModel::Next(st1));
            }
            k = k + 1;
            continue ;
        }
        let expanded = ctx.macro_system.apply(lines[k].as_str());
        proof {
            assert(expanded@ == apply_rules(st_k.macros, cs@));
        }
        let toks = tokenize_line(expanded.as_str());
        let ghost tv = tokens_view(toks@);
        proof {
            lemma_tokenize_shape(expanded@);
            assert(tv == tokenize(expanded@));
            assert(tv.len() == toks@.len());
            assert(toks@.len() >= 1);
            assert(tv[0] == toks@[0]@);
            assert(tv.last() == TokenModel::EOL);
            assert(step_line(st_k, lv[k as int], lineno) == dispatch(
                st1,
                tv,
                expanded@,
                w as nat,
                opt_ref_view(parent),
                lineno,
            ));
        }
        match &toks[0] {
            Token::TypeDecl(name) => {
                proof {
                    assert(toks@.len() >= 2);
                }
                let contents = join_texts_exec(&toks, 1, toks.len() - 1, false);
                let t = Type {
                    name: name.clone(),
                    contents,
                    flavor: TypeFlavor::Strict,
                    lineno: Some(lineno),
                };
                let ghost types0 = ctx.types@;
                let ghost tg = t;
                ctx.types.push(t);
                proof {
                    crate::database::lemma_types_view_push(types0, tg);
                    assert(step_line(st_k, lv[k as int], lineno) == StepModel::Next(
                        ctx_view(ctx),
                    ));
                }
            },
            Token::LazyTypeDecl(name) => {
                proof {
                    assert(toks@.len() >= 2);
                }
                let contents = join_texts_exec(&toks, 1, toks.len() - 1, false);
                let t = Type {
                    name: name.clone(),
                    contents,
                    flavor: TypeFlavor::Lazy,
                    lineno: Some(lineno),
                };
                let ghost types0 = ctx.types@;
                let ghost tg = t;
                ctx.types.push(t);
                proof {
                    crate::database::lemma_types_view_push(types0, tg);
                    assert(step_line(st_k, lv[k as int], lineno) == StepModel::Next(
                        ctx_view(ctx),
                    ));
                }
            },
            Token::IgnoreTypeDecl(name) => {
                proof {
                    assert(toks@.len() >= 2);
                }
                let contents = join_texts_exec(&toks, 1, toks.len() - 1, false);
                let t = Type {
                    name: name.clone(),
                    contents,
                    flavor: TypeFlavor::Ignore,
                    lineno: Some(lineno),
                };
                let ghost types0 = ctx.types@;
                let ghost tg = t;
                ctx.types.push(t);
                proof {
                    crate::database::lemma_types_view_push(types0, tg);
                    assert(step_line(st_k, lv[k as int], lineno) == StepModel::Next(
                        ctx_view(ctx),
                    ));
                }
            },
            Token::MacroDecl => {
                let ecs = chars_of(expanded.as_str());
                match macro_parts_exec(&ecs) {
                    None => {
                        let e = Error::Parse {
                            line: lineno,
                            message: "Invalid macro declaration".to_owned(),
                        };
                        proof {
                            assert(e@ == (ErrorModel::Parse {
                                line: lineno,
                                message: "Invalid macro declaration"@,
                            }));
                            assert(run_lines(st0, lv, 0, fv, closed, vis0) == RunModel::Fail(e@));
                        }
                        return Err(Stop::Failed(e));
                    },
                    Some((pattern, replacement)) => {
                        match ctx.macro_system.add_macro(pattern.as_str(), replacement.as_str()) {
                            Ok(()) => {
                                proof {
                                    assert(step_line(st_k, lv[k as int], lineno)
                                        == StepModel::Next(ctx_view(ctx)));
                                }
                            },
                            Err(e) => {
                                proof {
                                    assert(e@ == ErrorModel::InvalidMacroPattern(pattern@));
                                    assert(run_lines(st0, lv, 0, fv, closed, vis0)
                                        == RunModel::Fail(e@));
                                }
                                return Err(Stop::Failed(e));
                            },
                        }
                    },
                }
            },
            Token::RenderDecl => {
                let ecs = chars_of(expanded.as_str());
                match render_parts_exec(&ecs) {
                    None => {
                        let e = Error::Parse {
                            line: lineno,
                            message: "Invalid render declaration".to_owned(),
                        };
                        proof {
                            assert(e@ == (ErrorModel::Parse {
                                line: lineno,
                                message: "Invalid render declaration"@,
                            }));
                            assert(run_lines(st0, lv, 0, fv, closed, vis0) == RunModel::Fail(e@));
                        }
                        return Err(Stop::Failed(e));
                    },
                    Some((name, template)) => {
                        ctx.render_system.add_render(name.as_str(), template.as_str());
                        proof {
                            assert(step_line(st_k, lv[k as int], lineno) == StepModel::Next(
                                ctx_view(ctx),
                            ));
                        }
                    },
                }
            },
            Token::ImportDecl => {
                let good = toks.len() >= 2 && matches!(&toks[1], Token::Word(_));
                if !good {
                    let e = Error::Parse {
                        line: lineno,
                        message: "Invalid import declaration".to_owned(),
                    };
                    proof {
                        if toks@.len() >= 2 {
                            assert(tv[1] == toks@[1]@);
                        }
                        assert(e@ == (ErrorModel::Parse {
                            line: lineno,
                            message: "Invalid import declaration"@,
                        }));
                        assert(run_lines(st0, lv, 0, fv, closed, vis0) == RunModel::Fail(e@));
                    }
                    return Err(Stop::Failed(e));
                }
                let filename = match &toks[1] {
                    Token::Word(wd) => wd.clone(),
                    _ => {
                        proof {
                            assert(false);
                        }
                        String::new()
                    },
                };
                proof {
                    assert(tv[1] == toks@[1]@);
                    assert(step_line(st_k, lv[k as int], lineno) == (StepModel::Import {
                        filename: filename@,
                        state: st1,
                    }));
                }
                match resolve_import_exec(&ctx.dirs, &filename, files, closed) {
                    ImportFound::Missing => {
                        let ghost fnm = filename@;
                        let inner = Error::Io("file not found".to_owned());
                        proof {
                            assert(inner@ == ErrorModel::Io("file not found"@));
                        }
                        let ghost inm = inner@;
                        let e = Error::Import(filename, Box::new(inner));
                        proof {
                            assert(e@ == ErrorModel::Import(fnm, Box::new(inm)));
                            assert(run_lines(st0, lv, 0, fv, closed, vis0) == RunModel::Fail(e@));
                        }
                        return Err(Stop::Failed(e));
                    },
                    ImportFound::Ask(p) => {
                        proof {
                            assert(run_lines(st0, lv, 0, fv, closed, vis0) == RunModel::Need(p@));
                        }
                        return Err(Stop::Need(p));
                    },
                    ImportFound::Located(path, content) => {
                        if contains_path(visiting, &path) {
                            let e = Error::CyclicImport(path);
                            proof {
                                assert(run_lines(st0, lv, 0, fv, closed, vis0) == RunModel::Fail(
                                    e@,
                                ));
                            }
                            return Err(Stop::Failed(e));
                        }
                        let d = dir_of_exec(path.as_str());
                        let ghost dirs0 = ctx.dirs@;
                        let ghost dg = d;
                        ctx.dirs.push(d);
                        let ghost st3 = ctx_view(ctx);
                        proof {
                            lemma_lines_view_push(dirs0, dg);
                            assert(st3 =~= (ParseStateModel {
                                dirs: st1.dirs.push(dir_of(path@)),
                                ..st1
                            }));
                        }
                        let sub_lines = split_lines_exec(content.as_str());
                        let ghost visiting0 = visiting@;
                        let pg = path.clone();
                        let ghost pgg = pg;
                        visiting.push(pg);
                        proof {
                            lemma_lines_view_push(visiting0, pgg);
                            lemma_resolve_found_present(
                                fv,
                                candidates(st1.dirs, filename@),
                                closed,
                            );
                            lemma_unvisited_decreases(fv, vis0, path@);
                        }
                        let rr = parse_lines_rec(ctx, &sub_lines, files, closed, visiting);
                        let ghost vis_after = lines_view(visiting@);
                        let _ = visiting.pop();
                        proof {
                            assert(lines_view(visiting@) =~= vis_after.drop_last());
                            assert(vis_after =~= vis0.push(path@));
                            assert(lines_view(visiting@) =~= vis0);
                        }
                        match rr {
                            Ok(()) => {
                                proof {
                                    assert(run_lines(st0, lv, 0, fv, closed, vis0) == run_lines(
                                        ctx_view(ctx),
                                        lv,
                                        k + 1,
                                        fv,
                                        closed,
                                        vis0,
                                    ));
                                }
                            },
                            Err(Stop::Failed(e)) => {
                                let ghost pm = path@;
                                let ghost em = e@;
                                let e2 = Error::Import(path, Box::new(e));
                                proof {
                                    assert(e2@ == ErrorModel::Import(pm, Box::new(em)));
                                    assert(run_lines(st0, lv, 0, fv, closed, vis0)
                                        == RunModel::Fail(e2@));
                                }
                                return Err(Stop::Failed(e2));
                            },
                            Err(Stop::Need(p)) => {
                                proof {
                                    assert(run_lines(st0, lv, 0, fv, closed, vis0)
                                        == RunModel::Need(p@));
                                }
                                return Err(Stop::Need(p));
                            },
                        }
                    },
                }
            },
            Token::Reference { typename, ident } => {
                proof {
                    assert(toks@.len() >= 2);
                }
                let contents = join_texts_exec(&toks, 1, toks.len() - 1, true);
                let unres = collect_refs(&toks, 1, toks.len() - 1, parent);
                let obj = Object {
                    id: ObjectId { typename: typename.clone(), ident: Some(ident.clone()) },
                    contents,
                    refs: Vec::new(),
                    unresolved_refs: unres,
                    lineno: Some(lineno),
                };
                let ghost objs0 = ctx.objects@;
                let ghost og = obj;
                ctx.objects.push(obj);
                let ghost ind0 = ctx.indent@;
                let entry = (w, Reference { typename: typename.clone(), ident: ident.clone() });
                let ghost eg = entry;
                ctx.indent.push(entry);
                proof {
                    crate::database::lemma_objects_view_push(objs0, og);
                    lemma_indent_view_push(ind0, eg);
                    assert(crate::ast::refs_view(og.refs@) =~= Seq::<RefModel>::empty());
                    assert(step_line(st_k, lv[k as int], lineno) == StepModel::Next(
                        ctx_view(ctx),
                    ));
                }
            },
            Token::AutoReference(typename) => {
                proof {
                    assert(toks@.len() >= 2);
                }
                let contents = join_texts_exec(&toks, 1, toks.len() - 1, true);
                let unres = collect_refs(&toks, 1, toks.len() - 1, parent);
                let obj = Object {
                    id: ObjectId { typename: typename.clone(), ident: None },
                    contents,
                    refs: Vec::new(),
                    unresolved_refs: unres,
                    lineno: Some(lineno),
                };
                let ghost objs0 = ctx.objects@;
                let ghost og = obj;
                ctx.objects.push(obj);
                proof {
                    crate::database::lemma_objects_view_push(objs0, og);
                    assert(crate::ast::refs_view(og.refs@) =~= Seq::<RefModel>::empty());
                    assert(step_line(st_k, lv[k as int], lineno) == StepModel::Next(
                        ctx_view(ctx),
                    ));
                }
            },
            Token::Word(_) => {
                let contents = join_texts_exec(&toks, 0, toks.len() - 1, true);
                let unres = collect_refs(&toks, 0, toks.len() - 1, parent);
                let obj = Object {
                    id: ObjectId { typename: "item".to_owned(), ident: None },
                    contents,
                    refs: Vec::new(),
                    unresolved_refs: unres,
                    lineno: Some(lineno),
                };
                let ghost objs0 = ctx.objects@;
                let ghost og = obj;
                ctx.objects.push(obj);
                proof {
                    crate::database::lemma_objects_view_push(objs0, og);
                    assert(crate::ast::refs_view(og.refs@) =~= Seq::<RefModel>::empty());
                    assert(step_line(st_k, lv[k as int], lineno) == StepModel::Next(
                        ctx_view(ctx),
                    ));
                }
            },
            Token::Comment(_) => {
                proof {
                    assert(step_line(st_k, lv[k as int], lineno) == StepModel::Next(st1));
                }
            },
            Token::EOL => {
                proof {
                    assert(step_line(st_k, lv[k as int], lineno) == StepModel::Next(st1));
                }
            },
        }
        k = k + 1;
    }
    proof {
        assert(run_lines(ctx_view(ctx), lv, nlines as int, fv, closed, vis0) == RunModel::Done(
            ctx_view(ctx),
        ));
    }
    Ok(())
}

} // verus!

verus! {

/// What parsing against a file table yields: a finished result, or the path
/// of a file the table does not answer for, to be supplied (or marked
/// missing) before trying again.
pub enum ParseOutcome {
    Done(Result<(Vec<Type>, Vec<Object>, RenderSystem), Error>),
    NeedFile(String),
}

/// The view of an optional base directory.
pub open spec fn opt_dir_view(o: Option<&str>) -> Option<Seq<char>> {
    match o {
        Some(d) => Some(d@),
        None => None,
    }
}

fn make_ctx(base_dir: Option<&str>) -> (r: ParserCtx)
    ensures
        ctx_view(&r) == init_state(opt_dir_view(base_dir)),
{
    let item = Type {
        name: "item".to_owned(),
        contents: "Item type".to_owned(),
        flavor: TypeFlavor::Lazy,
        lineno: None,
    };
    let mut types: Vec<Type> = Vec::new();
    let ghost t0 = types@;
    let ghost ig = item;
    types.push(item);
    let mut dirs: Vec<String> = Vec::new();
    match base_dir {
        Some(d) => {
            let ghost d0 = dirs@;
            let dd = d.to_owned();
            let ghost dg = dd;
            dirs.push(dd);
            proof {
                lemma_lines_view_push(d0, dg);
            }
        },
        None => {},
    }
    let r = ParserCtx {
        types,
        objects: Vec::new(),
        macro_system: MacroSystem::new(),
        render_system: RenderSystem::new(),
        dirs,
        indent: Vec::new(),
    };
    proof {
        crate::database::lemma_types_view_push(t0, ig);
        assert(crate::database::types_view(r.types@) =~= seq![item_type_model()]);
        assert(crate::database::objects_view(r.objects@) =~= Seq::<ObjectModel>::empty());
        assert(indent_view(r.indent@) =~= Seq::<(usize, RefModel)>::empty());
        assert(lines_view(Seq::<String>::empty()) =~= Seq::<Seq<char>>::empty());
        assert(ctx_view(&r) =~= init_state(opt_dir_view(base_dir)));
    }
    r
}

/// Parse source text against a table of importable files. When an import
/// needs a file the table does not answer for, the result names that path:
/// the caller adds an entry for it (with the file's text, or `None` if it
/// does not exist) and parses again.
pub fn parse_with_files(content: &str, base_dir: Option<&str>, files: &Vec<SourceFile>) -> (r:
    ParseOutcome)
    ensures
        match parse_run(content@, opt_dir_view(base_dir), files_view(files@), false) {
            RunModel::Done(st) => r matches ParseOutcome::Done(Ok((ts, os, rs)))
                && crate::database::types_view(ts@) == st.types && crate::database::objects_view(
                os@,
            ) == st.objects && rs@ == st.renders,
            RunModel::Fail(e) => r matches ParseOutcome::Done(Err(err)) && err@ == e,
            RunModel::Need(p) => r matches ParseOutcome::NeedFile(q) && q@ == p,
        },
{
    let mut ctx = make_ctx(base_dir);
    let lines = split_lines_exec(content);
    let mut visiting: Vec<String> = Vec::new();
    proof {
        assert(lines_view(visiting@) =~= Seq::<Seq<char>>::empty());
    }
    match parse_lines_rec(&mut ctx, &lines, files, false, &mut visiting) {
        Ok(()) => ParseOutcome::Done(Ok((ctx.types, ctx.objects, ctx.render_system))),
        Err(Stop::Failed(e)) => ParseOutcome::Done(Err(e)),
        Err(Stop::Need(p)) => ParseOutcome::NeedFile(p),
    }
}

/// Parse a standalone string. There are no importable files, so every
/// import fails with the import-failed error; all other behavior is that of
/// [`parse_with_files`]. On success the accumulated types (always starting
/// with the built-in `item` type), the objects in declaration order, and
/// the render registry are returned.
pub fn parse_string(content: &str) -> (r: Result<(Vec<Type>, Vec<Object>, RenderSystem), Error>)
    ensures
        match parse_run(content@, None, Seq::<(Seq<char>, Option<Seq<char>>)>::empty(), true) {
            RunModel::Done(st) => r matches Ok((ts, os, rs)) && crate::database::types_view(ts@)
                == st.types && crate::database::objects_view(os@) == st.objects && rs@
                == st.renders,
            RunModel::Fail(e) => r matches Err(err) && err@ == e,
            RunModel::Need(_) => false,
        },
{
    let mut ctx = make_ctx(None);
    let lines = split_lines_exec(content);
    let files: Vec<SourceFile> = Vec::new();
    let mut visiting: Vec<String> = Vec::new();
    proof {
        assert(files_view(files@) =~= Seq::<(Seq<char>, Option<Seq<char>>)>::empty());
        assert(lines_view(visiting@) =~= Seq::<Seq<char>>::empty());
        lemma_closed_no_need(
            init_state(None),
            split_lines(content@),
            0,
            files_view(files@),
            Seq::<Seq<char>>::empty(),
        );
    }
    match parse_lines_rec(&mut ctx, &lines, &files, true, &mut visiting) {
        Ok(()) => Ok((ctx.types, ctx.objects, ctx.render_system)),
        Err(Stop::Failed(e)) => Err(e),
        Err(Stop::Need(_)) => {
            // a run over a complete table never asks for a file
            proof {
                assert(false);
            }
            Err(Error::Io(String::new()))
        },
    }
}

} // verus!

verus! {

/// Parsing empty input yields exactly one type, the built-in default
/// `item`, and no objects.
pub proof fn lemma_empty_input(
    files: Seq<(Seq<char>, Option<Seq<char>>)>,
    closed: bool,
    base_dir: Option<Seq<char>>,
)
    ensures
        parse_run(""@, base_dir, files, closed) == RunModel::Done(init_state(base_dir)),
        init_state(base_dir).types =~= seq![item_type_model()],
        init_state(base_dir).objects.len() == 0,
{
    reveal_strlit("");
    assert(""@.len() == 0);
    assert(split_lines(""@) == Seq::<Seq<char>>::empty());
    assert(run_lines(init_state(base_dir), Seq::empty(), 0, files, closed, Seq::empty())
        == RunModel::Done(init_state(base_dir)));
}

} // verus!

verus! {

/// Every object of the list is well-formed.
pub open spec fn objects_all_wf(objs: Seq<ObjectModel>) -> bool {
    forall|i: int| 0 <= i < objs.len() ==> (#[trigger] objs[i]).wf()
}

proof fn lemma_refs_of_tokens_distinct(ts: Seq<TokenModel>, acc: Seq<RefModel>)
    requires
        crate::ast::distinct_refs(acc),
    ensures
        crate::ast::distinct_refs(refs_of_tokens(ts, acc)),
    decreases ts.len(),
{
    if ts.len() > 0 {
        match ts[0] {
            TokenModel::Reference { typename, ident } => {
                let r = RefModel { typename, ident };
                if acc.contains(r) {
                    lemma_refs_of_tokens_distinct(ts.drop_first(), acc);
                } else {
                    assert(crate::ast::distinct_refs(acc.push(r))) by {
                        assert forall|a: int, b: int|
                            0 <= a < b < acc.push(r).len() implies acc.push(r)[a] != acc.push(
                            r,
                        )[b] by {
                            if b < acc.len() {
                                assert(acc[a] != acc[b]);
                            } else {
                                if acc.push(r)[a] == r {
                                    assert(acc[a] == r);
                                    assert(acc.contains(r));
                                }
                            }
                        }
                    }
                    lemma_refs_of_tokens_distinct(ts.drop_first(), acc.push(r));
                }
            },
            _ => {
                lemma_refs_of_tokens_distinct(ts.drop_first(), acc);
            },
        }
    }
}

proof fn lemma_with_parent_distinct(rs: Seq<RefModel>, parent: Option<RefModel>)
    requires
        crate::ast::distinct_refs(rs),
    ensures
        crate::ast::distinct_refs(with_parent(rs, parent)),
{
    match parent {
        None => {},
        Some(p) => {
            if !rs.contains(p) {
                assert forall|a: int, b: int|
                    0 <= a < b < rs.push(p).len() implies rs.push(p)[a] != rs.push(p)[b] by {
                    if b < rs.len() {
                        assert(rs[a] != rs[b]);
                    } else {
                        if rs.push(p)[a] == p {
                            assert(rs[a] == p);
                            assert(rs.contains(p));
                        }
                    }
                }
            }
        },
    }
}

proof fn lemma_step_objects_wf(st: ParseStateModel, line: Seq<char>, lineno: usize)
    requires
        objects_all_wf(st.objects),
    ensures
        step_line(st, line, lineno) matches StepModel::Next(st2) ==> objects_all_wf(st2.objects),
        step_line(st, line, lineno) matches StepModel::Import { state, .. } ==> objects_all_wf(
            state.objects,
        ),
{
    let w = line_width(line);
    if w != line.len() && line[w as int] != '#' {
        let expanded = apply_rules(st.macros, line);
        let toks = tokenize(expanded);
        match toks[0] {
            TokenModel::Reference { typename, ident } => {
                let inner = toks.subrange(1, toks.len() - 1);
                lemma_refs_of_tokens_distinct(inner, Seq::empty());
                lemma_with_parent_distinct(
                    refs_of_tokens(inner, Seq::empty()),
                    pop_indent(st.indent, w).1,
                );
            },
            TokenModel::AutoReference(_) => {
                let inner = toks.subrange(1, toks.len() - 1);
                lemma_refs_of_tokens_distinct(inner, Seq::empty());
                lemma_with_parent_distinct(
                    refs_of_tokens(inner, Seq::empty()),
                    pop_indent(st.indent, w).1,
                );
            },
            TokenModel::Word(_) => {
                let inner = toks.subrange(0, toks.len() - 1);
                lemma_refs_of_tokens_distinct(inner, Seq::empty());
                lemma_with_parent_distinct(
                    refs_of_tokens(inner, Seq::empty()),
                    pop_indent(st.indent, w).1,
                );
            },
            _ => {},
        }
    }
}

proof fn lemma_run_objects_wf(
    st: ParseStateModel,
    lines: Seq<Seq<char>>,
    k: int,
    files: Seq<(Seq<char>, Option<Seq<char>>)>,
    closed: bool,
    visiting: Seq<Seq<char>>,
)
    requires
        objects_all_wf(st.objects),
    ensures
        run_lines(st, lines, k, files, closed, visiting) matches RunModel::Done(st2)
            ==> objects_all_wf(st2.objects),
    decreases unvisited(files, visiting), lines.len() - k, 2int,
{
    if 0 <= k < lines.len() {
        lemma_step_objects_wf(st, lines[k], (k + 1) as usize);
        match step_line(st, lines[k], (k + 1) as usize) {
            StepModel::Fail(_) => {},
            StepModel::Next(st2) => {
                lemma_run_objects_wf(st2, lines, k + 1, files, closed, visiting);
            },
            StepModel::Import { filename, state: st2 } => {
                match resolve_candidates(files, candidates(st2.dirs, filename), closed) {
                    ResolutionModel::Found { path, content } => {
                        if !visiting.contains(path) {
                            let st3 = ParseStateModel {
                                dirs: st2.dirs.push(dir_of(path)),
                                ..st2
                            };
                            lemma_resolve_found_present(
                                files,
                                candidates(st2.dirs, filename),
                                closed,
                            );
                            lemma_unvisited_decreases(files, visiting, path);
                            lemma_run_objects_wf(
                                st3,
                                split_lines(content),
                                0,
                                files,
                                closed,
                                visiting.push(path),
                            );
                            match run_lines(
                                st3,
                                split_lines(content),
                                0,
                                files,
                                closed,
                                visiting.push(path),
                            ) {
                                RunModel::Done(st4) => {
                                    lemma_run_objects_wf(st4, lines, k + 1, files, closed, visiting);
                                },
                                _ => {},
                            }
                        }
                    },
                    _ => {},
                }
            },
        }
    }
}

/// Every object a successful parse hands out is well-formed: neither of its
/// reference lists repeats an entry. Inserting such objects into a
/// well-formed database therefore meets the insertion contract.
pub proof fn lemma_parse_objects_wf(
    content: Seq<char>,
    base_dir: Option<Seq<char>>,
    files: Seq<(Seq<char>, Option<Seq<char>>)>,
    closed: bool,
)
    ensures
        parse_run(content, base_dir, files, closed) matches RunModel::Done(st)
            ==> objects_all_wf(st.objects),
{
    lemma_run_objects_wf(
        init_state(base_dir),
        split_lines(content),
        0,
        files,
        closed,
        Seq::empty(),
    );
}

} // verus!
