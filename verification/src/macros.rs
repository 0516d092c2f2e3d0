//! Macro engine (ordered regex rewrite rules applied to each raw line) and
//! render registry (type name to display template).

use crate::error::Error;
use crate::text::{chars_of, string_from_chars};
use vstd::prelude::*;

verus! {

// ---------------------------------------------------------------------------
// Trusted boundary: the regex crate
// ---------------------------------------------------------------------------
/// Whether `regex::Regex::new` accepts the pattern; compiling depends on the
/// pattern alone.
pub uninterp spec fn regex_ok(pattern: Seq<char>) -> bool;

/// What `regex::Regex::replace_all` returns for a compiled `pattern`, a
/// haystack, and a replacement string (with the regex crate's `$`-style
/// capture expansion). The result depends on the three strings alone.
pub uninterp spec fn rewrite_of(pattern: Seq<char>, input: Seq<char>, replacement: Seq<char>) -> Seq<
    char,
>;

/// Relies on `regex::Regex::new`: it accepts or rejects a pattern
/// deterministically, by the pattern string alone.
#[verifier::external_body]
fn regex_compiles(pattern: &str) -> (r: bool)
    ensures
        r == regex_ok(pattern@),
{
    regex::Regex::new(pattern).is_ok()
}

/// Relies on `regex::Regex::new` and `regex::Regex::replace_all`: compiling
/// the same pattern twice yields the same regex, and `replace_all` replaces
/// every non-overlapping match of it in `input` with `replacement` (expanding
/// `$`-style capture references), deterministically in its three arguments.
#[verifier::external_body]
fn regex_rewrite(pattern: &str, input: &str, replacement: &str) -> (r: String)
    requires
        regex_ok(pattern@),
    ensures
        r@ == rewrite_of(pattern@, input@, replacement@),
{
    let re = regex::Regex::new(pattern).unwrap();
    re.replace_all(input, replacement).into_owned()
}

// ---------------------------------------------------------------------------
// Replacement templates
// ---------------------------------------------------------------------------
/// Is `c` an ASCII digit?
pub open spec fn is_ascii_digit(c: char) -> bool {
    ('0' as u32) <= (c as u32) && (c as u32) <= ('9' as u32)
}

/// This language writes capture references in replacement text as a
/// backslash followed by a digit. The regex crate expands `${n}` instead and
/// treats `$` specially, so before a replacement string reaches the regex
/// crate, each `\n` becomes `${n}` and each literal `$` becomes `$$`.
pub open spec fn dollar_template(t: Seq<char>) -> Seq<char>
    decreases t.len(),
{
    if t.len() >= 2 && t[0] == '\\' && is_ascii_digit(t[1]) {
        seq!['$', '{', t[1], '}'] + dollar_template(t.skip(2))
    } else if t.len() > 0 {
        (if t[0] == '$' {
            seq!['$', '$']
        } else {
            seq![t[0]]
        }) + dollar_template(t.drop_first())
    } else {
        Seq::empty()
    }
}

fn ascii_digit_c(c: char) -> (r: bool)
    ensures
        r == is_ascii_digit(c),
{
    ('0' as u32) <= (c as u32) && (c as u32) <= ('9' as u32)
}

/// The replacement template in the form the regex crate expands.
fn to_dollar_template(t: &str) -> (r: String)
    ensures
        r@ == dollar_template(t@),
{
    let cs = chars_of(t);
    let n = cs.len();
    let mut out: Vec<char> = Vec::new();
    let mut i: usize = 0;
    proof {
        assert(cs@.skip(0) =~= cs@);
        assert(out@ + dollar_template(cs@) =~= dollar_template(t@));
    }
    while i < n
        invariant
            0 <= i <= n == cs@.len(),
            cs@ == t@,
            out@ + dollar_template(cs@.skip(i as int)) == dollar_template(t@),
        decreases n - i,
    {
        proof {
            assert(cs@.skip(i as int)[0] == cs@[i as int]);
            if i + 1 < n {
                assert(cs@.skip(i as int)[1] == cs@[i + 1]);
            }
        }
        if cs[i] == '\\' && i + 1 < n && ascii_digit_c(cs[i + 1]) {
            out.push('$');
            out.push('{');
            out.push(cs[i + 1]);
            out.push('}');
            proof {
                assert(cs@.skip(i as int).skip(2) =~= cs@.skip(i + 2));
                assert(out@ + dollar_template(cs@.skip(i + 2)) =~= dollar_template(t@));
            }
            i = i + 2;
        } else {
            if cs[i] == '$' {
                out.push('$');
                out.push('$');
            } else {
                out.push(cs[i]);
            }
            proof {
                assert(cs@.skip(i as int).drop_first() =~= cs@.skip(i + 1));
                assert(out@ + dollar_template(cs@.skip(i + 1)) =~= dollar_template(t@));
            }
            i = i + 1;
        }
    }
    proof {
        assert(out@ =~= dollar_template(t@));
    }
    string_from_chars(&out)
}

// ---------------------------------------------------------------------------
// Macro system
// ---------------------------------------------------------------------------
/// One rewrite rule: a regular-expression pattern and a replacement
/// template (with backslash-digit capture references).
#[derive(Debug, Clone)]
pub struct Macro {
    /// The pattern to match.
    pub pattern: String,
    /// The replacement template.
    pub replacement: String,
}

/// An ordered list of rewrite rules, applied in declaration order.
#[derive(Debug)]
pub struct MacroSystem {
    macros: Vec<Macro>,
}

/// The result of one rule applied to a line.
pub open spec fn apply_one(pattern: Seq<char>, input: Seq<char>, replacement: Seq<char>) -> Seq<
    char,
> {
    rewrite_of(pattern, input, dollar_template(replacement))
}

/// The result of a rule list applied to a line: every rule once, in order,
/// each seeing the previous rule's output.
pub open spec fn apply_rules(rules: Seq<(Seq<char>, Seq<char>)>, input: Seq<char>) -> Seq<char>
    decreases rules.len(),
{
    if rules.len() == 0 {
        input
    } else {
        apply_rules(rules.drop_first(), apply_one(rules[0].0, input, rules[0].1))
    }
}

impl View for MacroSystem {
    type V = Seq<(Seq<char>, Seq<char>)>;

    closed spec fn view(&self) -> Seq<(Seq<char>, Seq<char>)> {
        self.macros@.map_values(|m: Macro| (m.pattern@, m.replacement@))
    }
}

impl MacroSystem {
    /// Every stored pattern compiles.
    #[verifier::type_invariant]
    spec fn inv(self) -> bool {
        forall|i: int| 0 <= i < self.macros@.len() ==> regex_ok(self.macros@[i].pattern@)
    }

    /// An empty macro system.
    pub fn new() -> (r: MacroSystem)
        ensures
            r@ == Seq::<(Seq<char>, Seq<char>)>::empty(),
    {
        let r = MacroSystem { macros: Vec::new() };
        proof {
            assert(r@ =~= Seq::<(Seq<char>, Seq<char>)>::empty());
        }
        r
    }

    /// Append one rule. Fails, changing nothing, exactly when the pattern is
    /// not a valid regular expression.
    pub fn add_macro(&mut self, pattern: &str, replacement: &str) -> (r: Result<(), Error>)
        ensures
            regex_ok(pattern@) ==> r is Ok && final(self)@ == old(self)@.push((
                pattern@,
                replacement@,
            )),
            !regex_ok(pattern@) ==> final(self)@ == old(self)@ && (r matches Err(
                Error::InvalidMacroPattern(p),
            ) && p@ == pattern@),
    {
        proof {
            use_type_invariant(&*self);
        }
        if !regex_compiles(pattern) {
            return Err(Error::InvalidMacroPattern(pattern.to_owned()));
        }
        let m = Macro { pattern: pattern.to_owned(), replacement: replacement.to_owned() };
        let mut ms: Vec<Macro> = Vec::new();
        core::mem::swap(&mut ms, &mut self.macros);
        ms.push(m);
        core::mem::swap(&mut ms, &mut self.macros);
        proof {
            assert(self@ =~= old(self)@.push((pattern@, replacement@)));
        }
        Ok(())
    }

    /// Apply every rule once, in declaration order, to `input`.
    pub fn apply(&self, input: &str) -> (r: String)
        ensures
            r@ == apply_rules(self@, input@),
    {
        proof {
            use_type_invariant(self);
        }
        let n = self.macros.len();
        let mut cur = input.to_owned();
        let mut i: usize = 0;
        proof {
            assert(self@.skip(0) =~= self@);
        }
        while i < n
            invariant
                0 <= i <= n == self.macros@.len(),
                self.inv(),
                apply_rules(self@.skip(i as int), cur@) == apply_rules(self@, input@),
            decreases n - i,
        {
            let dollar = to_dollar_template(self.macros[i].replacement.as_str());
            let next = regex_rewrite(self.macros[i].pattern.as_str(), cur.as_str(), dollar.as_str());
            proof {
                assert(self@.skip(i as int)[0] == self@[i as int]);
                assert(self@.skip(i as int).drop_first() =~= self@.skip(i + 1));
            }
            cur = next;
            i = i + 1;
        }
        proof {
            assert(self@.skip(n as int).len() == 0);
        }
        cur
    }
}

// ---------------------------------------------------------------------------
// Render system
// ---------------------------------------------------------------------------
/// A mapping from type name to display template. Later registrations for
/// the same type overwrite earlier ones.
#[derive(Debug)]
pub struct RenderSystem {
    entries: Vec<(String, String)>,
}

/// The mapping an entry list stands for: later entries win.
pub open spec fn renders_map(s: Seq<(Seq<char>, Seq<char>)>) -> Map<Seq<char>, Seq<char>>
    decreases s.len(),
{
    if s.len() == 0 {
        Map::empty()
    } else {
        renders_map(s.drop_last()).insert(s.last().0, s.last().1)
    }
}

impl View for RenderSystem {
    type V = Map<Seq<char>, Seq<char>>;

    closed spec fn view(&self) -> Map<Seq<char>, Seq<char>> {
        renders_map(self.entries@.map_values(|p: (String, String)| (p.0@, p.1@)))
    }
}

/// The template with every occurrence of the two characters `\1` replaced by
/// the identifier, leftmost first, without revisiting replaced text.
pub open spec fn subst_ident(t: Seq<char>, id: Seq<char>) -> Seq<char>
    decreases t.len(),
{
    if t.len() >= 2 && t[0] == '\\' && t[1] == '1' {
        id + subst_ident(t.skip(2), id)
    } else if t.len() > 0 {
        seq![t[0]] + subst_ident(t.drop_first(), id)
    } else {
        Seq::empty()
    }
}

/// What rendering a type name and identifier yields: the registered
/// template with the identifier substituted, or `type/ident` if no template
/// is registered.
pub open spec fn render_spec(m: Map<Seq<char>, Seq<char>>, t: Seq<char>, id: Seq<char>) -> Seq<
    char,
> {
    if m.contains_key(t) {
        subst_ident(m[t], id)
    } else {
        t + seq!['/'] + id
    }
}

proof fn lemma_renders_map_last(s: Seq<(Seq<char>, Seq<char>)>, t: Seq<char>, i: int)
    requires
        0 <= i < s.len(),
        s[i].0 == t,
        forall|j: int| i < j < s.len() ==> s[j].0 != t,
    ensures
        renders_map(s).contains_key(t),
        renders_map(s)[t] == s[i].1,
    decreases s.len(),
{
    if i + 1 < s.len() {
        assert(s.drop_last()[i] == s[i]);
        lemma_renders_map_last(s.drop_last(), t, i);
    }
}

proof fn lemma_renders_map_absent(s: Seq<(Seq<char>, Seq<char>)>, t: Seq<char>)
    requires
        forall|j: int| 0 <= j < s.len() ==> s[j].0 != t,
    ensures
        !renders_map(s).contains_key(t),
    decreases s.len(),
{
    if s.len() > 0 {
        lemma_renders_map_absent(s.drop_last(), t);
    }
}

impl RenderSystem {
    /// An empty render registry.
    pub fn new() -> (r: RenderSystem)
        ensures
            r@ == Map::<Seq<char>, Seq<char>>::empty(),
    {
        let r = RenderSystem { entries: Vec::new() };
        proof {
            assert(r.entries@.map_values(|p: (String, String)| (p.0@, p.1@)) =~= Seq::<
                (Seq<char>, Seq<char>),
            >::empty());
        }
        r
    }

    /// Register (or overwrite) the template for a type name.
    pub fn add_render(&mut self, typename: &str, template: &str)
        ensures
            final(self)@ == old(self)@.insert(typename@, template@),
    {
        self.entries.push((typename.to_owned(), template.to_owned()));
        proof {
            let f = |p: (String, String)| (p.0@, p.1@);
            assert(self.entries@.map_values(f).drop_last() =~= old(self).entries@.map_values(f));
            assert(self.entries@.map_values(f).last() == (typename@, template@));
        }
    }

    /// The entries of the registry, in registration order.
    pub fn entry_list(&self) -> (r: &Vec<(String, String)>)
        ensures
            renders_map(r@.map_values(|p: (String, String)| (p.0@, p.1@))) == self@,
    {
        &self.entries
    }

    /// Render one object identifier: the registered template with the
    /// identifier substituted for `\1`, or `type/ident` when the type has no
    /// template.
    pub fn render(&self, typename: &str, ident: &str) -> (r: String)
        ensures
            r@ == render_spec(self@, typename@, ident@),
    {
        let ghost sv = self.entries@.map_values(|p: (String, String)| (p.0@, p.1@));
        let key = typename.to_owned();
        let n = self.entries.len();
        let mut idx = n;
        while idx > 0
            invariant
                0 <= idx <= n == self.entries@.len(),
                key@ == typename@,
                sv == self.entries@.map_values(|p: (String, String)| (p.0@, p.1@)),
                forall|j: int| idx <= j < n ==> sv[j].0 != typename@,
            decreases idx,
        {
            idx = idx - 1;
            if self.entries[idx].0 == key {
                proof {
                    lemma_renders_map_last(sv, typename@, idx as int);
                }
                return self.subst(idx, ident);
            }
        }
        proof {
            lemma_renders_map_absent(sv, typename@);
        }
        let tc = chars_of(typename);
        let mut out: Vec<char> = tc;
        out.push('/');
        let ic = chars_of(ident);
        let mut k: usize = 0;
        while k < ic.len()
            invariant
                0 <= k <= ic@.len(),
                ic@ == ident@,
                out@ == typename@ + seq!['/'] + ident@.subrange(0, k as int),
            decreases ic@.len() - k,
        {
            out.push(ic[k]);
            proof {
                assert(typename@ + seq!['/'] + ident@.subrange(0, k + 1) =~= (typename@ + seq!['/']
                    + ident@.subrange(0, k as int)).push(ident@[k as int]));
            }
            k = k + 1;
        }
        proof {
            assert(ident@.subrange(0, ident@.len() as int) =~= ident@);
        }
        string_from_chars(&out)
    }

    /// The template at `idx` with the identifier substituted for `\1`.
    fn subst(&self, idx: usize, ident: &str) -> (r: String)
        requires
            idx < self.entries@.len(),
        ensures
            r@ == subst_ident(self.entries@[idx as int].1@, ident@),
    {
        let tc = chars_of(self.entries[idx].1.as_str());
        let ic = chars_of(ident);
        let ghost tv = self.entries@[idx as int].1@;
        let n = tc.len();
        let mut out: Vec<char> = Vec::new();
        let mut i: usize = 0;
        proof {
            assert(tc@.skip(0) =~= tc@);
            assert(out@ + subst_ident(tv, ident@) =~= subst_ident(tv, ident@));
        }
        while i < n
            invariant
                0 <= i <= n == tc@.len(),
                tc@ == tv,
                ic@ == ident@,
                out@ + subst_ident(tc@.skip(i as int), ident@) == subst_ident(tv, ident@),
            decreases n - i,
        {
            proof {
                assert(tc@.skip(i as int)[0] == tc@[i as int]);
                if i + 1 < n {
                    assert(tc@.skip(i as int)[1] == tc@[i + 1]);
                }
            }
            if tc[i] == '\\' && i + 1 < n && tc[i + 1] == '1' {
                let ghost out0 = out@;
                let mut k: usize = 0;
                while k < ic.len()
                    invariant
                        0 <= k <= ic@.len(),
                        ic@ == ident@,
                        out@ == out0 + ident@.subrange(0, k as int),
                    decreases ic@.len() - k,
                {
                    out.push(ic[k]);
                    proof {
                        assert(out0 + ident@.subrange(0, k + 1) =~= (out0 + ident@.subrange(
                            0,
                            k as int,
                        )).push(ident@[k as int]));
                    }
                    k = k + 1;
                }
                proof {
                    assert(ident@.subrange(0, ident@.len() as int) =~= ident@);
                    assert(tc@.skip(i as int).skip(2) =~= tc@.skip(i + 2));
                    assert(out@ + subst_ident(tc@.skip(i + 2), ident@) =~= subst_ident(
                        tv,
                        ident@,
                    ));
                }
                i = i + 2;
            } else {
                out.push(tc[i]);
                proof {
                    assert(tc@.skip(i as int).drop_first() =~= tc@.skip(i + 1));
                    assert(out@ + subst_ident(tc@.skip(i + 1), ident@) =~= subst_ident(
                        tv,
                        ident@,
                    ));
                }
                i = i + 1;
            }
        }
        proof {
            assert(out@ =~= subst_ident(tv, ident@));
        }
        string_from_chars(&out)
    }
}

} // verus!
