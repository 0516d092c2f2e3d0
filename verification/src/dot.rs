//! Rendering the object graph as graph-description text: one node per
//! object, labelled by its rendered identifier and a preview of its
//! contents, and one edge per resolved reference.

use crate::ast::{ObjectIdModel, ObjectModel, RefModel};
use crate::database::Database;
use crate::macros::render_spec;
use crate::text::{chars_of, string_from_chars, string_of_range};
use vstd::prelude::*;

verus! {

/// ASCII letters and digits; every other character is flattened to an
/// underscore in node identifiers.
pub open spec fn is_alnum(c: char) -> bool {
    (('a' as u32) <= (c as u32) && (c as u32) <= ('z' as u32)) || (('A' as u32) <= (c as u32) && (
    c as u32) <= ('Z' as u32)) || (('0' as u32) <= (c as u32) && (c as u32) <= ('9' as u32))
}

fn alnum_c(c: char) -> (r: bool)
    ensures
        r == is_alnum(c),
{
    (('a' as u32) <= (c as u32) && (c as u32) <= ('z' as u32)) || (('A' as u32) <= (c as u32) && (
    c as u32) <= ('Z' as u32)) || (('0' as u32) <= (c as u32) && (c as u32) <= ('9' as u32))
}

/// Every character that is not an ASCII letter or digit becomes an
/// underscore.
pub open spec fn sanitize_chars(s: Seq<char>) -> Seq<char> {
    s.map_values(
        |c: char|
            if is_alnum(c) {
                c
            } else {
                '_'
            },
    )
}

/// The node identifier of an object: type name and identifier joined by an
/// underscore, with every non-alphanumeric character flattened.
pub open spec fn sanitize_spec(typename: Seq<char>, ident: Seq<char>) -> Seq<char> {
    sanitize_chars(typename + seq!['_'] + ident)
}

/// The node identifier of an object.
pub fn sanitize_id(typename: &str, ident: &str) -> (r: String)
    ensures
        r@ == sanitize_spec(typename@, ident@),
{
    let tc = chars_of(typename);
    let ic = chars_of(ident);
    let mut joined: Vec<char> = tc;
    joined.push('_');
    let mut k: usize = 0;
    while k < ic.len()
        invariant
            0 <= k <= ic@.len(),
            ic@ == ident@,
            joined@ == typename@ + seq!['_'] + ident@.subrange(0, k as int),
        decreases ic@.len() - k,
    {
        joined.push(ic[k]);
        proof {
            assert(typename@ + seq!['_'] + ident@.subrange(0, k + 1) =~= (typename@ + seq!['_']
                + ident@.subrange(0, k as int)).push(ident@[k as int]));
        }
        k = k + 1;
    }
    proof {
        assert(ident@.subrange(0, ident@.len() as int) =~= ident@);
    }
    let n = joined.len();
    let mut out: Vec<char> = Vec::new();
    let mut i: usize = 0;
    while i < n
        invariant
            0 <= i <= n == joined@.len(),
            joined@ == typename@ + seq!['_'] + ident@,
            out@ == sanitize_chars(joined@.subrange(0, i as int)),
        decreases n - i,
    {
        let c = joined[i];
        if alnum_c(c) {
            out.push(c);
        } else {
            out.push('_');
        }
        proof {
            assert(out@ =~= sanitize_chars(joined@.subrange(0, i + 1)));
        }
        i = i + 1;
    }
    proof {
        assert(joined@.subrange(0, n as int) =~= joined@);
    }
    string_from_chars(&out)
}

/// A text with every double quote escaped by a backslash.
pub open spec fn escape_quotes(s: Seq<char>) -> Seq<char>
    decreases s.len(),
{
    if s.len() == 0 {
        Seq::empty()
    } else {
        (if s[0] == '"' {
            seq!['\\', '"']
        } else {
            seq![s[0]]
        }) + escape_quotes(s.drop_first())
    }
}

fn escape_quotes_exec(s: &str) -> (r: String)
    ensures
        r@ == escape_quotes(s@),
{
    let cs = chars_of(s);
    let n = cs.len();
    let mut out: Vec<char> = Vec::new();
    let mut i: usize = 0;
    proof {
        assert(cs@.skip(0) =~= cs@);
        assert(out@ + escape_quotes(cs@) =~= escape_quotes(s@));
    }
    while i < n
        invariant
            0 <= i <= n == cs@.len(),
            cs@ == s@,
            out@ + escape_quotes(cs@.skip(i as int)) == escape_quotes(s@),
        decreases n - i,
    {
        proof {
            assert(cs@.skip(i as int)[0] == cs@[i as int]);
            assert(cs@.skip(i as int).drop_first() =~= cs@.skip(i as int + 1));
        }
        if cs[i] == '"' {
            out.push('\\');
            out.push('"');
        } else {
            out.push(cs[i]);
        }
        proof {
            assert(out@ + escape_quotes(cs@.skip(i as int + 1)) =~= escape_quotes(s@));
        }
        i = i + 1;
    }
    proof {
        assert(out@ =~= escape_quotes(s@));
    }
    string_from_chars(&out)
}

/// The contents preview on a node label: at most forty characters, with an
/// ellipsis when the contents were longer.
pub open spec fn preview_of(contents: Seq<char>) -> Seq<char> {
    if contents.len() > 40 {
        contents.subrange(0, 40) + "..."@
    } else {
        contents
    }
}

/// The node shape drawn for each type name.
pub open spec fn shape_of(t: Seq<char>) -> Seq<char> {
    if t == "q"@ {
        "folder"@
    } else if t == "p"@ {
        "component"@
    } else if t == "u"@ {
        "ellipse"@
    } else if t == "t"@ {
        "note"@
    } else if t == "b"@ {
        "diamond"@
    } else if t == "m"@ {
        "hexagon"@
    } else if t == "item"@ {
        "plaintext"@
    } else {
        "box"@
    }
}

/// The fill color drawn for each type name.
pub open spec fn color_of(t: Seq<char>) -> Seq<char> {
    if t == "q"@ {
        "#E6F3FF"@
    } else if t == "p"@ {
        "#EEEEEE"@
    } else if t == "u"@ {
        "#FFF9C4"@
    } else if t == "t"@ {
        "#FFFFFF"@
    } else if t == "b"@ {
        "#FFCDD2"@
    } else if t == "m"@ {
        "#C8E6C9"@
    } else if t == "item"@ {
        "white"@
    } else {
        "white"@
    }
}

/// The identifier text of an object: its identifier, or nothing while it
/// awaits assignment.
pub open spec fn ident_text(id: ObjectIdModel) -> Seq<char> {
    match id.ident {
        Some(s) => s,
        None => Seq::empty(),
    }
}

/// The edge lines of one node: one line per resolved reference.
pub open spec fn edge_lines(nid: Seq<char>, refs: Seq<RefModel>) -> Seq<char>
    decreases refs.len(),
{
    if refs.len() == 0 {
        Seq::empty()
    } else {
        "  "@ + nid + " -> "@ + sanitize_spec(refs[0].typename, refs[0].ident) + ";\n"@
            + edge_lines(nid, refs.drop_first())
    }
}

/// The node line and edge lines of one object.
pub open spec fn node_block(o: ObjectModel, renders: Map<Seq<char>, Seq<char>>) -> Seq<char> {
    let nid = sanitize_spec(o.id.typename, ident_text(o.id));
    let label = escape_quotes(
        render_spec(renders, o.id.typename, ident_text(o.id)) + preview_of(o.contents),
    );
    "  "@ + nid + " [label=\""@ + label + "\", shape="@ + shape_of(o.id.typename)
        + ", fillcolor=\""@ + color_of(o.id.typename) + "\"];\n"@ + edge_lines(nid, o.refs)
}

/// The node and edge lines of every object, in table order.
pub open spec fn node_blocks(objs: Seq<ObjectModel>, renders: Map<Seq<char>, Seq<char>>) -> Seq<
    char,
>
    decreases objs.len(),
{
    if objs.len() == 0 {
        Seq::empty()
    } else {
        node_block(objs[0], renders) + node_blocks(objs.drop_first(), renders)
    }
}

/// The whole graph text: a fixed header, one block per object, and the
/// closing brace.
pub open spec fn dot_text(objs: Seq<ObjectModel>, renders: Map<Seq<char>, Seq<char>>) -> Seq<
    char,
> {
    "digraph Oblique { \n"@ + "  rankdir=LR;\n"@
        + "  node [shape=box, style=filled, fillcolor=white, fontname=\"Arial\"];\n"@
        + "  edge [color=\"#888888\"];\n"@ + node_blocks(objs, renders) + "}\n"@
}

fn shape_exec(t: &String) -> (r: &'static str)
    ensures
        r@ == shape_of(t@),
{
    if *t == "q".to_owned() {
        "folder"
    } else if *t == "p".to_owned() {
        "component"
    } else if *t == "u".to_owned() {
        "ellipse"
    } else if *t == "t".to_owned() {
        "note"
    } else if *t == "b".to_owned() {
        "diamond"
    } else if *t == "m".to_owned() {
        "hexagon"
    } else if *t == "item".to_owned() {
        "plaintext"
    } else {
        "box"
    }
}

fn color_exec(t: &String) -> (r: &'static str)
    ensures
        r@ == color_of(t@),
{
    if *t == "q".to_owned() {
        "#E6F3FF"
    } else if *t == "p".to_owned() {
        "#EEEEEE"
    } else if *t == "u".to_owned() {
        "#FFF9C4"
    } else if *t == "t".to_owned() {
        "#FFFFFF"
    } else if *t == "b".to_owned() {
        "#FFCDD2"
    } else if *t == "m".to_owned() {
        "#C8E6C9"
    } else if *t == "item".to_owned() {
        "white"
    } else {
        "white"
    }
}

/// The graph-description text of a database's object graph.
#[verifier::rlimit(100)]
pub fn generate_dot(db: &Database) -> (r: String)
    ensures
        r@ == dot_text(db@.objects, db@.renders),
{
    let mut out = "digraph Oblique { \n".to_owned();
    out.append("  rankdir=LR;\n");
    out.append("  node [shape=box, style=filled, fillcolor=white, fontname=\"Arial\"];\n");
    out.append("  edge [color=\"#888888\"];\n");
    let ghost header = out@;
    let ghost ov = db@.objects;
    let n = db.objects.len();
    let mut i: usize = 0;
    proof {
        assert(ov.skip(0) =~= ov);
        assert(out@ + node_blocks(ov, db@.renders) =~= header + node_blocks(ov, db@.renders));
    }
    while i < n
        invariant
            0 <= i <= n == db.objects@.len(),
            ov == db@.objects,
            out@ + node_blocks(ov.skip(i as int), db@.renders) == header + node_blocks(
                ov,
                db@.renders,
            ),
        decreases n - i,
    {
        proof {
            assert(ov.skip(i as int)[0] == ov[i as int]);
            assert(ov[i as int] == db.objects@[i as int]@);
            assert(ov.skip(i as int).drop_first() =~= ov.skip(i as int + 1));
        }
        let o = &db.objects[i];
        let idstr = match &o.id.ident {
            Some(s) => s.clone(),
            None => String::new(),
        };
        let nid = sanitize_id(o.id.typename.as_str(), idstr.as_str());
        let rendered = db.render_system.render(o.id.typename.as_str(), idstr.as_str());
        let contents_chars = chars_of(o.contents.as_str());
        let preview = if contents_chars.len() > 40 {
            let mut p = string_of_range(&contents_chars, 0, 40);
            p.append("...");
            p
        } else {
            o.contents.clone()
        };
        let mut label_src = rendered;
        label_src.append(preview.as_str());
        let label = escape_quotes_exec(label_src.as_str());
        out.append("  ");
        out.append(nid.as_str());
        out.append(" [label=\"");
        out.append(label.as_str());
        out.append("\", shape=");
        out.append(shape_exec(&o.id.typename));
        out.append(", fillcolor=\"");
        out.append(color_exec(&o.id.typename));
        out.append("\"];\n");
        proof {
            assert(ident_text(ov[i as int].id) == idstr@);
        }
        let ghost nidv = nid@;
        let ghost before_edges = out@;
        let refs = &o.refs;
        let m = refs.len();
        let ghost rv = ov[i as int].refs;
        let mut j: usize = 0;
        proof {
            assert(rv.skip(0) =~= rv);
        }
        while j < m
            invariant
                0 <= j <= m == refs@.len(),
                rv == crate::ast::refs_view(refs@),
                nidv == nid@,
                out@ + edge_lines(nidv, rv.skip(j as int)) == before_edges + edge_lines(nidv, rv),
            decreases m - j,
        {
            proof {
                assert(rv.skip(j as int)[0] == rv[j as int]);
                assert(rv[j as int] == refs@[j as int]@);
                assert(rv.skip(j as int).drop_first() =~= rv.skip(j as int + 1));
            }
            let target = sanitize_id(refs[j].typename.as_str(), refs[j].ident.as_str());
            out.append("  ");
            out.append(nid.as_str());
            out.append(" -> ");
            out.append(target.as_str());
            out.append(";\n");
            proof {
                assert(out@ + edge_lines(nidv, rv.skip(j + 1)) =~= before_edges + edge_lines(
                    nidv,
                    rv,
                ));
            }
            j = j + 1;
        }
        proof {
            assert(rv.skip(m as int).len() == 0);
            assert(edge_lines(nidv, rv.skip(m as int)) =~= Seq::<char>::empty());
            assert(out@ =~= before_edges + edge_lines(nidv, rv));
            assert(node_block(ov[i as int], db@.renders) == "  "@ + nidv + " [label=\""@
                + escape_quotes(
                render_spec(db@.renders, ov[i as int].id.typename, idstr@) + preview_of(
                    ov[i as int].contents,
                ),
            ) + "\", shape="@ + shape_of(ov[i as int].id.typename) + ", fillcolor=\""@ + color_of(
                ov[i as int].id.typename,
            ) + "\"];\n"@ + edge_lines(nidv, rv));
            assert(out@ + node_blocks(ov.skip(i + 1), db@.renders) =~= header + node_blocks(
                ov,
                db@.renders,
            ));
        }
        i = i + 1;
    }
    proof {
        assert(node_blocks(ov.skip(n as int), db@.renders) =~= Seq::<char>::empty());
        assert(out@ =~= header + node_blocks(ov, db@.renders));
    }
    let mut out2 = out;
    out2.append("}\n");
    proof {
        assert(out2@ =~= dot_text(db@.objects, db@.renders));
    }
    out2
}

} // verus!
