use oblique::{
    generate_dot, parse_string, parse_with_files, sanitize_id, Database, Error, ObjectId,
    ParseOutcome, RenderSystem, SourceFile, Token, TypeFlavor,
};

// Strict references resolve exactly when their target exists.
#[test]
fn test_strict_reference_resolved() {
    let input = r#"
    /type/t Thing
    t/a First
    t/b Points at t/a
    "#;
    let mut db = Database::new();
    let (types, objects, _) = parse_string(input).unwrap();
    for t in types {
        db.add_type(t);
    }
    for o in objects {
        db.add_object(o).unwrap();
    }
    db.resolve_references().unwrap();

    let b = db
        .get_object(&ObjectId { typename: "t".to_string(), ident: Some("b".to_string()) })
        .unwrap();
    assert!(b.refs.iter().any(|r| r.typename == "t" && r.ident == "a"));
    assert!(b.unresolved_refs.is_empty());
}

#[test]
fn test_strict_reference_unresolved() {
    let input = r#"
    /type/t Thing
    t/b Points at t/missing
    "#;
    let mut db = Database::new();
    let (types, objects, _) = parse_string(input).unwrap();
    for t in types {
        db.add_type(t);
    }
    for o in objects {
        db.add_object(o).unwrap();
    }
    db.resolve_references().unwrap();

    let b = db
        .get_object(&ObjectId { typename: "t".to_string(), ident: Some("b".to_string()) })
        .unwrap();
    assert!(b.refs.is_empty());
    assert!(b.unresolved_refs.iter().any(|r| r.typename == "t" && r.ident == "missing"));
    // no object was created for the strict miss
    assert!(!db.contains_object(&ObjectId {
        typename: "t".to_string(),
        ident: Some("missing".to_string()),
    }));
}

// A reference to a type that was never declared fails resolution.
#[test]
fn test_undeclared_type_error() {
    let input = r#"
    /type/t Thing
    t/1 see x/2
    "#;
    let mut db = Database::new();
    let (types, objects, _) = parse_string(input).unwrap();
    for t in types {
        db.add_type(t);
    }
    for o in objects {
        db.add_object(o).unwrap();
    }
    let r = db.resolve_references();
    match r {
        Err(Error::InvalidType(t, i, _)) => {
            assert_eq!(t, "x");
            assert_eq!(i, "2");
        },
        _ => panic!("Expected InvalidType error, got {:?}", r),
    }
}

// Automatically assigned identifiers count up from 1, per type name.
#[test]
fn test_auto_ident_assignment() {
    let input = r#"
    First one
    Second one
    /type/p Project
    p/ something
    "#;
    let mut db = Database::new();
    let (types, objects, _) = parse_string(input).unwrap();
    for t in types {
        db.add_type(t);
    }
    for o in objects {
        db.add_object(o).unwrap();
    }
    assert!(db.contains_object(&ObjectId {
        typename: "item".to_string(),
        ident: Some("1".to_string()),
    }));
    assert!(db.contains_object(&ObjectId {
        typename: "item".to_string(),
        ident: Some("2".to_string()),
    }));
    assert!(db.contains_object(&ObjectId {
        typename: "p".to_string(),
        ident: Some("1".to_string()),
    }));
}

// Declaration-time errors.
#[test]
fn test_macro_invalid_pattern() {
    let r = parse_string("/macro ( x");
    match r {
        Err(Error::InvalidMacroPattern(p)) => assert_eq!(p, "("),
        _ => panic!("Expected InvalidMacroPattern, got {:?}", r),
    }
}

#[test]
fn test_macro_missing_replacement() {
    let r = parse_string("/macro onlypattern");
    assert!(matches!(r, Err(Error::Parse { line: 1, .. })));
}

#[test]
fn test_render_missing_name() {
    let r = parse_string("/render");
    assert!(matches!(r, Err(Error::Parse { line: 1, .. })));
}

#[test]
fn test_import_missing_name() {
    let r = parse_string("/import");
    assert!(matches!(r, Err(Error::Parse { line: 1, .. })));
}

// Rendering: template substitution and fallback.
#[test]
fn test_render_template() {
    let mut rs = RenderSystem::new();
    rs.add_render("p", "Project: \\1");
    assert_eq!(rs.render("p", "alpha"), "Project: alpha");
}

#[test]
fn test_render_fallback() {
    let rs = RenderSystem::new();
    assert_eq!(rs.render("p", "alpha"), "p/alpha");
}

#[test]
fn test_render_via_parse() {
    let input = "/render p <a href=\"/project/\\1\">\\1</a>";
    let (_, _, renders) = parse_string(input).unwrap();
    assert_eq!(renders.render("p", "alpha"), "<a href=\"/project/alpha\">alpha</a>");
}

// Imports through the file table.
#[test]
fn test_import_via_table() {
    let files = vec![SourceFile {
        path: "lib/defs.oblique".to_string(),
        content: Some("/type/p Project\np/alpha Project Alpha\n/macro \\bPROJ\\b p/alpha".to_string()),
    }];
    let input = "/import defs.oblique\nq/1 uses PROJ";
    match parse_with_files(input, Some("lib"), &files) {
        ParseOutcome::Done(Ok((types, objects, _))) => {
            assert!(types.iter().any(|t| t.name == "p"));
            // the imported object and the importer's object are both there
            assert!(objects.iter().any(|o| o.id.typename == "p"));
            let q = objects.iter().find(|o| o.id.typename == "q").unwrap();
            // the imported macro stayed active after the import
            assert!(q.unresolved_refs.iter().any(|r| r.typename == "p" && r.ident == "alpha"));
        },
        other => panic!("Expected successful parse, got {:?}", outcome_name(&other)),
    }
}

#[test]
fn test_need_file() {
    let files: Vec<SourceFile> = Vec::new();
    match parse_with_files("/import x.oblique", None, &files) {
        ParseOutcome::NeedFile(p) => assert_eq!(p, "x.oblique"),
        other => panic!("Expected NeedFile, got {:?}", outcome_name(&other)),
    }
}

#[test]
fn test_known_missing_file() {
    let files = vec![SourceFile { path: "x.oblique".to_string(), content: None }];
    match parse_with_files("/import x.oblique", None, &files) {
        ParseOutcome::Done(Err(Error::Import(p, _))) => assert_eq!(p, "x.oblique"),
        other => panic!("Expected Import error, got {:?}", outcome_name(&other)),
    }
}

#[test]
fn test_cyclic_import() {
    let files = vec![SourceFile {
        path: "a.oblique".to_string(),
        content: Some("/import a.oblique".to_string()),
    }];
    match parse_with_files("/import a.oblique", None, &files) {
        ParseOutcome::Done(Err(Error::Import(_, cause))) => {
            assert!(matches!(*cause, Error::CyclicImport(_)));
        },
        other => panic!("Expected CyclicImport inside Import, got {:?}", outcome_name(&other)),
    }
}

fn outcome_name(o: &ParseOutcome) -> String {
    match o {
        ParseOutcome::Done(Ok(_)) => "Done(Ok)".to_string(),
        ParseOutcome::Done(Err(e)) => format!("Done(Err({:?}))", e),
        ParseOutcome::NeedFile(p) => format!("NeedFile({})", p),
    }
}

// Tokenizer shapes.
#[test]
fn test_tokenize_basic() {
    let toks = oblique::tokenize_line("task/conquer Conquer the world");
    assert_eq!(toks.len(), 5);
    assert!(matches!(&toks[0], Token::Reference { typename, ident }
        if typename == "task" && ident == "conquer"));
    assert!(matches!(&toks[1], Token::Word(w) if w == "Conquer"));
    assert!(matches!(&toks[4], Token::EOL));
}

#[test]
fn test_tokenize_declarations() {
    let toks = oblique::tokenize_line("/lazytype/user The users");
    assert!(matches!(&toks[0], Token::LazyTypeDecl(n) if n == "user"));
    let toks2 = oblique::tokenize_line("# a comment");
    assert!(matches!(&toks2[0], Token::Comment(c) if c == " a comment"));
    let toks3 = oblique::tokenize_line("   ");
    assert!(matches!(&toks3[0], Token::EOL));
}

// Types: re-declaring a name overwrites its flavor.
#[test]
fn test_type_redeclaration() {
    let mut db = Database::new();
    db.add_type(oblique::Type {
        name: "x".to_string(),
        contents: "first".to_string(),
        flavor: TypeFlavor::Strict,
        lineno: None,
    });
    db.add_type(oblique::Type {
        name: "x".to_string(),
        contents: "second".to_string(),
        flavor: TypeFlavor::Ignore,
        lineno: None,
    });
    assert_eq!(db.get_type_flavor("x"), Some(TypeFlavor::Ignore));
    assert_eq!(db.get_type_flavor("item"), Some(TypeFlavor::Lazy));
    assert_eq!(db.get_type_flavor("unknown"), None);
}

// Graph text.
#[test]
fn test_sanitize_id() {
    assert_eq!(sanitize_id("a b", "c/d"), "a_b_c_d");
    assert_eq!(sanitize_id("task", "conquer"), "task_conquer");
}

#[test]
fn test_generate_dot_empty() {
    let db = Database::new();
    let expected = "digraph Oblique { \n  rankdir=LR;\n  node [shape=box, style=filled, fillcolor=white, fontname=\"Arial\"];\n  edge [color=\"#888888\"];\n}\n";
    assert_eq!(generate_dot(&db), expected);
}

#[test]
fn test_generate_dot_node() {
    let mut db = Database::new();
    let (types, objects, _) = parse_string("item/1 hello").unwrap();
    for t in types {
        db.add_type(t);
    }
    for o in objects {
        db.add_object(o).unwrap();
    }
    db.resolve_references().unwrap();
    let dot = generate_dot(&db);
    assert!(dot.contains("  item_1 [label=\"item/1hello\", shape=plaintext, fillcolor=\"white\"];\n"));
}

// Resolving twice is the same as resolving once.
#[test]
fn test_resolution_idempotent() {
    let input = r#"
    /lazytype/u User
    /type/s Strict
    u/1 see u/2 and s/miss
    "#;
    let mut db = Database::new();
    let (types, objects, _) = parse_string(input).unwrap();
    for t in types {
        db.add_type(t);
    }
    for o in objects {
        db.add_object(o).unwrap();
    }
    db.resolve_references().unwrap();
    assert_eq!(db.objects.len(), 2); // u/1 and the created u/2

    // a second pass succeeds and changes nothing
    db.resolve_references().unwrap();
    assert_eq!(db.objects.len(), 2);
    let u1 = db
        .get_object(&ObjectId { typename: "u".to_string(), ident: Some("1".to_string()) })
        .unwrap();
    assert_eq!(u1.refs.len(), 1);
    assert!(u1.refs.iter().any(|r| r.typename == "u" && r.ident == "2"));
    assert_eq!(u1.unresolved_refs.len(), 1);
    assert!(u1.unresolved_refs.iter().any(|r| r.typename == "s" && r.ident == "miss"));
}

// A non-breaking space is whitespace to the tokenizer, as it is to the
// usual trimming and regex whitespace classes.
#[test]
fn test_unicode_whitespace_separates_tokens() {
    let toks = oblique::tokenize_line("one\u{00A0}two");
    assert_eq!(toks.len(), 3);
    assert!(matches!(&toks[0], Token::Word(w) if w == "one"));
    assert!(matches!(&toks[1], Token::Word(w) if w == "two"));
    assert!(matches!(&toks[2], Token::EOL));
}
