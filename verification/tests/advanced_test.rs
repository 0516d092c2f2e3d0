use oblique::{parse_string, Database, Error, ObjectId};

// Macro chaining
#[test]
fn test_macro_chaining() {
    // Macros are applied in order of definition.
    // A -> B, then B -> C. Input "A" should become "C".
    let input = r#"
    /macro A B
    /macro B C
    A
    "#;

    let (_, objects, _) = parse_string(input).unwrap();
    assert_eq!(objects.len(), 1);
    // A bare word is an object of the default "item" type.
    assert_eq!(objects[0].contents, "C");
}

// Lazy references
#[test]
fn test_lazy_references() {
    let input = r#"
    /lazytype/u User
    u/1 references u/2
    "#;

    let mut db = Database::new();
    let (types, objects, _) = parse_string(input).unwrap();

    for t in types {
        db.add_type(t);
    }
    for o in objects {
        db.add_object(o).unwrap();
    }

    // This should resolve u/2 and create it because it is Lazy
    db.resolve_references().unwrap();

    let u1_id = ObjectId { typename: "u".to_string(), ident: Some("1".to_string()) };
    let u2_id = ObjectId { typename: "u".to_string(), ident: Some("2".to_string()) };

    assert!(db.contains_object(&u1_id));
    assert!(db.contains_object(&u2_id));

    let u1 = db.get_object(&u1_id).unwrap();
    // Verify u1 refers to u2
    assert!(u1.refs.iter().any(|r| r.typename == "u" && r.ident == "2"));
}

// Indentation hierarchy
#[test]
fn test_indentation_hierarchy() {
    let input = r#"
    /type/node Node
    node/1 Root
        node/2 Child
            node/3 Grandchild
    "#;

    let mut db = Database::new();
    let (types, objects, _) = parse_string(input).unwrap();

    for t in types {
        db.add_type(t);
    }
    for o in objects {
        db.add_object(o).unwrap();
    }
    db.resolve_references().unwrap();

    let _n1_id = ObjectId { typename: "node".to_string(), ident: Some("1".to_string()) };
    let n2_id = ObjectId { typename: "node".to_string(), ident: Some("2".to_string()) };
    let n3_id = ObjectId { typename: "node".to_string(), ident: Some("3".to_string()) };

    let n2 = db.get_object(&n2_id).unwrap();
    let n3 = db.get_object(&n3_id).unwrap();

    // Indentation stack logic:
    // node/1 (indent 4) -> pushed to stack
    //   node/2 (indent 8) -> parent is node/1
    //     node/3 (indent 12) -> parent is node/2

    assert!(n2.refs.iter().any(|r| r.typename == "node" && r.ident == "1"));
    assert!(n3.refs.iter().any(|r| r.typename == "node" && r.ident == "2"));

    // n3 should NOT refer to n1 directly
    assert!(!n3.refs.iter().any(|r| r.typename == "node" && r.ident == "1"));
}

// Regex macros with capture groups
#[test]
fn test_complex_regex_macros() {
    let input = r#"
    /macro \buser_(\d+)\b u/\1
    user_123
    "#;

    let (_, objects, _) = parse_string(input).unwrap();
    assert_eq!(objects.len(), 1);
    let obj = &objects[0];

    // Expect "u/123" to be parsed as a Reference, not a Word
    assert_eq!(obj.id.typename, "u");
    assert_eq!(obj.id.ident, Some("123".to_string()));
}

// Error handling
#[test]
fn test_duplicate_definition_error() {
    let input = r#"
    /type/t T
    t/1 First definition
    t/1 Second definition
    "#;

    let mut db = Database::new();
    let (types, objects, _) = parse_string(input).unwrap();

    for t in types {
        db.add_type(t);
    }

    // First add should succeed
    db.add_object(objects[0].clone()).unwrap();

    // Second add should fail
    let result = db.add_object(objects[1].clone());

    match result {
        Err(Error::DuplicateDefinition(t, i, _)) => {
            assert_eq!(t, "t");
            assert_eq!(i, "1");
        },
        _ => panic!("Expected DuplicateDefinition error, got {:?}", result),
    }
}

#[test]
fn test_nested_import_error() {
    // An import of a file that cannot be found fails with the import error.
    let input = r#"
    /import non_existent_file.oblique
    "#;

    let result = parse_string(input);

    match result {
        Err(Error::Import(path, cause)) => {
            assert_eq!(path, "non_existent_file.oblique");
            assert!(matches!(*cause, Error::Io(_)));
        },
        _ => panic!("Expected Import error, got {:?}", result),
    }
}
