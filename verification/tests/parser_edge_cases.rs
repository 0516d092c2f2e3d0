use oblique::{parse_string, TypeFlavor};

#[test]
fn test_ignore_type() {
    let input = r#"
    /ignore/link External Link
    item/1 Check link/google
    "#;

    let (types, objects, _) = parse_string(input).unwrap();

    // Check type flavor
    let link_type = types.iter().find(|t| t.name == "link").unwrap();
    assert_eq!(link_type.flavor, TypeFlavor::Ignore);

    // After resolution, references to an ignore-flavored type appear in
    // neither the resolved nor the unresolved set.
    let mut db = oblique::Database::new();
    for t in types {
        db.add_type(t);
    }
    for o in objects {
        db.add_object(o).unwrap();
    }

    db.resolve_references().unwrap();

    let obj = &db.objects[0];
    assert!(obj.refs.is_empty());
    assert!(obj.unresolved_refs.is_empty());
}

#[test]
fn test_auto_reference_syntax() {
    let input = r#"
    /type/p Project
    p/ Project content
    "#;

    let (_, objects, _) = parse_string(input).unwrap();
    assert_eq!(objects.len(), 1);
    let obj = &objects[0];
    assert_eq!(obj.id.typename, "p");
    assert_eq!(obj.id.ident, None);
    assert_eq!(obj.contents, "Project content");
}

#[test]
fn test_default_item_syntax() {
    let input = r#"
    Just a simple item
    "#;

    let (_, objects, _) = parse_string(input).unwrap();
    assert_eq!(objects.len(), 1);
    let obj = &objects[0];
    assert_eq!(obj.id.typename, "item");
    assert_eq!(obj.id.ident, None);
    assert_eq!(obj.contents, "Just a simple item");
}

#[test]
fn test_empty_input() {
    let input = "";
    let (types, objects, _) = parse_string(input).unwrap();
    assert_eq!(types.len(), 1); // Default item type
    assert!(objects.is_empty());
}
