use lance_vamana::field::{Field, SchemaError};

fn leaf(name: &str, logical_type: &str) -> Field {
    Field::new(name, logical_type, true, vec![])
}

fn names(f: &Field) -> Vec<String> {
    f.children.iter().map(|c| c.name.clone()).collect()
}

#[test]
fn test_field_intersection() {
    let f1 = leaf("a", "int32");
    let f2 = leaf("a", "int32");
    let i1 = f1.intersection(&f2).unwrap();

    assert_eq!(i1, f1);

    let f3 = leaf("b", "int32");
    assert!(f1.intersection(&f3).is_err());
}

#[test]
fn test_struct_field_intersection() {
    let f1 = Field::new("a", "struct", true, vec![leaf("b", "int32"), leaf("c", "int32")]);
    let f2 = Field::new("a", "struct", true, vec![leaf("c", "int32"), leaf("a", "int32")]);
    let actual = f1.intersection(&f2).unwrap();

    let expected = Field::new("a", "struct", true, vec![leaf("c", "int32")]);
    assert_eq!(actual, expected);
}

#[test]
fn intersection_errors_name_the_mismatch() {
    assert_eq!(leaf("a", "int32").intersection(&leaf("b", "int32")), Err(SchemaError::NameMismatch));
    assert_eq!(leaf("a", "int32").intersection(&leaf("a", "int64")), Err(SchemaError::TypeMismatch));
    let l1 = Field::new("l", "list", true, vec![leaf("item", "int32")]);
    let l2 = Field::new("l", "list", true, vec![leaf("item", "int64")]);
    assert_eq!(l1.intersection(&l2), Err(SchemaError::TypeMismatch));
    assert_eq!(l1.intersection(&l1.duplicate()).unwrap(), l1);
}

#[test]
fn child_finds_first_by_name() {
    let f = Field::new("s", "struct", false, vec![leaf("x", "int32"), leaf("y", "utf8"), leaf("x", "int64")]);
    assert_eq!(f.child("y").unwrap().logical_type, "utf8");
    assert_eq!(f.child("x").unwrap().logical_type, "int32");
    assert!(f.child("z").is_none());
}

#[test]
fn child_mut_changes_in_place() {
    let mut f = Field::new("s", "struct", false, vec![leaf("x", "int32"), leaf("y", "utf8")]);
    f.child_mut("y").unwrap().nullable = false;
    assert!(!f.children[1].nullable);
    assert!(f.children[0].nullable);
    assert!(f.child_mut("none").is_none());
}

#[test]
fn sub_field_follows_path() {
    let inner = Field::new("b", "struct", true, vec![leaf("c", "int32")]);
    let f = Field::new("a", "struct", true, vec![inner, leaf("d", "int8")]);
    assert_eq!(f.sub_field(&[]).unwrap().name, "a");
    assert_eq!(f.sub_field(&["b", "c"]).unwrap().name, "c");
    assert_eq!(f.sub_field(&["d"]).unwrap().logical_type, "int8");
    assert!(f.sub_field(&["b", "x"]).is_none());
}

#[test]
fn project_keeps_branch() {
    let inner = Field::new("b", "struct", true, vec![leaf("c", "int32"), leaf("e", "int32")]);
    let f = Field::new("a", "struct", true, vec![inner, leaf("d", "int8")]);
    let p = f.project(&["b"]).unwrap();
    assert_eq!(names(&p), vec!["b"]);
    assert_eq!(names(&p.children[0]), vec!["c", "e"]);
    let p = f.project(&["b", "e"]).unwrap();
    assert_eq!(names(&p.children[0]), vec!["e"]);
    let p = f.project(&["zz"]).unwrap();
    assert!(p.children.is_empty());
    assert_eq!(f.project(&[]).unwrap(), f);
}

#[test]
fn exclude_removes_fields() {
    let f = Field::new("a", "struct", true, vec![leaf("b", "int32"), leaf("c", "int32")]);
    let other = Field::new("a", "struct", true, vec![leaf("b", "int32")]);
    let left = f.exclude(&other).unwrap();
    assert_eq!(names(&left), vec!["c"]);
    assert!(f.exclude(&f.duplicate()).is_none());
    assert!(leaf("x", "int32").exclude(&leaf("x", "int32")).is_none());
}

#[test]
fn merge_adds_and_descends() {
    let mut f = Field::new("a", "struct", true, vec![Field::new("s", "struct", true, vec![leaf("x", "int32")])]);
    let other = Field::new(
        "a",
        "struct",
        true,
        vec![Field::new("s", "struct", true, vec![leaf("y", "int32")]), leaf("z", "int8")],
    );
    assert!(f.merge(&other).is_ok());
    assert_eq!(names(&f), vec!["s", "z"]);
    assert_eq!(names(&f.children[0]), vec!["x", "y"]);
}

#[test]
fn set_id_numbers_in_pre_order_and_max_id() {
    let mut f = Field::new(
        "a",
        "struct",
        true,
        vec![Field::new("b", "struct", true, vec![leaf("c", "int32")]), leaf("d", "int8")],
    );
    assert_eq!(f.max_id(), -1);
    let mut seed = 0;
    f.set_id(-1, &mut seed);
    assert_eq!(seed, 4);
    assert_eq!(f.id, 0);
    assert_eq!(f.parent_id, -1);
    assert_eq!(f.children[0].id, 1);
    assert_eq!(f.children[0].children[0].id, 2);
    assert_eq!(f.children[0].children[0].parent_id, 1);
    assert_eq!(f.children[1].id, 3);
    assert_eq!(f.children[1].parent_id, 0);
    assert_eq!(f.max_id(), 3);
    let mut seed = 10;
    f.set_id(-1, &mut seed);
    assert_eq!(seed, 10);
    assert_eq!(f.max_id(), 3);
}

#[test]
fn mut_field_by_id_finds_descendant() {
    let mut f = Field::new(
        "a",
        "struct",
        true,
        vec![Field::new("b", "struct", true, vec![leaf("c", "int32")]), leaf("d", "int8")],
    );
    let mut seed = 0;
    f.set_id(-1, &mut seed);
    f.mut_field_by_id(2).unwrap().nullable = false;
    assert!(!f.children[0].children[0].nullable);
    assert_eq!(f.mut_field_by_id(3).unwrap().name, "d");
    assert!(f.mut_field_by_id(0).is_none());
    assert!(f.mut_field_by_id(9).is_none());
}
