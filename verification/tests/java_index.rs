use patchquilt::java::index::{build_index_from, SourceFile};

fn file(path: &str, source: &str) -> SourceFile {
    SourceFile { relative_path: path.to_string(), source: source.to_string() }
}

#[test]
fn index_orders_types_by_qualified_name() {
    let index = build_index_from(
        vec![
            file("b/Zeta.java", "package b; class Zeta { class Inner { } }"),
            file("a/Alpha.java", "package a; class Alpha { }"),
            file("c/Empty.java", "// nothing here"),
        ],
        "26.2",
    );
    assert_eq!(index.source_version, "26.2");
    assert_eq!(index.file_count, 3);
    let names: Vec<&str> = index.types.iter().map(|t| t.qualified_name.as_str()).collect();
    assert_eq!(names, vec!["Alpha", "Zeta", "Zeta.Inner"]);
    assert_eq!(index.types[0].file, "a/Alpha.java");
    assert_eq!(index.types[1].package, "b");
}

#[test]
fn equal_names_keep_the_order_their_files_came_in() {
    let index = build_index_from(
        vec![
            file("x/Dup.java", "package x; class Dup { int first; }"),
            file("y/Dup.java", "package y; class Dup { int second; }"),
        ],
        "v",
    );
    assert_eq!(index.types.len(), 2);
    assert_eq!(index.types[0].package, "x");
    assert_eq!(index.types[1].package, "y");
}

#[test]
fn empty_tree_gives_an_empty_index() {
    let index = build_index_from(Vec::new(), "");
    assert_eq!(index.file_count, 0);
    assert!(index.types.is_empty());
}
