use changesets::{Change, ChangeType, ParsingError, UniqueId, Versioning, BuildVersioningError};

#[test]
fn test_create_unique_id() {
    assert_eq!(
        UniqueId::from("`[i carry your heart with me(i carry it in]`").to_string(),
        "i_carry_your_heart_with_mei_carry_it_in"
    );
}

#[test]
fn create_change() {
    let basic_programmatic = Change {
        unique_id: UniqueId::exact("basic_programmatic"),
        versioning: Versioning::from(("my_package", ChangeType::Minor)),
        summary: String::from("### This is a summary"),
    };

    let multiple_packages = Change {
        unique_id: UniqueId::exact("multiple_packages"),
        versioning: Versioning::try_from_iter(vec![
            ("my_package".to_string(), ChangeType::Minor),
            ("my_other_package".to_string(), ChangeType::Major),
        ])
        .unwrap(),
        summary: String::from("### This is a summary"),
    };

    assert_eq!(basic_programmatic.unique_id.to_file_name(), "basic_programmatic.md");
    assert_eq!(multiple_packages.unique_id.to_file_name(), "multiple_packages.md");

    let contents = basic_programmatic.to_string();
    assert_eq!(
        contents,
        "---\nmy_package: minor\n---\n\n### This is a summary\n"
    );

    let contents = multiple_packages.to_string();
    // Order of packages is not guaranteed, they are semantically the same in YAML
    let first_possibility =
        "---\nmy_package: minor\nmy_other_package: major\n---\n\n### This is a summary\n";
    let second_possibility =
        "---\nmy_other_package: major\nmy_package: minor\n---\n\n### This is a summary\n";
    assert!(
        contents == first_possibility || contents == second_possibility,
        "Contents were not as expected: {}",
        contents
    );
}

#[test]
fn load_change() {
    let file_name = "a_change.md";
    let contents = "---\nmy_package: minor\n---\n\n### This is a summary\n";

    let unique_id = UniqueId::from_file_name(file_name).unwrap();
    let change = Change::from_str(unique_id, contents).unwrap();

    assert_eq!(change.unique_id.to_string(), "a_change");
    assert_eq!(change.summary, "### This is a summary");
    assert_eq!(
        change.versioning,
        Versioning::from(("my_package", ChangeType::Minor))
    );
}

#[test]
fn entries_are_sorted_by_package_name() {
    let v = Versioning::try_from_iter(vec![
        ("b".to_string(), ChangeType::Minor),
        ("a".to_string(), ChangeType::Major),
        ("c".to_string(), ChangeType::Patch),
    ])
    .unwrap();
    let names: Vec<&str> = v.iter().iter().map(|(n, _)| n.as_str()).collect();
    assert_eq!(names, vec!["a", "b", "c"]);
    assert_eq!(v.len(), 3);
    assert!(!v.is_empty());
}

#[test]
fn later_pair_wins() {
    let v = Versioning::try_from_iter(vec![
        ("a".to_string(), ChangeType::Minor),
        ("a".to_string(), ChangeType::Major),
    ])
    .unwrap();
    assert_eq!(v.len(), 1);
    assert_eq!(v.iter()[0].1, ChangeType::Major);
}

#[test]
fn empty_versioning_is_refused() {
    assert_eq!(
        Versioning::try_from_iter(vec![]),
        Err(BuildVersioningError::EmptyVersioningError)
    );
    assert_eq!(
        BuildVersioningError::EmptyVersioningError.to_string(),
        "Versioning needs to contain at least one item."
    );
}

#[test]
fn change_type_labels() {
    assert_eq!(ChangeType::from("patch"), ChangeType::Patch);
    assert_eq!(ChangeType::from("minor"), ChangeType::Minor);
    assert_eq!(ChangeType::from("major"), ChangeType::Major);
    assert_eq!(ChangeType::from("docs"), ChangeType::Custom("docs".to_string()));
    assert_eq!(ChangeType::from("Major"), ChangeType::Custom("Major".to_string()));
    assert_eq!(ChangeType::Minor.to_string(), "minor");
    assert_eq!(ChangeType::Custom("docs".to_string()).to_string(), "docs");
}

#[test]
fn change_type_order() {
    let custom = ChangeType::Custom("docs".to_string());
    assert!(custom < ChangeType::Patch);
    assert!(ChangeType::Patch < ChangeType::Minor);
    assert!(ChangeType::Minor < ChangeType::Major);
    assert!(!(ChangeType::Major < ChangeType::Minor));
    assert!(!(custom < ChangeType::Custom("other".to_string())));
    assert_eq!(
        custom.partial_cmp(&ChangeType::Custom("other".to_string())),
        Some(std::cmp::Ordering::Equal)
    );
    assert_eq!(ChangeType::Major.rank(), 3);
}

fn parse(content: &str) -> Result<Change, ParsingError> {
    Change::from_str(UniqueId::exact("id"), content)
}

#[test]
fn missing_front_matter() {
    assert_eq!(parse("").unwrap_err(), ParsingError::MissingFrontMatter);
    assert_eq!(parse("hello\n---\n").unwrap_err(), ParsingError::MissingFrontMatter);
}

#[test]
fn invalid_front_matter() {
    // A line without a colon.
    assert_eq!(parse("---\nno colon\n---\n").unwrap_err(), ParsingError::InvalidFrontMatter);
    // No closing fence.
    assert_eq!(parse("---\na: minor\n").unwrap_err(), ParsingError::InvalidFrontMatter);
    // A package named twice.
    assert_eq!(
        parse("---\na: minor\na: major\n---\n\nsummary\n").unwrap_err(),
        ParsingError::InvalidFrontMatter
    );
    assert_eq!(ParsingError::InvalidFrontMatter.to_string(), "invalid front matter");
    assert_eq!(ParsingError::MissingFrontMatter.to_string(), "missing front matter");
}

#[test]
fn empty_front_matter() {
    let err = parse("---\n---\nsummary\n").unwrap_err();
    assert_eq!(
        err,
        ParsingError::InvalidVersioning(BuildVersioningError::EmptyVersioningError)
    );
    assert_eq!(
        err.to_string(),
        "invalid front matter: Versioning needs to contain at least one item."
    );
}

#[test]
fn parsing_trims_and_keeps_the_body() {
    let change = parse(" --- \r\n  pkg :  major  \r\n---\r\n\r\n  \nfirst\n\nsecond\n").unwrap();
    assert_eq!(change.versioning, Versioning::from(("pkg", ChangeType::Major)));
    assert_eq!(change.summary, "first\n\nsecond");
    // Everything after the first colon is the change type.
    let change = parse("---\npkg: a:b\n---\n").unwrap();
    assert_eq!(change.versioning, Versioning::from(("pkg", ChangeType::Custom("a:b".to_string()))));
    assert_eq!(change.summary, "");
}

#[test]
fn written_change_reads_back() {
    let change = Change {
        unique_id: UniqueId::exact("round"),
        versioning: Versioning::try_from_iter(vec![
            ("zeta".to_string(), ChangeType::Patch),
            ("alpha".to_string(), ChangeType::Custom("docs".to_string())),
        ])
        .unwrap(),
        summary: String::from("Line one\n\nLine two"),
    };
    let text = change.to_string();
    let read = Change::from_str(UniqueId::exact("round"), &text).unwrap();
    assert_eq!(read, change);
}

#[test]
fn file_names() {
    let id = UniqueId::exact("my_change");
    assert_eq!(id.to_file_name(), "my_change.md");
    assert_eq!(UniqueId::from_file_name(&id.to_file_name()), Some(id));
    assert_eq!(UniqueId::from_file_name("notes.txt"), None);
    assert_eq!(UniqueId::from_file_name("Second Change.md"), Some(UniqueId::exact("Second Change")));
    assert!(changesets::change::has_md_extension("a.md"));
    assert!(!changesets::change::has_md_extension(".md"));
    assert!(!changesets::change::has_md_extension("a.mdx"));
    assert!(changesets::change::has_md_extension("..md"));
}

#[test]
fn unique_id_of_title() {
    assert_eq!(UniqueId::from("Hello World 42!").to_string(), "hello_world_42");
    // A space becomes `_`, and `_` is dropped on a second pass.
    assert_eq!(UniqueId::from("a_b").to_string(), "ab");
    assert_eq!(UniqueId::from("").to_string(), "");
}
