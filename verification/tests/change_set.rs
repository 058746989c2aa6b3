use changesets::{Change, ChangeSet, ChangeType, PackageChange, Release, UniqueId, Versioning};

fn change(id: &str, packages: Vec<(&str, ChangeType)>, summary: &str) -> Change {
    Change {
        unique_id: UniqueId::exact(id),
        versioning: Versioning::try_from_iter(
            packages.into_iter().map(|(n, t)| (n.to_string(), t)).collect(),
        )
        .unwrap(),
        summary: summary.to_string(),
    }
}

#[test]
fn load_changeset() {
    let first_change_name = "first_change";
    let first_package = "first_package";
    let second_package = "second_package";
    let first_change_type = ChangeType::Minor;
    let second_package_type = ChangeType::Patch;
    let first_change_summary = "### This is a summary";
    let first_text = format!(
        "---\n{first_package}: {}\n{second_package}: {}\n---\n\n{first_change_summary}\n",
        first_change_type.to_string(),
        second_package_type.to_string(),
    );

    let second_change_name = "Second Change";
    let second_change_type = ChangeType::Major;
    let second_change_summary = "### Another summary";
    let second_text = format!(
        "---\n{second_package}: {}\n---\n\n{second_change_summary}\n",
        second_change_type.to_string(),
    );

    let mut changes = Vec::new();
    for (file_name, text) in [
        (format!("{first_change_name}.md"), first_text),
        (format!("{second_change_name}.md"), second_text),
    ] {
        assert!(changesets::change::has_md_extension(&file_name));
        let id = UniqueId::from_file_name(&file_name).unwrap();
        changes.push(Change::from_str(id, &text).unwrap());
    }
    let changeset = ChangeSet::from_changes(changes);
    let releases: Vec<Release> = changeset.into();
    let first_release = releases
        .iter()
        .find(|release| release.package_name == first_package)
        .unwrap();
    assert_eq!(first_release.package_name, first_package);
    assert_eq!(first_release.change_type().unwrap(), &first_change_type);
    assert_eq!(
        first_release.changes,
        vec![PackageChange {
            unique_id: UniqueId::exact(first_change_name).into(),
            change_type: first_change_type,
            summary: first_change_summary.into()
        },]
    );
    let second_release = releases
        .iter()
        .find(|release| release.package_name == second_package)
        .unwrap();
    assert_eq!(second_release.package_name, second_package);
    assert_eq!(second_release.change_type().unwrap(), &second_change_type);
    // Order of reading files is probably not guaranteed
    let first_variant = vec![
        PackageChange {
            unique_id: UniqueId::exact(first_change_name).into(),
            change_type: second_package_type,
            summary: first_change_summary.into(),
        },
        PackageChange {
            unique_id: UniqueId::exact(second_change_name).into(),
            change_type: second_change_type,
            summary: second_change_summary.into(),
        },
    ];
    let second_variant = first_variant.iter().cloned().rev().collect::<Vec<_>>();
    assert!(
        second_release.changes == first_variant || second_release.changes == second_variant,
        "Expected {:?} or {:?}, got {:?}",
        first_variant,
        second_variant,
        second_release.changes
    );
}

#[test]
fn releases_follow_first_mention_and_sort_by_id() {
    let set = ChangeSet::from_changes(vec![
        change("b", vec![("pkg", ChangeType::Patch), ("other", ChangeType::Minor)], "B"),
        change("a", vec![("pkg", ChangeType::Major)], "A"),
        change("c", vec![("third", ChangeType::Patch), ("pkg", ChangeType::Minor)], "C"),
    ]);
    let releases = set.releases();
    let names: Vec<&str> = releases.iter().map(|r| r.package_name.as_str()).collect();
    // Within a change, packages come in order of name.
    assert_eq!(names, vec!["other", "pkg", "third"]);
    let pkg = &releases[1];
    let ids: Vec<String> = pkg.changes.iter().map(|c| c.unique_id.to_string()).collect();
    assert_eq!(ids, vec!["a", "b", "c"]);
    assert_eq!(pkg.change_type(), Some(&ChangeType::Major));
    assert_eq!(releases[0].changes.len(), 1);
    assert_eq!(releases[0].changes[0].summary, "B");
}

#[test]
fn equal_ids_keep_their_order() {
    let set = ChangeSet::from_changes(vec![
        change("same", vec![("pkg", ChangeType::Patch)], "first"),
        change("same", vec![("pkg", ChangeType::Minor)], "second"),
    ]);
    let rel = &set.releases()[0];
    assert_eq!(rel.changes[0].summary, "first");
    assert_eq!(rel.changes[1].summary, "second");
}

#[test]
fn release_change_type_is_the_highest_and_last_of_equals() {
    let set = ChangeSet::from_changes(vec![
        change("1", vec![("pkg", ChangeType::Custom("x".to_string()))], ""),
        change("2", vec![("pkg", ChangeType::Custom("y".to_string()))], ""),
    ]);
    let rel = &set.releases()[0];
    assert_eq!(rel.change_type(), Some(&ChangeType::Custom("y".to_string())));
    let empty = Release { package_name: "p".to_string(), changes: vec![] };
    assert_eq!(empty.change_type(), None);
}

#[test]
fn no_changes_no_releases() {
    let set = ChangeSet::from_changes(vec![]);
    assert!(set.releases().is_empty());
    assert!(set.into_releases().is_empty());
}

#[test]
fn permuted_changes_give_the_same_releases() {
    let make = || {
        vec![
            change("a", vec![("pkg", ChangeType::Patch), ("other", ChangeType::Minor)], "A"),
            change("b", vec![("pkg", ChangeType::Major)], "B"),
            change("c", vec![("third", ChangeType::Patch), ("pkg", ChangeType::Minor)], "C"),
        ]
    };
    let forward = ChangeSet::from_changes(make()).into_releases();
    let mut reversed_input = make();
    reversed_input.reverse();
    let backward = ChangeSet::from_changes(reversed_input).into_releases();
    assert_eq!(forward.len(), backward.len());
    for release in &forward {
        let same = backward
            .iter()
            .find(|r| r.package_name == release.package_name)
            .unwrap();
        assert_eq!(same, release);
    }
}
