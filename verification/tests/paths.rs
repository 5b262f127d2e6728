use file_trackr::path::{
    chop_path_root, same_components, ComponentKind, FsPath, OsName, PathComponent, PathPrefix,
    PrefixKind,
};

fn names(path: &FsPath) -> Vec<String> {
    path.components.iter().map(|component| component.name.display()).collect()
}

#[test]
fn path_is_taken_apart() {
    let path = FsPath::parse("a/b/c");
    assert_eq!(names(&path), vec!["a", "b", "c"]);
    assert!(path.components.iter().all(|component| component.kind == ComponentKind::Normal));
    assert_eq!(path.display(), "a/b/c");
}

#[test]
fn path_without_text_has_no_components() {
    assert!(FsPath::parse("").components.is_empty());
}

#[test]
fn special_components_are_told_apart() {
    let path = FsPath::parse("./a/..");
    let kinds: Vec<ComponentKind> = path.components.iter().map(|component| component.kind).collect();
    assert_eq!(kinds, vec![ComponentKind::CurDir, ComponentKind::Normal, ComponentKind::ParentDir]);
    let absolute = FsPath::parse("/a");
    assert_eq!(absolute.components[0].kind, ComponentKind::RootDir);
    assert_eq!(absolute.components.len(), 2);
}

#[test]
fn paths_are_equal_by_components() {
    assert!(FsPath::parse("a/b").same_as(&FsPath::parse("a//b/")));
    assert!(!FsPath::parse("a/b").same_as(&FsPath::parse("a/c")));
    assert!(!FsPath::parse("a/b").same_as(&FsPath::parse("a")));
}

#[test]
fn kind_of_component_counts() {
    let name = PathComponent::normal(OsName::Text("..".to_string()));
    let parent = FsPath::parse("..");
    assert!(!same_components(&[name], &parent.components));
}

#[test]
fn root_is_chopped_off() {
    let path = FsPath::parse("a/b/c");
    let (root, rest) = chop_path_root(&path.steps);
    assert_eq!(root.len(), 1);
    assert_eq!(root[0].name.display(), "a");
    assert_eq!(rest.len(), 2);
    assert_eq!(rest[1].shown, "c");
}

#[test]
fn nothing_is_chopped_off_nothing() {
    let (root, rest) = chop_path_root(&[]);
    assert!(root.is_empty());
    assert!(rest.is_empty());
}

#[test]
fn steps_lead_along_the_components() {
    for text in ["a/b/c", "/a//b/", "./a/./b", "../a", "a"] {
        let path = FsPath::parse(text);
        let shown: Vec<String> = path.steps.iter().map(|step| step.shown.clone()).collect();
        assert_eq!(shown, names(&path));
        for (i, step) in path.steps.iter().enumerate() {
            assert_eq!(step.count, path.components.len() - i);
            assert!(same_components(&step.root, &path.components[i..i + 1]));
        }
    }
    assert!(FsPath::parse("").steps.is_empty());
}

#[test]
fn written_paths_have_components_of_text() {
    for text in ["/", ".", "a b", "\u{e4}/\u{f6}"] {
        let path = FsPath::parse(text);
        assert!(!path.components.is_empty());
        assert!(path.components.iter().all(|component| matches!(component.name, OsName::Text(_))));
        assert!(path.components.iter().all(|component| component.prefix.is_none()));
    }
}

#[test]
fn path_is_shown_under_root() {
    let root = FsPath::parse("/home/x");
    assert_eq!(root.display_under(&FsPath::parse("a/b")), "/home/x/a/b");
    assert_eq!(root.display_under(&FsPath::parse("/etc")), "/etc");
}

#[test]
fn raw_names_differ_by_bytes() {
    let a = OsName::Raw { shown: "\u{fffd}".to_string(), bytes: vec![0xff] };
    let b = OsName::Raw { shown: "\u{fffd}".to_string(), bytes: vec![0xfe] };
    let text = OsName::Text("\u{fffd}".to_string());
    assert!(a.same_as(&a.clone()));
    assert!(!a.same_as(&b));
    assert!(!a.same_as(&text));
    assert_eq!(a.display(), text.display());
}

fn prefix(kind: PrefixKind, parts: &[&str], text: &str) -> PathComponent {
    let parts = parts.iter().map(|part| OsName::Text(part.to_string())).collect();
    PathComponent {
        kind: ComponentKind::Prefix,
        name: OsName::Text(text.to_string()),
        prefix: Some(PathPrefix { kind, parts }),
    }
}

#[test]
fn drives_are_compared_by_letter() {
    let lower = prefix(PrefixKind::Disk(b'C'), &[], "c:");
    let upper = prefix(PrefixKind::Disk(b'C'), &[], "C:");
    let other = prefix(PrefixKind::Disk(b'D'), &[], "D:");
    let verbatim = prefix(PrefixKind::VerbatimDisk(b'C'), &[], "C:");
    assert!(lower.same_as(&upper));
    assert!(!lower.same_as(&other));
    assert!(!upper.same_as(&verbatim));
    assert!(same_components(&[lower], &[upper]));
}

#[test]
fn shares_are_compared_by_what_they_are_read_as() {
    let a = prefix(PrefixKind::Unc, &["server", "share"], "\\\\server\\share");
    let b = prefix(PrefixKind::Unc, &["server", "share"], "//server/share");
    let other = prefix(PrefixKind::Unc, &["server", "other"], "\\\\server\\other");
    let short = prefix(PrefixKind::Unc, &["server"], "\\\\server");
    assert!(a.same_as(&b));
    assert!(a.same_as(&a.clone()));
    assert!(!a.same_as(&other));
    assert!(!a.same_as(&short));
    assert!(!a.same_as(&PathComponent::normal(OsName::Text("server".to_string()))));
}
