use openssl_bundle::package::{
    archive_path_of, entry_for, plan_tree, subdir_entry, ArchiveEntry, EntryKind, WalkedEntry,
};

fn walked(parts: &[&str], is_file: bool) -> WalkedEntry {
    WalkedEntry { relative: parts.iter().map(|p| p.to_string()).collect(), is_file }
}

fn summary(entries: &[ArchiveEntry]) -> Vec<(String, EntryKind)> {
    entries.iter().map(|e| (e.path.clone(), e.kind)).collect()
}

#[test]
fn path_joins_root_subdir_and_components() {
    let rel = vec!["lib".to_string(), "libssl.lib".to_string()];
    assert_eq!(archive_path_of("bundle", "x64-windows", &rel), "bundle/x64-windows/lib/libssl.lib");
    assert_eq!(archive_path_of("bundle", "x64-windows", &Vec::new()), "bundle/x64-windows");
}

#[test]
fn subdir_entry_is_a_directory() {
    let e = subdir_entry("bundle", "arm64-windows");
    assert_eq!(e.path, "bundle/arm64-windows");
    assert_eq!(e.kind, EntryKind::Directory);
}

#[test]
fn tree_root_gives_no_entry() {
    assert!(entry_for("bundle", "x64-windows", &walked(&[], false)).is_none());
}

#[test]
fn file_lands_under_subdir() {
    let e = entry_for("bundle", "x64-windows-uwp", &walked(&["include", "openssl", "ssl.h"], true))
        .unwrap();
    assert_eq!(e.path, "bundle/x64-windows-uwp/include/openssl/ssl.h");
    assert_eq!(e.kind, EntryKind::File);
}

#[test]
fn fake_install_tree_layout() {
    let walk = vec![
        walked(&[], false),
        walked(&["bin"], false),
        walked(&["bin", "foo.dll"], true),
        walked(&["lib"], false),
        walked(&["lib", "sub"], false),
    ];
    let plan = plan_tree("openssl", "x64-windows", &walk);
    assert_eq!(
        summary(&plan),
        vec![
            ("openssl/x64-windows".to_string(), EntryKind::Directory),
            ("openssl/x64-windows/bin".to_string(), EntryKind::Directory),
            ("openssl/x64-windows/bin/foo.dll".to_string(), EntryKind::File),
            ("openssl/x64-windows/lib".to_string(), EntryKind::Directory),
            ("openssl/x64-windows/lib/sub".to_string(), EntryKind::Directory),
        ]
    );
    let roots = plan.iter().filter(|e| e.path == "openssl/x64-windows").count();
    assert_eq!(roots, 1);
    let mut paths: Vec<&str> = plan.iter().map(|e| e.path.as_str()).collect();
    paths.sort();
    paths.dedup();
    assert_eq!(paths.len(), plan.len());
}

#[test]
fn empty_walk_gives_only_subdir() {
    let plan = plan_tree("r", "s", &Vec::new());
    assert_eq!(summary(&plan), vec![("r/s".to_string(), EntryKind::Directory)]);
}
