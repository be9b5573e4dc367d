use openssl_bundle::targets::{
    all_distinct, archive_name, build_dir_parts, install_dir_parts, bundle_name, subdirs_distinct, targets, Target, BUILD_HOST,
};

#[test]
fn fixed_target_list() {
    let ts = targets();
    let got: Vec<(&str, &str, Vec<&str>)> = ts
        .iter()
        .map(|t| {
            (t.triple.as_str(), t.subdir.as_str(), t.toolchain_args.iter().map(|a| a.as_str()).collect())
        })
        .collect();
    assert_eq!(
        got,
        vec![
            ("aarch64-uwp-windows-msvc", "arm64-windows-uwp", vec!["x64_arm64", "uwp"]),
            ("x86_64-uwp-windows-msvc", "x64-windows-uwp", vec!["x64", "uwp"]),
            ("aarch64-pc-windows-msvc", "arm64-windows", vec!["x64_arm64"]),
            ("x86_64-pc-windows-msvc", "x64-windows", vec!["x64"]),
        ]
    );
}

#[test]
fn fixed_targets_have_distinct_subdirs_and_triples() {
    let ts = targets();
    assert!(subdirs_distinct(&ts));
    let triples: Vec<String> = ts.iter().map(|t| t.triple.clone()).collect();
    assert!(all_distinct(&triples));
}

#[test]
fn repeated_subdir_is_detected() {
    let ts = vec![
        Target { triple: "a".to_string(), subdir: "x64-windows".to_string(), toolchain_args: vec![] },
        Target { triple: "b".to_string(), subdir: "arm64-windows".to_string(), toolchain_args: vec![] },
        Target { triple: "c".to_string(), subdir: "x64-windows".to_string(), toolchain_args: vec![] },
    ];
    assert!(!subdirs_distinct(&ts));
    assert!(subdirs_distinct(&Vec::new()));
}

#[test]
fn archive_name_formats_version() {
    assert_eq!(archive_name("111.28.2+1.1.1w"), "openssl-111.28.2+1.1.1w-vs2017-2019-09-18");
}

#[test]
fn bundle_name_names_the_sources_version() {
    assert_eq!(bundle_name(), "openssl-111.28.2+1.1.1w-vs2017-2019-09-18");
}

#[test]
fn build_host_triple() {
    assert_eq!(BUILD_HOST, "x86_64-pc-windows-msvc");
}

#[test]
fn build_and_install_dirs() {
    assert_eq!(build_dir_parts("x86_64-pc-windows-msvc"), vec!["openssl-build", "x86_64-pc-windows-msvc"]);
    assert_eq!(
        install_dir_parts("aarch64-uwp-windows-msvc"),
        vec!["openssl-build", "aarch64-uwp-windows-msvc", "install"]
    );
}
