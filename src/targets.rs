//! The fixed list of targets that a run builds, and the archive's name.
use vstd::prelude::*;

verus! {

/// The triple of the machine that runs the build.
pub const BUILD_HOST: &'static str = "x86_64-pc-windows-msvc";

/// One target: its compilation triple, the directory that holds its install
/// tree in the archive, and the arguments for the environment setup script.
#[derive(Debug)]
pub struct Target {
    pub triple: String,
    pub subdir: String,
    pub toolchain_args: Vec<String>,
}

impl View for Target {
    type V = (Seq<char>, Seq<char>, Seq<Seq<char>>);

    open spec fn view(&self) -> (Seq<char>, Seq<char>, Seq<Seq<char>>) {
        (self.triple@, self.subdir@, strings_view(self.toolchain_args@))
    }
}

pub open spec fn strings_view(v: Seq<String>) -> Seq<Seq<char>> {
    v.map_values(|s: String| s@)
}

pub open spec fn targets_view(v: Seq<Target>) -> Seq<(Seq<char>, Seq<char>, Seq<Seq<char>>)> {
    v.map_values(|t: Target| t@)
}

/// The targets of a run, in the order in which they are built.
pub open spec fn target_list() -> Seq<(Seq<char>, Seq<char>, Seq<Seq<char>>)> {
    seq![
        ("aarch64-uwp-windows-msvc"@, "arm64-windows-uwp"@, seq!["x64_arm64"@, "uwp"@]),
        ("x86_64-uwp-windows-msvc"@, "x64-windows-uwp"@, seq!["x64"@, "uwp"@]),
        ("aarch64-pc-windows-msvc"@, "arm64-windows"@, seq!["x64_arm64"@]),
        ("x86_64-pc-windows-msvc"@, "x64-windows"@, seq!["x64"@]),
    ]
}

/// No two of `v` are equal.
pub open spec fn pairwise_distinct(v: Seq<Seq<char>>) -> bool {
    forall|i: int, j: int| 0 <= i < j < v.len() ==> v[i] != v[j]
}

pub open spec fn subdirs_of(v: Seq<(Seq<char>, Seq<char>, Seq<Seq<char>>)>) -> Seq<Seq<char>> {
    v.map_values(|t: (Seq<char>, Seq<char>, Seq<Seq<char>>)| t.1)
}

pub open spec fn triples_of(v: Seq<(Seq<char>, Seq<char>, Seq<Seq<char>>)>) -> Seq<Seq<char>> {
    v.map_values(|t: (Seq<char>, Seq<char>, Seq<Seq<char>>)| t.0)
}

/// The parts of the directory, below the working directory, into which
/// the build routine builds `triple`.
pub open spec fn build_dir_of(triple: Seq<char>) -> Seq<Seq<char>> {
    seq!["openssl-build"@, triple]
}

/// The parts of `triple`'s install tree below the working directory.
pub open spec fn install_dir_of(triple: Seq<char>) -> Seq<Seq<char>> {
    build_dir_of(triple).push("install"@)
}

/// The name of the archive for OpenSSL `version`, without extension.
pub open spec fn archive_name_of(version: Seq<char>) -> Seq<char> {
    "openssl-"@ + version + "-vs2017-2019-09-18"@
}

fn target(triple: &str, subdir: &str, args: Vec<String>) -> (r: Target)
    ensures
        r@ == (triple@, subdir@, strings_view(args@)),
{
    Target { triple: String::from_str(triple), subdir: String::from_str(subdir), toolchain_args: args }
}

/// The targets of a run, in the order in which they are built.
pub fn targets() -> (r: Vec<Target>)
    ensures
        targets_view(r@) == target_list(),
        pairwise_distinct(subdirs_of(targets_view(r@))),
        pairwise_distinct(triples_of(targets_view(r@))),
{
    proof {
        lemma_targets_distinct();
    }
    let t0 = target(
        "aarch64-uwp-windows-msvc",
        "arm64-windows-uwp",
        vec![String::from_str("x64_arm64"), String::from_str("uwp")],
    );
    let t1 = target(
        "x86_64-uwp-windows-msvc",
        "x64-windows-uwp",
        vec![String::from_str("x64"), String::from_str("uwp")],
    );
    let t2 = target("aarch64-pc-windows-msvc", "arm64-windows", vec![String::from_str("x64_arm64")]);
    let t3 = target("x86_64-pc-windows-msvc", "x64-windows", vec![String::from_str("x64")]);
    let r = vec![t0, t1, t2, t3];
    assert(strings_view(r@[0].toolchain_args@) =~= seq!["x64_arm64"@, "uwp"@]);
    assert(strings_view(r@[1].toolchain_args@) =~= seq!["x64"@, "uwp"@]);
    assert(strings_view(r@[2].toolchain_args@) =~= seq!["x64_arm64"@]);
    assert(strings_view(r@[3].toolchain_args@) =~= seq!["x64"@]);
    assert(targets_view(r@) =~= target_list());
    r
}

/// The fixed targets place their trees in distinct archive directories and
/// build into distinct output directories.
pub proof fn lemma_targets_distinct()
    ensures
        pairwise_distinct(subdirs_of(target_list())),
        pairwise_distinct(triples_of(target_list())),
{
    reveal_strlit("arm64-windows-uwp");
    reveal_strlit("x64-windows-uwp");
    reveal_strlit("arm64-windows");
    reveal_strlit("x64-windows");
    reveal_strlit("aarch64-uwp-windows-msvc");
    reveal_strlit("x86_64-uwp-windows-msvc");
    reveal_strlit("aarch64-pc-windows-msvc");
    reveal_strlit("x86_64-pc-windows-msvc");
    let s = subdirs_of(target_list());
    let t = triples_of(target_list());
    assert(s[0].len() == 17 && s[1].len() == 15 && s[2].len() == 13 && s[3].len() == 11);
    assert(t[0].len() == 24 && t[1].len() == 23 && t[2].len() == 23 && t[3].len() == 22);
    assert(t[1][0] != t[2][0]);
}

/// Whether no two of `names` are equal.
pub fn all_distinct(names: &Vec<String>) -> (r: bool)
    ensures
        r == pairwise_distinct(strings_view(names@)),
{
    let n = names.len();
    let mut i: usize = 0;
    while i < n
        invariant
            n == names@.len(),
            i <= n,
            forall|a: int, b: int| 0 <= a < b < n && a < i ==> names@[a]@ != names@[b]@,
        decreases n - i,
    {
        let mut j: usize = i + 1;
        while j < n
            invariant
                n == names@.len(),
                i < n,
                i + 1 <= j <= n,
                forall|a: int, b: int| 0 <= a < b < n && a < i ==> names@[a]@ != names@[b]@,
                forall|b: int| i < b < j ==> names@[i as int]@ != names@[b]@,
            decreases n - j,
        {
            if names[i] == names[j] {
                assert(strings_view(names@)[i as int] == strings_view(names@)[j as int]);
                return false;
            }
            j = j + 1;
        }
        i = i + 1;
    }
    true
}

/// Whether the archive directories of `ts` are pairwise distinct.
pub fn subdirs_distinct(ts: &Vec<Target>) -> (r: bool)
    ensures
        r == pairwise_distinct(subdirs_of(targets_view(ts@))),
{
    let mut names: Vec<String> = Vec::new();
    let mut i: usize = 0;
    while i < ts.len()
        invariant
            i <= ts@.len(),
            strings_view(names@) =~= subdirs_of(targets_view(ts@.subrange(0, i as int))),
        decreases ts.len() - i,
    {
        let ghost n0 = names@;
        names.push(ts[i].subdir.clone());
        assert(strings_view(names@) =~= strings_view(n0).push(ts@[i as int].subdir@));
        assert(ts@.subrange(0, i + 1) =~= ts@.subrange(0, i as int).push(ts@[i as int]));
        i = i + 1;
    }
    assert(ts@.subrange(0, ts@.len() as int) =~= ts@);
    all_distinct(&names)
}

/// The parts of `triple`'s build directory below the working directory:
/// `openssl-build/<triple>`.
pub fn build_dir_parts(triple: &str) -> (r: Vec<String>)
    ensures
        strings_view(r@) == build_dir_of(triple@),
{
    let r = vec![String::from_str("openssl-build"), String::from_str(triple)];
    assert(strings_view(r@) =~= build_dir_of(triple@));
    r
}

/// The parts of `triple`'s install tree below the working directory:
/// `openssl-build/<triple>/install`.
pub fn install_dir_parts(triple: &str) -> (r: Vec<String>)
    ensures
        strings_view(r@) == install_dir_of(triple@),
{
    let mut r = build_dir_parts(triple);
    let ghost r0 = r@;
    r.push(String::from_str("install"));
    assert(strings_view(r@) =~= strings_view(r0).push("install"@));
    r
}

/// The archive's name for OpenSSL `version`:
/// `openssl-<version>-vs2017-2019-09-18`.
pub fn archive_name(version: &str) -> (r: String)
    ensures
        r@ == archive_name_of(version@),
{
    let mut r = String::from_str("openssl-");
    r.append(version);
    r.append("-vs2017-2019-09-18");
    r
}

/// The version of the OpenSSL sources that the build routine compiles.
pub open spec fn sources_version() -> Seq<char> {
    "111.28.2+1.1.1w"@
}

/// Relies on openssl_src::version: it returns the package version of the
/// openssl-src crate that is built, `111.28.2+1.1.1w`.
#[verifier::external_body]
fn openssl_version() -> (r: String)
    ensures
        r@ == sources_version(),
{
    openssl_src::version().to_string()
}

/// The archive's name for the OpenSSL sources that the build routine
/// compiles.
pub fn bundle_name() -> (r: String)
    ensures
        r@ == archive_name_of(sources_version()),
{
    let v = openssl_version();
    archive_name(v.as_str())
}

} // verus!
