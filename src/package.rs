//! Where each file and directory of an install tree goes in the archive.
//!
//! Every target's install tree is placed under `<root>/<subdir>` in the
//! archive, where `root` names the whole archive and `subdir` the target. An
//! entry found at relative path `p` in the tree lands at `<root>/<subdir>/p`,
//! with `/` between the parts.
use vstd::prelude::*;

verus! {

/// Whether an archive entry holds a file's bytes or stands for a directory.
#[derive(PartialEq, Eq, Structural, Clone, Copy, Debug)]
pub enum EntryKind {
    File,
    Directory,
}

/// One entry to write into the archive.
#[derive(Debug)]
pub struct ArchiveEntry {
    pub path: String,
    pub kind: EntryKind,
}

impl View for ArchiveEntry {
    type V = (Seq<char>, EntryKind);

    open spec fn view(&self) -> (Seq<char>, EntryKind) {
        (self.path@, self.kind)
    }
}

/// One entry met while walking an install tree: its path relative to the
/// tree's root, as a list of path components, and whether it is a file.
/// The tree's root itself has no components.
#[derive(Debug)]
pub struct WalkedEntry {
    pub relative: Vec<String>,
    pub is_file: bool,
}

impl View for WalkedEntry {
    type V = (Seq<Seq<char>>, bool);

    open spec fn view(&self) -> (Seq<Seq<char>>, bool) {
        (components_view(self.relative@), self.is_file)
    }
}

pub open spec fn components_view(v: Seq<String>) -> Seq<Seq<char>> {
    v.map_values(|c: String| c@)
}

/// The archive directory of one target: `<root>/<subdir>`.
pub open spec fn subdir_path(root: Seq<char>, subdir: Seq<char>) -> Seq<char> {
    root + seq!['/'] + subdir
}

/// The components of a relative path, each with a `/` before it.
pub open spec fn relative_suffix(rel: Seq<Seq<char>>) -> Seq<char>
    decreases rel.len(),
{
    if rel.len() == 0 {
        Seq::empty()
    } else {
        relative_suffix(rel.drop_last()) + seq!['/'] + rel.last()
    }
}

/// The archive path of the entry at relative path `rel`:
/// `<root>/<subdir>/<rel>`.
pub open spec fn archive_path(root: Seq<char>, subdir: Seq<char>, rel: Seq<Seq<char>>) -> Seq<char> {
    subdir_path(root, subdir) + relative_suffix(rel)
}

/// The entry that a walked item gives: a file entry for a file, a directory
/// entry for a directory, and none for the tree's root, whose directory
/// entry is written before the walk.
pub open spec fn planned_entry(
    root: Seq<char>,
    subdir: Seq<char>,
    walked: (Seq<Seq<char>>, bool),
) -> Option<(Seq<char>, EntryKind)> {
    if walked.1 {
        Some((archive_path(root, subdir, walked.0), EntryKind::File))
    } else if walked.0.len() == 0 {
        None
    } else {
        Some((archive_path(root, subdir, walked.0), EntryKind::Directory))
    }
}

/// The entries that the walked items give, in the order of the walk.
pub open spec fn planned_entries(
    root: Seq<char>,
    subdir: Seq<char>,
    walked: Seq<(Seq<Seq<char>>, bool)>,
) -> Seq<(Seq<char>, EntryKind)>
    decreases walked.len(),
{
    if walked.len() == 0 {
        Seq::empty()
    } else {
        let before = planned_entries(root, subdir, walked.drop_last());
        match planned_entry(root, subdir, walked.last()) {
            Some(e) => before.push(e),
            None => before,
        }
    }
}

/// All entries of one target: its directory, then what the walk gives.
pub open spec fn planned_tree(
    root: Seq<char>,
    subdir: Seq<char>,
    walked: Seq<(Seq<Seq<char>>, bool)>,
) -> Seq<(Seq<char>, EntryKind)> {
    seq![(subdir_path(root, subdir), EntryKind::Directory)] + planned_entries(root, subdir, walked)
}

pub open spec fn walked_view(v: Seq<WalkedEntry>) -> Seq<(Seq<Seq<char>>, bool)> {
    v.map_values(|w: WalkedEntry| w@)
}

pub open spec fn entries_view(v: Seq<ArchiveEntry>) -> Seq<(Seq<char>, EntryKind)> {
    v.map_values(|e: ArchiveEntry| e@)
}

/// The archive path `<root>/<subdir>/<relative>` of an entry of the tree.
pub fn archive_path_of(root: &str, subdir: &str, relative: &Vec<String>) -> (r: String)
    ensures
        r@ == archive_path(root@, subdir@, components_view(relative@)),
{
    proof {
        reveal_strlit("/");
    }
    let mut r = String::from_str(root);
    r.append("/");
    r.append(subdir);
    let mut i: usize = 0;
    while i < relative.len()
        invariant
            i <= relative@.len(),
            r@ == archive_path(root@, subdir@, components_view(relative@.subrange(0, i as int))),
        decreases relative.len() - i,
    {
        proof {
            let pre = relative@.subrange(0, i as int);
            let next = relative@.subrange(0, i + 1);
            assert(components_view(next).drop_last() =~= components_view(pre));
            assert(components_view(next).last() == relative@[i as int]@);
        }
        proof {
            reveal_strlit("/");
        }
        let ghost r0 = r@;
        r.append("/");
        let comp = relative[i].as_str();
        r.append(comp);
        proof {
            assert(r@ == r0 + seq!['/'] + comp@);
            assert(comp@ == relative@[i as int]@);
            let pre = components_view(relative@.subrange(0, i as int));
            let c = relative@[i as int]@;
            assert(r@ =~= subdir_path(root@, subdir@) + (relative_suffix(pre) + seq!['/'] + c));
        }
        i = i + 1;
    }
    assert(relative@.subrange(0, relative@.len() as int) =~= relative@);
    r
}

/// The directory entry `<root>/<subdir>` that stands for one target.
pub fn subdir_entry(root: &str, subdir: &str) -> (r: ArchiveEntry)
    ensures
        r@ == (subdir_path(root@, subdir@), EntryKind::Directory),
{
    let path = archive_path_of(root, subdir, &Vec::new());
    ArchiveEntry { path, kind: EntryKind::Directory }
}

/// The entry to write for one item of the walk, if any.
pub fn entry_for(root: &str, subdir: &str, walked: &WalkedEntry) -> (r: Option<ArchiveEntry>)
    ensures
        match r {
            Some(e) => planned_entry(root@, subdir@, walked@) == Some(e@),
            None => planned_entry(root@, subdir@, walked@) is None,
        },
{
    if !walked.is_file && walked.relative.len() == 0 {
        return None;
    }
    let path = archive_path_of(root, subdir, &walked.relative);
    let kind = if walked.is_file {
        EntryKind::File
    } else {
        EntryKind::Directory
    };
    Some(ArchiveEntry { path, kind })
}

/// All entries that one target's install tree gives, in order: the target's
/// directory first, then one entry per walked item but the tree's root.
pub fn plan_tree(root: &str, subdir: &str, walked: &Vec<WalkedEntry>) -> (r: Vec<ArchiveEntry>)
    ensures
        entries_view(r@) == planned_tree(root@, subdir@, walked_view(walked@)),
{
    let mut r: Vec<ArchiveEntry> = Vec::new();
    r.push(subdir_entry(root, subdir));
    let ghost first = seq![(subdir_path(root@, subdir@), EntryKind::Directory)];
    assert(entries_view(r@) =~= first);
    let mut i: usize = 0;
    while i < walked.len()
        invariant
            i <= walked@.len(),
            entries_view(r@) == first + planned_entries(
                root@,
                subdir@,
                walked_view(walked@.subrange(0, i as int)),
            ),
        decreases walked.len() - i,
    {
        let ghost pre = walked_view(walked@.subrange(0, i as int));
        proof {
            let next = walked_view(walked@.subrange(0, i + 1));
            assert(next.drop_last() =~= pre);
            assert(next.last() == walked@[i as int]@);
        }
        match entry_for(root, subdir, &walked[i]) {
            Some(e) => {
                let ghost r0 = r@;
                r.push(e);
                assert(entries_view(r@) =~= entries_view(r0).push(e@));
                assert(first + planned_entries(root@, subdir@, pre).push(e@) =~= (first
                    + planned_entries(root@, subdir@, pre)).push(e@));
            }
            None => {}
        }
        i = i + 1;
    }
    assert(walked@.subrange(0, walked@.len() as int) =~= walked@);
    r
}

proof fn lemma_suffix_len(rel: Seq<Seq<char>>)
    ensures
        relative_suffix(rel).len() >= rel.len(),
    decreases rel.len(),
{
    if rel.len() > 0 {
        lemma_suffix_len(rel.drop_last());
    }
}

proof fn lemma_dir_entries_below_subdir(
    root: Seq<char>,
    subdir: Seq<char>,
    walked: Seq<(Seq<Seq<char>>, bool)>,
)
    ensures
        forall|k: int|
            0 <= k < planned_entries(root, subdir, walked).len() && (#[trigger] planned_entries(
                root,
                subdir,
                walked,
            )[k]).1 == EntryKind::Directory ==> planned_entries(root, subdir, walked)[k].0.len()
                > subdir_path(root, subdir).len(),
    decreases walked.len(),
{
    if walked.len() > 0 {
        lemma_dir_entries_below_subdir(root, subdir, walked.drop_last());
        lemma_suffix_len(walked.last().0);
    }
}

/// Every file of the tree, found at relative path `p`, gets a file entry at
/// `<root>/<subdir>/p`.
pub proof fn lemma_file_lands_under_subdir(
    root: Seq<char>,
    subdir: Seq<char>,
    walked: Seq<(Seq<Seq<char>>, bool)>,
    i: int,
)
    requires
        0 <= i < walked.len(),
        walked[i].1,
    ensures
        planned_tree(root, subdir, walked).contains(
            (archive_path(root, subdir, walked[i].0), EntryKind::File),
        ),
    decreases walked.len(),
{
    let e = (archive_path(root, subdir, walked[i].0), EntryKind::File);
    let first = seq![(subdir_path(root, subdir), EntryKind::Directory)];
    let entries = planned_entries(root, subdir, walked);
    if i == walked.len() - 1 {
        assert(entries.last() == e);
        assert(planned_tree(root, subdir, walked)[entries.len() as int] == e);
    } else {
        lemma_file_lands_under_subdir(root, subdir, walked.drop_last(), i);
        let before = planned_entries(root, subdir, walked.drop_last());
        let k = choose|k: int|
            0 <= k < planned_tree(root, subdir, walked.drop_last()).len()
                && planned_tree(root, subdir, walked.drop_last())[k] == e;
        assert(planned_tree(root, subdir, walked)[k] == e);
    }
}

/// The tree's own root adds no directory entry: the only directory entry
/// at `<root>/<subdir>` is the one that comes first.
pub proof fn lemma_no_second_subdir_entry(
    root: Seq<char>,
    subdir: Seq<char>,
    walked: Seq<(Seq<Seq<char>>, bool)>,
)
    ensures
        planned_tree(root, subdir, walked)[0] == (subdir_path(root, subdir), EntryKind::Directory),
        forall|k: int|
            1 <= k < planned_tree(root, subdir, walked).len() && (#[trigger] planned_tree(
                root,
                subdir,
                walked,
            )[k]).1 == EntryKind::Directory ==> planned_tree(root, subdir, walked)[k].0
                != subdir_path(root, subdir),
{
    lemma_dir_entries_below_subdir(root, subdir, walked);
    let entries = planned_entries(root, subdir, walked);
    assert forall|k: int|
        1 <= k < planned_tree(root, subdir, walked).len() && (#[trigger] planned_tree(
            root,
            subdir,
            walked,
        )[k]).1 == EntryKind::Directory implies planned_tree(root, subdir, walked)[k].0
        != subdir_path(root, subdir) by {
        assert(planned_tree(root, subdir, walked)[k] == entries[k - 1]);
    }
}

/// No component of `rel` holds a `/`.
pub open spec fn slash_free(rel: Seq<Seq<char>>) -> bool {
    forall|i: int, j: int| 0 <= i < rel.len() && 0 <= j < rel[i].len() ==> rel[i][j] != '/'
}

proof fn lemma_suffix_injective(r1: Seq<Seq<char>>, r2: Seq<Seq<char>>)
    requires
        slash_free(r1),
        slash_free(r2),
        relative_suffix(r1) == relative_suffix(r2),
    ensures
        r1 == r2,
    decreases r1.len(),
{
    lemma_suffix_len(r1);
    lemma_suffix_len(r2);
    if r1.len() == 0 || r2.len() == 0 {
        assert(r1 =~= r2);
    } else {
        let s = relative_suffix(r1);
        let p1 = relative_suffix(r1.drop_last());
        let p2 = relative_suffix(r2.drop_last());
        let c1 = r1.last();
        let c2 = r2.last();
        assert(s == p1 + seq!['/'] + c1);
        assert(s == p2 + seq!['/'] + c2);
        if c1.len() < c2.len() {
            let k = s.len() - c1.len() - 1;
            assert(s[k] == '/');
            assert(s[k] == c2[k - p2.len() - 1]);
            assert(r2[r2.len() - 1] == c2);
        } else if c2.len() < c1.len() {
            let k = s.len() - c2.len() - 1;
            assert(s[k] == '/');
            assert(s[k] == c1[k - p1.len() - 1]);
            assert(r1[r1.len() - 1] == c1);
        } else {
            assert(c1 =~= s.subrange(s.len() - c1.len(), s.len() as int));
            assert(c2 =~= s.subrange(s.len() - c2.len(), s.len() as int));
            assert(p1 =~= s.subrange(0, p1.len() as int));
            assert(p2 =~= s.subrange(0, p2.len() as int));
            assert(slash_free(r1.drop_last()));
            assert(slash_free(r2.drop_last()));
            lemma_suffix_injective(r1.drop_last(), r2.drop_last());
            assert(r1 =~= r2.drop_last().push(c2));
            assert(r2 =~= r2.drop_last().push(c2));
        }
    }
}

proof fn lemma_entry_sources(root: Seq<char>, subdir: Seq<char>, walked: Seq<(Seq<Seq<char>>, bool)>)
    ensures
        forall|k: int|
            0 <= k < planned_entries(root, subdir, walked).len() ==> exists|a: int|
                0 <= a < walked.len() && (#[trigger] planned_entries(root, subdir, walked)[k]).0
                    == archive_path(root, subdir, walked[a].0) && (walked[a].0.len() > 0
                    || walked[a].1),
    decreases walked.len(),
{
    if walked.len() > 0 {
        let prev = walked.drop_last();
        lemma_entry_sources(root, subdir, prev);
        let e = planned_entries(root, subdir, walked);
        let pe = planned_entries(root, subdir, prev);
        assert forall|k: int| 0 <= k < e.len() implies exists|a: int|
            0 <= a < walked.len() && (#[trigger] e[k]).0 == archive_path(root, subdir, walked[a].0)
                && (walked[a].0.len() > 0 || walked[a].1) by {
            if k < pe.len() {
                assert(e[k] == pe[k]);
                let a = choose|a: int|
                    0 <= a < prev.len() && (#[trigger] pe[k]).0 == archive_path(
                        root,
                        subdir,
                        prev[a].0,
                    ) && (prev[a].0.len() > 0 || prev[a].1);
                assert(walked[a] == prev[a]);
            } else {
                let a = walked.len() - 1;
                assert(walked[a] == walked.last());
            }
        }
    }
}

/// Where the walk gives each relative path once, no component holds a `/`,
/// and only the tree's root has an empty path and is no file, no two
/// entries of the target share an archive path. With
/// `lemma_file_lands_under_subdir`, each file has exactly one entry.
pub proof fn lemma_paths_distinct(
    root: Seq<char>,
    subdir: Seq<char>,
    walked: Seq<(Seq<Seq<char>>, bool)>,
)
    requires
        forall|a: int, b: int| 0 <= a < b < walked.len() ==> walked[a].0 != walked[b].0,
        forall|a: int| 0 <= a < walked.len() ==> slash_free(#[trigger] walked[a].0),
        forall|a: int| 0 <= a < walked.len() && (#[trigger] walked[a]).1 ==> walked[a].0.len() > 0,
    ensures
        forall|k1: int, k2: int|
            0 <= k1 < k2 < planned_tree(root, subdir, walked).len() ==> (#[trigger] planned_tree(
                root,
                subdir,
                walked,
            )[k1]).0 != (#[trigger] planned_tree(root, subdir, walked)[k2]).0,
    decreases walked.len(),
{
    let t = planned_tree(root, subdir, walked);
    let base = subdir_path(root, subdir);
    if walked.len() > 0 {
        let prev = walked.drop_last();
        let pt = planned_tree(root, subdir, prev);
        let pe = planned_entries(root, subdir, prev);
        let last = walked.last();
        assert(last == walked[walked.len() - 1]);
        lemma_paths_distinct(root, subdir, prev);
        lemma_entry_sources(root, subdir, prev);
        assert forall|k: int| 0 <= k < pt.len() implies t[k] == pt[k] by {
            if k > 0 {
                assert(t[k] == planned_entries(root, subdir, walked)[k - 1]);
            }
        }
        if planned_entry(root, subdir, last) is Some {
            let x = archive_path(root, subdir, last.0);
            assert(t.len() == pt.len() + 1);
            assert(t[pt.len() as int].0 == x);
            lemma_suffix_len(last.0);
            assert forall|k: int| 0 <= k < pt.len() implies (#[trigger] pt[k]).0 != x by {
                if k == 0 {
                    assert(pt[0].0 == base);
                } else {
                    assert(pt[k] == pe[k - 1]);
                    let a = choose|a: int|
                        0 <= a < prev.len() && (#[trigger] pe[k - 1]).0 == archive_path(
                            root,
                            subdir,
                            prev[a].0,
                        ) && (prev[a].0.len() > 0 || prev[a].1);
                    assert(prev[a] == walked[a]);
                    if pt[k].0 == x {
                        let q = x;
                        assert(relative_suffix(prev[a].0) =~= q.subrange(base.len() as int, q.len() as int));
                        assert(relative_suffix(last.0) =~= q.subrange(base.len() as int, q.len() as int));
                        lemma_suffix_injective(prev[a].0, last.0);
                    }
                }
            }
        } else {
            assert(t =~= pt);
        }
    }
}

} // verus!
