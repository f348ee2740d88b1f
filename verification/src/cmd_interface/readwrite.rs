//! Commands that read and change a repository: diff, cat, add, remove,
//! commit and merge.
use vstd::prelude::*;
use crate::vc::repository::{Repo, RepoV, Stage, StageV};
use crate::vc::repository::store::{load, spec_load, spec_get_rev, spec_file_content, spec_current_head};
use crate::vc::repository::staging::{spec_add_file, spec_remove_file};
use crate::vc::repository::commit::{spec_commit_allows, merge_commit_outcome};
use crate::vc::revision::{Rev, RevV};
use crate::vc::file::{ItemInfo, ItemInfoV, named, is_named, unnamed_error};
use crate::cmd_function::lca::{is_lca, history_fits, common_anc};
use crate::cmd_function::{with_newline, FileDiff, FileDiffV, FileDiffType, file_diff, spec_file_diff, diff_type_name, spec_find_unmerged, find_unmerged, conflict_find, find_rev_lca};
use crate::dsr::{write_file, spec_write_file};
use crate::strs::{str_eq, concat3};
use crate::dsr::{Disk, DiskV, spec_delete_file, delete_file};
use crate::path::{spec_path_compose, path_compose};
use crate::ui::{Errors, ErrV, IoKind, io_e, err_v, unit_v, str_v, static_e};
use crate::strmap::{StrMap, Dup, seq_to_map, distinct_keys, lemma_seq_to_map};
use crate::strs::{owned, concat};
use crate::outside::diffy_merge;

verus! {

/// The changes between two revisions, by file.
pub struct RevDiff {
    pub files: StrMap<FileDiff>,
}

/// The text of the changes of a list of files: each file's path, its change
/// type and its patch, on lines of their own.
pub open spec fn rev_diff_text(s: Seq<(Seq<char>, FileDiffV)>) -> Seq<char>
    decreases s.len(),
{
    if s.len() == 0 {
        Seq::empty()
    } else {
        rev_diff_text(s.drop_last()) + s.last().0 + "\n"@ + diff_kind_name(s.last().1.diff_type) + "\n"@ + s.last().1.patch
            + "\n"@
    }
}

/// The name of a change type.
pub open spec fn diff_kind_name(t: FileDiffType) -> Seq<char> {
    match t {
        FileDiffType::Added => "Added"@,
        FileDiffType::Deleted => "Deleted"@,
        FileDiffType::Modified => "Modified"@,
        FileDiffType::Unchanged => "Unchanged"@,
    }
}

impl RevDiff {
    /// No changes.
    pub fn new() -> (r: RevDiff)
        ensures
            r.files.wf(),
            r.files.ev() == Seq::<(Seq<char>, FileDiffV)>::empty(),
    {
        RevDiff { files: StrMap::new() }
    }

    /// The changes by file.
    pub fn get_files(&self) -> (r: &StrMap<FileDiff>)
        ensures
            r.ev() == self.files.ev(),
    {
        &self.files
    }

    /// The changes as text.
    pub fn to_string(&self) -> (r: String)
        ensures
            r@ == rev_diff_text(self.files.ev()),
    {
        let mut res = String::new();
        let n = self.files.entries.len();
        let mut i: usize = 0;
        proof {
            assert(self.files.ev().subrange(0, 0) =~= Seq::<(Seq<char>, FileDiffV)>::empty());
        }
        while i < n
            invariant
                n == self.files.ev().len(),
                i <= n,
                res@ == rev_diff_text(self.files.ev().subrange(0, i as int)),
            decreases n - i,
        {
            let e = &self.files.entries[i];
            let ghost r0 = res@;
            res.append(e.0.as_str());
            res.append("\n");
            res.append(diff_type_name(&e.1.diff_type));
            res.append("\n");
            res.append(e.1.patch.as_str());
            res.append("\n");
            proof {
                let s1 = self.files.ev().subrange(0, i + 1);
                assert(s1.drop_last() =~= self.files.ev().subrange(0, i as int));
                assert(s1.last() == (e.0@, e.1@));
                assert(res@ =~= rev_diff_text(s1));
            }
            i = i + 1;
        }
        proof {
            assert(self.files.ev().subrange(0, n as int) =~= self.files.ev());
        }
        res
    }
}

/// The change that `diff` records for a path, or none when a content
/// cannot be read: against nothing for a file only in the second revision,
/// to nothing for a file only in the first.
pub open spec fn diff_entry(d: DiskV, r: RepoV, m1: Map<Seq<char>, ItemInfoV>, m2: Map<Seq<char>, ItemInfoV>, k: Seq<char>) -> Option<
    FileDiffV,
> {
    if m1.contains_key(k) {
        match spec_file_content(d, r, m1[k]) {
            Err(_) => None,
            Ok(c1) => if m2.contains_key(k) {
                match spec_file_content(d, r, m2[k]) {
                    Err(_) => None,
                    Ok(c2) => Some(spec_file_diff(c1, c2)),
                }
            } else {
                Some(spec_file_diff(c1, Seq::empty()))
            },
        }
    } else if m2.contains_key(k) {
        match spec_file_content(d, r, m2[k]) {
            Err(_) => None,
            Ok(c2) => Some(spec_file_diff(Seq::empty(), c2)),
        }
    } else {
        None
    }
}

/// What `diff` gives for two loaded revisions: a change for every file of
/// either, when every content can be read.
pub open spec fn diff_ok(d: DiskV, r: RepoV, m1: Map<Seq<char>, ItemInfoV>, m2: Map<Seq<char>, ItemInfoV>, out: Map<
    Seq<char>,
    FileDiffV,
>) -> bool {
    &&& out.dom() == m1.dom().union(m2.dom())
    &&& forall|k: Seq<char>| #[trigger] out.contains_key(k) ==> diff_entry(d, r, m1, m2, k) == Some(out[k])
}

/// Whether every file of either revision has a readable content.
pub open spec fn all_readable(d: DiskV, r: RepoV, m1: Map<Seq<char>, ItemInfoV>, m2: Map<Seq<char>, ItemInfoV>) -> bool {
    forall|k: Seq<char>| #[trigger] m1.dom().union(m2.dom()).contains(k) ==> diff_entry(d, r, m1, m2, k) is Some
}

/// The changes from the revision `rev1_id` to the revision `rev2_id` of the
/// repository that holds `wd`: for each file of either, its change. Fails
/// when the repository, a revision or a content cannot be read.
pub fn diff(disk: &Disk, wd: &str, rev1_id: &str, rev2_id: &str) -> (r: Result<RevDiff, Errors>)
    requires
        disk.wf(),
    ensures
        match spec_load(disk@, wd@) {
            Err(e) => r matches Err(x) && err_v(x) == e,
            Ok(repo) => match (spec_get_rev(disk@, repo, rev1_id@), spec_get_rev(disk@, repo, rev2_id@)) {
                (Err(e), _) => r matches Err(x) && err_v(x) == e,
                (Ok(_), Err(e)) => r matches Err(x) && err_v(x) == e,
                (Ok(rv1), Ok(rv2)) => (r is Ok <==> all_readable(disk@, repo, rv1.mmap(), rv2.mmap())) && (r matches Ok(rd)
                    ==> rd.files.wf() && diff_ok(disk@, repo, rv1.mmap(), rv2.mmap(), rd.files.m())),
            },
        },
{
    let repo = load(disk, wd)?;
    let rev1 = repo.get_rev(disk, rev1_id)?;
    let rev2 = repo.get_rev(disk, rev2_id)?;
    diff_revs(&repo, disk, &rev1, &rev2)
}

/// The changes between two revisions of a repository.
pub fn diff_revs(repo: &Repo, disk: &Disk, rev1: &Rev, rev2: &Rev) -> (r: Result<RevDiff, Errors>)
    requires
        disk.wf(),
        repo@.wf(),
        rev1@.wf(),
        rev2@.wf(),
    ensures
        r is Ok <==> all_readable(disk@, repo@, rev1@.mmap(), rev2@.mmap()),
        r matches Ok(rd) ==> rd.files.wf() && diff_ok(disk@, repo@, rev1@.mmap(), rev2@.mmap(), rd.files.m()),
{
    let ghost m1 = rev1@.mmap();
    let ghost m2 = rev2@.mmap();
    let mut rev_diff = RevDiff::new();
    let n1 = rev1.manifest.entries.len();
    let mut i: usize = 0;
    proof {
        lemma_seq_to_map(rev1@.manifest);
        lemma_seq_to_map(rev2@.manifest);
    }
    while i < n1
        invariant
            disk.wf(),
            repo@.wf(),
            rev1@.wf(),
            rev2@.wf(),
            m1 == rev1@.mmap(),
            m2 == rev2@.mmap(),
            n1 == rev1@.manifest.len(),
            i <= n1,
            rev_diff.files.wf(),
            forall|k: Seq<char>| #[trigger] rev_diff.files.m().contains_key(k) <==> exists|j: int| 0 <= j < i && rev1@.manifest[j].0 == k,
            forall|k: Seq<char>| #[trigger] rev_diff.files.m().contains_key(k) ==> diff_entry(disk@, repo@, m1, m2, k) == Some(
                rev_diff.files.m()[k],
            ),
        decreases n1 - i,
    {
        let file1 = &rev1.manifest.entries[i].0;
        let info1 = &rev1.manifest.entries[i].1;
        proof {
            lemma_seq_to_map(rev1@.manifest);
            assert(rev1@.manifest[i as int] == (file1@, info1@));
            assert(m1.contains_key(file1@) && m1[file1@] == info1@);
        }
        let content1 = match repo.get_file_content(disk, info1) {
            Ok(c) => c,
            Err(e) => {
                proof {
                    assert(diff_entry(disk@, repo@, m1, m2, file1@) is None);
                    assert(m1.dom().union(m2.dom()).contains(file1@));
                }
                return Err(e);
            },
        };
        let fd = match rev2.manifest.get(file1.as_str()) {
            None => file_diff(content1, String::new()),
            Some(info2) => {
                let content2 = match repo.get_file_content(disk, info2) {
                    Ok(c) => c,
                    Err(e) => {
                        proof {
                            assert(diff_entry(disk@, repo@, m1, m2, file1@) is None);
                            assert(m1.dom().union(m2.dom()).contains(file1@));
                        }
                        return Err(e);
                    },
                };
                file_diff(content1, content2)
            },
        };
        proof {
            assert(diff_entry(disk@, repo@, m1, m2, file1@) == Some(fd@));
        }
        rev_diff.files.insert(file1.clone(), fd);
        proof {
            assert forall|k: Seq<char>| #[trigger] rev_diff.files.m().contains_key(k) <==> exists|j: int| 0 <= j < i + 1 && rev1@.manifest[j].0 == k by {
                if exists|j: int| 0 <= j < i + 1 && rev1@.manifest[j].0 == k {
                    let j = choose|j: int| 0 <= j < i + 1 && rev1@.manifest[j].0 == k;
                    if j < i {
                    }
                }
            }
        }
        i = i + 1;
    }
    let n2 = rev2.manifest.entries.len();
    let mut i: usize = 0;
    while i < n2
        invariant
            disk.wf(),
            repo@.wf(),
            rev1@.wf(),
            rev2@.wf(),
            m1 == rev1@.mmap(),
            m2 == rev2@.mmap(),
            n1 == rev1@.manifest.len(),
            n2 == rev2@.manifest.len(),
            i <= n2,
            rev_diff.files.wf(),
            forall|k: Seq<char>| #[trigger] rev_diff.files.m().contains_key(k) <==> m1.contains_key(k) || exists|j: int|
                0 <= j < i && rev2@.manifest[j].0 == k,
            forall|k: Seq<char>| #[trigger] rev_diff.files.m().contains_key(k) ==> diff_entry(disk@, repo@, m1, m2, k) == Some(
                rev_diff.files.m()[k],
            ),
        decreases n2 - i,
    {
        proof {
            lemma_seq_to_map(rev1@.manifest);
            lemma_seq_to_map(rev2@.manifest);
            if i == 0 {
                assert forall|k: Seq<char>| #[trigger] rev_diff.files.m().contains_key(k) <==> m1.contains_key(k) by {
                }
            }
        }
        let file2 = &rev2.manifest.entries[i].0;
        let info2 = &rev2.manifest.entries[i].1;
        proof {
            assert(rev2@.manifest[i as int] == (file2@, info2@));
            assert(m2.contains_key(file2@) && m2[file2@] == info2@);
        }
        if !rev_diff.files.contains_key(file2.as_str()) {
            let content2 = match repo.get_file_content(disk, info2) {
                Ok(c) => c,
                Err(e) => {
                    proof {
                        assert(!m1.contains_key(file2@));
                        assert(diff_entry(disk@, repo@, m1, m2, file2@) is None);
                        assert(m1.dom().union(m2.dom()).contains(file2@));
                    }
                    return Err(e);
                },
            };
            let fd = file_diff(String::new(), content2);
            proof {
                assert(!m1.contains_key(file2@));
                assert(diff_entry(disk@, repo@, m1, m2, file2@) == Some(fd@));
            }
            rev_diff.files.insert(file2.clone(), fd);
        }
        proof {
            assert forall|k: Seq<char>| #[trigger] rev_diff.files.m().contains_key(k) <==> m1.contains_key(k) || exists|j: int|
                0 <= j < i + 1 && rev2@.manifest[j].0 == k by {
                if exists|j: int| 0 <= j < i + 1 && rev2@.manifest[j].0 == k {
                    let j = choose|j: int| 0 <= j < i + 1 && rev2@.manifest[j].0 == k;
                    if j < i {
                    }
                }
            }
        }
        i = i + 1;
    }
    proof {
        lemma_seq_to_map(rev1@.manifest);
        lemma_seq_to_map(rev2@.manifest);
        assert(rev_diff.files.m().dom() =~= m1.dom().union(m2.dom()));
        assert forall|k: Seq<char>| #[trigger] m1.dom().union(m2.dom()).contains(k) implies diff_entry(disk@, repo@, m1, m2, k) is Some by {
            assert(rev_diff.files.m().contains_key(k));
        }
    }
    Ok(rev_diff)
}

/// `cat`: the stored content of a file of a revision.
pub open spec fn spec_cat(d: DiskV, wd: Seq<char>, rev_id: Seq<char>, path: Seq<char>) -> Result<Seq<char>, ErrV> {
    match spec_load(d, wd) {
        Err(e) => Err(e),
        Ok(r) => match spec_get_rev(d, r, rev_id) {
            Err(e) => Err(e),
            Ok(rv) => if !rv.mmap().contains_key(path) {
                static_e("file not found")
            } else {
                spec_file_content(d, r, rv.mmap()[path])
            },
        },
    }
}

/// The content of the file at `path` (relative to the working directory) in
/// the revision `rev_id` of the repository that holds `wd`.
pub fn cat(disk: &Disk, wd: &str, rev_id: &str, path: &str) -> (r: Result<String, Errors>)
    requires
        disk.wf(),
    ensures
        str_v(r) == spec_cat(disk@, wd@, rev_id@, path@),
{
    let repo = load(disk, wd)?;
    let rev = repo.get_rev(disk, rev_id)?;
    let manifest = rev.get_manifest();
    match manifest.get(path) {
        None => Err(Errors::Errstatic("file not found")),
        Some(file_info) => repo.get_file_content(disk, file_info),
    }
}

/// `add`: the file at `path` below `wd` is staged for adding in the
/// repository that holds `wd`.
pub open spec fn spec_add(d: DiskV, wd: Seq<char>, path: Seq<char>) -> (DiskV, Result<Seq<char>, ErrV>) {
    match spec_load(d, wd) {
        Err(e) => (d, Err(e)),
        Ok(r) => {
            let (r1, d1, s) = spec_add_file(d, r, spec_path_compose(wd, path));
            match s {
                Ok(_) => (d1, Ok("add success"@)),
                Err(e) => (d1, Err(e)),
            }
        },
    }
}

/// Stages the file at `path` below `wd` for adding.
pub fn add(disk: &mut Disk, wd: &str, path: &str) -> (r: Result<String, Errors>)
    requires
        old(disk).wf(),
    ensures
        final(disk).wf(),
        (final(disk)@, str_v(r)) == spec_add(old(disk)@, wd@, path@),
{
    let mut repo = load(disk, wd)?;
    let abs_path = path_compose(wd, path);
    repo.add_file(disk, abs_path.as_str())?;
    Ok(owned("add success"))
}

/// `remove`: the file at `path` below `wd` is staged for removal and
/// deleted from the working directory.
pub open spec fn spec_remove(d: DiskV, wd: Seq<char>, path: Seq<char>) -> (DiskV, Result<Seq<char>, ErrV>) {
    match spec_load(d, wd) {
        Err(e) => (d, Err(e)),
        Ok(r) => {
            let abs = spec_path_compose(wd, path);
            let (r1, d1, s1) = spec_remove_file(d, r, abs);
            match s1 {
                Err(e) => (d1, Err(e)),
                Ok(_) => if !named(abs) {
                    (d1, Err(ErrV::Io(crate::ui::IoKind::InvalidInput)))
                } else {
                    let (d2, s2) = spec_delete_file(d1, abs);
                    match s2 {
                        Err(e) => (d2, Err(e)),
                        Ok(_) => (d2, Ok("remove success"@)),
                    }
                },
            }
        },
    }
}

/// Stages the file at `path` below `wd` for removal and deletes it.
pub fn remove(disk: &mut Disk, wd: &str, path: &str) -> (r: Result<String, Errors>)
    requires
        old(disk).wf(),
    ensures
        final(disk).wf(),
        (final(disk)@, str_v(r)) == spec_remove(old(disk)@, wd@, path@),
{
    let mut repo = load(disk, wd)?;
    let abs_path = path_compose(wd, path);
    repo.remove_file(disk, abs_path.as_str())?;
    if !is_named(abs_path.as_str()) {
        return Err(unnamed_error(abs_path.as_str()));
    }
    delete_file(disk, abs_path.as_str())?;
    Ok(owned("remove success"))
}

/// The staged files whose stored content still holds the markers of an
/// unresolved merge, with the message that names the line; the first
/// content that cannot be read stops.
pub open spec fn spec_conflicts(d: DiskV, r: RepoV, items: Seq<(Seq<char>, ItemInfoV)>) -> Result<Seq<(Seq<char>, Seq<char>)>, ErrV>
    decreases items.len(),
{
    if items.len() == 0 {
        Ok(Seq::empty())
    } else {
        match spec_conflicts(d, r, items.drop_last()) {
            Err(e) => Err(e),
            Ok(acc) => match spec_file_content(d, r, items.last().1) {
                Err(e) => Err(e),
                Ok(c) => match spec_find_unmerged(c) {
                    Ok(_) => Ok(acc),
                    Err(m) => Ok(acc.push((items.last().0, m))),
                },
            },
        }
    }
}

/// The views of a list of pairs of strings.
pub open spec fn pairs_view(v: Seq<(String, String)>) -> Seq<(Seq<char>, Seq<char>)> {
    v.map_values(|p: (String, String)| (p.0@, p.1@))
}

proof fn lemma_conflicts_stop(d: DiskV, r: RepoV, s: Seq<(Seq<char>, ItemInfoV)>, j: int, k: int)
    requires
        0 <= j <= k <= s.len(),
        spec_conflicts(d, r, s.subrange(0, j)) is Err,
    ensures
        spec_conflicts(d, r, s.subrange(0, k)) == spec_conflicts(d, r, s.subrange(0, j)),
    decreases k - j,
{
    if k > j {
        lemma_conflicts_stop(d, r, s, j, k - 1);
        assert(s.subrange(0, k).drop_last() =~= s.subrange(0, k - 1));
    }
}

/// The staged files that still hold conflict markers, with the message that
/// names the line; none when there is no such file.
pub fn find_conflict_files(repo: &Repo, disk: &Disk, stage: &Stage) -> (r: Result<Option<Vec<(String, String)>>, Errors>)
    requires
        disk.wf(),
        repo@.wf(),
    ensures
        match spec_conflicts(disk@, repo@, stage@.to_add) {
            Err(e) => r matches Err(x) && err_v(x) == e,
            Ok(cs) => r matches Ok(o) && (cs.len() == 0 ==> o is None) && (cs.len() > 0 ==> (o matches Some(v) && pairs_view(
                v@,
            ) == cs)),
        },
{
    let mut conflict_files: Vec<(String, String)> = Vec::new();
    let items = stage.get_add();
    let n = items.entries.len();
    let mut i: usize = 0;
    proof {
        assert(stage@.to_add.subrange(0, 0) =~= Seq::<(Seq<char>, ItemInfoV)>::empty());
        assert(pairs_view(conflict_files@) =~= Seq::<(Seq<char>, Seq<char>)>::empty());
    }
    while i < n
        invariant
            disk.wf(),
            repo@.wf(),
            items.ev() == stage@.to_add,
            n == items.ev().len(),
            i <= n,
            spec_conflicts(disk@, repo@, stage@.to_add.subrange(0, i as int)) == Ok::<Seq<(Seq<char>, Seq<char>)>, ErrV>(
                pairs_view(conflict_files@),
            ),
        decreases n - i,
    {
        let ghost s1 = stage@.to_add.subrange(0, i + 1);
        proof {
            assert(s1.drop_last() =~= stage@.to_add.subrange(0, i as int));
            assert(s1.last() == (items.entries@[i as int].0@, items.entries@[i as int].1@));
        }
        let content = match repo.get_file_content(disk, &items.entries[i].1) {
            Ok(c) => c,
            Err(e) => {
                proof {
                    lemma_conflicts_stop(disk@, repo@, stage@.to_add, i + 1, n as int);
                    assert(stage@.to_add.subrange(0, n as int) =~= stage@.to_add);
                }
                return Err(e);
            },
        };
        match find_unmerged(content) {
            Ok(_) => {},
            Err(m) => {
                let ghost c0 = conflict_files@;
                conflict_files.push((items.entries[i].0.clone(), m));
                proof {
                    assert(pairs_view(conflict_files@) =~= pairs_view(c0).push((items.entries@[i as int].0@, m@)));
                }
            },
        }
        i = i + 1;
    }
    proof {
        assert(stage@.to_add.subrange(0, n as int) =~= stage@.to_add);
    }
    if conflict_files.len() > 0 {
        Ok(Some(conflict_files))
    } else {
        Ok(None)
    }
}

/// What `commit` may end in for a loaded repository: no change and
/// conflicts refuse; otherwise the repository commits, and once it has, the
/// result is the id of the head it then has.
pub open spec fn commit_cmd_outcome(d: DiskV, r: RepoV, message: Seq<char>, fd: DiskV, res: Result<Seq<char>, ErrV>) -> bool {
    if r.stage.add_map().len() == 0 && r.stage.remove_map().len() == 0 {
        fd == d && res == static_e::<Seq<char>>("no change")
    } else {
        match spec_conflicts(d, r, r.stage.to_add) {
            Err(e) => fd == d && res == Err::<Seq<char>, ErrV>(e),
            Ok(cs) => if cs.len() > 0 {
                fd == d && res == static_e::<Seq<char>>("conflict found")
            } else {
                exists|fr: RepoV, cr: Result<(), ErrV>|
                    #![trigger spec_commit_allows(d, r, message, fr, fd, cr)]
                    spec_commit_allows(d, r, message, fr, fd, cr) && match cr {
                        Err(e) => res == Err::<Seq<char>, ErrV>(e),
                        Ok(_) => match spec_current_head(fd, fr) {
                            Err(e) => res == Err::<Seq<char>, ErrV>(e),
                            Ok(h) => match h.rev_id {
                                Some(id) => res == Ok::<Seq<char>, ErrV>(id),
                                None => res == static_e::<Seq<char>>("the new head has no id"),
                            },
                        },
                    }
            },
        }
    }
}

/// Commits the stage of the repository that holds `wd` with a message,
/// returning the id of the new revision. Refuses when nothing is staged or
/// a staged file still holds conflict markers.
pub fn commit(disk: &mut Disk, wd: &str, message: &str) -> (r: Result<String, Errors>)
    requires
        old(disk).wf(),
    ensures
        final(disk).wf(),
        match spec_load(old(disk)@, wd@) {
            Err(e) => r matches Err(x) && err_v(x) == e && final(disk)@ == old(disk)@,
            Ok(repo) => commit_cmd_outcome(old(disk)@, repo, message@, final(disk)@, str_v(r)),
        },
{
    let mut repo = load(disk, wd)?;
    if repo.get_stage().is_empty() {
        return Err(Errors::Errstatic("no change"));
    }
    let conflicted_files = find_conflict_files(&repo, disk, repo.get_stage())?;
    if conflicted_files.is_some() {
        return Err(Errors::Errstatic("conflict found"));
    }
    let ghost d0 = disk@;
    let ghost r0 = repo@;
    let cr = repo.commit(disk, message);
    let ghost fr = repo@;
    let ghost crv = unit_v(cr);
    if let Err(e) = cr {
        assert(spec_commit_allows(d0, r0, message@, fr, disk@, crv));
        return Err(e);
    }
    let head2 = repo.get_current_head(disk)?;
    let res = match head2.get_id() {
        Some(id) => Ok(owned(id)),
        None => Err(Errors::Errstatic("the new head has no id")),
    };
    assert(spec_commit_allows(d0, r0, message@, fr, disk@, crv));
    res
}

/// The result of a step whose failure is ignored.
fn ignore<T>(r: Result<T, Errors>) {
}

/// Writing one merged text at `k` below `wd`, whatever the write gives, and
/// staging it through `add`.
pub open spec fn spec_write_add_one(d: DiskV, wd: Seq<char>, k: Seq<char>, text: Seq<char>) -> (DiskV, Result<(), ErrV>) {
    let p = spec_path_compose(wd, k);
    if !named(p) {
        (d, io_e(IoKind::InvalidInput))
    } else {
        let (d2, s2) = spec_add(spec_write_file(d, p, text).0, wd, k);
        match s2 {
            Ok(_) => (d2, Ok(())),
            Err(e) => (d2, Err(e)),
        }
    }
}

/// Writing and staging each merged text in turn, stopping at the first
/// failure.
pub open spec fn spec_write_add(d: DiskV, wd: Seq<char>, s: Seq<(Seq<char>, Seq<char>)>) -> (DiskV, Result<(), ErrV>)
    decreases s.len(),
{
    if s.len() == 0 {
        (d, Ok(()))
    } else {
        let (d1, s1) = spec_write_add(d, wd, s.drop_last());
        if s1 is Err {
            (d1, s1)
        } else {
            spec_write_add_one(d1, wd, s.last().0, s.last().1)
        }
    }
}

/// Writing one merged text at `k` below `wd`, whatever the write gives, and
/// staging it in `r`.
pub open spec fn spec_write_stage_one(d: DiskV, r: RepoV, wd: Seq<char>, k: Seq<char>, text: Seq<char>) -> (
    RepoV,
    DiskV,
    Result<(), ErrV>,
) {
    let p = spec_path_compose(wd, k);
    if !named(p) {
        (r, d, io_e(IoKind::InvalidInput))
    } else {
        spec_add_file(spec_write_file(d, p, text).0, r, p)
    }
}

/// Writing and staging each merged text in turn in `r`, stopping at the
/// first failure.
pub open spec fn spec_write_stage(d: DiskV, r: RepoV, wd: Seq<char>, s: Seq<(Seq<char>, Seq<char>)>) -> (
    RepoV,
    DiskV,
    Result<(), ErrV>,
)
    decreases s.len(),
{
    if s.len() == 0 {
        (r, d, Ok(()))
    } else {
        let (r1, d1, s1) = spec_write_stage(d, r, wd, s.drop_last());
        if s1 is Err {
            (r1, d1, s1)
        } else {
            spec_write_stage_one(d1, r1, wd, s.last().0, s.last().1)
        }
    }
}

proof fn lemma_write_add_stops(d: DiskV, wd: Seq<char>, s: Seq<(Seq<char>, Seq<char>)>, j: int, k: int)
    requires
        0 <= j <= k <= s.len(),
        spec_write_add(d, wd, s.subrange(0, j)).1 is Err,
    ensures
        spec_write_add(d, wd, s.subrange(0, k)) == spec_write_add(d, wd, s.subrange(0, j)),
    decreases k - j,
{
    if k > j {
        lemma_write_add_stops(d, wd, s, j, k - 1);
        assert(s.subrange(0, k).drop_last() =~= s.subrange(0, k - 1));
    }
}

proof fn lemma_write_stage_stops(d: DiskV, r: RepoV, wd: Seq<char>, s: Seq<(Seq<char>, Seq<char>)>, j: int, k: int)
    requires
        0 <= j <= k <= s.len(),
        spec_write_stage(d, r, wd, s.subrange(0, j)).2 is Err,
    ensures
        spec_write_stage(d, r, wd, s.subrange(0, k)) == spec_write_stage(d, r, wd, s.subrange(0, j)),
    decreases k - j,
{
    if k > j {
        lemma_write_stage_stops(d, r, wd, s, j, k - 1);
        assert(s.subrange(0, k).drop_last() =~= s.subrange(0, k - 1));
    }
}

/// Writes each merged content into the working directory and stages it
/// through `add`, stopping at the first staging that fails.
fn write_and_add(disk: &mut Disk, wd: &str, merged: &StrMap<String>) -> (r: Result<(), Errors>)
    requires
        old(disk).wf(),
    ensures
        final(disk).wf(),
        (final(disk)@, unit_v(r)) == spec_write_add(old(disk)@, wd@, merged.ev()),
{
    let n = merged.entries.len();
    let mut i: usize = 0;
    let ghost s = merged.ev();
    proof {
        assert(s.subrange(0, 0) =~= Seq::<(Seq<char>, Seq<char>)>::empty());
    }
    while i < n
        invariant
            disk.wf(),
            n == merged.entries@.len(),
            s == merged.ev(),
            i <= n,
            (disk@, Ok::<(), ErrV>(())) == spec_write_add(old(disk)@, wd@, s.subrange(0, i as int)),
        decreases n - i,
    {
        let file = merged.entries[i].0.as_str();
        let abs_path = path_compose(wd, file);
        proof {
            let s1 = s.subrange(0, i + 1);
            assert(s1.drop_last() =~= s.subrange(0, i as int));
            assert(s1.last() == (file@, merged.entries@[i as int].1@));
        }
        if !is_named(abs_path.as_str()) {
            proof {
                lemma_write_add_stops(old(disk)@, wd@, s, i + 1, n as int);
                assert(s.subrange(0, n as int) =~= s);
            }
            return Err(unnamed_error(abs_path.as_str()));
        }
        ignore(write_file(disk, abs_path.as_str(), merged.entries[i].1.as_str()));
        match self::add(disk, wd, file) {
            Ok(_) => {},
            Err(e) => {
                proof {
                    lemma_write_add_stops(old(disk)@, wd@, s, i + 1, n as int);
                    assert(s.subrange(0, n as int) =~= s);
                }
                return Err(e);
            },
        }
        i = i + 1;
    }
    proof {
        assert(s.subrange(0, n as int) =~= s);
    }
    Ok(())
}

/// Writes each merged content into the working directory and stages it in
/// `repo`, stopping at the first staging that fails.
fn write_and_stage(repo: &mut Repo, disk: &mut Disk, wd: &str, merged: &StrMap<String>) -> (r: Result<(), Errors>)
    requires
        old(disk).wf(),
        old(repo)@.wf(),
    ensures
        final(disk).wf(),
        final(repo)@.wf(),
        (final(repo)@, final(disk)@, unit_v(r)) == spec_write_stage(old(disk)@, old(repo)@, wd@, merged.ev()),
{
    let n = merged.entries.len();
    let mut i: usize = 0;
    let ghost s = merged.ev();
    proof {
        assert(s.subrange(0, 0) =~= Seq::<(Seq<char>, Seq<char>)>::empty());
    }
    while i < n
        invariant
            disk.wf(),
            repo@.wf(),
            n == merged.entries@.len(),
            s == merged.ev(),
            i <= n,
            (repo@, disk@, Ok::<(), ErrV>(())) == spec_write_stage(old(disk)@, old(repo)@, wd@, s.subrange(0, i as int)),
        decreases n - i,
    {
        let abs_path = path_compose(wd, merged.entries[i].0.as_str());
        proof {
            let s1 = s.subrange(0, i + 1);
            assert(s1.drop_last() =~= s.subrange(0, i as int));
            assert(s1.last() == (merged.entries@[i as int].0@, merged.entries@[i as int].1@));
        }
        if !is_named(abs_path.as_str()) {
            proof {
                lemma_write_stage_stops(old(disk)@, old(repo)@, wd@, s, i + 1, n as int);
                assert(s.subrange(0, n as int) =~= s);
            }
            return Err(unnamed_error(abs_path.as_str()));
        }
        ignore(write_file(disk, abs_path.as_str(), merged.entries[i].1.as_str()));
        match repo.add_file(disk, abs_path.as_str()) {
            Ok(_) => {},
            Err(e) => {
                proof {
                    lemma_write_stage_stops(old(disk)@, old(repo)@, wd@, s, i + 1, n as int);
                    assert(s.subrange(0, n as int) =~= s);
                }
                return Err(e);
            },
        }
        i = i + 1;
    }
    proof {
        assert(s.subrange(0, n as int) =~= s);
    }
    Ok(())
}

/// The ids of two revisions, which must have them.
fn both_ids<'a>(a: &'a Rev, b: &'a Rev) -> (r: Result<(&'a str, &'a str), Errors>)
    ensures
        match r {
            Ok((x, y)) => a@.rev_id == Some(x@) && b@.rev_id == Some(y@),
            Err(e) => (a@.rev_id is None || b@.rev_id is None) && err_v(e) == ErrV::Static("revision without id"@),
        },
{
    match (a.get_id(), b.get_id()) {
        (Some(x), Some(y)) => Ok((x, y)),
        _ => Err(Errors::Errstatic("revision without id")),
    }
}

/// The three-way merge of two changes of one file: the modified contents
/// against the original of the first, each made to end with a line break.
pub open spec fn merge_views(a: FileDiffV, b: FileDiffV) -> Result<Seq<char>, Seq<char>> {
    diffy_merge(with_newline(a.origin_content), with_newline(a.mod_content), with_newline(b.mod_content))
}

/// The text that merging two sets of changes gives a path: both changes
/// merged where both sides changed it, otherwise the one change made.
pub open spec fn merged_text(m1: Map<Seq<char>, FileDiffV>, m2: Map<Seq<char>, FileDiffV>, k: Seq<char>) -> Seq<char> {
    if m1.contains_key(k) {
        if m2.contains_key(k) {
            match merge_views(m1[k], m2[k]) {
                Ok(t) => t,
                Err(t) => t,
            }
        } else {
            m1[k].mod_content
        }
    } else {
        m2[k].mod_content
    }
}

/// Both sets of changes start from the same content for every path they
/// share.
pub open spec fn origins_agree(m1: Map<Seq<char>, FileDiffV>, m2: Map<Seq<char>, FileDiffV>) -> bool {
    forall|k: Seq<char>| #[trigger] m1.contains_key(k) && m2.contains_key(k) ==> m1[k].origin_content == m2[k].origin_content
}

/// Some path that both sets change cannot be merged cleanly.
pub open spec fn merge_conflicts(m1: Map<Seq<char>, FileDiffV>, m2: Map<Seq<char>, FileDiffV>) -> bool {
    exists|k: Seq<char>| #[trigger] m1.contains_key(k) && m2.contains_key(k) && merge_views(m1[k], m2[k]) is Err
}

/// Merges two sets of changes made from a common revision, path by path:
/// the merged texts, and whether any of them holds a conflict. Fails when
/// the two start from different contents of a path they share.
pub fn merge_diffs(diffs1: &StrMap<FileDiff>, diffs2: &StrMap<FileDiff>) -> (r: Result<(StrMap<String>, bool), Errors>)
    requires
        diffs1.wf(),
        diffs2.wf(),
    ensures
        r is Ok <==> origins_agree(diffs1.m(), diffs2.m()),
        r matches Err(e) ==> err_v(e) == ErrV::Static("conflict_find: diff1 and diff2 have different original files"@),
        r matches Ok((files, conflict)) ==> {
            &&& files.wf()
            &&& files.m().dom() == diffs1.m().dom().union(diffs2.m().dom())
            &&& forall|k: Seq<char>| #[trigger] files.m().contains_key(k) ==> files.m()[k] == merged_text(diffs1.m(), diffs2.m(), k)
            &&& conflict == merge_conflicts(diffs1.m(), diffs2.m())
        },
{
    let ghost m1 = diffs1.m();
    let ghost m2 = diffs2.m();
    proof {
        lemma_seq_to_map(diffs1.ev());
        lemma_seq_to_map(diffs2.ev());
    }
    let mut merged_files: StrMap<String> = StrMap::new();
    let mut has_conflict = false;
    let n1 = diffs1.entries.len();
    let mut i: usize = 0;
    while i < n1
        invariant
            n1 == diffs1.ev().len(),
            i <= n1,
            diffs1.wf(),
            diffs2.wf(),
            m1 == diffs1.m(),
            m2 == diffs2.m(),
            merged_files.wf(),
            merged_files.m().dom() == Set::new(|k: Seq<char>| exists|j: int| 0 <= j < i && diffs1.ev()[j].0 == k),
            forall|k: Seq<char>| #[trigger] merged_files.m().contains_key(k) ==> merged_files.m()[k] == merged_text(m1, m2, k),
            forall|j: int| 0 <= j < i && #[trigger] m2.contains_key(diffs1.ev()[j].0) ==> m1[diffs1.ev()[j].0].origin_content
                == m2[diffs1.ev()[j].0].origin_content,
            has_conflict == exists|j: int| 0 <= j < i && #[trigger] m2.contains_key(diffs1.ev()[j].0) && merge_views(
                m1[diffs1.ev()[j].0],
                m2[diffs1.ev()[j].0],
            ) is Err,
        decreases n1 - i,
    {
        let file = &diffs1.entries[i].0;
        let diff1 = &diffs1.entries[i].1;
        proof {
            lemma_seq_to_map(diffs1.ev());
            assert(diffs1.ev()[i as int] == (file@, diff1@));
            assert(m1[file@] == diff1@);
        }
        match diffs2.get(file.as_str()) {
            None => {
                merged_files.insert(file.clone(), diff1.get_modified());
            },
            Some(diff2) => {
                let conflict = match conflict_find(diff1.dup(), diff2.dup()) {
                    Ok(c) => c,
                    Err(e) => {
                        proof {
                            assert(!origins_agree(m1, m2)) by {
                                assert(m1.contains_key(file@) && m2.contains_key(file@));
                            }
                        }
                        return Err(e);
                    },
                };
                merged_files.insert(file.clone(), conflict.get_content());
                if conflict.is_conflict() {
                    has_conflict = true;
                }
            },
        }
        proof {
            assert(merged_files.m().dom() =~= Set::new(|k: Seq<char>| exists|j: int| 0 <= j < i + 1 && diffs1.ev()[j].0 == k)) by {
                assert forall|k: Seq<char>| (exists|j: int| 0 <= j < i + 1 && diffs1.ev()[j].0 == k) implies #[trigger] merged_files.m().dom().contains(k) by {
                    let j = choose|j: int| 0 <= j < i + 1 && diffs1.ev()[j].0 == k;
                    if j < i {
                        assert(exists|j2: int| 0 <= j2 < i && diffs1.ev()[j2].0 == k);
                    }
                }
            }
            assert(has_conflict == exists|j: int| 0 <= j < i + 1 && #[trigger] m2.contains_key(diffs1.ev()[j].0) && merge_views(
                m1[diffs1.ev()[j].0],
                m2[diffs1.ev()[j].0],
            ) is Err) by {
                if has_conflict {
                    if m2.contains_key(file@) && merge_views(m1[file@], m2[file@]) is Err {
                        assert(diffs1.ev()[i as int].0 == file@);
                    }
                }
            }
        }
        i = i + 1;
    }
    let n2 = diffs2.entries.len();
    let mut i: usize = 0;
    let ghost done1 = merged_files.m().dom();
    proof {
        assert(done1 =~= m1.dom()) by {
            assert forall|k: Seq<char>| m1.dom().contains(k) implies done1.contains(k) by {
                let j = choose|j: int| 0 <= j < diffs1.ev().len() && diffs1.ev()[j].0 == k;
            }
        }
    }
    while i < n2
        invariant
            n2 == diffs2.ev().len(),
            i <= n2,
            diffs1.wf(),
            diffs2.wf(),
            m1 == diffs1.m(),
            m2 == diffs2.m(),
            merged_files.wf(),
            merged_files.m().dom() == m1.dom().union(Set::new(|k: Seq<char>| exists|j: int| 0 <= j < i && diffs2.ev()[j].0 == k)),
            forall|k: Seq<char>| #[trigger] merged_files.m().contains_key(k) ==> merged_files.m()[k] == merged_text(m1, m2, k),
            n1 == diffs1.ev().len(),
            forall|j: int| 0 <= j < n1 && #[trigger] m2.contains_key(diffs1.ev()[j].0) ==> m1[diffs1.ev()[j].0].origin_content
                == m2[diffs1.ev()[j].0].origin_content,
            has_conflict == exists|j: int| 0 <= j < n1 && #[trigger] m2.contains_key(diffs1.ev()[j].0) && merge_views(
                m1[diffs1.ev()[j].0],
                m2[diffs1.ev()[j].0],
            ) is Err,
        decreases n2 - i,
    {
        let file = &diffs2.entries[i].0;
        proof {
            lemma_seq_to_map(diffs2.ev());
            assert(diffs2.ev()[i as int] == (file@, diffs2.entries@[i as int].1@));
            assert(m2[file@] == diffs2.entries@[i as int].1@);
        }
        if !diffs1.contains_key(file.as_str()) {
            merged_files.insert(file.clone(), diffs2.entries[i].1.get_modified());
        }
        proof {
            assert(merged_files.m().dom() =~= m1.dom().union(Set::new(|k: Seq<char>| exists|j: int| 0 <= j < i + 1 && diffs2.ev()[j].0 == k))) by {
                assert forall|k: Seq<char>| m1.dom().union(Set::new(|k: Seq<char>| exists|j: int| 0 <= j < i + 1 && diffs2.ev()[j].0 == k)).contains(k) implies #[trigger] merged_files.m().dom().contains(k) by {
                    if !m1.dom().contains(k) {
                        let j = choose|j: int| 0 <= j < i + 1 && diffs2.ev()[j].0 == k;
                        if j < i {
                            assert(exists|j2: int| 0 <= j2 < i && diffs2.ev()[j2].0 == k);
                        }
                    }
                }
            }
        }
        i = i + 1;
    }
    proof {
        assert(merged_files.m().dom() =~= m1.dom().union(m2.dom())) by {
            assert forall|k: Seq<char>| m2.dom().contains(k) implies #[trigger] merged_files.m().dom().contains(k) by {
                let j = choose|j: int| 0 <= j < diffs2.ev().len() && diffs2.ev()[j].0 == k;
                assert(exists|j2: int| 0 <= j2 < n2 && diffs2.ev()[j2].0 == k);
            }
        }
        assert(origins_agree(m1, m2)) by {
            assert forall|k: Seq<char>| #[trigger] m1.contains_key(k) && m2.contains_key(k) implies m1[k].origin_content == m2[k].origin_content by {
                let j = choose|j: int| 0 <= j < diffs1.ev().len() && diffs1.ev()[j].0 == k;
                assert(m2.contains_key(diffs1.ev()[j].0));
            }
        }
        assert(has_conflict == merge_conflicts(m1, m2)) by {
            lemma_seq_to_map(diffs1.ev());
            if has_conflict {
                let j = choose|j: int| 0 <= j < n1 && #[trigger] m2.contains_key(diffs1.ev()[j].0) && merge_views(
                    m1[diffs1.ev()[j].0],
                    m2[diffs1.ev()[j].0],
                ) is Err;
                let k = diffs1.ev()[j].0;
                assert(m1.contains_key(k) && m2.contains_key(k) && merge_views(m1[k], m2[k]) is Err);
            }
            if merge_conflicts(m1, m2) {
                let k = choose|k: Seq<char>| #[trigger] m1.contains_key(k) && m2.contains_key(k) && merge_views(m1[k], m2[k]) is Err;
                let j = choose|j: int| 0 <= j < diffs1.ev().len() && diffs1.ev()[j].0 == k;
                assert(m2.contains_key(diffs1.ev()[j].0));
            }
        }
    }
    Ok((merged_files, has_conflict))
}

/// What `merge` decides before it compares contents.
pub open spec fn merge_precheck(d: DiskV, wd: Seq<char>, src: Seq<char>) -> Option<Result<Seq<char>, ErrV>> {
    match spec_load(d, wd) {
        Err(e) => Some(Err(e)),
        Ok(r) => match spec_current_head(d, r) {
            Err(e) => Some(Err(e)),
            Ok(h) => if !(r.stage.add_map().len() == 0 && r.stage.remove_map().len() == 0) {
                Some(static_e("pull failed: uncommitted changes in working directory, commit changes first"))
            } else {
                match spec_get_rev(d, r, src) {
                    Err(e) => Some(Err(e)),
                    Ok(rv2) => if h.rev_id is None || rv2.rev_id is None {
                        Some(static_e("revision without id"))
                    } else if h.rev_id == rv2.rev_id {
                        Some(Ok("already up to date"@))
                    } else {
                        None
                    },
                }
            },
        },
    }
}

/// The message of a merge commit of `src` into `cur`.
pub open spec fn merge_message(cur: Seq<char>, src: Seq<char>) -> Seq<char> {
    "merge "@ + cur + " into "@ + src
}

/// What `merge_changes` ends in: with a conflict the merged texts are
/// written and staged through `add`, and the merge fails; otherwise they are
/// written and staged in `r`, committed as the merge of `src` into `cur`,
/// and the id of the new head is the result. `fr` is the repository after.
pub open spec fn merge_tail(
    d: DiskV,
    r: RepoV,
    wd: Seq<char>,
    cur: Seq<char>,
    src: Seq<char>,
    merged: Seq<(Seq<char>, Seq<char>)>,
    conflict: bool,
    fr: RepoV,
    fd: DiskV,
    res: Result<Seq<char>, ErrV>,
) -> bool {
    if conflict {
        let (d1, s1) = spec_write_add(d, wd, merged);
        &&& fr == r
        &&& fd == d1
        &&& res == match s1 {
            Err(e) => Err::<Seq<char>, ErrV>(e),
            Ok(_) => Err::<Seq<char>, ErrV>(ErrV::Str("Conflicts found, please resolve the conflicts and try to commit again"@)),
        }
    } else {
        let (r1, d1, s1) = spec_write_stage(d, r, wd, merged);
        if s1 is Err {
            fr == r1 && fd == d1 && res == Err::<Seq<char>, ErrV>(s1->Err_0)
        } else {
            exists|rc: Result<(), ErrV>|
                #![trigger merge_commit_outcome(d1, r1, cur, src, Some(merge_message(cur, src)), fr, fd, rc)]
                merge_commit_outcome(d1, r1, cur, src, Some(merge_message(cur, src)), fr, fd, rc) && match rc {
                    Err(e) => res == Err::<Seq<char>, ErrV>(e),
                    Ok(_) => match spec_current_head(fd, fr) {
                        Err(e) => res == Err::<Seq<char>, ErrV>(e),
                        Ok(h) => match h.rev_id {
                            Some(id) => res == Ok::<Seq<char>, ErrV>(id),
                            None => res == static_e::<Seq<char>>("revision without id"),
                        },
                    },
                }
        }
    }
}

/// Brings merged texts into the repository: with a conflict they are
/// written into the working directory and staged, markers and all, and the
/// merge fails; otherwise they are written, staged and committed as the
/// merge of `src_id` into `cur_id`, and the id of the new head is returned.
#[verifier::rlimit(40)]
#[verifier::spinoff_prover]
pub fn merge_changes(
    repo: &mut Repo,
    disk: &mut Disk,
    wd: &str,
    cur_id: &str,
    src_id: &str,
    merged: &StrMap<String>,
    conflict: bool,
) -> (r: Result<String, Errors>)
    requires
        old(disk).wf(),
        old(repo)@.wf(),
    ensures
        final(disk).wf(),
        final(repo)@.wf(),
        merge_tail(old(disk)@, old(repo)@, wd@, cur_id@, src_id@, merged.ev(), conflict, final(repo)@, final(disk)@, str_v(r)),
{
    if conflict {
        write_and_add(disk, wd, merged)?;
        return Err(Errors::ErrStr(owned("Conflicts found, please resolve the conflicts and try to commit again")));
    }
    write_and_stage(repo, disk, wd, merged)?;
    let ghost d1 = disk@;
    let ghost r1 = repo@;
    let message = concat3("merge ", cur_id, " into ");
    let message = concat(message.as_str(), src_id);
    proof {
        reveal_strlit("merge ");
        reveal_strlit(" into ");
        assert(message@ == merge_message(cur_id@, src_id@));
    }
    let rc = repo.merge_commit(disk, cur_id, src_id, Some(message.as_str()));
    proof {
        assert(merge_commit_outcome(d1, r1, cur_id@, src_id@, Some(merge_message(cur_id@, src_id@)), repo@, disk@, unit_v(rc)));
    }
    match rc {
        Ok(_) => {},
        Err(e) => return Err(e),
    }
    let cur_head = repo.get_current_head(disk)?;
    match cur_head.get_id() {
        Some(id) => Ok(owned(id)),
        None => Err(Errors::Errstatic("revision without id")),
    }
}

/// The changes between two manifests, for every file of either, as `diff`
/// records them.
pub open spec fn diff_map(d: DiskV, r: RepoV, m1: Map<Seq<char>, ItemInfoV>, m2: Map<Seq<char>, ItemInfoV>) -> Map<
    Seq<char>,
    FileDiffV,
> {
    Map::new(|k: Seq<char>| m1.dom().union(m2.dom()).contains(k), |k: Seq<char>| diff_entry(d, r, m1, m2, k)->Some_0)
}

/// What `diff` gives between the revisions `a` and `b` of `r`, when it
/// succeeds.
pub open spec fn diff_of(d: DiskV, r: RepoV, a: Seq<char>, b: Seq<char>) -> Option<Map<Seq<char>, FileDiffV>> {
    match (spec_get_rev(d, r, a), spec_get_rev(d, r, b)) {
        (Ok(rv1), Ok(rv2)) => if all_readable(d, r, rv1.mmap(), rv2.mmap()) {
            Some(diff_map(d, r, rv1.mmap(), rv2.mmap()))
        } else {
            None
        },
        _ => None,
    }
}

proof fn lemma_diff_ok_map(d: DiskV, r: RepoV, m1: Map<Seq<char>, ItemInfoV>, m2: Map<Seq<char>, ItemInfoV>, out: Map<Seq<char>, FileDiffV>)
    requires
        diff_ok(d, r, m1, m2, out),
    ensures
        out == diff_map(d, r, m1, m2),
{
    assert(out =~= diff_map(d, r, m1, m2));
}

/// The merged texts of two sets of changes, by path.
pub open spec fn merged_map(m1: Map<Seq<char>, FileDiffV>, m2: Map<Seq<char>, FileDiffV>) -> Map<Seq<char>, Seq<char>> {
    Map::new(|k: Seq<char>| m1.dom().union(m2.dom()).contains(k), |k: Seq<char>| merged_text(m1, m2, k))
}

/// One way a merge of `rv2` into the head `h` of `r` can go once it has
/// found a common revision: `z` is a lowest common ancestor of the two
/// heads, whose revision has an id from which `diff` reaches both heads; the merged texts, in the order `merged` gives them, are
/// brought in by `merge_changes`, leaving the repository `fr`.
pub open spec fn merge_via(
    d: DiskV,
    r: RepoV,
    wd: Seq<char>,
    h: RevV,
    rv2: RevV,
    z: Seq<char>,
    merged: Seq<(Seq<char>, Seq<char>)>,
    fr: RepoV,
    fd: DiskV,
    res: Result<Seq<char>, ErrV>,
) -> bool {
    let cur = h.rev_id->Some_0;
    let src = rv2.rev_id->Some_0;
    &&& is_lca(d, r, h, rv2, z)
    &&& spec_get_rev(d, r, z) matches Ok(lca)
    &&& lca.rev_id matches Some(oid)
    &&& diff_of(d, r, oid, cur) matches Some(m1)
    &&& diff_of(d, r, oid, src) matches Some(m2)
    &&& origins_agree(m1, m2)
    &&& distinct_keys(merged)
    &&& seq_to_map(merged) == merged_map(m1, m2)
    &&& merge_tail(d, r, wd, cur, src, merged, merge_conflicts(m1, m2), fr, fd, res)
}

/// The search for a common revision of `h` and `rv2` gave `z`, a lowest
/// common ancestor of the two, and the merge
/// stops there: the revision stored under `z` has no id, a `diff` from it
/// to either head fails, or the two sets of changes start from different
/// texts of a file.
pub open spec fn merge_stops(d: DiskV, r: RepoV, h: RevV, rv2: RevV, z: Seq<char>, res: Result<Seq<char>, ErrV>) -> bool {
    let cur = h.rev_id->Some_0;
    let src = rv2.rev_id->Some_0;
    &&& is_lca(d, r, h, rv2, z)
    &&& spec_get_rev(d, r, z) matches Ok(lca)
    &&& match lca.rev_id {
        None => res == static_e::<Seq<char>>("revision without id"),
        Some(oid) => match (diff_of(d, r, oid, cur), diff_of(d, r, oid, src)) {
            (Some(m1), Some(m2)) => !origins_agree(m1, m2) && res == static_e::<Seq<char>>(
                "conflict_find: diff1 and diff2 have different original files",
            ),
            _ => res is Err,
        },
    }
}

/// What `merge` may end in: what its first checks decide; otherwise, with
/// the disk unchanged, a failed search for a common revision where the two
/// histories do not both fit or share no revision, or a stop at the lowest
/// common ancestor found; or else the merge through that revision.
#[verifier::opaque]
pub open spec fn merge_outcome(d: DiskV, wd: Seq<char>, src: Seq<char>, fd: DiskV, res: Result<Seq<char>, ErrV>) -> bool {
    match merge_precheck(d, wd, src) {
        Some(x) => res == x && fd == d,
        None => {
            let r = spec_load(d, wd)->Ok_0;
            let h = spec_current_head(d, r)->Ok_0;
            let rv2 = spec_get_rev(d, r, src)->Ok_0;
            ||| !(history_fits(d, r, h) && history_fits(d, r, rv2) && exists|y: Seq<char>|
                #[trigger] common_anc(d, r, h, rv2, y)) && res is Err && fd == d
            ||| fd == d && exists|z: Seq<char>| #[trigger] merge_stops(d, r, h, rv2, z, res)
            ||| exists|z: Seq<char>, merged: Seq<(Seq<char>, Seq<char>)>, fr: RepoV|
                #[trigger] merge_via(d, r, wd, h, rv2, z, merged, fr, fd, res)
        },
    }
}

/// Merges the revision `rev_id_src` into the checked-out branch of the
/// repository that holds `wd`. Each file is merged three ways against the
/// common ancestor of the two heads and written into the working
/// directory. With a conflict the merged files, markers and all, are staged
/// and the merge fails; otherwise they are committed as a merge, and the id
/// of the new head is returned.
pub fn merge(disk: &mut Disk, wd: &str, rev_id_src: String) -> (r: Result<String, Errors>)
    requires
        old(disk).wf(),
    ensures
        final(disk).wf(),
        merge_outcome(old(disk)@, wd@, rev_id_src@, final(disk)@, str_v(r)),
{
    proof {
        reveal(merge_outcome);
    }
    let mut repo = load(disk, wd)?;
    let rev_dst = repo.get_current_head(disk)?;
    if !repo.get_stage().is_empty() {
        return Err(Errors::Errstatic("pull failed: uncommitted changes in working directory, commit changes first"));
    }
    let cur_head_rev = rev_dst.dup();
    let rev2 = repo.get_rev(disk, rev_id_src.as_str())?;
    let (cur_id, src_id) = both_ids(&cur_head_rev, &rev2)?;
    if str_eq(cur_id, src_id) {
        return Ok(owned("already up to date"));
    }
    let rev_origin = match find_rev_lca(&repo, disk, cur_head_rev.dup(), rev2.dup()) {
        Ok(x) => x,
        Err(e) => return Err(e),
    };
    let ghost z = choose|z: Seq<char>|
        #[trigger] is_lca(disk@, repo@, cur_head_rev@, rev2@, z) && spec_get_rev(disk@, repo@, z) == Ok::<RevV, ErrV>(rev_origin@);
    let origin_id = match rev_origin.get_id() {
        Some(id) => id,
        None => {
            proof {
                reveal_strlit("revision without id");
                assert(merge_stops(old(disk)@, repo@, rev_dst@, rev2@, z, static_e::<Seq<char>>("revision without id")));
            }
            return Err(Errors::Errstatic("revision without id"));
        },
    };
    let rev_diff1_files = match diff(disk, wd, origin_id, cur_id) {
        Ok(x) => x.files,
        Err(e) => {
            proof {
                assert(merge_stops(old(disk)@, repo@, rev_dst@, rev2@, z, Err::<Seq<char>, ErrV>(err_v(e))));
            }
            return Err(e);
        },
    };
    let rev_diff2_files = match diff(disk, wd, origin_id, src_id) {
        Ok(x) => x.files,
        Err(e) => {
            proof {
                let o = spec_get_rev(disk@, repo@, origin_id@)->Ok_0;
                let c = spec_get_rev(disk@, repo@, cur_id@)->Ok_0;
                lemma_diff_ok_map(disk@, repo@, o.mmap(), c.mmap(), rev_diff1_files.m());
                assert(merge_stops(old(disk)@, repo@, rev_dst@, rev2@, z, Err::<Seq<char>, ErrV>(err_v(e))));
            }
            return Err(e);
        },
    };
    let (merged_files, has_conflict) = match merge_diffs(&rev_diff1_files, &rev_diff2_files) {
        Ok(x) => x,
        Err(e) => {
            proof {
                let o = spec_get_rev(disk@, repo@, origin_id@)->Ok_0;
                let c = spec_get_rev(disk@, repo@, cur_id@)->Ok_0;
                let v = spec_get_rev(disk@, repo@, src_id@)->Ok_0;
                lemma_diff_ok_map(disk@, repo@, o.mmap(), c.mmap(), rev_diff1_files.m());
                lemma_diff_ok_map(disk@, repo@, o.mmap(), v.mmap(), rev_diff2_files.m());
                assert(merge_stops(old(disk)@, repo@, rev_dst@, rev2@, z, Err::<Seq<char>, ErrV>(err_v(e))));
            }
            return Err(e);
        },
    };
    let ghost d0 = disk@;
    let ghost r0 = repo@;
    proof {
        let o = spec_get_rev(d0, r0, origin_id@)->Ok_0;
        let c = spec_get_rev(d0, r0, cur_id@)->Ok_0;
        let v = spec_get_rev(d0, r0, src_id@)->Ok_0;
        lemma_diff_ok_map(d0, r0, o.mmap(), c.mmap(), rev_diff1_files.m());
        lemma_diff_ok_map(d0, r0, o.mmap(), v.mmap(), rev_diff2_files.m());
        assert(seq_to_map(merged_files.ev()) =~= merged_map(rev_diff1_files.m(), rev_diff2_files.m()));
    }
    let res = merge_changes(&mut repo, disk, wd, cur_id, src_id, &merged_files, has_conflict);
    proof {
        assert(merge_via(old(disk)@, r0, wd@, rev_dst@, rev2@, z, merged_files.ev(), repo@, disk@, str_v(res)));
    }
    res
}

} // verus!
