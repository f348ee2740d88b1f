//! Rebuilding a working directory from a revision.
use vstd::prelude::*;
use crate::dsr::{Disk, DiskV, spec_create_file, create_file, spec_write_file, write_file};
use crate::dsr::walk::{clear_dir, spec_clear_dir, strs_view};
use crate::vc::repository::{Repo, RepoV};
use crate::vc::repository::store::{load, spec_load, spec_file_content};
use crate::vc::revision::{Rev, RevV};
use crate::vc::file::{ItemInfo, ItemInfoV, named, is_named, unnamed_error};
use crate::path::{spec_path_compose, path_compose};
use crate::ui::{Errors, ErrV, err_v, unit_v, IoKind};

verus! {

/// Writing each tracked file of a manifest back below `wd`: the file is
/// created and its stored content written; the first failure stops.
pub open spec fn spec_restore(d: DiskV, r: RepoV, wd: Seq<char>, items: Seq<(Seq<char>, ItemInfoV)>) -> (DiskV, Result<(), ErrV>)
    decreases items.len(),
{
    if items.len() == 0 {
        (d, Ok(()))
    } else {
        let (d1, s1) = spec_restore(d, r, wd, items.drop_last());
        if s1 is Err {
            (d1, s1)
        } else {
            spec_restore_one(d1, r, wd, items.last().0, items.last().1)
        }
    }
}

/// Writing one tracked file back below `wd`.
pub open spec fn spec_restore_one(d: DiskV, r: RepoV, wd: Seq<char>, k: Seq<char>, item: ItemInfoV) -> (DiskV, Result<(), ErrV>) {
    let t = spec_path_compose(wd, k);
    if !named(t) {
        (d, Err(ErrV::Io(IoKind::InvalidInput)))
    } else {
        let (d2, s2) = spec_create_file(d, t);
        if s2 is Err {
            (d2, s2)
        } else {
            match spec_file_content(d2, r, item) {
                Err(e) => (d2, Err(e)),
                Ok(c) => spec_write_file(d2, t, c),
            }
        }
    }
}

fn restore_one(disk: &mut Disk, repo: &Repo, wd_path: &str, k: &str, item: &ItemInfo) -> (r: Result<(), Errors>)
    requires
        old(disk).wf(),
        repo@.wf(),
    ensures
        final(disk).wf(),
        (final(disk)@, unit_v(r)) == spec_restore_one(old(disk)@, repo@, wd_path@, k@, item@),
{
    let path = path_compose(wd_path, k);
    if !is_named(path.as_str()) {
        return Err(unnamed_error(path.as_str()));
    }
    create_file(disk, path.as_str())?;
    let content = repo.get_file_content(disk, item)?;
    write_file(disk, path.as_str(), content.as_str())
}

/// `make_wd`: the working directory emptied but for `.dvcs`, then the
/// revision's files written back into it from the repository's store.
pub open spec fn spec_make_wd(d: DiskV, rv: RevV, wd: Seq<char>) -> (DiskV, Result<(), ErrV>) {
    let (d1, s1) = spec_clear_dir(d, wd, seq![".dvcs"@]);
    if s1 is Err {
        (d1, s1)
    } else {
        match spec_load(d1, wd) {
            Err(e) => (d1, Err(e)),
            Ok(r) => spec_restore(d1, r, wd, rv.manifest),
        }
    }
}

proof fn lemma_restore_stops(d: DiskV, r: RepoV, wd: Seq<char>, s: Seq<(Seq<char>, ItemInfoV)>, j: int, k: int)
    requires
        0 <= j <= k <= s.len(),
        spec_restore(d, r, wd, s.subrange(0, j)).1 is Err,
    ensures
        spec_restore(d, r, wd, s.subrange(0, k)) == spec_restore(d, r, wd, s.subrange(0, j)),
    decreases k - j,
{
    if k > j {
        lemma_restore_stops(d, r, wd, s, j, k - 1);
        assert(s.subrange(0, k).drop_last() =~= s.subrange(0, k - 1));
    }
}

/// Rebuilds the working directory `wd_path` from a revision: everything but
/// `.dvcs` is removed, then each tracked file is created below `wd_path`
/// with its stored content.
pub fn make_wd(disk: &mut Disk, rev: &Rev, wd_path: &str) -> (r: Result<(), Errors>)
    requires
        old(disk).wf(),
    ensures
        final(disk).wf(),
        (final(disk)@, unit_v(r)) == spec_make_wd(old(disk)@, rev@, wd_path@),
{
    let mut ignore: Vec<&str> = Vec::new();
    ignore.push(".dvcs");
    proof {
        assert(strs_view(ignore@) =~= seq![".dvcs"@]);
    }
    clear_dir(disk, wd_path, &ignore)?;
    let repo = load(disk, wd_path)?;
    let items = rev.get_manifest();
    let ghost d1 = disk@;
    assert(spec_make_wd(old(disk)@, rev@, wd_path@) == spec_restore(d1, repo@, wd_path@, rev@.manifest));
    let n = items.entries.len();
    let mut i: usize = 0;
    proof {
        assert(rev@.manifest.subrange(0, 0) =~= Seq::<(Seq<char>, ItemInfoV)>::empty());
    }
    while i < n
        invariant
            disk.wf(),
            repo@.wf(),
            items.ev() == rev@.manifest,
            n == items.ev().len(),
            i <= n,
            (disk@, Ok::<(), ErrV>(())) == spec_restore(d1, repo@, wd_path@, rev@.manifest.subrange(0, i as int)),
            spec_make_wd(old(disk)@, rev@, wd_path@) == spec_restore(d1, repo@, wd_path@, rev@.manifest),
        decreases n - i,
    {
        let ghost s1 = rev@.manifest.subrange(0, i + 1);
        proof {
            assert(s1.drop_last() =~= rev@.manifest.subrange(0, i as int));
            assert(s1.last() == (items.entries@[i as int].0@, items.entries@[i as int].1@));
        }
        match restore_one(disk, &repo, wd_path, items.entries[i].0.as_str(), &items.entries[i].1) {
            Ok(_) => {},
            Err(e) => {
                proof {
                    lemma_restore_stops(d1, repo@, wd_path@, rev@.manifest, i + 1, n as int);
                    assert(rev@.manifest.subrange(0, n as int) =~= rev@.manifest);
                }
                return Err(e);
            },
        }
        i = i + 1;
    }
    proof {
        assert(rev@.manifest.subrange(0, n as int) =~= rev@.manifest);
    }
    Ok(())
}

} // verus!
