//! Fetching stored contents and revisions from another repository.
use vstd::prelude::*;
use crate::vc::repository::{Repo, RepoV, RepoPaths, spec_repo_paths, lemma_paths_named};
use crate::dsr::{Disk, DiskV, Key, spec_is_path_valid, is_path_valid, spec_copy_file, copy_file, get_files, strs_view};
use crate::dsr::walk::lists_files;
use crate::path::{spec_path_compose, path_compose, spec_get_name, get_name, comps, is_name, lemma_comps_normal, lemma_name_compose, views};
use crate::ui::{Errors, ErrV, err_v, unit_v};

verus! {

/// A final component is a name.
pub proof fn lemma_name_is_name(p: Seq<char>)
    requires
        spec_get_name(p) is Some,
    ensures
        is_name(spec_get_name(p)->0),
{
    lemma_comps_normal(p);
    let c = comps(p);
    assert(c.last() == c[c.len() - 1]);
}

/// Copying each listed file into `dest` under its name unless something is
/// already there, stopping at the first failure; a listed path without a
/// name fails with `msg`.
pub open spec fn spec_copy_missing(d: DiskV, ps: Seq<Seq<char>>, dest: Seq<char>, msg: Seq<char>) -> (DiskV, Result<(), ErrV>)
    decreases ps.len(),
{
    if ps.len() == 0 {
        (d, Ok(()))
    } else {
        let (d1, r1) = spec_copy_missing(d, ps.drop_last(), dest, msg);
        if r1 is Err {
            (d1, r1)
        } else {
            match spec_get_name(ps.last()) {
                None => (d1, Err(ErrV::Static(msg))),
                Some(n) => {
                    let t = spec_path_compose(dest, n);
                    if spec_is_path_valid(d1, t) {
                        (d1, Ok(()))
                    } else {
                        spec_copy_file(d1, ps.last(), t)
                    }
                },
            }
        }
    }
}

/// Copying keeps the working directory, the platform and every node.
pub proof fn lemma_copy_missing_grows(d: DiskV, ps: Seq<Seq<char>>, dest: Seq<char>, msg: Seq<char>)
    ensures
        spec_copy_missing(d, ps, dest, msg).0.cwd == d.cwd,
        spec_copy_missing(d, ps, dest, msg).0.os == d.os,
        forall|k: Key| #[trigger] d.nodes.contains_key(k) ==> spec_copy_missing(d, ps, dest, msg).0.nodes.contains_key(k)
            && spec_copy_missing(d, ps, dest, msg).0.nodes[k] == d.nodes[k],
    decreases ps.len(),
{
    if ps.len() > 0 {
        lemma_copy_missing_grows(d, ps.drop_last(), dest, msg);
    }
}

/// After a copy that succeeds, every listed file has a name and something
/// is at its place in `dest`.
pub proof fn lemma_copy_missing_present(d: DiskV, ps: Seq<Seq<char>>, dest: Seq<char>, msg: Seq<char>)
    requires
        spec_copy_missing(d, ps, dest, msg).1 is Ok,
    ensures
        forall|i: int| 0 <= i < ps.len() ==> (#[trigger] spec_get_name(ps[i])) is Some && spec_is_path_valid(
            spec_copy_missing(d, ps, dest, msg).0,
            spec_path_compose(dest, spec_get_name(ps[i])->0),
        ),
    decreases ps.len(),
{
    if ps.len() > 0 {
        let t = ps.drop_last();
        lemma_copy_missing_present(d, t, dest, msg);
        let (d1, r1) = spec_copy_missing(d, t, dest, msg);
        let d2 = spec_copy_missing(d, ps, dest, msg).0;
        assert forall|i: int| 0 <= i < ps.len() implies (#[trigger] spec_get_name(ps[i])) is Some && spec_is_path_valid(
            d2,
            spec_path_compose(dest, spec_get_name(ps[i])->0),
        ) by {
            if i < t.len() {
                assert(ps[i] == t[i]);
                let k = d1.key(spec_path_compose(dest, spec_get_name(ps[i])->0));
                assert(spec_is_path_valid(d1, spec_path_compose(dest, spec_get_name(t[i])->0)));
                if k.len() > 0 {
                    assert(d1.nodes.contains_key(k));
                }
            }
        }
    }
}

/// When every listed file has a name and something is at its place in
/// `dest`, copying changes nothing and succeeds.
pub proof fn lemma_copy_missing_done(d: DiskV, ps: Seq<Seq<char>>, dest: Seq<char>, msg: Seq<char>)
    requires
        forall|i: int| 0 <= i < ps.len() ==> (#[trigger] spec_get_name(ps[i])) is Some && spec_is_path_valid(
            d,
            spec_path_compose(dest, spec_get_name(ps[i])->0),
        ),
    ensures
        spec_copy_missing(d, ps, dest, msg) == (d, Ok::<(), ErrV>(())),
    decreases ps.len(),
{
    if ps.len() > 0 {
        let t = ps.drop_last();
        assert forall|i: int| 0 <= i < t.len() implies (#[trigger] spec_get_name(t[i])) is Some && spec_is_path_valid(
            d,
            spec_path_compose(dest, spec_get_name(t[i])->0),
        ) by {
            assert(t[i] == ps[i]);
        }
        lemma_copy_missing_done(d, t, dest, msg);
        assert(spec_get_name(ps[ps.len() - 1]) is Some);
    }
}

proof fn lemma_copy_missing_stops(d: DiskV, ps: Seq<Seq<char>>, dest: Seq<char>, msg: Seq<char>, j: int, k: int)
    requires
        0 <= j <= k <= ps.len(),
        spec_copy_missing(d, ps.subrange(0, j), dest, msg).1 is Err,
    ensures
        spec_copy_missing(d, ps.subrange(0, k), dest, msg) == spec_copy_missing(d, ps.subrange(0, j), dest, msg),
    decreases k - j,
{
    if k > j {
        lemma_copy_missing_stops(d, ps, dest, msg, j, k - 1);
        assert(ps.subrange(0, k).drop_last() =~= ps.subrange(0, k - 1));
    }
}

/// Copies each listed file into `dest` under its name, unless something is
/// already there; stops at the first failure.
pub fn copy_missing(disk: &mut Disk, list: &Vec<String>, dest: &str, msg: &'static str) -> (r: Result<(), Errors>)
    requires
        old(disk).wf(),
    ensures
        final(disk).wf(),
        (final(disk)@, unit_v(r)) == spec_copy_missing(old(disk)@, views(list@), dest@, msg@),
{
    let ghost ps = views(list@);
    let n = list.len();
    let mut i: usize = 0;
    proof {
        assert(ps.subrange(0, 0) =~= Seq::<Seq<char>>::empty());
    }
    while i < n
        invariant
            n == list@.len(),
            ps == views(list@),
            i <= n,
            disk.wf(),
            (disk@, Ok::<(), ErrV>(())) == spec_copy_missing(old(disk)@, ps.subrange(0, i as int), dest@, msg@),
        decreases n - i,
    {
        let ghost s1 = ps.subrange(0, i + 1);
        proof {
            assert(s1.drop_last() =~= ps.subrange(0, i as int));
            assert(s1.last() == list@[i as int]@);
        }
        let step: Result<(), Errors> = match get_name(list[i].as_str()) {
            None => Err(Errors::Errstatic(msg)),
            Some(name) => {
                let t = path_compose(dest, name.as_str());
                proof {
                    lemma_name_is_name(list@[i as int]@);
                    lemma_name_compose(dest@, name@);
                }
                if is_path_valid(disk, t.as_str()) {
                    Ok(())
                } else {
                    copy_file(disk, list[i].as_str(), t.as_str())
                }
            },
        };
        match step {
            Ok(_) => {},
            Err(e) => {
                proof {
                    lemma_copy_missing_stops(old(disk)@, ps, dest@, msg@, i + 1, n as int);
                    assert(ps.subrange(0, n as int) =~= ps);
                }
                return Err(e);
            },
        }
        i = i + 1;
    }
    proof {
        assert(ps.subrange(0, n as int) =~= ps);
    }
    Ok(())
}

/// What `fetch` may end in: the files of the remote content store, then its
/// revisions, each listed in some order, copied where nothing is stored
/// under their names.
pub open spec fn fetch_outcome(d: DiskV, r: RepoV, rwd: Seq<char>, fd: DiskV, res: Result<(), ErrV>) -> bool {
    let rp = spec_repo_paths(rwd);
    let ig = Seq::<Seq<char>>::empty();
    if !d.is_dir_at(d.key(rp.files)) || !d.is_dir_at(d.key(rp.revs)) {
        fd == d && res == Err::<(), ErrV>(ErrV::Io(crate::ui::IoKind::UnexpectedEof))
    } else {
        exists|fs: Seq<Seq<char>>, rs: Seq<Seq<char>>| #![trigger lists_files(d, rp.files, ig, fs), lists_files(d, rp.revs, ig, rs)]
            lists_files(d, rp.files, ig, fs) && lists_files(d, rp.revs, ig, rs) && {
                let (d1, r1) = spec_copy_missing(d, fs, r.paths.files, "Unknown error when fetching files from remote directory"@);
                if r1 is Err {
                    fd == d1 && res == r1
                } else {
                    (fd, res) == spec_copy_missing(d1, rs, r.paths.revs, "Unknown error when fetching revisions from remote directory"@)
                }
            }
    }
}

impl Repo {
    /// Copies into this repository the stored contents and revisions of the
    /// repository whose working directory is `rwd`, skipping those already
    /// stored under the same name.
    pub fn fetch(&self, disk: &mut Disk, rwd: &str) -> (r: Result<(), Errors>)
        requires
            old(disk).wf(),
        ensures
            final(disk).wf(),
            fetch_outcome(old(disk)@, self@, rwd@, final(disk)@, unit_v(r)),
    {
        let rwd_paths = RepoPaths::new(rwd);
        let mut files: Vec<String> = Vec::new();
        let mut revs: Vec<String> = Vec::new();
        let ignore: Vec<&str> = Vec::new();
        proof {
            assert(strs_view(ignore@) =~= Seq::<Seq<char>>::empty());
            assert(views(files@) =~= Seq::<Seq<char>>::empty());
            assert(views(revs@) =~= Seq::<Seq<char>>::empty());
        }
        get_files(disk, rwd_paths.files.as_str(), &ignore, &mut files)?;
        get_files(disk, rwd_paths.revs.as_str(), &ignore, &mut revs)?;
        proof {
            assert(views(files@).subrange(0, files@.len() as int) =~= views(files@));
            assert(views(revs@).subrange(0, revs@.len() as int) =~= views(revs@));
        }
        let ghost fs = views(files@);
        let ghost rs = views(revs@);
        let ghost d0 = disk@;
        let res1 = copy_missing(disk, &files, self.paths.files.as_str(), "Unknown error when fetching files from remote directory");
        if res1.is_err() {
            proof {
                assert(lists_files(d0, rwd_paths.files@, Seq::<Seq<char>>::empty(), fs));
                assert(lists_files(d0, rwd_paths.revs@, Seq::<Seq<char>>::empty(), rs));
            }
            return res1;
        }
        let res2 = copy_missing(disk, &revs, self.paths.revs.as_str(), "Unknown error when fetching revisions from remote directory");
        proof {
            assert(lists_files(d0, rwd_paths.files@, Seq::<Seq<char>>::empty(), fs));
            assert(lists_files(d0, rwd_paths.revs@, Seq::<Seq<char>>::empty(), rs));
        }
        res2
    }
}

} // verus!
