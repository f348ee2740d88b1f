//! Staging items for the next commit: adding, and marking for removal.
use vstd::prelude::*;
use crate::vc::repository::{Repo, RepoV, StageV};
use crate::vc::repository::store::{spec_repo_save, spec_save_file, spec_current_head, keeps_node, lemma_save_file_keeps};
use crate::vc::revision::{Rev, RevV};
use crate::vc::file::{ItemInfo, ItemInfoV, spec_retrieve_info, retrieve_info};
use crate::dsr::{Disk, DiskV, Key};
use crate::ui::{Errors, ErrV, err_v, unit_v};
use crate::strmap::{StrMap, Dup, seq_to_map, ev_insert, ev_remove, ev_extend};
use crate::path::views;

verus! {

/// A repository with other items waiting to be added.
pub open spec fn with_add(r: RepoV, to_add: Seq<(Seq<char>, ItemInfoV)>) -> RepoV {
    RepoV { stage: StageV { to_add, ..r.stage }, ..r }
}

/// A repository with other items waiting to be removed.
pub open spec fn with_remove(r: RepoV, to_remove: Seq<(Seq<char>, ItemInfoV)>) -> RepoV {
    RepoV { stage: StageV { to_remove, ..r.stage }, ..r }
}

/// Copying each item into the content store, in order, stopping at the
/// first failure.
pub open spec fn spec_save_all(d: DiskV, r: RepoV, items: Seq<(Seq<char>, ItemInfoV)>) -> (DiskV, Result<(), ErrV>)
    decreases items.len(),
{
    if items.len() == 0 {
        (d, Ok(()))
    } else {
        let (d1, r1) = spec_save_all(d, r, items.drop_last());
        if r1 is Err {
            (d1, r1)
        } else {
            let (d2, r2) = spec_save_file(d1, r, items.last().1);
            match r2 {
                Ok(_) => (d2, Ok(())),
                Err(e) => (d2, Err(e)),
            }
        }
    }
}

/// Saving items into the store writes only where nothing was.
pub proof fn lemma_save_all_keeps(d: DiskV, r: RepoV, items: Seq<(Seq<char>, ItemInfoV)>, k: Key)
    ensures
        spec_save_all(d, r, items).0.cwd == d.cwd,
        d.nodes.contains_key(k) ==> keeps_node(d, spec_save_all(d, r, items).0, k),
    decreases items.len(),
{
    if items.len() > 0 {
        lemma_save_all_keeps(d, r, items.drop_last(), k);
        let d1 = spec_save_all(d, r, items.drop_last()).0;
        lemma_save_file_keeps(d1, r, items.last().1, k);
    }
}

proof fn lemma_save_all_stops(d: DiskV, r: RepoV, s: Seq<(Seq<char>, ItemInfoV)>, j: int, k: int)
    requires
        0 <= j <= k <= s.len(),
        spec_save_all(d, r, s.subrange(0, j)).1 is Err,
    ensures
        spec_save_all(d, r, s.subrange(0, k)) == spec_save_all(d, r, s.subrange(0, j)),
    decreases k - j,
{
    if k > j {
        lemma_save_all_stops(d, r, s, j, k - 1);
        assert(s.subrange(0, k).drop_last() =~= s.subrange(0, k - 1));
    }
}

proof fn lemma_collect_stops(d: DiskV, s: Seq<Seq<char>>, j: int, k: int)
    requires
        0 <= j <= k <= s.len(),
        spec_collect(d, s.subrange(0, j)) is Err,
    ensures
        spec_collect(d, s.subrange(0, k)) == spec_collect(d, s.subrange(0, j)),
    decreases k - j,
{
    if k > j {
        lemma_collect_stops(d, s, j, k - 1);
        assert(s.subrange(0, k).drop_last() =~= s.subrange(0, k - 1));
    }
}

proof fn lemma_unstage_all_stops(d: DiskV, r: RepoV, s: Seq<Seq<char>>, j: int, k: int)
    requires
        0 <= j <= k <= s.len(),
        spec_unstage_all(d, r, s.subrange(0, j)).2 is Err,
    ensures
        spec_unstage_all(d, r, s.subrange(0, k)) == spec_unstage_all(d, r, s.subrange(0, j)),
    decreases k - j,
{
    if k > j {
        lemma_unstage_all_stops(d, r, s, j, k - 1);
        assert(s.subrange(0, k).drop_last() =~= s.subrange(0, k - 1));
    }
}

proof fn lemma_remove_all_stops(d: DiskV, r: RepoV, s: Seq<Seq<char>>, j: int, k: int)
    requires
        0 <= j <= k <= s.len(),
        spec_remove_all(d, r, s.subrange(0, j)).2 is Err,
    ensures
        spec_remove_all(d, r, s.subrange(0, k)) == spec_remove_all(d, r, s.subrange(0, j)),
    decreases k - j,
{
    if k > j {
        lemma_remove_all_stops(d, r, s, j, k - 1);
        assert(s.subrange(0, k).drop_last() =~= s.subrange(0, k - 1));
    }
}

/// `add_file`: the item at a path is staged for adding, its content copied
/// into the store, and the record saved.
pub open spec fn spec_add_file(d: DiskV, r: RepoV, p: Seq<char>) -> (RepoV, DiskV, Result<(), ErrV>) {
    match spec_retrieve_info(d, p) {
        Err(e) => (r, d, Err(e)),
        Ok(item) => {
            let r1 = with_add(r, ev_insert(r.stage.to_add, item.loc_in_wd, item));
            let (d1, s1) = spec_save_file(d, r1, item);
            match s1 {
                Err(e) => (r1, d1, Err(e)),
                Ok(_) => {
                    let (d2, s2) = spec_repo_save(d1, r1);
                    (r1, d2, s2)
                },
            }
        },
    }
}

/// The items at the given paths, by relative path, in the order they were
/// first met; the first failure stops.
pub open spec fn spec_collect(d: DiskV, ps: Seq<Seq<char>>) -> Result<Seq<(Seq<char>, ItemInfoV)>, ErrV>
    decreases ps.len(),
{
    if ps.len() == 0 {
        Ok(Seq::empty())
    } else {
        match spec_collect(d, ps.drop_last()) {
            Err(e) => Err(e),
            Ok(s) => match spec_retrieve_info(d, ps.last()) {
                Err(e) => Err(e),
                Ok(item) => Ok(ev_insert(s, item.loc_in_wd, item)),
            },
        }
    }
}

/// `add_files`: the items at all the paths are staged for adding, their
/// contents copied into the store, and the record saved; nothing is staged
/// when one of them cannot be read.
pub open spec fn spec_add_files(d: DiskV, r: RepoV, ps: Seq<Seq<char>>) -> (RepoV, DiskV, Result<(), ErrV>) {
    match spec_collect(d, ps) {
        Err(e) => (r, d, Err(e)),
        Ok(items) => {
            let r1 = with_add(r, ev_extend(r.stage.to_add, items));
            let (d1, s1) = spec_save_all(d, r1, items);
            if s1 is Err {
                (r1, d1, s1)
            } else {
                let (d2, s2) = spec_repo_save(d1, r1);
                (r1, d2, s2)
            }
        },
    }
}

/// `remove_file_from_stage`: the item at a path is no longer staged for
/// adding, and the record is saved.
pub open spec fn spec_unstage(d: DiskV, r: RepoV, p: Seq<char>) -> (RepoV, DiskV, Result<(), ErrV>) {
    match spec_retrieve_info(d, p) {
        Err(e) => (r, d, Err(e)),
        Ok(item) => {
            let r1 = with_add(r, ev_remove(r.stage.to_add, item.loc_in_wd));
            let (d1, s1) = spec_repo_save(d, r1);
            (r1, d1, s1)
        },
    }
}

/// `remove_files_from_stage`: each path in turn, stopping at the first
/// failure.
pub open spec fn spec_unstage_all(d: DiskV, r: RepoV, ps: Seq<Seq<char>>) -> (RepoV, DiskV, Result<(), ErrV>)
    decreases ps.len(),
{
    if ps.len() == 0 {
        (r, d, Ok(()))
    } else {
        let (r1, d1, s1) = spec_unstage_all(d, r, ps.drop_last());
        if s1 is Err {
            (r1, d1, s1)
        } else {
            spec_unstage(d1, r1, ps.last())
        }
    }
}

/// `remove_file`: the item at a path is unstaged; the item that the current
/// head tracks at its relative path is staged for removal and the record
/// saved. Fails when the head does not track it.
pub open spec fn spec_remove_file(d: DiskV, r: RepoV, p: Seq<char>) -> (RepoV, DiskV, Result<(), ErrV>) {
    let (r1, d1, s1) = spec_unstage(d, r, p);
    if s1 is Err {
        (r1, d1, s1)
    } else {
        match spec_current_head(d1, r1) {
            Err(e) => (r1, d1, Err(e)),
            Ok(head) => match spec_retrieve_info(d1, p) {
                Err(e) => (r1, d1, Err(e)),
                Ok(info) => if !head.mmap().contains_key(info.loc_in_wd) {
                    (r1, d1, Err(ErrV::Static("Unable to remove untracked file"@)))
                } else {
                    let f = head.mmap()[info.loc_in_wd];
                    let r2 = with_remove(r1, ev_insert(r1.stage.to_remove, f.loc_in_wd, f));
                    let (d2, s2) = spec_repo_save(d1, r2);
                    (r2, d2, s2)
                },
            },
        }
    }
}

/// `remove_files`: each path in turn, stopping at the first failure.
pub open spec fn spec_remove_all(d: DiskV, r: RepoV, ps: Seq<Seq<char>>) -> (RepoV, DiskV, Result<(), ErrV>)
    decreases ps.len(),
{
    if ps.len() == 0 {
        (r, d, Ok(()))
    } else {
        let (r1, d1, s1) = spec_remove_all(d, r, ps.drop_last());
        if s1 is Err {
            (r1, d1, s1)
        } else {
            spec_remove_file(d1, r1, ps.last())
        }
    }
}

impl Repo {
    /// Copies each item into the content store, in order, stopping at the
    /// first failure.
    pub fn save_items(&self, disk: &mut Disk, items: &StrMap<ItemInfo>) -> (r: Result<(), Errors>)
        requires
            old(disk).wf(),
            self@.wf(),
        ensures
            final(disk).wf(),
            (final(disk)@, unit_v(r)) == spec_save_all(old(disk)@, self@, items.ev()),
    {
        let n = items.entries.len();
        let mut i: usize = 0;
        proof {
            assert(items.ev().subrange(0, 0) =~= Seq::<(Seq<char>, ItemInfoV)>::empty());
        }
        while i < n
            invariant
                n == items.ev().len(),
                i <= n,
                disk.wf(),
                self@.wf(),
                (disk@, Ok::<(), ErrV>(())) == spec_save_all(old(disk)@, self@, items.ev().subrange(0, i as int)),
            decreases n - i,
        {
            let ghost s1 = items.ev().subrange(0, i + 1);
            proof {
                assert(s1.drop_last() =~= items.ev().subrange(0, i as int));
                assert(s1.last() == items.ev()[i as int]);
                assert(items.ev()[i as int].1 == items.entries@[i as int].1@);
            }
            match self.save_file_to_repo(disk, &items.entries[i].1) {
                Ok(_) => {},
                Err(e) => {
                    proof {
                        assert(items.ev().subrange(0, i + 1) == s1);
                    }
                    assert((disk@, unit_v(Err::<(), Errors>(e))) == spec_save_all(old(disk)@, self@, s1));
                    proof {
                        lemma_save_all_stops(old(disk)@, self@, items.ev(), i + 1, n as int);
                        assert(items.ev().subrange(0, n as int) =~= items.ev());
                    }
                    return Err(e);
                },
            }
            i = i + 1;
        }
        proof {
            assert(items.ev().subrange(0, n as int) =~= items.ev());
        }
        Ok(())
    }

    /// Stages the item at a path for adding, copies its content into the
    /// store, and saves the record.
    pub fn add_file(&mut self, disk: &mut Disk, abs_path: &str) -> (r: Result<(), Errors>)
        requires
            old(disk).wf(),
            old(self)@.wf(),
        ensures
            final(disk).wf(),
            final(self)@.wf(),
            (final(self)@, final(disk)@, unit_v(r)) == spec_add_file(old(disk)@, old(self)@, abs_path@),
    {
        let item = retrieve_info(disk, abs_path)?;
        let k = item.loc_in_wd.clone();
        let copy = item.dup();
        self.stage.to_add.insert(k, item);
        self.save_file_to_repo(disk, &copy)?;
        self.save(disk)
    }

    /// Stages the items at all the paths for adding, copies their contents
    /// into the store, and saves the record. Nothing is staged when one of
    /// them cannot be read.
    pub fn add_files(&mut self, disk: &mut Disk, abs_paths: &Vec<String>) -> (r: Result<(), Errors>)
        requires
            old(disk).wf(),
            old(self)@.wf(),
        ensures
            final(disk).wf(),
            final(self)@.wf(),
            (final(self)@, final(disk)@, unit_v(r)) == spec_add_files(old(disk)@, old(self)@, views(abs_paths@)),
    {
        let ghost ps = views(abs_paths@);
        let n = abs_paths.len();
        let mut temp: StrMap<ItemInfo> = StrMap::new();
        let mut i: usize = 0;
        proof {
            assert(ps.subrange(0, 0) =~= Seq::<Seq<char>>::empty());
        }
        while i < n
            invariant
                n == abs_paths@.len(),
                ps == views(abs_paths@),
                i <= n,
                disk.wf(),
                disk@ == old(disk)@,
                self@ == old(self)@,
                self@.wf(),
                temp.wf(),
                spec_collect(disk@, ps.subrange(0, i as int)) == Ok::<Seq<(Seq<char>, ItemInfoV)>, ErrV>(temp.ev()),
            decreases n - i,
        {
            let ghost s1 = ps.subrange(0, i + 1);
            proof {
                assert(s1.drop_last() =~= ps.subrange(0, i as int));
                assert(s1.last() == abs_paths@[i as int]@);
            }
            match retrieve_info(disk, abs_paths[i].as_str()) {
                Ok(item) => {
                    let k = item.loc_in_wd.clone();
                    temp.insert(k, item);
                },
                Err(e) => {
                    proof {
                        lemma_collect_stops(disk@, ps, i + 1, n as int);
                        assert(ps.subrange(0, n as int) =~= ps);
                    }
                    return Err(e);
                },
            }
            i = i + 1;
        }
        proof {
            assert(ps.subrange(0, n as int) =~= ps);
        }
        self.stage.to_add.extend(&temp);
        self.save_items(disk, &temp)?;
        self.save(disk)
    }

    /// Unstages the item at a path from adding, and saves the record.
    pub fn remove_file_from_stage(&mut self, disk: &mut Disk, abs_path: &str) -> (r: Result<(), Errors>)
        requires
            old(disk).wf(),
            old(self)@.wf(),
        ensures
            final(disk).wf(),
            final(self)@.wf(),
            (final(self)@, final(disk)@, unit_v(r)) == spec_unstage(old(disk)@, old(self)@, abs_path@),
    {
        let entry = retrieve_info(disk, abs_path)?;
        self.stage.to_add.remove(entry.get_file_wd_path());
        self.save(disk)
    }

    /// Unstages each path in turn, stopping at the first failure.
    pub fn remove_files_from_stage(&mut self, disk: &mut Disk, abs_paths: &Vec<String>) -> (r: Result<(), Errors>)
        requires
            old(disk).wf(),
            old(self)@.wf(),
        ensures
            final(disk).wf(),
            final(self)@.wf(),
            (final(self)@, final(disk)@, unit_v(r)) == spec_unstage_all(old(disk)@, old(self)@, views(abs_paths@)),
    {
        let ghost ps = views(abs_paths@);
        let n = abs_paths.len();
        let mut i: usize = 0;
        proof {
            assert(ps.subrange(0, 0) =~= Seq::<Seq<char>>::empty());
        }
        while i < n
            invariant
                n == abs_paths@.len(),
                ps == views(abs_paths@),
                i <= n,
                disk.wf(),
                self@.wf(),
                (self@, disk@, Ok::<(), ErrV>(())) == spec_unstage_all(old(disk)@, old(self)@, ps.subrange(0, i as int)),
            decreases n - i,
        {
            let ghost s1 = ps.subrange(0, i + 1);
            proof {
                assert(s1.drop_last() =~= ps.subrange(0, i as int));
                assert(s1.last() == abs_paths@[i as int]@);
            }
            match self.remove_file_from_stage(disk, abs_paths[i].as_str()) {
                Ok(_) => {},
                Err(e) => {
                    proof {
                        lemma_unstage_all_stops(old(disk)@, old(self)@, ps, i + 1, n as int);
                        assert(ps.subrange(0, n as int) =~= ps);
                    }
                    return Err(e);
                },
            }
            i = i + 1;
        }
        proof {
            assert(ps.subrange(0, n as int) =~= ps);
        }
        Ok(())
    }

    /// Unstages the item at a path and stages the item that the current head
    /// tracks there for removal, then saves the record.
    pub fn remove_file(&mut self, disk: &mut Disk, abs_path: &str) -> (r: Result<(), Errors>)
        requires
            old(disk).wf(),
            old(self)@.wf(),
        ensures
            final(disk).wf(),
            final(self)@.wf(),
            (final(self)@, final(disk)@, unit_v(r)) == spec_remove_file(old(disk)@, old(self)@, abs_path@),
    {
        self.remove_file_from_stage(disk, abs_path)?;
        let mut temp_head = self.get_current_head(disk)?;
        let f_to_remove = temp_head.remove_file(disk, abs_path)?;
        let k = f_to_remove.loc_in_wd.clone();
        self.stage.to_remove.insert(k, f_to_remove);
        self.save(disk)
    }

    /// Removes each path in turn, stopping at the first failure.
    pub fn remove_files(&mut self, disk: &mut Disk, abs_paths: &Vec<String>) -> (r: Result<(), Errors>)
        requires
            old(disk).wf(),
            old(self)@.wf(),
        ensures
            final(disk).wf(),
            final(self)@.wf(),
            (final(self)@, final(disk)@, unit_v(r)) == spec_remove_all(old(disk)@, old(self)@, views(abs_paths@)),
    {
        let ghost ps = views(abs_paths@);
        let n = abs_paths.len();
        let mut i: usize = 0;
        proof {
            assert(ps.subrange(0, 0) =~= Seq::<Seq<char>>::empty());
        }
        while i < n
            invariant
                n == abs_paths@.len(),
                ps == views(abs_paths@),
                i <= n,
                disk.wf(),
                self@.wf(),
                (self@, disk@, Ok::<(), ErrV>(())) == spec_remove_all(old(disk)@, old(self)@, ps.subrange(0, i as int)),
            decreases n - i,
        {
            let ghost s1 = ps.subrange(0, i + 1);
            proof {
                assert(s1.drop_last() =~= ps.subrange(0, i as int));
                assert(s1.last() == abs_paths@[i as int]@);
            }
            match self.remove_file(disk, abs_paths[i].as_str()) {
                Ok(_) => {},
                Err(e) => {
                    proof {
                        lemma_remove_all_stops(old(disk)@, old(self)@, ps, i + 1, n as int);
                        assert(ps.subrange(0, n as int) =~= ps);
                    }
                    return Err(e);
                },
            }
            i = i + 1;
        }
        proof {
            assert(ps.subrange(0, n as int) =~= ps);
        }
        Ok(())
    }
}

} // verus!
