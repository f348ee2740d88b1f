//! Committing the stage as a new revision, and merge commits.
use vstd::prelude::*;
use crate::vc::repository::{Repo, RepoV, StageV};
use crate::vc::repository::store::{spec_repo_save, spec_current_head};
use crate::vc::repository::staging::spec_save_all;
use crate::vc::revision::{Rev, RevV, TimeStamp, spec_gen_id, spec_rev_save, or_default};
use crate::vc::file::{ItemInfo, ItemInfoV};
use crate::dsr::{Disk, DiskV, get_user};
use crate::ui::{Errors, ErrV, err_v, unit_v, static_e};
use crate::strmap::{StrMap, Dup, seq_to_map, ev_insert, ev_remove, ev_extend, lemma_seq_to_map, distinct_keys, key_set, lemma_ev_extend, lemma_ev_remove};
use crate::strs::{owned, concat, str_eq};
use crate::outside::system_time_now;
use crate::path::is_name;

verus! {

/// The entries with the keys of `ks` removed, in order.
pub open spec fn ev_remove_keys(s: Seq<(Seq<char>, ItemInfoV)>, ks: Seq<(Seq<char>, ItemInfoV)>) -> Seq<(Seq<char>, ItemInfoV)>
    decreases ks.len(),
{
    if ks.len() == 0 {
        s
    } else {
        ev_remove(ev_remove_keys(s, ks.drop_last()), ks.last().0)
    }
}

/// Removing the keys of `ks` keeps keys distinct and removes them from the
/// map.
pub proof fn lemma_ev_remove_keys(s: Seq<(Seq<char>, ItemInfoV)>, ks: Seq<(Seq<char>, ItemInfoV)>)
    requires
        distinct_keys(s),
    ensures
        distinct_keys(ev_remove_keys(s, ks)),
        seq_to_map(ev_remove_keys(s, ks)) == seq_to_map(s).remove_keys(key_set(ks)),
    decreases ks.len(),
{
    if ks.len() == 0 {
        assert(seq_to_map(s).remove_keys(key_set(ks)) =~= seq_to_map(s));
    } else {
        lemma_ev_remove_keys(s, ks.drop_last());
        lemma_ev_remove(ev_remove_keys(s, ks.drop_last()), ks.last().0);
        assert(seq_to_map(s).remove_keys(key_set(ks.drop_last())).remove(ks.last().0) =~= seq_to_map(s).remove_keys(
            key_set(ks),
        ));
    }
}

/// Applying a stage keeps the keys of a manifest distinct: each staged item
/// is in it unless its path is staged for removal, and every other entry
/// is as it was.
pub proof fn lemma_staged_manifest(m: Seq<(Seq<char>, ItemInfoV)>, st: StageV)
    requires
        distinct_keys(m),
    ensures
        distinct_keys(staged_manifest(m, st)),
        seq_to_map(staged_manifest(m, st)) == seq_to_map(m).union_prefer_right(st.add_map()).remove_keys(
            st.remove_map().dom(),
        ),
{
    lemma_ev_extend(m, st.to_add);
    lemma_ev_remove_keys(ev_extend(m, st.to_add), st.to_remove);
}

/// A manifest with the stage applied: the staged items added, then the
/// paths staged for removal removed.
pub open spec fn staged_manifest(m: Seq<(Seq<char>, ItemInfoV)>, st: StageV) -> Seq<(Seq<char>, ItemInfoV)> {
    ev_remove_keys(ev_extend(m, st.to_add), st.to_remove)
}

/// The first part of a commit: the stage is applied to the head's
/// manifest; unless that changes nothing, every item is copied into the
/// content store.
pub open spec fn spec_stage_commit(d: DiskV, r: RepoV, h: RevV) -> (RevV, DiskV, Result<(), ErrV>) {
    let h1 = RevV { manifest: staged_manifest(h.manifest, r.stage), ..h };
    if seq_to_map(h1.manifest) == seq_to_map(h.manifest) {
        (h1, d, static_e("No changes added to commit."))
    } else {
        let (d1, s1) = spec_save_all(d, r, h1.manifest);
        (h1, d1, s1)
    }
}

/// The alias that a commit moves: the checked-out branch, or `main`.
pub open spec fn commit_alias(r: RepoV) -> Seq<char> {
    or_default(r.current_head, "main"@)
}

/// The second part of a commit: the revision gets its author, message and
/// time, a new id (the old one becoming its parent), and is saved; the
/// branch is moved to it, the stage cleared and the record saved.
pub open spec fn spec_record_commit(d: DiskV, r: RepoV, h: RevV, message: Seq<char>, user: Seq<char>, time: TimeStamp) -> (
    RepoV,
    RevV,
    DiskV,
    Result<(), ErrV>,
) {
    let h2 = RevV { user_id: Some(user), message: Some(message), time_stamp: time, ..h };
    let id = spec_gen_id(d, h2, r.paths.revs);
    let h3 = RevV { rev_id: Some(id), parent_id: h2.rev_id, ..h2 };
    let (d2, s2) = spec_rev_save(d, h3, r.paths.revs);
    if s2 is Err {
        (r, h3, d2, s2)
    } else {
        let r1 = RepoV {
            branch_heads: ev_insert(r.branch_heads, commit_alias(r), id),
            stage: StageV { to_add: Seq::empty(), to_remove: Seq::empty() },
            ..r
        };
        let (d3, s3) = spec_repo_save(d2, r1);
        (r1, h3, d3, s3)
    }
}

/// What a commit of `h` may end in, whoever the author and whatever the
/// time: the repository, the disk and the result.
pub open spec fn commit_outcome(d: DiskV, r: RepoV, h: RevV, message: Seq<char>, fr: RepoV, fd: DiskV, res: Result<(), ErrV>) -> bool {
    let (h1, d1, s1) = spec_stage_commit(d, r, h);
    if s1 is Err {
        fr == r && fd == d1 && res == s1
    } else {
        exists|user: Seq<char>, time: TimeStamp| #![trigger spec_record_commit(d1, r, h1, message, user, time)]
            {
                let (r2, h2, d2, s2) = spec_record_commit(d1, r, h1, message, user, time);
                fr == r2 && fd == d2 && res == s2 && (h2.rev_id matches Some(id) && is_name(id))
            }
    }
}

fn maps_equal(a: &StrMap<ItemInfo>, b: &StrMap<ItemInfo>) -> (r: bool)
    requires
        a.wf(),
        b.wf(),
    ensures
        r == (a.m() == b.m()),
{
    proof {
        lemma_seq_to_map(a.ev());
        lemma_seq_to_map(b.ev());
    }
    if a.len() != b.len() {
        return false;
    }
    let n = a.entries.len();
    let mut i: usize = 0;
    while i < n
        invariant
            n == a.ev().len(),
            a.wf(),
            b.wf(),
            i <= n,
            a.m().len() == b.m().len(),
            forall|j: int| 0 <= j < i ==> #[trigger] b.m().contains_key(a.ev()[j].0) && b.m()[a.ev()[j].0] == a.ev()[j].1,
        decreases n - i,
    {
        proof {
            lemma_seq_to_map(a.ev());
            assert(a.ev()[i as int] == (a.entries@[i as int].0@, a.entries@[i as int].1@));
            assert(a.m()[a.ev()[i as int].0] == a.ev()[i as int].1);
        }
        match b.get(a.entries[i].0.as_str()) {
            Some(w) => {
                if !a.entries[i].1.same_as(w) {
                    return false;
                }
                assert(b.m()[a.ev()[i as int].0] == a.ev()[i as int].1);
                assert forall|j: int| 0 <= j < i + 1 implies #[trigger] b.m().contains_key(a.ev()[j].0) && b.m()[a.ev()[j].0]
                    == a.ev()[j].1 by {
                    if j == i {
                        assert(b.m().contains_key(a.ev()[i as int].0));
                    }
                }
            },
            None => {
                return false;
            },
        }
        i = i + 1;
    }
    proof {
        lemma_seq_to_map(a.ev());
        lemma_seq_to_map(b.ev());
        assert(a.m().dom().subset_of(b.m().dom())) by {
            assert forall|k: Seq<char>| a.m().dom().contains(k) implies b.m().dom().contains(k) by {
                let j = choose|j: int| 0 <= j < a.ev().len() && a.ev()[j].0 == k;
                assert(b.m().contains_key(a.ev()[j].0));
            }
        }
        vstd::set_lib::lemma_subset_equality(a.m().dom(), b.m().dom());
        assert forall|k: Seq<char>| a.m().contains_key(k) implies a.m()[k] == b.m()[k] by {
            let j = choose|j: int| 0 <= j < a.ev().len() && a.ev()[j].0 == k;
            assert(b.m()[a.ev()[j].0] == a.ev()[j].1);
        }
        assert(a.m() =~= b.m());
    }
    true
}

impl Repo {
    /// Applies the stage to a manifest: the staged items are added, then
    /// the paths staged for removal removed.
    pub fn apply_stage(&self, manifest: &mut StrMap<ItemInfo>)
        requires
            old(manifest).wf(),
            self@.wf(),
        ensures
            final(manifest).wf(),
            final(manifest).ev() == staged_manifest(old(manifest).ev(), self@.stage),
    {
        manifest.extend(&self.stage.to_add);
        let ghost m1 = manifest.ev();
        let n = self.stage.to_remove.entries.len();
        let mut i: usize = 0;
        let ghost rm = self@.stage.to_remove;
        proof {
            assert(rm.subrange(0, 0) =~= Seq::<(Seq<char>, ItemInfoV)>::empty());
        }
        while i < n
            invariant
                n == rm.len(),
                rm == self@.stage.to_remove,
                i <= n,
                manifest.wf(),
                manifest.ev() == ev_remove_keys(m1, rm.subrange(0, i as int)),
            decreases n - i,
        {
            proof {
                let s1 = rm.subrange(0, i + 1);
                assert(s1.drop_last() =~= rm.subrange(0, i as int));
                assert(s1.last().0 == self.stage.to_remove.entries@[i as int].0@);
            }
            manifest.remove(self.stage.to_remove.entries[i].0.as_str());
            i = i + 1;
        }
        proof {
            assert(rm.subrange(0, n as int) =~= rm);
        }
    }

    /// Records a commit of `head` whose manifest is ready: its author,
    /// message and time are set, it gets a new id and is saved, the branch
    /// is moved to it, and the stage cleared.
    pub fn record_commit(
        &mut self,
        disk: &mut Disk,
        head: &mut Rev,
        message: &str,
        user: &str,
        time: TimeStamp,
    ) -> (r: Result<(), Errors>)
        requires
            old(disk).wf(),
            old(self)@.wf(),
            old(head)@.wf(),
        ensures
            final(disk).wf(),
            final(self)@.wf(),
            final(head)@.wf(),
            (final(self)@, final(head)@, final(disk)@, unit_v(r)) == spec_record_commit(
                old(disk)@,
                old(self)@,
                old(head)@,
                message@,
                user@,
                time,
            ),
            final(head)@.rev_id matches Some(id) && is_name(id),
    {
        head.set_user(user);
        head.set_message(message);
        head.time_stamp = time;
        let id = match head.gen_id(disk, self.paths.revs.as_str()) {
            Ok(id) => id,
            Err(e) => return Err(e),
        };
        head.save(disk, self.paths.revs.as_str())?;
        let alias = match &self.current_head {
            Some(a) => a.clone(),
            None => owned("main"),
        };
        proof {
            reveal_strlit("main");
        }
        self.branch_heads.insert(alias, id);
        self.clear_stage(disk)
    }

    /// Commits `head` with the stage applied: fails when that changes
    /// nothing; otherwise copies every item into the content store, and
    /// records the commit with the current user and time.
    pub fn commit_from(&mut self, disk: &mut Disk, head: &mut Rev, message: &str) -> (r: Result<(), Errors>)
        requires
            old(disk).wf(),
            old(self)@.wf(),
            old(head)@.wf(),
        ensures
            final(disk).wf(),
            final(self)@.wf(),
            commit_outcome(old(disk)@, old(self)@, old(head)@, message@, final(self)@, final(disk)@, unit_v(r)),
    {
        let ghost d0 = disk@;
        let ghost r0 = self@;
        let ghost h0 = head@;
        let manifest_copy = head.manifest.dup_map();
        self.apply_stage(&mut head.manifest);
        if maps_equal(&manifest_copy, &head.manifest) {
            return Err(Errors::Errstatic("No changes added to commit."));
        }
        self.save_items(disk, &head.manifest)?;
        let user = get_user();
        let now = system_time_now();
        let ghost d1 = disk@;
        let ghost h1 = head@;
        let res = self.record_commit(disk, head, message, user.1.as_str(), now);
        proof {
            let (r2, h2, d2, s2) = spec_record_commit(d1, r0, h1, message@, user.1@, now);
            assert(self@ == r2 && disk@ == d2 && unit_v(res) == s2);
            assert(h2 == head@);
        }
        res
    }

    /// Commits the stage onto the checked-out branch. The first commit of a
    /// repository starts the branch `main` from an empty revision.
    pub fn commit(&mut self, disk: &mut Disk, message: &str) -> (r: Result<(), Errors>)
        requires
            old(disk).wf(),
            old(self)@.wf(),
        ensures
            final(disk).wf(),
            final(self)@.wf(),
            spec_commit_allows(old(disk)@, old(self)@, message@, final(self)@, final(disk)@, unit_v(r)),
    {
        let mut head = match self.get_current_head(disk) {
            Ok(rev) => rev,
            Err(e) => {
                if self.current_head.is_none() {
                    self.current_head = Some(owned("main"));
                    let fresh = Rev::new();
                    proof {
                        assert(fresh@ == fresh_rev(fresh@.time_stamp));
                    }
                    fresh
                } else {
                    return Err(e);
                }
            },
        };
        let res = self.commit_from(disk, &mut head, message);
        proof {
            reveal_strlit("main");
        }
        res
    }

    /// Commits a merge onto the checked-out branch, whose head must be
    /// `parent_1`: the head gets `parent_2` as second parent, and the message
    /// defaults to `Merged from` and `parent_2`.
    pub fn merge_commit(&mut self, disk: &mut Disk, parent_1: &str, parent_2: &str, msg: Option<&str>) -> (r: Result<(), Errors>)
        requires
            old(disk).wf(),
            old(self)@.wf(),
        ensures
            final(disk).wf(),
            final(self)@.wf(),
            merge_commit_outcome(
                old(disk)@,
                old(self)@,
                parent_1@,
                parent_2@,
                match msg {
                    Some(m) => Some(m@),
                    None => None,
                },
                final(self)@,
                final(disk)@,
                unit_v(r),
            ),
    {
        proof {
            reveal(merge_commit_outcome);
        }
        let mut head = self.get_current_head(disk)?;
        let is_p1 = match head.get_id() {
            Some(id) => str_eq(id, parent_1),
            None => str_eq("", parent_1),
        };
        proof {
            reveal_strlit("");
            assert(""@ =~= Seq::<char>::empty());
        }
        if !is_p1 {
            return Err(Errors::Errstatic("merge destination is not current head"));
        }
        head.set_parent_2(parent_2);
        let default_msg = concat("Merged from ", parent_2);
        let message = match msg {
            Some(m) => m,
            None => default_msg.as_str(),
        };
        self.commit_from(disk, &mut head, message)
    }
}

/// What `Repo::merge_commit` may end in: the head of the checked-out
/// branch, which must be `p1`, is committed with `p2` as second parent and
/// the message given, or `Merged from` and `p2`.
#[verifier::opaque]
pub open spec fn merge_commit_outcome(
    d: DiskV,
    r: RepoV,
    p1: Seq<char>,
    p2: Seq<char>,
    msg: Option<Seq<char>>,
    fr: RepoV,
    fd: DiskV,
    res: Result<(), ErrV>,
) -> bool {
    match spec_current_head(d, r) {
        Err(e) => res == Err::<(), ErrV>(e) && fr == r && fd == d,
        Ok(h) => if or_default(h.rev_id, Seq::empty()) != p1 {
            res == static_e::<()>("merge destination is not current head") && fr == r && fd == d
        } else {
            commit_outcome(
                d,
                r,
                RevV { parent_id2: Some(p2), ..h },
                match msg {
                    Some(m) => m,
                    None => "Merged from "@ + p2,
                },
                fr,
                fd,
                res,
            )
        },
    }
}

/// What `Repo::commit` may end in: the first commit starts `main` from an
/// empty revision; otherwise the head of the checked-out branch is
/// committed, or its error returned.
pub open spec fn spec_commit_allows(d: DiskV, r: RepoV, message: Seq<char>, fr: RepoV, fd: DiskV, res: Result<(), ErrV>) -> bool {
    if r.current_head is None {
        exists|t: TimeStamp| #![trigger fresh_rev(t)]
            commit_outcome(d, RepoV { current_head: Some("main"@), ..r }, fresh_rev(t), message, fr, fd, res)
    } else {
        match spec_current_head(d, r) {
            Err(e) => res == Err::<(), ErrV>(e) && fr == r && fd == d,
            Ok(h) => commit_outcome(d, r, h, message, fr, fd, res),
        }
    }
}

/// A revision as `Rev::new` makes it, stamped with `t`.
pub open spec fn fresh_rev(t: TimeStamp) -> RevV {
    RevV {
        rev_id: None,
        parent_id: None,
        parent_id2: None,
        user_id: None,
        time_stamp: t,
        message: None,
        manifest: Seq::empty(),
    }
}

} // verus!
