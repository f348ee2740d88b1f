//! Commands that create or switch working states: clone, checkout, pull
//! and push.
use vstd::prelude::*;
use crate::vc::repository::{Repo, RepoV, lemma_paths_named, dvcs_name};
use crate::vc::repository::store::{load, spec_load, spec_get_rev, spec_repo_save, spec_current_head};
use crate::vc::repository::sync::fetch_outcome;
use crate::vc::revision::{Rev, RevV};
use crate::dsr::{Disk, DiskV, Key, is_path_valid, spec_is_path_valid, is_prefix, key_is_prefix, make_wd};
use crate::dsr::walk::{clear_dir_adv, spec_clear_dir_adv, strs_view, copy_dir, spec_copy_dir};
use crate::dsr::restore::spec_make_wd;
use crate::path::{spec_path_compose, path_compose, spec_get_name, get_name, lemma_name_compose, views};
use crate::ui::{Errors, ErrV, err_v, unit_v, str_v, static_e};
use crate::strmap::{StrMap, ev_insert};
use crate::strs::{owned, concat, concat3, str_eq};
use crate::cmd_interface::readwrite::{merge, merge_precheck, merge_outcome};
use crate::cmd_function::lca::{history_ids, history_readable, ancestor_id, contains_id_of};

verus! {

/// The message of a successful checkout.
pub open spec fn checkout_msg(alias: Seq<char>) -> Seq<char> {
    "checkout successful: currently on `"@ + alias + "`"@
}

/// The end of a checkout: the revision stored under `id` is written into the
/// working directory; the branch `alias` is made to point at `id` when
/// `make_branch`, and checked out.
pub open spec fn spec_checkout_to(d: DiskV, r: RepoV, wd: Seq<char>, id: Seq<char>, alias: Seq<char>, make_branch: bool) -> (
    DiskV,
    Result<Seq<char>, ErrV>,
) {
    match spec_get_rev(d, r, id) {
        Err(e) => (d, Err(e)),
        Ok(rv) => {
            let (d2, s2) = spec_make_wd(d, rv, wd);
            if s2 is Err {
                (d2, Err(s2->Err_0))
            } else {
                let r2 = if make_branch {
                    RepoV { branch_heads: ev_insert(r.branch_heads, alias, id), ..r }
                } else {
                    r
                };
                let (d3, s3) = if make_branch {
                    spec_repo_save(d2, r2)
                } else {
                    (d2, Ok(()))
                };
                if s3 is Err {
                    (d3, Err(s3->Err_0))
                } else if !r2.heads().contains_key(alias) {
                    (d3, Err(ErrV::Str("Repository doesn't have the branch "@ + alias + "."@)))
                } else {
                    let (d4, s4) = spec_repo_save(d3, RepoV { current_head: Some(alias), ..r2 });
                    match s4 {
                        Err(e) => (d4, Err(e)),
                        Ok(_) => (d4, Ok(checkout_msg(alias))),
                    }
                }
            }
        },
    }
}

/// `checkout`: the working directory is emptied but for `.dvcs` and `src`,
/// then rebuilt from the revision named by an alias or an id. With a new
/// branch alias the branch is created there (it must not exist); without
/// one, an alias is checked out as it is, and an id on `DETACHED-HEAD`.
pub open spec fn spec_checkout(d: DiskV, wd: Seq<char>, rev: Seq<char>, nb: Option<Seq<char>>) -> (DiskV, Result<Seq<char>, ErrV>) {
    match spec_load(d, wd) {
        Err(e) => (d, Err(e)),
        Ok(r) => {
            let (d1, s1) = spec_clear_dir_adv(d, wd, seq![".dvcs"@, "src"@]);
            if s1 is Err {
                (d1, Err(s1->Err_0))
            } else {
                let hit = r.heads().contains_key(rev);
                let id = if hit {
                    r.heads()[rev]
                } else {
                    rev
                };
                match nb {
                    Some(b) => if r.heads().contains_key(b) {
                        (d1, static_e("checkout failed: branch already exists"))
                    } else {
                        spec_checkout_to(d1, r, wd, id, b, true)
                    },
                    None => if hit {
                        spec_checkout_to(d1, r, wd, id, rev, false)
                    } else {
                        spec_checkout_to(d1, r, wd, rev, "DETACHED-HEAD"@, true)
                    },
                }
            }
        },
    }
}

fn checkout_to(disk: &mut Disk, repo: &Repo, repo_mut: &mut Repo, wd: &str, id: &str, alias: &str, make_branch: bool) -> (r: Result<String, Errors>)
    requires
        old(disk).wf(),
        repo@.wf(),
        old(repo_mut)@ == repo@,
    ensures
        final(disk).wf(),
        (final(disk)@, str_v(r)) == spec_checkout_to(old(disk)@, repo@, wd@, id@, alias@, make_branch),
{
    let rev1 = repo.get_rev(disk, id)?;
    make_wd(disk, &rev1, wd)?;
    if make_branch {
        repo_mut.new_head(disk, alias, id)?;
    }
    repo_mut.set_current_head(disk, alias)?;
    Ok(concat3("checkout successful: currently on `", alias, "`"))
}

/// Checks out a revision, named by an alias or an id, into the working
/// directory `wd`, optionally on a new branch.
pub fn checkout(disk: &mut Disk, wd: &str, rev: &str, new_branch_alias: Option<String>) -> (r: Result<String, Errors>)
    requires
        old(disk).wf(),
    ensures
        final(disk).wf(),
        (final(disk)@, str_v(r)) == spec_checkout(old(disk)@, wd@, rev@, match new_branch_alias {
            Some(b) => Some(b@),
            None => None,
        }),
{
    let mut repo_mut = load(disk, wd)?;
    let repo = load(disk, wd)?;
    let mut ignore: Vec<&str> = Vec::new();
    ignore.push(".dvcs");
    ignore.push("src");
    proof {
        assert(strs_view(ignore@) =~= seq![".dvcs"@, "src"@]);
    }
    clear_dir_adv(disk, wd, &ignore)?;
    let branch_heads = repo.get_heads();
    match branch_heads.get(rev) {
        Some(rev_id) => match new_branch_alias {
            Some(nb) => {
                if branch_heads.contains_key(nb.as_str()) {
                    return Err(Errors::Errstatic("checkout failed: branch already exists"));
                }
                checkout_to(disk, &repo, &mut repo_mut, wd, rev_id.as_str(), nb.as_str(), true)
            },
            None => checkout_to(disk, &repo, &mut repo_mut, wd, rev_id.as_str(), rev, false),
        },
        None => match new_branch_alias {
            Some(nb) => {
                if branch_heads.contains_key(nb.as_str()) {
                    return Err(Errors::Errstatic("checkout failed: branch already exists"));
                }
                checkout_to(disk, &repo, &mut repo_mut, wd, rev, nb.as_str(), true)
            },
            None => checkout_to(disk, &repo, &mut repo_mut, wd, rev, "DETACHED-HEAD", true),
        },
    }
}

/// `clone`: the remote's `.dvcs` copied into `wd`, then its checked-out
/// branch checked out there.
pub open spec fn spec_clone(d: DiskV, wd: Seq<char>, remote: Seq<char>) -> (DiskV, Result<Seq<char>, ErrV>) {
    let dc = spec_path_compose(wd, dvcs_name());
    let dr = spec_path_compose(remote, dvcs_name());
    if spec_is_path_valid(d, dc) {
        (d, static_e("clone failed: repo already exists"))
    } else if !spec_is_path_valid(d, dr) {
        (d, static_e("clone failed: remote repo does not exist"))
    } else {
        match spec_load(d, remote) {
            Err(e) => (d, Err(e)),
            Ok(rr) => match rr.current_head {
                None => (d, static_e("clone failed: no head found")),
                Some(a) => if is_prefix(d.key(dr), d.key(dc)) {
                    (d, static_e("clone failed: the copy would lie inside the remote repository"))
                } else {
                    let (d1, s1) = spec_copy_dir(d, dr, dc);
                    if s1 is Err {
                        (d1, Err(s1->Err_0))
                    } else {
                        spec_checkout(d1, wd, a, None)
                    }
                },
            },
        }
    }
}

/// Copies the repository of `remote` into `wd` and checks out its current
/// branch. Fails when `wd` already holds a repository, when `remote` holds
/// none or has no branch checked out.
pub fn clone(disk: &mut Disk, wd: &str, remote: &str) -> (r: Result<String, Errors>)
    requires
        old(disk).wf(),
    ensures
        final(disk).wf(),
        (final(disk)@, str_v(r)) == spec_clone(old(disk)@, wd@, remote@),
{
    let dvcs_cwd = path_compose(wd, ".dvcs");
    let dvcs_remote = path_compose(remote, ".dvcs");
    proof {
        reveal_strlit(".dvcs");
        assert(".dvcs"@ =~= dvcs_name());
        lemma_paths_named(wd@);
        lemma_name_compose(wd@, dvcs_name());
    }
    if is_path_valid(disk, dvcs_cwd.as_str()) {
        return Err(Errors::Errstatic("clone failed: repo already exists"));
    }
    if !is_path_valid(disk, dvcs_remote.as_str()) {
        return Err(Errors::Errstatic("clone failed: remote repo does not exist"));
    }
    let remote_repo = load(disk, remote)?;
    let head_alias = match remote_repo.get_current_head_alias() {
        Some(a) => owned(a),
        None => return Err(Errors::Errstatic("clone failed: no head found")),
    };
    let ks = disk.key_of(dvcs_remote.as_str());
    let kd = disk.key_of(dvcs_cwd.as_str());
    if key_is_prefix(&ks, &kd) {
        return Err(Errors::Errstatic("clone failed: the copy would lie inside the remote repository"));
    }
    copy_dir(disk, dvcs_remote.as_str(), dvcs_cwd.as_str())?;
    checkout(disk, wd, head_alias.as_str(), None)
}

/// The message when the two working directories are named differently.
pub open spec fn names_differ_msg() -> Seq<char> {
    "pull failed: wd and remote do not have the same working directory name, either rename working directory or use a different directory"@
}

fn same_name(a: &str, b: &str) -> (r: bool)
    ensures
        r == (spec_get_name(a@) == spec_get_name(b@)),
{
    match (get_name(a), get_name(b)) {
        (Some(x), Some(y)) => str_eq(x.as_str(), y.as_str()),
        (None, None) => true,
        _ => false,
    }
}

/// What `pull` decides before it fetches.
pub open spec fn pull_precheck(d: DiskV, wd: Seq<char>, remote: Seq<char>) -> Option<Result<Seq<char>, ErrV>> {
    if spec_get_name(wd) != spec_get_name(remote) {
        Some(Err(ErrV::Static(names_differ_msg())))
    } else if wd == remote {
        Some(static_e("pull failed: working and remote are the same directory"))
    } else {
        match spec_load(d, wd) {
            Err(e) => Some(Err(e)),
            Ok(r) => match r.current_head {
                None => Some(static_e("pull failed: no head found")),
                Some(a) => if !(r.stage.add_map().len() == 0 && r.stage.remove_map().len() == 0) {
                    Some(static_e("pull failed: uncommitted changes in working directory, commit changes first"))
                } else {
                    match spec_load(d, remote) {
                        Err(e) => Some(Err(e)),
                        Ok(rr) => if !rr.heads().contains_key(a) {
                            Some(Err(ErrV::Str("pull failed: remote repo does not have the current head "@ + a)))
                        } else {
                            None
                        },
                    }
                },
            },
        }
    }
}

/// What `pull` may end in: what its first checks decide; otherwise the
/// remote's contents and revisions are fetched, its head recorded as the
/// branch `remote/<alias>`, and that branch merged, each step ending the
/// pull when it fails.
pub open spec fn pull_outcome(d: DiskV, wd: Seq<char>, remote: Seq<char>, fd: DiskV, res: Result<Seq<char>, ErrV>) -> bool {
    match pull_precheck(d, wd, remote) {
        Some(x) => res == x && fd == d,
        None => {
            let r = spec_load(d, wd)->Ok_0;
            let a = r.current_head->Some_0;
            let rr = spec_load(d, remote)->Ok_0;
            let tracking = "remote/"@ + a;
            exists|d1: DiskV, s1: Result<(), ErrV>|
                #![trigger fetch_outcome(d, r, remote, d1, s1)]
                fetch_outcome(d, r, remote, d1, s1) && if s1 is Err {
                    res == Err::<Seq<char>, ErrV>(s1->Err_0) && fd == d1
                } else {
                    let r2 = RepoV { branch_heads: ev_insert(r.branch_heads, tracking, rr.heads()[a]), ..r };
                    let (d2, s2) = spec_repo_save(d1, r2);
                    if s2 is Err {
                        res == Err::<Seq<char>, ErrV>(s2->Err_0) && fd == d2
                    } else {
                        merge_outcome(d2, wd, tracking, fd, res)
                    }
                }
        },
    }
}

/// Pulls the checked-out branch from the repository of `remote`: its
/// contents and revisions are fetched, its head recorded as the branch
/// `remote/<alias>`, and that branch merged into the checked-out one.
pub fn pull(disk: &mut Disk, wd: &str, remote: &str) -> (r: Result<String, Errors>)
    requires
        old(disk).wf(),
    ensures
        final(disk).wf(),
        pull_outcome(old(disk)@, wd@, remote@, final(disk)@, str_v(r)),
{
    if !same_name(wd, remote) {
        return Err(Errors::Errstatic(
            "pull failed: wd and remote do not have the same working directory name, either rename working directory or use a different directory",
        ));
    }
    if str_eq(wd, remote) {
        return Err(Errors::Errstatic("pull failed: working and remote are the same directory"));
    }
    let mut cur_repo_mut = load(disk, wd)?;
    let cur_repo = load(disk, wd)?;
    let cur_head_alias = match cur_repo.get_current_head_alias() {
        Some(a) => owned(a),
        None => return Err(Errors::Errstatic("pull failed: no head found")),
    };
    if !cur_repo.get_stage().is_empty() {
        return Err(Errors::Errstatic("pull failed: uncommitted changes in working directory, commit changes first"));
    }
    let remote_repo = load(disk, remote)?;
    let remote_rev_id = match remote_repo.get_heads().get(cur_head_alias.as_str()) {
        Some(id) => id.clone(),
        None => return Err(Errors::ErrStr(concat("pull failed: remote repo does not have the current head ", cur_head_alias.as_str()))),
    };
    let ghost d0 = disk@;
    let fetched = cur_repo.fetch(disk, remote);
    let ghost d1 = disk@;
    proof {
        assert(fetch_outcome(d0, cur_repo@, remote@, d1, unit_v(fetched)));
    }
    match fetched {
        Ok(_) => {},
        Err(e) => return Err(e),
    }
    let tracking = concat("remote/", cur_head_alias.as_str());
    proof {
        reveal_strlit("remote/");
    }
    cur_repo_mut.new_head(disk, tracking.as_str(), remote_rev_id.as_str())?;
    merge(disk, wd, tracking)
}

/// The remote's head `rem` has nothing that the local head `cur` lacks: it
/// is the same revision, by id, or the local history, read in full, reaches
/// its id.
pub open spec fn remote_behind(d: DiskV, r: RepoV, cur: RevV, rem: RevV) -> bool {
    ||| cur.rev_id == rem.rev_id
    ||| (history_readable(d, r, cur) && rem.rev_id is Some && ancestor_id(d, r, cur, rem.rev_id->Some_0))
}

/// Whether the history of `cur` in `repo`, read in full, reaches the id of
/// `rem`.
fn reaches_id_of(repo: &Repo, disk: &Disk, cur: &Rev, rem: &Rev) -> (r: bool)
    requires
        disk.wf(),
        repo@.wf(),
    ensures
        r == (history_readable(disk@, repo@, cur@) && rem@.rev_id is Some && ancestor_id(disk@, repo@, cur@, rem@.rev_id->Some_0)),
{
    match rem.get_id() {
        None => false,
        Some(x) => match history_ids(repo, disk, cur) {
            Err(_) => false,
            Ok(h) => {
                let found = contains_id_of(&h, x);
                proof {
                    if found {
                        let j = choose|j: int| 0 <= j < h@.len() && #[trigger] h@[j]@ == x@;
                        assert(views(h@)[j] == x@);
                        assert(views(h@).contains(x@));
                    }
                    if ancestor_id(disk@, repo@, cur@, x@) {
                        assert(views(h@).contains(x@));
                        let j = choose|j: int| 0 <= j < views(h@).len() && views(h@)[j] == x@;
                        assert(h@[j]@ == x@);
                    }
                }
                found
            },
        },
    }
}

/// What `push` decides before it switches branches: it refuses when the
/// remote's branch has revisions that the local one lacks.
pub open spec fn push_precheck(d: DiskV, wd: Seq<char>, remote: Seq<char>) -> Option<Result<Seq<char>, ErrV>> {
    if spec_get_name(wd) != spec_get_name(remote) {
        Some(Err(ErrV::Static(names_differ_msg())))
    } else if wd == remote {
        Some(static_e("pull failed: working and remote are the same directory"))
    } else {
        match spec_load(d, wd) {
            Err(e) => Some(Err(e)),
            Ok(r) => if !(r.stage.add_map().len() == 0 && r.stage.remove_map().len() == 0) {
                Some(static_e("pull failed: uncommitted changes in working directory, commit changes first"))
            } else {
                match r.current_head {
                    None => Some(static_e("pull failed: no head found")),
                    Some(a) => match spec_load(d, remote) {
                        Err(e) => Some(Err(e)),
                        Ok(rr) => if rr.heads().contains_key(a) {
                            match spec_get_rev(d, r, a) {
                                Err(e) => Some(Err(e)),
                                Ok(cur) => match spec_get_rev(d, rr, rr.heads()[a]) {
                                    Err(e) => Some(Err(e)),
                                    Ok(rem) => if !remote_behind(d, r, cur, rem) {
                                        Some(static_e("push failed: remote branch is not up to date. Please pull first"))
                                    } else {
                                        None
                                    },
                                },
                            }
                        } else {
                            None
                        },
                    },
                }
            },
        }
    }
}

fn same_id(a: &Rev, b: &Rev) -> (r: bool)
    ensures
        r == (a@.rev_id == b@.rev_id),
{
    match (a.get_id(), b.get_id()) {
        (Some(x), Some(y)) => str_eq(x, y),
        (None, None) => true,
        _ => false,
    }
}

/// The end of a push, once the branch is checked out again: a failed merge
/// fails the push; otherwise the remote fetches this repository's contents
/// and revisions.
pub open spec fn push_finish(d: DiskV, rr: RepoV, wd: Seq<char>, merged: Result<Seq<char>, ErrV>, fd: DiskV, res: Result<Seq<char>, ErrV>) -> bool {
    if merged is Err {
        res == static_e::<Seq<char>>("push failed: merge failed. Something unexpected went wrong.") && fd == d
    } else {
        exists|s: Result<(), ErrV>|
            #![trigger fetch_outcome(d, rr, wd, fd, s)]
            fetch_outcome(d, rr, wd, fd, s) && res == match s {
                Err(e) => Err::<Seq<char>, ErrV>(e),
                Ok(_) => Ok::<Seq<char>, ErrV>("push success"@),
            }
    }
}

/// What `push` may end in: what its first checks decide; otherwise
/// `remote/<alias>` is checked out, the branch merged into it, the branch
/// checked out again, and the push finished, each checkout ending the push
/// when it fails.
pub open spec fn push_outcome(d: DiskV, wd: Seq<char>, remote: Seq<char>, fd: DiskV, res: Result<Seq<char>, ErrV>) -> bool {
    match push_precheck(d, wd, remote) {
        Some(x) => res == x && fd == d,
        None => {
            let r = spec_load(d, wd)->Ok_0;
            let a = r.current_head->Some_0;
            let rr = spec_load(d, remote)->Ok_0;
            let (d1, s1) = spec_checkout(d, wd, "remote/"@ + a, None);
            if s1 is Err {
                res == Err::<Seq<char>, ErrV>(s1->Err_0) && fd == d1
            } else {
                exists|d2: DiskV, m: Result<Seq<char>, ErrV>|
                    #![trigger merge_outcome(d1, wd, a, d2, m)]
                    merge_outcome(d1, wd, a, d2, m) && {
                        let (d3, s3) = spec_checkout(d2, wd, a, None);
                        if s3 is Err {
                            res == Err::<Seq<char>, ErrV>(s3->Err_0) && fd == d3
                        } else {
                            push_finish(d3, rr, wd, m, fd, res)
                        }
                    }
            }
        },
    }
}

/// Pushes the checked-out branch to the repository of `remote`: the branch
/// is merged into `remote/<alias>`, the branch checked out again, and the
/// remote fetches this repository's contents and revisions. Refuses when
/// the remote's branch has moved on.
#[verifier::spinoff_prover]
pub fn push(disk: &mut Disk, wd: &str, remote: &str) -> (r: Result<String, Errors>)
    requires
        old(disk).wf(),
    ensures
        final(disk).wf(),
        push_outcome(old(disk)@, wd@, remote@, final(disk)@, str_v(r)),
{
    if !same_name(wd, remote) {
        return Err(Errors::Errstatic(
            "pull failed: wd and remote do not have the same working directory name, either rename working directory or use a different directory",
        ));
    }
    if str_eq(wd, remote) {
        return Err(Errors::Errstatic("pull failed: working and remote are the same directory"));
    }
    let cur_repo = load(disk, wd)?;
    if !cur_repo.get_stage().is_empty() {
        return Err(Errors::Errstatic("pull failed: uncommitted changes in working directory, commit changes first"));
    }
    let cur_head_alias = match cur_repo.get_current_head_alias() {
        Some(a) => owned(a),
        None => return Err(Errors::Errstatic("pull failed: no head found")),
    };
    let remote_repo = load(disk, remote)?;
    match remote_repo.get_heads().get(cur_head_alias.as_str()) {
        Some(head) => {
            let cur_rev = cur_repo.get_rev(disk, cur_head_alias.as_str())?;
            let remote_rev = remote_repo.get_rev(disk, head.as_str())?;
            if !same_id(&cur_rev, &remote_rev) && !reaches_id_of(&cur_repo, disk, &cur_rev, &remote_rev) {
                return Err(Errors::Errstatic("push failed: remote branch is not up to date. Please pull first"));
            }
        },
        None => {},
    }
    let tracking = concat("remote/", cur_head_alias.as_str());
    proof {
        reveal_strlit("remote/");
    }
    checkout(disk, wd, tracking.as_str(), None)?;
    let ghost d1 = disk@;
    let m = merge(disk, wd, owned(cur_head_alias.as_str()));
    let ghost d2 = disk@;
    checkout(disk, wd, cur_head_alias.as_str(), None)?;
    let ghost d3 = disk@;
    if m.is_err() {
        proof {
            assert(merge_outcome(d1, wd@, cur_head_alias@, d2, str_v(m)));
        }
        return Err(Errors::Errstatic("push failed: merge failed. Something unexpected went wrong."));
    }
    let fetched = remote_repo.fetch(disk, wd);
    proof {
        assert(fetch_outcome(d3, remote_repo@, wd@, disk@, unit_v(fetched)));
        assert(merge_outcome(d1, wd@, cur_head_alias@, d2, str_v(m)));
    }
    match fetched {
        Ok(_) => Ok(owned("push success")),
        Err(e) => Err(e),
    }
}

} // verus!
