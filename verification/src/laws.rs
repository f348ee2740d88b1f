//! Properties that hold across the operations of the library.
use vstd::prelude::*;
use crate::dsr::{DiskV, Key, NodeV, spec_write_file, spec_read_file, spec_write_node, spec_read_node, spec_is_path_valid, key};
use crate::dsr::walk::lemma_key_compose;
use crate::path::{spec_path_compose, is_name};
use crate::vc::file::named;
use crate::vc::repository::{RepoV, StageV, spec_repo_paths, lemma_paths_named, dvcs_name, repos_name, files_name, revs_name};
use crate::vc::repository::store::{spec_repo_save, spec_load};
use crate::vc::repository::locate::spec_check_wd;
use crate::vc::repository::commit::{spec_record_commit, commit_alias, commit_outcome, spec_stage_commit, lemma_staged_manifest, spec_commit_allows, fresh_rev};
use crate::vc::repository::staging::spec_add_file;
use crate::vc::repository::store::{spec_save_file, spec_current_head, keeps_node};
use crate::dsr::{is_prefix, tree_ok};
use crate::vc::repository::commit::staged_manifest;
use crate::ui::static_e;
use crate::vc::repository::lemma_store_path;
use crate::vc::repository::locate::spec_checked_sha;
use crate::vc::file::{content_id_fits, spec_retrieve_info, dvcs_files};
use crate::vc::repository::staging::lemma_save_all_keeps;
use crate::vc::repository::store::spec_get_rev;
use crate::cmd_interface::readwrite::spec_cat;
use crate::vc::file::EntryV;
use crate::vc::revision::TimeStamp;
use crate::dsr::{node_text, spec_create_file};
use crate::dsr::walk::spec_clear_dir;
use crate::dsr::restore::{spec_make_wd, spec_restore, spec_restore_one};
use crate::vc::repository::store::spec_file_content;
use crate::vc::file::spec_file_id;
use crate::path::lemma_name_compose;
use crate::vc::revision::{RevV, spec_rev_save, spec_rev_from, spec_gen_id};
use crate::cmd_function::{spec_diff_type, FileDiffType};
use crate::strmap::{seq_to_map, ev_insert, ev_remove, distinct_keys, lemma_ev_insert, lemma_ev_remove};
use crate::vc::file::ItemInfoV;
use crate::vc::repository::staging::with_add;
use crate::cmd_function::{spec_find_unmerged, split_lines, marker, marker_state};
use crate::ui::ErrV;
use crate::cmd_function::lca::{is_lca, common_anc, below};
use crate::vc::repository::sync::{spec_copy_missing, lemma_copy_missing_present, lemma_copy_missing_grows, lemma_copy_missing_done};
use crate::path::spec_get_name;
use crate::outside::{date_time_text, is_lower_hex};
use crate::cmd_interface::readonly::log_block;
use crate::cmd_interface::readwrite::merged_text;
use crate::cmd_function::{FileDiffV, with_newline};
use crate::outside::diffy_merge;
use crate::cmd_interface::createonly::{spec_checkout, spec_checkout_to};
use crate::cmd_interface::readonly::head_lines;
use crate::dsr::walk::spec_clear_dir_adv;
use crate::cmd_interface::status::{Lists, file_status, spec_status, missing_status, removed_status, names_of};

verus! {

/// What a successful write puts at a path is what a read of that path
/// then gives.
pub proof fn law_read_after_write(d: DiskV, p: Seq<char>, content: Seq<char>)
    requires
        spec_write_file(d, p, content).1 is Ok,
    ensures
        spec_read_file(spec_write_file(d, p, content).0, p) == Ok::<Seq<char>, ErrV>(content),
{
    let d1 = spec_write_file(d, p, content).0;
    let k = d.key(p);
    assert(d1.nodes.contains_key(k));
    assert(d1.key(p) == k);
}

/// A revision saved under its id is read back unchanged from there.
pub proof fn law_rev_save_then_from(d: DiskV, r: RevV, rev_path: Seq<char>)
    requires
        r.wf(),
        spec_rev_save(d, r, rev_path).1 is Ok,
    ensures
        spec_rev_from(spec_rev_save(d, r, rev_path).0, spec_path_compose(rev_path, r.rev_id->0)) == Ok::<RevV, ErrV>(r),
{
    let p = spec_path_compose(rev_path, r.rev_id->0);
    let d1 = spec_rev_save(d, r, rev_path).0;
    assert(d1.nodes.contains_key(d.key(p)));
    assert(d1.key(p) == d.key(p));
}

/// A repository record that was saved is what `load` then gives from its
/// working directory.
pub proof fn law_save_then_load(d: DiskV, r: RepoV)
    requires
        r.wf(),
        spec_repo_save(d, r).1 is Ok,
    ensures
        spec_load(spec_repo_save(d, r).0, r.paths.wd) == Ok::<RepoV, ErrV>(r),
{
    let wd = r.paths.wd;
    let d1 = spec_repo_save(d, r).0;
    lemma_paths_named(wd);
    let root = spec_path_compose(wd, dvcs_name());
    lemma_key_compose(d.cwd, root, repos_name());
    let kr = d.key(r.paths.repos);
    assert(kr == d.key(root).push(repos_name()));
    assert(kr.drop_last() =~= d.key(root));
    assert(d.is_dir_at(d.key(root)));
    assert(d1.nodes == d.nodes.insert(kr, NodeV::Repo(r)));
    assert(d1.exists_at(d1.key(root))) by {
        if d.key(root).len() > 0 {
            assert(d.key(root) != kr);
            assert(d1.nodes.contains_key(d.key(root)));
        }
    }
    assert(spec_is_path_valid(d1, spec_path_compose(wd, dvcs_name())));
    assert(spec_check_wd(d1, wd) == Some(wd));
    assert(spec_read_node(d1, r.paths.repos) == Ok::<NodeV, ErrV>(NodeV::Repo(r)));
}

/// Committing moves the checked-out branch (or `main`) to the new
/// revision, whose parent is the revision it was made from, and leaves
/// nothing staged.
pub proof fn law_commit_moves_head(d: DiskV, r: RepoV, h: RevV, message: Seq<char>, user: Seq<char>, time: crate::vc::revision::TimeStamp)
    requires
        spec_record_commit(d, r, h, message, user, time).3 is Ok,
    ensures
        ({
            let (r1, h1, d1, s) = spec_record_commit(d, r, h, message, user, time);
            &&& r1.branch_heads == ev_insert(r.branch_heads, commit_alias(r), h1.rev_id->0)
            &&& h1.parent_id == h.rev_id
            &&& h1.message == Some(message)
            &&& h1.manifest == h.manifest
            &&& r1.stage == StageV { to_add: Seq::empty(), to_remove: Seq::empty() }
            &&& r1.current_head == r.current_head
        }),
{
}

/// A change between two contents is `Unchanged` exactly when both are the
/// same non-empty content.
pub proof fn law_unchanged_iff_equal(origin: Seq<char>, modified: Seq<char>)
    ensures
        (spec_diff_type(origin, modified) == FileDiffType::Unchanged) <==> (origin.len() > 0 && modified.len() > 0
            && origin == modified),
{
}

/// Staging an item for adding and then unstaging its path leaves the items
/// staged for adding as they were, without that path.
pub proof fn law_unstage_undoes_add(r: RepoV, item: ItemInfoV)
    requires
        r.wf(),
    ensures
        ({
            let staged = with_add(r, ev_insert(r.stage.to_add, item.loc_in_wd, item));
            let unstaged = with_add(staged, ev_remove(staged.stage.to_add, item.loc_in_wd));
            &&& staged.stage.add_map() == r.stage.add_map().insert(item.loc_in_wd, item)
            &&& unstaged.stage.add_map() == r.stage.add_map().remove(item.loc_in_wd)
            &&& unstaged.wf()
        }),
{
    let s = r.stage.to_add;
    lemma_ev_insert(s, item.loc_in_wd, item);
    let s1 = ev_insert(s, item.loc_in_wd, item);
    lemma_ev_remove(s1, item.loc_in_wd);
    assert(seq_to_map(s).insert(item.loc_in_wd, item).remove(item.loc_in_wd) =~= seq_to_map(s).remove(item.loc_in_wd));
}

proof fn lemma_no_open_marker(lines: Seq<Seq<char>>)
    requires
        forall|i: int| 0 <= i < lines.len() ==> lines[i] != marker(0),
    ensures
        marker_state(lines) == 0,
    decreases lines.len(),
{
    if lines.len() > 0 {
        assert forall|i: int| 0 <= i < lines.drop_last().len() implies lines.drop_last()[i] != marker(0) by {
            assert(lines.drop_last()[i] == lines[i]);
        }
        lemma_no_open_marker(lines.drop_last());
        assert(lines.last() == lines[lines.len() - 1]);
    }
}

/// A text none of whose lines opens a conflict is never reported unmerged.
pub proof fn law_merged_without_open_marker(content: Seq<char>)
    requires
        forall|i: int| 0 <= i < split_lines(content).len() ==> split_lines(content)[i] != marker(0),
    ensures
        spec_find_unmerged(content) is Ok,
{
    lemma_no_open_marker(split_lines(content));
}

/// Where a repository keeps a stored content, a revision and its record,
/// by key.
proof fn lemma_store_keys(cwd: Seq<char>, wd: Seq<char>, id: Seq<char>, rid: Seq<char>)
    requires
        is_name(id),
        is_name(rid),
    ensures
        ({
            let paths = spec_repo_paths(wd);
            let kr = key(cwd, paths.root);
            &&& key(cwd, spec_path_compose(paths.files, id)) == kr.push(files_name()).push(id)
            &&& key(cwd, spec_path_compose(paths.revs, rid)) == kr.push(revs_name()).push(rid)
            &&& key(cwd, paths.repos) == kr.push(repos_name())
        }),
{
    let paths = spec_repo_paths(wd);
    lemma_paths_named(wd);
    lemma_key_compose(cwd, paths.root, files_name());
    lemma_key_compose(cwd, paths.root, revs_name());
    lemma_key_compose(cwd, paths.root, repos_name());
    lemma_key_compose(cwd, paths.files, id);
    lemma_key_compose(cwd, paths.revs, rid);
}

/// Reading a path gives the same after a write at another key.
proof fn lemma_read_elsewhere(d: DiskV, q: Seq<char>, k: Key, n: NodeV)
    requires
        d.key(q) != k,
    ensures
        spec_read_node(d.with_nodes(d.nodes.insert(k, n)), q) == spec_read_node(d, q),
{
}

/// After a successful commit, the repository loads from the working
/// directory as the commit left it, and the branch the commit moved names a
/// revision whose manifest is the head's with the stage applied. Whatever
/// was in the content store is still there.
proof fn lemma_commit_reads_rev(d: DiskV, r: RepoV, h: RevV, message: Seq<char>, fr: RepoV, fd: DiskV)
    requires
        r.wf(),
        h.wf(),
        commit_outcome(d, r, h, message, fr, fd, Ok(())),
    ensures
        spec_load(fd, r.paths.wd) == Ok::<RepoV, ErrV>(fr),
        fr.paths == r.paths,
        spec_get_rev(fd, fr, commit_alias(r)) matches Ok(rv) && rv.manifest == staged_manifest(h.manifest, r.stage),
        forall|k: Key|
            d.nodes.contains_key(k) && k.len() > d.key(r.paths.root).len() && is_prefix(d.key(r.paths.root), k)
                && k[d.key(r.paths.root).len() as int] == files_name() ==> #[trigger] keeps_node(d, fd, k),
{
    let (h1, d1, s1) = spec_stage_commit(d, r, h);
    lemma_staged_manifest(h.manifest, r.stage);
    lemma_save_all_keeps(d, r, h1.manifest, Seq::empty());
    let (user, time) = choose|user: Seq<char>, time: TimeStamp|
        #![trigger spec_record_commit(d1, r, h1, message, user, time)]
        {
            let (r2, h2, d2, s2) = spec_record_commit(d1, r, h1, message, user, time);
            fr == r2 && fd == d2 && Ok::<(), ErrV>(()) == s2 && (h2.rev_id matches Some(x) && is_name(x))
        };
    let (r2, h3, d2, s2) = spec_record_commit(d1, r, h1, message, user, time);
    let rid = h3.rev_id->0;
    let (da, sa) = spec_rev_save(d1, h3, r.paths.revs);
    assert(sa is Ok);
    lemma_store_keys(d.cwd, r.paths.wd, rid, rid);
    let kroot = d.key(r.paths.root);
    let krev = d.key(spec_path_compose(r.paths.revs, rid));
    let krepo = d.key(r.paths.repos);
    assert(krev[kroot.len() as int] == revs_name());
    assert(krepo[kroot.len() as int] == repos_name());
    assert(krev.len() != krepo.len());
    assert forall|k: Key|
        d.nodes.contains_key(k) && k.len() > kroot.len() && is_prefix(kroot, k) && k[kroot.len() as int] == files_name()
            implies #[trigger] keeps_node(d, fd, k) by {
        lemma_save_all_keeps(d, r, h1.manifest, k);
        assert(k != krev && k != krepo);
    }
    law_rev_save_then_from(d1, h3, r.paths.revs);
    lemma_ev_insert(r.branch_heads, commit_alias(r), rid);
    assert(fr.wf());
    law_save_then_load(da, fr);
    lemma_read_elsewhere(da, spec_path_compose(r.paths.revs, rid), krepo, NodeV::Repo(fr));
    assert(spec_get_rev(fd, fr, commit_alias(r)) == Ok::<RevV, ErrV>(h3));
}

/// A committed stage can be read back: an item staged for adding, whose
/// content sits in the store, is what `cat` gives at the branch the commit
/// moved.
#[verifier::rlimit(40)]
#[verifier::spinoff_prover]
proof fn lemma_commit_then_cat(
    d: DiskV,
    r: RepoV,
    h: RevV,
    message: Seq<char>,
    fr: RepoV,
    fd: DiskV,
    loc: Seq<char>,
    id: Seq<char>,
)
    requires
        r.wf(),
        h.wf(),
        commit_outcome(d, r, h, message, fr, fd, Ok(())),
        r.stage.add_map().contains_key(loc),
        r.stage.add_map()[loc].entry == EntryV::File(id),
        !r.stage.remove_map().contains_key(loc),
        is_name(id),
        d.nodes.contains_key(d.key(spec_path_compose(r.paths.files, id))),
        !(d.nodes[d.key(spec_path_compose(r.paths.files, id))] is Dir),
    ensures
        spec_cat(fd, r.paths.wd, commit_alias(r), loc) == Ok::<Seq<char>, ErrV>(
            node_text(d.nodes[d.key(spec_path_compose(r.paths.files, id))]),
        ),
{
    let k = d.key(spec_path_compose(r.paths.files, id));
    lemma_store_keys(d.cwd, r.paths.wd, id, id);
    let kroot = d.key(r.paths.root);
    assert(kroot.push(files_name()).push(id).subrange(0, kroot.len() as int) =~= kroot);
    lemma_commit_reads_rev(d, r, h, message, fr, fd);
    assert(keeps_node(d, fd, k));
    lemma_staged_manifest(h.manifest, r.stage);
    lemma_name_compose(r.paths.files, id);
}

/// A path staged for removal is gone from the revision that a commit
/// makes: `cat` of it at the branch the commit moved finds nothing.
proof fn lemma_commit_then_cat_removed(d: DiskV, r: RepoV, h: RevV, message: Seq<char>, fr: RepoV, fd: DiskV, loc: Seq<char>)
    requires
        r.wf(),
        h.wf(),
        commit_outcome(d, r, h, message, fr, fd, Ok(())),
        r.stage.remove_map().contains_key(loc),
    ensures
        spec_cat(fd, r.paths.wd, commit_alias(r), loc) == static_e::<Seq<char>>("file not found"),
{
    lemma_commit_reads_rev(d, r, h, message, fr, fd);
    lemma_staged_manifest(h.manifest, r.stage);
}

/// Staging a file for adding leaves its text in the store, under the id
/// that the stage records for it.
proof fn lemma_add_stores(d: DiskV, r: RepoV, p: Seq<char>)
    requires
        r.wf(),
        spec_check_wd(d, p) == Some(r.paths.wd),
        content_id_fits(d, p),
        spec_retrieve_info(d, p) matches Ok(item) && item.entry matches EntryV::File(id) && {
            &&& d.key(spec_path_compose(r.paths.wd, item.loc_in_wd)) == d.key(p)
            &&& !d.is_dir_at(d.key(spec_path_compose(r.paths.files, id)))
        },
        spec_add_file(d, r, p).2 is Ok,
    ensures
        ({
            let item = spec_retrieve_info(d, p)->Ok_0;
            let id = item.entry->File_0;
            let (r1, d1, _) = spec_add_file(d, r, p);
            let k = d.key(spec_path_compose(r.paths.files, id));
            &&& r1 == with_add(r, ev_insert(r.stage.to_add, item.loc_in_wd, item))
            &&& r1.wf()
            &&& r1.stage.add_map().contains_key(item.loc_in_wd)
            &&& r1.stage.add_map()[item.loc_in_wd] == item
            &&& is_name(id)
            &&& d1.cwd == d.cwd
            &&& d1.nodes.contains_key(k)
            &&& !(d1.nodes[k] is Dir)
            &&& spec_read_file(d, p) == Ok::<Seq<char>, ErrV>(node_text(d1.nodes[k]))
        }),
{
    let item = spec_retrieve_info(d, p)->Ok_0;
    let id = item.entry->File_0;
    let content = spec_read_file(d, p)->Ok_0;
    let pool = spec_path_compose(r.paths.wd, dvcs_files());
    lemma_store_path(r.paths.wd);
    assert(pool == r.paths.files);
    assert(id == spec_checked_sha(d, content, pool));
    let r1 = with_add(r, ev_insert(r.stage.to_add, item.loc_in_wd, item));
    lemma_ev_insert(r.stage.to_add, item.loc_in_wd, item);
    let slot = spec_path_compose(r.paths.files, id);
    let k = d.key(slot);
    lemma_store_keys(d.cwd, r.paths.wd, id, id);
    lemma_name_compose(r.paths.files, id);
    let (d1, s1) = spec_save_file(d, r1, item);
    assert(d1.cwd == d.cwd && d1.nodes.contains_key(k) && !(d1.nodes[k] is Dir) && node_text(d1.nodes[k]) == content);
    let krepo = d.key(r.paths.repos);
    assert(krepo.len() != k.len());
}

/// A file that is staged for adding and then committed is read back by
/// `cat`, at the branch the commit moved, with the text it had when it was
/// added.
pub proof fn law_add_commit_cat(d: DiskV, r: RepoV, p: Seq<char>, message: Seq<char>, fr: RepoV, fd: DiskV)
    requires
        r.wf(),
        spec_check_wd(d, p) == Some(r.paths.wd),
        content_id_fits(d, p),
        spec_retrieve_info(d, p) matches Ok(item) && item.entry matches EntryV::File(id) && {
            &&& d.key(spec_path_compose(r.paths.wd, item.loc_in_wd)) == d.key(p)
            &&& !r.stage.remove_map().contains_key(item.loc_in_wd)
            &&& !d.is_dir_at(d.key(spec_path_compose(r.paths.files, id)))
        },
        spec_add_file(d, r, p).2 is Ok,
        spec_commit_allows(spec_add_file(d, r, p).1, spec_add_file(d, r, p).0, message, fr, fd, Ok(())),
    ensures
        spec_cat(fd, r.paths.wd, commit_alias(r), spec_retrieve_info(d, p)->Ok_0.loc_in_wd) == spec_read_file(d, p),
{
    let item = spec_retrieve_info(d, p)->Ok_0;
    let id = item.entry->File_0;
    lemma_add_stores(d, r, p);
    let (r1, d1, _) = spec_add_file(d, r, p);
    let k = d.key(spec_path_compose(r.paths.files, id));
    if r1.current_head is None {
        let t = choose|t: TimeStamp| #![trigger fresh_rev(t)]
            commit_outcome(d1, RepoV { current_head: Some("main"@), ..r1 }, fresh_rev(t), message, fr, fd, Ok(()));
        let rc = RepoV { current_head: Some("main"@), ..r1 };
        assert(fresh_rev(t).wf());
        lemma_commit_then_cat(d1, rc, fresh_rev(t), message, fr, fd, item.loc_in_wd, id);
    } else {
        let h = spec_current_head(d1, r1)->Ok_0;
        lemma_commit_then_cat(d1, r1, h, message, fr, fd, item.loc_in_wd, id);
    }
}

/// Each entry of `items` reads below `wd` as the text that the store of
/// `r` holds for it.
pub open spec fn restored(d: DiskV, r: RepoV, wd: Seq<char>, items: Seq<(Seq<char>, ItemInfoV)>) -> bool {
    forall|i: int|
        0 <= i < items.len() ==> {
            &&& #[trigger] spec_file_content(d, r, items[i].1) is Ok
            &&& spec_read_file(d, spec_path_compose(wd, items[i].0)) == spec_file_content(d, r, items[i].1)
        }
}

/// A read that succeeds gives the same after something is put where
/// nothing was.
proof fn lemma_read_after_fresh(d: DiskV, k: Key, n: NodeV, q: Seq<char>)
    requires
        !d.exists_at(k),
        spec_read_file(d, q) is Ok,
    ensures
        spec_read_file(d.with_nodes(d.nodes.insert(k, n)), q) == spec_read_file(d, q),
{
}

/// The stored content of an item, when it can be read, is the same after
/// something is put where nothing was.
proof fn lemma_content_after_fresh(d: DiskV, r: RepoV, item: ItemInfoV, k: Key, n: NodeV)
    requires
        !d.exists_at(k),
        spec_file_content(d, r, item) is Ok,
    ensures
        spec_file_content(d.with_nodes(d.nodes.insert(k, n)), r, item) == spec_file_content(d, r, item),
{
    let p = spec_path_compose(r.paths.files, spec_file_id(item.entry)->Some_0);
    lemma_read_after_fresh(d, k, n, p);
}

/// Writing back one more entry keeps the entries written before.
proof fn lemma_restore_one_keeps(d: DiskV, r: RepoV, wd: Seq<char>, items: Seq<(Seq<char>, ItemInfoV)>, k: Seq<char>, item: ItemInfoV)
    requires
        restored(d, r, wd, items),
        spec_restore_one(d, r, wd, k, item).1 is Ok,
    ensures
        restored(spec_restore_one(d, r, wd, k, item).0, r, wd, items.push((k, item))),
        spec_restore_one(d, r, wd, k, item).0.cwd == d.cwd,
{
    let t = spec_path_compose(wd, k);
    let kt = d.key(t);
    let d1 = spec_create_file(d, t).0;
    assert(d1 == d.with_nodes(d.nodes.insert(kt, NodeV::File(Seq::empty()))));
    let c = spec_file_content(d1, r, item)->Ok_0;
    let d2 = spec_restore_one(d, r, wd, k, item).0;
    assert(d2.nodes =~= d.nodes.insert(kt, NodeV::File(c)));
    assert(d2 == d.with_nodes(d.nodes.insert(kt, NodeV::File(c))));
    let s = items.push((k, item));
    assert forall|i: int| 0 <= i < s.len() implies {
        &&& #[trigger] spec_file_content(d2, r, s[i].1) is Ok
        &&& spec_read_file(d2, spec_path_compose(wd, s[i].0)) == spec_file_content(d2, r, s[i].1)
    } by {
        if i < items.len() {
            assert(s[i] == items[i]);
            assert(spec_file_content(d, r, items[i].1) is Ok);
            lemma_content_after_fresh(d, r, items[i].1, kt, NodeV::File(c));
            lemma_read_after_fresh(d, kt, NodeV::File(c), spec_path_compose(wd, items[i].0));
        } else {
            assert(s[i] == (k, item));
            let q = spec_path_compose(r.paths.files, spec_file_id(item.entry)->Some_0);
            if d1.key(q) != kt {
                lemma_read_elsewhere(d1, q, kt, NodeV::File(c));
                assert(d1.with_nodes(d1.nodes.insert(kt, NodeV::File(c))) == d2);
            }
        }
    }
}

/// Writing back the entries of a manifest leaves each of them reading as
/// its stored content.
proof fn lemma_restore_all(d: DiskV, r: RepoV, wd: Seq<char>, items: Seq<(Seq<char>, ItemInfoV)>)
    requires
        spec_restore(d, r, wd, items).1 is Ok,
    ensures
        restored(spec_restore(d, r, wd, items).0, r, wd, items),
        spec_restore(d, r, wd, items).0.cwd == d.cwd,
    decreases items.len(),
{
    if items.len() > 0 {
        let pre = items.drop_last();
        lemma_restore_all(d, r, wd, pre);
        let d1 = spec_restore(d, r, wd, pre).0;
        lemma_restore_one_keeps(d1, r, wd, pre, items.last().0, items.last().1);
        assert(pre.push((items.last().0, items.last().1)) =~= items);
    }
}

/// After the working directory is rebuilt from a revision, each file of the
/// revision reads there as the text that the repository's store holds for
/// it.
pub proof fn law_make_wd_restores(d: DiskV, rv: RevV, wd: Seq<char>)
    requires
        spec_make_wd(d, rv, wd).1 is Ok,
    ensures
        ({
            let d1 = spec_clear_dir(d, wd, seq![".dvcs"@]).0;
            let r = spec_load(d1, wd)->Ok_0;
            let d2 = spec_make_wd(d, rv, wd).0;
            forall|i: int|
                0 <= i < rv.manifest.len() ==> {
                    &&& #[trigger] spec_file_content(d2, r, rv.manifest[i].1) is Ok
                    &&& spec_read_file(d2, spec_path_compose(wd, rv.manifest[i].0)) == spec_file_content(
                        d2,
                        r,
                        rv.manifest[i].1,
                    )
                }
        }),
{
    let d1 = spec_clear_dir(d, wd, seq![".dvcs"@]).0;
    let r = spec_load(d1, wd)->Ok_0;
    lemma_restore_all(d1, r, wd, rv.manifest);
}

/// A commit drops every path staged for removal: `cat` of such a path at
/// the branch the commit moved finds no file.
pub proof fn law_commit_drops_removed(d: DiskV, r: RepoV, message: Seq<char>, fr: RepoV, fd: DiskV, loc: Seq<char>)
    requires
        r.wf(),
        r.stage.remove_map().contains_key(loc),
        spec_commit_allows(d, r, message, fr, fd, Ok(())),
    ensures
        spec_cat(fd, r.paths.wd, commit_alias(r), loc) == static_e::<Seq<char>>("file not found"),
{
    if r.current_head is None {
        let t = choose|t: TimeStamp| #![trigger fresh_rev(t)]
            commit_outcome(d, RepoV { current_head: Some("main"@), ..r }, fresh_rev(t), message, fr, fd, Ok(()));
        let rc = RepoV { current_head: Some("main"@), ..r };
        assert(fresh_rev(t).wf());
        lemma_commit_then_cat_removed(d, rc, fresh_rev(t), message, fr, fd, loc);
    } else {
        let h = spec_current_head(d, r)->Ok_0;
        lemma_commit_then_cat_removed(d, r, h, message, fr, fd, loc);
    }
}

/// Two different lowest common ancestors of the same revisions lie below
/// neither one the other.
pub proof fn law_lowest_ancestors_unordered(d: DiskV, r: RepoV, a: RevV, b: RevV, z1: Seq<char>, z2: Seq<char>)
    requires
        is_lca(d, r, a, b, z1),
        is_lca(d, r, a, b, z2),
        z1 != z2,
    ensures
        !below(d, r, z1, z2),
        !below(d, r, z2, z1),
{
    assert(common_anc(d, r, a, b, z1));
    assert(common_anc(d, r, a, b, z2));
}

/// An item is a file exactly when it has a content id.
pub proof fn law_file_iff_content_id(i: ItemInfoV)
    ensures
        (i.entry is File) <==> spec_file_id(i.entry) is Some,
{
}

/// Adding the item at a path to a manifest that does not track it, and then
/// removing the item at that path, gives back the item that was added and
/// leaves the manifest as it was.
pub proof fn law_remove_undoes_add(d: DiskV, m: Map<Seq<char>, ItemInfoV>, p: Seq<char>)
    requires
        spec_retrieve_info(d, p) is Ok,
        !m.contains_key(spec_retrieve_info(d, p)->Ok_0.loc_in_wd),
    ensures
        ({
            let info = spec_retrieve_info(d, p)->Ok_0;
            let added = m.insert(info.loc_in_wd, info);
            &&& added.contains_key(info.loc_in_wd)
            &&& added[info.loc_in_wd] == info
            &&& added.remove(info.loc_in_wd) == m
        }),
{
    let info = spec_retrieve_info(d, p)->Ok_0;
    assert(m.insert(info.loc_in_wd, info).remove(info.loc_in_wd) =~= m);
}

/// Generating an id moves the revision's id into its first parent: after
/// two generations the parent is the first generated id, and the id the
/// second.
pub proof fn law_gen_id_chains(d: DiskV, r: RevV, rev_path: Seq<char>)
    ensures
        ({
            let r1 = RevV { rev_id: Some(spec_gen_id(d, r, rev_path)), parent_id: r.rev_id, ..r };
            let r2 = RevV { rev_id: Some(spec_gen_id(d, r1, rev_path)), parent_id: r1.rev_id, ..r1 };
            &&& r1.parent_id == r.rev_id
            &&& r2.parent_id == Some(spec_gen_id(d, r, rev_path))
            &&& r2.rev_id == Some(spec_gen_id(d, r1, rev_path))
        }),
{
}

/// Copying the listed remote files and then revisions into a repository's
/// store, as `fetch` does, and copying the same lists again once that has
/// succeeded, changes nothing and succeeds: a second fetch of the same
/// listings changes nothing.
pub proof fn law_fetch_again_changes_nothing(
    d: DiskV,
    r: RepoV,
    fs: Seq<Seq<char>>,
    rs: Seq<Seq<char>>,
    mf: Seq<char>,
    mr: Seq<char>,
)
    requires
        spec_copy_missing(d, fs, r.paths.files, mf).1 is Ok,
        spec_copy_missing(spec_copy_missing(d, fs, r.paths.files, mf).0, rs, r.paths.revs, mr).1 is Ok,
    ensures
        ({
            let d1 = spec_copy_missing(d, fs, r.paths.files, mf).0;
            let d2 = spec_copy_missing(d1, rs, r.paths.revs, mr).0;
            &&& spec_copy_missing(d2, fs, r.paths.files, mf) == (d2, Ok::<(), ErrV>(()))
            &&& spec_copy_missing(spec_copy_missing(d2, fs, r.paths.files, mf).0, rs, r.paths.revs, mr) == (d2, Ok::<(), ErrV>(()))
        }),
{
    let d1 = spec_copy_missing(d, fs, r.paths.files, mf).0;
    let d2 = spec_copy_missing(d1, rs, r.paths.revs, mr).0;
    lemma_copy_missing_present(d, fs, r.paths.files, mf);
    lemma_copy_missing_present(d1, rs, r.paths.revs, mr);
    lemma_copy_missing_grows(d1, rs, r.paths.revs, mr);
    assert forall|i: int| 0 <= i < fs.len() implies (#[trigger] spec_get_name(fs[i])) is Some && spec_is_path_valid(
        d2,
        spec_path_compose(r.paths.files, spec_get_name(fs[i])->0),
    ) by {
        let k = d1.key(spec_path_compose(r.paths.files, spec_get_name(fs[i])->0));
        if k.len() > 0 {
            assert(d1.nodes.contains_key(k));
        }
    }
    lemma_copy_missing_done(d2, fs, r.paths.files, mf);
    lemma_copy_missing_done(d2, rs, r.paths.revs, mr);
}

/// Copying the listed remote files and revisions into a repository's store,
/// as `fetch` does, leaves every node that was already on the disk as it
/// was: stored contents and revisions already present keep their text, and
/// the repository record, with its heads and stage, is untouched.
pub proof fn law_fetch_keeps_what_is_there(
    d: DiskV,
    r: RepoV,
    fs: Seq<Seq<char>>,
    rs: Seq<Seq<char>>,
    mf: Seq<char>,
    mr: Seq<char>,
    k: Key,
)
    requires
        d.nodes.contains_key(k),
    ensures
        ({
            let d1 = spec_copy_missing(d, fs, r.paths.files, mf).0;
            let d2 = spec_copy_missing(d1, rs, r.paths.revs, mr).0;
            d2.nodes.contains_key(k) && d2.nodes[k] == d.nodes[k]
        }),
{
    let d1 = spec_copy_missing(d, fs, r.paths.files, mf).0;
    lemma_copy_missing_grows(d, fs, r.paths.files, mf);
    lemma_copy_missing_grows(d1, rs, r.paths.revs, mr);
}

/// A file that the head tracks, that is staged neither for adding nor for
/// removal, and whose text in the working directory differs from the text
/// the head stored for it, is listed by `status` as "Modified file: " and its
/// name among the changes not staged; nothing is added for it to the changes
/// to be committed or to the untracked files.
pub proof fn law_unstaged_edit_is_not_staged(
    d: DiskV,
    r: RepoV,
    h: RevV,
    x: Seq<char>,
    n: Seq<char>,
    w: Seq<char>,
    c: Seq<char>,
    st: Lists,
)
    requires
        spec_get_name(x) == Some(n),
        spec_read_file(d, x) == Ok::<Seq<char>, ErrV>(w),
        h.mmap().contains_key(n),
        !r.stage.add_map().contains_key(n),
        !r.stage.remove_map().contains_key(n),
        spec_file_content(d, r, h.mmap()[n]) == Ok::<Seq<char>, ErrV>(c),
        w != c,
    ensures
        file_status(d, r, Ok(h), x, st) == Ok::<Lists, ErrV>((st.0, st.1.push("Modified file: "@ + n), st.2)),
{
    reveal(file_status);
}

/// Heads entries whose names are all listed leave the not-staged list as it
/// was.
proof fn lemma_missing_none(m: Seq<(Seq<char>, ItemInfoV)>, names: Seq<Seq<char>>, rm: Map<Seq<char>, ItemInfoV>, ns: Seq<Seq<char>>)
    requires
        forall|i: int| 0 <= i < m.len() ==> names.contains(#[trigger] m[i].0),
    ensures
        missing_status(m, names, rm, ns) == ns,
    decreases m.len(),
{
    if m.len() > 0 {
        assert(names.contains(m[m.len() - 1].0));
        lemma_missing_none(m.drop_last(), names, rm, ns);
    }
}

/// On a working directory whose one file is tracked by the head alone, with
/// nothing staged, and whose text differs from the head's, `status` reports
/// nothing to be committed, "Modified file: " and its name as the one change
/// not staged, and no untracked file.
#[verifier::spinoff_prover]
pub proof fn law_status_of_one_unstaged_edit(d: DiskV, r: RepoV, h: RevV, x: Seq<char>, n: Seq<char>, w: Seq<char>, c: Seq<char>)
    requires
        spec_current_head(d, r) == Ok::<RevV, ErrV>(h),
        r.stage.to_add.len() == 0,
        r.stage.to_remove.len() == 0,
        forall|i: int| 0 <= i < h.manifest.len() ==> (#[trigger] h.manifest[i]).0 == n,
        h.mmap().contains_key(n),
        spec_get_name(x) == Some(n),
        spec_read_file(d, x) == Ok::<Seq<char>, ErrV>(w),
        spec_file_content(d, r, h.mmap()[n]) == Ok::<Seq<char>, ErrV>(c),
        w != c,
    ensures
        spec_status(d, r, seq![x]) == Ok::<Lists, ErrV>((Seq::empty(), seq!["Modified file: "@ + n], Seq::empty())),
{
    let xs = seq![x];
    let e: Lists = (Seq::empty(), Seq::empty(), Seq::empty());
    assert(r.stage.add_map() == Map::<Seq<char>, ItemInfoV>::empty());
    assert(r.stage.remove_map() == Map::<Seq<char>, ItemInfoV>::empty());
    law_unstaged_edit_is_not_staged(d, r, h, x, n, w, c, e);
    assert(xs.drop_last() =~= Seq::<Seq<char>>::empty());
    assert(xs.last() == x);
    let st = (Seq::<Seq<char>>::empty(), seq!["Modified file: "@ + n], Seq::<Seq<char>>::empty());
    assert(e.1.push("Modified file: "@ + n) =~= st.1);
    assert(crate::cmd_interface::status::files_status(d, r, Ok(h), xs.drop_last()) == Ok::<Lists, ErrV>(e));
    assert(crate::cmd_interface::status::files_status(d, r, Ok(h), xs) == Ok::<Lists, ErrV>(st));
    assert(removed_status(Ok(h), r.stage.to_remove, xs, st) == st);
    assert(names_of(xs) =~= seq![n]);
    assert forall|i: int| 0 <= i < h.manifest.len() implies names_of(xs).contains(#[trigger] h.manifest[i].0) by {
        assert(names_of(xs)[0] == n);
    }
    lemma_missing_none(h.manifest, names_of(xs), r.stage.remove_map(), st.1);
}

/// After `checkout` of `rev` on a new branch `b` succeeds, the repository
/// record read back from its place has `b` checked out, and `b` points at
/// the revision id that `rev` names: the id of the branch `rev` when `rev`
/// is a branch, `rev` itself otherwise. The other branches are as they were,
/// and a revision was stored under that id when the checkout began.
pub proof fn law_checkout_new_branch_points_at_rev(d: DiskV, wd: Seq<char>, rev: Seq<char>, b: Seq<char>)
    requires
        spec_checkout(d, wd, rev, Some(b)).1 is Ok,
    ensures
        spec_load(d, wd) is Ok,
        ({
            let r = spec_load(d, wd)->Ok_0;
            let id = if r.heads().contains_key(rev) {
                r.heads()[rev]
            } else {
                rev
            };
            let fd = spec_checkout(d, wd, rev, Some(b)).0;
            &&& spec_get_rev(spec_clear_dir_adv(d, wd, seq![".dvcs"@, "src"@]).0, r, id) is Ok
            &&& spec_load(fd, r.paths.wd) matches Ok(r1) && {
                &&& r1.current_head == Some(b)
                &&& r1.heads().contains_key(b)
                &&& r1.heads()[b] == id
                &&& r1.heads() == r.heads().insert(b, id)
                &&& spec_current_head(fd, r1) == spec_get_rev(fd, r1, id)
            }
        }),
{
    let r = spec_load(d, wd)->Ok_0;
    let id = if r.heads().contains_key(rev) {
        r.heads()[rev]
    } else {
        rev
    };
    let d1 = spec_clear_dir_adv(d, wd, seq![".dvcs"@, "src"@]).0;
    assert(spec_checkout_to(d1, r, wd, id, b, true).1 is Ok);
    let rv = spec_get_rev(d1, r, id)->Ok_0;
    let d2 = crate::dsr::restore::spec_make_wd(d1, rv, wd).0;
    let r2 = RepoV { branch_heads: ev_insert(r.branch_heads, b, id), ..r };
    let d3 = spec_repo_save(d2, r2).0;
    let rec = RepoV { current_head: Some(b), ..r2 };
    lemma_ev_insert(r.branch_heads, b, id);
    assert(rec.wf());
    law_save_then_load(d3, rec);
}

/// The lines of `heads` are one per branch, in order; the line of a branch
/// is "*", its alias, ":" and its id when it is the branch checked out, and
/// its alias, ":" and its id, unstarred, for every other branch.
pub proof fn law_heads_star_only_current(s: Seq<(Seq<char>, Seq<char>)>, cur: Option<Seq<char>>)
    ensures
        head_lines(s, cur).len() == s.len(),
        forall|i: int|
            0 <= i < s.len() && cur == Some(s[i].0) ==> #[trigger] head_lines(s, cur)[i] == "*"@ + s[i].0 + ":"@ + s[i].1,
        forall|i: int|
            0 <= i < s.len() && cur != Some(s[i].0) ==> #[trigger] head_lines(s, cur)[i] == s[i].0 + ":"@ + s[i].1,
{
}

/// Merging two sets of changes gives a path that both change the result of
/// the three-way merge of the common original with the two modified
/// contents, each made to end with a line break: the merged text when the
/// merge is clean, the text with conflict markers otherwise. Neither side's
/// content is taken in place of that merge. A path that one side alone
/// changes gets that side's modified content.
pub proof fn law_merged_text_is_three_way(m1: Map<Seq<char>, FileDiffV>, m2: Map<Seq<char>, FileDiffV>, k: Seq<char>)
    ensures
        m1.contains_key(k) && m2.contains_key(k) ==> {
            let t = diffy_merge(
                with_newline(m1[k].origin_content),
                with_newline(m1[k].mod_content),
                with_newline(m2[k].mod_content),
            );
            &&& t matches Ok(c) ==> merged_text(m1, m2, k) == c
            &&& t matches Err(c) ==> merged_text(m1, m2, k) == c
        },
        m1.contains_key(k) && !m2.contains_key(k) ==> merged_text(m1, m2, k) == m1[k].mod_content,
        !m1.contains_key(k) && m2.contains_key(k) ==> merged_text(m1, m2, k) == m2[k].mod_content,
{
}

/// The time of a revision as `log` writes it is never a text of lower-case
/// hexadecimal digits alone, such as a revision id: a local date and time
/// holds spaces between its date, clock time and offset.
pub proof fn law_date_time_is_no_id(t: TimeStamp, s: Seq<char>)
    requires
        forall|i: int| 0 <= i < s.len() ==> is_lower_hex(#[trigger] s[i]),
    ensures
        !date_time_text(t, s),
{
    reveal(date_time_text);
    if date_time_text(t, s) {
        let (a, b, c) = choose|a: Seq<char>, b: Seq<char>, c: Seq<char>|
            #![trigger crate::outside::date_text(a), crate::outside::clock_text(b, (t.nanos % 1_000_000_000) as nat), crate::outside::offset_text(c)]
            s == a + seq![' '] + b + seq![' '] + c && crate::outside::date_text(a) && crate::outside::clock_text(
                b,
                (t.nanos % 1_000_000_000) as nat,
            ) && crate::outside::offset_text(c);
        assert(s[a.len() as int] == ' ');
        assert(!is_lower_hex(s[a.len() as int]));
    }
}

/// In the block of lines that `log` writes for a revision, the fourth line
/// is "time: " followed by the revision's own time stamp written as a local
/// date and time, and so never by its id or any other text of hexadecimal
/// digits alone.
pub proof fn law_log_time_line(v: Seq<Seq<char>>, j: int, rv: RevV)
    requires
        log_block(v, j, rv),
    ensures
        exists|t: Seq<char>| #[trigger] date_time_text(rv.time_stamp, t) && v[5 * j + 3] == "time: "@ + t,
        !(exists|t: Seq<char>| v[5 * j + 3] == "time: "@ + t && forall|i: int| 0 <= i < t.len() ==> is_lower_hex(#[trigger] t[i])),
{
    let line = v[5 * j + 3];
    let t = line.subrange(6, line.len() as int);
    assert(line =~= "time: "@ + t);
    assert(date_time_text(rv.time_stamp, t));
    if exists|u: Seq<char>| v[5 * j + 3] == "time: "@ + u && forall|i: int| 0 <= i < u.len() ==> is_lower_hex(#[trigger] u[i]) {
        let u = choose|u: Seq<char>| v[5 * j + 3] == "time: "@ + u && forall|i: int| 0 <= i < u.len() ==> is_lower_hex(#[trigger] u[i]);
        assert(u =~= t);
        law_date_time_is_no_id(rv.time_stamp, u);
    }
}

/// After `checkout` of `rev` without a new branch succeeds: when `rev` is a
/// branch, the repository record read back from its place has `rev` checked
/// out and its branches unchanged; otherwise `rev` is taken as a revision
/// id, and `DETACHED-HEAD` is made to point at it and checked out.
pub proof fn law_checkout_existing(d: DiskV, wd: Seq<char>, rev: Seq<char>)
    requires
        spec_checkout(d, wd, rev, None).1 is Ok,
    ensures
        spec_load(d, wd) is Ok,
        ({
            let r = spec_load(d, wd)->Ok_0;
            let fd = spec_checkout(d, wd, rev, None).0;
            &&& r.heads().contains_key(rev) ==> (spec_load(fd, r.paths.wd) matches Ok(r1) && {
                &&& r1.current_head == Some(rev)
                &&& r1.heads() == r.heads()
                &&& spec_current_head(fd, r1) == spec_get_rev(fd, r1, r.heads()[rev])
            })
            &&& !r.heads().contains_key(rev) ==> (spec_load(fd, r.paths.wd) matches Ok(r1) && {
                &&& r1.current_head == Some("DETACHED-HEAD"@)
                &&& r1.heads() == r.heads().insert("DETACHED-HEAD"@, rev)
                &&& spec_current_head(fd, r1) == spec_get_rev(fd, r1, rev)
            })
        }),
{
    let r = spec_load(d, wd)->Ok_0;
    let d1 = spec_clear_dir_adv(d, wd, seq![".dvcs"@, "src"@]).0;
    if r.heads().contains_key(rev) {
        let id = r.heads()[rev];
        assert(spec_checkout_to(d1, r, wd, id, rev, false).1 is Ok);
        let rv = spec_get_rev(d1, r, id)->Ok_0;
        let d2 = crate::dsr::restore::spec_make_wd(d1, rv, wd).0;
        let rec = RepoV { current_head: Some(rev), ..r };
        assert(rec.wf());
        law_save_then_load(d2, rec);
    } else {
        let b = "DETACHED-HEAD"@;
        assert(spec_checkout_to(d1, r, wd, rev, b, true).1 is Ok);
        let rv = spec_get_rev(d1, r, rev)->Ok_0;
        let d2 = crate::dsr::restore::spec_make_wd(d1, rv, wd).0;
        let r2 = RepoV { branch_heads: ev_insert(r.branch_heads, b, rev), ..r };
        let d3 = spec_repo_save(d2, r2).0;
        let rec = RepoV { current_head: Some(b), ..r2 };
        lemma_ev_insert(r.branch_heads, b, rev);
        assert(rec.wf());
        law_save_then_load(d3, rec);
    }
}

/// Where `status` lists a file that the head does not track, by what is
/// staged: with nothing staged it is untracked; staged for adding, with the
/// staged text, it is a new file to be committed.
pub proof fn law_status_untracked_or_new(
    d: DiskV,
    r: RepoV,
    head: Result<RevV, ErrV>,
    x: Seq<char>,
    n: Seq<char>,
    w: Seq<char>,
    st: Lists,
)
    requires
        spec_get_name(x) == Some(n),
        spec_read_file(d, x) == Ok::<Seq<char>, ErrV>(w),
        !crate::cmd_interface::status::in_head(head, n),
        !r.stage.remove_map().contains_key(n),
    ensures
        !r.stage.add_map().contains_key(n) ==> file_status(d, r, head, x, st) == Ok::<Lists, ErrV>(
            (st.0, st.1, st.2.push(n)),
        ),
        r.stage.add_map().contains_key(n) && spec_file_content(d, r, r.stage.add_map()[n]) == Ok::<Seq<char>, ErrV>(w)
            ==> file_status(d, r, head, x, st) == Ok::<Lists, ErrV>((st.0.push("Modified/Add new file: "@ + n), st.1, st.2)),
{
    reveal(file_status);
}

/// Where `status` lists a file that the head tracks with text `c`, when it
/// is not staged for removal: staged for adding with the text in the
/// directory, which differs from `c`, it is a change to be committed and
/// nothing else; with nothing staged and the text `c`, it is not listed.
pub proof fn law_status_tracked(d: DiskV, r: RepoV, h: RevV, x: Seq<char>, n: Seq<char>, w: Seq<char>, c: Seq<char>, st: Lists)
    requires
        spec_get_name(x) == Some(n),
        spec_read_file(d, x) == Ok::<Seq<char>, ErrV>(w),
        h.mmap().contains_key(n),
        spec_file_content(d, r, h.mmap()[n]) == Ok::<Seq<char>, ErrV>(c),
        !r.stage.remove_map().contains_key(n),
    ensures
        r.stage.add_map().contains_key(n) && spec_file_content(d, r, r.stage.add_map()[n]) == Ok::<Seq<char>, ErrV>(w)
            && w != c ==> file_status(d, r, Ok(h), x, st) == Ok::<Lists, ErrV>((st.0.push("Modified file: "@ + n), st.1, st.2)),
        !r.stage.add_map().contains_key(n) && w == c ==> file_status(d, r, Ok(h), x, st) == Ok::<Lists, ErrV>(st),
{
    reveal(file_status);
    law_unchanged_iff_equal(w, c);
}

} // verus!
