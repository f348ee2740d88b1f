//! Operations over whole directories: clearing, listing and copying.
use vstd::prelude::*;
use crate::strs::{str_eq, owned};
use crate::strmap::{Dup, seq_to_map, lemma_seq_to_map};
use crate::path::{spec_get_name, views, comps, is_abs, is_name, resolve, path_compose};
use crate::ui::{Errors, IoKind, ErrV, io_e, unit_v};
use crate::outside::{glob_match, name_matches};
use crate::dsr::{create_dir, spec_create_dir, dup_key, Disk, DiskV, Key, Node, NodeV, nev, tree_ok, is_prefix, key, name_valid, is_name_valid, new_error, key_is_prefix, prefix_key, lemma_ancestors};

verus! {

/// Whether `q` lies strictly below `k`.
pub open spec fn below(k: Key, q: Key) -> bool {
    q.len() > k.len() && is_prefix(k, q)
}

/// The views of a list of names.
pub open spec fn strs_view(v: Seq<&str>) -> Seq<Seq<char>> {
    v.map_values(|s: &str| s@)
}

/// Whether a name is in a list.
pub fn in_list(list: &Vec<&str>, s: &str) -> (r: bool)
    ensures
        r == strs_view(list@).contains(s@),
{
    let mut i: usize = 0;
    while i < list.len()
        invariant
            i <= list@.len(),
            forall|j: int| 0 <= j < i ==> list@[j]@ != s@,
        decreases list@.len() - i,
    {
        if str_eq(list[i], s) {
            assert(strs_view(list@)[i as int] == s@);
            return true;
        }
        i = i + 1;
    }
    proof {
        if strs_view(list@).contains(s@) {
            let j = choose|j: int| 0 <= j < strs_view(list@).len() && strs_view(list@)[j] == s@;
            assert(list@[j]@ == s@);
        }
    }
    false
}

fn below_exec(k: &Vec<String>, q: &Vec<String>) -> (r: bool)
    ensures
        r == below(views(k@), views(q@)),
{
    q.len() > k.len() && key_is_prefix(k, q)
}

/// A direct child of `k` that is not ignored has a forbidden name.
pub open spec fn bad_child(d: DiskV, k: Key, ig: Seq<Seq<char>>) -> bool {
    exists|q: Key| #[trigger] d.nodes.contains_key(q) && q.len() == k.len() + 1 && is_prefix(k, q)
        && !ig.contains(q.last()) && !name_valid(d.os, q.last())
}

/// What `clear_dir` keeps: everything not below the directory through an
/// entry that is not ignored.
pub open spec fn clear_keep(k: Key, ig: Seq<Seq<char>>, q: Key) -> bool {
    !(below(k, q) && !ig.contains(q[k.len() as int]))
}

/// `clear_dir`: removes the entries of a directory whose names are not
/// ignored, with everything below them.
pub open spec fn spec_clear_dir(d: DiskV, p: Seq<char>, ig: Seq<Seq<char>>) -> (DiskV, Result<(), ErrV>) {
    let k = d.key(p);
    if !d.is_dir_at(k) {
        (d, io_e(IoKind::UnexpectedEof))
    } else if bad_child(d, k, ig) {
        (d, io_e(IoKind::InvalidInput))
    } else {
        (d.with_nodes(Map::new(|q: Key| d.nodes.contains_key(q) && clear_keep(k, ig, q), |q: Key| d.nodes[q])), Ok(()))
    }
}

fn has_bad_child(disk: &Disk, k: &Vec<String>, ignore: &Vec<&str>) -> (r: bool)
    requires
        disk.wf(),
    ensures
        r == bad_child(disk@, views(k@), strs_view(ignore@)),
{
    let ghost ig = strs_view(ignore@);
    let ghost kv = views(k@);
    proof {
        lemma_seq_to_map(nev(disk.nodes@));
    }
    let mut i: usize = 0;
    while i < disk.nodes.len()
        invariant
            disk.wf(),
            i <= disk.nodes@.len(),
            ig == strs_view(ignore@),
            kv == views(k@),
            forall|j: int| 0 <= j < i ==> !({
                let q = #[trigger] nev(disk.nodes@)[j].0;
                q.len() == kv.len() + 1 && is_prefix(kv, q) && !ig.contains(q.last()) && !name_valid(disk@.os, q.last())
            }),
        decreases disk.nodes@.len() - i,
    {
        let q = &disk.nodes[i].0;
        proof {
            assert(nev(disk.nodes@)[i as int].0 == views(q@));
        }
        if q.len() > k.len() && q.len() - 1 == k.len() && key_is_prefix(k, q) {
            let last = q[q.len() - 1].as_str();
            proof {
                assert(views(q@).last() == last@);
            }
            if !in_list(ignore, last) && !is_name_valid(disk.os, last) {
                proof {
                    lemma_seq_to_map(nev(disk.nodes@));
                    assert(disk@.nodes.contains_key(views(q@)));
                }
                return true;
            }
        }
        i = i + 1;
    }
    proof {
        if bad_child(disk@, kv, ig) {
            let q = choose|q: Key| #[trigger] disk@.nodes.contains_key(q) && q.len() == kv.len() + 1 && is_prefix(kv, q)
                && !ig.contains(q.last()) && !name_valid(disk@.os, q.last());
            let j = choose|j: int| 0 <= j < nev(disk.nodes@).len() && nev(disk.nodes@)[j].0 == q;
        }
    }
    false
}

/// Removes the entries of a directory whose names are not in `ignore`,
/// with everything below them. Fails when the path is not a directory or
/// when an entry to remove has a name the platform forbids.
pub fn clear_dir(disk: &mut Disk, path: &str, ignore: &Vec<&str>) -> (r: Result<(), Errors>)
    requires
        old(disk).wf(),
    ensures
        final(disk).wf(),
        (final(disk)@, unit_v(r)) == spec_clear_dir(old(disk)@, path@, strs_view(ignore@)),
{
    let k = disk.key_of(path);
    if !disk.is_dir_key(&k) {
        return Err(new_error(IoKind::UnexpectedEof, owned("read_dir: unknown error when reading directory")));
    }
    if has_bad_child(disk, &k, ignore) {
        return Err(new_error(IoKind::InvalidInput, owned("delete: name contains forbidden character(s)")));
    }
    let ghost ig = strs_view(ignore@);
    let ghost kv = views(k@);
    let ghost keep = |q: Key| clear_keep(kv, ig, q);
    let mut mask: Vec<bool> = Vec::new();
    let mut i: usize = 0;
    while i < disk.nodes.len()
        invariant
            i <= disk.nodes@.len(),
            mask@.len() == i,
            ig == strs_view(ignore@),
            kv == views(k@),
            keep == (|q: Key| clear_keep(kv, ig, q)),
            forall|j: int| 0 <= j < i ==> mask@[j] == keep(#[trigger] nev(disk.nodes@)[j].0),
        decreases disk.nodes@.len() - i,
    {
        let q = &disk.nodes[i].0;
        proof {
            assert(nev(disk.nodes@)[i as int].0 == views(q@));
        }
        let drop = if below_exec(&k, q) {
            proof {
                assert(views(q@)[kv.len() as int] == q@[k@.len() as int]@);
            }
            !in_list(ignore, q[k.len()].as_str())
        } else {
            false
        };
        mask.push(!drop);
        i = i + 1;
    }
    proof {
        assert forall|q: Key| #[trigger] disk@.nodes.contains_key(q) && q.len() > 1 && !keep(q.drop_last()) implies !keep(q) by {
            assert(q.drop_last().subrange(0, kv.len() as int) =~= q.subrange(0, kv.len() as int));
            assert(q.drop_last()[kv.len() as int] == q[kv.len() as int]);
        }
    }
    disk.retain_mask(&mask, Ghost(keep));
    proof {
        assert(disk@.nodes =~= Map::new(|q: Key| old(disk)@.nodes.contains_key(q) && clear_keep(kv, ig, q), |q: Key| old(disk)@.nodes[q]));
    }
    Ok(())
}


/// Some name of `ig`, read as a glob pattern, matches `name`.
pub open spec fn matches_any(ig: Seq<Seq<char>>, name: Seq<char>) -> bool {
    exists|j: int| 0 <= j < ig.len() && glob_match(#[trigger] ig[j], name)
}

/// Some node below `q` has a name that a name of `ig`, read as a glob
/// pattern, matches: what `glob("q/**/name")` finds for one name of `ig`
/// without a separator.
pub open spec fn ignored_below(d: DiskV, q: Key, ig: Seq<Seq<char>>) -> bool {
    exists|r: Key| #[trigger] d.nodes.contains_key(r) && below(q, r) && matches_any(ig, r.last())
}

/// Some component of `q` below `k` is an ignored name.
pub open spec fn ignored_on_path(k: Key, ig: Seq<Seq<char>>, q: Key) -> bool {
    exists|i: int| k.len() <= i < q.len() && ig.contains(#[trigger] q[i])
}

fn ignored_on_path_exec(k: &Vec<String>, q: &Vec<String>, ignore: &Vec<&str>) -> (r: bool)
    ensures
        r == ignored_on_path(views(k@), strs_view(ignore@), views(q@)),
{
    let mut i: usize = k.len();
    while i < q.len()
        invariant
            k@.len() <= i <= q@.len() || (i == k@.len() && q@.len() < k@.len()),
            forall|j: int| k@.len() <= j < i ==> !strs_view(ignore@).contains(#[trigger] views(q@)[j]),
        decreases q@.len() - i,
    {
        if in_list(ignore, q[i].as_str()) {
            assert(views(q@)[i as int] == q@[i as int]@);
            return true;
        }
        assert(views(q@)[i as int] == q@[i as int]@);
        i = i + 1;
    }
    false
}

/// A directory that `clear_dir_adv` goes into rather than removes: one with
/// a match below it.
pub open spec fn entered(d: DiskV, ig: Seq<Seq<char>>, p: Key) -> bool {
    d.nodes.contains_key(p) && d.nodes[p] is Dir && ignored_below(d, p, ig)
}

/// Every directory on the way from `k` down to `q`, the one at length
/// `i` excluded, is entered.
pub open spec fn entered_upto(d: DiskV, ig: Seq<Seq<char>>, k: Key, q: Key, i: int) -> bool {
    forall|j: int| k.len() <= j < i ==> #[trigger] entered(d, ig, q.subrange(0, j + 1))
}

/// What `clear_dir_adv` keeps below `k`: walking down from `k` to `q`
/// through entered directories, it meets an entry whose name is in `ig`,
/// which it keeps whole, or reaches `q` itself entered.
pub open spec fn adv_keep(d: DiskV, k: Key, ig: Seq<Seq<char>>, q: Key) -> bool {
    ||| !below(k, q)
    ||| exists|i: int| #![trigger q[i]] k.len() <= i < q.len() && ig.contains(q[i]) && entered_upto(d, ig, k, q, i)
    ||| entered_upto(d, ig, k, q, q.len() as int)
}

/// A node that `clear_dir_adv` removes itself, as opposed to one removed
/// with a directory above it.
pub open spec fn adv_top(d: DiskV, k: Key, ig: Seq<Seq<char>>, q: Key) -> bool {
    &&& d.nodes.contains_key(q)
    &&& below(k, q)
    &&& !adv_keep(d, k, ig, q)
    &&& (q.len() == k.len() + 1 || adv_keep(d, k, ig, q.drop_last()))
}

/// `clear_dir_adv`: clears a directory but keeps what `adv_keep` keeps.
pub open spec fn spec_clear_dir_adv(d: DiskV, p: Seq<char>, ig: Seq<Seq<char>>) -> (DiskV, Result<(), ErrV>) {
    let k = d.key(p);
    if !d.is_dir_at(k) {
        (d, io_e(IoKind::UnexpectedEof))
    } else if exists|q: Key| #[trigger] adv_top(d, k, ig, q) && !name_valid(d.os, q.last()) {
        (d, io_e(IoKind::InvalidInput))
    } else {
        (d.with_nodes(Map::new(|q: Key| d.nodes.contains_key(q) && adv_keep(d, k, ig, q), |q: Key| d.nodes[q])), Ok(()))
    }
}

fn matches_any_exec(ignore: &Vec<&str>, name: &str) -> (r: bool)
    ensures
        r == matches_any(strs_view(ignore@), name@),
{
    let mut i: usize = 0;
    while i < ignore.len()
        invariant
            i <= ignore@.len(),
            forall|j: int| 0 <= j < i ==> !glob_match(#[trigger] strs_view(ignore@)[j], name@),
        decreases ignore@.len() - i,
    {
        proof {
            assert(strs_view(ignore@)[i as int] == ignore@[i as int]@);
        }
        if name_matches(ignore[i], name) {
            return true;
        }
        i = i + 1;
    }
    false
}

fn ignored_below_exec(disk: &Disk, q: &Vec<String>, ignore: &Vec<&str>) -> (r: bool)
    requires
        disk.wf(),
    ensures
        r == ignored_below(disk@, views(q@), strs_view(ignore@)),
{
    proof {
        lemma_seq_to_map(nev(disk.nodes@));
    }
    let mut i: usize = 0;
    while i < disk.nodes.len()
        invariant
            disk.wf(),
            i <= disk.nodes@.len(),
            forall|j: int| 0 <= j < i ==> !(below(views(q@), #[trigger] nev(disk.nodes@)[j].0)
                && matches_any(strs_view(ignore@), nev(disk.nodes@)[j].0.last())),
        decreases disk.nodes@.len() - i,
    {
        let r = &disk.nodes[i].0;
        proof {
            assert(nev(disk.nodes@)[i as int].0 == views(r@));
        }
        if below_exec(q, r) {
            proof {
                assert(views(r@).last() == r@[r@.len() - 1]@);
            }
            if matches_any_exec(ignore, r[r.len() - 1].as_str()) {
                proof {
                    lemma_seq_to_map(nev(disk.nodes@));
                    assert(disk@.nodes.contains_key(views(r@)));
                }
                return true;
            }
        }
        i = i + 1;
    }
    proof {
        if ignored_below(disk@, views(q@), strs_view(ignore@)) {
            let r = choose|r: Key| #[trigger] disk@.nodes.contains_key(r) && below(views(q@), r) && matches_any(strs_view(ignore@), r.last());
            let j = choose|j: int| 0 <= j < nev(disk.nodes@).len() && nev(disk.nodes@)[j].0 == r;
        }
    }
    false
}

fn adv_keep_exec(disk: &Disk, k: &Vec<String>, q: &Vec<String>, ignore: &Vec<&str>) -> (r: bool)
    requires
        disk.wf(),
    ensures
        r == adv_keep(disk@, views(k@), strs_view(ignore@), views(q@)),
{
    if !below_exec(k, q) {
        return true;
    }
    let ghost kv = views(k@);
    let ghost qv = views(q@);
    let ghost ig = strs_view(ignore@);
    let mut i: usize = k.len();
    while i < q.len()
        invariant
            disk.wf(),
            kv == views(k@),
            qv == views(q@),
            ig == strs_view(ignore@),
            below(kv, qv),
            kv.len() <= i <= qv.len(),
            forall|j: int| kv.len() <= j < i ==> !ig.contains(#[trigger] qv[j]),
            entered_upto(disk@, ig, kv, qv, i as int),
        decreases q@.len() - i,
    {
        proof {
            assert(qv[i as int] == q@[i as int]@);
        }
        if in_list(ignore, q[i].as_str()) {
            return true;
        }
        let pre = prefix_key(q, i + 1);
        let is_dir = match disk.node_at(&pre) {
            Some(Node::Dir) => true,
            _ => false,
        };
        if !(is_dir && ignored_below_exec(disk, &pre, ignore)) {
            proof {
                assert(views(pre@) == qv.subrange(0, i + 1));
                assert(!entered(disk@, ig, qv.subrange(0, i as int + 1)));
                assert forall|i2: int| kv.len() <= i2 < qv.len() && ig.contains(#[trigger] qv[i2]) implies !entered_upto(disk@, ig, kv, qv, i2) by {
                    if i2 > i {
                        assert(!entered(disk@, ig, qv.subrange(0, i as int + 1)));
                    }
                }
                assert(!entered_upto(disk@, ig, kv, qv, qv.len() as int));
            }
            return false;
        }
        proof {
            assert(views(pre@) == qv.subrange(0, i + 1));
            assert(entered(disk@, ig, qv.subrange(0, i as int + 1)));
            assert forall|j: int| kv.len() <= j < i + 1 implies #[trigger] entered(disk@, ig, qv.subrange(0, j + 1)) by {
                if j < i {
                    assert(entered_upto(disk@, ig, kv, qv, i as int));
                }
            }
        }
        i = i + 1;
    }
    true
}

/// What `clear_dir_adv` keeps, it keeps with the directory that holds it.
proof fn lemma_keep_parent(d: DiskV, k: Key, ig: Seq<Seq<char>>, q: Key)
    requires
        q.len() > 1,
        adv_keep(d, k, ig, q),
    ensures
        adv_keep(d, k, ig, q.drop_last()),
{
    let p = q.drop_last();
    if below(k, p) {
        assert(p.subrange(0, k.len() as int) =~= q.subrange(0, k.len() as int));
        assert(below(k, q));
        if exists|i: int| #![trigger q[i]] k.len() <= i < q.len() && ig.contains(q[i]) && entered_upto(d, ig, k, q, i) {
            let i = choose|i: int| #![trigger q[i]] k.len() <= i < q.len() && ig.contains(q[i]) && entered_upto(d, ig, k, q, i);
            if i < p.len() {
                assert(p[i] == q[i]);
                assert forall|j: int| k.len() <= j < i implies #[trigger] entered(d, ig, p.subrange(0, j + 1)) by {
                    assert(entered(d, ig, q.subrange(0, j + 1)));
                    assert(q.subrange(0, j + 1) =~= p.subrange(0, j + 1));
                }
                assert(entered_upto(d, ig, k, p, i));
            } else {
                assert forall|j: int| k.len() <= j < p.len() implies #[trigger] entered(d, ig, p.subrange(0, j + 1)) by {
                    assert(entered(d, ig, q.subrange(0, j + 1)));
                    assert(q.subrange(0, j + 1) =~= p.subrange(0, j + 1));
                }
                assert(entered_upto(d, ig, k, p, p.len() as int));
            }
        } else {
            assert(entered_upto(d, ig, k, q, q.len() as int));
            assert forall|j: int| k.len() <= j < p.len() implies #[trigger] entered(d, ig, p.subrange(0, j + 1)) by {
                assert(entered(d, ig, q.subrange(0, j + 1)));
                assert(q.subrange(0, j + 1) =~= p.subrange(0, j + 1));
            }
            assert(entered_upto(d, ig, k, p, p.len() as int));
        }
    }
}

/// Clears a directory like [`clear_dir`], but goes into each directory below
/// it that holds, somewhere below, a name that a name of `ignore` matches
/// as a glob pattern, and keeps whole each entry whose name is in `ignore`.
/// Fails when the path is not a directory or when an entry to remove has a
/// name the platform forbids.
#[verifier::loop_isolation(false)]
#[verifier::rlimit(100)]
#[verifier::spinoff_prover]
pub fn clear_dir_adv(disk: &mut Disk, path: &str, ignore: &Vec<&str>) -> (r: Result<(), Errors>)
    requires
        old(disk).wf(),
    ensures
        final(disk).wf(),
        (final(disk)@, unit_v(r)) == spec_clear_dir_adv(old(disk)@, path@, strs_view(ignore@)),
{
    let k = disk.key_of(path);
    if !disk.is_dir_key(&k) {
        return Err(new_error(IoKind::UnexpectedEof, owned("read_dir: unknown error when reading directory")));
    }
    let ghost ig = strs_view(ignore@);
    let ghost kv = views(k@);
    let ghost d0 = disk@;
    let ghost keep = |q: Key| adv_keep(d0, kv, ig, q);
    proof {
        lemma_seq_to_map(nev(disk.nodes@));
    }
    let mut mask: Vec<bool> = Vec::new();
    let mut i: usize = 0;
    while i < disk.nodes.len()
        invariant
            i <= disk.nodes@.len(),
            mask@.len() == i,
            forall|j: int| 0 <= j < i ==> mask@[j] == keep(#[trigger] nev(disk.nodes@)[j].0),
        decreases disk.nodes@.len() - i,
    {
        let q = &disk.nodes[i].0;
        proof {
            assert(nev(disk.nodes@)[i as int].0 == views(q@));
            assert(disk@.nodes.contains_key(views(q@)));
        }
        let kp = adv_keep_exec(disk, &k, q, ignore);
        mask.push(kp);
        i = i + 1;
    }
    // a node removed on its own with a forbidden name makes the call fail
    let mut i: usize = 0;
    while i < disk.nodes.len()
        invariant
            i <= disk.nodes@.len(),
            mask@.len() == disk.nodes@.len(),
            forall|j: int| 0 <= j < i ==> !(adv_top(d0, kv, ig, #[trigger] nev(disk.nodes@)[j].0)
                && !name_valid(d0.os, nev(disk.nodes@)[j].0.last())),
        decreases disk.nodes@.len() - i,
    {
        let q = &disk.nodes[i].0;
        proof {
            assert(nev(disk.nodes@)[i as int].0 == views(q@));
        }
        if !mask[i] {
            let top = if q.len() - 1 == k.len() {
                true
            } else {
                let par = prefix_key(q, q.len() - 1);
                proof {
                    assert(views(par@) == views(q@).drop_last());
                    lemma_ancestors(d0.nodes, views(q@), q@.len() - 1);
                    assert(views(q@).subrange(0, q@.len() - 1) =~= views(q@).drop_last());
                }
                adv_keep_exec(disk, &k, &par, ignore)
            };
            if top {
                proof {
                    assert(views(q@).last() == q@[q@.len() - 1]@);
                }
                if !is_name_valid(disk.os, q[q.len() - 1].as_str()) {
                    proof {
                        assert(adv_top(d0, kv, ig, views(q@)));
                    }
                    return Err(new_error(IoKind::InvalidInput, owned("delete: name contains forbidden character(s)")));
                }
            }
        }
        i = i + 1;
    }
    proof {
        if exists|q: Key| #[trigger] adv_top(d0, kv, ig, q) && !name_valid(d0.os, q.last()) {
            let q = choose|q: Key| #[trigger] adv_top(d0, kv, ig, q) && !name_valid(d0.os, q.last());
            let j = choose|j: int| 0 <= j < nev(disk.nodes@).len() && nev(disk.nodes@)[j].0 == q;
        }
        assert forall|q: Key| #[trigger] d0.nodes.contains_key(q) && q.len() > 1 && !keep(q.drop_last()) implies !keep(q) by {
            if adv_keep(d0, kv, ig, q) {
                lemma_keep_parent(d0, kv, ig, q);
            }
        }
    }
    disk.retain_mask(&mask, Ghost(keep));
    proof {
        assert(disk@.nodes =~= Map::new(|q: Key| d0.nodes.contains_key(q) && adv_keep(d0, kv, ig, q), |q: Key| d0.nodes[q]));
    }
    Ok(())
}


/// The path reached from `p` through the names `rel`, joined one by one as
/// `PathBuf::push` does.
pub open spec fn raw_path(p: Seq<char>, rel: Seq<Seq<char>>) -> Seq<char>
    decreases rel.len(),
{
    if rel.len() == 0 {
        p
    } else {
        crate::path::spec_path_compose(raw_path(p, rel.drop_last()), rel.last())
    }
}

/// Walking names only appends them.
pub proof fn lemma_resolve_plain(base: Key, rel: Seq<Seq<char>>)
    requires
        forall|i: int| 0 <= i < rel.len() ==> is_name(#[trigger] rel[i]),
    ensures
        resolve(base, rel) == base + rel,
    decreases rel.len(),
{
    if rel.len() == 0 {
        assert(base + rel =~= base);
    } else {
        lemma_resolve_plain(base, rel.drop_last());
        assert(is_name(rel[rel.len() - 1]));
        assert((base + rel.drop_last()).push(rel.last()) =~= base + rel);
    }
}

/// The key of a path joined with a name is the path's key with the name.
pub proof fn lemma_key_compose(cwd: Seq<char>, a: Seq<char>, b: Seq<char>)
    requires
        is_name(b),
    ensures
        key(cwd, crate::path::spec_path_compose(a, b)) == key(cwd, a).push(b),
{
    assert(!is_abs(b)) by {
        if is_abs(b) {
            assert(b.contains(b[0]));
        }
    }
    crate::path::lemma_comps_compose(a, b);
    crate::path::lemma_comps_name(b);
    let c = crate::path::spec_path_compose(a, b);
    assert(seq![b].drop_last() =~= Seq::<Seq<char>>::empty());
    assert(seq![b].last() == b);
    let base = if is_abs(a) { Seq::<Seq<char>>::empty() } else { resolve(Seq::empty(), comps(cwd)) };
    crate::path::lemma_resolve_append(base, comps(a), seq![b]);
    let x = resolve(base, comps(a));
    assert(resolve(x, seq![b].drop_last()) == x);
    assert(b != seq!['.', '.']);
    assert(resolve(x, seq![b]) == x.push(b));
    assert(comps(c) == comps(a) + seq![b]);
    assert(key(cwd, c) == resolve(base, comps(c)));
}

/// The key of a path reached through names.
pub proof fn lemma_key_raw(cwd: Seq<char>, p: Seq<char>, rel: Seq<Seq<char>>)
    requires
        forall|i: int| 0 <= i < rel.len() ==> is_name(#[trigger] rel[i]),
    ensures
        key(cwd, raw_path(p, rel)) == key(cwd, p) + rel,
    decreases rel.len(),
{
    if rel.len() == 0 {
        assert(key(cwd, p) + rel =~= key(cwd, p));
    } else {
        lemma_key_raw(cwd, p, rel.drop_last());
        assert(is_name(rel[rel.len() - 1]));
        lemma_key_compose(cwd, raw_path(p, rel.drop_last()), rel.last());
        assert((key(cwd, p) + rel.drop_last()).push(rel.last()) =~= key(cwd, p) + rel);
    }
}

/// The files that `get_files` lists: below the directory, reached through
/// names that are not ignored.
pub open spec fn listed(d: DiskV, k: Key, ig: Seq<Seq<char>>, q: Key) -> bool {
    &&& d.nodes.contains_key(q)
    &&& below(k, q)
    &&& !(d.nodes[q] is Dir)
    &&& !ignored_on_path(k, ig, q)
}

fn raw_exec(p: &str, q: &Vec<String>, from: usize) -> (r: String)
    requires
        from <= q@.len(),
    ensures
        r@ == raw_path(p@, views(q@).subrange(from as int, q@.len() as int)),
{
    let mut r = owned(p);
    let mut i: usize = from;
    proof {
        assert(views(q@).subrange(from as int, from as int) =~= Seq::<Seq<char>>::empty());
    }
    while i < q.len()
        invariant
            from <= i <= q@.len(),
            r@ == raw_path(p@, views(q@).subrange(from as int, i as int)),
        decreases q@.len() - i,
    {
        let next = path_compose(r.as_str(), q[i].as_str());
        proof {
            let s1 = views(q@).subrange(from as int, i + 1);
            assert(s1.drop_last() =~= views(q@).subrange(from as int, i as int));
            assert(s1.last() == q@[i as int]@);
        }
        r = next;
        i = i + 1;
    }
    r
}

/// The path of a listed file.
pub open spec fn listed_path(p: Seq<char>, k: Key, q: Key) -> Seq<char> {
    raw_path(p, q.subrange(k.len() as int, q.len() as int))
}

/// The paths that `get_files` appends: those of an enumeration of the
/// listed files without repetition.
pub open spec fn lists_files(d: DiskV, p: Seq<char>, ig: Seq<Seq<char>>, added: Seq<Seq<char>>) -> bool {
    exists|ks: Seq<Key>| #![trigger ks.len()]
        ks.no_duplicates() && (forall|q: Key| ks.contains(q) <==> listed(d, d.key(p), ig, q))
            && added == ks.map_values(|q: Key| listed_path(p, d.key(p), q))
}

/// Appends to `list` the paths of the files below a directory, skipping
/// every entry whose name is in `ignore` together with what is below it.
/// Each path is the directory's path joined with the names on the way.
/// Fails, appending nothing, when the path is not a directory.
pub fn get_files(disk: &Disk, path: &str, ignore: &Vec<&str>, list: &mut Vec<String>) -> (r: Result<(), Errors>)
    requires
        disk.wf(),
    ensures
        !disk@.is_dir_at(disk@.key(path@)) ==> err_v_is(r, ErrV::Io(IoKind::UnexpectedEof))
            && final(list)@ == old(list)@,
        disk@.is_dir_at(disk@.key(path@)) ==> r is Ok && final(list)@.len() >= old(list)@.len()
            && final(list)@.subrange(0, old(list)@.len() as int) == old(list)@
            && lists_files(disk@, path@, strs_view(ignore@), views(final(list)@).subrange(old(list)@.len() as int, final(list)@.len() as int)),
{
    let k = disk.key_of(path);
    if !disk.is_dir_key(&k) {
        return Err(new_error(IoKind::UnexpectedEof, owned("get_files: unable to read entries from dir")));
    }
    let ghost kv = views(k@);
    let ghost ig = strs_view(ignore@);
    let ghost n0 = old(list)@.len();
    let ghost mut ks: Seq<Key> = Seq::empty();
    let ghost f = |q: Key| listed_path(path@, kv, q);
    proof {
        assert(list@.subrange(0, n0 as int) =~= old(list)@);
        assert(views(list@).subrange(n0 as int, list@.len() as int) =~= ks.map_values(f));
    }
    let mut i: usize = 0;
    while i < disk.nodes.len()
        invariant
            disk.wf(),
            i <= disk.nodes@.len(),
            kv == views(k@),
            kv == disk@.key(path@),
            ig == strs_view(ignore@),
            f == (|q: Key| listed_path(path@, kv, q)),
            n0 == old(list)@.len(),
            list@.len() >= n0,
            list@.subrange(0, n0 as int) == old(list)@,
            views(list@).subrange(n0 as int, list@.len() as int) == ks.map_values(f),
            ks.no_duplicates(),
            forall|q: Key| ks.contains(q) <==> exists|j: int| 0 <= j < i && #[trigger] nev(disk.nodes@)[j].0 == q && listed(disk@, kv, ig, q),
        decreases disk.nodes@.len() - i,
    {
        let q = &disk.nodes[i].0;
        let ghost qv = views(q@);
        proof {
            lemma_seq_to_map(nev(disk.nodes@));
            assert(nev(disk.nodes@)[i as int] == (qv, disk.nodes@[i as int].1@));
            assert(disk@.nodes[qv] == disk.nodes@[i as int].1@);
        }
        let is_file = match &disk.nodes[i].1 {
            Node::Dir => false,
            _ => true,
        };
        let ghost ks0 = ks;
        if is_file && below_exec(&k, q) && !ignored_on_path_exec(&k, q, ignore) {
            let s = raw_exec(path, q, k.len());
            let ghost before = list@;
            proof {
                assert(listed(disk@, kv, ig, qv));
                assert(!ks.contains(qv)) by {
                    if ks.contains(qv) {
                        let j = choose|j: int| 0 <= j < i && #[trigger] nev(disk.nodes@)[j].0 == qv && listed(disk@, kv, ig, qv);
                        assert(nev(disk.nodes@)[j].0 != nev(disk.nodes@)[i as int].0);
                    }
                }
                ks = ks.push(qv);
            }
            list.push(s);
            proof {
                assert(s@ == f(qv));
                assert(views(list@).subrange(n0 as int, list@.len() as int) =~= views(before).subrange(n0 as int, before.len() as int).push(s@));
                assert(ks.map_values(f) =~= ks0.map_values(f).push(f(qv)));
                assert(list@.subrange(0, n0 as int) =~= before.subrange(0, n0 as int));
                assert(ks.no_duplicates()) by {
                    assert forall|a: int, b: int| 0 <= a < b < ks.len() implies ks[a] != ks[b] by {
                        if b == ks.len() - 1 {
                            assert(ks0.contains(ks[a]));
                        } else {
                            assert(ks[a] == ks0[a] && ks[b] == ks0[b]);
                        }
                    }
                }
                assert forall|q2: Key| ks.contains(q2) <==> exists|j: int| 0 <= j < i + 1 && #[trigger] nev(disk.nodes@)[j].0 == q2 && listed(disk@, kv, ig, q2) by {
                    if ks.contains(q2) && q2 != qv {
                        let t = choose|t: int| 0 <= t < ks.len() && ks[t] == q2;
                        assert(ks0[t] == q2);
                        assert(ks0.contains(q2));
                    }
                    if exists|j: int| 0 <= j < i + 1 && #[trigger] nev(disk.nodes@)[j].0 == q2 && listed(disk@, kv, ig, q2) {
                        let j = choose|j: int| 0 <= j < i + 1 && #[trigger] nev(disk.nodes@)[j].0 == q2 && listed(disk@, kv, ig, q2);
                        if j < i {
                            assert(ks0.contains(q2));
                            let t = choose|t: int| 0 <= t < ks0.len() && ks0[t] == q2;
                            assert(ks[t] == q2);
                        } else {
                            assert(ks[ks.len() - 1] == q2);
                        }
                    }
                }
            }
        } else {
            proof {
                assert(!listed(disk@, kv, ig, qv));
                assert forall|q2: Key| ks.contains(q2) <==> exists|j: int| 0 <= j < i + 1 && #[trigger] nev(disk.nodes@)[j].0 == q2 && listed(disk@, kv, ig, q2) by {
                    if exists|j: int| 0 <= j < i + 1 && #[trigger] nev(disk.nodes@)[j].0 == q2 && listed(disk@, kv, ig, q2) {
                        let j = choose|j: int| 0 <= j < i + 1 && #[trigger] nev(disk.nodes@)[j].0 == q2 && listed(disk@, kv, ig, q2);
                        assert(j != i);
                    }
                }
            }
        }
        i = i + 1;
    }
    proof {
        assert forall|q: Key| ks.contains(q) <==> listed(disk@, kv, ig, q) by {
            if listed(disk@, kv, ig, q) {
                lemma_seq_to_map(nev(disk.nodes@));
                let j = choose|j: int| 0 <= j < nev(disk.nodes@).len() && nev(disk.nodes@)[j].0 == q;
            }
        }
        assert(ks.len() == ks.len());
    }
    Ok(())
}

/// Whether an error result carries a given error.
pub open spec fn err_v_is(r: Result<(), Errors>, e: ErrV) -> bool {
    match r {
        Err(x) => crate::ui::err_v(x) == e,
        Ok(_) => false,
    }
}


/// The key below `kd` that stands where `q` stands below `ks`.
pub open spec fn rebase(ks: Key, kd: Key, q: Key) -> Key {
    kd + q.subrange(ks.len() as int, q.len() as int)
}

/// The copies below `kd` of the nodes below `ks`.
pub open spec fn copied(d: DiskV, ks: Key, kd: Key) -> Map<Key, NodeV> {
    Map::new(
        |t: Key| below(kd, t) && d.nodes.contains_key(ks + t.subrange(kd.len() as int, t.len() as int)),
        |t: Key| d.nodes[ks + t.subrange(kd.len() as int, t.len() as int)],
    )
}

/// `copy_dir`: creates the target directory, then copies everything below
/// the source into it.
pub open spec fn spec_copy_dir(d: DiskV, src: Seq<char>, dest: Seq<char>) -> (DiskV, Result<(), ErrV>) {
    let (d1, r1) = spec_create_dir(d, dest);
    let ks = d.key(src);
    let kd = d.key(dest);
    if r1 is Err {
        (d1, r1)
    } else if !d1.is_dir_at(ks) {
        (d1, io_e(IoKind::UnexpectedEof))
    } else if exists|q: Key| #[trigger] d1.nodes.contains_key(q) && below(ks, q) && !name_valid(d1.os, q.last()) {
        (d1, io_e(IoKind::InvalidInput))
    } else {
        (d1.with_nodes(d1.nodes.union_prefer_right(copied(d1, ks, kd))), Ok(()))
    }
}

fn rebase_exec(ks_len: usize, kd: &Vec<String>, q: &Vec<String>) -> (r: Vec<String>)
    requires
        ks_len <= q@.len(),
    ensures
        views(r@) == views(kd@) + views(q@).subrange(ks_len as int, q@.len() as int),
{
    let mut r = dup_key(kd);
    let mut i: usize = ks_len;
    while i < q.len()
        invariant
            ks_len <= i <= q@.len(),
            views(r@) == views(kd@) + views(q@).subrange(ks_len as int, i as int),
        decreases q@.len() - i,
    {
        let ghost r0 = r@;
        let c = q[i].clone();
        r.push(c);
        proof {
            assert(r@ == r0.push(c));
            assert(views(r@) =~= views(r0).push(c@));
            assert(c@ == views(q@)[i as int]);
            assert(views(q@).subrange(ks_len as int, i + 1) =~= views(q@).subrange(ks_len as int, i as int).push(views(q@)[i as int]));
            assert(views(r@) =~= views(kd@) + views(q@).subrange(ks_len as int, i + 1));
        }
        i = i + 1;
    }
    r
}

/// Equal rebased keys come from equal keys.
proof fn lemma_rebase_injective(ksv: Key, kdv: Key, q1: Key, q2: Key)
    requires
        is_prefix(ksv, q1),
        is_prefix(ksv, q2),
        rebase(ksv, kdv, q1) == rebase(ksv, kdv, q2),
    ensures
        q1 == q2,
{
    let r1 = q1.subrange(ksv.len() as int, q1.len() as int);
    let r2 = q2.subrange(ksv.len() as int, q2.len() as int);
    assert(r1 =~= rebase(ksv, kdv, q1).subrange(kdv.len() as int, rebase(ksv, kdv, q1).len() as int));
    assert(r2 =~= rebase(ksv, kdv, q2).subrange(kdv.len() as int, rebase(ksv, kdv, q2).len() as int));
    assert(q1 =~= ksv + r1);
    assert(q2 =~= ksv + r2);
}

/// `xe` holds, in node order, the copies below `kdv` of the nodes of `ne`
/// below `ksv`; `idx` tells which node each copy comes from.
pub open spec fn copies_ok(ksv: Key, kdv: Key, ne: Seq<(Key, NodeV)>, xe: Seq<(Key, NodeV)>, idx: Seq<int>) -> bool {
    &&& idx.len() == xe.len()
    &&& forall|a: int| 0 <= a < idx.len() ==> 0 <= #[trigger] idx[a] < ne.len() && below(ksv, ne[idx[a]].0)
        && xe[a] == (rebase(ksv, kdv, ne[idx[a]].0), ne[idx[a]].1)
    &&& forall|a: int, b: int| 0 <= a < b < idx.len() ==> idx[a] < idx[b]
    &&& forall|j: int| 0 <= j < ne.len() && below(ksv, #[trigger] ne[j].0) ==> idx.contains(j)
}

/// The copies below `kd` of the nodes below `ks`, in node order.
fn collect_copies(disk: &Disk, ks: &Vec<String>, kd: &Vec<String>) -> (res: (Vec<(Vec<String>, Node)>, Ghost<Seq<int>>))
    requires
        disk.wf(),
    ensures
        copies_ok(views(ks@), views(kd@), nev(disk.nodes@), nev(res.0@), res.1@),
{
    let ghost ksv = views(ks@);
    let ghost kdv = views(kd@);
    let ghost ne = nev(disk.nodes@);
    let mut extra: Vec<(Vec<String>, Node)> = Vec::new();
    let ghost mut idx: Seq<int> = Seq::empty();
    let mut i: usize = 0;
    while i < disk.nodes.len()
        invariant
            ksv == views(ks@),
            kdv == views(kd@),
            ne == nev(disk.nodes@),
            disk.wf(),
            i <= disk.nodes@.len(),
            idx.len() == extra@.len(),
            forall|a: int| 0 <= a < idx.len() ==> 0 <= #[trigger] idx[a] < i && below(ksv, ne[idx[a]].0)
                && nev(extra@)[a] == (rebase(ksv, kdv, ne[idx[a]].0), ne[idx[a]].1),
            forall|a: int, b: int| 0 <= a < b < idx.len() ==> idx[a] < idx[b],
            forall|j: int| 0 <= j < i && below(ksv, #[trigger] ne[j].0) ==> idx.contains(j),
        decreases disk.nodes@.len() - i,
    {
        let q = &disk.nodes[i].0;
        proof {
            assert(ne[i as int] == (views(q@), disk.nodes@[i as int].1@));
        }
        if below_exec(ks, q) {
            let t = rebase_exec(ks.len(), kd, q);
            let n = disk.nodes[i].1.dup();
            let ghost e0 = nev(extra@);
            let ghost idx0 = idx;
            extra.push((t, n));
            proof {
                idx = idx.push(i as int);
                assert(nev(extra@) =~= e0.push((rebase(ksv, kdv, ne[i as int].0), ne[i as int].1)));
                assert forall|a: int| 0 <= a < idx.len() implies 0 <= #[trigger] idx[a] < i + 1 && below(ksv, ne[idx[a]].0)
                    && nev(extra@)[a] == (rebase(ksv, kdv, ne[idx[a]].0), ne[idx[a]].1) by {
                    if a < idx0.len() {
                        assert(idx[a] == idx0[a]);
                        assert(nev(extra@)[a] == e0[a]);
                    }
                }
                assert forall|j: int| 0 <= j < i + 1 && below(ksv, #[trigger] ne[j].0) implies idx.contains(j) by {
                    if j < i {
                        let a = choose|a: int| 0 <= a < idx0.len() && idx0[a] == j;
                        assert(idx[a] == j);
                    } else {
                        assert(idx[idx.len() - 1] == j);
                    }
                }
            }
        }
        i = i + 1;
    }
    (extra, Ghost(idx))
}

/// After creating a directory, it is a directory with nothing below it.
proof fn lemma_after_create_dir(d: DiskV, dest: Seq<char>, d1: DiskV)
    requires
        tree_ok(d.nodes),
        spec_get_name(dest) is Some,
        spec_create_dir(d, dest).1 is Ok,
        d1 == spec_create_dir(d, dest).0,
    ensures
        d1.is_dir_at(d.key(dest)),
        d.key(dest).len() > 0,
        forall|q: Key| #[trigger] d1.nodes.contains_key(q) ==> !below(d.key(dest), q),
{
    let kd = d.key(dest);
    crate::dsr::lemma_name_key(d.cwd, dest);
    assert(is_prefix(kd, kd)) by {
        assert(kd.subrange(0, kd.len() as int) =~= kd);
    }
    assert forall|q: Key| #[trigger] d1.nodes.contains_key(q) implies !below(kd, q) by {
        if below(kd, q) {
            if d.nodes.contains_key(q) {
                lemma_ancestors(d.nodes, q, kd.len() as int);
                assert(q.subrange(0, kd.len() as int) == kd);
            }
        }
    }
}

/// Creates the target directory, then copies into it everything below the
/// source directory, recursively. Fails as `create_dir` fails on the
/// target, then when the source is not a directory, or when a name below
/// the source is one the platform forbids.
#[verifier::loop_isolation(false)]
pub fn copy_dir(disk: &mut Disk, src: &str, dest: &str) -> (r: Result<(), Errors>)
    requires
        old(disk).wf(),
        spec_get_name(dest@) is Some,
        !is_prefix(old(disk)@.key(src@), old(disk)@.key(dest@)),
    ensures
        final(disk).wf(),
        (final(disk)@, unit_v(r)) == spec_copy_dir(old(disk)@, src@, dest@),
{
    create_dir(disk, dest)?;
    let ghost d1 = disk@;
    let ks = disk.key_of(src);
    let kd = disk.key_of(dest);
    let ghost ksv = views(ks@);
    let ghost kdv = views(kd@);
    if !disk.is_dir_key(&ks) {
        return Err(new_error(IoKind::UnexpectedEof, owned("read_dir: unknown error when reading directory")));
    }
    proof {
        lemma_seq_to_map(nev(disk.nodes@));
    }
    let mut i: usize = 0;
    while i < disk.nodes.len()
        invariant
            disk@ == d1,
            forall|j: int| 0 <= j < i ==> !(below(ksv, #[trigger] nev(disk.nodes@)[j].0) && !name_valid(d1.os, nev(disk.nodes@)[j].0.last())),
        decreases disk.nodes@.len() - i,
    {
        let q = &disk.nodes[i].0;
        proof {
            assert(nev(disk.nodes@)[i as int].0 == views(q@));
        }
        if below_exec(&ks, q) {
            proof {
                assert(views(q@).last() == q@[q@.len() - 1]@);
            }
            if !is_name_valid(disk.os, q[q.len() - 1].as_str()) {
                proof {
                    assert(d1.nodes.contains_key(views(q@)));
                }
                return Err(new_error(IoKind::InvalidInput, owned("copy_file: source file name contains forbidden character(s)")));
            }
        }
        i = i + 1;
    }
    proof {
        if exists|q: Key| #[trigger] d1.nodes.contains_key(q) && below(ksv, q) && !name_valid(d1.os, q.last()) {
            let q = choose|q: Key| #[trigger] d1.nodes.contains_key(q) && below(ksv, q) && !name_valid(d1.os, q.last());
            let j = choose|j: int| 0 <= j < nev(disk.nodes@).len() && nev(disk.nodes@)[j].0 == q;
        }
    }
    let (extra, Ghost(idx)) = collect_copies(disk, &ks, &kd);
    proof {
        lemma_after_create_dir(old(disk)@, dest@, d1);
        assert(!is_prefix(kdv, ksv)) by {
            if is_prefix(kdv, ksv) {
                if ksv.len() == kdv.len() {
                    assert(ksv =~= kdv);
                } else {
                    assert(below(kdv, ksv));
                    assert(d1.nodes.contains_key(ksv));
                }
            }
        }
    }
    proof {
        lemma_copy_map(d1, ksv, kdv, nev(disk.nodes@), nev(extra@), idx);
    }
    disk.append_nodes(extra);
    Ok(())
}

proof fn lemma_copy_map(d1: DiskV, ksv: Key, kdv: Key, ne: Seq<(Key, NodeV)>, xe: Seq<(Key, NodeV)>, idx: Seq<int>)
    requires
        tree_ok(d1.nodes),
        crate::strmap::distinct_keys(ne),
        d1.nodes == seq_to_map(ne),
        d1.is_dir_at(ksv),
        d1.is_dir_at(kdv),
        kdv.len() > 0,
        forall|q: Key| #[trigger] d1.nodes.contains_key(q) ==> !below(kdv, q),
        !is_prefix(ksv, kdv),
        !is_prefix(kdv, ksv),
        copies_ok(ksv, kdv, ne, xe, idx),
    ensures
        crate::strmap::distinct_keys(xe),
        forall|j: int| 0 <= j < xe.len() ==> !d1.nodes.contains_key(#[trigger] xe[j].0),
        seq_to_map(xe) == copied(d1, ksv, kdv),
        tree_ok(d1.nodes.union_prefer_right(seq_to_map(xe))),
{
    lemma_copy_distinct(ksv, kdv, ne, xe, idx);
    lemma_copy_fresh(d1, ksv, kdv, ne, xe, idx);
    lemma_copy_same_map(d1, ksv, kdv, ne, xe, idx);
    lemma_copy_tree(d1, ksv, kdv);
}

proof fn lemma_copy_distinct(ksv: Key, kdv: Key, ne: Seq<(Key, NodeV)>, xe: Seq<(Key, NodeV)>, idx: Seq<int>)
    requires
        crate::strmap::distinct_keys(ne),
        copies_ok(ksv, kdv, ne, xe, idx),
    ensures
        crate::strmap::distinct_keys(xe),
{
    assert forall|a: int, b: int| 0 <= a < b < xe.len() implies xe[a].0 != xe[b].0 by {
        let ja = idx[a];
        let jb = idx[b];
        assert(ja < jb);
        assert(ne[ja].0 != ne[jb].0);
        if xe[a].0 == xe[b].0 {
            lemma_rebase_injective(ksv, kdv, ne[ja].0, ne[jb].0);
        }
    }
}

proof fn lemma_copy_fresh(d1: DiskV, ksv: Key, kdv: Key, ne: Seq<(Key, NodeV)>, xe: Seq<(Key, NodeV)>, idx: Seq<int>)
    requires
        forall|q: Key| #[trigger] d1.nodes.contains_key(q) ==> !below(kdv, q),
        copies_ok(ksv, kdv, ne, xe, idx),
    ensures
        forall|j: int| 0 <= j < xe.len() ==> !d1.nodes.contains_key(#[trigger] xe[j].0),
{
    assert forall|j: int| 0 <= j < xe.len() implies !d1.nodes.contains_key(#[trigger] xe[j].0) by {
        let i = idx[j];
        let t = xe[j].0;
        assert(below(kdv, t)) by {
            assert(t.subrange(0, kdv.len() as int) =~= kdv);
        }
    }
}

proof fn lemma_copy_same_map(d1: DiskV, ksv: Key, kdv: Key, ne: Seq<(Key, NodeV)>, xe: Seq<(Key, NodeV)>, idx: Seq<int>)
    requires
        crate::strmap::distinct_keys(ne),
        crate::strmap::distinct_keys(xe),
        d1.nodes == seq_to_map(ne),
        copies_ok(ksv, kdv, ne, xe, idx),
    ensures
        seq_to_map(xe) == copied(d1, ksv, kdv),
{
    lemma_seq_to_map(ne);
    lemma_seq_to_map(xe);
    let cm = copied(d1, ksv, kdv);
    assert forall|t: Key| #[trigger] seq_to_map(xe).contains_key(t) <==> cm.contains_key(t) by {
        if seq_to_map(xe).contains_key(t) {
            let a = choose|a: int| 0 <= a < xe.len() && xe[a].0 == t;
            let q = ne[idx[a]].0;
            assert(t.subrange(kdv.len() as int, t.len() as int) =~= q.subrange(ksv.len() as int, q.len() as int));
            assert(ksv + t.subrange(kdv.len() as int, t.len() as int) =~= q);
            assert(below(kdv, t)) by {
                assert(t.subrange(0, kdv.len() as int) =~= kdv);
            }
            assert(d1.nodes.contains_key(q));
        }
        if cm.contains_key(t) {
            let q = ksv + t.subrange(kdv.len() as int, t.len() as int);
            let i = choose|i: int| 0 <= i < ne.len() && ne[i].0 == q;
            assert(below(ksv, ne[i].0)) by {
                assert(q.subrange(0, ksv.len() as int) =~= ksv);
            }
            let a = choose|a: int| 0 <= a < idx.len() && idx[a] == i;
            assert(rebase(ksv, kdv, q) =~= t) by {
                assert(t =~= kdv + t.subrange(kdv.len() as int, t.len() as int));
            }
            assert(xe[a].0 == t);
        }
    }
    assert forall|t: Key| #[trigger] seq_to_map(xe).contains_key(t) implies seq_to_map(xe)[t] == cm[t] by {
        let a = choose|a: int| 0 <= a < xe.len() && xe[a].0 == t;
        let q = ne[idx[a]].0;
        assert(t.subrange(kdv.len() as int, t.len() as int) =~= q.subrange(ksv.len() as int, q.len() as int));
        assert(ksv + t.subrange(kdv.len() as int, t.len() as int) =~= q);
        assert(seq_to_map(ne)[ne[idx[a]].0] == ne[idx[a]].1);
    }
    assert(seq_to_map(xe) =~= cm);
}

#[verifier::spinoff_prover]
#[verifier::rlimit(40)]
proof fn lemma_copy_tree(d1: DiskV, ksv: Key, kdv: Key)
    requires
        tree_ok(d1.nodes),
        d1.is_dir_at(ksv),
        d1.is_dir_at(kdv),
        kdv.len() > 0,
        forall|q: Key| #[trigger] d1.nodes.contains_key(q) ==> !below(kdv, q),
    ensures
        tree_ok(d1.nodes.union_prefer_right(copied(d1, ksv, kdv))),
{
    let cm = copied(d1, ksv, kdv);
    let m = d1.nodes.union_prefer_right(cm);
    assert forall|t: Key| #[trigger] m.contains_key(t) implies {
        &&& t.len() > 0
        &&& forall|i: int| 0 <= i < t.len() ==> is_name(#[trigger] t[i])
        &&& t.len() > 1 ==> m.contains_key(t.drop_last()) && m[t.drop_last()] is Dir
    } by {
        if cm.contains_key(t) {
            let rel = t.subrange(kdv.len() as int, t.len() as int);
            let q = ksv + rel;
            assert(d1.nodes.contains_key(q));
            assert(d1.nodes.contains_key(kdv));
            assert forall|i: int| 0 <= i < t.len() implies is_name(#[trigger] t[i]) by {
                if i < kdv.len() {
                    assert(t[i] == kdv[i]);
                } else {
                    assert(t[i] == q[ksv.len() + i - kdv.len()]);
                }
            }
            let p = t.drop_last();
            if rel.len() == 1 {
                assert(p =~= kdv);
            } else {
                let qp = ksv + p.subrange(kdv.len() as int, p.len() as int);
                assert(qp =~= q.drop_last());
                assert(below(kdv, p)) by {
                    assert(p.subrange(0, kdv.len() as int) =~= kdv);
                }
                assert(d1.nodes.contains_key(qp));
                assert(cm.contains_key(p));
            }
        } else {
            assert(d1.nodes.contains_key(t));
            if t.len() > 1 {
                assert(d1.nodes.contains_key(t.drop_last()));
                if cm.contains_key(t.drop_last()) {
                    assert(below(kdv, t)) by {
                        assert(t.subrange(0, kdv.len() as int) =~= t.drop_last().subrange(0, kdv.len() as int));
                    }
                }
            }
        }
    }
}

} // verus!
