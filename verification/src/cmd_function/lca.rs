//! The history of a revision: the ids it reaches through parent links,
//! and the lowest common ancestors of two revisions.
use vstd::prelude::*;
use crate::vc::repository::{Repo, RepoV};
use crate::vc::repository::store::spec_get_rev;
use crate::vc::revision::{Rev, RevV};
use crate::dsr::{Disk, DiskV, Key, NodeV, nev};
use crate::path::spec_path_compose;
use crate::vc::repository::store::rev_target;
use crate::ui::{Errors, ErrV};
use crate::strmap::lemma_seq_to_map;
use crate::strs::{owned, str_eq};
use crate::path::views;

verus! {

/// The parent ids of a revision: the first parent, then the second.
pub open spec fn parents_of(rv: RevV) -> Seq<Seq<char>> {
    let a = match rv.parent_id {
        Some(p) => seq![p],
        None => Seq::empty(),
    };
    let b = match rv.parent_id2 {
        Some(p) => seq![p],
        None => Seq::empty(),
    };
    a + b
}

/// `ids` is a path of parent links from `start`: its first id is a parent
/// of `start`, and each next id a parent of the revision stored under the
/// previous one.
pub open spec fn is_chain(d: DiskV, r: RepoV, start: RevV, ids: Seq<Seq<char>>) -> bool {
    &&& ids.len() > 0
    &&& parents_of(start).contains(ids[0])
    &&& forall|i: int|
        0 <= i < ids.len() - 1 ==> spec_get_rev(d, r, #[trigger] ids[i]) is Ok && parents_of(
            spec_get_rev(d, r, ids[i])->Ok_0,
        ).contains(ids[i + 1])
}

/// An id reached from `start` by parent links.
pub open spec fn ancestor_id(d: DiskV, r: RepoV, start: RevV, id: Seq<char>) -> bool {
    exists|ids: Seq<Seq<char>>| #[trigger] is_chain(d, r, start, ids) && ids.last() == id
}

/// Whether a list holds an id.
pub fn contains_id_of(list: &Vec<String>, id: &str) -> (r: bool)
    ensures
        r == exists|i: int| 0 <= i < list@.len() && #[trigger] list@[i]@ == id@,
{
    let mut i: usize = 0;
    while i < list.len()
        invariant
            i <= list@.len(),
            forall|j: int| 0 <= j < i ==> #[trigger] list@[j]@ != id@,
        decreases list@.len() - i,
    {
        if str_eq(list[i].as_str(), id) {
            return true;
        }
        i = i + 1;
    }
    false
}

/// The parent ids that the nodes of a disk listing name, in order.
pub open spec fn node_parent_ids(s: Seq<(Key, NodeV)>) -> Seq<Seq<char>>
    decreases s.len(),
{
    if s.len() == 0 {
        Seq::empty()
    } else {
        node_parent_ids(s.drop_last()) + match s.last().1 {
            NodeV::Rev(rv) => parents_of(rv),
            _ => Seq::empty(),
        }
    }
}

proof fn lemma_node_parent_ids(s: Seq<(Key, NodeV)>, i: int, rv: RevV, q: Seq<char>)
    requires
        0 <= i < s.len(),
        s[i].1 == NodeV::Rev(rv),
        parents_of(rv).contains(q),
    ensures
        node_parent_ids(s).contains(q),
    decreases s.len(),
{
    let t = s.drop_last();
    if i < s.len() - 1 {
        assert(t[i] == s[i]);
        lemma_node_parent_ids(t, i, rv, q);
        let j = choose|j: int| 0 <= j < node_parent_ids(t).len() && node_parent_ids(t)[j] == q;
        assert(node_parent_ids(s)[j] == q);
    } else {
        let k = choose|k: int| 0 <= k < parents_of(rv).len() && parents_of(rv)[k] == q;
        assert(node_parent_ids(s)[node_parent_ids(t).len() + k] == q);
    }
}

/// Every parent of a revision that can be read is named by some node of
/// the disk.
proof fn lemma_read_parents(disk: &Disk, r: RepoV, x: Seq<char>, q: Seq<char>)
    requires
        disk.wf(),
        spec_get_rev(disk@, r, x) is Ok,
        parents_of(spec_get_rev(disk@, r, x)->Ok_0).contains(q),
    ensures
        node_parent_ids(nev(disk.nodes@)).contains(q),
{
    lemma_seq_to_map(nev(disk.nodes@));
    let d = disk@;
    let p = spec_path_compose(r.paths.revs, rev_target(r, x));
    let k = d.key(p);
    assert(d.nodes.contains_key(k));
    let i = choose|i: int| 0 <= i < nev(disk.nodes@).len() && nev(disk.nodes@)[i].0 == k;
    assert(d.nodes[nev(disk.nodes@)[i].0] == nev(disk.nodes@)[i].1);
    lemma_node_parent_ids(nev(disk.nodes@), i, spec_get_rev(d, r, x)->Ok_0, q);
}

/// A list without repeats whose items all occur in `b` is no longer than `b`.
proof fn lemma_distinct_within(a: Seq<Seq<char>>, b: Seq<Seq<char>>)
    requires
        a.no_duplicates(),
        forall|i: int| 0 <= i < a.len() ==> b.contains(#[trigger] a[i]),
    ensures
        a.len() <= b.len(),
{
    a.unique_seq_to_set();
    b.lemma_cardinality_of_set();
    assert(a.to_set().subset_of(b.to_set())) by {
        assert forall|y: Seq<char>| a.to_set().contains(y) implies b.to_set().contains(y) by {
            let i = choose|i: int| 0 <= i < a.len() && a[i] == y;
            assert(b.contains(a[i]));
        }
    }
    vstd::set_lib::lemma_len_subset(a.to_set(), b.to_set());
}

/// The parent ids of a revision, first parent first.
fn parent_ids(rv: &Rev) -> (r: Vec<String>)
    ensures
        views(r@) == parents_of(rv@),
{
    let mut v: Vec<String> = Vec::new();
    if let Some(p) = rv.get_parent_id() {
        v.push(owned(p));
    }
    if let Some(p) = rv.get_parent_id2() {
        v.push(owned(p));
    }
    proof {
        assert(views(v@) =~= parents_of(rv@));
    }
    v
}

/// Every id that the history of `start` reaches can be read.
pub open spec fn history_readable(d: DiskV, r: RepoV, start: RevV) -> bool {
    forall|y: Seq<char>| #[trigger] ancestor_id(d, r, start, y) ==> spec_get_rev(d, r, y) is Ok
}

proof fn lemma_parent_is_ancestor(d: DiskV, r: RepoV, start: RevV, p: Seq<char>)
    requires
        parents_of(start).contains(p),
    ensures
        ancestor_id(d, r, start, p),
{
    let ids = seq![p];
    assert(is_chain(d, r, start, ids));
}

proof fn lemma_ancestor_step(d: DiskV, r: RepoV, start: RevV, x: Seq<char>, q: Seq<char>)
    requires
        ancestor_id(d, r, start, x),
        spec_get_rev(d, r, x) is Ok,
        parents_of(spec_get_rev(d, r, x)->Ok_0).contains(q),
    ensures
        ancestor_id(d, r, start, q),
{
    let ids = choose|ids: Seq<Seq<char>>| #[trigger] is_chain(d, r, start, ids) && ids.last() == x;
    let ids2 = ids.push(q);
    assert forall|i: int| 0 <= i < ids2.len() - 1 implies spec_get_rev(d, r, #[trigger] ids2[i]) is Ok && parents_of(
        spec_get_rev(d, r, ids2[i])->Ok_0,
    ).contains(ids2[i + 1]) by {
        if i < ids.len() - 1 {
            assert(ids2[i] == ids[i] && ids2[i + 1] == ids[i + 1]);
        } else {
            assert(ids2[i] == x && ids2[i + 1] == q);
        }
    }
    assert(is_chain(d, r, start, ids2));
}

/// A set of ids that holds the parents of `start` and is closed under
/// parents holds every id the history of `start` reaches.
proof fn lemma_closed_holds(d: DiskV, r: RepoV, start: RevV, seen: Seq<Seq<char>>, ids: Seq<Seq<char>>)
    requires
        forall|p: Seq<char>| parents_of(start).contains(p) ==> #[trigger] seen.contains(p),
        forall|y: Seq<char>| #[trigger] seen.contains(y) ==> spec_get_rev(d, r, y) is Ok && forall|q: Seq<char>|
            parents_of(spec_get_rev(d, r, y)->Ok_0).contains(q) ==> seen.contains(q),
        is_chain(d, r, start, ids),
    ensures
        seen.contains(ids.last()),
    decreases ids.len(),
{
    if ids.len() > 1 {
        let t = ids.drop_last();
        assert forall|i: int| 0 <= i < t.len() - 1 implies spec_get_rev(d, r, #[trigger] t[i]) is Ok && parents_of(
            spec_get_rev(d, r, t[i])->Ok_0,
        ).contains(t[i + 1]) by {
            assert(t[i] == ids[i] && t[i + 1] == ids[i + 1]);
        }
        assert(is_chain(d, r, start, t));
        lemma_closed_holds(d, r, start, seen, t);
        assert(t.last() == ids[ids.len() - 2]);
        assert(spec_get_rev(d, r, ids[ids.len() - 2]) is Ok && parents_of(spec_get_rev(d, r, ids[ids.len() - 2])->Ok_0).contains(
            ids[ids.len() - 1],
        ));
    } else {
        assert(ids.last() == ids[0]);
    }
}

/// Adds to `seen` and `todo` each id of `ps` that `seen` does not hold yet.
fn add_unseen(seen: &mut Vec<String>, todo: &mut Vec<String>, ps: &Vec<String>)
    ensures
        views(final(seen)@) == views(old(seen)@) + (views(final(seen)@).subrange(old(seen)@.len() as int, final(seen)@.len() as int)),
        views(old(seen)@).no_duplicates() ==> views(final(seen)@).no_duplicates(),
        views(final(todo)@) == views(old(todo)@) + views(final(seen)@).subrange(old(seen)@.len() as int, final(seen)@.len() as int),
        forall|i: int| 0 <= i < ps@.len() ==> views(final(seen)@).contains(#[trigger] ps@[i]@),
        forall|i: int| old(seen)@.len() <= i < final(seen)@.len() ==> views(ps@).contains(#[trigger] views(final(seen)@)[i]),
        forall|i: int| old(seen)@.len() <= i < final(seen)@.len() ==> !views(old(seen)@).contains(#[trigger] views(final(seen)@)[i]),
{
    let ghost s0 = views(seen@);
    let ghost t0 = views(todo@);
    let mut k: usize = 0;
    while k < ps.len()
        invariant
            k <= ps@.len(),
            views(seen@).len() >= s0.len(),
            views(seen@).subrange(0, s0.len() as int) == s0,
            s0.no_duplicates() ==> views(seen@).no_duplicates(),
            views(todo@) == t0 + views(seen@).subrange(s0.len() as int, views(seen@).len() as int),
            forall|i: int| 0 <= i < k ==> views(seen@).contains(#[trigger] ps@[i]@),
            forall|i: int| s0.len() <= i < views(seen@).len() ==> views(ps@).contains(#[trigger] views(seen@)[i]),
            forall|i: int| s0.len() <= i < views(seen@).len() ==> !s0.contains(#[trigger] views(seen@)[i]),
        decreases ps@.len() - k,
    {
        let found = contains_id_of(seen, ps[k].as_str());
        let ghost sv = views(seen@);
        let ghost tv = views(todo@);
        proof {
            assert(found == sv.contains(ps@[k as int]@)) by {
                if found {
                    let j = choose|j: int| 0 <= j < seen@.len() && #[trigger] seen@[j]@ == ps@[k as int]@;
                    assert(sv[j] == seen@[j]@);
                }
                if sv.contains(ps@[k as int]@) {
                    let j = choose|j: int| 0 <= j < sv.len() && sv[j] == ps@[k as int]@;
                    assert(sv[j] == seen@[j]@);
                }
            }
            assert(views(ps@)[k as int] == ps@[k as int]@);
        }
        if !found {
            let c = ps[k].clone();
            seen.push(c.clone());
            todo.push(c);
            proof {
                assert(views(seen@) =~= sv.push(ps@[k as int]@));
                assert(views(todo@) =~= tv.push(ps@[k as int]@));
                assert(views(seen@).subrange(0, s0.len() as int) =~= sv.subrange(0, s0.len() as int));
                assert(views(seen@).subrange(s0.len() as int, views(seen@).len() as int) =~= sv.subrange(
                    s0.len() as int,
                    sv.len() as int,
                ).push(ps@[k as int]@));
                assert forall|i: int| 0 <= i < k + 1 implies views(seen@).contains(#[trigger] ps@[i]@) by {
                    if i < k {
                        let j = choose|j: int| 0 <= j < sv.len() && sv[j] == ps@[i]@;
                        assert(views(seen@)[j] == sv[j]);
                    } else {
                        assert(views(seen@)[sv.len() as int] == ps@[i]@);
                    }
                }
                assert forall|i: int| s0.len() <= i < views(seen@).len() implies !s0.contains(#[trigger] views(seen@)[i]) by {
                    if i < sv.len() {
                        assert(views(seen@)[i] == sv[i]);
                    } else {
                        if s0.contains(views(seen@)[i]) {
                            let j = choose|j: int| 0 <= j < s0.len() && s0[j] == views(seen@)[i];
                            assert(sv[j] == s0[j]);
                        }
                    }
                }
                if s0.no_duplicates() {
                    assert forall|a: int, b: int| 0 <= a < b < views(seen@).len() implies views(seen@)[a] != views(seen@)[b] by {
                        if b == sv.len() {
                            assert(views(seen@)[a] == sv[a]);
                        } else {
                            assert(views(seen@)[a] == sv[a] && views(seen@)[b] == sv[b]);
                        }
                    }
                }
                assert forall|i: int| s0.len() <= i < views(seen@).len() implies views(ps@).contains(#[trigger] views(seen@)[i]) by {
                    if i < sv.len() {
                        assert(views(seen@)[i] == sv[i]);
                    } else {
                        assert(views(seen@)[i] == views(ps@)[k as int]);
                    }
                }
            }
        } else {
            proof {
                assert forall|i: int| 0 <= i < k + 1 implies views(seen@).contains(#[trigger] ps@[i]@) by {
                }
            }
        }
        k = k + 1;
    }
    proof {
        assert(views(seen@) =~= s0 + views(seen@).subrange(s0.len() as int, views(seen@).len() as int));
    }
}

/// One step of the search: the id `x` taken off `todo`, whose revision
/// `xr` was read, and the ids of its parents not seen before, `added`,
/// seen and queued.
proof fn lemma_search_step(
    d: DiskV,
    rp: RepoV,
    s: RevV,
    pool: Seq<Seq<char>>,
    s1: Seq<Seq<char>>,
    t1: Seq<Seq<char>>,
    added: Seq<Seq<char>>,
    x: Seq<char>,
    xr: RevV,
    qs: Seq<Seq<char>>,
)
    requires
        s1.no_duplicates(),
        t1.push(x).no_duplicates(),
        forall|i: int| 0 <= i < s1.len() ==> ancestor_id(d, rp, s, #[trigger] s1[i]) && pool.contains(s1[i]),
        forall|i: int| 0 <= i < t1.push(x).len() ==> s1.contains(#[trigger] t1.push(x)[i]),
        forall|p: Seq<char>| parents_of(s).contains(p) ==> #[trigger] s1.contains(p),
        forall|y: Seq<char>| #[trigger] s1.contains(y) && !t1.push(x).contains(y) ==> spec_get_rev(d, rp, y) is Ok
            && forall|q: Seq<char>| parents_of(spec_get_rev(d, rp, y)->Ok_0).contains(q) ==> s1.contains(q),
        spec_get_rev(d, rp, x) == Ok::<RevV, ErrV>(xr),
        qs == parents_of(xr),
        (s1 + added).no_duplicates(),
        forall|i: int| 0 <= i < qs.len() ==> (s1 + added).contains(#[trigger] qs[i]),
        forall|i: int| 0 <= i < qs.len() ==> pool.contains(#[trigger] qs[i]),
        forall|i: int| 0 <= i < added.len() ==> qs.contains(#[trigger] added[i]),
        forall|i: int| 0 <= i < added.len() ==> !s1.contains(#[trigger] added[i]),
    ensures
        (t1 + added).no_duplicates(),
        forall|i: int| 0 <= i < (s1 + added).len() ==> ancestor_id(d, rp, s, #[trigger] (s1 + added)[i]) && pool.contains((s1 + added)[i]),
        forall|i: int| 0 <= i < (t1 + added).len() ==> (s1 + added).contains(#[trigger] (t1 + added)[i]),
        forall|p: Seq<char>| parents_of(s).contains(p) ==> #[trigger] (s1 + added).contains(p),
        forall|y: Seq<char>| #[trigger] (s1 + added).contains(y) && !(t1 + added).contains(y) ==> spec_get_rev(d, rp, y) is Ok
            && forall|q: Seq<char>| parents_of(spec_get_rev(d, rp, y)->Ok_0).contains(q) ==> (s1 + added).contains(q),
{
    let sn = s1 + added;
    let tn = t1 + added;
    let t0 = t1.push(x);
    assert(s1.contains(x)) by {
        assert(t0[t1.len() as int] == x);
    }
    let jx = choose|j: int| 0 <= j < s1.len() && s1[j] == x;
    assert(ancestor_id(d, rp, s, s1[jx]));
    assert forall|i: int| 0 <= i < sn.len() implies ancestor_id(d, rp, s, #[trigger] sn[i]) && pool.contains(sn[i]) by {
        if i < s1.len() {
            assert(sn[i] == s1[i]);
        } else {
            let y = sn[i];
            assert(y == added[i - s1.len()]);
            assert(qs.contains(y));
            let k = choose|k: int| 0 <= k < qs.len() && qs[k] == y;
            assert(pool.contains(qs[k]));
            lemma_ancestor_step(d, rp, s, x, y);
        }
    }
    assert forall|i: int| 0 <= i < tn.len() implies sn.contains(#[trigger] tn[i]) by {
        if i < t1.len() {
            assert(tn[i] == t1[i]);
            assert(t0[i] == t1[i]);
            assert(s1.contains(t0[i]));
            let j = choose|j: int| 0 <= j < s1.len() && s1[j] == t1[i];
            assert(sn[j] == s1[j]);
        } else {
            assert(tn[i] == added[i - t1.len()]);
            assert(sn[s1.len() + i - t1.len()] == added[i - t1.len()]);
        }
    }
    assert forall|a: int, b: int| 0 <= a < b < tn.len() implies tn[a] != tn[b] by {
        if b < t1.len() {
            assert(tn[a] == t0[a] && tn[b] == t0[b]);
        } else if a < t1.len() {
            assert(tn[a] == t0[a]);
            assert(s1.contains(t0[a]));
            assert(tn[b] == added[b - t1.len()]);
        } else {
            assert(tn[a] == sn[s1.len() + a - t1.len()]);
            assert(tn[b] == sn[s1.len() + b - t1.len()]);
        }
    }
    assert forall|p: Seq<char>| parents_of(s).contains(p) implies #[trigger] sn.contains(p) by {
        assert(s1.contains(p));
        let j = choose|j: int| 0 <= j < s1.len() && s1[j] == p;
        assert(sn[j] == s1[j]);
    }
    assert forall|y: Seq<char>| #[trigger] sn.contains(y) && !tn.contains(y) implies spec_get_rev(d, rp, y) is Ok
        && forall|q: Seq<char>| parents_of(spec_get_rev(d, rp, y)->Ok_0).contains(q) ==> sn.contains(q) by {
        let j = choose|j: int| 0 <= j < sn.len() && sn[j] == y;
        if j >= s1.len() {
            assert(tn[t1.len() + j - s1.len()] == sn[j]);
            assert(tn.contains(y));
        }
        assert(sn[j] == s1[j]);
        assert(s1.contains(y));
        if y != x {
            assert(!t0.contains(y)) by {
                if t0.contains(y) {
                    let k = choose|k: int| 0 <= k < t0.len() && t0[k] == y;
                    assert(k < t1.len());
                    assert(tn[k] == t1[k]);
                }
            }
        }
        assert forall|q: Seq<char>| parents_of(spec_get_rev(d, rp, y)->Ok_0).contains(q) implies sn.contains(q) by {
            if y == x {
                let k = choose|k: int| 0 <= k < qs.len() && qs[k] == q;
                assert(sn.contains(qs[k]));
            } else {
                assert(s1.contains(q));
                let k = choose|k: int| 0 <= k < s1.len() && s1[k] == q;
                assert(sn[k] == s1[k]);
            }
        }
    }
}

/// The ids that the history of `start` reaches through parent links, each
/// once. Fails, with the error of the read, when one of them cannot be read.
#[verifier::rlimit(60)]
#[verifier::spinoff_prover]
pub fn history_ids(repo: &Repo, disk: &Disk, start: &Rev) -> (r: Result<Vec<String>, Errors>)
    requires
        disk.wf(),
        repo@.wf(),
    ensures
        r is Ok <==> history_readable(disk@, repo@, start@),
        r matches Ok(v) ==> views(v@).no_duplicates() && forall|y: Seq<char>|
            #[trigger] views(v@).contains(y) <==> ancestor_id(disk@, repo@, start@, y),
{
    let ghost d = disk@;
    let ghost rp = repo@;
    let ghost s = start@;
    let ghost pool = node_parent_ids(nev(disk.nodes@)) + parents_of(s);
    let mut seen: Vec<String> = Vec::new();
    let mut todo: Vec<String> = Vec::new();
    let ps = parent_ids(start);
    add_unseen(&mut seen, &mut todo, &ps);
    proof {
        assert(views(seen@).subrange(0, views(seen@).len() as int) =~= views(seen@));
        assert forall|i: int| 0 <= i < views(seen@).len() implies ancestor_id(d, rp, s, #[trigger] views(seen@)[i]) && pool.contains(views(seen@)[i]) by {
            let y = views(seen@)[i];
            assert(views(ps@).contains(y));
            lemma_parent_is_ancestor(d, rp, s, y);
            let j = choose|j: int| 0 <= j < parents_of(s).len() && parents_of(s)[j] == y;
            assert(pool[node_parent_ids(nev(disk.nodes@)).len() + j] == y);
        }
        assert forall|p: Seq<char>| parents_of(s).contains(p) implies #[trigger] views(seen@).contains(p) by {
            let j = choose|j: int| 0 <= j < parents_of(s).len() && parents_of(s)[j] == p;
            assert(ps@[j]@ == views(ps@)[j]);
        }
        assert(views(todo@) =~= views(seen@));
    }
    while todo.len() > 0
        invariant
            disk.wf(),
            repo@.wf(),
            d == disk@,
            rp == repo@,
            s == start@,
            pool == node_parent_ids(nev(disk.nodes@)) + parents_of(s),
            views(seen@).no_duplicates(),
            views(todo@).no_duplicates(),
            forall|i: int| 0 <= i < views(seen@).len() ==> ancestor_id(d, rp, s, #[trigger] views(seen@)[i]) && pool.contains(views(seen@)[i]),
            forall|i: int| 0 <= i < views(todo@).len() ==> views(seen@).contains(#[trigger] views(todo@)[i]),
            forall|p: Seq<char>| parents_of(s).contains(p) ==> #[trigger] views(seen@).contains(p),
            forall|y: Seq<char>| #[trigger] views(seen@).contains(y) && !views(todo@).contains(y) ==> spec_get_rev(d, rp, y) is Ok
                && forall|q: Seq<char>| parents_of(spec_get_rev(d, rp, y)->Ok_0).contains(q) ==> views(seen@).contains(q),
        decreases 3 * (pool.len() - views(seen@).len()) + views(todo@).len(),
    {
        proof {
            lemma_distinct_within(views(seen@), pool);
        }
        let ghost t0 = views(todo@);
        let ghost s0 = views(seen@);
        let x = todo.pop().unwrap();
        proof {
            assert(views(todo@) =~= t0.drop_last());
            assert(x@ == t0.last());
            assert(s0.contains(x@));
            let jx = choose|j: int| 0 <= j < s0.len() && s0[j] == x@;
            assert(ancestor_id(d, rp, s, s0[jx]));
        }
        let xr = match repo.get_rev(disk, x.as_str()) {
            Ok(v) => v,
            Err(e) => return Err(e),
        };
        let qs = parent_ids(&xr);
        let ghost s1 = views(seen@);
        let ghost t1 = views(todo@);
        add_unseen(&mut seen, &mut todo, &qs);
        proof {
            let added = views(seen@).subrange(s1.len() as int, views(seen@).len() as int);
            assert forall|i: int| 0 <= i < views(qs@).len() implies pool.contains(#[trigger] views(qs@)[i]) by {
                let q = views(qs@)[i];
                assert(parents_of(xr@).contains(q));
                lemma_read_parents(disk, rp, x@, q);
                let j = choose|j: int| 0 <= j < node_parent_ids(nev(disk.nodes@)).len() && node_parent_ids(nev(disk.nodes@))[j] == q;
                assert(pool[j] == q);
            }
            assert forall|i: int| 0 <= i < qs@.len() implies (s1 + added).contains(#[trigger] views(qs@)[i]) by {
                assert(views(qs@)[i] == qs@[i]@);
            }
            assert(t0 =~= t1.push(x@));
            assert(s1 == s0);
            assert(views(seen@) =~= s1 + added);
            assert(views(todo@) =~= t1 + added);
            lemma_search_step(d, rp, s, pool, s1, t1, added, x@, xr@, views(qs@));
            lemma_distinct_within(views(seen@), pool);
        }
    }
    proof {
        assert forall|y: Seq<char>| #[trigger] views(seen@).contains(y) <==> ancestor_id(d, rp, s, y) by {
            if views(seen@).contains(y) {
                let j = choose|j: int| 0 <= j < views(seen@).len() && views(seen@)[j] == y;
            }
            if ancestor_id(d, rp, s, y) {
                let ids = choose|ids: Seq<Seq<char>>| #[trigger] is_chain(d, rp, s, ids) && ids.last() == y;
                assert forall|z: Seq<char>| #[trigger] views(seen@).contains(z) implies spec_get_rev(d, rp, z) is Ok && forall|q: Seq<char>|
                    parents_of(spec_get_rev(d, rp, z)->Ok_0).contains(q) ==> views(seen@).contains(q) by {
                    assert(!views(todo@).contains(z));
                }
                lemma_closed_holds(d, rp, s, views(seen@), ids);
            }
        }
        assert forall|y: Seq<char>| #[trigger] ancestor_id(d, rp, s, y) implies spec_get_rev(d, rp, y) is Ok by {
            assert(views(seen@).contains(y));
            assert(!views(todo@).contains(y));
        }
    }
    Ok(seen)
}

/// `y` is `a`'s own id or an id that the history of `a` reaches.
pub open spec fn in_anc(d: DiskV, r: RepoV, a: RevV, y: Seq<char>) -> bool {
    a.rev_id == Some(y) || ancestor_id(d, r, a, y)
}

/// `y` is an ancestor of both `a` and `b`, each counted as its own
/// ancestor.
pub open spec fn common_anc(d: DiskV, r: RepoV, a: RevV, b: RevV, y: Seq<char>) -> bool {
    in_anc(d, r, a, y) && in_anc(d, r, b, y)
}

/// `z` lies below `w`: the history of the revision stored under `w`
/// reaches `z`.
pub open spec fn below(d: DiskV, r: RepoV, w: Seq<char>, z: Seq<char>) -> bool {
    spec_get_rev(d, r, w) is Ok && ancestor_id(d, r, spec_get_rev(d, r, w)->Ok_0, z)
}

/// `z` is a lowest common ancestor of `a` and `b`: a common ancestor below
/// no other common ancestor.
pub open spec fn is_lca(d: DiskV, r: RepoV, a: RevV, b: RevV, z: Seq<char>) -> bool {
    &&& common_anc(d, r, a, b, z)
    &&& forall|w: Seq<char>| #[trigger] common_anc(d, r, a, b, w) && w != z ==> !below(d, r, w, z)
}

/// The history of `a` fits: `a` is stored under its id, every id its
/// history reaches can be read, and no ancestor lies below itself.
pub open spec fn history_fits(d: DiskV, r: RepoV, a: RevV) -> bool {
    &&& a.rev_id matches Some(s) && spec_get_rev(d, r, s) == Ok::<RevV, ErrV>(a)
    &&& history_readable(d, r, a)
    &&& forall|y: Seq<char>| #[trigger] in_anc(d, r, a, y) ==> !below(d, r, y, y)
}

/// Every id that the parents of `y` reach is reached from `x` too.
proof fn lemma_chain_from(d: DiskV, r: RepoV, x: RevV, y: RevV, ids: Seq<Seq<char>>, k: int)
    requires
        is_chain(d, r, y, ids),
        0 <= k < ids.len(),
        forall|p: Seq<char>| parents_of(y).contains(p) ==> ancestor_id(d, r, x, p),
    ensures
        ancestor_id(d, r, x, ids[k]),
    decreases k,
{
    if k > 0 {
        lemma_chain_from(d, r, x, y, ids, k - 1);
        assert(spec_get_rev(d, r, ids[k - 1]) is Ok);
        lemma_ancestor_step(d, r, x, ids[k - 1], ids[k]);
    }
}

/// What the revision stored under an id that `x` reaches reaches, `x`
/// reaches too.
proof fn lemma_ancestor_trans(d: DiskV, r: RepoV, x: RevV, z: Seq<char>, u: Seq<char>)
    requires
        ancestor_id(d, r, x, z),
        spec_get_rev(d, r, z) is Ok,
        ancestor_id(d, r, spec_get_rev(d, r, z)->Ok_0, u),
    ensures
        ancestor_id(d, r, x, u),
{
    let y = spec_get_rev(d, r, z)->Ok_0;
    let ids = choose|ids: Seq<Seq<char>>| #[trigger] is_chain(d, r, y, ids) && ids.last() == u;
    assert forall|p: Seq<char>| parents_of(y).contains(p) implies ancestor_id(d, r, x, p) by {
        lemma_ancestor_step(d, r, x, z, p);
    }
    lemma_chain_from(d, r, x, y, ids, ids.len() - 1);
}

/// Lying below is transitive.
proof fn lemma_below_trans(d: DiskV, r: RepoV, w: Seq<char>, z: Seq<char>, u: Seq<char>)
    requires
        below(d, r, w, z),
        below(d, r, z, u),
    ensures
        below(d, r, w, u),
{
    lemma_ancestor_trans(d, r, spec_get_rev(d, r, w)->Ok_0, z, u);
}

/// The history of the revision stored under an ancestor of a revision whose
/// history fits can be read.
proof fn lemma_anc_readable(d: DiskV, r: RepoV, a: RevV, w: Seq<char>)
    requires
        history_fits(d, r, a),
        in_anc(d, r, a, w),
        spec_get_rev(d, r, w) is Ok,
    ensures
        history_readable(d, r, spec_get_rev(d, r, w)->Ok_0),
{
    let x = spec_get_rev(d, r, w)->Ok_0;
    if ancestor_id(d, r, a, w) {
        assert forall|y: Seq<char>| #[trigger] ancestor_id(d, r, x, y) implies spec_get_rev(d, r, y) is Ok by {
            lemma_ancestor_trans(d, r, a, w, y);
        }
    }
}

/// Among finitely many ids of which none lies below itself, some id lies
/// below no other.
proof fn lemma_lowest_exists(d: DiskV, r: RepoV, c: Seq<Seq<char>>)
    requires
        c.len() > 0,
        forall|i: int| 0 <= i < c.len() ==> !below(d, r, #[trigger] c[i], c[i]),
    ensures
        exists|i: int|
            #![trigger c[i]]
            0 <= i < c.len() && forall|j: int| 0 <= j < c.len() && #[trigger] c[j] != c[i] ==> !below(d, r, c[j], c[i]),
    decreases c.len(),
{
    if c.len() == 1 {
        assert forall|j: int| 0 <= j < c.len() && #[trigger] c[j] != c[0] implies !below(d, r, c[j], c[0]) by {
        }
    } else {
        let t = c.drop_last();
        assert forall|i: int| 0 <= i < t.len() implies !below(d, r, #[trigger] t[i], t[i]) by {
            assert(t[i] == c[i]);
        }
        lemma_lowest_exists(d, r, t);
        let i0 = choose|i: int|
            #![trigger t[i]]
            0 <= i < t.len() && forall|j: int| 0 <= j < t.len() && #[trigger] t[j] != t[i] ==> !below(d, r, t[j], t[i]);
        let n = c.len() - 1;
        let l = c[n];
        assert(!below(d, r, c[n], c[n]));
        if l != t[i0] && below(d, r, l, t[i0]) {
            assert forall|j: int| 0 <= j < c.len() && #[trigger] c[j] != c[n] implies !below(d, r, c[j], c[n]) by {
                if below(d, r, c[j], l) {
                    lemma_below_trans(d, r, c[j], l, t[i0]);
                    assert(j < t.len());
                    assert(t[j] == c[j]);
                    if c[j] == t[i0] {
                        lemma_below_trans(d, r, l, t[i0], l);
                    }
                }
            }
        } else {
            assert(c[i0] == t[i0]);
            assert forall|j: int| 0 <= j < c.len() && #[trigger] c[j] != c[i0] implies !below(d, r, c[j], c[i0]) by {
                if j < t.len() {
                    assert(t[j] == c[j]);
                }
            }
        }
    }
}

/// A list of ids with `rev`'s own id in front when it has one.
fn with_own(rev: &Rev, ids: &Vec<String>) -> (r: Vec<String>)
    ensures
        forall|y: Seq<char>| #[trigger] views(r@).contains(y) <==> (rev@.rev_id == Some(y) || views(ids@).contains(y)),
{
    let mut v: Vec<String> = Vec::new();
    if let Some(id) = rev.get_id() {
        v.push(owned(id));
    }
    let ghost v0 = views(v@);
    let mut k: usize = 0;
    while k < ids.len()
        invariant
            k <= ids@.len(),
            views(v@) == v0 + views(ids@).subrange(0, k as int),
        decreases ids@.len() - k,
    {
        let ghost vk = views(v@);
        v.push(ids[k].clone());
        proof {
            assert(views(v@) =~= vk.push(ids@[k as int]@));
            assert(views(ids@).subrange(0, k + 1) =~= views(ids@).subrange(0, k as int).push(ids@[k as int]@));
        }
        k = k + 1;
    }
    proof {
        assert(views(ids@).subrange(0, ids@.len() as int) =~= views(ids@));
        assert forall|y: Seq<char>| #[trigger] views(v@).contains(y) <==> (rev@.rev_id == Some(y) || views(ids@).contains(y)) by {
            if views(v@).contains(y) {
                let j = choose|j: int| 0 <= j < views(v@).len() && views(v@)[j] == y;
                if j >= v0.len() {
                    assert(views(ids@)[j - v0.len()] == y);
                } else {
                    assert(v0[j] == y);
                }
            }
            if rev@.rev_id == Some(y) {
                assert(views(v@)[0] == y);
            }
            if views(ids@).contains(y) {
                let j = choose|j: int| 0 <= j < views(ids@).len() && views(ids@)[j] == y;
                assert(views(v@)[v0.len() + j] == y);
            }
        }
    }
    v
}

/// Whether `z` lies below `w`. Fails when the history of the revision
/// stored under `w` cannot be read.
fn is_below(repo: &Repo, disk: &Disk, w: &str, z: &str) -> (r: Result<bool, Errors>)
    requires
        disk.wf(),
        repo@.wf(),
    ensures
        r matches Ok(b) ==> b == below(disk@, repo@, w@, z@),
        (spec_get_rev(disk@, repo@, w@) is Ok ==> history_readable(disk@, repo@, spec_get_rev(disk@, repo@, w@)->Ok_0)) ==> r is Ok,
{
    match repo.get_rev(disk, w) {
        Err(_) => Ok(false),
        Ok(x) => {
            let h = history_ids(repo, disk, &x)?;
            let found = contains_id_of(&h, z);
            proof {
                if found {
                    let j = choose|j: int| 0 <= j < h@.len() && #[trigger] h@[j]@ == z@;
                    assert(views(h@)[j] == z@);
                    assert(views(h@).contains(z@));
                }
                if ancestor_id(disk@, repo@, x@, z@) {
                    assert(views(h@).contains(z@));
                    let j = choose|j: int| 0 <= j < views(h@).len() && views(h@)[j] == z@;
                    assert(h@[j]@ == z@);
                }
            }
            Ok(found)
        },
    }
}

/// A lowest common ancestor of two revisions, read from the repository:
/// of the ids that both histories hold, each revision counted in its own
/// history, one that lies below no other. Fails when a history cannot be
/// read and when the two share no id.
#[verifier::rlimit(60)]
#[verifier::spinoff_prover]
pub fn find_rev_lca(repo: &Repo, disk: &Disk, rev1: Rev, rev2: Rev) -> (r: Result<Rev, Errors>)
    requires
        disk.wf(),
        repo@.wf(),
    ensures
        r matches Ok(lca) ==> exists|z: Seq<char>|
            #[trigger] is_lca(disk@, repo@, rev1@, rev2@, z) && spec_get_rev(disk@, repo@, z) == Ok::<RevV, ErrV>(lca@),
        !history_readable(disk@, repo@, rev1@) || !history_readable(disk@, repo@, rev2@) ==> r is Err,
        history_fits(disk@, repo@, rev1@) && history_fits(disk@, repo@, rev2@) && (exists|y: Seq<char>|
            #[trigger] common_anc(disk@, repo@, rev1@, rev2@, y)) ==> r is Ok,
{
    let ghost d = disk@;
    let ghost rp = repo@;
    let ghost a = rev1@;
    let ghost b = rev2@;
    let a1 = history_ids(repo, disk, &rev1)?;
    let a2 = history_ids(repo, disk, &rev2)?;
    let l1 = with_own(&rev1, &a1);
    let l2 = with_own(&rev2, &a2);
    proof {
        assert forall|y: Seq<char>| #[trigger] views(l1@).contains(y) <==> in_anc(d, rp, a, y) by {
            assert(views(a1@).contains(y) <==> ancestor_id(d, rp, a, y));
        }
        assert forall|y: Seq<char>| #[trigger] views(l2@).contains(y) <==> in_anc(d, rp, b, y) by {
            assert(views(a2@).contains(y) <==> ancestor_id(d, rp, b, y));
        }
    }
    let mut cands: Vec<String> = Vec::new();
    let mut i: usize = 0;
    while i < l2.len()
        invariant
            i <= l2@.len(),
            forall|y: Seq<char>| #[trigger] views(l1@).contains(y) <==> in_anc(d, rp, a, y),
            forall|y: Seq<char>| #[trigger] views(l2@).contains(y) <==> in_anc(d, rp, b, y),
            forall|y: Seq<char>| #[trigger] views(cands@).contains(y) ==> common_anc(d, rp, a, b, y),
            forall|j: int| 0 <= j < i && #[trigger] common_anc(d, rp, a, b, l2@[j]@) ==> views(cands@).contains(l2@[j]@),
        decreases l2@.len() - i,
    {
        let y = l2[i].as_str();
        let in1 = contains_id_of(&l1, y);
        let ghost c0 = views(cands@);
        proof {
            assert(views(l2@)[i as int] == y@);
            assert(in1 == views(l1@).contains(y@)) by {
                if in1 {
                    let j = choose|j: int| 0 <= j < l1@.len() && #[trigger] l1@[j]@ == y@;
                    assert(views(l1@)[j] == y@);
                }
                if views(l1@).contains(y@) {
                    let j = choose|j: int| 0 <= j < views(l1@).len() && views(l1@)[j] == y@;
                    assert(l1@[j]@ == y@);
                }
            }
        }
        if in1 {
            cands.push(l2[i].clone());
            proof {
                assert(views(l2@).contains(y@));
                assert(views(l1@).contains(y@));
                assert(common_anc(d, rp, a, b, y@));
                assert(views(cands@) =~= c0.push(y@));
                assert(views(cands@)[c0.len() as int] == y@);
                assert forall|z: Seq<char>| #[trigger] views(cands@).contains(z) implies common_anc(d, rp, a, b, z) by {
                    let j = choose|j: int| 0 <= j < views(cands@).len() && views(cands@)[j] == z;
                    if j < c0.len() {
                        assert(c0[j] == z);
                        assert(c0.contains(z));
                    } else {
                        assert(z == y@);
                    }
                }
                assert forall|j: int| 0 <= j < i + 1 && #[trigger] common_anc(d, rp, a, b, l2@[j]@) implies views(cands@).contains(l2@[j]@) by {
                    if j < i {
                        let k = choose|k: int| 0 <= k < c0.len() && c0[k] == l2@[j]@;
                        assert(views(cands@)[k] == c0[k]);
                    }
                }
            }
        }
        i = i + 1;
    }
    let ghost cs = views(cands@);
    proof {
        assert forall|y: Seq<char>| #[trigger] common_anc(d, rp, a, b, y) implies cs.contains(y) by {
            assert(views(l2@).contains(y));
            let j = choose|j: int| 0 <= j < views(l2@).len() && views(l2@)[j] == y;
            assert(l2@[j]@ == y);
        }
        assert forall|y: Seq<char>| #[trigger] cs.contains(y) <==> common_anc(d, rp, a, b, y) by {
        }
        if history_fits(d, rp, a) && history_fits(d, rp, b) {
            assert forall|j: int| 0 <= j < cs.len() implies spec_get_rev(d, rp, #[trigger] cs[j]) is Ok ==> history_readable(
                d,
                rp,
                spec_get_rev(d, rp, cs[j])->Ok_0,
            ) by {
                assert(cs.contains(cs[j]));
                if spec_get_rev(d, rp, cs[j]) is Ok {
                    lemma_anc_readable(d, rp, a, cs[j]);
                }
            }
        }
    }
    let n = cands.len();
    let mut k: usize = 0;
    while k < n
        invariant
            disk.wf(),
            repo@.wf(),
            d == disk@,
            rp == repo@,
            a == rev1@,
            b == rev2@,
            n == cands@.len(),
            cs == views(cands@),
            k <= n,
            history_readable(d, rp, a),
            history_readable(d, rp, b),
            forall|y: Seq<char>| #[trigger] cs.contains(y) <==> common_anc(d, rp, a, b, y),
            forall|m: int|
                #![trigger cs[m]]
                0 <= m < k ==> exists|j: int| #![trigger cs[j]] 0 <= j < n && cs[j] != cs[m] && below(d, rp, cs[j], cs[m]),
            history_fits(d, rp, a) && history_fits(d, rp, b) ==> forall|j: int| 0 <= j < n ==> spec_get_rev(d, rp, #[trigger] cs[j]) is Ok
                ==> history_readable(d, rp, spec_get_rev(d, rp, cs[j])->Ok_0),
        decreases n - k,
    {
        let z = cands[k].as_str();
        proof {
            assert(cs[k as int] == z@);
        }
        let mut lowest = true;
        let mut j: usize = 0;
        while j < n
            invariant
                disk.wf(),
                repo@.wf(),
                d == disk@,
                rp == repo@,
                n == cands@.len(),
                cs == views(cands@),
                k < n,
                z@ == cs[k as int],
                j <= n,
                lowest ==> forall|m: int| 0 <= m < j ==> !(#[trigger] cs[m] != z@ && below(d, rp, cs[m], z@)),
                !lowest ==> exists|m: int| #![trigger cs[m]] 0 <= m < n && cs[m] != z@ && below(d, rp, cs[m], z@),
                history_fits(d, rp, a) && history_fits(d, rp, b) ==> forall|m: int| 0 <= m < n ==> spec_get_rev(d, rp, #[trigger] cs[m]) is Ok
                    ==> history_readable(d, rp, spec_get_rev(d, rp, cs[m])->Ok_0),
                a == rev1@,
                b == rev2@,
            decreases n - j,
        {
            let w = cands[j].as_str();
            proof {
                assert(cs[j as int] == w@);
            }
            if !str_eq(w, z) {
                let bl = match is_below(repo, disk, w, z) {
                    Ok(x) => x,
                    Err(e) => return Err(e),
                };
                if bl {
                    lowest = false;
                }
            }
            j = j + 1;
        }
        if lowest {
            let res = repo.get_rev(disk, z);
            proof {
                assert forall|w: Seq<char>| #[trigger] common_anc(d, rp, a, b, w) && w != z@ implies !below(d, rp, w, z@) by {
                    assert(cs.contains(w));
                    let m = choose|m: int| 0 <= m < cs.len() && cs[m] == w;
                    assert(!(cs[m] != z@ && below(d, rp, cs[m], z@)));
                }
                assert(cs.contains(z@));
                assert(is_lca(d, rp, a, b, z@));
                if history_fits(d, rp, a) && history_fits(d, rp, b) {
                    assert(common_anc(d, rp, a, b, z@));
                    if a.rev_id != Some(z@) {
                        assert(ancestor_id(d, rp, a, z@));
                    }
                }
            }
            return res;
        }
        k = k + 1;
    }
    proof {
        if history_fits(d, rp, a) && history_fits(d, rp, b) && (exists|y: Seq<char>| #[trigger] common_anc(d, rp, a, b, y)) {
            let y = choose|y: Seq<char>| #[trigger] common_anc(d, rp, a, b, y);
            assert(cs.contains(y));
            assert forall|i: int| 0 <= i < cs.len() implies !below(d, rp, #[trigger] cs[i], cs[i]) by {
                assert(cs.contains(cs[i]));
                assert(in_anc(d, rp, a, cs[i]));
            }
            lemma_lowest_exists(d, rp, cs);
            let i0 = choose|i: int|
                #![trigger cs[i]]
                0 <= i < cs.len() && forall|j: int| 0 <= j < cs.len() && #[trigger] cs[j] != cs[i] ==> !below(d, rp, cs[j], cs[i]);
            assert(exists|j: int| #![trigger cs[j]] 0 <= j < n && cs[j] != cs[i0] && below(d, rp, cs[j], cs[i0]));
            let j = choose|j: int| #![trigger cs[j]] 0 <= j < n && cs[j] != cs[i0] && below(d, rp, cs[j], cs[i0]);
            assert(!below(d, rp, cs[j], cs[i0]));
        }
    }
    Err(Errors::Errstatic("No LCA found"))
}


} // verus!
