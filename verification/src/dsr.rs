//! The file system that the version control works on, held as a tree of
//! named nodes, with the file and directory operations of the tool.
use vstd::prelude::*;
pub mod walk;
pub mod restore;
pub use restore::make_wd;
pub use walk::{clear_dir, clear_dir_adv, copy_dir, get_files, below, strs_view, in_list, err_v_is, raw_path, lemma_key_compose, lemma_key_raw, lemma_resolve_plain};
use crate::strs::{str_eq, concat, owned};
use crate::strmap::{Dup, seq_to_map, distinct_keys, lemma_seq_to_map};
use crate::path::{views, comps, is_abs, is_name, components, lemma_comps_normal, spec_get_name, get_name, resolve, lemma_resolve_names, resolve_into};
pub use crate::path::{path_compose, get_parent_name};
use crate::ui::{Errors, IoKind, ErrV, io_e, unit_v, str_v};
use crate::vc::revision::{Rev, RevV};
use crate::vc::repository::{Repo, RepoV};
use crate::json::{rev_json, repo_json, rev_to_json, repo_to_json};

verus! {

/// The platform, which decides which characters a name may hold.
#[derive(Debug, Clone, Copy, PartialEq, Eq, Structural)]
pub enum Os {
    Linux,
    MacOs,
    Windows,
    Other,
}

/// What a path holds: a directory, or a file. Files that hold a stored
/// revision or the repository record are kept as those records; their text
/// is the records' JSON.
pub enum Node {
    Dir,
    File(String),
    Rev(Rev),
    Repo(Repo),
}

/// The view of a [`Node`].
pub enum NodeV {
    Dir,
    File(Seq<char>),
    Rev(RevV),
    Repo(RepoV),
}

impl View for Node {
    type V = NodeV;

    open spec fn view(&self) -> NodeV {
        match self {
            Node::Dir => NodeV::Dir,
            Node::File(s) => NodeV::File(s@),
            Node::Rev(r) => NodeV::Rev(r@),
            Node::Repo(r) => NodeV::Repo(r@),
        }
    }
}

impl Dup for Node {
    fn dup(&self) -> (r: Self) {
        match self {
            Node::Dir => Node::Dir,
            Node::File(s) => Node::File(s.clone()),
            Node::Rev(r) => Node::Rev(r.dup()),
            Node::Repo(r) => Node::Repo(r.dup()),
        }
    }
}

/// The text of a file node.
pub open spec fn node_text(n: NodeV) -> Seq<char> {
    match n {
        NodeV::File(s) => s,
        NodeV::Rev(r) => rev_json(r),
        NodeV::Repo(r) => repo_json(r),
        NodeV::Dir => Seq::empty(),
    }
}

/// The text of a file node.
pub fn text_of(n: &Node) -> (r: String)
    ensures
        r@ == node_text(n@),
{
    match n {
        Node::File(s) => s.clone(),
        Node::Rev(r) => rev_to_json(r),
        Node::Repo(r) => repo_to_json(r),
        Node::Dir => String::new(),
    }
}

/// A path in the tree: its components from the root.
pub type Key = Seq<Seq<char>>;

/// The file system: the working directory of the process, the platform, and
/// the nodes by path from the root. The root itself is always a directory.
pub struct Disk {
    pub cwd: String,
    pub os: Os,
    pub nodes: Vec<(Vec<String>, Node)>,
}

/// The view of a [`Disk`].
pub struct DiskV {
    pub cwd: Seq<char>,
    pub os: Os,
    pub nodes: Map<Key, NodeV>,
}

/// The nodes by view.
pub open spec fn nev(s: Seq<(Vec<String>, Node)>) -> Seq<(Key, NodeV)> {
    s.map_values(|e: (Vec<String>, Node)| (views(e.0@), e.1@))
}

/// Every node lies below the root, its components are names without
/// separators, and its parent is the root or a directory.
pub open spec fn tree_ok(m: Map<Key, NodeV>) -> bool {
    forall|k: Key| #[trigger] m.contains_key(k) ==> {
        &&& k.len() > 0
        &&& forall|i: int| 0 <= i < k.len() ==> is_name(#[trigger] k[i])
        &&& k.len() > 1 ==> m.contains_key(k.drop_last()) && m[k.drop_last()] is Dir
    }
}

/// The key of a path: from the root for an absolute path, from the working
/// directory otherwise.
pub open spec fn key(cwd: Seq<char>, p: Seq<char>) -> Key {
    if is_abs(p) {
        resolve(Seq::empty(), comps(p))
    } else {
        resolve(resolve(Seq::empty(), comps(cwd)), comps(p))
    }
}

/// Whether `a` is a prefix of `b`.
pub open spec fn is_prefix(a: Key, b: Key) -> bool {
    a.len() <= b.len() && b.subrange(0, a.len() as int) == a
}

impl DiskV {
    /// The key of a path.
    pub open spec fn key(self, p: Seq<char>) -> Key {
        key(self.cwd, p)
    }

    /// Whether something is at a key.
    pub open spec fn exists_at(self, k: Key) -> bool {
        k.len() == 0 || self.nodes.contains_key(k)
    }

    /// Whether a directory is at a key.
    pub open spec fn is_dir_at(self, k: Key) -> bool {
        k.len() == 0 || (self.nodes.contains_key(k) && self.nodes[k] is Dir)
    }

    /// Whether a file is at a key.
    pub open spec fn is_file_at(self, k: Key) -> bool {
        k.len() > 0 && self.nodes.contains_key(k) && !(self.nodes[k] is Dir)
    }

    /// The same disk with other nodes.
    pub open spec fn with_nodes(self, m: Map<Key, NodeV>) -> DiskV {
        DiskV { cwd: self.cwd, os: self.os, nodes: m }
    }

    /// The nodes with a subtree removed.
    pub open spec fn without_tree(self, k: Key) -> Map<Key, NodeV> {
        Map::new(|q: Key| self.nodes.contains_key(q) && !is_prefix(k, q), |q: Key| self.nodes[q])
    }
}

impl View for Disk {
    type V = DiskV;

    open spec fn view(&self) -> DiskV {
        DiskV { cwd: self.cwd@, os: self.os, nodes: seq_to_map(nev(self.nodes@)) }
    }
}

/// Every node's ancestors are directories.
pub proof fn lemma_ancestors(m: Map<Key, NodeV>, q: Key, j: int)
    requires
        tree_ok(m),
        m.contains_key(q),
        0 < j < q.len(),
    ensures
        m.contains_key(q.subrange(0, j)),
        m[q.subrange(0, j)] is Dir,
    decreases q.len() - j,
{
    let p = q.drop_last();
    assert(m.contains_key(p));
    if j == q.len() - 1 {
        assert(q.subrange(0, j) =~= p);
    } else {
        lemma_ancestors(m, p, j);
        assert(p.subrange(0, j) =~= q.subrange(0, j));
    }
}

/// Below a file there is nothing.
pub proof fn lemma_file_no_children(m: Map<Key, NodeV>, k: Key, q: Key)
    requires
        tree_ok(m),
        m.contains_key(k),
        !(m[k] is Dir),
        m.contains_key(q),
        is_prefix(k, q),
    ensures
        q == k,
{
    if q.len() > k.len() {
        lemma_ancestors(m, q, k.len() as int);
    }
    assert(q =~= k);
}

/// Whether two keys are equal.
pub fn keys_eq(a: &Vec<String>, b: &Vec<String>) -> (r: bool)
    ensures
        r == (views(a@) == views(b@)),
{
    if a.len() != b.len() {
        assert(views(a@).len() != views(b@).len());
        return false;
    }
    let mut i: usize = 0;
    while i < a.len()
        invariant
            a@.len() == b@.len(),
            i <= a@.len(),
            forall|j: int| 0 <= j < i ==> a@[j]@ == b@[j]@,
        decreases a@.len() - i,
    {
        if !str_eq(a[i].as_str(), b[i].as_str()) {
            assert(views(a@)[i as int] != views(b@)[i as int]);
            return false;
        }
        i = i + 1;
    }
    assert(views(a@) =~= views(b@));
    true
}

/// Whether the first key is a prefix of the second.
pub fn key_is_prefix(a: &Vec<String>, b: &Vec<String>) -> (r: bool)
    ensures
        r == is_prefix(views(a@), views(b@)),
{
    if a.len() > b.len() {
        return false;
    }
    let mut i: usize = 0;
    while i < a.len()
        invariant
            a@.len() <= b@.len(),
            i <= a@.len(),
            forall|j: int| 0 <= j < i ==> a@[j]@ == b@[j]@,
        decreases a@.len() - i,
    {
        if !str_eq(a[i].as_str(), b[i].as_str()) {
            assert(views(b@).subrange(0, a@.len() as int)[i as int] != views(a@)[i as int]);
            return false;
        }
        i = i + 1;
    }
    assert(views(b@).subrange(0, a@.len() as int) =~= views(a@));
    true
}

/// Duplicates a key.
pub fn dup_key(k: &Vec<String>) -> (r: Vec<String>)
    ensures
        views(r@) == views(k@),
{
    let mut r: Vec<String> = Vec::new();
    let mut i: usize = 0;
    while i < k.len()
        invariant
            i <= k@.len(),
            views(r@) == views(k@).subrange(0, i as int),
        decreases k@.len() - i,
    {
        let ghost r0 = r@;
        let c = k[i].clone();
        r.push(c);
        proof {
            assert(r@ == r0.push(c));
            assert(views(r@) =~= views(r0).push(k@[i as int]@));
            assert(views(r@) =~= views(k@).subrange(0, i + 1));
        }
        i = i + 1;
    }
    proof {
        assert(views(k@).subrange(0, k@.len() as int) =~= views(k@));
    }
    r
}

impl Disk {
    /// Keys are distinct and the nodes form a tree.
    pub open spec fn wf(&self) -> bool {
        &&& distinct_keys(nev(self.nodes@))
        &&& tree_ok(self@.nodes)
    }

    /// A disk that holds the given directories, each with its ancestors.
    pub fn new(cwd: &str, os: Os) -> (r: Disk)
        ensures
            r.wf(),
            r@.cwd == cwd@,
            r@.os == os,
            r@.nodes == Map::<Key, NodeV>::empty(),
    {
        let r = Disk { cwd: owned(cwd), os, nodes: Vec::new() };
        assert(nev(r.nodes@) =~= Seq::<(Key, NodeV)>::empty());
        r
    }

    /// The position of a key.
    pub fn find(&self, k: &Vec<String>) -> (r: Option<usize>)
        requires
            self.wf(),
        ensures
            match r {
                Some(i) => i < self.nodes@.len() && nev(self.nodes@)[i as int].0 == views(k@)
                    && self@.nodes.contains_key(views(k@)) && self@.nodes[views(k@)] == self.nodes@[i as int].1@,
                None => !self@.nodes.contains_key(views(k@)),
            },
    {
        proof {
            lemma_seq_to_map(nev(self.nodes@));
        }
        let mut i: usize = 0;
        while i < self.nodes.len()
            invariant
                i <= self.nodes@.len(),
                self.wf(),
                forall|j: int| 0 <= j < i ==> nev(self.nodes@)[j].0 != views(k@),
            decreases self.nodes@.len() - i,
        {
            if keys_eq(&self.nodes[i].0, k) {
                proof {
                    assert(nev(self.nodes@)[i as int] == (views(self.nodes@[i as int].0@), self.nodes@[i as int].1@));
                    lemma_seq_to_map(nev(self.nodes@));
                }
                return Some(i);
            }
            i = i + 1;
        }
        None
    }

    /// The node at a key.
    pub fn node_at(&self, k: &Vec<String>) -> (r: Option<&Node>)
        requires
            self.wf(),
        ensures
            match r {
                Some(n) => self@.nodes.contains_key(views(k@)) && n@ == self@.nodes[views(k@)],
                None => !self@.nodes.contains_key(views(k@)),
            },
    {
        match self.find(k) {
            Some(i) => Some(&self.nodes[i].1),
            None => None,
        }
    }

    /// The key of a path.
    pub fn key_of(&self, p: &str) -> (r: Vec<String>)
        ensures
            views(r@) == self@.key(p@),
            forall|i: int| 0 <= i < r@.len() ==> is_name(#[trigger] r@[i]@),
    {
        let n = p.unicode_len();
        let own = components(p);
        proof {
            lemma_comps_normal(p@);
            lemma_comps_normal(self.cwd@);
            lemma_resolve_names(Seq::empty(), comps(self.cwd@));
        }
        let mut r: Vec<String> = Vec::new();
        proof {
            assert(views(r@) =~= Seq::<Seq<char>>::empty());
        }
        if !(n > 0 && p.get_char(0) == '/') {
            let c = components(self.cwd.as_str());
            resolve_into(&mut r, c);
        }
        proof {
            lemma_resolve_names(views(r@), comps(p@));
        }
        resolve_into(&mut r, own);
        proof {
            assert forall|i: int| 0 <= i < r@.len() implies is_name(#[trigger] r@[i]@) by {
                assert(r@[i]@ == views(r@)[i]);
            }
        }
        r
    }

    /// Whether something is at a key.
    pub fn exists_key(&self, k: &Vec<String>) -> (r: bool)
        requires
            self.wf(),
        ensures
            r == self@.exists_at(views(k@)),
    {
        k.len() == 0 || self.find(k).is_some()
    }

    /// Whether a directory is at a key.
    pub fn is_dir_key(&self, k: &Vec<String>) -> (r: bool)
        requires
            self.wf(),
        ensures
            r == self@.is_dir_at(views(k@)),
    {
        if k.len() == 0 {
            return true;
        }
        match self.node_at(k) {
            Some(Node::Dir) => true,
            _ => false,
        }
    }

    /// Puts a node at a key whose parent is a directory; a directory is only
    /// replaced by a directory.
    pub fn set_node(&mut self, k: Vec<String>, n: Node)
        requires
            old(self).wf(),
            k@.len() > 0,
            forall|i: int| 0 <= i < k@.len() ==> is_name(#[trigger] k@[i]@),
            old(self)@.is_dir_at(views(k@).drop_last()),
            old(self)@.nodes.contains_key(views(k@)) && old(self)@.nodes[views(k@)] is Dir ==> n@ is Dir,
        ensures
            final(self).wf(),
            final(self)@ == old(self)@.with_nodes(old(self)@.nodes.insert(views(k@), n@)),
    {
        proof {
            lemma_seq_to_map(nev(self.nodes@));
        }
        let ghost kv = views(k@);
        let ghost nv = n@;
        match self.find(&k) {
            Some(i) => {
                let ghost old_ev = nev(self.nodes@);
                self.nodes.set(i, (k, n));
                proof {
                    assert(nev(self.nodes@) =~= old_ev.update(i as int, (kv, nv)));
                    assert(distinct_keys(nev(self.nodes@))) by {
                        assert forall|a: int, b: int| 0 <= a < b < nev(self.nodes@).len() implies nev(self.nodes@)[a].0 != nev(self.nodes@)[b].0 by {
                            assert(old_ev[a].0 == nev(self.nodes@)[a].0);
                            assert(old_ev[b].0 == nev(self.nodes@)[b].0);
                        }
                    }
                    lemma_seq_to_map(nev(self.nodes@));
                    self.lemma_map_update(old_ev, i as int, kv, nv);
                }
            },
            None => {
                let ghost old_ev = nev(self.nodes@);
                self.nodes.push((k, n));
                proof {
                    assert(nev(self.nodes@) =~= old_ev.push((kv, nv)));
                    assert(nev(self.nodes@).drop_last() =~= old_ev);
                    assert(distinct_keys(nev(self.nodes@))) by {
                        assert forall|a: int, b: int| 0 <= a < b < nev(self.nodes@).len() implies nev(self.nodes@)[a].0 != nev(self.nodes@)[b].0 by {
                            if b == old_ev.len() {
                                assert(old_ev[a].0 == nev(self.nodes@)[a].0);
                            } else {
                                assert(old_ev[a] == nev(self.nodes@)[a]);
                                assert(old_ev[b] == nev(self.nodes@)[b]);
                            }
                        }
                    }
                }
            },
        }
        proof {
            let m = self@.nodes;
            let m0 = old(self)@.nodes;
            assert(m == m0.insert(kv, nv));
            assert forall|q: Key| #[trigger] m.contains_key(q) implies {
                &&& q.len() > 0
                &&& forall|i: int| 0 <= i < q.len() ==> is_name(#[trigger] q[i])
                &&& q.len() > 1 ==> m.contains_key(q.drop_last()) && m[q.drop_last()] is Dir
            } by {
                if q == kv {
                    assert forall|i: int| 0 <= i < q.len() implies is_name(#[trigger] q[i]) by {
                        assert(q[i] == k@[i]@);
                    }
                } else {
                    assert(m0.contains_key(q));
                    if q.len() > 1 {
                        assert(m0.contains_key(q.drop_last()));
                        if q.drop_last() == kv {
                            assert(m0[kv] is Dir);
                        }
                    }
                }
            }
        }
    }

    proof fn lemma_map_update(&self, old_ev: Seq<(Key, NodeV)>, i: int, kv: Key, nv: NodeV)
        requires
            distinct_keys(old_ev),
            0 <= i < old_ev.len(),
            old_ev[i].0 == kv,
            nev(self.nodes@) == old_ev.update(i, (kv, nv)),
            distinct_keys(nev(self.nodes@)),
        ensures
            self@.nodes == seq_to_map(old_ev).insert(kv, nv),
    {
        let ne = nev(self.nodes@);
        lemma_seq_to_map(old_ev);
        lemma_seq_to_map(ne);
        assert forall|q: Key| #[trigger] seq_to_map(ne).contains_key(q) <==> seq_to_map(old_ev).insert(kv, nv).contains_key(q) by {
            if seq_to_map(ne).contains_key(q) {
                let j = choose|j: int| 0 <= j < ne.len() && ne[j].0 == q;
                assert(old_ev[j].0 == q);
            }
            if seq_to_map(old_ev).contains_key(q) {
                let j = choose|j: int| 0 <= j < old_ev.len() && old_ev[j].0 == q;
                assert(ne[j].0 == q);
            }
            if q == kv {
                assert(ne[i].0 == kv);
            }
        }
        assert forall|q: Key| #[trigger] seq_to_map(ne).contains_key(q) implies seq_to_map(ne)[q] == seq_to_map(old_ev).insert(kv, nv)[q] by {
            let j = choose|j: int| 0 <= j < ne.len() && ne[j].0 == q;
            if j != i {
                assert(old_ev[j] == ne[j]);
            }
        }
        assert(seq_to_map(ne) =~= seq_to_map(old_ev).insert(kv, nv));
    }

    /// Keeps the nodes that a mask marks; the nodes dropped include every
    /// node below a dropped node.
    pub fn retain_mask(&mut self, mask: &Vec<bool>, Ghost(keep): Ghost<spec_fn(Key) -> bool>)
        requires
            old(self).wf(),
            mask@.len() == old(self).nodes@.len(),
            forall|i: int| 0 <= i < mask@.len() ==> mask@[i] == keep(#[trigger] nev(old(self).nodes@)[i].0),
            forall|q: Key| #[trigger] old(self)@.nodes.contains_key(q) && q.len() > 1 && !keep(q.drop_last()) ==> !keep(q),
        ensures
            final(self).wf(),
            final(self)@ == old(self)@.with_nodes(
                Map::new(|q: Key| old(self)@.nodes.contains_key(q) && keep(q), |q: Key| old(self)@.nodes[q]),
            ),
    {
        let ghost m0 = old(self)@.nodes;
        let mut old_nodes: Vec<(Vec<String>, Node)> = Vec::new();
        std::mem::swap(&mut old_nodes, &mut self.nodes);
        let ghost oev = nev(old_nodes@);
        proof {
            lemma_seq_to_map(oev);
            assert(nev(self.nodes@) =~= Seq::<(Key, NodeV)>::empty());
        }
        let mut i: usize = 0;
        while i < old_nodes.len()
            invariant
                i <= old_nodes@.len(),
                mask@.len() == old_nodes@.len(),
                oev == nev(old_nodes@),
                m0 == seq_to_map(oev),
                self.cwd == old(self).cwd,
                self.os == old(self).os,
                forall|j: int| 0 <= j < mask@.len() ==> mask@[j] == keep(#[trigger] oev[j].0),
                distinct_keys(oev),
                distinct_keys(nev(self.nodes@)),
                forall|q: Key| #[trigger] seq_to_map(nev(self.nodes@)).contains_key(q) <==>
                    (exists|j: int| 0 <= j < i && oev[j].0 == q) && keep(q),
                forall|j: int| 0 <= j < i && keep(oev[j].0) ==>
                    #[trigger] seq_to_map(nev(self.nodes@))[oev[j].0] == oev[j].1,
                forall|a: int| 0 <= a < nev(self.nodes@).len() ==> exists|j: int| 0 <= j < i && oev[j].0 == #[trigger] nev(self.nodes@)[a].0,
            decreases old_nodes@.len() - i,
        {
            let ghost key_i = oev[i as int].0;
            proof {
                assert(oev[i as int] == (views(old_nodes@[i as int].0@), old_nodes@[i as int].1@));
                assert(mask@[i as int] == keep(key_i));
                assert forall|j: int| 0 <= j < i implies oev[j].0 != key_i by {
                    assert(oev[j].0 != oev[i as int].0);
                }
            }
            if mask[i] {
                let kk = dup_key(&old_nodes[i].0);
                let nn = old_nodes[i].1.dup();
                let ghost before = nev(self.nodes@);
                proof {
                    lemma_seq_to_map(before);
                }
                self.nodes.push((kk, nn));
                proof {
                    let after = nev(self.nodes@);
                    assert(after =~= before.push(oev[i as int]));
                    assert(after.drop_last() =~= before);
                    assert(seq_to_map(after) == seq_to_map(before).insert(key_i, oev[i as int].1));
                    assert(distinct_keys(after)) by {
                        assert forall|a: int, b: int| 0 <= a < b < after.len() implies after[a].0 != after[b].0 by {
                            if b == before.len() {
                                assert(after[a] == before[a]);
                                let j = choose|j: int| 0 <= j < i && oev[j].0 == #[trigger] before[a].0;
                                assert(oev[j].0 != key_i);
                            } else {
                                assert(after[a] == before[a]);
                                assert(after[b] == before[b]);
                            }
                        }
                    }
                    assert forall|a: int| 0 <= a < after.len() implies exists|j: int| 0 <= j < i + 1 && oev[j].0 == #[trigger] after[a].0 by {
                        if a < before.len() {
                            assert(after[a] == before[a]);
                            let j = choose|j: int| 0 <= j < i && oev[j].0 == #[trigger] before[a].0;
                        } else {
                            assert(oev[i as int].0 == after[a].0);
                        }
                    }
                    assert forall|q: Key| #[trigger] seq_to_map(after).contains_key(q) <==>
                        (exists|j: int| 0 <= j < i + 1 && oev[j].0 == q) && keep(q) by {
                        if exists|j: int| 0 <= j < i + 1 && oev[j].0 == q {
                            let j = choose|j: int| 0 <= j < i + 1 && oev[j].0 == q;
                            if j < i && keep(q) {
                                assert(seq_to_map(before).contains_key(q));
                            }
                        }
                        if seq_to_map(after).contains_key(q) {
                            if q != key_i {
                                assert(seq_to_map(before).contains_key(q));
                                let j = choose|j: int| 0 <= j < i && oev[j].0 == q;
                                assert(0 <= j < i + 1 && oev[j].0 == q);
                            } else {
                                assert(0 <= i < i + 1 && oev[i as int].0 == q);
                            }
                        }
                    }
                    assert forall|j: int| 0 <= j < i + 1 && keep(oev[j].0) implies
                        #[trigger] seq_to_map(after)[oev[j].0] == oev[j].1 by {
                        if j < i {
                            assert(oev[j].0 != key_i);
                            assert(seq_to_map(before)[oev[j].0] == oev[j].1);
                        }
                    }
                }
            } else {
                proof {
                    let cur = nev(self.nodes@);
                    assert forall|q: Key| #[trigger] seq_to_map(cur).contains_key(q) <==>
                        (exists|j: int| 0 <= j < i + 1 && oev[j].0 == q) && keep(q) by {
                        if (exists|j: int| 0 <= j < i + 1 && oev[j].0 == q) && keep(q) {
                            let j = choose|j: int| 0 <= j < i + 1 && oev[j].0 == q;
                            if j == i {
                                assert(q == key_i);
                                assert(false);
                            }
                            assert(exists|j: int| 0 <= j < i && oev[j].0 == q);
                        }
                        if seq_to_map(cur).contains_key(q) {
                            let j = choose|j: int| 0 <= j < i && oev[j].0 == q;
                            assert(0 <= j < i + 1 && oev[j].0 == q);
                        }
                    }
                    assert forall|a: int| 0 <= a < cur.len() implies exists|j: int| 0 <= j < i + 1 && oev[j].0 == #[trigger] cur[a].0 by {
                        let j = choose|j: int| 0 <= j < i && oev[j].0 == #[trigger] cur[a].0;
                        assert(0 <= j < i + 1);
                    }
                    assert forall|j: int| 0 <= j < i + 1 && keep(oev[j].0) implies
                        #[trigger] seq_to_map(cur)[oev[j].0] == oev[j].1 by {
                        if j == i {
                            assert(false);
                        }
                    }
                }
            }
            i = i + 1;
        }
        proof {
            let m = self@.nodes;
            let target = Map::new(|q: Key| m0.contains_key(q) && keep(q), |q: Key| m0[q]);
            assert forall|q: Key| #[trigger] m.contains_key(q) <==> target.contains_key(q) by {
                if target.contains_key(q) {
                    let j = choose|j: int| 0 <= j < oev.len() && oev[j].0 == q;
                    assert(seq_to_map(nev(self.nodes@)).contains_key(q));
                }
                if m.contains_key(q) {
                    let j = choose|j: int| 0 <= j < old_nodes@.len() && oev[j].0 == q;
                    assert(seq_to_map(oev)[oev[j].0] == oev[j].1);
                }
            }
            assert forall|q: Key| #[trigger] m.contains_key(q) implies m[q] == target[q] by {
                let j = choose|j: int| 0 <= j < old_nodes@.len() && oev[j].0 == q;
                assert(seq_to_map(oev)[oev[j].0] == oev[j].1);
                assert(seq_to_map(nev(self.nodes@))[oev[j].0] == oev[j].1);
            }
            assert(m =~= target);
            assert forall|q: Key| #[trigger] m.contains_key(q) implies {
                &&& q.len() > 0
                &&& forall|i: int| 0 <= i < q.len() ==> is_name(#[trigger] q[i])
                &&& q.len() > 1 ==> m.contains_key(q.drop_last()) && m[q.drop_last()] is Dir
            } by {
                assert(m0.contains_key(q));
                if q.len() > 1 {
                    assert(m0.contains_key(q.drop_last()));
                }
            }
        }
    }

    /// Adds nodes at keys not yet present, keeping the tree well formed.
    pub fn append_nodes(&mut self, extra: Vec<(Vec<String>, Node)>)
        requires
            old(self).wf(),
            distinct_keys(nev(extra@)),
            forall|j: int| 0 <= j < extra@.len() ==> !old(self)@.nodes.contains_key(#[trigger] nev(extra@)[j].0),
            tree_ok(old(self)@.nodes.union_prefer_right(seq_to_map(nev(extra@)))),
        ensures
            final(self).wf(),
            final(self)@ == old(self)@.with_nodes(old(self)@.nodes.union_prefer_right(seq_to_map(nev(extra@)))),
    {
        let ghost m0 = old(self)@.nodes;
        let ghost xe = nev(extra@);
        let ghost oe = nev(self.nodes@);
        let mut extra = extra;
        proof {
            lemma_seq_to_map(oe);
            lemma_seq_to_map(xe);
        }
        self.nodes.append(&mut extra);
        proof {
            let ne = nev(self.nodes@);
            assert(ne =~= oe + xe);
            assert(distinct_keys(ne)) by {
                assert forall|a: int, b: int| 0 <= a < b < ne.len() implies ne[a].0 != ne[b].0 by {
                    if b < oe.len() {
                        assert(ne[a] == oe[a] && ne[b] == oe[b]);
                    } else if a >= oe.len() {
                        assert(ne[a] == xe[a - oe.len()] && ne[b] == xe[b - oe.len()]);
                    } else {
                        assert(ne[a] == oe[a] && ne[b] == xe[b - oe.len()]);
                        assert(m0.contains_key(oe[a].0));
                    }
                }
            }
            lemma_seq_to_map(ne);
            let target = m0.union_prefer_right(seq_to_map(xe));
            assert forall|q: Key| #[trigger] seq_to_map(ne).contains_key(q) <==> target.contains_key(q) by {
                if seq_to_map(ne).contains_key(q) {
                    let j = choose|j: int| 0 <= j < ne.len() && ne[j].0 == q;
                    if j < oe.len() {
                        assert(ne[j] == oe[j]);
                    } else {
                        assert(ne[j] == xe[j - oe.len()]);
                    }
                }
                if m0.contains_key(q) {
                    let j = choose|j: int| 0 <= j < oe.len() && oe[j].0 == q;
                    assert(ne[j] == oe[j]);
                }
                if seq_to_map(xe).contains_key(q) {
                    let j = choose|j: int| 0 <= j < xe.len() && xe[j].0 == q;
                    assert(ne[j + oe.len()] == xe[j]);
                }
            }
            assert forall|q: Key| #[trigger] seq_to_map(ne).contains_key(q) implies seq_to_map(ne)[q] == target[q] by {
                let j = choose|j: int| 0 <= j < ne.len() && ne[j].0 == q;
                if j < oe.len() {
                    assert(ne[j] == oe[j]);
                    if seq_to_map(xe).contains_key(q) {
                        let t = choose|t: int| 0 <= t < xe.len() && xe[t].0 == q;
                        assert(m0.contains_key(xe[t].0));
                    }
                } else {
                    assert(ne[j] == xe[j - oe.len()]);
                }
            }
            assert(seq_to_map(ne) =~= target);
        }
    }

    /// Removes everything at and below a key.
    pub fn remove_tree(&mut self, k: &Vec<String>)
        requires
            old(self).wf(),
        ensures
            final(self).wf(),
            final(self)@ == old(self)@.with_nodes(old(self)@.without_tree(views(k@))),
    {
        let ghost kv = views(k@);
        let ghost m0 = old(self)@.nodes;
        let mut old_nodes: Vec<(Vec<String>, Node)> = Vec::new();
        std::mem::swap(&mut old_nodes, &mut self.nodes);
        let ghost oev = nev(old_nodes@);
        proof {
            lemma_seq_to_map(oev);
        }
        let mut i: usize = 0;
        proof {
            assert(nev(self.nodes@) =~= Seq::<(Key, NodeV)>::empty());
        }
        while i < old_nodes.len()
            invariant
                i <= old_nodes@.len(),
                oev == nev(old_nodes@),
                kv == views(k@),
                self.cwd == old(self).cwd,
                self.os == old(self).os,
                distinct_keys(oev),
                distinct_keys(nev(self.nodes@)),
                forall|q: Key| #[trigger] seq_to_map(nev(self.nodes@)).contains_key(q) <==>
                    (exists|j: int| 0 <= j < i && oev[j].0 == q) && !is_prefix(kv, q),
                forall|j: int| 0 <= j < i && !is_prefix(kv, oev[j].0) ==>
                    #[trigger] seq_to_map(nev(self.nodes@))[oev[j].0] == oev[j].1,
                forall|a: int| 0 <= a < nev(self.nodes@).len() ==> exists|j: int| 0 <= j < i && oev[j].0 == #[trigger] nev(self.nodes@)[a].0,
            decreases old_nodes@.len() - i,
        {
            let keep = !key_is_prefix(k, &old_nodes[i].0);
            let ghost key_i = oev[i as int].0;
            proof {
                assert(oev[i as int] == (views(old_nodes@[i as int].0@), old_nodes@[i as int].1@));
                assert(keep == !is_prefix(kv, key_i));
                assert forall|j: int| 0 <= j < i implies oev[j].0 != key_i by {
                    assert(oev[j].0 != oev[i as int].0);
                }
            }
            if keep {
                let kk = dup_key(&old_nodes[i].0);
                let nn = old_nodes[i].1.dup();
                let ghost before = nev(self.nodes@);
                proof {
                    lemma_seq_to_map(before);
                }
                self.nodes.push((kk, nn));
                proof {
                    let after = nev(self.nodes@);
                    assert(after =~= before.push(oev[i as int]));
                    assert(after.drop_last() =~= before);
                    assert(seq_to_map(after) == seq_to_map(before).insert(key_i, oev[i as int].1));
                    assert(distinct_keys(after)) by {
                        assert forall|a: int, b: int| 0 <= a < b < after.len() implies after[a].0 != after[b].0 by {
                            if b == before.len() {
                                assert(after[a] == before[a]);
                                let j = choose|j: int| 0 <= j < i && oev[j].0 == #[trigger] before[a].0;
                                assert(oev[j].0 != key_i);
                            } else {
                                assert(after[a] == before[a]);
                                assert(after[b] == before[b]);
                            }
                        }
                    }
                    assert forall|a: int| 0 <= a < after.len() implies exists|j: int| 0 <= j < i + 1 && oev[j].0 == #[trigger] after[a].0 by {
                        if a < before.len() {
                            assert(after[a] == before[a]);
                            let j = choose|j: int| 0 <= j < i && oev[j].0 == #[trigger] before[a].0;
                        } else {
                            assert(oev[i as int].0 == after[a].0);
                        }
                    }
                    assert forall|q: Key| #[trigger] seq_to_map(after).contains_key(q) <==>
                        (exists|j: int| 0 <= j < i + 1 && oev[j].0 == q) && !is_prefix(kv, q) by {
                        if exists|j: int| 0 <= j < i + 1 && oev[j].0 == q {
                            let j = choose|j: int| 0 <= j < i + 1 && oev[j].0 == q;
                            if j < i && !is_prefix(kv, q) {
                                assert(seq_to_map(before).contains_key(q));
                            }
                        }
                        if seq_to_map(after).contains_key(q) {
                            if q != key_i {
                                assert(seq_to_map(before).contains_key(q));
                                let j = choose|j: int| 0 <= j < i && oev[j].0 == q;
                                assert(0 <= j < i + 1 && oev[j].0 == q);
                            } else {
                                assert(0 <= i < i + 1 && oev[i as int].0 == q);
                            }
                        }
                    }
                    assert forall|j: int| 0 <= j < i + 1 && !is_prefix(kv, oev[j].0) implies
                        #[trigger] seq_to_map(after)[oev[j].0] == oev[j].1 by {
                        if j < i {
                            assert(oev[j].0 != key_i);
                            assert(seq_to_map(before)[oev[j].0] == oev[j].1);
                        }
                    }
                }
            } else {
                proof {
                    let cur = nev(self.nodes@);
                    assert forall|q: Key| #[trigger] seq_to_map(cur).contains_key(q) <==>
                        (exists|j: int| 0 <= j < i + 1 && oev[j].0 == q) && !is_prefix(kv, q) by {
                        if (exists|j: int| 0 <= j < i + 1 && oev[j].0 == q) && !is_prefix(kv, q) {
                            let j = choose|j: int| 0 <= j < i + 1 && oev[j].0 == q;
                            if j == i {
                                assert(q == key_i);
                                assert(false);
                            }
                            assert(exists|j: int| 0 <= j < i && oev[j].0 == q);
                        }
                        if seq_to_map(cur).contains_key(q) {
                            let j = choose|j: int| 0 <= j < i && oev[j].0 == q;
                            assert(0 <= j < i + 1 && oev[j].0 == q);
                        }
                    }
                    assert forall|a: int| 0 <= a < cur.len() implies exists|j: int| 0 <= j < i + 1 && oev[j].0 == #[trigger] cur[a].0 by {
                        let j = choose|j: int| 0 <= j < i && oev[j].0 == #[trigger] cur[a].0;
                        assert(0 <= j < i + 1);
                    }
                    assert forall|j: int| 0 <= j < i + 1 && !is_prefix(kv, oev[j].0) implies
                        #[trigger] seq_to_map(cur)[oev[j].0] == oev[j].1 by {
                        if j == i {
                            assert(false);
                        }
                    }
                }
            }
            i = i + 1;
        }
        proof {
            let m = self@.nodes;
            let target = old(self)@.without_tree(kv);
            assert(m0 == seq_to_map(oev));
            assert forall|q: Key| #[trigger] m.contains_key(q) <==> target.contains_key(q) by {
                if target.contains_key(q) {
                    assert(seq_to_map(oev).contains_key(q));
                    let j = choose|j: int| 0 <= j < oev.len() && oev[j].0 == q;
                    assert(seq_to_map(nev(self.nodes@)).contains_key(q));
                }
                if m.contains_key(q) {
                    let j = choose|j: int| 0 <= j < old_nodes@.len() && oev[j].0 == q;
                    assert(seq_to_map(oev)[oev[j].0] == oev[j].1);
                    assert(m0.contains_key(q));
                }
            }
            assert forall|q: Key| #[trigger] m.contains_key(q) implies m[q] == target[q] by {
                let j = choose|j: int| 0 <= j < old_nodes@.len() && oev[j].0 == q;
                assert(seq_to_map(oev)[oev[j].0] == oev[j].1);
                assert(seq_to_map(nev(self.nodes@))[oev[j].0] == oev[j].1);
            }
            assert(m =~= target);
            assert forall|q: Key| #[trigger] m.contains_key(q) implies {
                &&& q.len() > 0
                &&& forall|i: int| 0 <= i < q.len() ==> is_name(#[trigger] q[i])
                &&& q.len() > 1 ==> m.contains_key(q.drop_last()) && m[q.drop_last()] is Dir
            } by {
                assert(m0.contains_key(q));
                if q.len() > 1 {
                    assert(m0.contains_key(q.drop_last()));
                    if is_prefix(kv, q.drop_last()) {
                        assert(q.subrange(0, kv.len() as int) =~= q.drop_last().subrange(0, kv.len() as int));
                        assert(is_prefix(kv, q));
                    }
                }
            }
        }
    }
}


/// Whether a name may be used on a platform. On Linux a name holds neither
/// `/` nor `:`, so that it can also be used on a Mac.
pub open spec fn name_valid(os: Os, name: Seq<char>) -> bool {
    match os {
        Os::Linux => !name.contains('/') && !name.contains(':'),
        Os::MacOs => !name.contains(':'),
        Os::Windows => !name.contains('<') && !name.contains('>') && !name.contains(':')
            && !name.contains('"') && !name.contains('/') && !name.contains('\\')
            && !name.contains('|') && !name.contains('?') && !name.contains('*'),
        Os::Other => true,
    }
}

pub(crate) fn is_name_valid(os: Os, name: &str) -> (r: bool)
    ensures
        r == name_valid(os, name@),
{
    match os {
        Os::Linux => !crate::strs::contains_char(name, '/') && !crate::strs::contains_char(name, ':'),
        Os::MacOs => !crate::strs::contains_char(name, ':'),
        Os::Windows => {
            !crate::strs::contains_char(name, '<') && !crate::strs::contains_char(name, '>')
                && !crate::strs::contains_char(name, ':') && !crate::strs::contains_char(name, '"')
                && !crate::strs::contains_char(name, '/') && !crate::strs::contains_char(name, '\\')
                && !crate::strs::contains_char(name, '|') && !crate::strs::contains_char(name, '?')
                && !crate::strs::contains_char(name, '*')
        },
        Os::Other => true,
    }
}

pub(crate) fn new_error(kind: IoKind, message: String) -> (r: Errors)
    ensures
        r == Errors::ErrIo(kind, message),
{
    Errors::ErrIo(kind, message)
}

/// A path with a name has a key that ends with it.
pub proof fn lemma_name_key(cwd: Seq<char>, p: Seq<char>)
    requires
        spec_get_name(p) is Some,
    ensures
        key(cwd, p).len() > 0,
        key(cwd, p).last() == spec_get_name(p)->0,
{
}

/// The nodes after creating a directory and its missing ancestors.
pub open spec fn with_dirs(m: Map<Key, NodeV>, k: Key) -> Map<Key, NodeV> {
    m.union_prefer_right(Map::new(|q: Key| 0 < q.len() && is_prefix(q, k), |q: Key| NodeV::Dir))
}

/// Some proper ancestor of a key is a file.
pub open spec fn blocked(d: DiskV, k: Key) -> bool {
    exists|j: int| 0 < j < k.len() && d.is_file_at(#[trigger] k.subrange(0, j))
}

/// `create_dir`: creates a directory and its missing ancestors.
pub open spec fn spec_create_dir(d: DiskV, p: Seq<char>) -> (DiskV, Result<(), ErrV>) {
    let k = d.key(p);
    if d.exists_at(k) {
        (d, io_e(IoKind::AlreadyExists))
    } else if !name_valid(d.os, spec_get_name(p)->0) {
        (d, io_e(IoKind::InvalidInput))
    } else if blocked(d, k) {
        (d, io_e(IoKind::UnexpectedEof))
    } else {
        (d.with_nodes(with_dirs(d.nodes, k)), Ok(()))
    }
}

/// `delete_dir`: removes a directory and everything below it.
pub open spec fn spec_delete_dir(d: DiskV, p: Seq<char>) -> (DiskV, Result<(), ErrV>) {
    let k = d.key(p);
    if !d.exists_at(k) {
        (d, io_e(IoKind::NotFound))
    } else if !name_valid(d.os, spec_get_name(p)->0) {
        (d, io_e(IoKind::InvalidInput))
    } else if d.is_file_at(k) {
        (d, io_e(IoKind::UnexpectedEof))
    } else {
        (d.with_nodes(d.without_tree(k)), Ok(()))
    }
}

/// `create_file`: creates an empty file.
pub open spec fn spec_create_file(d: DiskV, p: Seq<char>) -> (DiskV, Result<(), ErrV>) {
    let k = d.key(p);
    if d.exists_at(k) {
        (d, io_e(IoKind::AlreadyExists))
    } else if !name_valid(d.os, spec_get_name(p)->0) {
        (d, io_e(IoKind::InvalidInput))
    } else if !d.is_dir_at(k.drop_last()) {
        (d, io_e(IoKind::UnexpectedEof))
    } else {
        (d.with_nodes(d.nodes.insert(k, NodeV::File(Seq::empty()))), Ok(()))
    }
}

/// `delete_file`: removes a file.
pub open spec fn spec_delete_file(d: DiskV, p: Seq<char>) -> (DiskV, Result<(), ErrV>) {
    let k = d.key(p);
    if !d.exists_at(k) {
        (d, io_e(IoKind::NotFound))
    } else if !name_valid(d.os, spec_get_name(p)->0) {
        (d, io_e(IoKind::InvalidInput))
    } else if d.is_dir_at(k) {
        (d, io_e(IoKind::UnexpectedEof))
    } else {
        (d.with_nodes(d.nodes.remove(k)), Ok(()))
    }
}

/// `copy_file`: copies a file; copying a file onto itself empties it.
pub open spec fn spec_copy_file(d: DiskV, src: Seq<char>, dest: Seq<char>) -> (DiskV, Result<(), ErrV>) {
    let ks = d.key(src);
    let kd = d.key(dest);
    if src == dest {
        (d, io_e(IoKind::AlreadyExists))
    } else if !d.exists_at(ks) {
        (d, io_e(IoKind::NotFound))
    } else if !name_valid(d.os, spec_get_name(dest)->0) {
        (d, io_e(IoKind::InvalidInput))
    } else if !d.is_file_at(ks) || !d.is_dir_at(kd.drop_last()) || d.is_dir_at(kd) {
        (d, io_e(IoKind::UnexpectedEof))
    } else if ks == kd {
        (d.with_nodes(d.nodes.insert(kd, NodeV::File(Seq::empty()))), Ok(()))
    } else {
        (d.with_nodes(d.nodes.insert(kd, d.nodes[ks])), Ok(()))
    }
}

/// Writing a file node at a path.
pub open spec fn spec_write_node(d: DiskV, p: Seq<char>, n: NodeV) -> (DiskV, Result<(), ErrV>) {
    let k = d.key(p);
    if !name_valid(d.os, spec_get_name(p)->0) {
        (d, io_e(IoKind::InvalidInput))
    } else if !d.is_dir_at(k.drop_last()) || d.is_dir_at(k) {
        (d, io_e(IoKind::UnexpectedEof))
    } else {
        (d.with_nodes(d.nodes.insert(k, n)), Ok(()))
    }
}

/// `write_file`: writes a text, creating or truncating the file.
pub open spec fn spec_write_file(d: DiskV, p: Seq<char>, content: Seq<char>) -> (DiskV, Result<(), ErrV>) {
    spec_write_node(d, p, NodeV::File(content))
}

/// The file node at a path.
pub open spec fn spec_read_node(d: DiskV, p: Seq<char>) -> Result<NodeV, ErrV> {
    let k = d.key(p);
    if !d.exists_at(k) {
        io_e(IoKind::NotFound)
    } else if d.is_dir_at(k) {
        io_e(IoKind::UnexpectedEof)
    } else {
        Ok(d.nodes[k])
    }
}

/// `read_file_as_string`: the text of the file at a path.
pub open spec fn spec_read_file(d: DiskV, p: Seq<char>) -> Result<Seq<char>, ErrV> {
    match spec_read_node(d, p) {
        Ok(n) => Ok(node_text(n)),
        Err(e) => Err(e),
    }
}

/// `is_path_valid`: whether something is at a path.
pub open spec fn spec_is_path_valid(d: DiskV, p: Seq<char>) -> bool {
    d.exists_at(d.key(p))
}

/// Whether something is at a path (`Path::is_dir` or `Path::is_file`).
pub fn is_path_valid(disk: &Disk, path: &str) -> (r: bool)
    requires
        disk.wf(),
    ensures
        r == spec_is_path_valid(disk@, path@),
{
    let k = disk.key_of(path);
    disk.exists_key(&k)
}

pub(crate) fn prefix_key(k: &Vec<String>, j: usize) -> (r: Vec<String>)
    requires
        j <= k@.len(),
    ensures
        views(r@) == views(k@).subrange(0, j as int),
        r@.len() == j,
        forall|i: int| 0 <= i < j ==> r@[i]@ == k@[i]@,
{
    let mut r: Vec<String> = Vec::new();
    let mut i: usize = 0;
    while i < j
        invariant
            i <= j <= k@.len(),
            r@.len() == i,
            forall|a: int| 0 <= a < i ==> r@[a]@ == k@[a]@,
        decreases j - i,
    {
        r.push(k[i].clone());
        i = i + 1;
    }
    assert(views(r@) =~= views(k@).subrange(0, j as int));
    r
}

/// Directories at the nonempty prefixes of a key shorter than `j`.
pub open spec fn dirs_below(kv: Key, j: int) -> Map<Key, NodeV> {
    Map::new(|q: Key| 0 < q.len() < j && is_prefix(q, kv), |q: Key| NodeV::Dir)
}

proof fn lemma_dirs_step(d0: DiskV, d: DiskV, kv: Key, j: int)
    requires
        1 <= j <= kv.len(),
        !blocked(d0, kv),
        !d0.exists_at(kv),
        d.nodes == d0.nodes.union_prefer_right(dirs_below(kv, j)),
    ensures
        d.is_dir_at(kv.subrange(0, j).drop_last()),
        d.nodes.contains_key(kv.subrange(0, j)) ==> d.nodes[kv.subrange(0, j)] is Dir,
        d.nodes.contains_key(kv.subrange(0, j)) ==> d.nodes == d0.nodes.union_prefer_right(dirs_below(kv, j + 1)),
        d.nodes.insert(kv.subrange(0, j), NodeV::Dir) == d0.nodes.union_prefer_right(dirs_below(kv, j + 1)),
{
    let pv = kv.subrange(0, j);
    assert(pv.drop_last() =~= kv.subrange(0, j - 1));
    if j > 1 {
        let par = kv.subrange(0, j - 1);
        assert(is_prefix(par, kv));
        assert(dirs_below(kv, j).contains_key(par));
    }
    if d.nodes.contains_key(pv) {
        if j < kv.len() {
            assert(!d0.is_file_at(kv.subrange(0, j)));
        } else {
            assert(pv =~= kv);
        }
    }
    assert(is_prefix(pv, kv));
    assert forall|q: Key| 0 < q.len() < j + 1 && is_prefix(q, kv) && q.len() == j implies q == pv by {
        assert(q =~= kv.subrange(0, j));
    }
    if d.nodes.contains_key(pv) {
        assert(d.nodes =~= d0.nodes.union_prefer_right(dirs_below(kv, j + 1)));
    }
    assert(d.nodes.insert(pv, NodeV::Dir) =~= d0.nodes.union_prefer_right(dirs_below(kv, j + 1)));
}

#[verifier::rlimit(100)]
fn make_dirs(disk: &mut Disk, k: &Vec<String>)
    requires
        old(disk).wf(),
        k@.len() > 0,
        forall|i: int| 0 <= i < k@.len() ==> is_name(#[trigger] k@[i]@),
        !blocked(old(disk)@, views(k@)),
        !old(disk)@.exists_at(views(k@)),
    ensures
        final(disk).wf(),
        final(disk)@ == old(disk)@.with_nodes(with_dirs(old(disk)@.nodes, views(k@))),
{
    let n = k.len();
    let ghost kv = views(k@);
    let ghost d0 = disk@;
    let mut i: usize = 0;
    proof {
        assert(d0.nodes.union_prefer_right(dirs_below(kv, 1)) =~= d0.nodes);
    }
    while i < n
        invariant
            disk.wf(),
            disk@.cwd == d0.cwd,
            disk@.os == d0.os,
            0 <= i <= n,
            n == k@.len(),
            kv == views(k@),
            forall|a: int| 0 <= a < k@.len() ==> is_name(#[trigger] k@[a]@),
            !blocked(d0, kv),
            !d0.exists_at(kv),
            disk@.nodes == d0.nodes.union_prefer_right(dirs_below(kv, i + 1)),
        decreases n - i,
    {
        let pk = prefix_key(&k, i + 1);
        let ghost pv = views(pk@);
        proof {
            lemma_dirs_step(d0, disk@, kv, i + 1);
            assert(pv == kv.subrange(0, i + 1));
        }
        if !disk.exists_key(&pk) {
            proof {
                assert forall|a: int| 0 <= a < pk@.len() implies is_name(#[trigger] pk@[a]@) by {
                    assert(pk@[a]@ == k@[a]@);
                }
            }
            disk.set_node(pk, Node::Dir);
        }
        i = i + 1;
    }
    proof {
        assert(dirs_below(kv, n + 1) =~= Map::new(|q: Key| 0 < q.len() && is_prefix(q, kv), |q: Key| NodeV::Dir));
    }
}

/// Creates a directory together with its missing ancestors. Fails when
/// something is already there, when the name holds a character that the
/// platform forbids, or when an ancestor is a file.
pub fn create_dir(disk: &mut Disk, path: &str) -> (r: Result<(), Errors>)
    requires
        old(disk).wf(),
        spec_get_name(path@) is Some,
    ensures
        final(disk).wf(),
        (final(disk)@, unit_v(r)) == spec_create_dir(old(disk)@, path@),
{
    let folder_name = get_name(path).unwrap();
    let k = disk.key_of(path);
    proof {
        lemma_name_key(disk@.cwd, path@);
    }
    if disk.exists_key(&k) {
        return Err(new_error(IoKind::AlreadyExists, crate::strs::concat3("create_dir: directory(", folder_name.as_str(), ") already exist")));
    } else if !is_name_valid(disk.os, folder_name.as_str()) {
        return Err(new_error(IoKind::InvalidInput, crate::strs::concat3("create_dir: name(", folder_name.as_str(), ") contains forbidden character(s)")));
    }
    let n = k.len();
    let mut j: usize = 1;
    while j < n
        invariant
            disk.wf(),
            disk@ == old(disk)@,
            1 <= j <= n == k@.len(),
            views(k@) == old(disk)@.key(path@),
            !old(disk)@.exists_at(views(k@)),
            name_valid(old(disk)@.os, spec_get_name(path@)->0),
            forall|a: int| 0 < a < j ==> !disk@.is_file_at(#[trigger] views(k@).subrange(0, a)),
        decreases n - j,
    {
        let pk = prefix_key(&k, j);
        let is_dir = disk.is_dir_key(&pk);
        let exists = disk.exists_key(&pk);
        if exists && !is_dir {
            proof {
                assert(disk@.is_file_at(views(k@).subrange(0, j as int)));
                assert(blocked(disk@, views(k@)));
                assert(!old(disk)@.exists_at(old(disk)@.key(path@)));
                assert(name_valid(old(disk)@.os, spec_get_name(path@)->0));
                assert(blocked(old(disk)@, old(disk)@.key(path@)));
            }
            return Err(new_error(IoKind::UnexpectedEof, owned("create_dir: unknown error when creating directory")));
        }
        j = j + 1;
    }
    proof {
        assert(!blocked(disk@, views(k@)));
    }
    make_dirs(disk, &k);
    Ok(())
}


/// Removes a directory and everything below it. Fails when nothing is
/// there, when the name holds a forbidden character, or when it is a file.
pub fn delete_dir(disk: &mut Disk, path: &str) -> (r: Result<(), Errors>)
    requires
        old(disk).wf(),
        spec_get_name(path@) is Some,
    ensures
        final(disk).wf(),
        (final(disk)@, unit_v(r)) == spec_delete_dir(old(disk)@, path@),
{
    let folder_name = get_name(path).unwrap();
    let k = disk.key_of(path);
    proof {
        lemma_name_key(disk@.cwd, path@);
    }
    if !disk.exists_key(&k) {
        return Err(new_error(IoKind::NotFound, crate::strs::concat3("delete_dir: directory(", folder_name.as_str(), ") does not exist")));
    } else if !is_name_valid(disk.os, folder_name.as_str()) {
        return Err(new_error(IoKind::InvalidInput, crate::strs::concat3("delete_dir: name(", folder_name.as_str(), ") contains forbidden character(s)")));
    }
    if !disk.is_dir_key(&k) {
        return Err(new_error(IoKind::UnexpectedEof, owned("delete_dir: unknown error when deleting directory")));
    }
    disk.remove_tree(&k);
    Ok(())
}

/// Creates an empty file. Fails when something is already there, when the
/// name holds a forbidden character, or when the parent is not a directory.
pub fn create_file(disk: &mut Disk, path: &str) -> (r: Result<(), Errors>)
    requires
        old(disk).wf(),
        spec_get_name(path@) is Some,
    ensures
        final(disk).wf(),
        (final(disk)@, unit_v(r)) == spec_create_file(old(disk)@, path@),
{
    let file_name = get_name(path).unwrap();
    let k = disk.key_of(path);
    proof {
        lemma_name_key(disk@.cwd, path@);
    }
    if disk.exists_key(&k) {
        return Err(new_error(IoKind::AlreadyExists, crate::strs::concat3("create_file: file(", file_name.as_str(), ") already exist")));
    } else if !is_name_valid(disk.os, file_name.as_str()) {
        return Err(new_error(IoKind::InvalidInput, crate::strs::concat3("create_file: name(", file_name.as_str(), ") contains forbidden character(s)")));
    }
    let pk = prefix_key(&k, k.len() - 1);
    proof {
        assert(views(pk@) == views(k@).drop_last());
    }
    if !disk.is_dir_key(&pk) {
        return Err(new_error(IoKind::UnexpectedEof, owned("create_file: unknown error when creating file")));
    }
    disk.set_node(k, Node::File(String::new()));
    Ok(())
}

/// Removes a file. Fails when nothing is there, when the name holds a
/// forbidden character, or when it is a directory.
pub fn delete_file(disk: &mut Disk, path: &str) -> (r: Result<(), Errors>)
    requires
        old(disk).wf(),
        spec_get_name(path@) is Some,
    ensures
        final(disk).wf(),
        (final(disk)@, unit_v(r)) == spec_delete_file(old(disk)@, path@),
{
    let file_name = get_name(path).unwrap();
    let k = disk.key_of(path);
    proof {
        lemma_name_key(disk@.cwd, path@);
    }
    if !disk.exists_key(&k) {
        return Err(new_error(IoKind::NotFound, crate::strs::concat3("delete_file: file(", file_name.as_str(), ") does not exist")));
    } else if !is_name_valid(disk.os, file_name.as_str()) {
        return Err(new_error(IoKind::InvalidInput, crate::strs::concat3("delete_file: name(", file_name.as_str(), ") contains forbidden character(s)")));
    }
    if disk.is_dir_key(&k) {
        return Err(new_error(IoKind::UnexpectedEof, owned("delete_file: unknown error when creating file")));
    }
    let ghost kv = views(k@);
    disk.remove_tree(&k);
    proof {
        assert forall|q: Key| old(disk)@.nodes.contains_key(q) && is_prefix(kv, q) implies q == kv by {
            lemma_file_no_children(old(disk)@.nodes, kv, q);
        }
        assert(disk@.nodes =~= old(disk)@.nodes.remove(kv)) by {
            assert(is_prefix(kv, kv)) by {
                assert(kv.subrange(0, kv.len() as int) =~= kv);
            }
        }
    }
    Ok(())
}

/// Copies a file. Fails when the two paths are the same text, when the
/// source is missing, when the target name holds a forbidden character, or
/// when the source is not a file, the target's parent not a directory or the
/// target a directory. Copying a file onto itself under another path leaves
/// it empty.
pub fn copy_file(disk: &mut Disk, src: &str, dest: &str) -> (r: Result<(), Errors>)
    requires
        old(disk).wf(),
        spec_get_name(dest@) is Some,
    ensures
        final(disk).wf(),
        (final(disk)@, unit_v(r)) == spec_copy_file(old(disk)@, src@, dest@),
{
    let file_name = get_name(dest).unwrap();
    let ks = disk.key_of(src);
    let kd = disk.key_of(dest);
    proof {
        lemma_name_key(disk@.cwd, dest@);
    }
    if str_eq(src, dest) {
        return Err(new_error(IoKind::AlreadyExists, owned("copy_file: src & dest are the same")));
    } else if !disk.exists_key(&ks) {
        return Err(new_error(IoKind::NotFound, owned("copy_file: source file does not exist")));
    } else if !is_name_valid(disk.os, file_name.as_str()) {
        return Err(new_error(IoKind::InvalidInput, crate::strs::concat3("copy_file: source file name(", file_name.as_str(), ") contains forbidden character(s)")));
    }
    let pk = prefix_key(&kd, kd.len() - 1);
    proof {
        assert(views(pk@) == views(kd@).drop_last());
    }
    let src_is_file = ks.len() > 0 && !disk.is_dir_key(&ks);
    if !src_is_file || !disk.is_dir_key(&pk) || disk.is_dir_key(&kd) {
        return Err(new_error(IoKind::UnexpectedEof, owned("copy_file: unknown error when copying file")));
    }
    if keys_eq(&ks, &kd) {
        disk.set_node(kd, Node::File(String::new()));
    } else {
        let n = disk.node_at(&ks).unwrap().dup();
        disk.set_node(kd, n);
    }
    Ok(())
}

/// Writes a file node at a path.
pub fn write_node(disk: &mut Disk, path: &str, node: Node) -> (r: Result<(), Errors>)
    requires
        old(disk).wf(),
        spec_get_name(path@) is Some,
        !(node@ is Dir),
    ensures
        final(disk).wf(),
        (final(disk)@, unit_v(r)) == spec_write_node(old(disk)@, path@, node@),
{
    let file_name = get_name(path).unwrap();
    let k = disk.key_of(path);
    proof {
        lemma_name_key(disk@.cwd, path@);
    }
    if !is_name_valid(disk.os, file_name.as_str()) {
        return Err(new_error(IoKind::InvalidInput, crate::strs::concat3("write_file: name(", file_name.as_str(), ") contains forbidden character(s)")));
    }
    let pk = prefix_key(&k, k.len() - 1);
    proof {
        assert(views(pk@) == views(k@).drop_last());
    }
    if !disk.is_dir_key(&pk) || disk.is_dir_key(&k) {
        return Err(new_error(IoKind::UnexpectedEof, owned("write_file: unknown error when writing file")));
    }
    disk.set_node(k, node);
    Ok(())
}

/// Writes a text to a file, creating or truncating it. Fails when the name
/// holds a forbidden character, when the parent is not a directory or when
/// the path is a directory.
pub fn write_file(disk: &mut Disk, path: &str, content: &str) -> (r: Result<(), Errors>)
    requires
        old(disk).wf(),
        spec_get_name(path@) is Some,
    ensures
        final(disk).wf(),
        (final(disk)@, unit_v(r)) == spec_write_file(old(disk)@, path@, content@),
{
    write_node(disk, path, Node::File(owned(content)))
}

/// The file node at a path.
pub fn read_node<'a>(disk: &'a Disk, path: &str) -> (r: Result<&'a Node, Errors>)
    requires
        disk.wf(),
        spec_get_name(path@) is Some,
    ensures
        match r {
            Ok(n) => spec_read_node(disk@, path@) == Ok::<NodeV, ErrV>(n@),
            Err(e) => spec_read_node(disk@, path@) == Err::<NodeV, ErrV>(crate::ui::err_v(e)),
        },
{
    let file_name = get_name(path).unwrap();
    let k = disk.key_of(path);
    proof {
        lemma_name_key(disk@.cwd, path@);
    }
    if !disk.exists_key(&k) {
        return Err(new_error(IoKind::NotFound, crate::strs::concat3("read_file_as_string: file(", file_name.as_str(), ") does not exist")));
    }
    if disk.is_dir_key(&k) {
        return Err(new_error(IoKind::UnexpectedEof, owned("read_file_as_string: unknown error when reading file")));
    }
    Ok(disk.node_at(&k).unwrap())
}

/// The text of the file at a path. Fails when nothing is there or it is a
/// directory.
pub fn read_file_as_string(disk: &Disk, path: &str) -> (r: Result<String, Errors>)
    requires
        disk.wf(),
        spec_get_name(path@) is Some,
    ensures
        str_v(r) == spec_read_file(disk@, path@),
{
    match read_node(disk, path) {
        Ok(n) => Ok(text_of(n)),
        Err(e) => Err(e),
    }
}

/// What the tool asks of a path's metadata: whether it is a directory.
pub struct Metadata {
    pub dir: bool,
}

impl Metadata {
    pub fn is_dir(&self) -> (r: bool)
        ensures
            r == self.dir,
    {
        self.dir
    }

    pub fn is_file(&self) -> (r: bool)
        ensures
            r == !self.dir,
    {
        !self.dir
    }
}

/// `get_metadata`: whether the path is a directory.
pub open spec fn spec_get_metadata(d: DiskV, p: Seq<char>) -> Result<bool, ErrV> {
    if !d.exists_at(d.key(p)) {
        io_e(IoKind::NotFound)
    } else {
        Ok(d.is_dir_at(d.key(p)))
    }
}

/// The metadata of the path. Fails when nothing is there.
pub fn get_metadata(disk: &Disk, path: &str) -> (r: Result<Metadata, Errors>)
    requires
        disk.wf(),
        spec_get_name(path@) is Some,
    ensures
        match r {
            Ok(m) => spec_get_metadata(disk@, path@) == Ok::<bool, ErrV>(m.dir),
            Err(e) => spec_get_metadata(disk@, path@) == Err::<bool, ErrV>(crate::ui::err_v(e)),
        },
{
    let file_name = get_name(path).unwrap();
    let k = disk.key_of(path);
    if !disk.exists_key(&k) {
        return Err(new_error(IoKind::NotFound, crate::strs::concat3("get_metadata: file(", file_name.as_str(), ") does not exist")));
    }
    Ok(Metadata { dir: disk.is_dir_key(&k) })
}

/// The working directory of the process.
pub fn get_wd_path(disk: &Disk) -> (r: String)
    ensures
        r@ == disk@.cwd,
{
    disk.cwd.clone()
}


/// A user by id and the account name found for it; when no account has
/// that id, the id in decimal stands for the name.
pub fn user_or_id(user_id: u32, account: Option<String>) -> (r: (u32, String))
    ensures
        r.0 == user_id,
        r.1@ == match account {
            Some(name) => name@,
            None => crate::json::dec(user_id as nat),
        },
{
    match account {
        Some(name) => (user_id, name),
        None => {
            let mut name = String::new();
            crate::json::push_dec(&mut name, user_id as u64);
            proof {
                assert(name@ =~= crate::json::dec(user_id as nat));
            }
            (user_id, name)
        },
    }
}

/// The id and account name of the user running the process; when no
/// account has that id, the id in decimal stands for the name. Which user
/// that is, and what the account database holds, the process and the system
/// decide.
pub fn get_user() -> (r: (u32, String)) {
    let user_id = crate::outside::current_uid();
    let account = crate::outside::user_name_by_uid(user_id);
    user_or_id(user_id, account)
}

} // verus!
