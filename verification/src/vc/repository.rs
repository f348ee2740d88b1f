//! The repository: branch heads, the current head, the stage, and the paths
//! of its storage.
use vstd::prelude::*;
pub mod locate;
pub mod store;
pub mod staging;
pub mod commit;
pub mod sync;
use crate::strmap::{StrMap, Dup, seq_to_map, distinct_keys};
use crate::vc::file::{ItemInfo, ItemInfoV};
use crate::vc::revision::{ov, dup_opt};
use crate::vc::file::{named, dvcs_files};
use crate::path::is_abs;
use crate::path::{spec_path_compose, path_compose, is_name, lemma_name_compose};

verus! {

/// Changes waiting for the next commit.
pub struct Stage {
    pub to_add: StrMap<ItemInfo>,
    pub to_remove: StrMap<ItemInfo>,
}

/// The view of a [`Stage`].
pub struct StageV {
    pub to_add: Seq<(Seq<char>, ItemInfoV)>,
    pub to_remove: Seq<(Seq<char>, ItemInfoV)>,
}

impl View for Stage {
    type V = StageV;

    open spec fn view(&self) -> StageV {
        StageV { to_add: self.to_add.ev(), to_remove: self.to_remove.ev() }
    }
}

impl StageV {
    pub open spec fn wf(self) -> bool {
        distinct_keys(self.to_add) && distinct_keys(self.to_remove)
    }

    pub open spec fn add_map(self) -> Map<Seq<char>, ItemInfoV> {
        seq_to_map(self.to_add)
    }

    pub open spec fn remove_map(self) -> Map<Seq<char>, ItemInfoV> {
        seq_to_map(self.to_remove)
    }
}

impl Stage {
    /// The items waiting to be added, by path.
    pub fn get_add(&self) -> (r: &StrMap<ItemInfo>)
        ensures
            r.ev() == self@.to_add,
    {
        &self.to_add
    }

    /// The items waiting to be removed, by path.
    pub fn get_remove(&self) -> (r: &StrMap<ItemInfo>)
        ensures
            r.ev() == self@.to_remove,
    {
        &self.to_remove
    }

    /// Whether nothing waits to be added or removed.
    pub fn is_empty(&self) -> (r: bool)
        requires
            self@.wf(),
        ensures
            r == (self@.add_map().len() == 0 && self@.remove_map().len() == 0),
            r == (self@.add_map() == Map::<Seq<char>, ItemInfoV>::empty() && self@.remove_map() == Map::<
                Seq<char>,
                ItemInfoV,
            >::empty()),
    {
        self.to_add.is_empty() && self.to_remove.is_empty()
    }

    /// Drops everything that waits.
    pub fn clear(&mut self)
        ensures
            final(self)@.wf(),
            final(self)@.to_add == Seq::<(Seq<char>, ItemInfoV)>::empty(),
            final(self)@.to_remove == Seq::<(Seq<char>, ItemInfoV)>::empty(),
    {
        self.to_add.clear();
        self.to_remove.clear();
    }

    /// A stage where nothing waits.
    pub fn new() -> (r: Stage)
        ensures
            r@.wf(),
            r@.to_add == Seq::<(Seq<char>, ItemInfoV)>::empty(),
            r@.to_remove == Seq::<(Seq<char>, ItemInfoV)>::empty(),
    {
        Stage { to_add: StrMap::new(), to_remove: StrMap::new() }
    }
}

impl Dup for Stage {
    fn dup(&self) -> (r: Self) {
        Stage { to_add: self.to_add.dup_map(), to_remove: self.to_remove.dup_map() }
    }
}

/// Where a repository keeps its data.
pub struct RepoPaths {
    pub wd: String,
    pub root: String,
    pub files: String,
    pub revs: String,
    pub repos: String,
}

/// The view of a [`RepoPaths`].
pub struct RepoPathsV {
    pub wd: Seq<char>,
    pub root: Seq<char>,
    pub files: Seq<char>,
    pub revs: Seq<char>,
    pub repos: Seq<char>,
}

impl View for RepoPaths {
    type V = RepoPathsV;

    open spec fn view(&self) -> RepoPathsV {
        RepoPathsV { wd: self.wd@, root: self.root@, files: self.files@, revs: self.revs@, repos: self.repos@ }
    }
}

/// `.dvcs`, `files`, `revs` and `repos`.
pub open spec fn dvcs_name() -> Seq<char> {
    seq!['.', 'd', 'v', 'c', 's']
}

pub open spec fn files_name() -> Seq<char> {
    seq!['f', 'i', 'l', 'e', 's']
}

pub open spec fn revs_name() -> Seq<char> {
    seq!['r', 'e', 'v', 's']
}

pub open spec fn repos_name() -> Seq<char> {
    seq!['r', 'e', 'p', 'o', 's']
}

/// The paths of the repository whose working directory is `wd`: its data
/// directory `.dvcs`, and in it the content store `files`, the revisions
/// `revs` and the record `repos`.
pub open spec fn spec_repo_paths(wd: Seq<char>) -> RepoPathsV {
    let root = spec_path_compose(wd, dvcs_name());
    RepoPathsV {
        wd,
        root,
        files: spec_path_compose(root, files_name()),
        revs: spec_path_compose(root, revs_name()),
        repos: spec_path_compose(root, repos_name()),
    }
}

/// The paths of a repository all end in a name.
pub proof fn lemma_paths_named(wd: Seq<char>)
    ensures
        named(spec_repo_paths(wd).root),
        named(spec_repo_paths(wd).files),
        named(spec_repo_paths(wd).revs),
        named(spec_repo_paths(wd).repos),
        is_name(dvcs_name()),
        is_name(files_name()),
        is_name(revs_name()),
        is_name(repos_name()),
{
    assert(!dvcs_name().contains('/')) by {
        if dvcs_name().contains('/') {
            let i = choose|i: int| 0 <= i < dvcs_name().len() && dvcs_name()[i] == '/';
        }
    }
    assert(!files_name().contains('/')) by {
        if files_name().contains('/') {
            let i = choose|i: int| 0 <= i < files_name().len() && files_name()[i] == '/';
        }
    }
    assert(!revs_name().contains('/')) by {
        if revs_name().contains('/') {
            let i = choose|i: int| 0 <= i < revs_name().len() && revs_name()[i] == '/';
        }
    }
    assert(!repos_name().contains('/')) by {
        if repos_name().contains('/') {
            let i = choose|i: int| 0 <= i < repos_name().len() && repos_name()[i] == '/';
        }
    }
    assert(dvcs_name() != seq!['.', '.']) by {
        assert(dvcs_name().len() != 2);
    }
    let root = spec_path_compose(wd, dvcs_name());
    lemma_name_compose(wd, dvcs_name());
    lemma_name_compose(root, files_name());
    lemma_name_compose(root, revs_name());
    lemma_name_compose(root, repos_name());
}

/// The content store of a repository is at `.dvcs/files` below its working
/// directory.
pub proof fn lemma_store_path(wd: Seq<char>)
    ensures
        spec_path_compose(wd, dvcs_files()) == spec_repo_paths(wd).files,
{
    let root = spec_path_compose(wd, dvcs_name());
    assert(dvcs_files() =~= dvcs_name() + seq!['/'] + files_name());
    assert(!is_abs(dvcs_files()) && !is_abs(dvcs_name()) && !is_abs(files_name()));
    assert(root.len() > 0 && root.last() != '/') by {
        assert(root.last() == dvcs_name().last());
    }
    if wd.len() > 0 && wd.last() != '/' {
        assert(spec_path_compose(wd, dvcs_files()) =~= spec_path_compose(root, files_name()));
    } else {
        assert(spec_path_compose(wd, dvcs_files()) =~= spec_path_compose(root, files_name()));
    }
}

impl RepoPaths {
    /// The paths of the repository whose working directory is `wd`.
    pub fn new(wd: &str) -> (r: RepoPaths)
        ensures
            r@ == spec_repo_paths(wd@),
    {
        let root = path_compose(wd, ".dvcs");
        let files = path_compose(root.as_str(), "files");
        let revs = path_compose(root.as_str(), "revs");
        let repos = path_compose(root.as_str(), "repos");
        proof {
            reveal_strlit(".dvcs");
            reveal_strlit("files");
            reveal_strlit("revs");
            reveal_strlit("repos");
            assert(".dvcs"@ =~= dvcs_name());
            assert("files"@ =~= files_name());
            assert("revs"@ =~= revs_name());
            assert("repos"@ =~= repos_name());
        }
        RepoPaths { wd: crate::strs::owned(wd), root, files, revs, repos }
    }
}

impl Dup for RepoPaths {
    fn dup(&self) -> (r: Self) {
        RepoPaths {
            wd: self.wd.clone(),
            root: self.root.clone(),
            files: self.files.clone(),
            revs: self.revs.clone(),
            repos: self.repos.clone(),
        }
    }
}

/// A repository.
pub struct Repo {
    /// The alias of the branch that is checked out.
    pub current_head: Option<String>,
    /// Revision ids by branch alias.
    pub branch_heads: StrMap<String>,
    pub paths: RepoPaths,
    pub stage: Stage,
}

/// The view of a [`Repo`].
pub struct RepoV {
    pub current_head: Option<Seq<char>>,
    pub branch_heads: Seq<(Seq<char>, Seq<char>)>,
    pub paths: RepoPathsV,
    pub stage: StageV,
}

impl View for Repo {
    type V = RepoV;

    open spec fn view(&self) -> RepoV {
        RepoV {
            current_head: ov(self.current_head),
            branch_heads: self.branch_heads.ev(),
            paths: self.paths@,
            stage: self.stage@,
        }
    }
}

impl RepoV {
    /// Branch aliases and staged paths are distinct, and the paths are
    /// those of the working directory.
    pub open spec fn wf(self) -> bool {
        &&& distinct_keys(self.branch_heads)
        &&& self.stage.wf()
        &&& self.paths == spec_repo_paths(self.paths.wd)
    }

    pub open spec fn heads(self) -> Map<Seq<char>, Seq<char>> {
        seq_to_map(self.branch_heads)
    }
}

impl Repo {
    /// The revision ids by branch alias.
    pub fn get_heads(&self) -> (r: &StrMap<String>)
        ensures
            r.ev() == self@.branch_heads,
    {
        &self.branch_heads
    }

    /// The changes waiting for the next commit.
    pub fn get_stage(&self) -> (r: &Stage)
        ensures
            r@ == self@.stage,
    {
        &self.stage
    }

    /// The alias of the branch that is checked out.
    pub fn get_current_head_alias(&self) -> (r: Option<&str>)
        ensures
            match r {
                Some(s) => self@.current_head == Some(s@),
                None => self@.current_head is None,
            },
    {
        match &self.current_head {
            Some(s) => Some(s.as_str()),
            None => None,
        }
    }
}

impl Dup for Repo {
    fn dup(&self) -> (r: Self) {
        Repo {
            current_head: dup_opt(&self.current_head),
            branch_heads: self.branch_heads.dup_map(),
            paths: self.paths.dup(),
            stage: self.stage.dup(),
        }
    }
}

} // verus!
