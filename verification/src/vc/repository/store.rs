//! Creating, loading and saving a repository, reading its revisions and
//! stored contents, and moving its heads.
use vstd::prelude::*;
use crate::vc::repository::{Repo, RepoV, RepoPaths, RepoPathsV, Stage, StageV, spec_repo_paths, lemma_paths_named};
use crate::vc::repository::locate::{spec_check_wd, check_wd};
use crate::vc::revision::{Rev, RevV, spec_rev_from, ov};
use crate::vc::file::{ItemInfo, ItemInfoV, EntryV, spec_file_id, named, is_named, unnamed_error};
use crate::dsr::{Disk, DiskV, Key, Node, NodeV, spec_write_node, write_node, spec_read_node, read_node, spec_is_path_valid, is_path_valid, spec_read_file, read_file_as_string, spec_copy_file, copy_file, spec_create_dir, create_dir, get_wd_path};
use crate::path::{spec_path_compose, path_compose};
use crate::ui::{Errors, ErrV, IoKind, io_e, static_e, err_v, unit_v, str_v};
use crate::strmap::{StrMap, Dup, seq_to_map, distinct_keys, ev_insert};
use crate::strs::{owned, concat, concat3};

verus! {

/// Writing the repository record to its place.
pub open spec fn spec_repo_save(d: DiskV, r: RepoV) -> (DiskV, Result<(), ErrV>) {
    spec_write_node(d, r.paths.repos, NodeV::Repo(r))
}

/// `load`: the repository that holds `wd`, with the paths of the directory
/// where it was found.
pub open spec fn spec_load(d: DiskV, wd: Seq<char>) -> Result<RepoV, ErrV> {
    match spec_check_wd(d, wd) {
        None => Err(ErrV::Str("Directory untracked, fail to locate repository"@)),
        Some(w) => {
            let paths = spec_repo_paths(w);
            match spec_read_node(d, paths.repos) {
                Err(e) => Err(e),
                Ok(n) => match n {
                    NodeV::Repo(r) => if distinct_keys(r.branch_heads) && r.stage.wf() {
                        Ok(RepoV { paths, ..r })
                    } else {
                        Err(ErrV::Serde)
                    },
                    _ => Err(ErrV::Serde),
                },
            }
        },
    }
}

/// A repository with no branch, nothing staged, and the given paths.
pub open spec fn fresh_repo(paths: RepoPathsV) -> RepoV {
    RepoV {
        current_head: None,
        branch_heads: Seq::empty(),
        paths,
        stage: StageV { to_add: Seq::empty(), to_remove: Seq::empty() },
    }
}

/// The working directory that `init` uses.
pub open spec fn init_wd(d: DiskV, opt_path: Option<Seq<char>>) -> Seq<char> {
    match opt_path {
        Some(p) => p,
        None => d.cwd,
    }
}

/// `init`: creates the data directories unless `.dvcs` exists, then the
/// repository record unless it exists.
pub open spec fn spec_init(d: DiskV, opt_path: Option<Seq<char>>) -> (DiskV, Result<Seq<char>, ErrV>) {
    let wd = init_wd(d, opt_path);
    let paths = spec_repo_paths(wd);
    let (d1, r1) = if !spec_is_path_valid(d, paths.root) {
        let (da, ra) = spec_create_dir(d, paths.files);
        if ra is Err {
            (da, ra)
        } else {
            spec_create_dir(da, paths.revs)
        }
    } else {
        (d, Ok(()))
    };
    if r1 is Err {
        (d1, Err(r1->Err_0))
    } else if !spec_is_path_valid(d1, paths.repos) {
        let (d2, r2) = spec_repo_save(d1, fresh_repo(paths));
        match r2 {
            Err(e) => (d2, Err(e)),
            Ok(_) => (d2, Ok("Successfully created new repository at "@ + wd)),
        }
    } else {
        (d1, Ok("Repository already exists at "@ + wd))
    }
}

/// Creates a repository in `opt_path`, or in the process's working directory
/// when none is given. The data directories are created unless `.dvcs`
/// exists, and the record unless it exists.
pub fn init(disk: &mut Disk, opt_path: Option<&str>) -> (r: Result<String, Errors>)
    requires
        old(disk).wf(),
    ensures
        final(disk).wf(),
        (final(disk)@, str_v(r)) == spec_init(old(disk)@, match opt_path {
            Some(p) => Some(p@),
            None => None,
        }),
{
    let wd = match opt_path {
        Some(path) => owned(path),
        None => get_wd_path(disk),
    };
    let paths = RepoPaths::new(wd.as_str());
    proof {
        lemma_paths_named(wd@);
    }
    if !is_path_valid(disk, paths.root.as_str()) {
        create_dir(disk, paths.files.as_str())?;
        create_dir(disk, paths.revs.as_str())?;
    }
    if !is_path_valid(disk, paths.repos.as_str()) {
        let new_repo = Repo { current_head: None, branch_heads: StrMap::new(), paths, stage: Stage::new() };
        assert(new_repo@ =~= fresh_repo(spec_repo_paths(wd@)));
        new_repo.save(disk)?;
        proof {
            reveal_strlit("Successfully created new repository at ");
        }
        Ok(concat("Successfully created new repository at ", wd.as_str()))
    } else {
        Ok(concat("Repository already exists at ", wd.as_str()))
    }
}

/// Loads the repository that holds `wd`: the record in the nearest
/// directory, from `wd` up, that has a `.dvcs` entry.
pub fn load(disk: &Disk, wd: &str) -> (r: Result<Repo, Errors>)
    requires
        disk.wf(),
    ensures
        match r {
            Ok(repo) => spec_load(disk@, wd@) == Ok::<RepoV, ErrV>(repo@) && repo@.wf(),
            Err(e) => spec_load(disk@, wd@) == Err::<RepoV, ErrV>(err_v(e)),
        },
{
    let checked_wd = match check_wd(disk, wd) {
        Some(s) => s,
        None => return Err(Errors::ErrStr(owned("Directory untracked, fail to locate repository"))),
    };
    let paths = RepoPaths::new(checked_wd.as_str());
    proof {
        lemma_paths_named(checked_wd@);
    }
    match read_node(disk, paths.repos.as_str()) {
        Err(e) => Err(e),
        Ok(Node::Repo(stored)) => {
            if stored.branch_heads.keys_distinct() && stored.stage.to_add.keys_distinct()
                && stored.stage.to_remove.keys_distinct() {
                let mut load_repo = stored.dup();
                load_repo.paths = paths;
                Ok(load_repo)
            } else {
                Err(Errors::ErrSerde(owned("duplicate keys in the repository record")))
            }
        },
        Ok(_) => Err(Errors::ErrSerde(owned("not a repository record"))),
    }
}

/// `get_wd_root`: the working directory of the repository that holds the
/// process's working directory.
pub open spec fn spec_get_wd_root(d: DiskV) -> Result<Seq<char>, ErrV> {
    match spec_check_wd(d, d.cwd) {
        Some(w) => Ok(w),
        None => static_e("Directory untracked, fail to locate repository"),
    }
}

/// The working directory of the repository that holds the process's working
/// directory.
pub fn get_wd_root(disk: &Disk) -> (r: Result<String, Errors>)
    requires
        disk.wf(),
    ensures
        str_v(r) == spec_get_wd_root(disk@),
{
    let wd = get_wd_path(disk);
    match check_wd(disk, wd.as_str()) {
        Some(path) => Ok(path),
        None => Err(Errors::Errstatic("Directory untracked, fail to locate repository")),
    }
}

/// Where a revision is stored: an alias resolves to the revision id of its
/// branch; anything else is taken as a revision id.
pub open spec fn rev_target(r: RepoV, rev_id: Seq<char>) -> Seq<char> {
    if r.heads().contains_key(rev_id) {
        r.heads()[rev_id]
    } else {
        rev_id
    }
}

/// `get_rev`: the revision named by an alias or an id.
pub open spec fn spec_get_rev(d: DiskV, r: RepoV, rev_id: Seq<char>) -> Result<RevV, ErrV> {
    let p = spec_path_compose(r.paths.revs, rev_target(r, rev_id));
    if !named(p) {
        io_e(IoKind::InvalidInput)
    } else {
        spec_rev_from(d, p)
    }
}

/// `get_current_head`: the revision at the head of the checked-out branch.
pub open spec fn spec_current_head(d: DiskV, r: RepoV) -> Result<RevV, ErrV> {
    match r.current_head {
        None => static_e("Null current head"),
        Some(alias) => if r.heads().contains_key(alias) {
            spec_get_rev(d, r, r.heads()[alias])
        } else {
            static_e("Unable to locate current head by alias")
        },
    }
}

/// `get_file_content`: the stored content of a file item.
pub open spec fn spec_file_content(d: DiskV, r: RepoV, item: ItemInfoV) -> Result<Seq<char>, ErrV> {
    match spec_file_id(item.entry) {
        None => Err(ErrV::Str("Not a file: "@ + item.name)),
        Some(id) => {
            let p = spec_path_compose(r.paths.files, id);
            if !named(p) {
                io_e(IoKind::InvalidInput)
            } else {
                spec_read_file(d, p)
            }
        },
    }
}

/// `save_file_to_repo`: copies a file item from the working directory into
/// the content store unless its content id is already there; the result
/// says which happened.
pub open spec fn spec_save_file(d: DiskV, r: RepoV, item: ItemInfoV) -> (DiskV, Result<Seq<char>, ErrV>) {
    match spec_file_id(item.entry) {
        None => (d, Ok("Not a file"@)),
        Some(id) => {
            let dest = spec_path_compose(r.paths.files, id);
            if spec_is_path_valid(d, dest) {
                (d, Ok("Exact file exists in repository"@))
            } else if !named(dest) {
                (d, io_e(IoKind::InvalidInput))
            } else {
                let (d1, r1) = spec_copy_file(d, spec_path_compose(r.paths.wd, item.loc_in_wd), dest);
                match r1 {
                    Ok(_) => (d1, Ok("Successfully saved to repository"@)),
                    Err(e) => (d1, Err(e)),
                }
            }
        },
    }
}

/// The node at `k` is there after as it was before, and the working
/// directory is the same.
pub open spec fn keeps_node(d: DiskV, d1: DiskV, k: Key) -> bool {
    &&& d1.cwd == d.cwd
    &&& d1.nodes.contains_key(k)
    &&& d1.nodes[k] == d.nodes[k]
}

/// Saving an item into the store writes only where nothing was.
pub proof fn lemma_save_file_keeps(d: DiskV, r: RepoV, item: ItemInfoV, k: Key)
    ensures
        spec_save_file(d, r, item).0.cwd == d.cwd,
        d.nodes.contains_key(k) ==> keeps_node(d, spec_save_file(d, r, item).0, k),
{
}

/// The result of a step that gives a fixed text.
pub open spec fn static_v(r: Result<&'static str, Errors>) -> Result<Seq<char>, ErrV> {
    match r {
        Ok(s) => Ok(s@),
        Err(e) => Err(err_v(e)),
    }
}

impl Repo {
    /// Writes the repository record.
    pub fn save(&self, disk: &mut Disk) -> (r: Result<(), Errors>)
        requires
            old(disk).wf(),
            self@.wf(),
        ensures
            final(disk).wf(),
            (final(disk)@, unit_v(r)) == spec_repo_save(old(disk)@, self@),
    {
        proof {
            lemma_paths_named(self@.paths.wd);
        }
        write_node(disk, self.paths.repos.as_str(), Node::Repo(self.dup()))
    }

    /// The revision named by an alias or an id.
    pub fn get_rev(&self, disk: &Disk, rev_id: &str) -> (r: Result<Rev, Errors>)
        requires
            disk.wf(),
            self@.wf(),
        ensures
            match r {
                Ok(rev) => spec_get_rev(disk@, self@, rev_id@) == Ok::<RevV, ErrV>(rev@) && rev@.wf(),
                Err(e) => spec_get_rev(disk@, self@, rev_id@) == Err::<RevV, ErrV>(err_v(e)),
            },
    {
        let p = match self.branch_heads.get(rev_id) {
            Some(id) => path_compose(self.paths.revs.as_str(), id.as_str()),
            None => path_compose(self.paths.revs.as_str(), rev_id),
        };
        if !is_named(p.as_str()) {
            return Err(unnamed_error(p.as_str()));
        }
        Rev::from(disk, p.as_str())
    }

    /// The revision at the head of the checked-out branch.
    pub fn get_current_head(&self, disk: &Disk) -> (r: Result<Rev, Errors>)
        requires
            disk.wf(),
            self@.wf(),
        ensures
            match r {
                Ok(rev) => spec_current_head(disk@, self@) == Ok::<RevV, ErrV>(rev@) && rev@.wf(),
                Err(e) => spec_current_head(disk@, self@) == Err::<RevV, ErrV>(err_v(e)),
            },
    {
        match &self.current_head {
            Some(alias) => match self.branch_heads.get(alias.as_str()) {
                Some(id) => self.get_rev(disk, id.as_str()),
                None => Err(Errors::Errstatic("Unable to locate current head by alias")),
            },
            None => Err(Errors::Errstatic("Null current head")),
        }
    }

    /// The stored content of a file item.
    pub fn get_file_content(&self, disk: &Disk, item: &ItemInfo) -> (r: Result<String, Errors>)
        requires
            disk.wf(),
            self@.wf(),
        ensures
            str_v(r) == spec_file_content(disk@, self@, item@),
    {
        match item.get_file_id() {
            Some(id) => {
                let p = path_compose(self.paths.files.as_str(), id);
                if !is_named(p.as_str()) {
                    return Err(unnamed_error(p.as_str()));
                }
                read_file_as_string(disk, p.as_str())
            },
            None => Err(Errors::ErrStr(concat("Not a file: ", item.get_file_name()))),
        }
    }

    /// Copies a file item from the working directory into the content store,
    /// unless its content id is already stored.
    pub fn save_file_to_repo(&self, disk: &mut Disk, file: &ItemInfo) -> (r: Result<&'static str, Errors>)
        requires
            old(disk).wf(),
            self@.wf(),
        ensures
            final(disk).wf(),
            (final(disk)@, static_v(r)) == spec_save_file(old(disk)@, self@, file@),
    {
        let src = path_compose(self.paths.wd.as_str(), file.get_file_wd_path());
        let dest = match file.get_file_id() {
            Some(id) => path_compose(self.paths.files.as_str(), id),
            None => return Ok("Not a file"),
        };
        if is_path_valid(disk, dest.as_str()) {
            return Ok("Exact file exists in repository");
        }
        if !is_named(dest.as_str()) {
            return Err(unnamed_error(dest.as_str()));
        }
        match copy_file(disk, src.as_str(), dest.as_str()) {
            Ok(_) => Ok("Successfully saved to repository"),
            Err(e) => Err(e),
        }
    }

    /// Points a branch alias at a revision id and saves the record.
    pub fn new_head(&mut self, disk: &mut Disk, head_alias: &str, rev_id: &str) -> (r: Result<(), Errors>)
        requires
            old(disk).wf(),
            old(self)@.wf(),
        ensures
            final(disk).wf(),
            final(self)@.wf(),
            final(self)@ == (RepoV { branch_heads: ev_insert(old(self)@.branch_heads, head_alias@, rev_id@), ..old(self)@ }),
            final(self)@.heads() == old(self)@.heads().insert(head_alias@, rev_id@),
            (final(disk)@, unit_v(r)) == spec_repo_save(old(disk)@, final(self)@),
    {
        self.branch_heads.insert(owned(head_alias), owned(rev_id));
        self.save(disk)
    }

    /// Checks out a branch by alias and saves the record. Fails, changing
    /// nothing, when there is no such branch.
    pub fn set_current_head(&mut self, disk: &mut Disk, set_head_to: &str) -> (r: Result<(), Errors>)
        requires
            old(disk).wf(),
            old(self)@.wf(),
        ensures
            final(disk).wf(),
            final(self)@.wf(),
            !old(self)@.heads().contains_key(set_head_to@) ==> (r matches Err(e) && err_v(e) == ErrV::Str("Repository doesn't have the branch "@ + set_head_to@ + "."@)
                && final(self)@ == old(self)@ && final(disk)@ == old(disk)@),
            old(self)@.heads().contains_key(set_head_to@) ==> final(self)@ == (RepoV {
                current_head: Some(set_head_to@),
                ..old(self)@
            }) && (final(disk)@, unit_v(r)) == spec_repo_save(old(disk)@, final(self)@),
    {
        if !self.branch_heads.contains_key(set_head_to) {
            return Err(Errors::ErrStr(concat3("Repository doesn't have the branch ", set_head_to, ".")));
        }
        self.current_head = Some(owned(set_head_to));
        self.save(disk)
    }

    /// Drops everything staged and saves the record.
    pub fn clear_stage(&mut self, disk: &mut Disk) -> (r: Result<(), Errors>)
        requires
            old(disk).wf(),
            old(self)@.wf(),
        ensures
            final(disk).wf(),
            final(self)@.wf(),
            final(self)@ == (RepoV {
                stage: StageV { to_add: Seq::empty(), to_remove: Seq::empty() },
                ..old(self)@
            }),
            (final(disk)@, unit_v(r)) == spec_repo_save(old(disk)@, final(self)@),
    {
        self.stage.clear();
        self.save(disk)
    }
}

} // verus!
