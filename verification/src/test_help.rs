//! Steps that build small repositories: a fresh repository, files `a.txt`,
//! `b.txt` and `c.txt` with set contents, and commits of them.
use vstd::prelude::*;
use crate::dsr::{Disk, DiskV, create_file, write_file, spec_create_file, spec_write_file, clear_dir, path_compose};
use crate::dsr::walk::{spec_clear_dir, strs_view};
use crate::vc::repository::store::{init, spec_init, spec_load};
use crate::cmd_interface::readwrite::{commit, spec_add, commit_cmd_outcome};
use crate::path::{spec_path_compose, is_name, lemma_name_compose};
use crate::ui::{Errors, ErrV, err_v, str_v};

verus! {

/// The disk after a step whose result is ignored.
pub open spec fn after<T>(step: (DiskV, T)) -> DiskV {
    step.0
}

/// `remove_git_and_init`: the directory emptied, then a repository created
/// in it.
pub open spec fn spec_fresh_repo(d: DiskV, cwd: Seq<char>) -> DiskV {
    after(spec_init(after(spec_clear_dir(d, cwd, Seq::empty())), Some(cwd)))
}

/// Empties the directory `cwd` and creates a repository in it.
pub fn remove_git_and_init(disk: &mut Disk, cwd: &str)
    requires
        old(disk).wf(),
    ensures
        final(disk).wf(),
        final(disk)@ == spec_fresh_repo(old(disk)@, cwd@),
{
    let ignore: Vec<&str> = Vec::new();
    proof {
        assert(strs_view(ignore@) =~= Seq::<Seq<char>>::empty());
    }
    let _ = clear_dir(disk, cwd, &ignore);
    let _ = init(disk, Some(cwd));
}

/// Creating the file `name` below `cwd` and writing `content` into it,
/// whatever each step gives.
pub open spec fn spec_put(d: DiskV, cwd: Seq<char>, name: Seq<char>, content: Seq<char>) -> DiskV {
    let p = spec_path_compose(cwd, name);
    after(spec_write_file(after(spec_create_file(d, p)), p, content))
}

/// Writing `content` into the file `name` below `cwd`, whatever it gives.
pub open spec fn spec_rewrite(d: DiskV, cwd: Seq<char>, name: Seq<char>, content: Seq<char>) -> DiskV {
    after(spec_write_file(d, spec_path_compose(cwd, name), content))
}

fn put(disk: &mut Disk, cwd: &str, name: &str, content: &str)
    requires
        old(disk).wf(),
        is_name(name@),
    ensures
        final(disk).wf(),
        final(disk)@ == spec_put(old(disk)@, cwd@, name@, content@),
{
    let p = path_compose(cwd, name);
    proof {
        lemma_name_compose(cwd@, name@);
    }
    let _ = create_file(disk, p.as_str());
    let _ = write_file(disk, p.as_str(), content);
}

fn rewrite(disk: &mut Disk, cwd: &str, name: &str, content: &str)
    requires
        old(disk).wf(),
        is_name(name@),
    ensures
        final(disk).wf(),
        final(disk)@ == spec_rewrite(old(disk)@, cwd@, name@, content@),
{
    let p = path_compose(cwd, name);
    proof {
        lemma_name_compose(cwd@, name@);
    }
    let _ = write_file(disk, p.as_str(), content);
}

proof fn lemma_names()
    ensures
        is_name("a.txt"@),
        is_name("b.txt"@),
        is_name("c.txt"@),
{
    reveal_strlit("a.txt");
    reveal_strlit("b.txt");
    reveal_strlit("c.txt");
    assert(!"a.txt"@.contains('/')) by {
        if "a.txt"@.contains('/') {
            let i = choose|i: int| 0 <= i < "a.txt"@.len() && "a.txt"@[i] == '/';
        }
    }
    assert(!"b.txt"@.contains('/')) by {
        if "b.txt"@.contains('/') {
            let i = choose|i: int| 0 <= i < "b.txt"@.len() && "b.txt"@[i] == '/';
        }
    }
    assert(!"c.txt"@.contains('/')) by {
        if "c.txt"@.contains('/') {
            let i = choose|i: int| 0 <= i < "c.txt"@.len() && "c.txt"@[i] == '/';
        }
    }
    assert("a.txt"@ != seq!['.', '.']) by {
        assert("a.txt"@.len() == 5);
    }
    assert("b.txt"@ != seq!['.', '.']) by {
        assert("b.txt"@.len() == 5);
    }
    assert("c.txt"@ != seq!['.', '.']) by {
        assert("c.txt"@.len() == 5);
    }
    assert("a.txt"@ != seq!['.']);
    assert("b.txt"@ != seq!['.']);
    assert("c.txt"@ != seq!['.']);
}

/// `create_files_ab`: `a.txt` and `b.txt` created below `cwd`, both
/// holding `hello world`.
pub open spec fn spec_files_ab(d: DiskV, cwd: Seq<char>) -> DiskV {
    spec_put(spec_put(d, cwd, "a.txt"@, "hello world"@), cwd, "b.txt"@, "hello world"@)
}

/// Creates `a.txt` and `b.txt` below `cwd`, both holding `hello world`.
pub fn create_files_ab(disk: &mut Disk, cwd: &str)
    requires
        old(disk).wf(),
    ensures
        final(disk).wf(),
        final(disk)@ == spec_files_ab(old(disk)@, cwd@),
{
    proof {
        lemma_names();
    }
    put(disk, cwd, "a.txt", "hello world");
    put(disk, cwd, "b.txt", "hello world");
}

/// `write_files_ab`: `a.txt` and `b.txt` rewritten.
pub open spec fn spec_write_ab(d: DiskV, cwd: Seq<char>) -> DiskV {
    spec_rewrite(spec_rewrite(d, cwd, "a.txt"@, "A Change"@), cwd, "b.txt"@, "B Change"@)
}

/// Writes `A Change` into `a.txt` and `B Change` into `b.txt` below `cwd`.
pub fn write_files_ab(disk: &mut Disk, cwd: &str)
    requires
        old(disk).wf(),
    ensures
        final(disk).wf(),
        final(disk)@ == spec_write_ab(old(disk)@, cwd@),
{
    proof {
        lemma_names();
    }
    rewrite(disk, cwd, "a.txt", "A Change");
    rewrite(disk, cwd, "b.txt", "B Change");
}

/// Creates `c.txt` below `cwd`, holding `hello world from C`.
pub fn create_file_c(disk: &mut Disk, cwd: &str)
    requires
        old(disk).wf(),
    ensures
        final(disk).wf(),
        final(disk)@ == spec_put(old(disk)@, cwd@, "c.txt"@, "hello world from C"@),
{
    proof {
        lemma_names();
    }
    put(disk, cwd, "c.txt", "hello world from C");
}

/// Stages a file through `add`, whatever it gives.
fn add_quietly(disk: &mut Disk, cwd: &str, name: &str)
    requires
        old(disk).wf(),
    ensures
        final(disk).wf(),
        final(disk)@ == after(spec_add(old(disk)@, cwd@, name@)),
{
    let _ = crate::cmd_interface::readwrite::add(disk, cwd, name);
}

/// What a `commit` of `message` in `cwd` may end in, from the disk `d`.
pub open spec fn commit_from_disk(d: DiskV, cwd: Seq<char>, message: Seq<char>, fd: DiskV, res: Result<Seq<char>, ErrV>) -> bool {
    match spec_load(d, cwd) {
        Err(e) => res == Err::<Seq<char>, ErrV>(e) && fd == d,
        Ok(repo) => commit_cmd_outcome(d, repo, message, fd, res),
    }
}

/// Creates `a.txt` and `b.txt`, stages them and commits them, returning the
/// id of the commit.
pub fn create_files_and_commit_ab1(disk: &mut Disk, cwd: &str) -> (r: Result<String, Errors>)
    requires
        old(disk).wf(),
    ensures
        final(disk).wf(),
        commit_from_disk(
            after(spec_add(after(spec_add(spec_files_ab(old(disk)@, cwd@), cwd@, "a.txt"@)), cwd@, "b.txt"@)),
            cwd@,
            "commit a and b"@,
            final(disk)@,
            str_v(r),
        ),
{
    create_files_ab(disk, cwd);
    add_quietly(disk, cwd, "a.txt");
    add_quietly(disk, cwd, "b.txt");
    commit(disk, cwd, "commit a and b")
}

/// Rewrites `a.txt` and `b.txt`, creates `c.txt`, stages the three and
/// commits them, returning the id of the commit.
pub fn write_create_files_and_commit_abc2(disk: &mut Disk, cwd: &str) -> (r: Result<String, Errors>)
    requires
        old(disk).wf(),
    ensures
        final(disk).wf(),
        commit_from_disk(
            after(spec_add(after(spec_add(after(spec_add(spec_put(spec_write_ab(old(disk)@, cwd@), cwd@, "c.txt"@, "hello world from C"@), cwd@, "a.txt"@)), cwd@, "b.txt"@)), cwd@, "c.txt"@)),
            cwd@,
            "commit a and b and create c"@,
            final(disk)@,
            str_v(r),
        ),
{
    write_files_ab(disk, cwd);
    create_file_c(disk, cwd);
    add_quietly(disk, cwd, "a.txt");
    add_quietly(disk, cwd, "b.txt");
    add_quietly(disk, cwd, "c.txt");
    commit(disk, cwd, "commit a and b and create c")
}

/// Rewrites `a.txt` and `b.txt` with a new first line, stages them and
/// commits them, returning the id of the commit.
pub fn write_files_edit_and_commit_ab3(disk: &mut Disk, cwd: &str) -> (r: Result<String, Errors>)
    requires
        old(disk).wf(),
    ensures
        final(disk).wf(),
        commit_from_disk(
            after(spec_add(after(spec_add(spec_rewrite(spec_rewrite(old(disk)@, cwd@, "a.txt"@, "InsertFirst\nA Change 2"@), cwd@, "b.txt"@, "InsertFirst\nB Change 2"@), cwd@, "a.txt"@)), cwd@, "b.txt"@)),
            cwd@,
            "commit a and b edit"@,
            final(disk)@,
            str_v(r),
        ),
{
    proof {
        lemma_names();
    }
    rewrite(disk, cwd, "a.txt", "InsertFirst\nA Change 2");
    rewrite(disk, cwd, "b.txt", "InsertFirst\nB Change 2");
    add_quietly(disk, cwd, "a.txt");
    add_quietly(disk, cwd, "b.txt");
    commit(disk, cwd, "commit a and b edit")
}

} // verus!
