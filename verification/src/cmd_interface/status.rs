//! The status of a working directory against the stage and the head.
use vstd::prelude::*;
use crate::vc::repository::{Repo, RepoV};
use crate::vc::repository::store::{load, spec_load, spec_current_head, spec_file_content};
use crate::vc::revision::{Rev, RevV};
use crate::vc::file::{ItemInfo, ItemInfoV, unnamed_error};
use crate::cmd_function::{spec_diff_type, FileDiffType, file_diff};
use crate::dsr::{Disk, DiskV, spec_read_file, read_file_as_string, get_files, strs_view};
use crate::dsr::walk::lists_files;
use crate::path::{spec_get_name, get_name, views};
use crate::ui::{Errors, ErrV, err_v, IoKind};
use crate::strmap::{StrMap, seq_to_map};
use crate::strs::{owned, concat, str_eq};

verus! {

/// Three lists of lines: changes to be committed, changes not staged, and
/// untracked files.
pub type Lists = (Seq<Seq<char>>, Seq<Seq<char>>, Seq<Seq<char>>);

/// The names that `status` does not look into.
pub open spec fn status_ignore() -> Seq<Seq<char>> {
    seq![".dvcs"@, "target"@, "src"@, ".idea"@, ".DS_Store"@, ".git"@]
}

/// First part of a file's status: its content against the staged items of
/// the same name; whether a difference was found.
pub open spec fn stage_check(d: DiskV, r: RepoV, wd_item: Seq<char>, name: Seq<char>, ns: Seq<Seq<char>>) -> Result<
    (Seq<Seq<char>>, bool),
    ErrV,
> {
    let add = r.stage.add_map();
    let rm = r.stage.remove_map();
    let a: Result<(Seq<Seq<char>>, bool), ErrV> = if add.contains_key(name) {
        match spec_file_content(d, r, add[name]) {
            Err(e) => Err(e),
            Ok(c) => if wd_item != c {
                Ok((ns.push("Modified file: "@ + name), true))
            } else {
                Ok((ns, false))
            },
        }
    } else {
        Ok((ns, false))
    };
    match a {
        Err(e) => Err(e),
        Ok((ns1, s1)) => if rm.contains_key(name) {
            match spec_file_content(d, r, rm[name]) {
                Err(e) => Err(e),
                Ok(c) => if wd_item != c {
                    Ok((ns1.push("Modified file: "@ + name), true))
                } else {
                    Ok((ns1, s1))
                },
            }
        } else {
            Ok((ns1, s1))
        },
    }
}

/// Second part: the file against the head, when the head tracks it.
pub open spec fn head_check(d: DiskV, r: RepoV, head: Result<RevV, ErrV>, wd_item: Seq<char>, name: Seq<char>, staged: bool, tc: Seq<Seq<char>>, ns: Seq<Seq<char>>) -> Result<
    (Seq<Seq<char>>, Seq<Seq<char>>),
    ErrV,
> {
    let add = r.stage.add_map();
    match head {
        Err(_) => Ok((tc, ns)),
        Ok(h) => if !h.mmap().contains_key(name) {
            Ok((tc, ns))
        } else if add.contains_key(name) && !staged {
            let it1 = h.mmap()[name];
            let it2 = add[name];
            if it1 == it2 {
                Ok((tc, ns))
            } else {
                match spec_file_content(d, r, it2) {
                    Err(e) => Err(e),
                    Ok(a) => match spec_file_content(d, r, it1) {
                        Err(e) => Err(e),
                        Ok(b) => if spec_diff_type(a, b) != FileDiffType::Unchanged {
                            Ok((tc.push("Modified file: "@ + name), ns))
                        } else {
                            Ok((tc, ns))
                        },
                    },
                }
            }
        } else if !add.contains_key(name) && !staged {
            match spec_file_content(d, r, h.mmap()[name]) {
                Err(e) => Err(e),
                Ok(a) => if wd_item != a {
                    Ok((tc, ns.push("Modified file: "@ + name)))
                } else {
                    Ok((tc, ns))
                },
            }
        } else {
            Ok((tc, ns))
        },
    }
}

/// Whether the head tracks a name.
pub open spec fn in_head(head: Result<RevV, ErrV>, name: Seq<char>) -> bool {
    match head {
        Ok(h) => h.mmap().contains_key(name),
        Err(_) => false,
    }
}

/// Third part: where the file is listed, by whether it is staged for
/// adding or removal and tracked by the head.
pub open spec fn classify(d: DiskV, r: RepoV, head: Result<RevV, ErrV>, name: Seq<char>, tc: Seq<Seq<char>>, ut: Seq<Seq<char>>) -> Result<
    (Seq<Seq<char>>, Seq<Seq<char>>),
    ErrV,
> {
    let ca = r.stage.add_map().contains_key(name);
    let cr = r.stage.remove_map().contains_key(name);
    let cl = in_head(head, name);
    if !ca && !cr && !cl {
        Ok((tc, ut.push(name)))
    } else if ca && !cl {
        Ok((tc.push("Modified/Add new file: "@ + name), ut))
    } else if cr && !cl {
        Ok((tc.push("Remove file: "@ + name), ut))
    } else if cr && cl {
        let h = head->Ok_0;
        match spec_file_content(d, r, h.mmap()[name]) {
            Err(e) => Err(e),
            Ok(a) => match spec_file_content(d, r, r.stage.remove_map()[name]) {
                Err(e) => Err(e),
                Ok(b) => if a != b {
                    Ok((tc.push("Remove/Modified file: "@ + name), ut))
                } else {
                    Ok((tc.push("File need to commit although same in stage and last commit: "@ + name), ut))
                },
            },
        }
    } else {
        Ok((tc, ut))
    }
}

/// The status of one listed file.
#[verifier::opaque]
pub open spec fn file_status(d: DiskV, r: RepoV, head: Result<RevV, ErrV>, x: Seq<char>, st: Lists) -> Result<Lists, ErrV> {
    match spec_get_name(x) {
        None => Err(ErrV::Io(IoKind::InvalidInput)),
        Some(name) => match spec_read_file(d, x) {
            Err(e) => Err(e),
            Ok(wd_item) => match stage_check(d, r, wd_item, name, st.1) {
                Err(e) => Err(e),
                Ok((ns1, staged)) => match head_check(d, r, head, wd_item, name, staged, st.0, ns1) {
                    Err(e) => Err(e),
                    Ok((tc2, ns2)) => match classify(d, r, head, name, tc2, st.2) {
                        Err(e) => Err(e),
                        Ok((tc3, ut3)) => Ok((tc3, ns2, ut3)),
                    },
                },
            },
        },
    }
}

/// The statuses of listed files, in order; the first failure stops.
pub open spec fn files_status(d: DiskV, r: RepoV, head: Result<RevV, ErrV>, xs: Seq<Seq<char>>) -> Result<Lists, ErrV>
    decreases xs.len(),
{
    if xs.len() == 0 {
        Ok((Seq::empty(), Seq::empty(), Seq::empty()))
    } else {
        match files_status(d, r, head, xs.drop_last()) {
            Err(e) => Err(e),
            Ok(st) => file_status(d, r, head, xs.last(), st),
        }
    }
}

/// Paths staged for removal that are not listed: deleted, not staged when
/// the head tracks them, to be committed otherwise.
pub open spec fn removed_status(head: Result<RevV, ErrV>, rm: Seq<(Seq<char>, ItemInfoV)>, xs: Seq<Seq<char>>, st: Lists) -> Lists
    decreases rm.len(),
{
    if rm.len() == 0 {
        st
    } else {
        let prev = removed_status(head, rm.drop_last(), xs, st);
        let key = rm.last().0;
        if xs.contains(key) {
            prev
        } else {
            match head {
                Err(_) => prev,
                Ok(h) => if h.mmap().contains_key(key) {
                    (prev.0, prev.1.push("Delete file: "@ + key), prev.2)
                } else {
                    (prev.0.push("Delete file: "@ + key), prev.1, prev.2)
                },
            }
        }
    }
}

/// Paths that the head tracks but that are neither listed by name nor
/// staged for removal: deleted and not staged.
pub open spec fn missing_status(m: Seq<(Seq<char>, ItemInfoV)>, names: Seq<Seq<char>>, rm: Map<Seq<char>, ItemInfoV>, ns: Seq<Seq<char>>) -> Seq<
    Seq<char>,
>
    decreases m.len(),
{
    if m.len() == 0 {
        ns
    } else {
        let prev = missing_status(m.drop_last(), names, rm, ns);
        let key = m.last().0;
        if !names.contains(key) && !rm.contains_key(key) {
            prev.push("Delete file: "@ + key)
        } else {
            prev
        }
    }
}

/// The final components of the listed paths.
pub open spec fn names_of(xs: Seq<Seq<char>>) -> Seq<Seq<char>> {
    xs.map_values(|x: Seq<char>| spec_get_name(x)->0)
}

/// `status` over a loaded repository and the files listed below its working
/// directory.
pub open spec fn spec_status(d: DiskV, r: RepoV, xs: Seq<Seq<char>>) -> Result<Lists, ErrV> {
    let head = spec_current_head(d, r);
    match files_status(d, r, head, xs) {
        Err(e) => Err(e),
        Ok(st) => {
            let st2 = removed_status(head, r.stage.to_remove, xs, st);
            match head {
                Err(_) => Ok(st2),
                Ok(h) => Ok((st2.0, missing_status(h.manifest, names_of(xs), r.stage.remove_map(), st2.1), st2.2)),
            }
        },
    }
}

/// The head as `status` sees it: a revision, or none when it cannot be read.
pub open spec fn head_matches(head: Option<Rev>, spec_head: Result<RevV, ErrV>) -> bool {
    match spec_head {
        Ok(h) => head matches Some(x) && x@ == h,
        Err(_) => head is None,
    }
}

fn stage_check_exec(repo: &Repo, disk: &Disk, wd_item: &str, name: &str, ns: &mut Vec<String>) -> (r: Result<bool, Errors>)
    requires
        disk.wf(),
        repo@.wf(),
    ensures
        match stage_check(disk@, repo@, wd_item@, name@, views(old(ns)@)) {
            Err(e) => r matches Err(x) && err_v(x) == e,
            Ok((ns1, staged)) => r == Ok::<bool, Errors>(staged) && views(final(ns)@) == ns1,
        },
{
    let mut staged = false;
    let add = repo.get_stage().get_add();
    let rm = repo.get_stage().get_remove();
    if let Some(item) = add.get(name) {
        let c = repo.get_file_content(disk, item)?;
        if !str_eq(wd_item, c.as_str()) {
            let ghost n0 = ns@;
            ns.push(concat("Modified file: ", name));
            assert(views(ns@) =~= views(n0).push("Modified file: "@ + name@));
            staged = true;
        }
    }
    if let Some(item) = rm.get(name) {
        let c = repo.get_file_content(disk, item)?;
        if !str_eq(wd_item, c.as_str()) {
            let ghost n0 = ns@;
            ns.push(concat("Modified file: ", name));
            assert(views(ns@) =~= views(n0).push("Modified file: "@ + name@));
            staged = true;
        }
    }
    Ok(staged)
}

fn head_check_exec(
    repo: &Repo,
    disk: &Disk,
    head: &Option<Rev>,
    wd_item: &str,
    name: &str,
    staged: bool,
    tc: &mut Vec<String>,
    ns: &mut Vec<String>,
) -> (r: Result<(), Errors>)
    requires
        disk.wf(),
        repo@.wf(),
        head_matches(*head, spec_current_head(disk@, repo@)),
    ensures
        match head_check(disk@, repo@, spec_current_head(disk@, repo@), wd_item@, name@, staged, views(old(tc)@), views(old(ns)@)) {
            Err(e) => r matches Err(x) && err_v(x) == e,
            Ok((tc1, ns1)) => r is Ok && views(final(tc)@) == tc1 && views(final(ns)@) == ns1,
        },
{
    let h = match head {
        None => return Ok(()),
        Some(h) => h,
    };
    let add = repo.get_stage().get_add();
    let m = h.get_manifest();
    let it1 = match m.get(name) {
        None => return Ok(()),
        Some(i) => i,
    };
    match add.get(name) {
        Some(it2) => {
            if !staged && !it1.same_as(it2) {
                let a = repo.get_file_content(disk, it2)?;
                let b = repo.get_file_content(disk, it1)?;
                let diff = file_diff(a, b);
                if diff.is_diff() {
                    let ghost t0 = tc@;
                    tc.push(concat("Modified file: ", name));
                    assert(views(tc@) =~= views(t0).push("Modified file: "@ + name@));
                }
            }
        },
        None => {
            if !staged {
                let a = repo.get_file_content(disk, it1)?;
                if !str_eq(wd_item, a.as_str()) {
                    let ghost n0 = ns@;
                    ns.push(concat("Modified file: ", name));
                    assert(views(ns@) =~= views(n0).push("Modified file: "@ + name@));
                }
            }
        },
    }
    Ok(())
}

fn classify_exec(repo: &Repo, disk: &Disk, head: &Option<Rev>, name: &str, tc: &mut Vec<String>, ut: &mut Vec<String>) -> (r: Result<(), Errors>)
    requires
        disk.wf(),
        repo@.wf(),
        head_matches(*head, spec_current_head(disk@, repo@)),
        match *head {
            Some(h) => h@.wf(),
            None => true,
        },
    ensures
        match classify(disk@, repo@, spec_current_head(disk@, repo@), name@, views(old(tc)@), views(old(ut)@)) {
            Err(e) => r matches Err(x) && err_v(x) == e,
            Ok((tc1, ut1)) => r is Ok && views(final(tc)@) == tc1 && views(final(ut)@) == ut1,
        },
{
    let ca = repo.get_stage().get_add().contains_key(name);
    let rm = repo.get_stage().get_remove();
    let cr = rm.contains_key(name);
    let cl = match head {
        Some(h) => h.get_manifest().contains_key(name),
        None => false,
    };
    let ghost t0 = tc@;
    let ghost u0 = ut@;
    if !ca && !cr && !cl {
        ut.push(owned(name));
        assert(views(ut@) =~= views(u0).push(name@));
    } else if ca && !cl {
        tc.push(concat("Modified/Add new file: ", name));
        assert(views(tc@) =~= views(t0).push("Modified/Add new file: "@ + name@));
    } else if cr && !cl {
        tc.push(concat("Remove file: ", name));
        assert(views(tc@) =~= views(t0).push("Remove file: "@ + name@));
    } else if cr && cl {
        let h = match head {
            Some(h) => h,
            None => return Ok(()),
        };
        let it1 = match h.get_manifest().get(name) {
            Some(i) => i,
            None => return Ok(()),
        };
        let it2 = match rm.get(name) {
            Some(i) => i,
            None => return Ok(()),
        };
        let a = repo.get_file_content(disk, it1)?;
        let b = repo.get_file_content(disk, it2)?;
        if !str_eq(a.as_str(), b.as_str()) {
            tc.push(concat("Remove/Modified file: ", name));
            assert(views(tc@) =~= views(t0).push("Remove/Modified file: "@ + name@));
        } else {
            tc.push(concat("File need to commit although same in stage and last commit: ", name));
            assert(views(tc@) =~= views(t0).push("File need to commit although same in stage and last commit: "@ + name@));
        }
    }
    Ok(())
}

fn contains_str(list: &Vec<String>, s: &str) -> (r: bool)
    ensures
        r == views(list@).contains(s@),
{
    let mut i: usize = 0;
    while i < list.len()
        invariant
            i <= list@.len(),
            forall|j: int| 0 <= j < i ==> views(list@)[j] != s@,
        decreases list@.len() - i,
    {
        if str_eq(list[i].as_str(), s) {
            assert(views(list@)[i as int] == s@);
            return true;
        }
        i = i + 1;
    }
    false
}

/// The listing that `status` works from: the files below `wd`, skipping the
/// ignored names, when `wd` is a directory; none otherwise.
pub open spec fn status_listing(d: DiskV, wd: Seq<char>, xs: Seq<Seq<char>>) -> bool {
    if d.is_dir_at(d.key(wd)) {
        lists_files(d, wd, status_ignore(), xs)
    } else {
        xs == Seq::<Seq<char>>::empty()
    }
}

/// The three views of the result of `status`.
pub open spec fn lists_v(r: (Vec<String>, Vec<String>, Vec<String>)) -> Lists {
    (views(r.0@), views(r.1@), views(r.2@))
}

fn status_one(
    repo: &Repo,
    disk: &Disk,
    head: &Option<Rev>,
    x: &str,
    tc: &mut Vec<String>,
    ns: &mut Vec<String>,
    ut: &mut Vec<String>,
) -> (r: Result<(), Errors>)
    requires
        disk.wf(),
        repo@.wf(),
        head_matches(*head, spec_current_head(disk@, repo@)),
        match *head {
            Some(h) => h@.wf(),
            None => true,
        },
    ensures
        match file_status(disk@, repo@, spec_current_head(disk@, repo@), x@, (views(old(tc)@), views(old(ns)@), views(old(ut)@))) {
            Err(e) => r matches Err(y) && err_v(y) == e,
            Ok(st) => r is Ok && st == (views(final(tc)@), views(final(ns)@), views(final(ut)@)),
        },
{
    proof {
        reveal(file_status);
    }
    let name = match get_name(x) {
        Some(nm) => nm,
        None => return Err(unnamed_error(x)),
    };
    let wd_item = read_file_as_string(disk, x)?;
    let staged = stage_check_exec(repo, disk, wd_item.as_str(), name.as_str(), ns)?;
    head_check_exec(repo, disk, head, wd_item.as_str(), name.as_str(), staged, tc, ns)?;
    classify_exec(repo, disk, head, name.as_str(), tc, ut)?;
    Ok(())
}

proof fn lemma_files_status_stops(d: DiskV, r: RepoV, h: Result<RevV, ErrV>, s: Seq<Seq<char>>, j: int, k: int)
    requires
        0 <= j <= k <= s.len(),
        files_status(d, r, h, s.subrange(0, j)) is Err,
    ensures
        files_status(d, r, h, s.subrange(0, k)) == files_status(d, r, h, s.subrange(0, j)),
    decreases k - j,
{
    if k > j {
        lemma_files_status_stops(d, r, h, s, j, k - 1);
        assert(s.subrange(0, k).drop_last() =~= s.subrange(0, k - 1));
    }
}

proof fn lemma_named(d: DiskV, r: RepoV, h: Result<RevV, ErrV>, s: Seq<Seq<char>>, st: Lists)
    requires
        files_status(d, r, h, s) is Ok,
    ensures
        forall|j: int| 0 <= j < s.len() ==> (#[trigger] spec_get_name(s[j])) is Some,
    decreases s.len(),
{
    if s.len() > 0 {
        reveal(file_status);
        lemma_named(d, r, h, s.drop_last(), st);
        assert forall|j: int| 0 <= j < s.len() implies (#[trigger] spec_get_name(s[j])) is Some by {
            if j < s.len() - 1 {
                assert(s[j] == s.drop_last()[j]);
            }
        }
    }
}

fn status_files(
    repo: &Repo,
    disk: &Disk,
    head: &Option<Rev>,
    list_files: &Vec<String>,
    tc: &mut Vec<String>,
    ns: &mut Vec<String>,
    ut: &mut Vec<String>,
) -> (r: Result<(), Errors>)
    requires
        disk.wf(),
        repo@.wf(),
        head_matches(*head, spec_current_head(disk@, repo@)),
        match *head {
            Some(h) => h@.wf(),
            None => true,
        },
        old(tc)@.len() == 0,
        old(ns)@.len() == 0,
        old(ut)@.len() == 0,
    ensures
        match files_status(disk@, repo@, spec_current_head(disk@, repo@), views(list_files@)) {
            Err(e) => r matches Err(y) && err_v(y) == e,
            Ok(st) => r is Ok && st == (views(final(tc)@), views(final(ns)@), views(final(ut)@)),
        },
{
    let ghost xs = views(list_files@);
    let ghost sh = spec_current_head(disk@, repo@);
    let n = list_files.len();
    let mut i: usize = 0;
    proof {
        assert(xs.subrange(0, 0) =~= Seq::<Seq<char>>::empty());
        assert(views(tc@) =~= Seq::<Seq<char>>::empty());
        assert(views(ns@) =~= Seq::<Seq<char>>::empty());
        assert(views(ut@) =~= Seq::<Seq<char>>::empty());
    }
    while i < n
        invariant
            disk.wf(),
            repo@.wf(),
            sh == spec_current_head(disk@, repo@),
            head_matches(*head, sh),
            match *head {
                Some(h) => h@.wf(),
                None => true,
            },
            xs == views(list_files@),
            n == list_files@.len(),
            i <= n,
            files_status(disk@, repo@, sh, xs.subrange(0, i as int)) == Ok::<Lists, ErrV>((views(tc@), views(ns@), views(ut@))),
        decreases n - i,
    {
        proof {
            let s1 = xs.subrange(0, i + 1);
            assert(s1.drop_last() =~= xs.subrange(0, i as int));
            assert(s1.last() == list_files@[i as int]@);
        }
        match status_one(repo, disk, head, list_files[i].as_str(), tc, ns, ut) {
            Ok(_) => {},
            Err(e) => {
                proof {
                    lemma_files_status_stops(disk@, repo@, sh, xs, i + 1, n as int);
                    assert(xs.subrange(0, n as int) =~= xs);
                }
                return Err(e);
            },
        }
        i = i + 1;
    }
    proof {
        assert(xs.subrange(0, n as int) =~= xs);
    }
    Ok(())
}

fn status_removed(
    repo: &Repo,
    head: &Option<Rev>,
    list_files: &Vec<String>,
    tc: &mut Vec<String>,
    ns: &mut Vec<String>,
    ut: &Vec<String>,
)
    requires
        repo@.wf(),
        match *head {
            Some(h) => h@.wf(),
            None => true,
        },
    ensures
        forall|sh: Result<RevV, ErrV>| #[trigger] head_matches(*head, sh) ==> removed_status(
            sh,
            repo@.stage.to_remove,
            views(list_files@),
            (views(old(tc)@), views(old(ns)@), views(ut@)),
        ) == (views(final(tc)@), views(final(ns)@), views(ut@)),
{
    let ghost st1 = (views(tc@), views(ns@), views(ut@));
    let ghost xs = views(list_files@);
    let rm = repo.get_stage().get_remove();
    let nr = rm.entries.len();
    let mut j: usize = 0;
    proof {
        assert(repo@.stage.to_remove.subrange(0, 0) =~= Seq::<(Seq<char>, ItemInfoV)>::empty());
    }
    while j < nr
        invariant
            rm.ev() == repo@.stage.to_remove,
            nr == rm.ev().len(),
            j <= nr,
            match *head {
                Some(h) => h@.wf(),
                None => true,
            },
            xs == views(list_files@),
            forall|sh: Result<RevV, ErrV>| #[trigger] head_matches(*head, sh) ==> removed_status(
                sh,
                repo@.stage.to_remove.subrange(0, j as int),
                xs,
                st1,
            ) == (views(tc@), views(ns@), views(ut@)),
        decreases nr - j,
    {
        let key = rm.entries[j].0.as_str();
        let ghost t0 = views(tc@);
        let ghost n0 = views(ns@);
        proof {
            let s1 = repo@.stage.to_remove.subrange(0, j + 1);
            assert(s1.drop_last() =~= repo@.stage.to_remove.subrange(0, j as int));
            assert(s1.last().0 == key@);
        }
        if !contains_str(list_files, key) {
            match head {
                Some(h) => {
                    if h.get_manifest().contains_key(key) {
                        ns.push(concat("Delete file: ", key));
                        assert(views(ns@) =~= n0.push("Delete file: "@ + key@));
                    } else {
                        tc.push(concat("Delete file: ", key));
                        assert(views(tc@) =~= t0.push("Delete file: "@ + key@));
                    }
                },
                None => {},
            }
        }
        j = j + 1;
    }
    proof {
        assert(repo@.stage.to_remove.subrange(0, nr as int) =~= repo@.stage.to_remove);
    }
}

fn status_missing(repo: &Repo, h: &Rev, names: &Vec<String>, ns: &mut Vec<String>)
    requires
        repo@.wf(),
        h@.wf(),
    ensures
        views(final(ns)@) == missing_status(h@.manifest, views(names@), repo@.stage.remove_map(), views(old(ns)@)),
{
    let rm = repo.get_stage().get_remove();
    let m = h.get_manifest();
    let nm = m.entries.len();
    let ghost ns0 = views(ns@);
    let mut t: usize = 0;
    proof {
        assert(h@.manifest.subrange(0, 0) =~= Seq::<(Seq<char>, ItemInfoV)>::empty());
    }
    while t < nm
        invariant
            m.ev() == h@.manifest,
            nm == m.ev().len(),
            t <= nm,
            rm.ev() == repo@.stage.to_remove,
            rm.wf(),
            views(ns@) == missing_status(h@.manifest.subrange(0, t as int), views(names@), repo@.stage.remove_map(), ns0),
        decreases nm - t,
    {
        let key = m.entries[t].0.as_str();
        proof {
            let s1 = h@.manifest.subrange(0, t + 1);
            assert(s1.drop_last() =~= h@.manifest.subrange(0, t as int));
            assert(s1.last().0 == key@);
        }
        if !contains_str(names, key) && !rm.contains_key(key) {
            let ghost n0 = ns@;
            ns.push(concat("Delete file: ", key));
            assert(views(ns@) =~= views(n0).push("Delete file: "@ + key@));
        }
        t = t + 1;
    }
    proof {
        assert(h@.manifest.subrange(0, nm as int) =~= h@.manifest);
    }
}

fn names_exec(list_files: &Vec<String>) -> (r: Vec<String>)
    requires
        forall|j: int| 0 <= j < list_files@.len() ==> (#[trigger] spec_get_name(views(list_files@)[j])) is Some,
    ensures
        views(r@) == names_of(views(list_files@)),
{
    let ghost xs = views(list_files@);
    let n = list_files.len();
    let mut name_list: Vec<String> = Vec::new();
    let mut k: usize = 0;
    while k < n
        invariant
            n == list_files@.len(),
            xs == views(list_files@),
            k <= n,
            forall|j: int| 0 <= j < n ==> (#[trigger] spec_get_name(xs[j])) is Some,
            views(name_list@) == names_of(xs).subrange(0, k as int),
        decreases n - k,
    {
        proof {
            assert(spec_get_name(xs[k as int]) is Some);
            assert(xs[k as int] == list_files@[k as int]@);
        }
        let nm = get_name(list_files[k].as_str()).unwrap();
        let ghost l0 = name_list@;
        name_list.push(nm);
        proof {
            assert(views(name_list@) =~= views(l0).push(nm@));
            assert(names_of(xs).subrange(0, k + 1) =~= names_of(xs).subrange(0, k as int).push(names_of(xs)[k as int]));
        }
        k = k + 1;
    }
    proof {
        assert(names_of(xs).subrange(0, n as int) =~= names_of(xs));
    }
    name_list
}

/// The status of the working directory `wd` of a repository: the changes
/// to be committed, the changes not staged, and the untracked files. Each
/// file below `wd` (but for `.dvcs`, `target`, `src`, `.idea`, `.DS_Store`
/// and `.git`) is compared by name with the stage and the head; then the
/// paths staged for removal that are gone, and the paths of the head whose
/// name is not listed, are reported deleted.
#[verifier::rlimit(30)]
pub fn status(disk: &Disk, wd: &str) -> (r: Result<(Vec<String>, Vec<String>, Vec<String>), Errors>)
    requires
        disk.wf(),
    ensures
        match spec_load(disk@, wd@) {
            Err(e) => r matches Err(x) && err_v(x) == e,
            Ok(repo) => exists|xs: Seq<Seq<char>>| #![trigger spec_status(disk@, repo, xs)]
                status_listing(disk@, wd@, xs) && match spec_status(disk@, repo, xs) {
                    Err(e) => r matches Err(x) && err_v(x) == e,
                    Ok(st) => r matches Ok(out) && lists_v(out) == st,
                },
        },
{
    let load = load(disk, wd)?;
    let head: Option<Rev> = match load.get_current_head(disk) {
        Ok(h) => Some(h),
        Err(_) => None,
    };
    let ghost sh = spec_current_head(disk@, load@);
    let mut ignore: Vec<&str> = Vec::new();
    ignore.push(".dvcs");
    ignore.push("target");
    ignore.push("src");
    ignore.push(".idea");
    ignore.push(".DS_Store");
    ignore.push(".git");
    proof {
        assert(strs_view(ignore@) =~= status_ignore());
    }
    let mut list_files: Vec<String> = Vec::new();
    let listed = get_files(disk, wd, &ignore, &mut list_files);
    let ghost xs = views(list_files@);
    proof {
        assert(views(list_files@).subrange(0, 0) =~= Seq::<Seq<char>>::empty());
        assert(xs.subrange(0, xs.len() as int) =~= xs);
        if !disk@.is_dir_at(disk@.key(wd@)) {
            assert(xs =~= Seq::<Seq<char>>::empty());
        }
        assert(status_listing(disk@, wd@, xs));
    }
    let mut tc: Vec<String> = Vec::new();
    let mut ns: Vec<String> = Vec::new();
    let mut ut: Vec<String> = Vec::new();
    match status_files(&load, disk, &head, &list_files, &mut tc, &mut ns, &mut ut) {
        Ok(_) => {},
        Err(e) => {
            assert(spec_status(disk@, load@, xs) is Err);
            return Err(e);
        },
    }
    let ghost st1 = (views(tc@), views(ns@), views(ut@));
    proof {
        lemma_named(disk@, load@, sh, xs, st1);
    }
    status_removed(&load, &head, &list_files, &mut tc, &mut ns, &ut);
    proof {
        assert(head_matches(head, sh));
    }
    let name_list = names_exec(&list_files);
    if let Some(h) = &head {
        status_missing(&load, h, &name_list, &mut ns);
    }
    proof {
        let out_v = (views(tc@), views(ns@), views(ut@));
        assert(spec_status(disk@, load@, xs) == Ok::<Lists, ErrV>(out_v));
    }
    Ok((tc, ns, ut))
}

} // verus!
