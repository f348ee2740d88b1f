use dvcs_wye::cmd_function::FileDiffType::{Added, Deleted, Modified};
use dvcs_wye::createonly::checkout;
use dvcs_wye::dsr::{self, Disk, Os, path_compose};
use dvcs_wye::readwrite::{add, cat, commit, diff, merge, merge_diffs, remove};
use dvcs_wye::cmd_function::{file_diff, FileDiff};
use dvcs_wye::strmap::StrMap;
use dvcs_wye::test_help::{
    remove_git_and_init, create_files_ab, create_files_and_commit_ab1, write_create_files_and_commit_abc2,
    write_files_edit_and_commit_ab3,
};
use dvcs_wye::vc::repository::store::load;
use dvcs_wye::ui::Errors;

fn disk() -> Disk {
    Disk::new("/work", Os::Linux)
}

#[test]
fn test_diff_1() {
    let mut d = disk();
    let cwd = "./a_test_repo/";

    remove_git_and_init(&mut d, cwd);

    let rev1 = create_files_and_commit_ab1(&mut d, cwd).unwrap();
    let rev2 = write_create_files_and_commit_abc2(&mut d, cwd).unwrap();

    let diff = diff(&d, cwd, rev1.as_str(), rev2.as_str()).unwrap();
    assert_eq!(diff.get_files().get("a.txt").unwrap().get_diff_type(), &Modified);
    assert_eq!(diff.get_files().get("b.txt").unwrap().get_diff_type(), &Modified);
    assert_eq!(diff.get_files().get("c.txt").unwrap().get_diff_type(), &Added);
}

#[test]
fn test_cat_2() {
    let mut d = disk();
    let cwd = "./a_test_repo/";

    remove_git_and_init(&mut d, cwd);

    let rev1 = create_files_and_commit_ab1(&mut d, cwd).unwrap();

    let rev2 = write_create_files_and_commit_abc2(&mut d, cwd).unwrap();
    let a = cat(&d, cwd, &rev1, "a.txt").unwrap();
    let c = cat(&d, cwd, &rev1, "c.txt");
    assert_eq!(a, "hello world");
    assert!(c.is_err());

    let a2 = cat(&d, cwd, &rev2, "a.txt").unwrap();
    let c2 = cat(&d, cwd, &rev2, "c.txt").unwrap();
    assert_eq!(a2, "A Change");
    assert_eq!(c2, "hello world from C");
}

#[test]
fn test_add_3() {
    let mut d = disk();
    let cwd = "./a_test_repo/";

    remove_git_and_init(&mut d, cwd);

    create_files_ab(&mut d, cwd);

    let add1 = add(&mut d, &cwd, "a.txt");
    assert!(add1.is_ok());

    let nodef = add(&mut d, &cwd, "nodef_file.txt");
    assert!(nodef.is_err());
}

#[test]
fn test_remove_4() {
    let mut d = disk();
    let cwd = "./a_test_repo/";

    remove_git_and_init(&mut d, cwd);

    let rev1 = create_files_and_commit_ab1(&mut d, cwd).unwrap();
    let rm1 = remove(&mut d, cwd, "a.txt");
    assert!(rm1.is_ok());
    let is_in_to_rm_stage = load(&d, cwd).unwrap().get_stage().get_remove().contains_key("a.txt");
    assert!(is_in_to_rm_stage);

    let rm2 = remove(&mut d, cwd, "a.txt");
    assert!(rm2.is_err());

    let rev2 = commit(&mut d, cwd, "remove a.txt").unwrap();
    let df = diff(&d, cwd, rev1.as_str(), rev2.as_str()).unwrap();
    assert_eq!(df.get_files().get("a.txt").unwrap().get_diff_type(), &Deleted);
}

#[test]
fn test_commit_5() {
    let mut d = disk();
    let cwd = "./a_test_repo";

    remove_git_and_init(&mut d, cwd);

    create_files_ab(&mut d, cwd);

    let com1 = commit(&mut d, cwd, "test commit");
    assert!(com1.is_err());

    let _ = add(&mut d, cwd, "a.txt");

    let com2 = commit(&mut d, cwd, "test commit add A");
    assert!(com2.is_ok());

    let com3 = commit(&mut d, cwd, "test commit");
    assert!(com3.is_err());

    let _ = add(&mut d, cwd, "b.txt");
    let com4 = commit(&mut d, cwd, "test commit add B");
    assert!(com4.is_ok());
}

#[test]
fn test_merge_6() {
    let mut d = disk();
    let cwd = "./a_test_repo";
    remove_git_and_init(&mut d, cwd);

    let rev1 = create_files_and_commit_ab1(&mut d, cwd).unwrap();

    checkout(&mut d, cwd, rev1.as_str(), Some("otherbranch".to_string())).unwrap();

    let rev2 = write_create_files_and_commit_abc2(&mut d, cwd).unwrap();
    checkout(&mut d, cwd, "main", None).unwrap();

    let rev3 = merge(&mut d, cwd, rev2);
    assert!(rev3.is_ok());

    let repo = load(&d, cwd).unwrap();
    let heads = repo.get_heads();
    assert_eq!(heads.get("main").unwrap(), &rev3.unwrap());
}

#[test]
fn test_merge_conflict_7() {
    let mut d = disk();
    let cwd = "./a_test_repo";
    remove_git_and_init(&mut d, cwd);

    let rev1 = create_files_and_commit_ab1(&mut d, cwd).unwrap();

    let _ = write_create_files_and_commit_abc2(&mut d, cwd);

    checkout(&mut d, cwd, &rev1, Some("otherbranch".to_string())).unwrap();
    let _ = write_files_edit_and_commit_ab3(&mut d, cwd);

    let merg = merge(&mut d, cwd, "main".to_string());
    assert!(merg.is_err());

    let atxt = dsr::read_file_as_string(&d, &path_compose(cwd, "a.txt")).unwrap();
    assert_eq!(atxt.as_str(), "<<<<<<< ours\nInsertFirst\nA Change 2\n||||||| original\nhello world\n=======\nA Change\n>>>>>>> theirs\n");

    let c = commit(&mut d, cwd, "merge");
    assert_eq!(c.is_err(), true);
}

#[test]
fn test_diff() {
    let mut d = disk();
    let cwd = "./a_test_repo";
    remove_git_and_init(&mut d, cwd);
    let rev1 = create_files_and_commit_ab1(&mut d, cwd).unwrap();
    let same = diff(&d, cwd, rev1.as_str(), rev1.as_str()).unwrap();
    assert_eq!(same.get_files().len(), 2);
    assert!(!same.get_files().get("a.txt").unwrap().is_diff());
    assert!(diff(&d, cwd, rev1.as_str(), "no-such-rev").is_err());
}

#[test]
fn test_cat() {
    let mut d = disk();
    let cwd = "./a_test_repo";
    remove_git_and_init(&mut d, cwd);
    let rev1 = create_files_and_commit_ab1(&mut d, cwd).unwrap();
    assert_eq!(cat(&d, cwd, "main", "b.txt").unwrap(), "hello world");
    assert_eq!(cat(&d, cwd, &rev1, "b.txt").unwrap(), "hello world");
    assert!(cat(&d, cwd, &rev1, "missing.txt").is_err());
}

#[test]
fn test_remove() {
    let mut d = disk();
    let cwd = "./a_test_repo";
    remove_git_and_init(&mut d, cwd);
    let _ = create_files_and_commit_ab1(&mut d, cwd).unwrap();
    assert_eq!(remove(&mut d, cwd, "b.txt").unwrap(), "remove success");
    assert!(!dsr::is_path_valid(&d, &path_compose(cwd, "b.txt")));
}

#[test]
fn test_merge() {
    let mut d = disk();
    let cwd = "./a_test_repo";
    remove_git_and_init(&mut d, cwd);
    let rev1 = create_files_and_commit_ab1(&mut d, cwd).unwrap();
    assert_eq!(merge(&mut d, cwd, rev1).unwrap(), "already up to date");
}

#[test]
fn added_then_committed_file_reads_back() {
    let mut d = disk();
    let cwd = "./a_test_repo";
    remove_git_and_init(&mut d, cwd);
    let p = path_compose(cwd, "notes.txt");
    dsr::write_file(&mut d, &p, "first line\nsecond line").unwrap();
    assert!(add(&mut d, cwd, "notes.txt").is_ok());
    assert!(commit(&mut d, cwd, "notes").is_ok());
    assert_eq!(cat(&d, cwd, "main", "notes.txt").unwrap(), "first line\nsecond line");
    dsr::write_file(&mut d, &p, "changed").unwrap();
    assert_eq!(cat(&d, cwd, "main", "notes.txt").unwrap(), "first line\nsecond line");
}

#[test]
fn removed_then_committed_file_is_gone() {
    let mut d = disk();
    let cwd = "./a_test_repo";
    remove_git_and_init(&mut d, cwd);
    let rev1 = create_files_and_commit_ab1(&mut d, cwd).unwrap();
    assert_eq!(remove(&mut d, cwd, "b.txt").unwrap(), "remove success");
    assert!(commit(&mut d, cwd, "drop b").is_ok());
    assert!(matches!(cat(&d, cwd, "main", "b.txt"), Err(Errors::Errstatic("file not found"))));
    assert_eq!(cat(&d, cwd, &rev1, "b.txt").unwrap(), "hello world");
}

fn change_set(entries: Vec<(&str, &str, &str)>) -> StrMap<FileDiff> {
    let mut m = StrMap::new();
    for (k, a, b) in entries {
        m.insert(k.to_string(), file_diff(a.to_string(), b.to_string()));
    }
    m
}

#[test]
fn merging_disjoint_changes_keeps_both() {
    let ours = change_set(vec![("a.txt", "one\n", "one\ntwo\n")]);
    let theirs = change_set(vec![("b.txt", "", "new file\n")]);
    let (merged, conflict) = merge_diffs(&ours, &theirs).unwrap();
    assert!(!conflict);
    assert_eq!(merged.len(), 2);
    assert_eq!(merged.get("a.txt").unwrap(), "one\ntwo\n");
    assert_eq!(merged.get("b.txt").unwrap(), "new file\n");
}

#[test]
fn merging_clashing_changes_marks_the_conflict() {
    let ours = change_set(vec![("a.txt", "hello world", "ours")]);
    let theirs = change_set(vec![("a.txt", "hello world", "theirs")]);
    let (merged, conflict) = merge_diffs(&ours, &theirs).unwrap();
    assert!(conflict);
    assert_eq!(
        merged.get("a.txt").unwrap(),
        "<<<<<<< ours\nours\n||||||| original\nhello world\n=======\ntheirs\n>>>>>>> theirs\n"
    );
}

#[test]
fn merging_changes_from_different_originals_fails() {
    let ours = change_set(vec![("a.txt", "x", "y")]);
    let theirs = change_set(vec![("a.txt", "z", "y")]);
    let r = merge_diffs(&ours, &theirs);
    assert!(matches!(r, Err(Errors::Errstatic("conflict_find: diff1 and diff2 have different original files"))));
}

#[test]
fn fetching_again_changes_nothing() {
    let mut d = Disk::new("/work", Os::Linux);
    dvcs_wye::vc::repository::store::init(&mut d, Some("./one/w")).unwrap();
    dvcs_wye::vc::repository::store::init(&mut d, Some("./two/w")).unwrap();
    dsr::write_file(&mut d, "./two/w/a.txt", "x").unwrap();
    add(&mut d, "./two/w", "a.txt").unwrap();
    commit(&mut d, "./two/w", "one").unwrap();
    let repo = load(&d, "./one/w").unwrap();
    let before = d.nodes.len();
    repo.fetch(&mut d, "./two/w").unwrap();
    let after_first = d.nodes.len();
    assert!(after_first > before);
    repo.fetch(&mut d, "./two/w").unwrap();
    assert_eq!(d.nodes.len(), after_first);
}
