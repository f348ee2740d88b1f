use dvcs_wye::cmd_function::{file_diff, conflict_find, find_unmerged, find_rev_lca, FileDiff, FileDiffType};
use dvcs_wye::dsr::{self, Disk, Os};
use dvcs_wye::test_help::{remove_git_and_init, create_files_and_commit_ab1, write_create_files_and_commit_abc2, write_files_edit_and_commit_ab3};
use dvcs_wye::createonly::checkout;
use dvcs_wye::readwrite::{add, commit};
use dvcs_wye::vc::repository::store::load;

#[test]
fn test_file_diff_1() {
    let diff1 = file_diff("Some line of text\nSecond line".to_string(), "Some line of text\nSecond line\nin a file".to_string());
    assert_eq!(diff1.get_diff_type(), &FileDiffType::Modified);
    let diff2 = file_diff("Some line of text\nSecond line".to_string(), "Some line of text\nSecond line".to_string());
    assert_eq!(diff2.get_diff_type(), &FileDiffType::Unchanged);

    let diff = file_diff("Some line of text\nSecond line".to_string(), "Some line of text\nSecond line\n".to_string());
    let test_patch = diffy::create_patch("Some line of text\nSecond line", "Some line of text\nSecond line\n");
    assert_eq!(diff, FileDiff {
        origin_content: "Some line of text\nSecond line".to_string(),
        mod_content: "Some line of text\nSecond line\n".to_string(),
        patch: test_patch.to_string(),
        diff_type: FileDiffType::Modified
    });

    let diff_no_origin = file_diff("".to_string(), "Some line of text\nSecond line\n".to_string());
    assert_eq!(diff_no_origin.get_diff_type(), &FileDiffType::Added);
    let diff_no_mod = file_diff("Some line of text\nSecond line".to_string(), "".to_string());
    assert_eq!(diff_no_mod.get_diff_type(), &FileDiffType::Deleted);
}

#[test]
fn test_conflict_find_2() {
    let content0 = "Some line of text\nSecondLine\n".to_string();
    let content1 = "Some line of text\nInsert\nSecondLine\n".to_string();
    let content2 = "Some line of text\nSecondLine\nInsertLast".to_string();

    let fd01 = file_diff(content0.clone(), content1.clone());
    let fd02 = file_diff(content0.clone(), content2.clone());

    let conflict0_12 = conflict_find(fd01.clone(), fd02.clone());
    assert_eq!(conflict0_12.unwrap().is_conflict, false);

    let fd12 = file_diff(content1.clone(), content2.clone());
    let conflict01_12 = conflict_find(fd01.clone(), fd12.clone());
    assert!(conflict01_12.is_err());

    let content3 = "Some line of \nSecondLine\nInsertLast".to_string();
    let fd03 = file_diff(content0.clone(), content3.clone());

    let conflict0_13 = conflict_find(fd01.clone(), fd03.clone());
    assert_eq!(conflict0_13.unwrap().is_conflict, true);
}

#[test]
fn test_find_unmerged_3() {
    let content0 = "Some line of text\nSecondLine\n".to_string();
    let content1 = "Some line of text\nInsert\nSecondLine\n".to_string();
    let content2 = "Some line of text\nSecondLine\nInsertLast".to_string();
    let content3 = "Some line of \nSecondLine\nInsertLast".to_string();

    let fd01 = file_diff(content0.clone(), content1.clone());
    let fd02 = file_diff(content0.clone(), content2.clone());
    let conflict_0_12 = conflict_find(fd01.clone(), fd02.clone()).unwrap();
    assert_eq!(conflict_0_12.is_conflict, false);
    assert!(find_unmerged(conflict_0_12.get_content()).is_ok());

    let fd03 = file_diff(content0.clone(), content3.clone());
    let conflict0_13 = conflict_find(fd01.clone(), fd03.clone()).unwrap();
    assert_eq!(conflict0_13.is_conflict, true);

    assert!(find_unmerged(conflict0_13.get_content()).is_err());

    let conf = "<<<<<<< ours\n\
    Some line of text\n\
    Insert\n\
    ||||||| original\n\
    Some line of text\n\
    =======\n\
    Some line of\n\
    SecondLine\n\
    InsertLast".to_string();

    assert!(find_unmerged(conf).is_ok());
}

#[test]
fn test_find_rev_lca_4() {
    let mut disk = Disk::new("/work", Os::Linux);
    let cwd = "./a_test_repo/";

    remove_git_and_init(&mut disk, cwd);

    let rev1_id = create_files_and_commit_ab1(&mut disk, cwd).unwrap();
    let rev2_id = write_create_files_and_commit_abc2(&mut disk, cwd).unwrap();

    let repo = load(&disk, cwd).unwrap();
    let rev1 = repo.get_rev(&disk, rev1_id.as_str()).unwrap();
    let rev2 = repo.get_rev(&disk, rev2_id.as_str()).unwrap();

    let lca = find_rev_lca(&repo, &disk, rev1, rev2).unwrap();
    assert_eq!(lca.get_id(), Some(rev1_id.as_str()));
}

#[test]
fn unmerged_reports_first_conflict_line() {
    let text = "a\n<<<<<<< ours\nx\n||||||| original\ny\n=======\nz\n>>>>>>> theirs\n".to_string();
    assert_eq!(find_unmerged(text), Err("File is unmerged at line 1".to_string()));
    let no_trailing = "<<<<<<< ours\n||||||| original\n=======\n>>>>>>> theirs".to_string();
    assert!(find_unmerged(no_trailing).is_ok());
}

#[test]
fn diff_type_of_equal_contents_is_unchanged() {
    let d = file_diff("same\n".to_string(), "same\n".to_string());
    assert!(!d.is_diff());
    assert_eq!(d.get_original(), "same\n");
    assert_eq!(d.get_modified(), "same\n");
    assert_eq!(d.get_patch(), d.to_string());
}

#[test]
fn common_revision_is_the_lowest_one() {
    let mut disk = Disk::new("/work", Os::Linux);
    let cwd = "./a_test_repo";
    remove_git_and_init(&mut disk, cwd);
    let rev1_id = create_files_and_commit_ab1(&mut disk, cwd).unwrap();
    let rev2_id = write_create_files_and_commit_abc2(&mut disk, cwd).unwrap();
    checkout(&mut disk, cwd, rev2_id.as_str(), Some("side".to_string())).unwrap();
    let side_id = write_files_edit_and_commit_ab3(&mut disk, cwd).unwrap();
    checkout(&mut disk, cwd, "main", None).unwrap();
    dsr::write_file(&mut disk, &dsr::path_compose(cwd, "c.txt"), "more on main").unwrap();
    add(&mut disk, cwd, "c.txt").unwrap();
    commit(&mut disk, cwd, "main moves on").unwrap();

    let repo = load(&disk, cwd).unwrap();
    let main_head = repo.get_current_head(&disk).unwrap();
    let side = repo.get_rev(&disk, side_id.as_str()).unwrap();
    let lca = find_rev_lca(&repo, &disk, main_head, side).unwrap();
    assert_eq!(lca.get_id(), Some(rev2_id.as_str()));
    assert_ne!(lca.get_id(), Some(rev1_id.as_str()));
}

#[test]
fn common_revision_of_a_revision_with_itself() {
    let mut disk = Disk::new("/work", Os::Linux);
    let cwd = "./a_test_repo";
    remove_git_and_init(&mut disk, cwd);
    create_files_and_commit_ab1(&mut disk, cwd).unwrap();
    let rev2_id = write_create_files_and_commit_abc2(&mut disk, cwd).unwrap();
    let repo = load(&disk, cwd).unwrap();
    let a = repo.get_rev(&disk, rev2_id.as_str()).unwrap();
    let b = repo.get_rev(&disk, rev2_id.as_str()).unwrap();
    let lca = find_rev_lca(&repo, &disk, a, b).unwrap();
    assert_eq!(lca.get_id(), Some(rev2_id.as_str()));
}

#[test]
fn common_revision_of_branches_two_commits_apart() {
    let mut disk = Disk::new("/work", Os::Linux);
    let cwd = "./a_test_repo";
    remove_git_and_init(&mut disk, cwd);
    let base = create_files_and_commit_ab1(&mut disk, cwd).unwrap();
    checkout(&mut disk, cwd, base.as_str(), Some("side".to_string())).unwrap();
    dsr::write_file(&mut disk, &dsr::path_compose(cwd, "x.txt"), "1").unwrap();
    add(&mut disk, cwd, "x.txt").unwrap();
    commit(&mut disk, cwd, "s1").unwrap();
    dsr::write_file(&mut disk, &dsr::path_compose(cwd, "x.txt"), "2").unwrap();
    add(&mut disk, cwd, "x.txt").unwrap();
    let s2 = commit(&mut disk, cwd, "s2").unwrap();
    checkout(&mut disk, cwd, "main", None).unwrap();
    dsr::write_file(&mut disk, &dsr::path_compose(cwd, "y.txt"), "1").unwrap();
    add(&mut disk, cwd, "y.txt").unwrap();
    commit(&mut disk, cwd, "m1").unwrap();
    dsr::write_file(&mut disk, &dsr::path_compose(cwd, "y.txt"), "2").unwrap();
    add(&mut disk, cwd, "y.txt").unwrap();
    commit(&mut disk, cwd, "m2").unwrap();

    let repo = load(&disk, cwd).unwrap();
    let main_head = repo.get_current_head(&disk).unwrap();
    let side = repo.get_rev(&disk, s2.as_str()).unwrap();
    let lca = find_rev_lca(&repo, &disk, main_head, side).unwrap();
    assert_eq!(lca.get_id(), Some(base.as_str()));
}
