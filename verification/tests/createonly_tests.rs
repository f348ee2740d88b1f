use dvcs_wye::createonly::{checkout, clone, pull, push};
use dvcs_wye::dsr::{self, Disk, Os};
use dvcs_wye::test_help::{remove_git_and_init, create_files_and_commit_ab1, write_create_files_and_commit_abc2};
use dvcs_wye::vc::repository::store::load;
use dvcs_wye::ui::Errors;

fn disk() -> Disk {
    Disk::new("/work", Os::Linux)
}

#[test]
fn test_clone() {
    let mut d = disk();
    let remote_wd = "./a_test_remote";
    remove_git_and_init(&mut d, remote_wd);
    let _ = create_files_and_commit_ab1(&mut d, remote_wd);

    let cwd = "./a_test_repo";
    let _ = dsr::clear_dir(&mut d, cwd, &vec![]);

    let res = clone(&mut d, cwd, remote_wd);
    assert!(res.is_ok());

    let res2 = clone(&mut d, cwd, remote_wd);
    assert_eq!(res2.is_err(), true);
}

#[test]
fn test_clone_remote_no_change() {
    let mut d = disk();
    let remote_wd = "./a_test_remote";
    remove_git_and_init(&mut d, remote_wd);
    let rev1 = create_files_and_commit_ab1(&mut d, remote_wd).unwrap();

    let cwd = "./a_test_repo";
    let _ = dsr::clear_dir(&mut d, cwd, &vec![]);

    let res = clone(&mut d, cwd, remote_wd);
    assert!(res.is_ok());

    let rev2 = write_create_files_and_commit_abc2(&mut d, cwd).unwrap();
    let repo = load(&d, cwd).unwrap();
    assert_eq!(repo.get_current_head(&d).unwrap().get_id().unwrap(), rev2);

    let remote_repo = load(&d, remote_wd).unwrap();
    assert_eq!(remote_repo.get_current_head(&d).unwrap().get_id().unwrap(), rev1);
}

#[test]
fn test_checkout() {
    let mut d = disk();
    let cwd = "./a_test_repo";
    remove_git_and_init(&mut d, cwd);
    let rev1 = create_files_and_commit_ab1(&mut d, cwd).unwrap();
    let rev2 = write_create_files_and_commit_abc2(&mut d, cwd).unwrap();

    let repo = load(&d, cwd).unwrap();
    assert_eq!(repo.get_current_head_alias().unwrap(), "main");
    let head2 = repo.get_current_head(&d).unwrap();
    let cur_head = head2.get_id();
    assert_eq!(cur_head.unwrap(), rev2);

    let res = checkout(&mut d, cwd, rev1.as_str(), None);
    assert_eq!(res.is_ok(), true);
    let repo = load(&d, cwd).unwrap();

    assert_eq!(repo.get_current_head_alias().unwrap(), "DETACHED-HEAD");
    let head1 = repo.get_current_head(&d).unwrap();
    let cur_head = head1.get_id();
    assert_eq!(cur_head.unwrap(), rev1);
}

#[test]
fn test_checkout_new_branch() {
    let mut d = disk();
    let cwd = "./a_test_repo";
    remove_git_and_init(&mut d, cwd);
    let rev1 = create_files_and_commit_ab1(&mut d, cwd).unwrap();
    let _ = write_create_files_and_commit_abc2(&mut d, cwd);

    let res = checkout(&mut d, cwd, rev1.as_str(), Some("old_rev1".to_string()));
    assert_eq!(res.is_ok(), true);

    let repo = load(&d, cwd).unwrap();
    assert_eq!(repo.get_current_head_alias().unwrap(), "old_rev1");
    let head1 = repo.get_current_head(&d).unwrap();
    let cur_head = head1.get_id();
    assert_eq!(cur_head.unwrap(), rev1);

    let res = checkout(&mut d, cwd, "main", None);
    assert_eq!(res.is_ok(), true);
    let repo = load(&d, cwd).unwrap();
    assert_eq!(repo.get_current_head_alias().unwrap(), "main");
}

#[test]
fn test_checkout_new_branch_fail() {
    let mut d = disk();
    let cwd = "./a_test_repo";
    remove_git_and_init(&mut d, cwd);
    let rev1 = create_files_and_commit_ab1(&mut d, cwd).unwrap();
    let _ = write_create_files_and_commit_abc2(&mut d, cwd);

    let res = checkout(&mut d, cwd, rev1.as_str(), Some("main".to_string()));
    assert_eq!(res.is_err(), true);

    let res = checkout(&mut d, cwd, "wrong", None);
    println!("{:?}", res);
    assert_eq!(res.is_err(), true);

    let repo = load(&d, cwd).unwrap();
    assert_eq!(repo.get_current_head_alias().unwrap(), "main");
}

#[test]
fn test_pull() {
    let mut d = disk();
    let remote_wd = "./a_remote/a_test_repo";
    remove_git_and_init(&mut d, remote_wd);
    let _rev1 = create_files_and_commit_ab1(&mut d, remote_wd);

    let cwd = "./a_test_repo";
    let _ = dsr::clear_dir(&mut d, cwd, &vec![]);

    let _ = clone(&mut d, cwd, remote_wd);

    let _ = write_create_files_and_commit_abc2(&mut d, remote_wd);

    let res = pull(&mut d, cwd, remote_wd);
    println!("{:?}", res);
}

#[test]
fn test_push() {
    let mut d = disk();
    let cwd = "./a_test_repo";
    let other = "./b_test_repo";
    remove_git_and_init(&mut d, cwd);
    let _ = create_files_and_commit_ab1(&mut d, cwd);
    let res = push(&mut d, cwd, other);
    assert!(res.is_err());
}

#[test]
fn checkout_rebuilds_the_working_directory() {
    let mut d = disk();
    let cwd = "./a_test_repo";
    remove_git_and_init(&mut d, cwd);
    let rev1 = create_files_and_commit_ab1(&mut d, cwd).unwrap();
    let _rev2 = write_create_files_and_commit_abc2(&mut d, cwd).unwrap();
    let a = dsr::path_compose(cwd, "a.txt");
    let c = dsr::path_compose(cwd, "c.txt");
    assert_eq!(dsr::read_file_as_string(&d, &a).unwrap(), "A Change");
    assert!(checkout(&mut d, cwd, rev1.as_str(), None).is_ok());
    assert_eq!(dsr::read_file_as_string(&d, &a).unwrap(), "hello world");
    assert!(!dsr::is_path_valid(&d, &c));
}

#[test]
fn push_of_a_branch_ahead_of_the_remote_is_not_refused() {
    let mut d = disk();
    let remote_wd = "./a_remote/a_test_repo";
    remove_git_and_init(&mut d, remote_wd);
    create_files_and_commit_ab1(&mut d, remote_wd).unwrap();
    let cwd = "./a_test_repo";
    let _ = dsr::clear_dir(&mut d, cwd, &vec![]);
    clone(&mut d, cwd, remote_wd).unwrap();
    write_create_files_and_commit_abc2(&mut d, cwd).unwrap();
    let res = push(&mut d, cwd, remote_wd);
    println!("{:?}", res);
    if let Err(Errors::Errstatic(m)) = &res {
        assert_ne!(*m, "push failed: remote branch is not up to date. Please pull first");
    }
}

#[test]
fn push_behind_the_remote_is_refused() {
    let mut d = disk();
    let remote_wd = "./a_remote/a_test_repo";
    remove_git_and_init(&mut d, remote_wd);
    create_files_and_commit_ab1(&mut d, remote_wd).unwrap();
    let cwd = "./a_test_repo";
    let _ = dsr::clear_dir(&mut d, cwd, &vec![]);
    clone(&mut d, cwd, remote_wd).unwrap();
    write_create_files_and_commit_abc2(&mut d, remote_wd).unwrap();
    match push(&mut d, cwd, remote_wd) {
        Err(Errors::Errstatic(m)) => assert_eq!(m, "push failed: remote branch is not up to date. Please pull first"),
        other => panic!("unexpected {:?}", other),
    }
}
