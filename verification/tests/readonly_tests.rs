use dvcs_wye::dsr::{self, Disk, Os, create_dir, create_file};
use dvcs_wye::readonly::{heads, log, status};
use dvcs_wye::readwrite::{add, commit};
use dvcs_wye::vc::repository::store::init;

fn disk() -> Disk {
    Disk::new("/work", Os::Linux)
}

#[test]
fn test_logs_3() {
    let d = disk();
    let wd = dsr::get_wd_path(&d);
    let res = log(&d, &wd);
    assert_eq!(res.is_ok(), false);
}

#[test]
fn test_logs_4() {
    let mut d = disk();
    let wd = dsr::get_wd_path(&d);
    let _ = init(&mut d, None);
    let _c = create_dir(&mut d, "test_logs_4");
    let _a = create_file(&mut d, "a.txt");
    let _b = add(&mut d, &wd, "a.txt");
    let _d = commit(&mut d, &wd, "test_log");
    let res = log(&d, &wd);
    assert_eq!(res.is_ok(), true);
}

#[test]
fn test_status_5() {
    let mut d = disk();
    let wd = dsr::get_wd_path(&d);
    let _ = init(&mut d, None);
    let res = status(&d, &wd);
    assert_eq!(res.is_ok(), true);
}

#[test]
fn test_status_6() {
    let mut d = disk();
    let wd = dsr::get_wd_path(&d);
    let _ = init(&mut d, None);
    let _c = create_dir(&mut d, "test_status_6");
    let _a = create_file(&mut d, "a.txt");
    let _b = add(&mut d, &wd, "a.txt");
    let res = status(&d, &wd);
    assert_eq!(res.is_ok(), true);
}

#[test]
fn heads_marks_the_checked_out_branch() {
    let mut d = disk();
    let wd = dsr::get_wd_path(&d);
    let _ = init(&mut d, None);
    let _ = dsr::write_file(&mut d, "a.txt", "x");
    add(&mut d, &wd, "a.txt").unwrap();
    let id = commit(&mut d, &wd, "one").unwrap();
    assert_eq!(heads(&d, &wd).unwrap(), vec![format!("*main:{}", id)]);
}

#[test]
fn log_lists_the_first_parent_chain() {
    let mut d = disk();
    let wd = dsr::get_wd_path(&d);
    let _ = init(&mut d, None);
    let _ = dsr::write_file(&mut d, "a.txt", "x");
    add(&mut d, &wd, "a.txt").unwrap();
    let id1 = commit(&mut d, &wd, "one").unwrap();
    let _ = dsr::write_file(&mut d, "a.txt", "y");
    add(&mut d, &wd, "a.txt").unwrap();
    let id2 = commit(&mut d, &wd, "two").unwrap();
    let lines = log(&d, &wd).unwrap().unwrap();
    assert_eq!(lines.len(), 10);
    assert_eq!(lines[1], format!("id: {}", id2));
    assert_eq!(lines[2], "message: two");
    assert!(lines[3].starts_with("time: "));
    assert_eq!(lines[4], "");
    assert_eq!(lines[6], format!("id: {}", id1));
    assert_eq!(lines[7], "message: one");
}

#[test]
fn status_reports_untracked_and_staged_files() {
    let mut d = disk();
    let wd = dsr::get_wd_path(&d);
    let _ = init(&mut d, None);
    let _ = dsr::write_file(&mut d, "a.txt", "x");
    let _ = dsr::write_file(&mut d, "b.txt", "y");
    add(&mut d, &wd, "a.txt").unwrap();
    let (to_commit, not_staged, untracked) = status(&d, &wd).unwrap();
    assert_eq!(to_commit, vec!["Modified/Add new file: a.txt".to_string()]);
    assert!(not_staged.is_empty());
    assert_eq!(untracked, vec!["b.txt".to_string()]);
}

#[test]
fn test_heads() {
    let mut d = disk();
    let wd = dsr::get_wd_path(&d);
    let _c = init(&mut d, None);
    let _a = add(&mut d, &wd, "src");
    let res = heads(&d, &wd).is_err();
    assert_eq!(res, true);
}

#[test]
fn test_heads_2() {
    let mut d = disk();
    let wd = dsr::get_wd_path(&d);
    let _a = init(&mut d, None);
    let _b = add(&mut d, &wd, "src");
    let _c = commit(&mut d, &wd, "test");
    let res = heads(&d, &wd).is_err();
    assert_eq!(res, true);
}

#[test]
fn log_writes_far_times_and_refuses_past_the_last_date() {
    let mut d = disk();
    let wd = dsr::get_wd_path(&d);
    let _ = init(&mut d, None);
    let _ = dsr::write_file(&mut d, "a.txt", "x");
    add(&mut d, &wd, "a.txt").unwrap();
    let id = commit(&mut d, &wd, "one").unwrap();
    assert_eq!(log(&d, &wd).unwrap().unwrap().len(), 5);
    let repo = dvcs_wye::vc::repository::store::load(&d, &wd).unwrap();
    let mut rev = repo.get_rev(&d, &id).unwrap();
    rev.time_stamp.secs = 300_000_000_000;
    rev.save(&mut d, &repo.paths.revs).unwrap();
    let lines = log(&d, &wd).unwrap().unwrap();
    assert!(lines[3].starts_with("time: "));
    rev.time_stamp.secs = 8_210_266_876_799;
    rev.time_stamp.nanos = 0;
    rev.save(&mut d, &repo.paths.revs).unwrap();
    assert!(log(&d, &wd).is_ok());
    rev.time_stamp.nanos = 1_000_000_000;
    rev.save(&mut d, &repo.paths.revs).unwrap();
    assert!(log(&d, &wd).is_err());
}
