use dvcs_wye::dsr::{self, Disk, Os, path_compose, get_wd_path, is_path_valid, write_file, create_dir, clear_dir, get_metadata};
use dvcs_wye::ui::Errors;
use dvcs_wye::vc::file::{retrieve_info, EntryType};
use dvcs_wye::vc::repository::RepoPaths;
use dvcs_wye::vc::repository::store::{init, load};
use dvcs_wye::vc::revision::Rev;

fn disk() -> Disk {
    Disk::new("/work", Os::Linux)
}

fn vc_test_repo(d: &mut Disk) {
    let _ = init(d, Some("./vc_test"));
}

fn make_test_dir_file(d: &mut Disk) {
    vc_test_repo(d);
    let new_dir = "vc_test/file_test_dir";
    if !is_path_valid(d, new_dir) {
        let _ = create_dir(d, new_dir);
    }
    let new_file = path_compose(new_dir, "file_test.txt");
    let _ = write_file(d, &new_file, "file tests");
}

fn get_test_paths(d: &Disk) -> RepoPaths {
    let wd = get_wd_path(d);
    RepoPaths::new(&path_compose(&wd, "vc_test"))
}

#[test]
fn test_log() {
    let mut rev = Rev::new();
    let log = rev.get_log();
    assert!(log.get("id").is_some());
    assert!(log.get("time").is_some());
    assert_eq!(log.get("message").unwrap(), "");

    let new_msg = "some message";
    rev.set_message(new_msg);
    let log = rev.get_log();
    assert_eq!(log.get("message").unwrap(), new_msg);
}

#[test]
fn test_gets() {
    let mut rev = Rev::new();
    rev.rev_id = Some("sha_string".to_string());
    rev.parent_id = Some("sha_string_parent".to_string());
    assert_eq!(rev.get_id(), Some("sha_string"));
    assert_eq!(rev.get_parent_id(), Some("sha_string_parent"));
    rev.get_id();
}

#[test]
fn file_add_remove() -> Result<(), Errors> {
    let mut d = disk();
    vc_test_repo(&mut d);
    write_file(&mut d, "./vc_test/test_file1.txt", "test file root")?;
    let mut rev = Rev::new();
    let file_path = "./vc_test/test_file1.txt";
    rev.add_file(&d, file_path)?;
    assert_eq!(rev.manifest.len(), 1);

    rev.remove_file(&d, file_path)?;
    assert_eq!(rev.manifest.len(), 0);
    Ok(())
}

#[test]
fn test_gen_id_parent_update() -> Result<(), Errors> {
    let d = disk();
    let mut rev = Rev::new();
    let rev_path = "./vc_test/.dvcs/revs";
    let id1 = rev.gen_id(&d, rev_path)?;
    assert!(&rev.parent_id.is_none());

    let id2 = rev.gen_id(&d, rev_path)?;
    assert!(&id1 != &id2);
    assert_eq!(&rev.parent_id.unwrap(), &id1);
    Ok(())
}

#[test]
fn test_save() -> Result<(), Errors> {
    let mut d = disk();
    vc_test_repo(&mut d);
    let mut rev = Rev::new();
    let rev_path = "./vc_test/.dvcs/revs";
    let id = rev.gen_id(&d, rev_path)?;
    rev.save(&mut d, rev_path)?;
    assert!(is_path_valid(&d, &path_compose(rev_path, &id)));
    Ok(())
}

#[test]
fn test_abs_rel_path_info_retrieval() -> Result<(), Errors> {
    let mut d = disk();
    make_test_dir_file(&mut d);
    let rel_path = "./vc_test/file_test_dir/file_test.txt";
    let abs_path = path_compose(&get_wd_path(&d), "vc_test/file_test_dir/file_test.txt");
    let rel_info = retrieve_info(&d, rel_path)?;
    let abs_info = retrieve_info(&d, &abs_path)?;

    assert_eq!(&rel_info.name, "file_test.txt");
    assert_eq!(&abs_info.name, "file_test.txt");
    Ok(())
}

#[test]
fn test_dir() -> Result<(), Errors> {
    let mut d = disk();
    vc_test_repo(&mut d);
    let new_dir = "vc_test/file_test_dir";
    if !is_path_valid(&d, new_dir) {
        create_dir(&mut d, new_dir)?;
    };
    let info = retrieve_info(&d, new_dir)?;
    assert_eq!(&info.name, "file_test_dir");
    assert!(matches!(&info.entry, EntryType::Dir));
    assert!(!info.is_file());
    assert!(info.get_file_id().is_none());
    Ok(())
}

#[test]
fn test_get() -> Result<(), Errors> {
    let mut d = disk();
    make_test_dir_file(&mut d);
    let tracked_file_path = "./vc_test/file_test_dir/file_test.txt";
    let info = retrieve_info(&d, tracked_file_path)?;

    assert!(info.get_file_id().is_some());
    assert_eq!(info.get_file_name(), &info.name);
    assert_eq!(info.get_file_wd_path(), "file_test_dir/file_test.txt");
    Ok(())
}

#[test]
fn test_make_file_dir() -> Result<(), Errors> {
    let mut d = disk();
    make_test_dir_file(&mut d);
    let tracked_dir = "./vc_test/file_test_dir";
    let mut info = retrieve_info(&d, &tracked_dir)?;
    info.loc_in_wd.push_str("/make_new");
    let wd = "./vc_test";
    info.make_file(&mut d, &wd)
}

#[test]
fn test_init_load() {
    let mut d = disk();
    let paths = get_test_paths(&d);
    let _ = clear_dir(&mut d, &paths.wd, &Vec::new());
    assert!(init(&mut d, Some(&paths.wd)).is_ok());
    assert!(get_metadata(&d, &paths.revs).map(|m| m.is_dir()).unwrap_or(false));

    assert!(load(&d, &paths.wd).is_ok());
    let _ = create_dir(&mut d, &path_compose(&paths.wd, "test_dir"));

    assert!(load(&d, &path_compose(&paths.wd, "test_dir")).is_ok());
}

#[test]
fn test_add_stage_commit() -> Result<(), Errors> {
    let mut d = disk();
    let paths = get_test_paths(&d);
    init(&mut d, Some(&paths.wd))?;
    let mut repo = load(&d, &paths.wd)?;
    repo.clear_stage(&mut d)?;

    let sub_dir = path_compose(&paths.wd, "nested");
    if !is_path_valid(&d, &sub_dir) {
        create_dir(&mut d, &sub_dir)?;
    }

    let file_path_1 = path_compose(&paths.wd, "test_file1.txt");
    let file_path_nested = path_compose(&sub_dir, "test_file_nested.txt");
    write_file(&mut d, &file_path_1, &format!("test file root\n{:?}", std::time::SystemTime::now()))?;
    write_file(&mut d, &file_path_nested, &format!("test file nested\n{:?}", std::time::SystemTime::now()))?;

    repo.add_file(&mut d, &file_path_1)?;
    assert_eq!(repo.stage.get_add().len(), 1);
    repo.commit(&mut d, "test add commit")?;
    assert!(repo.stage.is_empty());

    repo.add_file(&mut d, &file_path_nested)?;
    repo.add_files(&mut d, &vec![file_path_1, file_path_nested])?;
    assert_eq!(repo.stage.get_add().len(), 2);
    repo.commit(&mut d, "test add commit 2")
}

#[test]
fn test_branching() -> Result<(), Errors> {
    let mut d = disk();
    let paths = get_test_paths(&d);
    init(&mut d, Some(&paths.wd))?;
    let mut repo = load(&d, &paths.wd)?;
    let file_path_1 = path_compose(&paths.wd, "branching_test.txt");
    write_file(&mut d, &file_path_1, "branching test")?;
    match &repo.current_head {
        Some(alias) => {
            if alias != "main" {
                repo.set_current_head(&mut d, "main")?
            }
        },
        None => (),
    };
    repo.add_file(&mut d, &file_path_1)?;
    repo.commit(&mut d, "test branching")?;
    let head = repo.get_current_head(&d)?;

    let new_head_alias = "branching-test";
    repo.new_head(&mut d, new_head_alias, head.get_id().unwrap())?;
    assert_eq!(repo.branch_heads.len(), 2);
    repo.set_current_head(&mut d, new_head_alias)?;
    assert_eq!(&repo.current_head, &Some(new_head_alias.to_string()));
    assert_eq!(&repo.branch_heads.get(new_head_alias), &repo.branch_heads.get("main"));

    write_file(&mut d, &file_path_1, "test branching")?;
    repo.add_file(&mut d, &file_path_1)?;
    repo.commit(&mut d, "committed on test branch")?;
    assert!(&repo.branch_heads.get(new_head_alias) != &repo.branch_heads.get("main"));
    repo.set_current_head(&mut d, "main")?;
    Ok(())
}

#[test]
fn test_get_file_content() -> Result<(), Errors> {
    let mut d = disk();
    let paths = get_test_paths(&d);
    init(&mut d, Some(&paths.wd))?;
    let file_path_1 = path_compose(&paths.wd, "content.txt");
    write_file(&mut d, &file_path_1, "stored content")?;
    let mut repo = load(&d, &paths.wd)?;
    repo.add_file(&mut d, &file_path_1)?;
    repo.commit(&mut d, "content")?;
    let head = repo.get_current_head(&d)?;
    let manifest = head.get_manifest();
    for (_k, v) in manifest.entries.iter() {
        if v.is_file() {
            assert_eq!(repo.get_file_content(&d, v)?, "stored content");
        }
    }
    let _ = dsr::get_wd_path(&d);
    Ok(())
}

#[test]
fn path_in_wd_follows_the_root_path() -> Result<(), Errors> {
    let mut d = disk();
    init(&mut d, Some("./a"))?;
    write_file(&mut d, "./a/data.txt", "x")?;
    let info = retrieve_info(&d, "./a/data.txt")?;
    assert_eq!(info.get_file_wd_path(), "data.txt");
    assert_eq!(info.get_file_name(), "data.txt");
    Ok(())
}

#[test]
fn checkout_of_a_missing_branch_names_it() {
    let mut d = disk();
    vc_test_repo(&mut d);
    let mut repo = load(&d, "./vc_test").unwrap();
    match repo.set_current_head(&mut d, "nope") {
        Err(Errors::ErrStr(m)) => assert_eq!(m, "Repository doesn't have the branch nope."),
        other => panic!("unexpected {:?}", other),
    }
}

#[test]
fn a_revision_without_id_is_not_saved() {
    let mut d = disk();
    vc_test_repo(&mut d);
    let rev = Rev::new();
    match rev.save(&mut d, "./vc_test/.dvcs/revs") {
        Err(Errors::ErrStr(m)) => assert_eq!(m, "Unable to save repo without id"),
        other => panic!("unexpected {:?}", other),
    }
}
