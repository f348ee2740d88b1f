use dvcs_wye::dsr::{self, Disk, Os, create_dir, delete_dir, create_file, copy_dir, clear_dir_adv, get_files, is_path_valid, read_file_as_string, write_file};

fn disk() -> Disk {
    Disk::new("/work", Os::Linux)
}

fn setup_test_space(d: &mut Disk) {
    let _ = create_dir(d, "dsr_test/folder1/folder2/folder3");
    let _ = create_dir(d, "dsr_test/folderA/folderB");
    let _ = create_file(d, "dsr_test/README.md");
    let _ = create_file(d, "dsr_test/folder1/hi.txt");
    let _ = create_file(d, "dsr_test/folder1/also_hi.txt");
    let _ = create_file(d, "dsr_test/folder1/first_layer.rs");
    let _ = create_file(d, "dsr_test/folder1/folder2/another_hi.txt");
    let _ = create_file(d, "dsr_test/folder1/folder2/second_layer.rs");
    let _ = create_file(d, "dsr_test/folder1/folder2/folder3/third_layer.rs");
    let _ = create_file(d, "dsr_test/folderA/cfile.cpp");
    let _ = create_file(d, "dsr_test/folderA/folderB/python.py");
}

#[test]
fn test_3_create_dir() {
    let mut d = disk();
    match create_dir(&mut d, "dsr_test/create_dir") {
        Ok(_) => println!("create (dsr_test/create_dir) success"),
        Err(e) => println!("error: {:?}", e),
    }
    match create_dir(&mut d, "dsr_test/create_dir") {
        Ok(_) => println!("warning: suppose to fail!"),
        Err(e) => println!("error: {:?}", e),
    }
    match create_dir(&mut d, "dsr_test/invalid:folder") {
        Ok(_) => println!("warning: suppose to fail!"),
        Err(e) => println!("error: {:?}", e),
    }
    assert!(is_path_valid(&d, "dsr_test/create_dir"));
    assert!(create_dir(&mut d, "dsr_test/invalid:folder").is_err());
    assert!(!is_path_valid(&d, "dsr_test/invalid:folder"));
}

#[test]
fn test_4_delete_dir() {
    let mut d = disk();
    let _ = create_dir(&mut d, "dsr_test/create_dir");
    match delete_dir(&mut d, "dsr_test/create_dir") {
        Ok(_) => println!("delete (dsr_test/create_dir) success"),
        Err(e) => println!("error: {:?}", e),
    }
    match delete_dir(&mut d, "dsr_test/create_dir") {
        Ok(_) => println!("warning: suppose to fail!"),
        Err(e) => println!("error: {:?}", e),
    }
    match delete_dir(&mut d, "dsr_test/invalid:folder") {
        Ok(_) => println!("warning: suppose to fail!"),
        Err(e) => println!("error: {:?}", e),
    }
    assert!(!is_path_valid(&d, "dsr_test/create_dir"));
}

#[test]
fn test_7_create_file() {
    let mut d = disk();
    match create_dir(&mut d, "dsr_test/folder/inner") {
        Ok(_) => println!("create (dsr_test/folder) success"),
        Err(e) => println!("error: {:?}", e),
    }
    match create_file(&mut d, "dsr_test/folder/hi.txt") {
        Ok(_) => println!("create (dsr_test/folder/hi.txt) success"),
        Err(e) => println!("error: {:?}", e),
    }
    match create_file(&mut d, "dsr_test/folder/python.py") {
        Ok(_) => println!("create (dsr_test/folder/python.py) success"),
        Err(e) => println!("error: {:?}", e),
    }
    match create_file(&mut d, "dsr_test/folder/inner/rust.rs") {
        Ok(_) => println!("create (dsr_test/folder/inner/rust.rs) success"),
        Err(e) => println!("error: {:?}", e),
    }
    match create_file(&mut d, "dsr_test/folder/inner/rust.rs") {
        Ok(_) => println!("warning: suppose to fail!"),
        Err(e) => println!("error: {:?}", e),
    }
    assert!(is_path_valid(&d, "dsr_test/folder/inner/rust.rs"));
}

#[test]
fn test_5_copy_dir() {
    let mut d = disk();
    match copy_dir(&mut d, "dsr_test/folder", "dsr_test/folder_dup") {
        Ok(_) => println!("copy (dsr_test/folder) success"),
        Err(e) => println!("error: {:?}", e),
    }
}

#[test]
fn test_6_clear_dir_adv() {
    let mut d = disk();
    setup_test_space(&mut d);
    match clear_dir_adv(&mut d, "dsr_test", &vec!["hi.txt", "another_hi.txt", "folderA"]) {
        Ok(_) => println!("clear (dsr_test without hi.txt, another_hi.txt) success"),
        Err(e) => println!("error: {:?}", e),
    }
    assert!(is_path_valid(&d, "dsr_test/folder1/hi.txt"));
    assert!(is_path_valid(&d, "dsr_test/folderA/cfile.cpp"));
    assert!(!is_path_valid(&d, "dsr_test/README.md"));
}

#[test]
fn test_13_is_path_valid() {
    let mut d = disk();
    setup_test_space(&mut d);
    assert!(is_path_valid(&d, "dsr_test/folder1"));
    assert!(!is_path_valid(&d, "dsr_test/nothing"));
}

#[test]
fn test_21_get_parent_name() {
    let mut d = disk();
    setup_test_space(&mut d);
    let mut list = vec![];
    let _ = get_files(&d, ".", &vec![".git", "target", "test_repo"], &mut list);
    println!("{:?}", list);
    assert_eq!(list.len(), 9);
}

#[test]
fn copy_dir_copies_contents() {
    let mut d = disk();
    let _ = create_dir(&mut d, "dsr_test/folder/inner");
    let _ = write_file(&mut d, "dsr_test/folder/inner/rust.rs", "fn main() {}");
    copy_dir(&mut d, "dsr_test/folder", "dsr_test/folder_dup").unwrap();
    assert_eq!(read_file_as_string(&d, "dsr_test/folder_dup/inner/rust.rs").unwrap(), "fn main() {}");
}

#[test]
fn user_without_account_is_named_by_id() {
    assert_eq!(dsr::user_or_id(1000, None), (1000, "1000".to_string()));
    assert_eq!(dsr::user_or_id(0, None), (0, "0".to_string()));
    assert_eq!(dsr::user_or_id(5, Some("alice".to_string())), (5, "alice".to_string()));
}

#[test]
fn clear_dir_adv_reads_ignored_names_below_as_glob_patterns() {
    let mut d = disk();
    create_dir(&mut d, "g/sub").unwrap();
    create_dir(&mut d, "g/other").unwrap();
    write_file(&mut d, "g/sub/main.rs", "fn main() {}").unwrap();
    write_file(&mut d, "g/other/notes.txt", "x").unwrap();
    write_file(&mut d, "g/top.rs", "x").unwrap();
    clear_dir_adv(&mut d, "g", &vec!["*.rs"]).unwrap();
    assert!(is_path_valid(&d, "g/sub"));
    assert!(!is_path_valid(&d, "g/sub/main.rs"));
    assert!(!is_path_valid(&d, "g/other"));
    assert!(!is_path_valid(&d, "g/top.rs"));
}
