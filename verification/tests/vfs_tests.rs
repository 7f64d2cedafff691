use servefs::vfs::{Directory, FSConnection, FSError, FSType, File, FileType};

#[test]
fn test_fs_connection() {
    let mut fs_conn = FSConnection::new("servefs_");

    let file = File::new("/file").unwrap();
    file.mk("data", &FileType::Text, &mut fs_conn).unwrap();
    assert!(file.exists_in(&fs_conn).unwrap());

    let dir = Directory::new("/h/").unwrap();
    dir.mk(&mut fs_conn).unwrap();
    assert!(dir.exists_in(&fs_conn).unwrap());

    assert!(matches!(
        fs_conn.resolve_path("/file").unwrap(),
        FSType::File(_)
    ));
    assert!(matches!(
        fs_conn.resolve_path("/h").unwrap(),
        FSType::Directory(_)
    ));

    let (file_table, dir_table, file_type_table) = FSConnection::create_table_names("servefs_");
    assert_eq!(file_table, "servefs_files");
    assert_eq!(dir_table, "servefs_dirs");
    assert_eq!(file_type_table, "servefs_file_types");

    let found = vec![
        file_table.clone(),
        dir_table.clone(),
        file_type_table.clone(),
    ];
    assert!(FSConnection::tables_to_create(&found, &file_table, &dir_table, &file_type_table)
        .is_empty());

    let none_found: Vec<String> = Vec::new();
    let plan =
        FSConnection::tables_to_create(&none_found, &file_table, &dir_table, &file_type_table);
    assert_eq!(plan, vec![file_type_table, dir_table, file_table]);
}

#[test]
fn test_file() {
    let mut fs_conn = FSConnection::new("servefs_");
    let mut file = File::new("/file").unwrap();

    assert!(!file.exists_in(&fs_conn).unwrap());
    file.mk("data", &FileType::Text, &mut fs_conn).unwrap();
    assert!(file.exists_in(&fs_conn).unwrap());

    file.rename("file_2", &mut fs_conn).unwrap();
    assert!(file.exists_in(&fs_conn).unwrap());
    assert_eq!(file.name, "file_2");

    let new_dir = Directory::new("/home/").unwrap();
    new_dir.mk(&mut fs_conn).unwrap();

    file.mv(new_dir, &mut fs_conn).unwrap();
    assert!(file.exists_in(&fs_conn).unwrap());
    assert_eq!(file.directory.path, "/home/");

    let (data, ftype) = file.read(&fs_conn).unwrap();
    assert_eq!(data, "data");
    assert_eq!(ftype, FileType::Text.to_string());

    file.write("a program", FileType::Exec, &mut fs_conn).unwrap();
    let (data, ftype) = file.read(&fs_conn).unwrap();
    assert_eq!(data, "a program");
    assert_eq!(ftype, FileType::Exec.to_string());

    file.del(&mut fs_conn).unwrap();
    assert!(!file.exists_in(&fs_conn).unwrap());
}

#[test]
fn test_directory() {
    let mut fs_conn = FSConnection::new("servefs_");
    let mut dir = Directory::new("/h/").unwrap();
    let sub_a = Directory::new("/h/a").unwrap();
    let sub_b = Directory::new("/h/b").unwrap();
    let file = File::new("/h/file").unwrap();

    assert!(!dir.exists_in(&fs_conn).unwrap());
    dir.mk(&mut fs_conn).unwrap();
    assert!(dir.exists_in(&fs_conn).unwrap());

    sub_a.mk(&mut fs_conn).unwrap();
    assert!(sub_a.exists_in(&fs_conn).unwrap());
    sub_b.mk(&mut fs_conn).unwrap();
    assert!(sub_b.exists_in(&fs_conn).unwrap());
    file.mk("data", &FileType::Text, &mut fs_conn).unwrap();
    assert!(file.exists_in(&fs_conn).unwrap());

    let target = Directory::new(dir.rename("home").unwrap().as_str()).unwrap();
    dir.mv(&target, &mut fs_conn).unwrap();

    assert!(dir.exists_in(&fs_conn).unwrap());
    assert_eq!(dir.path, "/home/");
    assert!(!sub_a.exists_in(&fs_conn).unwrap());
    assert!(!sub_b.exists_in(&fs_conn).unwrap());
    assert!(!file.exists_in(&fs_conn).unwrap());
    let sub_a = Directory::new("/home/a").unwrap();
    let sub_b = Directory::new("/home/b").unwrap();
    let file = File::new("/home/file").unwrap();
    assert!(sub_a.exists_in(&fs_conn).unwrap());
    assert!(sub_b.exists_in(&fs_conn).unwrap());
    assert!(file.exists_in(&fs_conn).unwrap());

    let file_a = File::new("/home/a/file_a").unwrap();
    file_a.mk("data", &FileType::Text, &mut fs_conn).unwrap();
    assert!(file_a.exists_in(&fs_conn).unwrap());

    let files = dir.files(&fs_conn).unwrap();
    assert_eq!(files.len(), 1);
    assert_eq!(files[0].name, "file");

    let dirs: Vec<String> = dir
        .dirs(&fs_conn)
        .unwrap()
        .iter()
        .map(|r| r.path.clone())
        .collect();
    assert_eq!(dirs.len(), 2);
    assert!(dirs.contains(&"/home/a/".to_string()));
    assert!(dirs.contains(&"/home/b/".to_string()));

    let all = dir.recurse(&fs_conn).unwrap();
    assert_eq!(all.0.len(), 2);
    assert_eq!(all.1.len(), 2);

    let files: Vec<String> = all.0.iter().map(|r| r.name.clone()).collect();
    assert!(files.contains(&"file".to_string()));
    assert!(files.contains(&"file_a".to_string()));

    let dirs: Vec<String> = all.1.iter().map(|r| r.path.clone()).collect();
    assert!(dirs.contains(&"/home/a/".to_string()));
    assert!(dirs.contains(&"/home/b/".to_string()));
}

#[test]
fn file_lifecycle_scenario() {
    let mut fs_conn = FSConnection::new("servefs_");
    let mut file = File::new("/file").unwrap();
    file.mk("data", &FileType::Text, &mut fs_conn).unwrap();
    assert!(file.exists_in(&fs_conn).unwrap());
    let (data, kind) = file.read(&fs_conn).unwrap();
    assert_eq!(data, "data");
    assert_eq!(kind, "text");
    file.rename("file_2", &mut fs_conn).unwrap();
    let (data, kind) = file.read(&fs_conn).unwrap();
    assert_eq!(data, "data");
    assert_eq!(kind, "text");
    file.del(&mut fs_conn).unwrap();
    assert!(!file.exists_in(&fs_conn).unwrap());
}

#[test]
fn dir_move_scenario() {
    let mut fs_conn = FSConnection::new("servefs_");
    let mut h = Directory::new("/h/").unwrap();
    h.mk(&mut fs_conn).unwrap();
    Directory::new("/h/a/").unwrap().mk(&mut fs_conn).unwrap();
    Directory::new("/h/b/").unwrap().mk(&mut fs_conn).unwrap();
    File::new("/h/file")
        .unwrap()
        .mk("data", &FileType::Text, &mut fs_conn)
        .unwrap();
    File::new("/h/a/file_a")
        .unwrap()
        .mk("data", &FileType::Text, &mut fs_conn)
        .unwrap();

    let (rfiles, rdirs) = h.recurse(&fs_conn).unwrap();
    let names: Vec<String> = rfiles.iter().map(|r| r.name.clone()).collect();
    assert_eq!(names.len(), 2);
    assert!(names.contains(&"file".to_string()));
    assert!(names.contains(&"file_a".to_string()));
    let paths: Vec<String> = rdirs.iter().map(|r| r.path.clone()).collect();
    assert_eq!(paths.len(), 2);
    assert!(paths.contains(&"/h/a/".to_string()));
    assert!(paths.contains(&"/h/b/".to_string()));

    let home = Directory::new("/home/").unwrap();
    h.mv(&home, &mut fs_conn).unwrap();
    assert_eq!(h.path, "/home/");
    assert!(Directory::new("/home/").unwrap().exists_in(&fs_conn).unwrap());
    assert!(Directory::new("/home/a/").unwrap().exists_in(&fs_conn).unwrap());
    assert!(Directory::new("/home/b/").unwrap().exists_in(&fs_conn).unwrap());
    assert!(File::new("/home/file").unwrap().exists_in(&fs_conn).unwrap());
    assert!(File::new("/home/a/file_a").unwrap().exists_in(&fs_conn).unwrap());
    assert!(!Directory::new("/h/").unwrap().exists_in(&fs_conn).unwrap());
    assert!(!Directory::new("/h/a/").unwrap().exists_in(&fs_conn).unwrap());
    assert!(!Directory::new("/h/b/").unwrap().exists_in(&fs_conn).unwrap());
    assert!(!File::new("/h/file").unwrap().exists_in(&fs_conn).unwrap());
    assert!(!File::new("/h/a/file_a").unwrap().exists_in(&fs_conn).unwrap());
}

#[test]
fn mk_duplicate_fails() {
    let mut fs_conn = FSConnection::new("servefs_");
    let file = File::new("/file").unwrap();
    file.mk("data", &FileType::Text, &mut fs_conn).unwrap();
    let again = file.mk("other", &FileType::Text, &mut fs_conn);
    assert!(matches!(again, Err(FSError::Storage(_))));
    let (data, _) = file.read(&fs_conn).unwrap();
    assert_eq!(data, "data");

    let dir = Directory::new("/h/").unwrap();
    dir.mk(&mut fs_conn).unwrap();
    assert!(matches!(dir.mk(&mut fs_conn), Err(FSError::Storage(_))));
}

#[test]
fn mk_into_missing_directory_fails() {
    let mut fs_conn = FSConnection::new("servefs_");
    let file = File::new("/nowhere/file").unwrap();
    let r = file.mk("data", &FileType::Text, &mut fs_conn);
    assert!(matches!(r, Err(FSError::Storage(_))));
    assert!(!file.exists_in(&fs_conn).unwrap());
}

#[test]
fn del_of_missing_is_noop() {
    let mut fs_conn = FSConnection::new("servefs_");
    let file = File::new("/ghost").unwrap();
    assert!(file.del(&mut fs_conn).is_ok());
    assert!(!file.exists_in(&fs_conn).unwrap());
    let dir = Directory::new("/ghosts/").unwrap();
    assert!(dir.del(&mut fs_conn).is_ok());
    assert!(!dir.exists_in(&fs_conn).unwrap());
}

#[test]
fn root_del_and_restore() {
    let mut fs_conn = FSConnection::new("servefs_");
    let root = Directory::root();
    assert!(root.exists_in(&fs_conn).unwrap());
    root.del(&mut fs_conn).unwrap();
    assert!(!root.exists_in(&fs_conn).unwrap());
    root.mk(&mut fs_conn).unwrap();
    assert!(root.exists_in(&fs_conn).unwrap());
}

#[test]
fn dir_del_cascades_to_files_only() {
    let mut fs_conn = FSConnection::new("servefs_");
    let dir = Directory::new("/h/").unwrap();
    dir.mk(&mut fs_conn).unwrap();
    Directory::new("/h/sub/").unwrap().mk(&mut fs_conn).unwrap();
    let file = File::new("/h/file").unwrap();
    file.mk("data", &FileType::Text, &mut fs_conn).unwrap();

    dir.del(&mut fs_conn).unwrap();
    assert!(!dir.exists_in(&fs_conn).unwrap());
    assert!(!file.exists_in(&fs_conn).unwrap());
    assert!(Directory::new("/h/sub/").unwrap().exists_in(&fs_conn).unwrap());
}

#[test]
fn rename_to_taken_name_fails() {
    let mut fs_conn = FSConnection::new("servefs_");
    let mut a = File::new("/a").unwrap();
    a.mk("one", &FileType::Text, &mut fs_conn).unwrap();
    let b = File::new("/b").unwrap();
    b.mk("two", &FileType::Text, &mut fs_conn).unwrap();
    assert!(matches!(
        a.rename("b", &mut fs_conn),
        Err(FSError::Storage(_))
    ));
    assert_eq!(a.name, "a");
    assert!(matches!(
        a.rename("with/slash", &mut fs_conn),
        Err(FSError::PathIsNotAFile(_))
    ));
}

#[test]
fn mv_file_to_missing_directory_fails() {
    let mut fs_conn = FSConnection::new("servefs_");
    let mut file = File::new("/file").unwrap();
    file.mk("data", &FileType::Text, &mut fs_conn).unwrap();
    let nowhere = Directory::new("/nowhere/").unwrap();
    assert!(matches!(
        file.mv(nowhere, &mut fs_conn),
        Err(FSError::Storage(_))
    ));
    assert_eq!(file.directory.path, "/");
}

#[test]
fn dir_mv_onto_taken_path_fails() {
    let mut fs_conn = FSConnection::new("servefs_");
    let mut a = Directory::new("/a/").unwrap();
    a.mk(&mut fs_conn).unwrap();
    let b = Directory::new("/b/").unwrap();
    b.mk(&mut fs_conn).unwrap();
    assert!(matches!(a.mv(&b, &mut fs_conn), Err(FSError::Storage(_))));
    assert_eq!(a.path, "/a/");
    assert!(a.exists_in(&fs_conn).unwrap());
}

#[test]
fn resolve_missing_path_fails() {
    let fs_conn = FSConnection::new("servefs_");
    let r = fs_conn.resolve_path("/nothing/here");
    assert!(matches!(r, Err(FSError::DoesNotExist(p)) if p == "/nothing/here"));
}

#[test]
fn kind_strings_round_trip() {
    assert_eq!(FileType::Text.to_string(), "text");
    assert_eq!(FileType::File.to_string(), "file");
    assert_eq!(FileType::Exec.to_string(), "exec");
    assert!(matches!(FileType::from_str("text"), Ok(FileType::Text)));
    assert!(matches!(FileType::from_str("file"), Ok(FileType::File)));
    assert!(matches!(FileType::from_str("exec"), Ok(FileType::Exec)));
    assert!(matches!(
        FileType::from_str("folder"),
        Err(FSError::InvalidType(s)) if s == "folder"
    ));
}

#[test]
fn paths_normalize_against_root() {
    assert_eq!(Directory::new("/a/../b").unwrap().path, "/b/");
    assert_eq!(Directory::new("/../..").unwrap().path, "/");
    assert_eq!(Directory::new("a//b/./c").unwrap().path, "/a/b/c/");
    assert_eq!(Directory::root().path, "/");

    let f = File::new("/a/b/c").unwrap();
    assert_eq!(f.directory.path, "/a/b/");
    assert_eq!(f.name, "c");
    let f = File::new("/x/y/..").unwrap();
    assert_eq!(f.name, "x");
    assert_eq!(f.directory.path, "/");
    assert!(matches!(
        File::new("/"),
        Err(FSError::PathIsNotAFile(p)) if p == "/"
    ));

    let d = Directory::new("/h/").unwrap();
    assert_eq!(d.rename("home").unwrap(), "/home/");
    let d = Directory::new("/a/b/").unwrap();
    assert_eq!(d.rename("c").unwrap(), "/a/c/");
}
