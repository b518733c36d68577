use memristor::error::FileSystemError;
use memristor::filetree::{make_id, read_directory, read_filesystem, DirListing, FileTree, FsDir, Message};

fn dir(name: &str, path: &str, files: Vec<&str>, dirs: Vec<DirListing>) -> DirListing {
    DirListing {
        name: name.to_string(),
        path: path.to_string(),
        listed: true,
        files: files.into_iter().map(|f| f.to_string()).collect(),
        dirs,
    }
}

fn make_test_fs(subpath: &str) -> String {
    format!("./test/test_fs/{}", subpath)
}

fn populated() -> DirListing {
    let root = make_test_fs("populated");
    let typst = format!("{}/typst", root);
    dir(
        "populated",
        &root,
        vec![],
        vec![
            dir(
                "typst",
                &typst,
                vec!["./test/test_fs/populated/typst/top_level.typ"],
                vec![
                    dir(
                        "dir2",
                        &format!("{}/dir2", typst),
                        vec!["./test/test_fs/populated/typst/dir2/.gitkeep"],
                        vec![],
                    ),
                    dir(
                        "dir1",
                        &format!("{}/dir1", typst),
                        vec!["./test/test_fs/populated/typst/dir1/in_dir1.typ"],
                        vec![],
                    ),
                ],
            ),
            dir("pdf", &format!("{}/pdf", root), vec![], vec![]),
        ],
    )
}

#[test]
fn empty_dir() {
    let test_fs = dir("empty", &make_test_fs("empty"), vec![], vec![]);
    let result = read_filesystem(&test_fs);
    assert!(result.is_err());
    assert_eq!(result.unwrap_err(), FileSystemError::NotMemristerDirectory);
}

#[test]
fn populated_dir() {
    let expected = FsDir {
        id: "_0".into(),
        path: "typst".into(),
        files: vec!["./test/test_fs/populated/typst/top_level.typ".to_string()],
        expanded: false,
        dirs: vec![
            FsDir {
                id: "_0_0".into(),
                path: "dir2".into(),
                files: vec!["./test/test_fs/populated/typst/dir2/.gitkeep".to_string()],
                dirs: vec![],
                expanded: false,
            },
            FsDir {
                id: "_0_1".into(),
                path: "dir1".into(),
                files: vec!["./test/test_fs/populated/typst/dir1/in_dir1.typ".to_string()],
                dirs: vec![],
                expanded: false,
            },
        ],
    };

    let test_fs = populated();
    let result = read_filesystem(&test_fs);
    assert!(result.is_ok());
    assert_eq!(expected, result.unwrap());
}

#[test]
fn only_typst_is_not_a_project() {
    let root = dir("p", "/p", vec![], vec![dir("typst", "/p/typst", vec![], vec![])]);
    assert_eq!(read_filesystem(&root).unwrap_err(), FileSystemError::NotMemristerDirectory);
}

#[test]
fn only_pdf_is_not_a_project() {
    let root = dir("p", "/p", vec![], vec![dir("pdf", "/p/pdf", vec![], vec![])]);
    assert_eq!(read_filesystem(&root).unwrap_err(), FileSystemError::NotMemristerDirectory);
}

#[test]
fn files_named_like_the_layout_do_not_count() {
    let root = dir("p", "/p", vec!["/p/pdf"], vec![dir("typst", "/p/typst", vec![], vec![])]);
    assert_eq!(read_filesystem(&root).unwrap_err(), FileSystemError::NotMemristerDirectory);
}

#[test]
fn project_is_rooted_at_typst() {
    let root = dir(
        "p",
        "/p",
        vec!["/p/readme"],
        vec![
            dir("pdf", "/p/pdf", vec!["/p/pdf/out.pdf"], vec![]),
            dir("typst", "/p/typst", vec!["/p/typst/main.typ"], vec![]),
        ],
    );
    let tree = read_filesystem(&root).unwrap();
    assert_eq!(tree.path, "typst");
    assert_eq!(tree.id, "_0");
    assert_eq!(tree.files, vec!["/p/typst/main.typ".to_string()]);
    assert!(tree.dirs.is_empty());
}

#[test]
fn unreadable_root_is_a_read_error() {
    let mut root = dir("p", "/p", vec![], vec![]);
    root.listed = false;
    assert_eq!(
        read_filesystem(&root).unwrap_err(),
        FileSystemError::ReadDirError { path: "/p".to_string() }
    );
}

#[test]
fn unreadable_subdirectory_fails_the_whole_read() {
    let mut bad = dir("b", "/p/typst/a/b", vec![], vec![]);
    bad.listed = false;
    let mut also_bad = dir("c", "/p/typst/c", vec![], vec![]);
    also_bad.listed = false;
    let root = dir(
        "p",
        "/p",
        vec![],
        vec![
            dir(
                "typst",
                "/p/typst",
                vec![],
                vec![dir("a", "/p/typst/a", vec![], vec![bad]), also_bad],
            ),
            dir("pdf", "/p/pdf", vec![], vec![]),
        ],
    );
    assert_eq!(
        read_filesystem(&root).unwrap_err(),
        FileSystemError::ReadDirError { path: "/p/typst/a/b".to_string() }
    );
}

#[test]
fn tree_shape_and_ids() {
    let tree = read_filesystem(&populated()).unwrap();
    assert_eq!(tree.dirs.len(), 2);
    for child in tree.dirs.iter() {
        assert_eq!(child.files.len(), 1);
        assert!(child.id.starts_with(&tree.id));
        assert!(child.id.len() > tree.id.len());
    }
    assert_ne!(tree.dirs[0].id, tree.dirs[1].id);
}

#[test]
fn ids_of_deeper_and_later_directories() {
    let mut subdirs = Vec::new();
    for k in 0..12 {
        subdirs.push(dir(&format!("d{}", k), &format!("/t/d{}", k), vec![], vec![]));
    }
    subdirs[11].dirs.push(dir("deep", "/t/d11/deep", vec![], vec![]));
    let t = read_directory(&dir("t", "/t", vec![], subdirs), "_0", 3).unwrap();
    assert_eq!(t.id, "_0_3");
    assert_eq!(t.dirs[10].id, "_0_3_10");
    assert_eq!(t.dirs[11].dirs[0].id, "_0_3_11_0");
    assert_eq!(make_id("", 0), "_0");
    assert_eq!(make_id("_7", 120), "_7_120");
}

#[test]
fn toggling_twice_restores_and_unknown_ids_change_nothing() {
    let mut tree = read_filesystem(&populated()).unwrap();
    let before = read_filesystem(&populated()).unwrap();
    assert!(tree.toggle_expanded(&"_0_1".to_string()));
    assert!(tree.dirs[1].expanded);
    assert!(!tree.dirs[0].expanded);
    assert!(!tree.expanded);
    assert!(tree.toggle_expanded(&"_0_1".to_string()));
    assert_eq!(tree, before);
    assert!(!tree.toggle_expanded(&"_0_9".to_string()));
    assert_eq!(tree, before);
    assert!(tree.toggle_expanded(&"_0".to_string()));
    assert!(tree.expanded);
}

#[test]
fn file_tree_opens_and_toggles() {
    let mut ft = FileTree::new();
    assert!(ft.root.is_none());
    assert!(ft.update(Message::ToggleExpandDir("_0".to_string())).is_ok());
    assert!(ft.root.is_none());
    assert!(ft.update(Message::OpenDir(populated())).is_ok());
    assert_eq!(ft.root.as_ref().unwrap().id, "_0");
    assert!(ft.update(Message::ToggleExpandDir("_0_0".to_string())).is_ok());
    assert!(ft.root.as_ref().unwrap().dirs[0].expanded);
    assert!(ft.update(Message::OpenFile("/x.typ".to_string())).is_ok());
    assert!(ft.root.as_ref().unwrap().dirs[0].expanded);
    let not_project = dir("q", "/q", vec![], vec![]);
    assert_eq!(
        ft.update(Message::OpenDir(not_project)),
        Err(FileSystemError::NotMemristerDirectory)
    );
    assert!(ft.root.as_ref().unwrap().dirs[0].expanded);
}

#[test]
fn toggling_a_shared_id_flips_one_node() {
    let mut tree = read_filesystem(&populated()).unwrap();
    tree.dirs[0].id = "_0_1".to_string();
    assert!(tree.contains_id(&"_0_1".to_string()));
    assert!(tree.toggle_expanded(&"_0_1".to_string()));
    assert!(tree.dirs[1].expanded);
    assert!(!tree.dirs[0].expanded);
    assert!(tree.toggle_expanded(&"_0_1".to_string()));
    assert!(!tree.dirs[1].expanded);
    assert!(!tree.dirs[0].expanded);
}
