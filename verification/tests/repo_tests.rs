use repo_manager::paths::parse_rel_path;
use repo_manager::repo::Entry;
use repo_manager::repo::MoveEntryPayload;
use repo_manager::repo::RenameDirPayload;
use repo_manager::repo::Repo;
use repo_manager::OpError;

fn path(s: &str) -> Vec<String> {
    parse_rel_path(s).expect("test path must be valid")
}

fn names(es: &[Entry]) -> Vec<&str> {
    es.iter().map(|e| e.name.as_str()).collect()
}

#[test]
fn scenario_create_upload_list_delete() {
    let mut repo = Repo::new();
    assert_eq!(repo.create_dir_all(&path("a/b")), Ok(()));
    let es = repo.list(&path("a")).unwrap();
    assert_eq!(es.len(), 1);
    assert_eq!(es[0].name, "b");
    assert!(!es[0].is_file);
    assert_eq!(repo.upload(&path("a/b/f.txt"), vec![1, 2, 3]), Ok(()));
    let es = repo.list(&path("a/b")).unwrap();
    assert_eq!(es.len(), 1);
    assert_eq!(es[0].name, "f.txt");
    assert!(es[0].is_file);
    assert_eq!(repo.delete_dir(&path("a")), Ok(()));
    assert!(matches!(repo.list(&path("a")), Err(OpError::NotFound)));
}

#[test]
fn create_dir_is_idempotent() {
    let mut repo = Repo::new();
    assert_eq!(repo.create_dir_all(&path("x/y/z")), Ok(()));
    assert_eq!(repo.create_dir_all(&path("x/y/z")), Ok(()));
    let es = repo.list(&path("x/y")).unwrap();
    assert_eq!(names(&es), vec!["z"]);
}

#[test]
fn create_dir_refuses_file_in_the_way() {
    let mut repo = Repo::new();
    assert_eq!(repo.upload(&path("f"), vec![0]), Ok(()));
    assert_eq!(repo.create_dir_all(&path("f/sub")), Err(OpError::IoError));
    // nothing changed: the root still holds exactly the file
    let es = repo.list(&path("")).unwrap();
    assert_eq!(names(&es), vec!["f"]);
    assert!(es[0].is_file);
}

#[test]
fn delete_file_missing_is_not_found_and_mutates_nothing() {
    let mut repo = Repo::new();
    assert_eq!(repo.create_dir_all(&path("keep")), Ok(()));
    assert_eq!(repo.delete_file(&path("absent")), Err(OpError::NotFound));
    let es = repo.list(&path("")).unwrap();
    assert_eq!(names(&es), vec!["keep"]);
}

#[test]
fn delete_file_refuses_directory() {
    let mut repo = Repo::new();
    assert_eq!(repo.create_dir_all(&path("d")), Ok(()));
    assert_eq!(repo.delete_file(&path("d")), Err(OpError::IoError));
}

#[test]
fn delete_dir_refuses_file_and_missing() {
    let mut repo = Repo::new();
    assert_eq!(repo.upload(&path("f"), vec![9]), Ok(()));
    assert_eq!(repo.delete_dir(&path("f")), Err(OpError::IoError));
    assert_eq!(repo.delete_dir(&path("gone")), Err(OpError::NotFound));
}

#[test]
fn delete_dir_removes_whole_subtree() {
    let mut repo = Repo::new();
    assert_eq!(repo.create_dir_all(&path("a/b/c")), Ok(()));
    assert_eq!(repo.upload(&path("a/b/f.txt"), vec![1]), Ok(()));
    assert_eq!(repo.create_dir_all(&path("other")), Ok(()));
    assert_eq!(repo.delete_dir(&path("a/b")), Ok(()));
    assert_eq!(repo.list(&path("a")).unwrap().len(), 0);
    assert!(matches!(repo.list(&path("a/b")), Err(OpError::NotFound)));
    assert_eq!(repo.list(&path("other")).unwrap().len(), 0);
}

#[test]
fn rename_shows_new_name_and_drops_old() {
    let mut repo = Repo::new();
    assert_eq!(repo.create_dir_all(&path("a")), Ok(()));
    assert_eq!(repo.upload(&path("a/old.txt"), vec![7]), Ok(()));
    let payload = RenameDirPayload { new_name: String::from("new.txt") };
    assert_eq!(repo.rename_entry(&path("a/old.txt"), &payload.new_name), Ok(()));
    let es = repo.list(&path("a")).unwrap();
    assert_eq!(names(&es), vec!["new.txt"]);
    assert!(es[0].is_file);
}

#[test]
fn rename_directory_carries_children() {
    let mut repo = Repo::new();
    assert_eq!(repo.create_dir_all(&path("a/inner")), Ok(()));
    assert_eq!(repo.upload(&path("a/inner/f"), vec![1]), Ok(()));
    assert_eq!(repo.rename_entry(&path("a"), &String::from("b")), Ok(()));
    assert_eq!(names(&repo.list(&path("b")).unwrap()), vec!["inner"]);
    assert_eq!(names(&repo.list(&path("b/inner")).unwrap()), vec!["f"]);
    assert!(matches!(repo.list(&path("a")), Err(OpError::NotFound)));
}

#[test]
fn rename_errors() {
    let mut repo = Repo::new();
    assert_eq!(repo.rename_entry(&path("nope"), &String::from("x")), Err(OpError::NotFound));
    assert_eq!(repo.upload(&path("a"), vec![1]), Ok(()));
    assert_eq!(repo.upload(&path("b"), vec![2]), Ok(()));
    assert_eq!(repo.rename_entry(&path("a"), &String::from("b")), Err(OpError::IoError));
    // renaming to the same name is accepted and changes nothing
    assert_eq!(repo.rename_entry(&path("a"), &String::from("a")), Ok(()));
}

#[test]
fn move_shows_in_destination_and_leaves_parent() {
    let mut repo = Repo::new();
    assert_eq!(repo.create_dir_all(&path("src_dir")), Ok(()));
    assert_eq!(repo.create_dir_all(&path("dst_dir")), Ok(()));
    assert_eq!(repo.upload(&path("src_dir/f.txt"), vec![1]), Ok(()));
    let payload = MoveEntryPayload { new_path: String::from("dst_dir") };
    assert_eq!(repo.move_entry(&path("src_dir/f.txt"), &path(&payload.new_path)), Ok(()));
    assert_eq!(names(&repo.list(&path("dst_dir")).unwrap()), vec!["f.txt"]);
    assert_eq!(repo.list(&path("src_dir")).unwrap().len(), 0);
}

#[test]
fn move_errors() {
    let mut repo = Repo::new();
    assert_eq!(repo.move_entry(&path("gone"), &path("")), Err(OpError::NotFound));
    assert_eq!(repo.create_dir_all(&path("a/b")), Ok(()));
    // destination directory must exist
    assert_eq!(repo.move_entry(&path("a/b"), &path("nowhere")), Err(OpError::NotFound));
    // an entry cannot move into its own subtree
    assert_eq!(repo.move_entry(&path("a"), &path("a/b")), Err(OpError::IoError));
    // moving onto an existing entry collides
    assert_eq!(repo.upload(&path("a/x"), vec![1]), Ok(()));
    assert_eq!(repo.upload(&path("x"), vec![2]), Ok(()));
    assert_eq!(repo.move_entry(&path("x"), &path("a")), Err(OpError::IoError));
    // moving to where it already stands is accepted
    assert_eq!(repo.move_entry(&path("a/x"), &path("a")), Ok(()));
}

#[test]
fn upload_overwrites_and_needs_parent() {
    let mut repo = Repo::new();
    assert_eq!(repo.upload(&path("missing/f"), vec![1]), Err(OpError::IoError));
    assert_eq!(repo.create_dir_all(&path("d")), Ok(()));
    assert_eq!(repo.upload(&path("d/f"), vec![1]), Ok(()));
    assert_eq!(repo.upload(&path("d/f"), vec![2, 3]), Ok(()));
    let es = repo.list(&path("d")).unwrap();
    assert_eq!(es.len(), 1);
    assert!(es[0].is_file);
    // a directory cannot be overwritten by a file
    assert_eq!(repo.upload(&path("d"), vec![4]), Err(OpError::IoError));
}

#[test]
fn list_of_file_is_not_found() {
    let mut repo = Repo::new();
    assert_eq!(repo.upload(&path("f"), vec![1]), Ok(()));
    assert!(matches!(repo.list(&path("f")), Err(OpError::NotFound)));
}

#[test]
fn list_root_of_empty_repository() {
    let repo = Repo::new();
    assert_eq!(repo.list(&path("")).unwrap().len(), 0);
}
