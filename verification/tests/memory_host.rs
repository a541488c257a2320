use meltos_wasm::file_system::host::Host;
use meltos_wasm::file_system::memory::MemoryHost;
use meltos_wasm::file_system::node::error::Error;
use meltos_wasm::file_system::node::fs::{
    exists_sync, files_in, is_file, lstat_sync, mkdir_outcome, read_dir_sync, rm_dir_sync,
    rm_recursive, rm_sync,
};

#[test]
fn a_new_host_holds_only_its_root() {
    let host = MemoryHost::new(7);
    assert_eq!(host.exists_sync("/").unwrap(), true);
    assert_eq!(host.exists_sync("").unwrap(), true);
    assert_eq!(host.exists_sync("a").unwrap(), false);
    assert_eq!(host.read_dir_sync("/").unwrap(), Vec::<String>::new());
    let stats = host.lstat_sync("/").unwrap();
    assert!(!stats.is_file);
    assert_eq!(stats.c_time_ms, 7);
    assert_eq!(stats.m_time_ms, 7);
}

#[test]
fn mkdir_makes_every_missing_directory() {
    let mut host = MemoryHost::new(0);
    host.mkdir_sync("a/b/c").unwrap();
    assert!(host.exists_sync("a").unwrap());
    assert!(host.exists_sync("a/b").unwrap());
    assert!(host.exists_sync("/a//b/c/").unwrap());
    assert!(!host.lstat_sync("a/b").unwrap().is_file);
    host.mkdir_sync("a/b").unwrap();
    assert_eq!(host.read_dir_sync("a").unwrap(), vec!["b".to_string()]);
}

#[test]
fn mkdir_over_a_file_already_exists() {
    let mut host = MemoryHost::new(0);
    host.write_file_sync("f", b"1").unwrap();
    let err = host.mkdir_sync("f").unwrap_err();
    assert!(err.already_exists());
    assert_eq!(err.code, "EEXIST");
    let err = host.mkdir_sync("f/g").unwrap_err();
    assert!(!err.already_exists());
    assert_eq!(err.code, "ENOTDIR");
}

#[test]
fn write_file_needs_the_directory() {
    let mut host = MemoryHost::new(0);
    assert_eq!(host.write_file_sync("a/f", b"1").unwrap_err().code, "ENOENT");
    assert_eq!(host.write_file_sync("/", b"1").unwrap_err().code, "EISDIR");
    host.mkdir_sync("a").unwrap();
    host.write_file_sync("a/f", b"1").unwrap();
    assert_eq!(host.read_file_sync("a/f").unwrap(), b"1".to_vec());
    assert_eq!(host.write_file_sync("a", b"1").unwrap_err().code, "EISDIR");
    assert_eq!(host.write_file_sync("a/f/g", b"1").unwrap_err().code, "ENOTDIR");
}

#[test]
fn write_file_keeps_the_time_of_creation() {
    let mut host = MemoryHost::new(10);
    host.write_file_sync("f", b"1").unwrap();
    host.set_time(20);
    host.write_file_sync("f", b"123").unwrap();
    let stats = host.lstat_sync("f").unwrap();
    assert!(stats.is_file);
    assert_eq!(stats.size, 3);
    assert_eq!(stats.c_time_ms, 10);
    assert_eq!(stats.m_time_ms, 20);
}

#[test]
fn read_file_and_read_dir_tell_files_from_directories() {
    let mut host = MemoryHost::new(0);
    host.mkdir_sync("d").unwrap();
    host.write_file_sync("d/f", b"1").unwrap();
    assert_eq!(host.read_file_sync("d").unwrap_err().code, "EISDIR");
    assert_eq!(host.read_file_sync("x").unwrap_err().code, "ENOENT");
    assert_eq!(host.read_dir_sync("d/f").unwrap_err().code, "ENOTDIR");
    assert_eq!(host.read_dir_sync("x").unwrap_err().code, "ENOENT");
    assert_eq!(host.lstat_sync("x").unwrap_err().code, "ENOENT");
}

#[test]
fn rm_removes_a_subtree_and_nothing_else() {
    let mut host = MemoryHost::new(0);
    host.mkdir_sync("a/b").unwrap();
    host.write_file_sync("a/b/f", b"1").unwrap();
    host.write_file_sync("ab", b"2").unwrap();
    host.rm_sync("a").unwrap();
    assert!(!host.exists_sync("a").unwrap());
    assert!(!host.exists_sync("a/b/f").unwrap());
    assert!(host.exists_sync("ab").unwrap());
    host.rm_sync("a").unwrap();
    assert_eq!(host.rm_sync("/").unwrap_err().code, "EBUSY");
}

#[test]
fn rmdir_removes_only_an_empty_directory() {
    let mut host = MemoryHost::new(0);
    host.mkdir_sync("a/b").unwrap();
    host.write_file_sync("f", b"1").unwrap();
    assert_eq!(host.rm_dir_sync("a").unwrap_err().code, "ENOTEMPTY");
    assert_eq!(host.rm_dir_sync("f").unwrap_err().code, "ENOTDIR");
    assert_eq!(host.rm_dir_sync("x").unwrap_err().code, "ENOENT");
    assert_eq!(host.rm_dir_sync("").unwrap_err().code, "EBUSY");
    host.rm_dir_sync("a/b").unwrap();
    host.rm_dir_sync("a").unwrap();
    assert!(!host.exists_sync("a").unwrap());
}

#[test]
fn failures_name_the_call_and_the_code() {
    let mut host = MemoryHost::new(0);
    host.write_file_sync("f", b"1").unwrap();
    assert_eq!(lstat_sync(&host, "x").unwrap_err().to_string(), "failed lstat_sync : ENOENT");
    assert_eq!(is_file(&host, "x").unwrap_err().to_string(), "failed lstat_sync : ENOENT");
    assert_eq!(read_dir_sync(&host, "f").unwrap_err().to_string(), "failed read dir: ENOTDIR");
    assert_eq!(rm_sync(&mut host, "/").unwrap_err().to_string(), "failed fs.rmSync : EBUSY");
    assert_eq!(
        rm_dir_sync(&mut host, "f").unwrap_err().to_string(),
        "failed fs.rmdirSync : ENOTDIR"
    );
}

#[test]
fn the_free_calls_answer_as_the_host_does() {
    let mut host = MemoryHost::new(0);
    host.mkdir_sync("d").unwrap();
    host.write_file_sync("d/f", b"12").unwrap();
    assert!(exists_sync(&host, "d/f").unwrap());
    assert!(!exists_sync(&host, "d/g").unwrap());
    assert!(is_file(&host, "d/f").unwrap());
    assert!(!is_file(&host, "d").unwrap());
    assert_eq!(lstat_sync(&host, "d/f").unwrap().size, 2);
    assert_eq!(read_dir_sync(&host, "d").unwrap(), Some(vec!["f".to_string()]));
    assert_eq!(read_dir_sync(&host, "x").unwrap(), None);
}

#[test]
fn rm_recursive_removes_mixed_children() {
    let mut host = MemoryHost::new(0);
    host.mkdir_sync("t/a/b/c").unwrap();
    host.write_file_sync("t/f1", b"1").unwrap();
    host.write_file_sync("t/a/f2", b"2").unwrap();
    host.write_file_sync("t/a/b/c/f3", b"3").unwrap();
    host.write_file_sync("u", b"4").unwrap();
    rm_recursive(&mut host, "t".to_string()).unwrap();
    assert!(!host.exists_sync("t").unwrap());
    assert!(!host.exists_sync("t/a/b/c/f3").unwrap());
    assert!(host.exists_sync("u").unwrap());
    rm_recursive(&mut host, "t".to_string()).unwrap();
    rm_recursive(&mut host, "u".to_string()).unwrap();
    assert_eq!(host.read_dir_sync("/").unwrap(), Vec::<String>::new());
}

#[test]
fn rm_recursive_cannot_remove_the_root() {
    let mut host = MemoryHost::new(0);
    host.write_file_sync("f", b"1").unwrap();
    assert!(rm_recursive(&mut host, "/".to_string()).is_err());
}

#[test]
fn files_in_leads_the_logical_path_down() {
    let mut host = MemoryHost::new(0);
    host.mkdir_sync("r/x/y").unwrap();
    host.write_file_sync("r/x/a", b"1").unwrap();
    host.write_file_sync("r/x/y/b", b"2").unwrap();
    let mut files = files_in(&host, "r/x", "x").unwrap();
    files.sort();
    assert_eq!(files, vec!["x/a".to_string(), "x/y/b".to_string()]);
    let mut files = files_in(&host, "r", "").unwrap();
    files.sort();
    assert_eq!(files, vec!["x/a".to_string(), "x/y/b".to_string()]);
    assert_eq!(files_in(&host, "r/x/a", "it").unwrap(), vec!["it".to_string()]);
    assert_eq!(files_in(&host, "r/none", "it").unwrap(), Vec::<String>::new());
}

#[test]
fn mkdir_outcome_takes_already_exists_as_success() {
    assert!(mkdir_outcome(Ok(())).is_ok());
    assert!(mkdir_outcome(Err(Error::new("EEXIST"))).is_ok());
    let failed = mkdir_outcome(Err(Error::new("ENOTDIR"))).unwrap_err();
    assert_eq!(failed.to_string(), "failed to create dir ENOTDIR");
    let failed = mkdir_outcome(Err(Error::new("EACCES"))).unwrap_err();
    assert_eq!(failed.to_string(), "failed to create dir EACCES");
}

#[test]
fn rm_recursive_of_a_missing_entry_changes_nothing() {
    let mut host = MemoryHost::new(0);
    host.mkdir_sync("a/b").unwrap();
    host.write_file_sync("a/f", b"1").unwrap();
    rm_recursive(&mut host, "a/x".to_string()).unwrap();
    rm_recursive(&mut host, "c".to_string()).unwrap();
    let mut names = host.read_dir_sync("a").unwrap();
    names.sort();
    assert_eq!(names, vec!["b".to_string(), "f".to_string()]);
    assert_eq!(host.read_file_sync("a/f").unwrap(), b"1".to_vec());
}
