use meltos_wasm::file_system::memory::MemoryHost;
use meltos_wasm::file_system::node::NodeFileSystem;

fn node_fs() -> NodeFileSystem<MemoryHost> {
    NodeFileSystem::new("/home/user/tmp".to_string(), MemoryHost::new(0))
}

#[test]
fn read_root_dir() {
    let mut fs = node_fs();
    fs.delete("dir1").unwrap();
    fs.create_dir_sync("dir1").unwrap();
    let dir = fs.read_dir("dir1").unwrap();
    assert_eq!(dir.unwrap().len(), 0);
}

#[test]
fn read_root_dir_with_files() {
    let mut fs = node_fs();
    fs.delete("dir2").unwrap();
    fs.write_file("dir2/1.txt", b"1").unwrap();
    fs.write_file("dir2/2.txt", b"1").unwrap();
    fs.write_file("dir2/3.txt", b"1").unwrap();

    let dir = fs.read_dir("dir2").unwrap();
    assert_eq!(dir.unwrap().len(), 3);
}

#[test]
fn create_src_dir() {
    let mut fs = node_fs();
    fs.delete("dir3").unwrap();
    fs.create_dir("dir3").unwrap();
    let dir = fs.read_dir("dir3").unwrap().unwrap();
    assert_eq!(dir.len(), 0);

    fs.write_file("dir3/hello.txt", b"hello").unwrap();
    let src = fs.read_dir("dir3").unwrap().unwrap();
    assert_eq!(src.len(), 1);
}

#[test]
fn create_parent_dirs() {
    let mut fs = node_fs();
    fs.delete("dir4").unwrap();
    fs.write_sync("dir4/hello.txt", b"hello").unwrap();
    fs.write_sync("dir4/hello2.txt", b"hello").unwrap();
    fs.write_sync("dir4/hello3.txt", b"hello").unwrap();

    let dist = fs.read_dir("dir4").unwrap().unwrap();
    assert_eq!(dist.len(), 3);
}

#[test]
fn read_hello_world() {
    let mut fs = node_fs();
    fs.delete("dir5").unwrap();
    fs.write_sync("dir5/hello.txt", b"hello world").unwrap();
    fs.write_sync("dir5/dist/hello.txt", b"hello world").unwrap();
    fs.write_sync("dir5/dist/sample/hello.txt", b"hello world").unwrap();

    let buf = fs.read_file("dir5/hello.txt").unwrap();
    assert_eq!(buf, Some(b"hello world".to_vec()));
    let buf = fs.read_file("dir5//dist/hello.txt").unwrap();
    assert_eq!(buf, Some(b"hello world".to_vec()));
    let buf = fs.read_file("dir5/dist/sample/hello.txt").unwrap();
    assert_eq!(buf, Some(b"hello world".to_vec()));
}

#[test]
fn read_file_start_with_period() {
    let mut fs = node_fs();
    fs.delete("dir6").unwrap();
    fs.write_sync("dir6/hello.txt", b"hello world").unwrap();
    fs.write_sync("dir6/dist/hello.txt", b"hello world").unwrap();
    fs.write_sync("dir6/dist/sample/hello.txt", b"hello world").unwrap();

    let buf = fs.read_file("dir6/hello.txt").unwrap();
    assert_eq!(buf, Some(b"hello world".to_vec()));
    let buf = fs.read_file("dir6/dist/hello.txt").unwrap();
    assert_eq!(buf, Some(b"hello world".to_vec()));
    let buf = fs.read_file("dir6/dist/sample/hello.txt").unwrap();
    assert_eq!(buf, Some(b"hello world".to_vec()));
    let buf = fs.read_file("./dir6/hello.txt").unwrap();
    assert_eq!(buf, Some(b"hello world".to_vec()));
    let buf = fs.read_file("././dir6/dist/hello.txt").unwrap();
    assert_eq!(buf, Some(b"hello world".to_vec()));
}

#[test]
fn delete_file() {
    let mut fs = node_fs();
    fs.delete("dir7").unwrap();
    fs.write_sync("dir7/hello.txt", b"hello world").unwrap();
    fs.delete("dir7/hello.txt").unwrap();

    assert_eq!(fs.read_file("dir7/hello.txt").unwrap(), None);
}

#[test]
fn delete_dir() {
    let mut fs = node_fs();
    fs.delete("dir8").unwrap();
    fs.create_dir("dir8/src").unwrap();
    fs.write_file("dir8/src/hello.txt", b"hello").unwrap();

    fs.write_sync("dir8/dist/hello.txt", b"hello").unwrap();
    fs.write_sync("dir8/dist/sample/sample.js", b"console.log(`sample`)").unwrap();

    assert_eq!(fs.read_dir("dir8/src").unwrap().unwrap().len(), 1);
    assert_eq!(fs.read_dir("dir8/dist/sample").unwrap().unwrap().len(), 1);

    fs.delete("dir8/src").unwrap();
    assert!(fs.read_dir("dir8/src").unwrap().is_none());
    assert_eq!(fs.read_dir("dir8/dist/sample").unwrap().unwrap().len(), 1);
    assert_eq!(fs.read_dir("dir8/dist").unwrap().unwrap().len(), 2);

    fs.delete("dir8/dist/sample").unwrap();
    assert!(fs.read_dir("dir8/src").unwrap().is_none());
    assert!(fs.read_dir("dir8/dist/sample").unwrap().is_none());
    assert_eq!(fs.read_dir("dir8/dist").unwrap().unwrap().len(), 1);
}

#[test]
fn all_files_with_in_children() {
    let mut fs = node_fs();
    fs.delete("dir9").unwrap();
    fs.write_sync("dir9/hello1.txt", b"hello").unwrap();
    fs.write_sync("dir9/hello2.txt", b"hello").unwrap();
    fs.write_sync("dir9/hello3.txt", b"hello").unwrap();

    let mut files = fs.all_files_in("dir9").unwrap();
    files.sort();
    assert_eq!(
        files,
        vec![
            "dir9/hello1.txt".to_string(),
            "dir9/hello2.txt".to_string(),
            "dir9/hello3.txt".to_string(),
        ]
    );
}

#[test]
fn all_files_recursive() {
    let mut fs = node_fs();
    fs.delete("dir10").unwrap();
    fs.write_sync("dir10/hello1.txt", b"hello").unwrap();
    fs.write_sync("dir10/src/hello2.txt", b"hello").unwrap();
    fs.write_sync("dir10/src/dist/hello3.txt", b"hello").unwrap();

    let mut files = fs.all_files_in("dir10").unwrap();
    files.sort();
    assert_eq!(
        files,
        vec![
            "dir10/hello1.txt".to_string(),
            "dir10/src/dist/hello3.txt".to_string(),
            "dir10/src/hello2.txt".to_string(),
        ]
    );
}

#[test]
fn all_files_relative_to_src() {
    let mut fs = node_fs();
    fs.delete("dir11").unwrap();
    fs.write_sync("dir11/hello1.txt", b"hello").unwrap();
    fs.write_sync("dir11/src/hello2.txt", b"hello").unwrap();
    fs.write_sync("dir11/src/dist/hello3.txt", b"hello").unwrap();

    let mut files = fs.all_files_in("dir11/src").unwrap();
    files.sort();
    assert_eq!(
        files,
        vec![
            "dir11/src/dist/hello3.txt".to_string(),
            "dir11/src/hello2.txt".to_string(),
        ]
    );
}

#[test]
fn all_files_specified_direct_file_uri() {
    let mut fs = node_fs();
    fs.delete("dir12").unwrap();
    fs.write_sync("dir12/hello1.txt", b"hello").unwrap();

    let files = fs.all_files_in("dir12/hello1.txt").unwrap();
    assert_eq!(files, vec!["dir12/hello1.txt".to_string()]);
}

#[test]
fn return_none_if_not_exists_entry() {
    let mut fs = node_fs();
    fs.delete("dir13").unwrap();
    fs.create_dir("dir13/src").unwrap();
    let stat = fs.stat("dir13/hello.txt").unwrap();
    assert_eq!(stat, None);
    let stat = fs.stat("dir13/src/hello.txt").unwrap();
    assert_eq!(stat, None);
}

#[test]
fn stat_file() {
    let mut fs = node_fs();
    fs.delete("dir14").unwrap();
    fs.write_file("dir14/src/hello.txt", b"hello").unwrap();
    let stat = fs.stat("dir14/src/hello.txt").unwrap().unwrap();
    assert!(stat.is_file());
    assert_eq!(stat.size, b"hello".len() as u64);
}

#[test]
fn stat_dir() {
    let mut fs = node_fs();
    fs.delete("dir15").unwrap();
    fs.create_dir("dir15/src").unwrap();
    let stat = fs.stat("dir15/src").unwrap().unwrap();
    assert!(stat.is_dir());
    assert_eq!(stat.size, 0);
}

#[test]
fn update_dir_stat() {
    let mut fs = node_fs();
    fs.delete("dir16").unwrap();
    fs.create_dir("dir16/src").unwrap();

    fs.create_dir("dir16/src/dist").unwrap();
    let stat = fs.stat("dir16/src").unwrap().unwrap();
    assert_eq!(stat.size, 1);

    fs.write_file("dir16/src/hello.txt", b"hello world").unwrap();
    let stat = fs.stat("dir16/src").unwrap().unwrap();
    assert_eq!(stat.size, 2);
}

#[test]
fn update_file_stat() {
    let mut fs = node_fs();
    fs.delete("dir17").unwrap();
    fs.write_file("dir17/src/hello.txt", b"hello world").unwrap();
    let stat1 = fs.stat("dir17/src/hello.txt").unwrap().unwrap();
    fs.host.set_time(1003);

    fs.write_file("dir17/src/hello.txt", b"hello").unwrap();
    let stat2 = fs.stat("dir17/src/hello.txt").unwrap().unwrap();

    assert_eq!(stat2.size, b"hello".len() as u64);

    assert!(stat1.update_time < stat2.update_time);
    assert_eq!(stat1.create_time, stat2.create_time);
}

#[test]
fn read() {
    let buf1 = [0, 1, 2, 3];
    let buf2 = [5, 6, 7, 8];
    let mut fs = node_fs();
    fs.delete("dir18").unwrap();

    fs.write_file("dir18/buf1", &buf1).unwrap();
    fs.write_file("dir18/buf2", &buf2).unwrap();
    assert_eq!(fs.read_file("dir18/buf1").unwrap().unwrap(), buf1.to_vec());
    assert_eq!(fs.read_file("dir18/buf2").unwrap().unwrap(), buf2.to_vec());
}

#[test]
fn path_of_the_root_aliases_is_the_root() {
    let fs = node_fs();
    assert_eq!(fs.path("."), "/home/user/tmp");
    assert_eq!(fs.path("./"), "/home/user/tmp");
}

#[test]
fn path_under_the_root_is_unchanged() {
    let fs = node_fs();
    assert_eq!(fs.path("/home/user/tmp/a/b.txt"), "/home/user/tmp/a/b.txt");
    let once = fs.path("a/b.txt");
    assert_eq!(fs.path(&once), once);
}

#[test]
fn path_outside_the_root_is_joined_without_leading_cur_dir() {
    let fs = node_fs();
    assert_eq!(fs.path("a/b.txt"), "/home/user/tmp/a/b.txt");
    assert_eq!(fs.path("./a/b.txt"), "/home/user/tmp/a/b.txt");
    assert_eq!(fs.path("././a"), "/home/user/tmp/a");
    assert_eq!(fs.path(".a"), "/home/user/tmp/.a");
}

#[test]
fn create_dir_twice_is_create_dir_once() {
    let mut once = node_fs();
    once.create_dir("x/y").unwrap();
    let mut twice = node_fs();
    twice.create_dir("x/y").unwrap();
    twice.create_dir("x/y").unwrap();
    assert_eq!(once.stat("x/y").unwrap(), twice.stat("x/y").unwrap());
    assert_eq!(once.stat("x").unwrap(), twice.stat("x").unwrap());
    assert_eq!(once.read_dir("x").unwrap(), twice.read_dir("x").unwrap());
    assert_eq!(once.all_files_in(".").unwrap(), twice.all_files_in(".").unwrap());
}

#[test]
fn create_dir_over_a_file_changes_nothing() {
    let mut fs = node_fs();
    fs.write_file("x", b"data").unwrap();
    fs.create_dir("x").unwrap();
    assert!(fs.stat("x").unwrap().unwrap().is_file());
    assert_eq!(fs.read_file("x").unwrap(), Some(b"data".to_vec()));
}

#[test]
fn create_dir_below_a_file_fails() {
    let mut fs = node_fs();
    fs.write_file("x", b"data").unwrap();
    let err = fs.create_dir("x/y").unwrap_err();
    assert_eq!(err.to_string(), "failed to create dir ENOTDIR");
    assert_eq!(fs.stat("x/y").unwrap(), None);
}

#[test]
fn delete_twice_succeeds_and_changes_nothing() {
    let mut fs = node_fs();
    fs.write_file("x/a.txt", b"hi").unwrap();
    fs.write_file("keep.txt", b"k").unwrap();
    fs.delete("x").unwrap();
    let after_first = fs.all_files_in(".").unwrap();
    fs.delete("x").unwrap();
    assert_eq!(fs.all_files_in(".").unwrap(), after_first);
    assert_eq!(after_first, vec!["keep.txt".to_string()]);
}

#[test]
fn write_then_read_round_trips() {
    let mut fs = node_fs();
    fs.write_file("a/b/c.txt", b"payload").unwrap();
    assert_eq!(fs.read_file("a/b/c.txt").unwrap(), Some(b"payload".to_vec()));
    assert_eq!(fs.read_file("a//b/c.txt").unwrap(), Some(b"payload".to_vec()));
    fs.write_file("a//b/c.txt", b"").unwrap();
    assert_eq!(fs.read_file("a/b/c.txt").unwrap(), Some(Vec::new()));
    assert_eq!(fs.read_dir("a/b").unwrap().unwrap(), vec!["c.txt".to_string()]);
}

#[test]
fn write_over_a_directory_fails() {
    let mut fs = node_fs();
    fs.create_dir("x").unwrap();
    let err = fs.write_file("x", b"data").unwrap_err();
    assert_eq!(err.to_string(), "failed write file: EISDIR");
    assert!(fs.stat("x").unwrap().unwrap().is_dir());
}

#[test]
fn write_below_a_file_fails() {
    let mut fs = node_fs();
    fs.write_file("x", b"data").unwrap();
    let err = fs.write_file("x/y.txt", b"data").unwrap_err();
    assert_eq!(err.to_string(), "failed write file: ENOTDIR");
    assert_eq!(fs.read_file("x").unwrap(), Some(b"data".to_vec()));
}

#[test]
fn read_file_of_a_directory_fails() {
    let mut fs = node_fs();
    fs.create_dir("x").unwrap();
    let err = fs.read_file("x").unwrap_err();
    assert_eq!(err.to_string(), "failed read file: EISDIR");
}

#[test]
fn read_dir_of_a_file_fails() {
    let mut fs = node_fs();
    fs.write_file("x", b"data").unwrap();
    let err = fs.read_dir("x").unwrap_err();
    assert_eq!(err.to_string(), "failed read dir: ENOTDIR");
}

#[test]
fn read_dir_of_a_missing_entry_is_none() {
    let fs = node_fs();
    assert_eq!(fs.read_dir("nothing").unwrap(), None);
    assert_eq!(fs.read_dir(".").unwrap(), None);
}

#[test]
fn size_of_a_directory_is_the_length_of_its_listing() {
    let mut fs = node_fs();
    fs.write_file("d/a", b"1").unwrap();
    fs.write_file("d/b", b"22").unwrap();
    fs.create_dir("d/c/e").unwrap();
    let stat = fs.stat("d").unwrap().unwrap();
    let names = fs.read_dir("d").unwrap().unwrap();
    assert_eq!(stat.size, names.len() as u64);
    assert_eq!(stat.size, 3);
}

#[test]
fn delete_removes_every_descendant() {
    let mut fs = node_fs();
    fs.write_file("p/a.txt", b"1").unwrap();
    fs.write_file("p/q/b.txt", b"2").unwrap();
    fs.create_dir("p/q/r/s").unwrap();
    fs.write_file("other.txt", b"3").unwrap();
    fs.delete("p").unwrap();
    for gone in ["p", "p/a.txt", "p/q", "p/q/b.txt", "p/q/r", "p/q/r/s"] {
        assert_eq!(fs.stat(gone).unwrap(), None);
    }
    assert!(fs.stat("other.txt").unwrap().is_some());
}

#[test]
fn delete_of_the_host_root_fails() {
    let mut fs = NodeFileSystem::new("/".to_string(), MemoryHost::new(0));
    fs.write_file("a.txt", b"1").unwrap();
    let err = fs.delete(".").unwrap_err();
    assert_eq!(err.to_string(), "failed fs.rmdirSync : EBUSY");
}

#[test]
fn all_files_in_leaves_directories_out() {
    let mut fs = node_fs();
    fs.create_dir("x").unwrap();
    fs.write_file("x/a.txt", b"hi").unwrap();
    fs.write_file("x/y/b.txt", b"yo").unwrap();
    fs.create_dir("x/empty/deeper").unwrap();
    let mut files = fs.all_files_in("x").unwrap();
    files.sort();
    assert_eq!(files, vec!["x/a.txt".to_string(), "x/y/b.txt".to_string()]);
    assert_eq!(fs.stat("x").unwrap().unwrap().size, 3);
}

#[test]
fn all_files_in_scenario() {
    let mut fs = node_fs();
    fs.create_dir("x").unwrap();
    fs.write_file("x/a.txt", b"hi").unwrap();
    fs.write_file("x/y/b.txt", b"yo").unwrap();
    let mut files = fs.all_files_in("x").unwrap();
    files.sort();
    assert_eq!(files, vec!["x/a.txt".to_string(), "x/y/b.txt".to_string()]);
    assert_eq!(fs.stat("x").unwrap().unwrap().size, 2);
}

#[test]
fn all_files_in_of_a_missing_entry_is_empty() {
    let fs = node_fs();
    assert_eq!(fs.all_files_in("nothing").unwrap(), Vec::<String>::new());
}

#[test]
fn all_files_in_of_the_root_is_without_the_root() {
    let mut fs = node_fs();
    fs.write_file("a.txt", b"1").unwrap();
    fs.write_file("x/b.txt", b"2").unwrap();
    let mut files = fs.all_files_in(".").unwrap();
    files.sort();
    assert_eq!(files, vec!["a.txt".to_string(), "x/b.txt".to_string()]);
    let mut files = fs.all_files_in("/home/user/tmp/x").unwrap();
    files.sort();
    assert_eq!(files, vec!["x/b.txt".to_string()]);
}

#[test]
fn times_are_whole_seconds() {
    let mut fs = NodeFileSystem::new("root".to_string(), MemoryHost::new(2999));
    fs.write_file("f", b"1").unwrap();
    let stat = fs.stat("f").unwrap().unwrap();
    assert_eq!(stat.create_time, 2);
    assert_eq!(stat.update_time, 2);
    fs.host.set_time(5000);
    fs.write_file("f", b"12").unwrap();
    let stat = fs.stat("f").unwrap().unwrap();
    assert_eq!(stat.create_time, 2);
    assert_eq!(stat.update_time, 5);
    assert_eq!(stat.size, 2);
}

#[test]
fn the_default_folder_is_in_the_home_directory() {
    assert_eq!(
        NodeFileSystem::<MemoryHost>::default_folder("/home/user"),
        "/home/user/meltos"
    );
}

#[test]
fn open_makes_the_folder_of_the_store() {
    let mut fs = NodeFileSystem::open("/home/user/meltos".to_string(), MemoryHost::new(0)).unwrap();
    assert_eq!(fs.read_dir(".").unwrap(), Some(Vec::new()));
    assert!(fs.stat(".").unwrap().unwrap().is_dir());
    fs.write_file("a.txt", b"1").unwrap();
    let host = fs.host;
    let again = NodeFileSystem::open("/home/user/meltos".to_string(), host).unwrap();
    assert_eq!(again.read_dir(".").unwrap(), Some(vec!["a.txt".to_string()]));
}

#[test]
fn open_below_a_file_fails() {
    let mut fs = NodeFileSystem::open("/home".to_string(), MemoryHost::new(0)).unwrap();
    fs.write_file("user", b"1").unwrap();
    let host = fs.host;
    assert!(NodeFileSystem::open("/home/user/meltos".to_string(), host).is_err());
}

#[test]
fn names_may_hold_any_characters_but_the_separator() {
    let mut fs = node_fs();
    fs.write_file("données/ファイル.txt", b"1").unwrap();
    fs.write_file("données/a b.txt", b"2").unwrap();
    assert_eq!(fs.read_file("données//ファイル.txt").unwrap(), Some(b"1".to_vec()));
    let mut names = fs.read_dir("données").unwrap().unwrap();
    names.sort();
    assert_eq!(names, vec!["a b.txt".to_string(), "ファイル.txt".to_string()]);
    let mut files = fs.all_files_in("données").unwrap();
    files.sort();
    assert_eq!(
        files,
        vec!["données/a b.txt".to_string(), "données/ファイル.txt".to_string()]
    );
    fs.delete("données/ファイル.txt").unwrap();
    assert_eq!(fs.stat("données").unwrap().unwrap().size, 1);
}

#[test]
fn a_listed_path_leads_back_to_its_file() {
    let mut fs = node_fs();
    fs.write_file("x/a.txt", b"hi").unwrap();
    fs.write_file("x/y/b.txt", b"yo").unwrap();
    fs.create_dir("x/empty").unwrap();
    for listed in fs.all_files_in("x").unwrap() {
        assert!(fs.stat(&listed).unwrap().unwrap().is_file());
    }
    for listed in fs.all_files_in(".").unwrap() {
        assert!(fs.stat(&listed).unwrap().unwrap().is_file());
    }
    for listed in fs.all_files_in("/home/user/tmp/x/y").unwrap() {
        assert_eq!(fs.read_file(&listed).unwrap(), Some(b"yo".to_vec()));
    }
}
