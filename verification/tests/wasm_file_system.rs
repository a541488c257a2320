use meltos_wasm::error::IntoJsResult;
use meltos_wasm::file_system::memory::MemoryHost;
use meltos_wasm::file_system::node::NodeFileSystem;
use meltos_wasm::file_system::{Store, WasmFileSystem};
use meltos_wasm::js_vec::{JsVecString, JsVecU8};
use meltos_wasm::vscode::{ChangeKind, FileChangeEventEmitter, CHANGE, CREATE, DELETE};

fn wasm_fs() -> WasmFileSystem<MemoryHost, MemoryHost> {
    WasmFileSystem::new(
        NodeFileSystem::new("/home/user/meltos".to_string(), MemoryHost::new(0)),
        NodeFileSystem::new("/memory".to_string(), MemoryHost::new(0)),
        Some(FileChangeEventEmitter::new()),
    )
}

fn events(fs: &mut WasmFileSystem<MemoryHost, MemoryHost>) -> Vec<(String, ChangeKind)> {
    match fs.vscode.as_mut() {
        Some(emitter) => emitter.take().into_iter().map(|e| (e.uri, e.kind)).collect(),
        None => Vec::new(),
    }
}

#[test]
fn paths_are_routed_by_their_prefix() {
    let fs = wasm_fs();
    assert_eq!(fs.fs("workspace/n.txt"), Store::Workspace);
    assert_eq!(fs.fs("/workspace/n.txt"), Store::Workspace);
    assert_eq!(fs.fs("workspace"), Store::Workspace);
    assert_eq!(fs.fs("workspaces/n.txt"), Store::Workspace);
    assert_eq!(fs.fs("work/n.txt"), Store::Repository);
    assert_eq!(fs.fs("./workspace/n.txt"), Store::Repository);
    assert_eq!(fs.fs("."), Store::Repository);
    assert_eq!(fs.fs(""), Store::Repository);
}

#[test]
fn read_dir_of_both_roots() {
    let mut fs = wasm_fs();
    assert_eq!(fs.read_dir(".").unwrap(), None);
    fs.write_file("a.txt", b"1").unwrap();
    assert_eq!(fs.read_dir(".").unwrap(), Some(vec!["a.txt".to_string()]));

    let mut fs = wasm_fs();
    fs.write_file("workspace/n.txt", b"1").unwrap();
    assert_eq!(fs.read_dir(".").unwrap(), Some(vec!["workspace".to_string()]));
    fs.write_file("a.txt", b"1").unwrap();
    assert_eq!(
        fs.read_dir(".").unwrap(),
        Some(vec!["a.txt".to_string(), "workspace".to_string()])
    );
}

#[test]
fn a_workspace_file_is_not_in_the_repository() {
    let mut fs = wasm_fs();
    fs.write_file("workspace/n.txt", b"bytes").unwrap();
    assert_eq!(fs.repository.all_files_in(".").unwrap(), Vec::<String>::new());
    assert_eq!(fs.workspace.all_files_in(".").unwrap(), vec!["workspace/n.txt".to_string()]);
    assert_eq!(fs.read_file("workspace/n.txt").unwrap(), Some(b"bytes".to_vec()));
    assert_eq!(fs.all_files_in(".").unwrap(), vec!["workspace/n.txt".to_string()]);
}

#[test]
fn all_files_in_of_both_roots_lists_the_repository_first() {
    let mut fs = wasm_fs();
    fs.write_file("workspace/n.txt", b"1").unwrap();
    fs.write_file("src/a.txt", b"2").unwrap();
    assert_eq!(
        fs.all_files_in(".").unwrap(),
        vec!["src/a.txt".to_string(), "workspace/n.txt".to_string()]
    );
    assert_eq!(fs.all_files_in("src").unwrap(), vec!["src/a.txt".to_string()]);
    assert_eq!(fs.all_files_in("workspace").unwrap(), vec!["workspace/n.txt".to_string()]);
}

#[test]
fn delete_of_both_roots_empties_both_stores() {
    let mut fs = wasm_fs();
    fs.write_file("workspace/n.txt", b"1").unwrap();
    fs.write_file("src/a.txt", b"2").unwrap();
    fs.delete(".").unwrap();
    assert_eq!(fs.read_dir(".").unwrap(), None);
    assert_eq!(fs.all_files_in(".").unwrap(), Vec::<String>::new());
    assert_eq!(fs.stat("src/a.txt").unwrap(), None);
    assert_eq!(fs.stat("workspace/n.txt").unwrap(), None);
    fs.delete(".").unwrap();
}

#[test]
fn exists_at_is_whether_there_is_a_stat() {
    let mut fs = wasm_fs();
    assert!(!fs.exists_at("a/b.txt").unwrap());
    fs.write_file("a/b.txt", b"1").unwrap();
    assert!(fs.exists_at("a/b.txt").unwrap());
    assert!(fs.exists_at("a").unwrap());
    assert_eq!(fs.exists_at("a").unwrap(), fs.stat("a").unwrap().is_some());
    assert!(!fs.exists_at("workspace/a").unwrap());
}

#[test]
fn each_successful_change_is_reported_once() {
    let mut fs = wasm_fs();
    fs.write_file("a/b.txt", b"1").unwrap();
    fs.write_file("a/b.txt", b"2").unwrap();
    fs.create_dir("d").unwrap();
    fs.create_dir("d").unwrap();
    fs.delete("a").unwrap();
    fs.delete("a").unwrap();
    assert_eq!(
        events(&mut fs),
        vec![
            ("a/b.txt".to_string(), ChangeKind::Create),
            ("a/b.txt".to_string(), ChangeKind::Change),
            ("d".to_string(), ChangeKind::Create),
            ("d".to_string(), ChangeKind::Change),
            ("a".to_string(), ChangeKind::Delete),
        ]
    );
    assert_eq!(events(&mut fs), Vec::new());
}

#[test]
fn a_delete_that_removes_nothing_is_not_reported() {
    let mut fs = wasm_fs();
    fs.delete("nothing").unwrap();
    fs.delete("workspace/nothing").unwrap();
    fs.delete(".").unwrap();
    assert_eq!(events(&mut fs), Vec::new());
    assert_eq!(fs.read_dir(".").unwrap(), None);

    fs.write_file("workspace/n.txt", b"1").unwrap();
    events(&mut fs);
    fs.delete(".").unwrap();
    assert_eq!(events(&mut fs), vec![(".".to_string(), ChangeKind::Delete)]);
    fs.delete(".").unwrap();
    assert_eq!(events(&mut fs), Vec::new());
}

#[test]
fn a_delete_that_fails_is_not_reported_and_keeps_the_entry() {
    let mut fs = WasmFileSystem::new(
        NodeFileSystem::new("/".to_string(), MemoryHost::new(0)),
        NodeFileSystem::new("/memory".to_string(), MemoryHost::new(0)),
        Some(FileChangeEventEmitter::new()),
    );
    fs.write_file("a.txt", b"1").unwrap();
    fs.write_file("workspace/n.txt", b"2").unwrap();
    events(&mut fs);
    let err = fs.delete(".").unwrap_err();
    assert_eq!(err.to_string(), "failed fs.rmdirSync : EBUSY");
    assert_eq!(events(&mut fs), Vec::new());
    assert_eq!(fs.repository.read_dir(".").unwrap(), Some(Vec::new()));
    assert_eq!(fs.read_file("workspace/n.txt").unwrap(), Some(b"2".to_vec()));
}

#[test]
fn a_failed_change_and_a_read_are_not_reported() {
    let mut fs = wasm_fs();
    fs.create_dir("d").unwrap();
    events(&mut fs);
    assert!(fs.write_file("d", b"1").is_err());
    assert!(fs.create_dir("workspace/x").is_ok());
    assert!(fs.write_file("workspace/x", b"1").is_err());
    fs.stat("d").unwrap();
    fs.read_dir("d").unwrap();
    fs.read_file("nothing").unwrap();
    fs.all_files_in(".").unwrap();
    assert_eq!(events(&mut fs), vec![("workspace/x".to_string(), ChangeKind::Create)]);
}

#[test]
fn without_an_observer_nothing_waits() {
    let mut fs = WasmFileSystem::new(
        NodeFileSystem::new("/repo".to_string(), MemoryHost::new(0)),
        NodeFileSystem::new("/memory".to_string(), MemoryHost::new(0)),
        None,
    );
    fs.write_file("a.txt", b"1").unwrap();
    fs.delete("a.txt").unwrap();
    assert!(fs.vscode.is_none());
    assert_eq!(fs.read_file("a.txt").unwrap(), None);
}

#[test]
fn the_kinds_have_their_words() {
    assert_eq!(ChangeKind::Create.as_str(), "create");
    assert_eq!(ChangeKind::Change.as_str(), "change");
    assert_eq!(ChangeKind::Delete.as_str(), "delete");
    assert_eq!(CREATE, "create");
    assert_eq!(CHANGE, "change");
    assert_eq!(DELETE, "delete");
}

#[test]
fn a_failure_becomes_its_message() {
    let mut fs = wasm_fs();
    fs.create_dir("d").unwrap();
    let failed = fs.write_file("d", b"1").into_js_result();
    assert_eq!(failed, Err("failed write file: EISDIR".to_string()));
    let fine = fs.read_file("d/none").into_js_result();
    assert_eq!(fine, Ok(None));
}

#[test]
fn the_script_lists_start_empty() {
    assert_eq!(JsVecU8::default().0, Vec::<u8>::new());
    assert_eq!(JsVecString::default().0, Vec::<String>::new());
}
