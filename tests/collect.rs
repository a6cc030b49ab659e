use bishin::collect::{compile_module_graph, Entry, Error, ModuleGraph};
use bishin::config::Config;

fn entry(path: &str, is_file: bool) -> Entry {
    let components = if path.is_empty() {
        vec![]
    } else {
        path.split('/').map(|c| c.to_string()).collect()
    };
    Entry {
        components,
        is_file,
        path: format!("/root/{path}"),
    }
}

fn dir(path: &str) -> Entry {
    entry(path, false)
}

fn file(path: &str) -> Entry {
    entry(path, true)
}

fn print_whole_module_graph(graph: &ModuleGraph) -> String {
    let paths = graph
        .iter_modules()
        .iter()
        .map(|module| module.module_path_string())
        .inspect(|path| assert!(!path.is_empty()))
        .collect::<Vec<_>>();
    paths.join("\n")
}

fn print_leaf_modules(graph: &ModuleGraph) -> String {
    let paths = graph
        .iter_leaf_modules()
        .iter()
        .map(|module| module.module_path_string())
        .collect::<Vec<_>>();
    paths.join("\n")
}

#[test]
fn loads_files_without_error() {
    let entries = vec![dir(""), file("foo.b"), file("bar.b")];
    let modules = compile_module_graph(&entries).unwrap();
    assert_eq!(print_whole_module_graph(&modules), "bar\nfoo");
}

#[test]
fn loads_files_and_directories_without_error() {
    let entries = vec![
        dir(""),
        dir("subdir"),
        file("foo.b"),
        file("subdir/baz.b"),
        file("bar.b"),
    ];
    let modules = compile_module_graph(&entries).unwrap();
    assert_eq!(
        print_whole_module_graph(&modules),
        "bar\nfoo\nsubdir\nsubdir::baz"
    );
}

#[test]
fn iterates_leaf_modules() {
    let entries = vec![
        dir(""),
        dir("subdir"),
        file("foo.b"),
        file("bar.b"),
        file("subdir/baz.b"),
    ];
    let modules = compile_module_graph(&entries).unwrap();
    assert_eq!(print_leaf_modules(&modules), "bar\nfoo\nsubdir::baz");
}

#[test]
fn only_empty_directories_is_empty() {
    let entries = vec![dir(""), dir("a"), dir("b"), dir("a/c")];
    assert!(matches!(compile_module_graph(&entries), Err(Error::Empty)));
}

#[test]
fn no_entries_is_empty() {
    assert!(matches!(compile_module_graph(&vec![]), Err(Error::Empty)));
}

#[test]
fn root_alone_is_empty_even_with_test_extension() {
    let entries = vec![file("")];
    assert!(matches!(compile_module_graph(&entries), Err(Error::Empty)));
}

#[test]
fn empty_siblings_are_pruned() {
    let entries = vec![
        dir(""),
        dir("empty"),
        dir("empty/deeper"),
        file("a.b"),
        dir("full"),
        dir("other"),
        file("other/notes.txt"),
        file("full/x.b"),
    ];
    let modules = compile_module_graph(&entries).unwrap();
    assert_eq!(print_whole_module_graph(&modules), "a\nfull\nfull::x");
    assert_eq!(print_leaf_modules(&modules), "a\nfull::x");
}

#[test]
fn non_test_files_are_ignored() {
    let entries = vec![dir(""), file("readme.md"), file("t.b"), file("b")];
    let modules = compile_module_graph(&entries).unwrap();
    assert_eq!(print_whole_module_graph(&modules), "t");
}

#[test]
fn nested_leaf_has_directory_prefix() {
    let entries = vec![dir(""), dir("sub"), file("sub/leaf.b")];
    let modules = compile_module_graph(&entries).unwrap();
    let all = modules.iter_modules();
    assert_eq!(all.len(), 2);
    assert_eq!(all[0].module_path_components(), vec!["sub".to_string()]);
    assert_eq!(all[0].file_path(), None);
    assert_eq!(all[0].name(), "sub");
    assert_eq!(
        all[1].module_path_components(),
        vec!["sub".to_string(), "leaf".to_string()]
    );
    assert_eq!(all[1].file_path(), Some("/root/sub/leaf.b".to_string()));
    assert_eq!(all[1].name(), "leaf");
    let leaves = modules.iter_leaf_modules();
    assert_eq!(leaves.len(), 1);
    assert_eq!(leaves[0].module_path_string(), "sub::leaf");
}

#[test]
fn ordering_is_componentwise() {
    let entries = vec![
        dir(""),
        dir("a"),
        file("a/z.b"),
        file("a-b.b"),
        file("B.b"),
        file("ab.b"),
    ];
    let modules = compile_module_graph(&entries).unwrap();
    assert_eq!(
        print_whole_module_graph(&modules),
        "B\na\na::z\na-b\nab"
    );
}

#[test]
fn stem_drops_only_last_extension() {
    let entries = vec![dir(""), file("x.y.b"), file(".b")];
    let modules = compile_module_graph(&entries).unwrap();
    assert_eq!(print_leaf_modules(&modules), "x.y");
}

#[test]
fn config_defaults_fill_missing_values() {
    let config = Config::from_values(None, None);
    assert_eq!(config.test_dir, "tests");
    assert_eq!(config.work_dir, ".bishin");
    let config = Config::from_values(Some("testdir".to_string()), Some("workdir".to_string()));
    assert_eq!(config.test_dir, "testdir");
    assert_eq!(config.work_dir, "workdir");
}
