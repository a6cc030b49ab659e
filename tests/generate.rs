use bishin::generate::{make_test_jobs, module_test_file_name, transform_body, ModuleFile};
use bishin::parser::{parse_test_file, Error};

fn module(path: &[&str], file: &str, contents: &str) -> ModuleFile {
    ModuleFile {
        mod_path: path.iter().map(|c| c.to_string()).collect(),
        file: file.to_string(),
        contents: contents.to_string(),
    }
}

const MYMODULE: &str =
    "@test foo {\n    echo \"hello from foo\"\n}\n\n@test bar {\n    echo \"hello from foo\"\n}\n";

#[test]
fn extracts_all_tests() {
    let tests = parse_test_file("mymodule.b", MYMODULE).unwrap();
    assert_eq!(tests[0].name, "foo".to_string());
    assert_eq!(tests[1].name, "bar".to_string());
    let jobs = make_test_jobs(&vec![module(&["mymodule"], "mymodule.b", MYMODULE)]).unwrap();
    assert_eq!(jobs[0].mod_path, vec!["mymodule".to_string(), "foo".to_string()]);
    assert_eq!(jobs[1].mod_path, vec!["mymodule".to_string(), "bar".to_string()]);
}

#[test]
fn file_name_joins_components() {
    let path = vec!["a".to_string(), "b".to_string(), "foo".to_string()];
    assert_eq!(module_test_file_name(&path), "test_a_b_foo.sh");
    assert_eq!(module_test_file_name(&vec!["x".to_string()]), "test_x.sh");
}

#[test]
fn script_is_shebang_blank_line_and_body() {
    assert_eq!(
        transform_body(" echo hi\r\n"),
        "#!/usr/bin/env bash\n\n echo hi\r\n"
    );
}

#[test]
fn jobs_follow_module_then_declaration_order() {
    let modules = vec![
        module(&["a"], "a.b", "@test z {\n one\n}\n@test y {\n two\n}\n"),
        module(&["sub", "b"], "sub/b.b", "@test x {\n three\n}\n"),
    ];
    let jobs = make_test_jobs(&modules).unwrap();
    let names: Vec<&str> = jobs.iter().map(|j| j.name.as_str()).collect();
    assert_eq!(names, vec!["a_z", "a_y", "sub_b_x"]);
    assert_eq!(jobs[2].file_name, "test_sub_b_x.sh");
    assert_eq!(jobs[0].script_contents, "#!/usr/bin/env bash\n\n one\n");
    assert_eq!(jobs[2].script_contents, "#!/usr/bin/env bash\n\n three\n");
}

#[test]
fn round_trip_of_script_body() {
    let body = " line one\n\tline two\r\n\n";
    let contents = format!("@test rt {{\n{body}}}\n");
    let jobs = make_test_jobs(&vec![module(&["m"], "m.b", &contents)]).unwrap();
    let script = &jobs[0].script_contents;
    let mut lines = script.splitn(3, '\n');
    assert_eq!(lines.next(), Some("#!/usr/bin/env bash"));
    assert_eq!(lines.next(), Some(""));
    assert_eq!(lines.next(), Some(body));
}

#[test]
fn generation_is_repeatable() {
    let modules = vec![
        module(&["a"], "a.b", "@test z {\n one\n}\n@test y {\n two\n}\n"),
        module(&["c"], "c.b", "@test w {\n three\n}\n"),
    ];
    let first = make_test_jobs(&modules).unwrap();
    let second = make_test_jobs(&modules).unwrap();
    assert_eq!(first.len(), second.len());
    for (a, b) in first.iter().zip(second.iter()) {
        assert_eq!(a.name, b.name);
        assert_eq!(a.mod_path, b.mod_path);
        assert_eq!(a.file_name, b.file_name);
        assert_eq!(a.script_contents, b.script_contents);
    }
}

#[test]
fn first_bad_file_fails_the_batch() {
    let modules = vec![
        module(&["a"], "a.b", "@test z {\n one\n}\n"),
        module(&["b"], "b.b", "@test y {\n}\n"),
        module(&["c"], "c.b", "garbage"),
    ];
    match make_test_jobs(&modules) {
        Err(Error::Parse { path, offset }) => {
            assert_eq!(path, "b.b");
            assert_eq!(offset, 0);
        }
        other => panic!("unexpected result: {:?}", other.map(|j| j.len())),
    }
}

#[test]
fn no_modules_no_jobs() {
    assert_eq!(make_test_jobs(&vec![]).unwrap().len(), 0);
}

#[test]
fn job_runs_script_with_bash() {
    let jobs = make_test_jobs(&vec![module(&["m"], "m.b", "@test t {\n x\n}\n")]).unwrap();
    let job = jobs.into_iter().next().unwrap().into_job("/out/test_m_t.sh".to_string());
    assert_eq!(job.name, "m_t");
    assert_eq!(job.args, vec!["bash".to_string(), "/out/test_m_t.sh".to_string()]);
    assert!(job.envs.is_empty());
}
