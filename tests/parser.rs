use bishin::parser::{parse_test_file, parse_tests, shells_decorator, Error};

const THREE_TESTS: &str = "\n\n@test test1 {\n    foo\n}\n\n@test test2 {\n    bar\n}\n@test test3 {\n    baz\n}\n";

#[test]
fn public_parser_fn() {
    let tests = parse_test_file("test.b", THREE_TESTS).unwrap();
    assert_eq!(tests.len(), 3);
    assert_eq!(tests[0].name, "test1".to_string());
    assert_eq!(tests[1].name, "test2".to_string());
    assert_eq!(tests[2].name, "test3".to_string());
}

#[test]
fn parses_test_file() {
    let parsed = parse_tests(THREE_TESTS).unwrap();
    assert_eq!(parsed.len(), 3);
}

#[test]
fn parses_test_name() {
    let names = ["foo", "foo_bar", "foo_bar1", "1foo", "_foo"];
    for name in names.iter() {
        let input = format!("@test {name} {{\n x\n}}\n");
        let parsed = parse_tests(&input).unwrap();
        assert_eq!(parsed[0].name, name.to_string());
    }
}

#[test]
fn parses_test_body() {
    let input = "@test t {\nfoo\nbar\nbaz\n}\n";
    let parsed = parse_tests(input).unwrap();
    assert_eq!(parsed[0].body, "foo\nbar\nbaz\n");
}

#[test]
fn parses_test() {
    let input = "@test test_name {\n    foo\n    bar\n}\n";
    let parsed = parse_tests(input).unwrap();
    assert_eq!(parsed[0].name, "test_name");
    assert_eq!(parsed[0].body, "    foo\n    bar\n");
}

#[test]
fn single_block_keeps_line_ending() {
    let parsed = parse_tests("@test foo {\n echo hi\n}\n").unwrap();
    assert_eq!(parsed.len(), 1);
    assert_eq!(parsed[0].name, "foo");
    assert_eq!(parsed[0].body, " echo hi\n");
}

#[test]
fn two_blocks_in_declaration_order() {
    let parsed = parse_tests("  \n@test zeta {\n a\n}\n\n\t@test alpha {\n b\n}\n  ").unwrap();
    assert_eq!(parsed.len(), 2);
    assert_eq!(parsed[0].name, "zeta");
    assert_eq!(parsed[0].body, " a\n");
    assert_eq!(parsed[1].name, "alpha");
    assert_eq!(parsed[1].body, " b\n");
}

#[test]
fn body_line_starting_with_brace_is_rejected() {
    assert_eq!(parse_tests("@test foo {\n}x\n}\n").err(), Some(0));
    assert_eq!(parse_tests("@test a {\n x\n}\n@test b {\n}x\n}\n").err(), Some(15));
}

#[test]
fn crlf_endings_are_kept() {
    let parsed = parse_tests("@test foo {\r\n a\r\n b\n}\r\n").unwrap();
    assert_eq!(parsed[0].body, " a\r\n b\n");
}

#[test]
fn lone_carriage_return_is_rejected() {
    assert_eq!(parse_tests("@test foo {\n a\rb\n}\n").err(), Some(0));
}

#[test]
fn empty_input_has_no_tests() {
    assert_eq!(parse_tests("").unwrap().len(), 0);
    assert_eq!(parse_tests(" \n\t\r\n").unwrap().len(), 0);
}

#[test]
fn empty_body_is_rejected() {
    assert_eq!(parse_tests("@test foo {\n}\n").err(), Some(0));
}

#[test]
fn malformed_headers_are_rejected() {
    assert_eq!(parse_tests("@test  foo {\n a\n}\n").err(), Some(0));
    assert_eq!(parse_tests("@test foo-bar {\n a\n}\n").err(), Some(0));
    assert_eq!(parse_tests("@test foo{\n a\n}\n").err(), Some(0));
    assert_eq!(parse_tests("@test foo {\n a\n}").err(), Some(0));
    assert_eq!(parse_tests("@test foo {\n a\n").err(), Some(0));
}

#[test]
fn trailing_garbage_is_rejected() {
    assert_eq!(parse_tests("\n@test foo {\n a\n}\n\nfoo").err(), Some(19));
}

#[test]
fn offsets_count_characters() {
    assert_eq!(parse_tests("@test é {\n a\n}\n@x").err(), Some(0));
    assert_eq!(parse_tests("@test f {\n é\n}\n@x").err(), Some(15));
}

#[test]
fn parse_error_names_the_file() {
    match parse_test_file("dir/x.b", "nonsense") {
        Err(Error::Parse { path, offset }) => {
            assert_eq!(path, "dir/x.b");
            assert_eq!(offset, 0);
        }
        other => panic!("unexpected result: {:?}", other),
    }
}

#[test]
fn parses_shell_decorator_no_spaces() {
    let shells = shells_decorator("@shells(bash,fish)").unwrap();
    assert_eq!(shells, vec!["bash", "fish"]);
}

#[test]
fn parses_shell_decorator_with_spaces() {
    let shells = shells_decorator("@shells(bash, fish)").unwrap();
    assert_eq!(shells, vec!["bash", "fish"]);
}

#[test]
fn shell_decorator_takes_one_to_four_known_shells() {
    assert_eq!(
        shells_decorator("@shells(zsh,\ttcsh,  bash, fish) rest").unwrap(),
        vec!["zsh", "tcsh", "bash", "fish"]
    );
    assert_eq!(shells_decorator("@shells(zsh)").unwrap(), vec!["zsh"]);
    assert_eq!(shells_decorator("@shells(bash,fish,zsh,tcsh,bash)"), None);
    assert_eq!(shells_decorator("@shells()"), None);
    assert_eq!(shells_decorator("@shells(sh)"), None);
    assert_eq!(shells_decorator("@shells(bash,)"), None);
    assert_eq!(shells_decorator("@shells(bash ,fish)"), None);
    assert_eq!(shells_decorator("@shells(bash"), None);
}
