//! Turns parsed test files into job records and script texts.
use crate::job::Job;
use crate::text::{copy_strings, join_with, joined, views};
use crate::parser::{
    file_blocks, parse_test_file, tests_match, test_matches, Error, Span, Test,
};
use std::collections::HashMap;
use vstd::prelude::*;
use vstd::string::*;

verus! {

/// The name of the script generated for the test at `path` (module path, then test name).
pub open spec fn script_file_name(path: Seq<Seq<char>>) -> Seq<char> {
    "test_"@ + joined(path, "_"@) + ".sh"@
}

/// The text of the script generated for a test body.
pub open spec fn script_text(body: Seq<char>) -> Seq<char> {
    "#!/usr/bin/env bash\n\n"@ + body
}

/// What a test job holds: name, full path, script file name, script text.
pub type TestJobView = (Seq<char>, Seq<Seq<char>>, Seq<char>, Seq<char>);

/// The job for test `name` with body `body` in the module at `mod_path`.
pub open spec fn job_for_test(mod_path: Seq<Seq<char>>, name: Seq<char>, body: Seq<char>) -> TestJobView {
    let full = mod_path.push(name);
    (joined(full, "_"@), full, script_file_name(full), script_text(body))
}

/// A leaf module's path together with its file's name and text.
#[derive(Debug, Clone)]
pub struct ModuleFile {
    pub mod_path: Vec<String>,
    pub file: String,
    pub contents: String,
}

/// A test together with what is generated for it.
#[derive(Debug, Clone)]
pub struct TestJob {
    /// The module path joined by `_`, test name last.
    pub name: String,
    /// The module path with the test name as its last component.
    pub mod_path: Vec<String>,
    /// The file name of the generated script.
    pub file_name: String,
    /// The text of the generated script.
    pub script_contents: String,
}

impl TestJob {
    pub open spec fn view_of(&self) -> TestJobView {
        (self.name@, views(self.mod_path@), self.file_name@, self.script_contents@)
    }
}

/// What each of the test jobs holds.
pub open spec fn job_views(s: Seq<TestJob>) -> Seq<TestJobView> {
    s.map_values(|j: TestJob| j.view_of())
}

/// The (name, body) pairs of the tests in a test file's text that parses.
pub open spec fn file_tests(s: Seq<char>) -> Seq<(Seq<char>, Seq<char>)> {
    file_blocks(s)->Ok_0.map_values(|b: Span| (s.subrange(b.0, b.1), s.subrange(b.2, b.3)))
}

/// The jobs of one leaf module whose file parses, in declaration order.
pub open spec fn module_jobs(mod_path: Seq<Seq<char>>, contents: Seq<char>) -> Seq<TestJobView> {
    file_tests(contents).map_values(|t: (Seq<char>, Seq<char>)| job_for_test(mod_path, t.0, t.1))
}

/// The jobs of a sequence of leaf modules, module by module.
pub open spec fn all_module_jobs(ms: Seq<ModuleFile>) -> Seq<TestJobView>
    decreases ms.len(),
{
    if ms.len() == 0 {
        Seq::empty()
    } else {
        all_module_jobs(ms.drop_last()) + module_jobs(views(ms.last().mod_path@), ms.last().contents@)
    }
}

/// Whether the file text of each of the modules parses.
pub open spec fn all_parse(ms: Seq<ModuleFile>) -> bool {
    forall|i: int| 0 <= i < ms.len() ==> (#[trigger] file_blocks(ms[i].contents@)) is Ok
}

/// The file name of the script generated for the test at `mod_path` (test name
/// included): its components joined by `_`, with `test_` before and `.sh` after.
pub fn module_test_file_name(mod_path: &Vec<String>) -> (r: String)
    ensures
        r@ == script_file_name(views(mod_path@)),
{
    let mut r = String::from_str("test_");
    let j = join_with(mod_path, "_");
    r.append(j.as_str());
    r.append(".sh");
    r
}

/// The script that runs a test body: a shebang line, a blank line, then the body.
pub fn transform_body(body: &str) -> (r: String)
    ensures
        r@ == script_text(body@),
{
    let mut r = String::from_str("#!/usr/bin/env bash\n\n");
    r.append(body);
    r
}

/// A generated script is the shebang line, a blank line, and the test body unchanged:
/// reading the body back from the script gives it byte for byte.
pub proof fn lemma_script_round_trip(body: Seq<char>)
    ensures
        script_text(body) == "#!/usr/bin/env bash\n"@ + "\n"@ + body,
        script_text(body).subrange(21, script_text(body).len() as int) == body,
{
    reveal_strlit("#!/usr/bin/env bash\n\n");
    reveal_strlit("#!/usr/bin/env bash\n");
    reveal_strlit("\n");
    assert("#!/usr/bin/env bash\n"@ + "\n"@ =~= "#!/usr/bin/env bash\n\n"@);
    assert(script_text(body).subrange(21, script_text(body).len() as int) =~= body);
}

/// Generating twice from the same module files gives the same jobs, in the same
/// order, with the same script names and texts.
pub proof fn lemma_generation_repeatable(ms: Seq<ModuleFile>, a: Seq<TestJob>, b: Seq<TestJob>)
    requires
        job_views(a) == all_module_jobs(ms),
        job_views(b) == all_module_jobs(ms),
    ensures
        a.len() == b.len(),
        forall|k: int| 0 <= k < a.len() ==> (#[trigger] a[k]).view_of() == b[k].view_of(),
{
    assert(job_views(a).len() == a.len());
    assert(job_views(b).len() == b.len());
    assert forall|k: int| 0 <= k < a.len() implies (#[trigger] a[k]).view_of() == b[k].view_of() by {
        assert(job_views(a)[k] == job_views(b)[k]);
    }
}

/// Each test is addressed as its module path joined by `_`, then `_` and the test
/// name; its script is named by that text between `test_` and `.sh`.
pub proof fn lemma_job_names(mod_path: Seq<Seq<char>>, name: Seq<char>, body: Seq<char>)
    requires
        mod_path.len() > 0,
    ensures
        job_for_test(mod_path, name, body).0 == joined(mod_path, "_"@) + "_"@ + name,
        job_for_test(mod_path, name, body).1 == mod_path.push(name),
        job_for_test(mod_path, name, body).2 == "test_"@ + job_for_test(mod_path, name, body).0
            + ".sh"@,
{
    assert(mod_path.push(name).drop_last() =~= mod_path);
}

/// The jobs for the tests of one module, in the order of the tests.
pub fn test_jobs_for_module(mod_path: &Vec<String>, tests: &Vec<Test>) -> (r: Vec<TestJob>)
    ensures
        r@.len() == tests@.len(),
        forall|k: int|
            0 <= k < tests@.len() ==> (#[trigger] r@[k]).view_of() == job_for_test(
                views(mod_path@),
                tests@[k].name@,
                tests@[k].body@,
            ),
{
    let mut r: Vec<TestJob> = Vec::new();
    let mut k: usize = 0;
    while k < tests.len()
        invariant
            0 <= k <= tests.len(),
            r@.len() == k,
            forall|j: int|
                0 <= j < k ==> (#[trigger] r@[j]).view_of() == job_for_test(
                    views(mod_path@),
                    tests@[j].name@,
                    tests@[j].body@,
                ),
        decreases tests.len() - k,
    {
        let test = &tests[k];
        let mut full_path = copy_strings(mod_path);
        full_path.push(test.name.clone());
        assert(views(full_path@) =~= views(mod_path@).push(test.name@));
        let name = join_with(&full_path, "_");
        let file_name = module_test_file_name(&full_path);
        let script_contents = transform_body(test.body.as_str());
        r.push(TestJob { name, mod_path: full_path, file_name, script_contents });
        k = k + 1;
    }
    r
}

proof fn lemma_tests_are_file_tests(ts: Seq<Test>, s: Seq<char>)
    requires
        file_blocks(s) is Ok,
        tests_match(ts, s, file_blocks(s)->Ok_0),
    ensures
        ts.map_values(|t: Test| (t.name@, t.body@)) == file_tests(s),
{
    let bs = file_blocks(s)->Ok_0;
    assert forall|k: int| 0 <= k < ts.len() implies ts.map_values(|t: Test| (t.name@, t.body@))[k]
        == file_tests(s)[k] by {
        assert(test_matches(ts[k], s, bs[k]));
    }
    assert(ts.map_values(|t: Test| (t.name@, t.body@)) =~= file_tests(s));
}

/// The jobs for every test of the leaf modules, module by module and in declaration
/// order within a module. Fails with the parse error of the first module whose file
/// does not parse.
pub fn make_test_jobs(modules: &Vec<ModuleFile>) -> (r: Result<Vec<TestJob>, Error>)
    ensures
        all_parse(modules@) ==> (r matches Ok(jobs) && job_views(jobs@)
            == all_module_jobs(modules@)),
        !all_parse(modules@) ==> exists|i: int|
            0 <= i < modules@.len() && file_blocks(modules@[i].contents@) is Err && all_parse(
                modules@.subrange(0, i),
            ) && (r matches Err(Error::Parse { path, offset }) && path@ == modules@[i].file@
                && offset == file_blocks(modules@[i].contents@)->Err_0),
{
    let mut jobs: Vec<TestJob> = Vec::new();
    let mut i: usize = 0;
    while i < modules.len()
        invariant
            0 <= i <= modules.len(),
            all_parse(modules@.subrange(0, i as int)),
            job_views(jobs@) == all_module_jobs(
                modules@.subrange(0, i as int),
            ),
        decreases modules.len() - i,
    {
        let m = &modules[i];
        let ghost prefix = modules@.subrange(0, i as int);
        let ghost next = modules@.subrange(0, i + 1);
        assert(next.drop_last() =~= prefix);
        match parse_test_file(m.file.as_str(), m.contents.as_str()) {
            Err(e) => {
                proof {
                    assert(!all_parse(modules@));
                }
                return Err(e);
            },
            Ok(tests) => {
                let new_jobs = test_jobs_for_module(&m.mod_path, &tests);
                proof {
                    lemma_tests_are_file_tests(tests@, m.contents@);
                    let mp = views(m.mod_path@);
                    assert(job_views(new_jobs@) =~= module_jobs(
                        mp,
                        m.contents@,
                    )) by {
                        assert forall|k: int| 0 <= k < new_jobs@.len() implies job_views(new_jobs@)[k] == module_jobs(mp, m.contents@)[k] by {
                            assert(tests@.map_values(|t: Test| (t.name@, t.body@))[k] == (
                                tests@[k].name@,
                                tests@[k].body@,
                            ));
                        }
                    }
                    assert forall|j: int| 0 <= j < next.len() implies (#[trigger] file_blocks(
                        next[j].contents@,
                    )) is Ok by {
                        if j < i {
                            assert(next[j] == prefix[j]);
                        }
                    }
                }
                let ghost old_jobs = jobs@;
                let mut new_jobs = new_jobs;
                jobs.append(&mut new_jobs);
                proof {
                    assert(job_views(jobs@) =~= job_views(old_jobs) + module_jobs(views(m.mod_path@), m.contents@));
                }
                i = i + 1;
            },
        }
    }
    assert(modules@.subrange(0, modules@.len() as int) =~= modules@);
    Ok(jobs)
}

impl TestJob {
    /// The job that runs this test's script, written at `script_path`, with bash and
    /// no added environment.
    pub fn into_job(self, script_path: String) -> (r: Job)
        ensures
            r.name@ == self.name@,
            r.args@.len() == 2,
            r.args@[0]@ == "bash"@,
            r.args@[1]@ == script_path@,
            r.envs@ == Map::<String, String>::empty(),
    {
        let args = vec![String::from_str("bash"), script_path];
        Job { name: self.name, args, envs: HashMap::new() }
    }
}

} // verus!
