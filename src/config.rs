//! The settings of a test run, with their defaults.
use vstd::prelude::*;
use vstd::string::*;

verus! {

/// The default name of the config file.
pub const CONFIG_FILENAME: &'static str = "bishin.toml";

/// The settings of a test run.
#[derive(Debug, Clone)]
pub struct Config {
    /// The relative path of the directory to look for test files in.
    pub test_dir: String,
    /// The relative path of the directory in which results, generated scripts and
    /// intermediate data are stored.
    pub work_dir: String,
}

/// The test directory used where the config file names none.
pub fn default_test_dir() -> (r: String)
    ensures
        r@ == "tests"@,
{
    String::from_str("tests")
}

/// The work directory used where the config file names none.
pub fn default_work_dir() -> (r: String)
    ensures
        r@ == ".bishin"@,
{
    String::from_str(".bishin")
}

impl Config {
    /// The settings from the values a config file gives, each missing one set to
    /// its default.
    pub fn from_values(test_dir: Option<String>, work_dir: Option<String>) -> (r: Config)
        ensures
            r.test_dir@ == match test_dir {
                Some(d) => d@,
                None => "tests"@,
            },
            r.work_dir@ == match work_dir {
                Some(d) => d@,
                None => ".bishin"@,
            },
    {
        let test_dir = match test_dir {
            Some(d) => d,
            None => default_test_dir(),
        };
        let work_dir = match work_dir {
            Some(d) => d,
            None => default_work_dir(),
        };
        Config { test_dir, work_dir }
    }
}

} // verus!
