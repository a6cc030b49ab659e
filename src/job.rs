//! The job record handed to a runner.
use std::collections::HashMap;
use vstd::prelude::*;

verus! {

/// A command to run: its name, its argument vector and the environment it adds.
#[derive(Debug, Clone)]
pub struct Job {
    pub name: String,
    pub args: Vec<String>,
    pub envs: HashMap<String, String>,
}

} // verus!
