//! The command line of the subcommand that rebuilds from a saved graph, as a
//! plain description that a front end turns into its own parser.
use vstd::prelude::*;

verus! {

/// One argument of the subcommand.
#[derive(Debug, Clone, PartialEq, Eq)]
pub struct ArgSpec {
    /// The long name, without dashes; the positional argument's id.
    pub name: String,
    /// The placeholder of the value, for an argument that takes one.
    pub value_name: Option<String>,
    pub positional: bool,
    pub required: bool,
    pub help: String,
}

#[derive(Debug, Clone, PartialEq, Eq)]
pub struct CommandSpec {
    pub name: String,
    pub about: String,
    pub args: Vec<ArgSpec>,
}

fn flag(name: &str, value_name: Option<&str>, help: &str) -> (r: ArgSpec)
    ensures
        r.name@ == name@,
        !r.positional,
        !r.required,
        r.value_name is Some <==> value_name is Some,
{
    ArgSpec {
        name: String::from_str(name),
        value_name: match value_name {
            Some(v) => Some(String::from_str(v)),
            None => None,
        },
        positional: false,
        required: false,
        help: String::from_str(help),
    }
}

/// The subcommand `build-unit-graph`: one required positional path to a saved
/// graph, then the flags that shape a build, which are handed on unread.
pub fn cli() -> (r: CommandSpec)
    ensures
        r.name@ == "build-unit-graph"@,
        r.args@.len() == 8,
        r.args@[0].name@ == "path"@,
        r.args@[0].positional && r.args@[0].required,
        r.args@[0].value_name matches Some(v) && v@ == "PATH"@,
        forall|i: int| 1 <= i < r.args@.len() ==> !(#[trigger] r.args@[i]).positional && !r.args@[i].required,
        r.args@[1].name@ == "future-incompat-report"@,
        r.args@[2].name@ == "message-format"@,
        r.args@[3].name@ == "quiet"@,
        r.args@[4].name@ == "jobs"@,
        r.args@[5].name@ == "keep-going"@,
        r.args@[6].name@ == "target-dir"@,
        r.args@[7].name@ == "timings"@,
{
    let mut args: Vec<ArgSpec> = Vec::new();
    args.push(
        ArgSpec {
            name: String::from_str("path"),
            value_name: Some(String::from_str("PATH")),
            positional: true,
            required: true,
            help: String::from_str("Path to a serialized unit graph"),
        },
    );
    args.push(flag("future-incompat-report", None, "Outputs a future incompatibility report at the end of the build"));
    args.push(flag("message-format", Some("FMT"), "Error format"));
    args.push(flag("quiet", None, "Do not print log messages"));
    args.push(flag("jobs", Some("N"), "Number of parallel jobs, defaults to # of CPUs."));
    args.push(flag("keep-going", None, "Do not abort the build as soon as there is an error"));
    args.push(flag("target-dir", Some("DIRECTORY"), "Directory for all generated artifacts"));
    args.push(flag("timings", Some("FMTS"), "Timing output formats (unstable) (comma separated): html, json"));
    CommandSpec {
        name: String::from_str("build-unit-graph"),
        about: String::from_str("Build a unit graph"),
        args,
    }
}

} // verus!
