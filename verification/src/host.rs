//! The command-line tool that the plugins are made for: what it is asked to do,
//! and where it keeps its files. The tool is known by its command, `cli`.

use crate::text::{join, joined, law_joined, views};
use vstd::prelude::*;

verus! {

/// The directory, below a project or a home, that belongs to the tool.
pub open spec fn own_dir(cli: Seq<char>) -> Seq<char> {
    "."@ + cli
}

/// The file with the tool's settings for a project.
pub open spec fn settings_path(cli: Seq<char>) -> Seq<char> {
    own_dir(cli) + "/settings.json"@
}

/// The directory, in a plugin or a marketplace, that the tool reads.
pub open spec fn plugin_dir(cli: Seq<char>) -> Seq<char> {
    own_dir(cli) + "-plugin"@
}

/// The directory, below a project or a home, that belongs to the tool.
pub fn dir_name(cli: &str) -> (r: String)
    ensures
        r@ == own_dir(cli@),
{
    let mut s: String = ".".to_owned();
    s.append(cli);
    s
}

/// The file with the tool's settings for a project.
pub fn settings_file(cli: &str) -> (r: String)
    ensures
        r@ == settings_path(cli@),
{
    let mut s = dir_name(cli);
    s.append("/settings.json");
    s
}

/// The file of a plugin that tells what it is.
pub fn manifest_file(cli: &str) -> (r: String)
    ensures
        r@ == plugin_dir(cli@) + "/plugin.json"@,
{
    let mut s = dir_name(cli);
    s.append("-plugin");
    s.append("/plugin.json");
    s
}

/// The file of a marketplace that lists its plugins.
pub fn marketplace_file(cli: &str) -> (r: String)
    ensures
        r@ == plugin_dir(cli@) + "/marketplace.json"@,
{
    let mut s = dir_name(cli);
    s.append("-plugin");
    s.append("/marketplace.json");
    s
}

/// A command of the tool, as it is typed.
pub open spec fn typed(cli: Seq<char>, args: Seq<Seq<char>>) -> Seq<char> {
    cli + " "@ + joined(args, " "@)
}

/// A command of the tool, as it is typed.
pub fn command_line(cli: &str, args: &Vec<String>) -> (r: String)
    ensures
        r@ == typed(cli@, views(args@)),
{
    let mut s: String = cli.to_owned();
    s.append(" ");
    s.append(join(args, " ").as_str());
    s
}

/// The message for a tool that could not be started.
pub fn invoke_error(cli: &str) -> (r: String)
    ensures
        r@ == "invoking `"@ + cli@ + "` (is it on PATH?)"@,
{
    let mut s: String = "invoking `".to_owned();
    s.append(cli);
    s.append("` (is it on PATH?)");
    s
}

/// The message for a command of the tool without which there is no going on.
pub fn command_error(cli: &str, args: &Vec<String>, why: &str) -> (r: String)
    ensures
        r@ == "`"@ + typed(cli@, views(args@)) + "` failed: "@ + why@,
{
    let mut s: String = "`".to_owned();
    s.append(command_line(cli, args).as_str());
    s.append("` failed: ");
    s.append(why);
    s
}

/// Where the tool keeps its own files in a project: in a directory, and in one
/// for plugins, that are named after it and hidden.
pub proof fn law_tool_files(cli: Seq<char>, a: Seq<char>, b: Seq<char>)
    ensures
        own_dir(cli) == "."@ + cli,
        settings_path(cli) == "."@ + cli + "/settings.json"@,
        plugin_dir(cli) == "."@ + cli + "-plugin"@,
        typed(cli, seq![a]) == cli + " "@ + a,
        typed(cli, seq![a, b]) == cli + " "@ + (a + " "@ + b),
{
    law_joined(seq![a], seq![b], a, " "@);
    law_joined(seq![a], seq![b], b, " "@);
    assert(seq![a] + seq![b] =~= seq![a, b]);
}

} // verus!
