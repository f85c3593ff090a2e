//! The command line.

use crate::config::MAX_CONFIG_BYTES;
use crate::text;
use vstd::prelude::*;
use vstd::string::*;

verus! {

/// What the program is asked to do.
#[derive(Debug, PartialEq, Eq)]
pub enum Command {
    Version,
    Platform,
    Check(String),
    Run(String),
    Help,
}

#[verifier::ext_equal]
pub enum CommandView {
    Version,
    Platform,
    Check(Seq<char>),
    Run(Seq<char>),
    Help,
}

impl View for Command {
    type V = CommandView;

    open spec fn view(&self) -> CommandView {
        match self {
            Command::Version => CommandView::Version,
            Command::Platform => CommandView::Platform,
            Command::Check(path) => CommandView::Check(path@),
            Command::Run(path) => CommandView::Run(path@),
            Command::Help => CommandView::Help,
        }
    }
}

/// Why the arguments ask for nothing, and whether the usage is shown.
#[derive(Debug, PartialEq, Eq)]
pub struct UsageError {
    pub message: String,
    pub show_usage: bool,
}

#[verifier::ext_equal]
pub struct UsageErrorView {
    pub message: Seq<char>,
    pub show_usage: bool,
}

impl View for UsageError {
    type V = UsageErrorView;

    open spec fn view(&self) -> UsageErrorView {
        UsageErrorView { message: self.message@, show_usage: self.show_usage }
    }
}

pub open spec fn arguments(args: Seq<String>) -> Seq<Seq<char>> {
    Seq::new(args.len(), |i: int| args[i]@)
}

/// The path behind `--config`.
pub open spec fn config_argument(a: Seq<Seq<char>>) -> Result<Seq<char>, UsageErrorView> {
    if a.len() != 3 || a[1] != "--config"@ {
        Err(UsageErrorView { message: "expected `--config <path>`"@, show_usage: false })
    } else {
        Ok(a[2])
    }
}

/// What the arguments ask for.
pub open spec fn command(a: Seq<Seq<char>>) -> Result<CommandView, UsageErrorView> {
    if a.len() == 1 && a[0] == "version"@ {
        Ok(CommandView::Version)
    } else if a.len() == 1 && a[0] == "platform"@ {
        Ok(CommandView::Platform)
    } else if a.len() > 0 && a[0] == "check"@ {
        match config_argument(a) {
            Ok(path) => Ok(CommandView::Check(path)),
            Err(e) => Err(e),
        }
    } else if a.len() > 0 && a[0] == "run"@ {
        match config_argument(a) {
            Ok(path) => Ok(CommandView::Run(path)),
            Err(e) => Err(e),
        }
    } else if a.len() > 0 && (a[0] == "help"@ || a[0] == "--help"@ || a[0] == "-h"@) {
        Ok(CommandView::Help)
    } else {
        Err(UsageErrorView { message: "invalid command line"@, show_usage: true })
    }
}

fn parse_config_argument(args: &Vec<String>) -> (r: Result<String, UsageError>)
    ensures
        match r {
            Ok(path) => config_argument(arguments(args@)) == Ok::<Seq<char>, UsageErrorView>(path@),
            Err(e) => config_argument(arguments(args@)) == Err::<Seq<char>, UsageErrorView>(e@),
        },
{
    if args.len() != 3 || !text::same(args[1].as_str(), "--config") {
        return Err(
            UsageError { message: "expected `--config <path>`".to_owned(), show_usage: false },
        );
    }
    Ok(args[2].clone())
}

/// Reads the arguments behind the name of the program.
pub fn parse_command(args: &Vec<String>) -> (r: Result<Command, UsageError>)
    ensures
        match r {
            Ok(c) => command(arguments(args@)) == Ok::<CommandView, UsageErrorView>(c@),
            Err(e) => command(arguments(args@)) == Err::<CommandView, UsageErrorView>(e@),
        },
{
    if args.len() == 0 {
        return Err(UsageError { message: "invalid command line".to_owned(), show_usage: true });
    }
    let word = args[0].as_str();
    assert(arguments(args@)[0] == word@);
    if args.len() == 1 && text::same(word, "version") {
        return Ok(Command::Version);
    }
    if args.len() == 1 && text::same(word, "platform") {
        return Ok(Command::Platform);
    }
    if text::same(word, "check") {
        return match parse_config_argument(args) {
            Ok(path) => Ok(Command::Check(path)),
            Err(e) => Err(e),
        };
    }
    if text::same(word, "run") {
        return match parse_config_argument(args) {
            Ok(path) => Ok(Command::Run(path)),
            Err(e) => Err(e),
        };
    }
    if text::same(word, "help") || text::same(word, "--help") || text::same(word, "-h") {
        return Ok(Command::Help);
    }
    Err(UsageError { message: "invalid command line".to_owned(), show_usage: true })
}

/// What is printed where the program does not know what to do.
pub fn usage(version: &str) -> (r: String)
    ensures
        r@ == "Commeatus "@ + version@
            + "\n\nUsage:\n  commeatus run --config <path>\n  commeatus check --config <path>\n  commeatus version\n  commeatus platform\n"@,
{
    text::join3(
        "Commeatus ",
        version,
        "\n\nUsage:\n  commeatus run --config <path>\n  commeatus check --config <path>\n  commeatus version\n  commeatus platform\n",
    )
}

/// Whether a configuration file of that size is read at all.
pub fn check_config_size(path: &str, size: u64) -> (r: Result<(), String>)
    ensures
        match r {
            Ok(_) => size <= MAX_CONFIG_BYTES,
            Err(e) => size > MAX_CONFIG_BYTES && e@ == "config "@ + path@
                + " exceeds 1048576 byte limit"@,
        },
{
    if size > MAX_CONFIG_BYTES as u64 {
        Err(text::join3("config ", path, " exceeds 1048576 byte limit"))
    } else {
        Ok(())
    }
}

/// What a valid configuration is answered.
pub fn valid_message(listeners: usize) -> (r: String)
    ensures
        r@ == "configuration valid: "@ + text::decimal(listeners as nat) + " listener(s)"@,
{
    let count = text::decimal_of(listeners as u64);
    text::join3("configuration valid: ", count.as_str(), " listener(s)")
}

/// Each command is named by its own word. `check` and `run` take the path that follows
/// `--config`, and nothing else; `version` and `platform` take nothing; help is given whatever
/// follows the word. Everything else is an error.
#[verifier::rlimit(30)]
pub proof fn law_words_name_commands(a: Seq<Seq<char>>, path: Seq<char>)
    ensures
        command(a) == Ok::<CommandView, UsageErrorView>(CommandView::Version) <==> a == seq![
            "version"@,
        ],
        command(a) == Ok::<CommandView, UsageErrorView>(CommandView::Platform) <==> a == seq![
            "platform"@,
        ],
        command(a) == Ok::<CommandView, UsageErrorView>(CommandView::Help) <==> a.len() > 0 && (
        a[0] == "help"@ || a[0] == "--help"@ || a[0] == "-h"@),
        command(a) == Ok::<CommandView, UsageErrorView>(CommandView::Check(path)) <==> a == seq![
            "check"@,
            "--config"@,
            path,
        ],
        command(a) == Ok::<CommandView, UsageErrorView>(CommandView::Run(path)) <==> a == seq![
            "run"@,
            "--config"@,
            path,
        ],
        command(a) matches Err(e) ==> (e.show_usage <==> !(a.len() > 0 && (a[0] == "check"@ || a[0]
            == "run"@))),
{
    reveal_strlit("version");
    reveal_strlit("platform");
    reveal_strlit("help");
    reveal_strlit("--help");
    reveal_strlit("-h");
    reveal_strlit("check");
    reveal_strlit("run");
    assert("version"@[0] == 'v' && "platform"@[0] == 'p' && "help"@[0] == 'h' && "--help"@[0] == '-'
        && "-h"@[0] == '-' && "check"@[0] == 'c' && "run"@[0] == 'r');
    assert(a.len() == 1 && a[0] == "version"@ ==> a =~= seq!["version"@]);
    assert(a.len() == 1 && a[0] == "platform"@ ==> a =~= seq!["platform"@]);
    assert(a.len() == 3 && a[0] == "check"@ && a[1] == "--config"@ ==> a =~= seq![
        "check"@,
        "--config"@,
        a[2],
    ]);
    assert(a.len() == 3 && a[0] == "run"@ && a[1] == "--config"@ ==> a =~= seq![
        "run"@,
        "--config"@,
        a[2],
    ]);
}

/// A configuration file may hold a mebibyte and no more.
pub proof fn law_config_size_is_bounded(path: &str, size: u64, r: Result<(), String>)
    requires
        call_ensures(check_config_size, (path, size), r),
    ensures
        r is Ok <==> size <= 1048576,
        r matches Err(e) ==> e@ == "config "@ + path@ + " exceeds 1048576 byte limit"@,
{
}

} // verus!
