//! What the `fal` command line asks for, and the files a new project starts with.
use vstd::prelude::*;
use crate::text::{
    append_chars, append_str, ascii_lowercase, chars_of, ends_with, ends_with_str, eq_str,
    is_ascii_text, lowercase_of, string_from_chars, to_lowercase,
};

verus! {

/// The command-line front end of the toolchain.
pub struct Cli;

/// What a command line asks for.
#[derive(Debug, Clone, PartialEq, Eq)]
pub enum Command {
    /// Print the help text.
    Help,
    /// Report the host and the FALZ storage (`env` or `doctor`).
    Env,
    /// Remove cached files and session logs.
    Clean,
    /// Create a project directory holding a starter program.
    New { project: String },
    /// Compile and run a program; `debug` asks for the debugger report.
    Run { path: String, debug: bool },
    /// `new` without a project name.
    MissingProjectName,
    /// `run` (or, when `debug`, `debug`) without a program.
    MissingProgram { debug: bool },
    /// A word that is neither a command nor a program.
    Unknown { word: String },
}

/// The characters of each argument.
pub open spec fn arg_views(args: Seq<String>) -> Seq<Seq<char>> {
    args.map_values(|a: String| a@)
}

/// Whether `c` is what the command line `args` asks for. The command word is the
/// second argument, lowercased; a word that is no command names a program when it
/// ends in `.fal` or when `path_exists` says that a path of that (lowercased) name
/// exists, and the program is then run under the lowercased name.
pub open spec fn command_means(c: Command, args: Seq<Seq<char>>, path_exists: bool) -> bool {
    if args.len() < 2 {
        c is Help
    } else {
        let w = lowercase_of(args[1]);
        if w == "help"@ || w == "--help"@ || w == "-h"@ {
            c is Help
        } else if w == "env"@ || w == "doctor"@ {
            c is Env
        } else if w == "clean"@ {
            c is Clean
        } else if w == "new"@ {
            if args.len() < 3 {
                c is MissingProjectName
            } else {
                c matches Command::New { project } && project@ == args[2]
            }
        } else if w == "debug"@ || w == "run"@ {
            let debug = w == "debug"@;
            if args.len() < 3 {
                c == Command::MissingProgram { debug }
            } else {
                c matches Command::Run { path, debug: d } && path@ == args[2] && d == debug
            }
        } else if ends_with(w, ".fal"@) || path_exists {
            c matches Command::Run { path, debug } && path@ == w && !debug
        } else {
            c matches Command::Unknown { word } && word@ == w
        }
    }
}

impl Cli {
    /// The command word of `args`: its second argument, lowercased, if there is one.
    /// A caller that has to know whether a program path exists asks about this word.
    pub fn command_word(args: &Vec<String>) -> (r: Option<String>)
        ensures
            args@.len() < 2 <==> r is None,
            r matches Some(w) ==> w@ == lowercase_of(args@[1]@),
            is_ascii_text(args@[1]@) ==> (r matches Some(w) ==> w@ == ascii_lowercase(args@[1]@)),
    {
        if args.len() < 2 {
            None
        } else {
            let cs = chars_of(args[1].as_str());
            let w = to_lowercase(&cs);
            Some(string_from_chars(&w))
        }
    }

    /// What the command line `args` asks for; `path_exists` tells whether a path
    /// named by the command word (see [`Cli::command_word`]) exists.
    pub fn command(args: &Vec<String>, path_exists: bool) -> (r: Command)
        ensures
            command_means(r, arg_views(args@), path_exists),
            args@.len() >= 2 && is_ascii_text(args@[1]@) ==> lowercase_of(args@[1]@) == ascii_lowercase(
                args@[1]@,
            ),
    {
        let ghost a = arg_views(args@);
        if args.len() < 2 {
            return Command::Help;
        }
        assert(a[1] == args@[1]@);
        let cs = chars_of(args[1].as_str());
        let w = to_lowercase(&cs);
        if eq_str(&w, "help") || eq_str(&w, "--help") || eq_str(&w, "-h") {
            Command::Help
        } else if eq_str(&w, "env") || eq_str(&w, "doctor") {
            Command::Env
        } else if eq_str(&w, "clean") {
            Command::Clean
        } else if eq_str(&w, "new") {
            if args.len() < 3 {
                Command::MissingProjectName
            } else {
                assert(a[2] == args@[2]@);
                Command::New { project: args[2].clone() }
            }
        } else if eq_str(&w, "debug") || eq_str(&w, "run") {
            let debug = eq_str(&w, "debug");
            if args.len() < 3 {
                Command::MissingProgram { debug }
            } else {
                assert(a[2] == args@[2]@);
                Command::Run { path: args[2].clone(), debug }
            }
        } else if ends_with_str(&w, ".fal") || path_exists {
            Command::Run { path: string_from_chars(&w), debug: false }
        } else {
            Command::Unknown { word: string_from_chars(&w) }
        }
    }

    /// The `README.md` that `fal new` writes for `project`.
    pub fn project_readme(project: &String) -> (r: String)
        ensures
            r@ == "# "@ + project@ + README_TAIL@,
    {
        let mut out: Vec<char> = Vec::new();
        append_str(&mut out, "# ");
        let name = chars_of(project.as_str());
        append_chars(&mut out, &name);
        append_str(&mut out, README_TAIL);
        string_from_chars(&out)
    }
}

/// The starter program that `fal new` writes to `factory.fal`.
pub const STARTER_PROGRAM: &'static str = "// factory.fal - Starter Factory Program
workstation \"main\":
    say \"[FAL] Starting factory floor...\"

    // Pillar 1 & 2: Trays & Math
    tray1 = 100
    tray2 = 50
    add tray2 to tray1

    // Pillar 4: Storeroom (RAM)
    store tray1 into storeroom[0]

    // Pillar 3: Workstation Routing
    call workstation \"inspect_quality\"

    say \"[FAL] Factory shift completed successfully!\"
    call_supervisor exit
end

workstation \"inspect_quality\":
    load storeroom[0] into tray3
    if tray3 == 150 then tray4 = \"Quality Check: 100% Passed\"
    say tray4
    return tray3
end
";

/// What follows the project name in the `README.md` that `fal new` writes.
pub const README_TAIL: &'static str = "\n\nA Factory Assembly Language (FAL) project.\n\n## Run\n```bash\nfal run factory.fal\n```\n";

} // verus!
