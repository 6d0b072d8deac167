//! Platform glue decisions: which arguments make a terminal emulator open
//! in a directory, and what revealing a path in the file manager answers.
use vstd::prelude::*;
use crate::order::views;
use crate::paths::{paths_equal, same_path};
use crate::text::push_str;

verus! {

broadcast use vstd::seq_lib::group_seq_properties;

fn same(a: &str, b: &str) -> (r: bool)
    ensures
        r == (a@ == b@),
{
    a.to_owned() == b.to_owned()
}

/// The emulators tried in order when none is configured.
pub fn terminal_candidates() -> (r: Vec<&'static str>)
    ensures
        r@.len() == 8,
        r@[0]@ == "x-terminal-emulator"@,
        r@[1]@ == "gnome-terminal"@,
        r@[2]@ == "konsole"@,
        r@[3]@ == "alacritty"@,
        r@[4]@ == "kitty"@,
        r@[5]@ == "wezterm"@,
        r@[6]@ == "foot"@,
        r@[7]@ == "xterm"@,
{
    let mut r: Vec<&'static str> = Vec::new();
    r.push("x-terminal-emulator");
    r.push("gnome-terminal");
    r.push("konsole");
    r.push("alacritty");
    r.push("kitty");
    r.push("wezterm");
    r.push("foot");
    r.push("xterm");
    r
}

/// The extra arguments that make the emulator named `program` open with
/// `path` as its working directory: gnome-terminal and foot take one
/// `--working-directory=` argument; konsole, alacritty and kitty a flag
/// and the path; wezterm a `start --cwd` subcommand; any other (xterm,
/// x-terminal-emulator) none, relying on the inherited working directory.
pub open spec fn terminal_args_of(program: Seq<char>, path: Seq<char>) -> Seq<Seq<char>> {
    if program == "gnome-terminal"@ || program == "foot"@ {
        seq!["--working-directory="@ + path]
    } else if program == "konsole"@ {
        seq!["--workdir"@, path]
    } else if program == "alacritty"@ {
        seq!["--working-directory"@, path]
    } else if program == "kitty"@ {
        seq!["--directory"@, path]
    } else if program == "wezterm"@ {
        seq!["start"@, "--cwd"@, path]
    } else {
        Seq::empty()
    }
}

/// The working-directory arguments for the emulator named `program`; see
/// [`terminal_args_of`].
pub fn terminal_args(program: &str, path: &str) -> (r: Vec<String>)
    ensures
        views(r@) == terminal_args_of(program@, path@),
{
    let mut r: Vec<String> = Vec::new();
    if same(program, "gnome-terminal") || same(program, "foot") {
        let mut arg = "--working-directory=".to_owned();
        push_str(&mut arg, path);
        r.push(arg);
    } else if same(program, "konsole") {
        r.push("--workdir".to_owned());
        r.push(path.to_owned());
    } else if same(program, "alacritty") {
        r.push("--working-directory".to_owned());
        r.push(path.to_owned());
    } else if same(program, "kitty") {
        r.push("--directory".to_owned());
        r.push(path.to_owned());
    } else if same(program, "wezterm") {
        r.push("start".to_owned());
        r.push("--cwd".to_owned());
        r.push(path.to_owned());
    }
    assert(views(r@) =~= terminal_args_of(program@, path@));
    r
}

/// One argument of a terminal's launch line, written before the directory
/// is known: fixed text, the directory itself, or fixed text immediately
/// followed by the directory. The caller fills the directory in as the
/// platform's own path type, so no path is re-encoded on the way.
pub enum TerminalArg {
    Text(String),
    Dir,
    TextThenDir(String),
}

/// The argument `a` stands for once the directory is `path`.
pub open spec fn rendered_arg(a: TerminalArg, path: Seq<char>) -> Seq<char> {
    match a {
        TerminalArg::Text(t) => t@,
        TerminalArg::Dir => path,
        TerminalArg::TextThenDir(t) => t@ + path,
    }
}

/// The working-directory arguments for the emulator named `program`, with
/// the directory left open: filled in with any `path`, they are
/// [`terminal_args_of`] `program` and `path`.
pub fn terminal_arg_plan(program: &str) -> (r: Vec<TerminalArg>)
    ensures
        forall|path: Seq<char>|
            #[trigger] terminal_args_of(program@, path) == r@.map_values(|a: TerminalArg| rendered_arg(a, path)),
{
    let mut r: Vec<TerminalArg> = Vec::new();
    if same(program, "gnome-terminal") || same(program, "foot") {
        r.push(TerminalArg::TextThenDir("--working-directory=".to_owned()));
    } else if same(program, "konsole") {
        r.push(TerminalArg::Text("--workdir".to_owned()));
        r.push(TerminalArg::Dir);
    } else if same(program, "alacritty") {
        r.push(TerminalArg::Text("--working-directory".to_owned()));
        r.push(TerminalArg::Dir);
    } else if same(program, "kitty") {
        r.push(TerminalArg::Text("--directory".to_owned()));
        r.push(TerminalArg::Dir);
    } else if same(program, "wezterm") {
        r.push(TerminalArg::Text("start".to_owned()));
        r.push(TerminalArg::Text("--cwd".to_owned()));
        r.push(TerminalArg::Dir);
    }
    assert forall|path: Seq<char>|
        #[trigger] terminal_args_of(program@, path) == r@.map_values(|a: TerminalArg| rendered_arg(a, path)) by {
        assert(terminal_args_of(program@, path) =~= r@.map_values(|a: TerminalArg| rendered_arg(a, path)));
    }
    r
}

/// What revealing `path` answers, given the nearest existing ancestor
/// `target` (`path` itself when it exists) and, when there is one, what
/// revealing that target gave: an error when nothing along the path
/// exists; the reveal's own result otherwise, its error saying that
/// `path` did not exist yet when another path (compared as a path) was
/// revealed in its place.
pub open spec fn reveal_answer(path: Seq<char>, target: Option<Seq<char>>, revealed: Result<(), Seq<char>>) -> Result<(), Seq<char>> {
    match target {
        None => Err("cannot reveal '"@ + path + "': neither it nor any parent directory exists"@),
        Some(t) => match revealed {
            Ok(()) => Ok(()),
            Err(e) => if !same_path(t, path) {
                Err("'"@ + path + "' does not exist yet; revealing '"@ + t + "' instead also failed: "@ + e)
            } else {
                Err(e)
            },
        },
    }
}

/// The results of revealing, as values.
pub open spec fn result_view(r: Result<(), String>) -> Result<(), Seq<char>> {
    match r {
        Ok(()) => Ok(()),
        Err(e) => Err(e@),
    }
}

/// Reveals `path` in the file manager through `reveal`, which shows the
/// nearest existing ancestor `target` (`None` when nothing along the path
/// exists, in which case `reveal` is not called); see [`reveal_answer`].
pub fn reveal_in_finder<F: FnOnce(&str) -> Result<(), String>>(path: &str, target: Option<&str>, reveal: F) -> (r: Result<(), String>)
    requires
        target matches Some(t) ==> reveal.requires((t,)),
    ensures
        target.is_none() ==> result_view(r) == reveal_answer(path@, None, Ok(())),
        target matches Some(t) ==> exists|res: Result<(), String>| reveal.ensures((t,), res)
            && result_view(r) == reveal_answer(path@, Some(t@), result_view(res)),
{
    match target {
        None => {
            let mut msg = "cannot reveal '".to_owned();
            push_str(&mut msg, path);
            push_str(&mut msg, "': neither it nor any parent directory exists");
            Err(msg)
        },
        Some(t) => {
            let redirected = !paths_equal(t, path);
            let res = reveal(t);
            let ghost rv = res;
            match res {
                Ok(()) => Ok(()),
                Err(e) => {
                    if redirected {
                        let mut msg = "'".to_owned();
                        push_str(&mut msg, path);
                        push_str(&mut msg, "' does not exist yet; revealing '");
                        push_str(&mut msg, t);
                        push_str(&mut msg, "' instead also failed: ");
                        push_str(&mut msg, e.as_str());
                        assert(result_view(Err(msg)) == reveal_answer(path@, Some(t@), result_view(rv)));
                        Err(msg)
                    } else {
                        Err(e)
                    }
                },
            }
        },
    }
}

} // verus!
