//! Command-line arguments: the commands, their options, and how a list of
//! arguments is read.
use vstd::prelude::*;
use crate::error::{Error, ErrorView};
use crate::text::{chars_of, concat, parse_u64, parse_u64_spec, string_views};

verus! {

/// The order in which trashed files are listed.
#[derive(Debug, Clone, Copy, PartialEq, Eq, Structural)]
pub enum SortMode {
    Date,
    Path,
    Unsorted,
}

/// What to do.
#[derive(Debug)]
pub enum Command {
    Restore { target_path: Option<String>, sort: SortMode, overwrite: bool },
    List { target_path: Option<String>, sort: SortMode },
    Put { paths: Vec<String> },
    Empty { days: Option<u64> },
    Rm { pattern: String },
}

/// A parsed command line.
#[derive(Debug)]
pub struct Cli {
    pub command: Command,
    pub trash_dir: Option<String>,
    pub version: bool,
    pub help: bool,
}

/// The content of a [`Command`].
pub enum CommandView {
    Restore { target_path: Option<Seq<char>>, sort: SortMode, overwrite: bool },
    List { target_path: Option<Seq<char>>, sort: SortMode },
    Put { paths: Seq<Seq<char>> },
    Empty { days: Option<u64> },
    Rm { pattern: Seq<char> },
}

/// The content of a [`Cli`].
pub struct CliView {
    pub command: CommandView,
    pub trash_dir: Option<Seq<char>>,
    pub version: bool,
    pub help: bool,
}

/// The text of an optional string.
pub open spec fn opt_text(o: Option<String>) -> Option<Seq<char>> {
    match o {
        Some(s) => Some(s@),
        None => None,
    }
}

impl View for Command {
    type V = CommandView;

    open spec fn view(&self) -> CommandView {
        match self {
            Command::Restore { target_path, sort, overwrite } => CommandView::Restore {
                target_path: opt_text(*target_path),
                sort: *sort,
                overwrite: *overwrite,
            },
            Command::List { target_path, sort } => CommandView::List { target_path: opt_text(*target_path), sort: *sort },
            Command::Put { paths } => CommandView::Put { paths: string_views(paths@) },
            Command::Empty { days } => CommandView::Empty { days: *days },
            Command::Rm { pattern } => CommandView::Rm { pattern: pattern@ },
        }
    }
}

impl View for Cli {
    type V = CliView;

    open spec fn view(&self) -> CliView {
        CliView { command: self.command@, trash_dir: opt_text(self.trash_dir), version: self.version, help: self.help }
    }
}

// ---------------------------------------------------------------------------
// Per-command options
// ---------------------------------------------------------------------------

/// The sort order of a command: its own for `restore` and `list`, by date otherwise.
pub open spec fn spec_sort(c: CommandView) -> SortMode {
    match c {
        CommandView::Restore { sort, .. } => sort,
        CommandView::List { sort, .. } => sort,
        _ => SortMode::Date,
    }
}

/// The path a `restore` or `list` command is narrowed to.
pub open spec fn spec_target_path(c: CommandView) -> Option<Seq<char>> {
    match c {
        CommandView::Restore { target_path, .. } => target_path,
        CommandView::List { target_path, .. } => target_path,
        _ => None,
    }
}

impl Cli {
    /// The order in which to list trashed files.
    pub fn sort(&self) -> (out: SortMode)
        ensures
            out == spec_sort(self@.command),
    {
        match &self.command {
            Command::Restore { sort, .. } => *sort,
            Command::List { sort, .. } => *sort,
            _ => SortMode::Date,
        }
    }

    /// The path the command is narrowed to, if any.
    pub fn target_path(&self) -> (out: Option<&str>)
        ensures
            match spec_target_path(self@.command) {
                Some(t) => out is Some && out->0@ == t,
                None => out is None,
            },
    {
        match &self.command {
            Command::Restore { target_path, .. } => match target_path {
                Some(t) => Some(t.as_str()),
                None => None,
            },
            Command::List { target_path, .. } => match target_path {
                Some(t) => Some(t.as_str()),
                None => None,
            },
            _ => None,
        }
    }

    /// Whether `restore` may replace existing files.
    pub fn overwrite(&self) -> (out: bool)
        ensures
            out == (self@.command matches CommandView::Restore { overwrite, .. } && overwrite),
    {
        match &self.command {
            Command::Restore { overwrite, .. } => *overwrite,
            _ => false,
        }
    }

    /// The paths to move to the trash; none for other commands.
    pub fn put_paths(&self) -> (out: &[String])
        ensures
            match self@.command {
                CommandView::Put { paths } => string_views(out@) == paths,
                _ => out@.len() == 0,
            },
    {
        match &self.command {
            Command::Put { paths } => paths.as_slice(),
            _ => &[],
        }
    }

    /// The age in days below which `empty` keeps files, if given.
    pub fn empty_days(&self) -> (out: Option<u64>)
        ensures
            out == (match self@.command {
                CommandView::Empty { days } => days,
                _ => None,
            }),
    {
        match &self.command {
            Command::Empty { days } => *days,
            _ => None,
        }
    }

    /// The pattern of an `rm` command.
    pub fn rm_pattern(&self) -> (out: Option<&str>)
        ensures
            match self@.command {
                CommandView::Rm { pattern } => out is Some && out->0@ == pattern,
                _ => out is None,
            },
    {
        match &self.command {
            Command::Rm { pattern } => Some(pattern.as_str()),
            _ => None,
        }
    }
}

// ---------------------------------------------------------------------------
// Reading a command line, as a specification
// ---------------------------------------------------------------------------

/// What has been read of a command line so far.
pub struct ParseState {
    pub trash_dir: Option<Seq<char>>,
    pub command: Option<Seq<char>>,
    pub sort: SortMode,
    pub overwrite: bool,
    pub positional: Seq<Seq<char>>,
}

/// How reading the arguments ended: at a help or version flag, which
/// decides the result at once, or at the end of the arguments.
pub enum Scan {
    Stop(CliView),
    Done(ParseState),
}

/// The state before any argument is read.
pub open spec fn initial_state() -> ParseState {
    ParseState { trash_dir: None, command: None, sort: SortMode::Date, overwrite: false, positional: seq![] }
}

/// A sort mode by name.
pub open spec fn spec_parse_sort(value: Seq<char>) -> Result<SortMode, ErrorView> {
    if value == "date"@ {
        Ok(SortMode::Date)
    } else if value == "path"@ {
        Ok(SortMode::Path)
    } else if value == "none"@ {
        Ok(SortMode::Unsorted)
    } else {
        Err(ErrorView::Message("invalid sort mode: "@ + value))
    }
}

/// The names of the commands.
pub open spec fn is_command_word(a: Seq<char>) -> bool {
    a == "restore"@ || a == "list"@ || a == "put"@ || a == "empty"@ || a == "rm"@
}

/// An argument that starts with `-`.
pub open spec fn is_flag(a: Seq<char>) -> bool {
    a.len() > 0 && a[0] == '-'
}

/// The command line that a help or version flag stands for.
pub open spec fn stop_at(st: ParseState, version: bool, help: bool) -> CliView {
    CliView {
        command: CommandView::Restore { target_path: None, sort: st.sort, overwrite: st.overwrite },
        trash_dir: st.trash_dir,
        version,
        help,
    }
}

/// Reads the arguments from index `i` on, left to right.
pub open spec fn scan_args(args: Seq<Seq<char>>, i: int, st: ParseState) -> Result<Scan, ErrorView>
    decreases args.len() - i,
{
    if i < 0 || i >= args.len() {
        Ok(Scan::Done(st))
    } else {
        let a = args[i];
        if a == "-h"@ || a == "--help"@ {
            Ok(Scan::Stop(stop_at(st, false, true)))
        } else if a == "--version"@ {
            Ok(Scan::Stop(stop_at(st, true, false)))
        } else if a == "--trash-dir"@ {
            if i + 1 >= args.len() {
                Err(ErrorView::Message("--trash-dir requires a value"@))
            } else {
                scan_args(args, i + 2, ParseState { trash_dir: Some(args[i + 1]), ..st })
            }
        } else if a == "--sort"@ {
            if i + 1 >= args.len() {
                Err(ErrorView::Message("--sort requires a value"@))
            } else {
                match spec_parse_sort(args[i + 1]) {
                    Err(e) => Err(e),
                    Ok(m) => scan_args(args, i + 2, ParseState { sort: m, ..st }),
                }
            }
        } else if a == "--overwrite"@ {
            scan_args(args, i + 1, ParseState { overwrite: true, ..st })
        } else if is_command_word(a) && st.command is None {
            scan_args(args, i + 1, ParseState { command: Some(a), ..st })
        } else if is_flag(a) {
            Err(ErrorView::Message("unknown flag: "@ + a))
        } else if st.command is None {
            Err(ErrorView::Message("unknown command: "@ + a))
        } else {
            scan_args(args, i + 1, ParseState { positional: st.positional.push(a), ..st })
        }
    }
}

/// The days value of an `empty` command.
pub open spec fn spec_parse_days(positional: Seq<Seq<char>>) -> Result<Option<u64>, ErrorView> {
    if positional.len() == 0 {
        Ok(None)
    } else if positional.len() == 1 {
        match parse_u64_spec(positional[0]) {
            Some(d) => Ok(Some(d)),
            None => Err(ErrorView::Message("invalid days value: "@ + positional[0])),
        }
    } else {
        Err(ErrorView::Message("only one positional days value is supported"@))
    }
}

/// The pattern of an `rm` command.
pub open spec fn spec_parse_pattern(positional: Seq<Seq<char>>) -> Result<Seq<char>, ErrorView> {
    if positional.len() == 1 {
        Ok(positional[0])
    } else if positional.len() == 0 {
        Err(ErrorView::Message("rm requires a pattern"@))
    } else {
        Err(ErrorView::Message("only one pattern is supported"@))
    }
}

/// The first positional argument, if any.
pub open spec fn first_of(positional: Seq<Seq<char>>) -> Option<Seq<char>> {
    if positional.len() > 0 {
        Some(positional[0])
    } else {
        None
    }
}

/// The command line once every argument has been read.
pub open spec fn finish(st: ParseState) -> Result<CliView, ErrorView> {
    let with = |c: CommandView| CliView { command: c, trash_dir: st.trash_dir, version: false, help: false };
    match st.command {
        None => Ok(CliView {
            command: CommandView::Restore { target_path: None, sort: st.sort, overwrite: st.overwrite },
            trash_dir: st.trash_dir,
            version: false,
            help: true,
        }),
        Some(c) => if c == "restore"@ {
            if st.positional.len() > 1 {
                Err(ErrorView::Message("only one positional path is supported"@))
            } else {
                Ok(with(CommandView::Restore { target_path: first_of(st.positional), sort: st.sort, overwrite: st.overwrite }))
            }
        } else if c == "list"@ {
            if st.positional.len() > 1 {
                Err(ErrorView::Message("only one positional path is supported"@))
            } else {
                Ok(with(CommandView::List { target_path: first_of(st.positional), sort: st.sort }))
            }
        } else if c == "put"@ {
            Ok(with(CommandView::Put { paths: st.positional }))
        } else if c == "empty"@ {
            match spec_parse_days(st.positional) {
                Err(e) => Err(e),
                Ok(d) => Ok(with(CommandView::Empty { days: d })),
            }
        } else if c == "rm"@ {
            match spec_parse_pattern(st.positional) {
                Err(e) => Err(e),
                Ok(p) => Ok(with(CommandView::Rm { pattern: p })),
            }
        } else {
            Err(ErrorView::Message("unknown command: "@ + c))
        },
    }
}

/// The command line the arguments (without the program name) stand for.
pub open spec fn spec_parse_from(args: Seq<Seq<char>>) -> Result<CliView, ErrorView> {
    match scan_args(args, 0, initial_state()) {
        Err(e) => Err(e),
        Ok(Scan::Stop(c)) => Ok(c),
        Ok(Scan::Done(st)) => finish(st),
    }
}

/// The words that `restore` and `list` are told apart by differ from every
/// other word the scan compares an argument with.
proof fn lemma_command_words()
    ensures
        "restore"@ != "-h"@ && "restore"@ != "--help"@ && "restore"@ != "--version"@,
        "restore"@ != "--trash-dir"@ && "restore"@ != "--sort"@ && "restore"@ != "--overwrite"@,
        "list"@ != "-h"@ && "list"@ != "--help"@ && "list"@ != "--version"@,
        "list"@ != "--trash-dir"@ && "list"@ != "--sort"@ && "list"@ != "--overwrite"@,
        "list"@ != "restore"@,
        is_flag("-h"@) && is_flag("--help"@) && is_flag("--version"@),
        is_flag("--trash-dir"@) && is_flag("--sort"@) && is_flag("--overwrite"@),
        !is_flag("restore"@) && !is_flag("list"@),
{
    reveal_strlit("restore");
    reveal_strlit("list");
    reveal_strlit("-h");
    reveal_strlit("--help");
    reveal_strlit("--version");
    reveal_strlit("--trash-dir");
    reveal_strlit("--sort");
    reveal_strlit("--overwrite");
    assert("restore"@.len() != "-h"@.len());
    assert("restore"@[0] != "--help"@[0]);
    assert("restore"@[0] != "--version"@[0]);
    assert("restore"@[0] != "--trash-dir"@[0]);
    assert("restore"@[0] != "--sort"@[0]);
    assert("restore"@[0] != "--overwrite"@[0]);
    assert("list"@[0] != "-h"@[0]);
    assert("list"@[0] != "--help"@[0]);
    assert("list"@[0] != "--version"@[0]);
    assert("list"@[0] != "--trash-dir"@[0]);
    assert("list"@[0] != "--sort"@[0]);
    assert("list"@[0] != "--overwrite"@[0]);
    assert("list"@.len() != "restore"@.len());
}

/// `restore PATH` and `list PATH`, for any operand that is not a flag, keep
/// the operand as the path the command is narrowed to (sorted by date, with
/// no other option set); without an operand the command is not narrowed.
pub proof fn lemma_operand_is_target(p: Seq<char>)
    requires
        !is_flag(p),
    ensures
        spec_parse_from(seq!["restore"@, p]) == Ok::<CliView, ErrorView>(CliView {
            command: CommandView::Restore { target_path: Some(p), sort: SortMode::Date, overwrite: false },
            trash_dir: None,
            version: false,
            help: false,
        }),
        spec_parse_from(seq!["list"@, p]) == Ok::<CliView, ErrorView>(CliView {
            command: CommandView::List { target_path: Some(p), sort: SortMode::Date },
            trash_dir: None,
            version: false,
            help: false,
        }),
        spec_parse_from(seq!["restore"@]) == Ok::<CliView, ErrorView>(CliView {
            command: CommandView::Restore { target_path: None, sort: SortMode::Date, overwrite: false },
            trash_dir: None,
            version: false,
            help: false,
        }),
        spec_parse_from(seq!["list"@]) == Ok::<CliView, ErrorView>(CliView {
            command: CommandView::List { target_path: None, sort: SortMode::Date },
            trash_dir: None,
            version: false,
            help: false,
        }),
{
    lemma_command_words();
    reveal_with_fuel(scan_args, 3);
    let st0 = initial_state();
    let pos = Seq::<Seq<char>>::empty().push(p);
    assert(pos =~= seq![p]);
    assert(first_of(pos) == Some(p));
    assert(first_of(Seq::<Seq<char>>::empty()) is None);
    let w = seq!["restore"@, p];
    let st1 = ParseState { command: Some("restore"@), ..st0 };
    assert(scan_args(w, 0, st0) == scan_args(w, 1, st1));
    assert(scan_args(w, 1, st1) == scan_args(w, 2, ParseState { positional: pos, ..st1 }));
    let w2 = seq!["list"@, p];
    let st2 = ParseState { command: Some("list"@), ..st0 };
    assert(scan_args(w2, 0, st0) == scan_args(w2, 1, st2));
    assert(scan_args(w2, 1, st2) == scan_args(w2, 2, ParseState { positional: pos, ..st2 }));
    assert(scan_args(seq!["restore"@], 0, st0) == scan_args(seq!["restore"@], 1, st1));
    assert(scan_args(seq!["list"@], 0, st0) == scan_args(seq!["list"@], 1, st2));
}

// ---------------------------------------------------------------------------
// Reading a command line
// ---------------------------------------------------------------------------

fn is_word(a: &String, word: &str) -> (r: bool)
    ensures
        r == (a@ == word@),
{
    *a == word.to_owned()
}

fn copy_string(s: &String) -> (out: String)
    ensures
        out@ == s@,
{
    s.clone()
}

fn parse_sort(value: &String) -> (r: Result<SortMode, Error>)
    ensures
        match spec_parse_sort(value@) {
            Ok(m) => r is Ok && r->Ok_0 == m,
            Err(x) => r is Err && r->Err_0@ == x,
        },
{
    if is_word(value, "date") {
        Ok(SortMode::Date)
    } else if is_word(value, "path") {
        Ok(SortMode::Path)
    } else if is_word(value, "none") {
        Ok(SortMode::Unsorted)
    } else {
        Err(Error::Message(concat("invalid sort mode: ", value.as_str())))
    }
}

fn parse_days(positional: &Vec<String>) -> (r: Result<Option<u64>, Error>)
    ensures
        match spec_parse_days(string_views(positional@)) {
            Ok(d) => r is Ok && r->Ok_0 == d,
            Err(x) => r is Err && r->Err_0@ == x,
        },
{
    if positional.len() == 0 {
        Ok(None)
    } else if positional.len() == 1 {
        let value = &positional[0];
        match parse_u64(&chars_of(value.as_str())) {
            Some(d) => Ok(Some(d)),
            None => Err(Error::Message(concat("invalid days value: ", value.as_str()))),
        }
    } else {
        Err(Error::message("only one positional days value is supported"))
    }
}

fn parse_pattern(positional: &Vec<String>) -> (r: Result<String, Error>)
    ensures
        match spec_parse_pattern(string_views(positional@)) {
            Ok(p) => r is Ok && r->Ok_0@ == p,
            Err(x) => r is Err && r->Err_0@ == x,
        },
{
    if positional.len() == 1 {
        Ok(copy_string(&positional[0]))
    } else if positional.len() == 0 {
        Err(Error::message("rm requires a pattern"))
    } else {
        Err(Error::message("only one pattern is supported"))
    }
}

fn first_positional(positional: &Vec<String>) -> (out: Option<String>)
    ensures
        opt_text(out) == first_of(string_views(positional@)),
{
    if positional.len() > 0 {
        Some(copy_string(&positional[0]))
    } else {
        None
    }
}

fn opt_copy(o: &Option<String>) -> (out: Option<String>)
    ensures
        opt_text(out) == opt_text(*o),
{
    match o {
        Some(s) => Some(copy_string(s)),
        None => None,
    }
}

/// The command line that `args` (without the program name) stand for:
/// global flags anywhere, one command word, then the command's operands.
pub fn parse_from(args: Vec<String>) -> (r: Result<Cli, Error>)
    ensures
        match spec_parse_from(string_views(args@)) {
            Ok(c) => r is Ok && r->Ok_0@ == c,
            Err(x) => r is Err && r->Err_0@ == x,
        },
{
    let ghost av = string_views(args@);
    let mut trash_dir: Option<String> = None;
    let mut command: Option<String> = None;
    let mut sort = SortMode::Date;
    let mut overwrite = false;
    let mut positional: Vec<String> = Vec::new();
    let mut i: usize = 0;
    proof {
        assert(string_views(positional@) =~= Seq::<Seq<char>>::empty());
    }
    while i < args.len()
        invariant
            i <= args@.len(),
            av == string_views(args@),
            scan_args(av, 0, initial_state()) == scan_args(av, i as int, ParseState {
                trash_dir: opt_text(trash_dir),
                command: opt_text(command),
                sort,
                overwrite,
                positional: string_views(positional@),
            }),
            command is Some ==> is_command_word(command->0@),
        decreases args@.len() - i,
    {
        let ghost st = ParseState {
            trash_dir: opt_text(trash_dir),
            command: opt_text(command),
            sort,
            overwrite,
            positional: string_views(positional@),
        };
        let a = &args[i];
        assert(av[i as int] == a@);
        if is_word(a, "-h") || is_word(a, "--help") {
            return Ok(Cli {
                command: Command::Restore { target_path: None, sort, overwrite },
                trash_dir,
                version: false,
                help: true,
            });
        } else if is_word(a, "--version") {
            return Ok(Cli {
                command: Command::Restore { target_path: None, sort, overwrite },
                trash_dir,
                version: true,
                help: false,
            });
        } else if is_word(a, "--trash-dir") {
            if i + 1 >= args.len() {
                return Err(Error::message("--trash-dir requires a value"));
            }
            assert(av[i + 1] == args@[i + 1]@);
            trash_dir = Some(copy_string(&args[i + 1]));
            i = i + 2;
        } else if is_word(a, "--sort") {
            if i + 1 >= args.len() {
                return Err(Error::message("--sort requires a value"));
            }
            assert(av[i + 1] == args@[i + 1]@);
            match parse_sort(&args[i + 1]) {
                Ok(m) => {
                    sort = m;
                },
                Err(e) => {
                    return Err(e);
                },
            }
            i = i + 2;
        } else if is_word(a, "--overwrite") {
            overwrite = true;
            i = i + 1;
        } else if (is_word(a, "restore") || is_word(a, "list") || is_word(a, "put") || is_word(a, "empty")
            || is_word(a, "rm")) && command.is_none() {
            command = Some(copy_string(a));
            i = i + 1;
        } else if starts_with_dash(a) {
            return Err(Error::Message(concat("unknown flag: ", a.as_str())));
        } else if command.is_none() {
            return Err(Error::Message(concat("unknown command: ", a.as_str())));
        } else {
            let ghost before = string_views(positional@);
            positional.push(copy_string(a));
            assert(string_views(positional@) =~= before.push(a@));
            i = i + 1;
        }
    }
    let target = first_positional(&positional);
    let ghost st = ParseState {
        trash_dir: opt_text(trash_dir),
        command: opt_text(command),
        sort,
        overwrite,
        positional: string_views(positional@),
    };
    assert(scan_args(av, i as int, st) == Ok::<Scan, ErrorView>(Scan::Done(st)));
    let cmd = match &command {
        None => {
            return Ok(Cli {
                command: Command::Restore { target_path: None, sort, overwrite },
                trash_dir,
                version: false,
                help: true,
            });
        },
        Some(c) => c,
    };
    let chosen = if is_word(cmd, "restore") {
        if positional.len() > 1 {
            return Err(Error::message("only one positional path is supported"));
        }
        Command::Restore { target_path: target, sort, overwrite }
    } else if is_word(cmd, "list") {
        if positional.len() > 1 {
            return Err(Error::message("only one positional path is supported"));
        }
        Command::List { target_path: target, sort }
    } else if is_word(cmd, "put") {
        let ghost pv = string_views(positional@);
        let paths = positional;
        assert(string_views(paths@) == pv);
        Command::Put { paths }
    } else if is_word(cmd, "empty") {
        match parse_days(&positional) {
            Ok(days) => Command::Empty { days },
            Err(e) => {
                return Err(e);
            },
        }
    } else if is_word(cmd, "rm") {
        match parse_pattern(&positional) {
            Ok(pattern) => Command::Rm { pattern },
            Err(e) => {
                return Err(e);
            },
        }
    } else {
        return Err(Error::Message(concat("unknown command: ", cmd.as_str())));
    };
    let td = opt_copy(&trash_dir);
    Ok(Cli { command: chosen, trash_dir: td, version: false, help: false })
}

fn starts_with_dash(a: &String) -> (r: bool)
    ensures
        r == is_flag(a@),
{
    let cs = chars_of(a.as_str());
    cs.len() > 0 && cs[0] == '-'
}

// ---------------------------------------------------------------------------
// Help text
// ---------------------------------------------------------------------------

/// The help text after the first line.
pub const USAGE_BODY: &'static str = "\n\nUsage:\n  trash list [--sort date|path|none] [--trash-dir DIR] [PATH]\n  trash restore [--sort date|path|none] [--trash-dir DIR] [--overwrite] [PATH]\n  trash put [OPTIONS] FILE...\n  trash empty [--trash-dir DIR] [DAYS]\n  trash rm PATTERN\n\nCommands:\n  list                    List files in trash\n  restore                 Restore files from trash\n  put                     Move files or directories to trash\n  empty                   Empty trash permanently\n  rm                      Remove trashed files matching basename or full path glob\n\nGlobal options:\n  -h, --help              Show this help message\n  --version               Show version information\n\nrm PATTERN:\n  If PATTERN starts with /, it matches the full original path.\n  Otherwise, it matches only the basename. Supports * and ? wildcards.\n\nExamples:\n  trash put file.txt documents/\n  trash list --sort path\n  trash restore --overwrite\n  trash empty 30\n  trash rm \"*.log\"\n";

/// The help text for a program of the given version.
pub open spec fn usage_text(version: Seq<char>) -> Seq<char> {
    "trash "@ + version + USAGE_BODY@
}

/// The help text: the program name and version, the commands and their
/// options, and examples.
pub fn usage(version: &str) -> (out: String)
    ensures
        out@ == usage_text(version@),
{
    let head = concat("trash ", version);
    concat(head.as_str(), USAGE_BODY)
}

} // verus!
