//! The developer command: `canopy new <name>` and `canopy build [--release]`.
//!
//! This is everything about the command but its input and output: how its arguments are read,
//! what is wrong with them, and the texts of the files of a new project.
use crate::chars::to_chars;
use crate::templates::{
    HEADLESS_MAIN, MAIN_DOC, MAIN_HEAD, MANIFEST_DEPS, MANIFEST_HEAD, MANIFEST_RUN, MANIFEST_TAIL,
    README_BODY, README_HEAD, README_TAIL, STYLES, UNPUBLISHED_NOTE, WELCOME_MODULE, WINDOW_MAIN,
};
use crate::text::{opt_str, str_eq, strings_chars};
use vstd::prelude::*;
use vstd::string::StringExecFns;

verus! {

/// What the first argument asks for.
#[derive(Clone, Copy, PartialEq, Eq, Debug, Structural)]
pub enum Command {
    /// Print the usage text.
    Help,
    /// Start a new project.
    New,
    /// Build the project.
    Build,
    /// Nothing that is known.
    Unknown,
}

/// What the arguments ask for.
pub open spec fn command_of(args: Seq<Seq<char>>) -> Command {
    if args.len() == 0 || args[0] == "-h"@ || args[0] == "--help"@ || args[0] == "help"@ {
        Command::Help
    } else if args[0] == "new"@ {
        Command::New
    } else if args[0] == "build"@ {
        Command::Build
    } else {
        Command::Unknown
    }
}

/// What the arguments ask for.
pub fn command(args: &Vec<String>) -> (r: Command)
    ensures
        r == command_of(strings_chars(args@)),
{
    if args.len() == 0 {
        return Command::Help;
    }
    let first = args[0].as_str();
    assert(strings_chars(args@)[0] == first@);
    if str_eq(first, "-h") || str_eq(first, "--help") || str_eq(first, "help") {
        Command::Help
    } else if str_eq(first, "new") {
        Command::New
    } else if str_eq(first, "build") {
        Command::Build
    } else {
        Command::Unknown
    }
}

/// Why a command is not carried out.
#[derive(PartialEq, Eq, Debug)]
pub enum CliError {
    /// `new` does not know the option.
    NewOption(String),
    /// There is more than one project name.
    ManyNames,
    /// There is no project name.
    MissingName,
    /// The project name is empty.
    EmptyName,
    /// The project name is not that of a plain directory.
    BadName(String),
    /// `build` does not know the option.
    BuildOption(String),
    /// The directory of the new project holds something.
    NotEmpty(String),
    /// Where the new project would stand, there is something that is no directory.
    NotADirectory(String),
}

/// What a [`CliError`] says.
pub ghost enum CliErrorView {
    NewOption(Seq<char>),
    ManyNames,
    MissingName,
    EmptyName,
    BadName(Seq<char>),
    BuildOption(Seq<char>),
    NotEmpty(Seq<char>),
    NotADirectory(Seq<char>),
}

impl View for CliError {
    type V = CliErrorView;

    open spec fn view(&self) -> CliErrorView {
        match *self {
            CliError::NewOption(s) => CliErrorView::NewOption(s@),
            CliError::ManyNames => CliErrorView::ManyNames,
            CliError::MissingName => CliErrorView::MissingName,
            CliError::EmptyName => CliErrorView::EmptyName,
            CliError::BadName(s) => CliErrorView::BadName(s@),
            CliError::BuildOption(s) => CliErrorView::BuildOption(s@),
            CliError::NotEmpty(s) => CliErrorView::NotEmpty(s@),
            CliError::NotADirectory(s) => CliErrorView::NotADirectory(s@),
        }
    }
}

/// The message for what is wrong.
pub open spec fn error_text(e: CliErrorView) -> Seq<char> {
    match e {
        CliErrorView::NewOption(s) => "unknown option `"@ + s + "` for `canopy new`"@,
        CliErrorView::ManyNames => "expected a single project name; got more than one argument"@,
        CliErrorView::MissingName => "missing project name (usage: canopy new <name>)"@,
        CliErrorView::EmptyName => "project name must not be empty"@,
        CliErrorView::BadName(s) => "invalid project name `"@ + s
            + "`: must be a plain directory name"@,
        CliErrorView::BuildOption(s) => "unknown option `"@ + s
            + "` for `canopy build` (try --release)"@,
        CliErrorView::NotEmpty(s) => "`"@ + s + "` already exists and is not empty"@,
        CliErrorView::NotADirectory(s) => "`"@ + s + "` exists and is not a directory"@,
    }
}

/// A text around another.
fn around(before: &str, s: &str, after: &str) -> (r: String)
    ensures
        r@ == before@ + s@ + after@,
{
    let mut out = before.to_owned();
    out.append(s);
    out.append(after);
    out
}

impl CliError {
    /// The message for what is wrong.
    pub fn message(&self) -> (r: String)
        ensures
            r@ == error_text(self@),
    {
        match self {
            CliError::NewOption(s) => around("unknown option `", s.as_str(), "` for `canopy new`"),
            CliError::ManyNames => {
                "expected a single project name; got more than one argument".to_owned()
            },
            CliError::MissingName => "missing project name (usage: canopy new <name>)".to_owned(),
            CliError::EmptyName => "project name must not be empty".to_owned(),
            CliError::BadName(s) => around(
                "invalid project name `",
                s.as_str(),
                "`: must be a plain directory name",
            ),
            CliError::BuildOption(s) => around(
                "unknown option `",
                s.as_str(),
                "` for `canopy build` (try --release)",
            ),
            CliError::NotEmpty(s) => around("`", s.as_str(), "` already exists and is not empty"),
            CliError::NotADirectory(s) => around("`", s.as_str(), "` exists and is not a directory"),
        }
    }
}

/// Whether a name is that of a plain directory.
pub open spec fn name_check(name: Seq<char>) -> Result<(), CliErrorView> {
    if name.len() == 0 {
        Err(CliErrorView::EmptyName)
    } else if name.contains('/') || name.contains('\\') || name == "."@ || name == ".."@ {
        Err(CliErrorView::BadName(name))
    } else {
        Ok(())
    }
}

/// What a result says.
pub open spec fn checked(r: Result<(), CliError>) -> Result<(), CliErrorView> {
    match r {
        Ok(_) => Ok(()),
        Err(e) => Err(e@),
    }
}

/// Check that a name is that of a plain directory.
pub fn validate_name(name: &str) -> (r: Result<(), CliError>)
    ensures
        checked(r) == name_check(name@),
{
    let mut empty = true;
    let mut separated = false;
    for c in it: name.chars()
        invariant
            it.seq() == name@,
            empty == (it.index() == 0),
            separated == exists|i: int|
                0 <= i < it.index() && (#[trigger] name@[i] == '/' || name@[i] == '\\'),
    {
        empty = false;
        assert(name@[it.index()] == c);
        if c == '/' || c == '\\' {
            separated = true;
        }
    }
    if empty {
        return Err(CliError::EmptyName);
    }
    assert(separated == (name@.contains('/') || name@.contains('\\')));
    if separated || str_eq(name, ".") || str_eq(name, "..") {
        return Err(CliError::BadName(name.to_owned()));
    }
    Ok(())
}

/// The project name among the arguments of `new` from index `i` on, `found` being the one among
/// those before.
pub open spec fn name_from(args: Seq<Seq<char>>, i: int, found: Option<Seq<char>>) -> Result<
    Seq<char>,
    CliErrorView,
>
    decreases args.len() - i,
{
    if i >= args.len() {
        match found {
            Some(name) => Ok(name),
            None => Err(CliErrorView::MissingName),
        }
    } else if args[i].len() > 0 && args[i][0] == '-' {
        Err(CliErrorView::NewOption(args[i]))
    } else if found is Some {
        Err(CliErrorView::ManyNames)
    } else {
        name_from(args, i + 1, Some(args[i]))
    }
}

/// The project name that the arguments of `new` give: they hold no option and one name, and that
/// is the name of a plain directory.
pub open spec fn project_name(args: Seq<Seq<char>>) -> Result<Seq<char>, CliErrorView> {
    match name_from(args, 0, None) {
        Ok(name) => match name_check(name) {
            Ok(_) => Ok(name),
            Err(e) => Err(e),
        },
        Err(e) => Err(e),
    }
}

fn is_option(arg: &str) -> (r: bool)
    ensures
        r == (arg@.len() > 0 && arg@[0] == '-'),
{
    let chars = to_chars(arg);
    chars.len() > 0 && chars[0] == '-'
}

/// Read the arguments of `new`.
pub fn cmd_new(args: &Vec<String>) -> (r: Result<String, CliError>)
    ensures
        match r {
            Ok(name) => project_name(strings_chars(args@)) == Ok::<Seq<char>, CliErrorView>(name@),
            Err(e) => project_name(strings_chars(args@)) == Err::<Seq<char>, CliErrorView>(e@),
        },
{
    let ghost all = strings_chars(args@);
    let mut name: Option<usize> = None;
    let mut i: usize = 0;
    while i < args.len()
        invariant
            i <= args@.len(),
            all == strings_chars(args@),
            name matches Some(k) ==> k < args@.len(),
            name_from(all, 0, None) == name_from(
                all,
                i as int,
                match name {
                    Some(k) => Some(args@[k as int]@),
                    None => None,
                },
            ),
        decreases args@.len() - i,
    {
        assert(all[i as int] == args@[i as int]@);
        if is_option(args[i].as_str()) {
            return Err(CliError::NewOption(args[i].clone()));
        }
        if name.is_some() {
            return Err(CliError::ManyNames);
        }
        name = Some(i);
        i += 1;
    }
    match name {
        Some(k) => {
            let name = args[k].clone();
            match validate_name(name.as_str()) {
                Ok(_) => Ok(name),
                Err(e) => Err(e),
            }
        },
        None => Err(CliError::MissingName),
    }
}

/// Whether `build` is asked for an optimized build, given the first `n` arguments.
pub open spec fn release_upto(args: Seq<Seq<char>>, n: nat) -> Result<bool, CliErrorView>
    decreases n,
{
    if n == 0 {
        Ok(false)
    } else {
        match release_upto(args, (n - 1) as nat) {
            Ok(_) => if args[n - 1] == "--release"@ || args[n - 1] == "-r"@ {
                Ok(true)
            } else {
                Err(CliErrorView::BuildOption(args[n - 1]))
            },
            Err(e) => Err(e),
        }
    }
}

/// Whether `build` is asked for an optimized build: it knows no other option.
pub open spec fn wants_release(args: Seq<Seq<char>>) -> Result<bool, CliErrorView> {
    release_upto(args, args.len())
}

proof fn lemma_release_stops(args: Seq<Seq<char>>, k: nat, n: nat)
    requires
        k <= n,
        release_upto(args, k) is Err,
    ensures
        release_upto(args, n) == release_upto(args, k),
    decreases n,
{
    if k < n {
        lemma_release_stops(args, k, (n - 1) as nat);
    }
}

/// Read the arguments of `build`: whether an optimized build is asked for.
pub fn cmd_build(args: &Vec<String>) -> (r: Result<bool, CliError>)
    ensures
        match r {
            Ok(release) => wants_release(strings_chars(args@)) == Ok::<bool, CliErrorView>(release),
            Err(e) => wants_release(strings_chars(args@)) == Err::<bool, CliErrorView>(e@),
        },
{
    let ghost all = strings_chars(args@);
    let mut release = false;
    let mut i: usize = 0;
    while i < args.len()
        invariant
            i <= args@.len(),
            all == strings_chars(args@),
            release_upto(all, i as nat) == Ok::<bool, CliErrorView>(release),
        decreases args@.len() - i,
    {
        assert(all[i as int] == args@[i as int]@);
        let arg = args[i].as_str();
        if str_eq(arg, "--release") || str_eq(arg, "-r") {
            release = true;
        } else {
            proof {
                lemma_release_stops(all, (i + 1) as nat, all.len());
            }
            return Err(CliError::BuildOption(args[i].clone()));
        }
        i += 1;
    }
    Ok(release)
}

/// The Canopy crates that a new project depends on.
pub open spec fn canopy_deps() -> Seq<Seq<char>> {
    seq![
        "canopy-view"@,
        "canopy-protocol"@,
        "canopy-dom"@,
        "canopy-signals"@,
        "canopy-traits"@,
        "canopy-layout-taffy"@,
        "canopy-style-css"@,
        "canopy-render-text"@,
        "canopy-text-parley"@,
        "canopy-input"@,
    ]
}

/// The line of a manifest for a dependency: a path under a checkout, or a version to be replaced.
pub open spec fn dep_line(dep: Seq<char>, crates_root: Option<Seq<char>>) -> Seq<char> {
    match crates_root {
        Some(root) => dep + " = { path = \""@ + root + "/crates/"@ + dep + "\" }\n"@,
        None => dep + " = \"0.0.0\"\n"@,
    }
}

/// The lines of a manifest for dependencies.
pub open spec fn dep_lines(deps: Seq<Seq<char>>, crates_root: Option<Seq<char>>) -> Seq<char>
    decreases deps.len(),
{
    if deps.len() == 0 {
        seq![]
    } else {
        dep_lines(deps.drop_last(), crates_root) + dep_line(deps.last(), crates_root)
    }
}

/// The manifest of a new project.
pub open spec fn manifest(name: Seq<char>, crates_root: Option<Seq<char>>) -> Seq<char> {
    MANIFEST_HEAD@ + name + MANIFEST_RUN@ + name + MANIFEST_DEPS@ + (if crates_root is None {
        UNPUBLISHED_NOTE@
    } else {
        seq![]
    }) + dep_lines(canopy_deps(), crates_root) + MANIFEST_TAIL@
}

fn push_dep(out: &mut String, dep: &str, crates_root: Option<&str>)
    ensures
        final(out)@ == old(out)@ + dep_line(dep@, opt_str(crates_root)),
{
    match crates_root {
        Some(root) => {
            out.append(dep);
            out.append(" = { path = \"");
            out.append(root);
            out.append("/crates/");
            out.append(dep);
            out.append("\" }\n");
        },
        None => {
            out.append(dep);
            out.append(" = \"0.0.0\"\n");
        },
    }
    assert(out@ =~= old(out)@ + dep_line(dep@, opt_str(crates_root)));
}

/// The Canopy crates that a new project depends on.
pub fn canopy_crates() -> (r: Vec<String>)
    ensures
        strings_chars(r@) == canopy_deps(),
{
    let mut v: Vec<String> = Vec::new();
    v.push("canopy-view".to_owned());
    v.push("canopy-protocol".to_owned());
    v.push("canopy-dom".to_owned());
    v.push("canopy-signals".to_owned());
    v.push("canopy-traits".to_owned());
    v.push("canopy-layout-taffy".to_owned());
    v.push("canopy-style-css".to_owned());
    v.push("canopy-render-text".to_owned());
    v.push("canopy-text-parley".to_owned());
    v.push("canopy-input".to_owned());
    assert(strings_chars(v@) =~= canopy_deps());
    v
}

/// The manifest of a new project. With the root of a checkout it depends on the Canopy crates
/// there; without one it says how to point the dependencies at a source.
pub fn cargo_toml(name: &str, crates_root: Option<&str>) -> (r: String)
    ensures
        r@ == manifest(name@, opt_str(crates_root)),
{
    let ghost root = opt_str(crates_root);
    let mut out = MANIFEST_HEAD.to_owned();
    out.append(name);
    out.append(MANIFEST_RUN);
    out.append(name);
    out.append(MANIFEST_DEPS);
    if crates_root.is_none() {
        out.append(UNPUBLISHED_NOTE);
    }
    let deps = canopy_crates();
    let ghost all = canopy_deps();
    let ghost start = out@;
    assert(start =~= MANIFEST_HEAD@ + name@ + MANIFEST_RUN@ + name@ + MANIFEST_DEPS@ + (if root is None {
        UNPUBLISHED_NOTE@
    } else {
        seq![]
    }));
    let mut i: usize = 0;
    assert(all.take(0) =~= seq![]);
    assert(start + dep_lines(all.take(0), root) =~= start);
    while i < deps.len()
        invariant
            i <= deps@.len(),
            all == strings_chars(deps@),
            root == opt_str(crates_root),
            out@ == start + dep_lines(all.take(i as int), root),
        decreases deps@.len() - i,
    {
        proof {
            assert(all.take(i + 1).drop_last() =~= all.take(i as int));
            assert(all.take(i + 1).last() == deps@[i as int]@);
        }
        push_dep(&mut out, deps[i].as_str(), crates_root);
        i += 1;
        assert(out@ =~= start + dep_lines(all.take(i as int), root));
    }
    assert(all.take(i as int) =~= all);
    out.append(MANIFEST_TAIL);
    out
}

/// The program of a new project.
pub open spec fn program(name: Seq<char>) -> Seq<char> {
    MAIN_HEAD@ + name + MAIN_DOC@ + WELCOME_MODULE@ + "\n"@ + WINDOW_MAIN@ + "\n"@ + HEADLESS_MAIN@
}

/// The program of a new project.
pub fn main_rs(name: &str) -> (r: String)
    ensures
        r@ == program(name@),
{
    let mut out = MAIN_HEAD.to_owned();
    out.append(name);
    out.append(MAIN_DOC);
    out.append(WELCOME_MODULE);
    out.append("\n");
    out.append(WINDOW_MAIN);
    out.append("\n");
    out.append(HEADLESS_MAIN);
    out
}

/// The stylesheet of a new project.
pub fn styles_css() -> (r: String)
    ensures
        r@ == STYLES@,
{
    STYLES.to_owned()
}

/// The readme of a new project.
pub open spec fn guide(name: Seq<char>) -> Seq<char> {
    README_HEAD@ + name + README_BODY@ + name + README_TAIL@
}

/// The readme of a new project.
pub fn readme(name: &str) -> (r: String)
    ensures
        r@ == guide(name@),
{
    let mut out = README_HEAD.to_owned();
    out.append(name);
    out.append(README_BODY);
    out.append(name);
    out.append(README_TAIL);
    out
}

/// What stands where a new project is to be.
#[derive(Clone, Copy, PartialEq, Eq, Debug, Structural)]
pub enum Found {
    /// Nothing.
    Nothing,
    /// A directory without entries.
    EmptyDirectory,
    /// A directory with entries.
    FilledDirectory,
    /// Something that is no directory.
    Other,
}

/// Whether a new project may be put where `found` stands, `path` being how messages call the
/// place.
pub open spec fn place_check(found: Found, path: Seq<char>) -> Result<(), CliErrorView> {
    match found {
        Found::Nothing | Found::EmptyDirectory => Ok(()),
        Found::FilledDirectory => Err(CliErrorView::NotEmpty(path)),
        Found::Other => Err(CliErrorView::NotADirectory(path)),
    }
}

/// Check that a new project overwrites nothing.
pub fn ensure_empty_dir(found: Found, path: &str) -> (r: Result<(), CliError>)
    ensures
        checked(r) == place_check(found, path@),
{
    match found {
        Found::Nothing | Found::EmptyDirectory => Ok(()),
        Found::FilledDirectory => Err(CliError::NotEmpty(path.to_owned())),
        Found::Other => Err(CliError::NotADirectory(path.to_owned())),
    }
}

/// A file of a new project.
#[derive(PartialEq, Eq, Debug)]
pub struct ProjectFile {
    /// Its path within the project.
    pub path: String,
    /// What it holds.
    pub contents: String,
}

/// The paths and the contents of files.
pub open spec fn files_view(files: Seq<ProjectFile>) -> Seq<(Seq<char>, Seq<char>)> {
    Seq::new(files.len(), |i: int| (files[i].path@, files[i].contents@))
}

/// The files of a new project.
pub open spec fn project_files(name: Seq<char>, crates_root: Option<Seq<char>>) -> Seq<
    (Seq<char>, Seq<char>),
> {
    seq![
        ("Cargo.toml"@, manifest(name, crates_root)),
        ("src/main.rs"@, program(name)),
        ("styles.css"@, STYLES@),
        ("README.md"@, guide(name)),
    ]
}

fn project_file(path: &str, contents: String) -> (r: ProjectFile)
    ensures
        r.path@ == path@,
        r.contents@ == contents@,
{
    ProjectFile { path: path.to_owned(), contents }
}

/// The files of a new project called `name`, in the order in which they are written, unless
/// what was found in its place forbids it: then no file is.
pub fn scaffold(found: Found, path: &str, name: &str, crates_root: Option<&str>) -> (r: Result<
    Vec<ProjectFile>,
    CliError,
>)
    ensures
        match place_check(found, path@) {
            Ok(_) => r is Ok && files_view(r->Ok_0@) == project_files(name@, opt_str(crates_root)),
            Err(e) => r is Err && r->Err_0@ == e,
        },
{
    match ensure_empty_dir(found, path) {
        Err(e) => Err(e),
        Ok(_) => {
            let mut files: Vec<ProjectFile> = Vec::new();
            files.push(project_file("Cargo.toml", cargo_toml(name, crates_root)));
            files.push(project_file("src/main.rs", main_rs(name)));
            files.push(project_file("styles.css", styles_css()));
            files.push(project_file("README.md", readme(name)));
            assert(files_view(files@) =~= project_files(name@, opt_str(crates_root)));
            Ok(files)
        },
    }
}

/// A project name that is accepted names one directory below the current one: it is not empty,
/// is neither the directory itself nor its parent, and holds no separator.
pub proof fn law_project_names_are_plain(args: Seq<Seq<char>>, name: Seq<char>)
    requires
        project_name(args) == Ok::<Seq<char>, CliErrorView>(name),
    ensures
        name.len() > 0,
        !name.contains('/'),
        !name.contains('\\'),
        name != "."@,
        name != ".."@,
{
}

/// `new` takes one argument, which is no option, and nothing else.
pub proof fn law_new_takes_one_plain_name(args: Seq<Seq<char>>)
    ensures
        ({
            let r = project_name(args);
            let plain = |s: Seq<char>|
                {
                    &&& s.len() > 0
                    &&& s[0] != '-'
                    &&& !s.contains('/')
                    &&& !s.contains('\\')
                    &&& s != "."@
                    &&& s != ".."@
                };
            &&& r is Ok <==> args.len() == 1 && plain(args[0])
            &&& r is Ok ==> r == Ok::<Seq<char>, CliErrorView>(args[0])
            &&& args.len() == 0 ==> r == Err::<Seq<char>, CliErrorView>(CliErrorView::MissingName)
            &&& args.len() == 1 && args[0].len() == 0 ==> r == Err::<Seq<char>, CliErrorView>(
                CliErrorView::EmptyName,
            )
            &&& args.len() > 0 && args[0].len() > 0 && args[0][0] == '-' ==> r == Err::<
                Seq<char>,
                CliErrorView,
            >(CliErrorView::NewOption(args[0]))
            &&& args.len() > 1 && !(args[0].len() > 0 && args[0][0] == '-') ==> r == if args[1].len()
                > 0 && args[1][0] == '-' {
                Err::<Seq<char>, CliErrorView>(CliErrorView::NewOption(args[1]))
            } else {
                Err(CliErrorView::ManyNames)
            }
            &&& args.len() == 1 && args[0].len() > 0 && args[0][0] != '-' && !plain(args[0]) ==> r
                == Err::<Seq<char>, CliErrorView>(CliErrorView::BadName(args[0]))
        }),
{
    reveal_with_fuel(name_from, 3);
}

/// `build` knows `--release` and `-r`, which ask for an optimized build, and no other argument: the
/// first that it does not know is refused.
pub proof fn law_build_knows_release_alone(args: Seq<Seq<char>>)
    ensures
        ({
            let known = |s: Seq<char>| s == "--release"@ || s == "-r"@;
            let r = wants_release(args);
            &&& r is Ok <==> forall|i: int| 0 <= i < args.len() ==> known(#[trigger] args[i])
            &&& r is Ok ==> r->Ok_0 == (args.len() > 0)
            &&& r is Err ==> exists|i: int|
                0 <= i < args.len() && !known(#[trigger] args[i]) && (forall|j: int|
                    0 <= j < i ==> known(#[trigger] args[j])) && r->Err_0
                    == CliErrorView::BuildOption(args[i])
        }),
{
    lemma_release(args, args.len());
}

proof fn lemma_release(args: Seq<Seq<char>>, n: nat)
    requires
        n <= args.len(),
    ensures
        ({
            let known = |s: Seq<char>| s == "--release"@ || s == "-r"@;
            let r = release_upto(args, n);
            &&& r is Ok <==> forall|i: int| 0 <= i < n ==> known(#[trigger] args[i])
            &&& r is Ok ==> r->Ok_0 == (n > 0)
            &&& r is Err ==> exists|i: int|
                0 <= i < n && !known(#[trigger] args[i]) && (forall|j: int|
                    0 <= j < i ==> known(#[trigger] args[j])) && r->Err_0
                    == CliErrorView::BuildOption(args[i])
        }),
    decreases n,
{
    if n > 0 {
        lemma_release(args, (n - 1) as nat);
        let known = |s: Seq<char>| s == "--release"@ || s == "-r"@;
        let r = release_upto(args, n);
        if release_upto(args, (n - 1) as nat) is Ok && r is Err {
            assert(!known(args[n - 1]));
        }
    }
}

/// The first argument decides: without one, or with `-h`, `--help` or `help`, the usage is printed.
pub proof fn law_commands_are_told_apart(args: Seq<Seq<char>>)
    ensures
        command_of(args) == Command::Help <==> args.len() == 0 || args[0] == "-h"@ || args[0]
            == "--help"@ || args[0] == "help"@,
        command_of(args) == Command::New <==> args.len() > 0 && args[0] == "new"@,
        command_of(args) == Command::Build <==> args.len() > 0 && args[0] == "build"@,
{
    reveal_strlit("-h");
    reveal_strlit("--help");
    reveal_strlit("help");
    reveal_strlit("new");
    reveal_strlit("build");
    assert("-h"@.len() == 2 && "--help"@.len() == 6 && "help"@.len() == 4 && "new"@.len() == 3
        && "build"@.len() == 5);
}

/// A new project is put where nothing is or an empty directory, and nowhere else.
pub proof fn law_new_projects_overwrite_nothing(found: Found, path: Seq<char>)
    ensures
        place_check(found, path) is Ok <==> found == Found::Nothing || found == Found::EmptyDirectory,
        found == Found::FilledDirectory ==> place_check(found, path) == Err::<(), CliErrorView>(
            CliErrorView::NotEmpty(path),
        ),
        found == Found::Other ==> place_check(found, path) == Err::<(), CliErrorView>(
            CliErrorView::NotADirectory(path),
        ),
{
}

/// Whether `part` stands in `text` at `at`.
pub open spec fn stands_at(text: Seq<char>, part: Seq<char>, at: int) -> bool {
    0 <= at && at + part.len() <= text.len() && text.subrange(at, at + part.len()) == part
}

/// The manifest names the project, and depends on each Canopy crate: on the one in the checkout where
/// there is one, else on a version. Where the line of a crate stands is returned.
pub proof fn law_manifests_depend_on_each_crate(
    name: Seq<char>,
    crates_root: Option<Seq<char>>,
    i: int,
) -> (at: int)
    requires
        0 <= i < canopy_deps().len(),
    ensures
        ({
            let dep = canopy_deps()[i];
            let line = match crates_root {
                Some(root) => dep + " = { path = \""@ + root + "/crates/"@ + dep + "\" }\n"@,
                None => dep + " = \"0.0.0\"\n"@,
            };
            &&& stands_at(manifest(name, crates_root), line, at)
            &&& stands_at(manifest(name, crates_root), name, MANIFEST_HEAD@.len() as int)
            &&& crates_root is None ==> stands_at(
                manifest(name, crates_root),
                UNPUBLISHED_NOTE@,
                (MANIFEST_HEAD@ + name + MANIFEST_RUN@ + name + MANIFEST_DEPS@).len() as int,
            )
            &&& canopy_deps().len() == 10
        }),
{
    let text = manifest(name, crates_root);
    let head = MANIFEST_HEAD@ + name + MANIFEST_RUN@ + name + MANIFEST_DEPS@;
    let note = if crates_root is None {
        UNPUBLISHED_NOTE@
    } else {
        seq![]
    };
    let lines = dep_lines(canopy_deps(), crates_root);
    let at = lemma_dep_lines(canopy_deps(), crates_root, i);
    let line = dep_line(canopy_deps()[i], crates_root);
    let start = (head + note).len() + at;
    assert(text =~= head + note + lines + MANIFEST_TAIL@);
    assert(text.subrange(start, start + line.len()) =~= lines.subrange(at, at + line.len()));
    let from = MANIFEST_HEAD@.len() as int;
    assert(text.subrange(from, from + name.len()) =~= name);
    if crates_root is None {
        let from = head.len() as int;
        assert(text.subrange(from, from + note.len()) =~= note);
    }
    start
}

proof fn lemma_dep_lines(deps: Seq<Seq<char>>, crates_root: Option<Seq<char>>, i: int) -> (at: int)
    requires
        0 <= i < deps.len(),
    ensures
        stands_at(dep_lines(deps, crates_root), dep_line(deps[i], crates_root), at),
    decreases deps.len(),
{
    let init = deps.drop_last();
    let before = dep_lines(init, crates_root);
    let all = dep_lines(deps, crates_root);
    let line = dep_line(deps[i], crates_root);
    if i == init.len() {
        let at = before.len() as int;
        assert(all.subrange(at, at + line.len()) =~= line);
        at
    } else {
        let at = lemma_dep_lines(init, crates_root, i);
        assert(init[i] == deps[i]);
        assert(all.subrange(at, at + line.len()) =~= before.subrange(at, at + line.len()));
        at
    }
}

/// A new project has a manifest, a program, a stylesheet and a readme, in this order; the program and
/// the readme name the project, the readme twice.
pub proof fn law_projects_have_four_files(name: Seq<char>, crates_root: Option<Seq<char>>)
    ensures
        ({
            let files = project_files(name, crates_root);
            let second = (README_HEAD@ + name + README_BODY@).len() as int;
            &&& files.len() == 4
            &&& files[0] == ("Cargo.toml"@, manifest(name, crates_root))
            &&& files[1].0 == "src/main.rs"@
            &&& files[2] == ("styles.css"@, STYLES@)
            &&& files[3].0 == "README.md"@
            &&& stands_at(files[1].1, name, MAIN_HEAD@.len() as int)
            &&& stands_at(files[3].1, name, README_HEAD@.len() as int)
            &&& stands_at(files[3].1, name, second)
            &&& stands_at(
                files[1].1,
                WINDOW_MAIN@ + "\n"@ + HEADLESS_MAIN@,
                (MAIN_HEAD@ + name + MAIN_DOC@ + WELCOME_MODULE@ + "\n"@).len() as int,
            )
        }),
{
    let text = program(name);
    let from = MAIN_HEAD@.len() as int;
    assert(text.subrange(from, from + name.len()) =~= name);
    let read = guide(name);
    let first = README_HEAD@.len() as int;
    let second = (README_HEAD@ + name + README_BODY@).len() as int;
    assert(read.subrange(first, first + name.len()) =~= name);
    assert(read.subrange(second, second + name.len()) =~= name);
    let tail = WINDOW_MAIN@ + "\n"@ + HEADLESS_MAIN@;
    let at = (MAIN_HEAD@ + name + MAIN_DOC@ + WELCOME_MODULE@ + "\n"@).len() as int;
    assert(text.subrange(at, at + tail.len()) =~= tail);
}

/// A message quotes what it is about.
pub proof fn law_messages_quote_their_subject(s: Seq<char>)
    ensures
        error_text(CliErrorView::NewOption(s)) == "unknown option `"@ + s + "` for `canopy new`"@,
        error_text(CliErrorView::BuildOption(s)) == "unknown option `"@ + s
            + "` for `canopy build` (try --release)"@,
        error_text(CliErrorView::BadName(s)) == "invalid project name `"@ + s
            + "`: must be a plain directory name"@,
        error_text(CliErrorView::NotEmpty(s)) == "`"@ + s + "` already exists and is not empty"@,
        error_text(CliErrorView::NotADirectory(s)) == "`"@ + s + "` exists and is not a directory"@,
        error_text(CliErrorView::ManyNames)
            == "expected a single project name; got more than one argument"@,
        error_text(CliErrorView::MissingName) == "missing project name (usage: canopy new <name>)"@,
        error_text(CliErrorView::EmptyName) == "project name must not be empty"@,
{
}

} // verus!
