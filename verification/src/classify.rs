//! Turning a command line into an execution [`Plan`].
//!
//! `classify` is a function of the command line alone. It says which admission
//! class the command belongs to and which edits of its environment and
//! arguments make it respect the core budget, and leaves both for the daemon to
//! apply.
//!
//! Neither the fifo's path nor the granted core count is known yet, so the
//! values carry placeholders, which are the only points of substitution:
//!
//! | placeholder | replaced with |
//! |---|---|
//! | `{fifo}` | path of the jobserver fifo |
//! | `{cores}` | cores granted to the task |
//! | `{cores-1}` | `max(1, cores - 1)` |

use vstd::prelude::*;
use vstd::string::*;

use crate::text::{copies, copy, quoted, same, starts_with, chars_of};

#[allow(unused_imports)]
use crate::text::{
    after_last, all_digits, begins, first_such, is_digit, lemma_first_such_is, maybe, pairs,
    quoted_text, texts,
};

verus! {

/// How a task is admitted against the token pool.
#[derive(Debug, Clone, Copy, PartialEq, Eq, Structural)]
pub enum Class {
    /// Speaks the GNU make jobserver protocol; shares the fifo dynamically.
    Jobserver,
    /// Cannot speak jobserver; holds a fixed number of tokens for its lifetime.
    Static,
    /// Unrecognised or explicitly exclusive (`none`); takes the whole pool.
    Exclusive,
}

/// The name of a class.
pub open spec fn class_name(class: Class) -> Seq<char> {
    match class {
        Class::Jobserver => "jobserver"@,
        Class::Static => "static"@,
        Class::Exclusive => "none"@,
    }
}

/// The class that a name stands for.
pub open spec fn class_named(name: Seq<char>) -> Option<Class> {
    if name == "jobserver"@ {
        Some(Class::Jobserver)
    } else if name == "static"@ {
        Some(Class::Static)
    } else if name == "none"@ {
        Some(Class::Exclusive)
    } else {
        None
    }
}

impl Class {
    /// The name of the class.
    pub fn as_str(self) -> (r: &'static str)
        ensures
            r@ == class_name(self),
    {
        match self {
            Class::Jobserver => "jobserver",
            Class::Static => "static",
            Class::Exclusive => "none",
        }
    }

    /// The class that `s` names; the error quotes what it is not.
    pub fn parse(s: &str) -> (r: Result<Class, String>)
        ensures
            r is Ok <==> class_named(s@) is Some,
            r matches Ok(class) ==> class_named(s@) == Some(class),
            r matches Err(e) ==> e@ == "unknown class "@ + quoted_text(s@)
                + ": expected jobserver, static or none"@,
    {
        if same(s, "jobserver") {
            Ok(Class::Jobserver)
        } else if same(s, "static") {
            Ok(Class::Static)
        } else if same(s, "none") {
            Ok(Class::Exclusive)
        } else {
            let mut text = copy("unknown class ");
            text.append(quoted(s).as_str());
            text.append(": expected jobserver, static or none");
            Err(text)
        }
    }
}

impl std::str::FromStr for Class {
    type Err = String;

    /// The class that `s` names; the error quotes what it is not.
    fn from_str(s: &str) -> (r: Result<Self, Self::Err>)
        ensures
            r is Ok <==> class_named(s@) is Some,
            r matches Ok(class) ==> class_named(s@) == Some(class),
            r matches Err(e) ==> e@ == "unknown class "@ + quoted_text(s@)
                + ": expected jobserver, static or none"@,
    {
        Class::parse(s)
    }
}

/// The edits attached to a row of the table.
#[derive(Debug, Clone, Copy, PartialEq, Eq, Structural)]
pub enum Inject {
    /// No edits beyond the variables that every task gets.
    Nothing,
    /// `MAKEFLAGS` pointing at the fifo.
    Jobserver,
    /// `MAKEFLAGS`, and no `CMAKE_BUILD_PARALLEL_LEVEL`.
    Cmake,
    /// `MAKEFLAGS`, `CARGO_MAKEFLAGS` and `RUST_TEST_THREADS`.
    Cargo,
    /// `-jobs {cores-1}` behind the arguments.
    Xcodebuild,
    /// `GOMAXPROCS`.
    Go,
    /// `CTEST_PARALLEL_LEVEL`.
    Ctest,
    /// `-n {cores}` behind `PYTEST_ADDOPTS`.
    Pytest,
}

/// Which classes a recipe is meaningful for.
#[derive(Debug, Clone, Copy, PartialEq, Eq, Structural)]
pub enum Style {
    /// Nothing to keep or drop.
    Empty,
    /// Hands the task the shared fifo.
    Fifo,
    /// Tells the task a fixed core count.
    Count,
}

/// The style of a recipe.
pub open spec fn style_of(inject: Inject) -> Style {
    match inject {
        Inject::Nothing => Style::Empty,
        Inject::Jobserver | Inject::Cmake | Inject::Cargo => Style::Fifo,
        Inject::Xcodebuild | Inject::Go | Inject::Ctest | Inject::Pytest => Style::Count,
    }
}

impl Inject {
    /// Which classes the recipe is meaningful for.
    pub fn style(self) -> (r: Style)
        ensures
            r == style_of(self),
    {
        match self {
            Inject::Nothing => Style::Empty,
            Inject::Jobserver | Inject::Cmake | Inject::Cargo => Style::Fifo,
            Inject::Xcodebuild | Inject::Go | Inject::Ctest | Inject::Pytest => Style::Count,
        }
    }
}

/// One row of the classification table.
#[derive(Debug, Clone)]
pub struct Rule {
    /// Basename the row matches.
    pub tool: String,
    /// Word that must be among the tool's arguments for the row to match.
    pub requires: Option<String>,
    pub class: Class,
    pub inject: Inject,
    /// Parallelism flags the user may pass, which then win.
    pub parallel_flags: Vec<String>,
    /// Variables the row itself sets.
    pub env_set: Vec<(String, String)>,
}

/// A row, mathematically.
#[verifier::ext_equal]
pub struct RuleView {
    pub tool: Seq<char>,
    pub requires: Option<Seq<char>>,
    pub class: Class,
    pub inject: Inject,
    pub parallel_flags: Seq<Seq<char>>,
    pub env_set: Seq<(Seq<char>, Seq<char>)>,
}

impl View for Rule {
    type V = RuleView;

    open spec fn view(&self) -> RuleView {
        RuleView {
            tool: self.tool@,
            requires: maybe(self.requires),
            class: self.class,
            inject: self.inject,
            parallel_flags: texts(self.parallel_flags@),
            env_set: pairs(self.env_set@),
        }
    }
}

/// The rows of the table; the first match wins.
#[derive(Debug, Clone)]
pub struct Table {
    pub rows: Vec<Rule>,
}

impl View for Table {
    type V = Seq<RuleView>;

    open spec fn view(&self) -> Seq<RuleView> {
        Seq::new(self.rows@.len(), |i: int| self.rows@[i]@)
    }
}

/// Whether a row is the one for `tool` called with `args`.
pub open spec fn row_matches(row: RuleView, tool: Seq<char>, args: Seq<Seq<char>>) -> bool {
    row.tool == tool && match row.requires {
        Some(word) => args.contains(word),
        None => true,
    }
}

/// The first row for `tool` called with `args`.
pub open spec fn row_for(rows: Seq<RuleView>, tool: Seq<char>, args: Seq<Seq<char>>) -> Option<
    RuleView,
> {
    let i = first_such(rows, |row: RuleView| row_matches(row, tool, args));
    if i < rows.len() {
        Some(rows[i as int])
    } else {
        None
    }
}

/// Whether `word` is among `args`.
fn among(args: &[String], word: &str) -> (r: bool)
    ensures
        r == texts(args@).contains(word@),
{
    let mut i: usize = 0;
    while i < args.len()
        invariant
            i <= args@.len(),
            forall|j: int| 0 <= j < i ==> (#[trigger] args@[j])@ != word@,
        decreases args@.len() - i,
    {
        if same(args[i].as_str(), word) {
            assert(texts(args@)[i as int] == word@);
            return true;
        }
        i = i + 1;
    }
    assert forall|j: int| 0 <= j < texts(args@).len() implies #[trigger] texts(args@)[j]
        != word@ by {
        assert(args@[j]@ != word@);
    }
    false
}

impl Table {
    /// The first row for `tool` whose required word, if it has one, is among
    /// `args`.
    pub fn lookup(&self, tool: &str, args: &[String]) -> (r: Option<&Rule>)
        ensures
            r is Some <==> row_for(self@, tool@, texts(args@)) is Some,
            r matches Some(row) ==> Some(row@) == row_for(self@, tool@, texts(args@)),
    {
        let ghost p = |row: RuleView| row_matches(row, tool@, texts(args@));
        let mut i: usize = 0;
        while i < self.rows.len()
            invariant
                i <= self.rows@.len(),
                p == (|row: RuleView| row_matches(row, tool@, texts(args@))),
                forall|j: int| 0 <= j < i ==> !p(#[trigger] self@[j]),
            decreases self.rows@.len() - i,
        {
            let row = &self.rows[i];
            let fits = same(row.tool.as_str(), tool) && match &row.requires {
                Some(word) => among(args, word.as_str()),
                None => true,
            };
            if fits {
                proof {
                    lemma_first_such_is(self@, p, i as int);
                }
                return Some(row);
            }
            i = i + 1;
        }
        proof {
            lemma_first_such_is(self@, p, i as int);
        }
        None
    }
}

/// What the user asked for (`--class`, `--cores`).
#[derive(Debug, Clone, Copy, PartialEq, Eq, Structural)]
pub struct Overrides {
    pub class: Option<Class>,
    pub cores: Option<u32>,
}

impl Default for Overrides {
    fn default() -> (r: Self)
        ensures
            r.class is None,
            r.cores is None,
    {
        Overrides { class: None, cores: None }
    }
}

/// Everything needed to dispatch one command.
#[derive(Debug, Clone, PartialEq, Eq)]
pub struct Plan {
    pub class: Class,
    /// Basename after unwrapping, or `<shell>` or `<unknown>`.
    pub tool: String,
    /// Variables to set.
    pub env_set: Vec<(String, String)>,
    /// Variables to append to, after a space.
    pub env_append: Vec<(String, String)>,
    /// Variables to remove.
    pub env_unset: Vec<String>,
    /// The whole command line, with what was appended to it.
    pub argv: Vec<String>,
    /// Core count the user asked for; never set for a jobserver command.
    pub cores_wanted: Option<u32>,
    /// Lines for the client to print.
    pub notices: Vec<String>,
}

/// A plan, mathematically.
#[verifier::ext_equal]
pub struct PlanView {
    pub class: Class,
    pub tool: Seq<char>,
    pub env_set: Seq<(Seq<char>, Seq<char>)>,
    pub env_append: Seq<(Seq<char>, Seq<char>)>,
    pub env_unset: Seq<Seq<char>>,
    pub argv: Seq<Seq<char>>,
    pub cores_wanted: Option<u32>,
    pub notices: Seq<Seq<char>>,
}

impl View for Plan {
    type V = PlanView;

    open spec fn view(&self) -> PlanView {
        PlanView {
            class: self.class,
            tool: self.tool@,
            env_set: pairs(self.env_set@),
            env_append: pairs(self.env_append@),
            env_unset: texts(self.env_unset@),
            argv: texts(self.argv@),
            cores_wanted: self.cores_wanted,
            notices: texts(self.notices@),
        }
    }
}

/// A row of the built-in table.
pub open spec fn row(
    tool: Seq<char>,
    word: Option<Seq<char>>,
    class: Class,
    inject: Inject,
    parallel_flags: Seq<Seq<char>>,
) -> RuleView {
    RuleView { tool, requires: word, class, inject, parallel_flags, env_set: Seq::empty() }
}

/// The built-in table.
pub open spec fn default_rows() -> Seq<RuleView> {
    let jobs = seq!["-j"@, "--jobs"@];
    seq![
        row("make"@, None, Class::Jobserver, Inject::Jobserver, jobs),
        row("gmake"@, None, Class::Jobserver, Inject::Jobserver, jobs),
        row("ninja"@, None, Class::Jobserver, Inject::Jobserver, seq!["-j"@]),
        row(
            "cmake"@,
            Some("--build"@),
            Class::Jobserver,
            Inject::Cmake,
            seq!["--parallel"@, "-j"@],
        ),
        row("cargo"@, None, Class::Jobserver, Inject::Cargo, jobs),
        row("xcodebuild"@, None, Class::Static, Inject::Xcodebuild, seq!["-jobs"@]),
        row("go"@, None, Class::Static, Inject::Go, seq!["-p"@]),
        row("ctest"@, None, Class::Static, Inject::Ctest, seq!["-j"@, "--parallel"@]),
        row("pytest"@, None, Class::Static, Inject::Pytest, seq!["-n"@]),
        row("docker"@, Some("build"@), Class::Exclusive, Inject::Nothing, seq![]),
    ]
}

/// Owned texts of literals.
fn owned(flags: Vec<&str>) -> (r: Vec<String>)
    ensures
        r@.len() == flags@.len(),
        forall|i: int| 0 <= i < flags@.len() ==> (#[trigger] r@[i])@ == flags@[i]@,
{
    let mut out: Vec<String> = Vec::new();
    let mut i: usize = 0;
    while i < flags.len()
        invariant
            i <= flags@.len(),
            out@.len() == i,
            forall|j: int| 0 <= j < i ==> (#[trigger] out@[j])@ == flags@[j]@,
        decreases flags@.len() - i,
    {
        out.push(copy(flags[i]));
        i = i + 1;
    }
    out
}

fn rule(
    tool: &str,
    word: Option<&str>,
    class: Class,
    inject: Inject,
    flags: Vec<&str>,
) -> (r: Rule)
    ensures
        r@ == row(
            tool@,
            match word {
                Some(w) => Some(w@),
                None => None,
            },
            class,
            inject,
            Seq::new(flags@.len(), |i: int| flags@[i]@),
        ),
{
    let r = Rule {
        tool: copy(tool),
        requires: match word {
            Some(w) => Some(copy(w)),
            None => None,
        },
        class,
        inject,
        parallel_flags: owned(flags),
        env_set: Vec::new(),
    };
    assert(texts(r.parallel_flags@) =~= Seq::new(flags@.len(), |i: int| flags@[i]@));
    assert(pairs(r.env_set@) =~= Seq::empty());
    r
}

/// The built-in table.
pub fn default_table() -> (r: Table)
    ensures
        r@ == default_rows(),
{
    let mut rows: Vec<Rule> = Vec::new();
    rows.push(
        rule("make", None, Class::Jobserver, Inject::Jobserver, vec!["-j", "--jobs"]),
    );
    rows.push(
        rule("gmake", None, Class::Jobserver, Inject::Jobserver, vec!["-j", "--jobs"]),
    );
    rows.push(rule("ninja", None, Class::Jobserver, Inject::Jobserver, vec!["-j"]));
    rows.push(
        rule(
            "cmake",
            Some("--build"),
            Class::Jobserver,
            Inject::Cmake,
            vec!["--parallel", "-j"],
        ),
    );
    rows.push(rule("cargo", None, Class::Jobserver, Inject::Cargo, vec!["-j", "--jobs"]));
    rows.push(rule("xcodebuild", None, Class::Static, Inject::Xcodebuild, vec!["-jobs"]));
    rows.push(rule("go", None, Class::Static, Inject::Go, vec!["-p"]));
    rows.push(
        rule("ctest", None, Class::Static, Inject::Ctest, vec!["-j", "--parallel"]),
    );
    rows.push(rule("pytest", None, Class::Static, Inject::Pytest, vec!["-n"]));
    rows.push(
        rule("docker", Some("build"), Class::Exclusive, Inject::Nothing, Vec::new()),
    );
    let r = Table { rows };
    proof {
        let jobs = seq!["-j"@, "--jobs"@];
        assert(r@[0].parallel_flags =~= jobs);
        assert(r@[1].parallel_flags =~= jobs);
        assert(r@[2].parallel_flags =~= seq!["-j"@]);
        assert(r@[3].parallel_flags =~= seq!["--parallel"@, "-j"@]);
        assert(r@[4].parallel_flags =~= jobs);
        assert(r@[5].parallel_flags =~= seq!["-jobs"@]);
        assert(r@[6].parallel_flags =~= seq!["-p"@]);
        assert(r@[7].parallel_flags =~= seq!["-j"@, "--parallel"@]);
        assert(r@[8].parallel_flags =~= seq!["-n"@]);
        assert(r@[9].parallel_flags =~= seq![]);
        assert(r@ =~= default_rows());
    }
    r
}

/// A path without what stands before its last `/`.
pub open spec fn basename_of(token: Seq<char>) -> Seq<char> {
    token.skip(after_last(token, '/') as int)
}

/// What stands behind the last `/` of `token`.
pub fn basename(token: &str) -> (r: &str)
    ensures
        r@ == basename_of(token@),
{
    let chars = chars_of(token);
    let mut i: usize = chars.len();
    assert(chars@.take(chars@.len() as int) =~= chars@);
    while i > 0 && chars[i - 1] != '/'
        invariant
            i <= chars@.len(),
            chars@ == token@,
            after_last(chars@, '/') == after_last(chars@.take(i as int), '/'),
        decreases i,
    {
        assert(chars@.take(i as int).drop_last() =~= chars@.take(i - 1));
        i = i - 1;
    }
    proof {
        if i > 0 {
            assert(chars@.take(i as int).last() == '/');
        } else {
            assert(chars@.take(0) =~= Seq::<char>::empty());
        }
        assert(token@.subrange(i as int, token@.len() as int) =~= token@.skip(i as int));
    }
    token.substring_char(i, chars.len())
}

/// Whether a name is that of a shell.
pub open spec fn is_shell(name: Seq<char>) -> bool {
    name == "sh"@ || name == "bash"@ || name == "zsh"@ || name == "dash"@
}

/// Whether an argument of `nix` introduces the command it runs.
pub open spec fn nix_marker(arg: Seq<char>) -> bool {
    arg == "-c"@ || arg == "--command"@
}

/// What a word makes of the arguments behind it, mathematically.
pub enum Skipped {
    /// It runs them itself.
    NoWrapper,
    /// It runs a command, and it is not known which.
    Opaque,
    /// It runs the command behind so many of them.
    Past(nat),
}

/// What a wrapper makes of its arguments, where so many of them stand before the
/// command it runs, or nobody knows.
pub open spec fn past(n: Option<nat>) -> Skipped {
    match n {
        Some(n) => Skipped::Past(n),
        None => Skipped::Opaque,
    }
}

/// What `nix` makes of its arguments: `develop` and `shell` run the command behind
/// the marker.
pub open spec fn nix_skip(args: Seq<Seq<char>>) -> Skipped {
    if args.len() == 0 || (args[0] != "develop"@ && args[0] != "shell"@) {
        Skipped::NoWrapper
    } else {
        let i = first_such(args, |a: Seq<char>| nix_marker(a));
        if i + 1 >= args.len() {
            Skipped::Opaque
        } else {
            Skipped::Past(i + 1)
        }
    }
}

/// Whether an argument of `env` is an assignment.
pub open spec fn assignment(arg: Seq<char>) -> bool {
    !begins(arg, "-"@) && arg.contains('=')
}

/// How many assignments stand before the command that `env` runs; nothing where
/// there is an option, or no command.
pub open spec fn env_skip(args: Seq<Seq<char>>) -> Option<nat> {
    let i = first_such(args, |a: Seq<char>| !assignment(a));
    if i >= args.len() || begins(args[i as int], "-"@) {
        None
    } else {
        Some(i)
    }
}

/// The place behind the flags that stand from place `n` on, where the flags
/// among `valued` take the next argument with them.
pub open spec fn flags_end(args: Seq<Seq<char>>, valued: Seq<Seq<char>>, n: nat) -> nat
    decreases args.len() + 1 - n,
{
    if n >= args.len() || !begins(args[n as int], "-"@) {
        n
    } else {
        flags_end(
            args,
            valued,
            n + if valued.contains(args[n as int]) {
                2nat
            } else {
                1nat
            },
        )
    }
}

/// How many arguments stand before the command that a wrapper with flags runs;
/// nothing where they swallow the line.
pub open spec fn flag_skip(args: Seq<Seq<char>>, valued: Seq<Seq<char>>) -> Option<nat> {
    let n = flags_end(args, valued, 0);
    if n >= args.len() {
        None
    } else {
        Some(n)
    }
}

/// What the word `name` makes of the arguments behind it.
pub open spec fn wrapper_skip(name: Seq<char>, args: Seq<Seq<char>>) -> Skipped {
    if name == "nix"@ {
        nix_skip(args)
    } else if name == "env"@ {
        past(env_skip(args))
    } else if name == "caffeinate"@ {
        past(flag_skip(args, seq!["-t"@, "-w"@]))
    } else if name == "nice"@ {
        past(flag_skip(args, seq!["-n"@]))
    } else {
        Skipped::NoWrapper
    }
}

/// The tool that a command line runs under its wrappers, and the tool's
/// arguments. A wrapper that cannot be seen through is itself the tool, without
/// arguments; so is a shell, and a line with nothing in it.
pub open spec fn head_of(argv: Seq<Seq<char>>) -> (Seq<char>, Seq<Seq<char>>)
    decreases argv.len(),
{
    if argv.len() == 0 {
        ("<unknown>"@, Seq::empty())
    } else {
        let name = basename_of(argv[0]);
        let args = argv.skip(1);
        if is_shell(name) {
            ("<shell>"@, Seq::empty())
        } else {
            match wrapper_skip(name, args) {
                Skipped::NoWrapper => (name, args),
                Skipped::Opaque => (name, Seq::empty()),
                Skipped::Past(n) => head_of(args.skip(n as int)),
            }
        }
    }
}

fn contains_char(s: &str, c: char) -> (r: bool)
    ensures
        r == s@.contains(c),
{
    let chars = chars_of(s);
    let mut i: usize = 0;
    while i < chars.len()
        invariant
            i <= chars@.len(),
            chars@ == s@,
            forall|j: int| 0 <= j < i ==> chars@[j] != c,
        decreases chars@.len() - i,
    {
        if chars[i] == c {
            assert(s@[i as int] == c);
            return true;
        }
        i = i + 1;
    }
    false
}

/// What a word makes of the arguments behind it.
enum Skip {
    NoWrapper,
    Opaque,
    Past(usize),
}

impl View for Skip {
    type V = Skipped;

    closed spec fn view(&self) -> Skipped {
        match *self {
            Skip::NoWrapper => Skipped::NoWrapper,
            Skip::Opaque => Skipped::Opaque,
            Skip::Past(n) => Skipped::Past(n as nat),
        }
    }
}

/// `nix develop|shell [args] -c|--command <cmd>`: what to skip.
fn skip_nix(args: &[String]) -> (r: Skip)
    ensures
        r@ == nix_skip(texts(args@)),
{
    let ghost all = texts(args@);
    let ghost p = |a: Seq<char>| nix_marker(a);
    if args.len() == 0 {
        return Skip::NoWrapper;
    }
    assert(all[0] == args@[0]@);
    if !same(args[0].as_str(), "develop") && !same(args[0].as_str(), "shell") {
        return Skip::NoWrapper;
    }
    let mut i: usize = 0;
    while i < args.len() && !same(args[i].as_str(), "-c") && !same(args[i].as_str(), "--command")
        invariant
            i <= args@.len(),
            all == texts(args@),
            p == (|a: Seq<char>| nix_marker(a)),
            forall|j: int| 0 <= j < i ==> !p(#[trigger] all[j]),
        decreases args@.len() - i,
    {
        i = i + 1;
    }
    proof {
        lemma_first_such_is(all, p, i as int);
    }
    if i >= args.len() || i + 1 >= args.len() {
        Skip::Opaque
    } else {
        Skip::Past(i + 1)
    }
}

/// `env [NAME=value …] <cmd>`: how many assignments to skip.
fn skip_env(args: &[String]) -> (r: Skip)
    ensures
        r@ == past(env_skip(texts(args@))),
{
    let ghost all = texts(args@);
    let ghost p = |a: Seq<char>| !assignment(a);
    let mut n: usize = 0;
    while n < args.len()
        invariant
            n <= args@.len(),
            all == texts(args@),
            p == (|a: Seq<char>| !assignment(a)),
            forall|j: int| 0 <= j < n ==> !p(#[trigger] all[j]),
        ensures
            n == args@.len() || (p(all[n as int]) && !begins(all[n as int], "-"@)),
        decreases args@.len() - n,
    {
        let arg = args[n].as_str();
        if starts_with(arg, "-") {
            proof {
                lemma_first_such_is(all, p, n as int);
            }
            return Skip::Opaque;
        }
        if !contains_char(arg, '=') {
            break;
        }
        n = n + 1;
    }
    proof {
        lemma_first_such_is(all, p, n as int);
    }
    if n >= args.len() {
        Skip::Opaque
    } else {
        Skip::Past(n)
    }
}

/// Leading flags of a wrapper, where those among `with_value` take the next
/// argument with them.
fn skip_flags(args: &[String], with_value: &[String]) -> (r: Skip)
    ensures
        r@ == past(flag_skip(texts(args@), texts(with_value@))),
{
    let ghost all = texts(args@);
    let ghost valued = texts(with_value@);
    let mut n: usize = 0;
    while n < args.len()
        invariant
            all == texts(args@),
            valued == texts(with_value@),
            flags_end(all, valued, 0) == flags_end(all, valued, n as nat),
        ensures
            flags_end(all, valued, 0) == n,
        decreases args@.len() - n,
    {
        let arg = args[n].as_str();
        assert(all[n as int] == arg@);
        if !starts_with(arg, "-") {
            break;
        }
        if among(with_value, arg) {
            if args.len() - n < 2 {
                assert(flags_end(all, valued, n as nat + 2) == n + 2);
                return Skip::Opaque;
            }
            n = n + 2;
        } else {
            n = n + 1;
        }
    }
    if n >= args.len() {
        Skip::Opaque
    } else {
        Skip::Past(n)
    }
}

fn skip_wrapper(name: &str, args: &[String]) -> (r: Skip)
    ensures
        r@ == wrapper_skip(name@, texts(args@)),
{
    if same(name, "nix") {
        skip_nix(args)
    } else if same(name, "env") {
        skip_env(args)
    } else if same(name, "caffeinate") {
        let valued = owned(vec!["-t", "-w"]);
        assert(texts(valued@) =~= seq!["-t"@, "-w"@]);
        skip_flags(args, valued.as_slice())
    } else if same(name, "nice") {
        let valued = owned(vec!["-n"]);
        assert(texts(valued@) =~= seq!["-n"@]);
        skip_flags(args, valued.as_slice())
    } else {
        Skip::NoWrapper
    }
}

/// What a command line runs, found under its wrappers.
pub struct Head {
    /// The tool, or what stands in its place.
    pub tool: String,
    /// Where its arguments begin in the command line; the end where there are
    /// none to look at.
    pub args_at: usize,
}

/// Skips wrappers until the first word that runs something.
pub fn unwrap_wrappers(argv: &[String]) -> (r: Head)
    ensures
        r.args_at <= argv@.len(),
        (r.tool@, texts(argv@).skip(r.args_at as int)) == head_of(texts(argv@)),
{
    let ghost all = texts(argv@);
    let mut at: usize = 0;
    assert(all.skip(0) =~= all);
    assert(all.skip(all.len() as int) =~= Seq::<Seq<char>>::empty());
    loop
        invariant
            at <= argv@.len(),
            all == texts(argv@),
            all.skip(all.len() as int) == Seq::<Seq<char>>::empty(),
            head_of(all) == head_of(all.skip(at as int)),
        decreases argv@.len() - at,
    {
        if at == argv.len() {
            return Head { tool: copy("<unknown>"), args_at: at };
        }
        let name = basename(argv[at].as_str());
        let args = vstd::slice::slice_subrange(argv, at + 1, argv.len());
        assert(texts(args@) =~= all.skip(at as int).skip(1));
        assert(all.skip(at as int)[0] == argv@[at as int]@);
        if same(name, "sh") || same(name, "bash") || same(name, "zsh") || same(name, "dash") {
            return Head { tool: copy("<shell>"), args_at: argv.len() };
        }
        match skip_wrapper(name, args) {
            Skip::NoWrapper => {
                assert(all.skip(at as int).skip(1) =~= all.skip(at + 1));
                return Head { tool: copy(name), args_at: at + 1 };
            },
            Skip::Opaque => {
                return Head { tool: copy(name), args_at: argv.len() };
            },
            Skip::Past(n) => {
                assert(all.skip(at as int).skip(1).skip(n as int) =~= all.skip(at + 1 + n));
                at = at + 1 + n;
            },
        }
    }
}

/// Whether `arg` is the flag, by itself or with a value: `--jobs=8`, and for a
/// short flag also `-j8`.
pub open spec fn flag_hit(flag: Seq<char>, arg: Seq<char>) -> bool {
    arg == flag || (begins(arg, flag) && {
        let rest = arg.skip(flag.len() as int);
        if begins(rest, "="@) {
            rest.len() > 1
        } else {
            !begins(flag, "--"@) && rest.len() > 0 && all_digits(rest)
        }
    })
}

/// Whether `arg` is the flag, by itself or with a value.
pub fn flag_matches(flag: &str, arg: &str) -> (r: bool)
    ensures
        r == flag_hit(flag@, arg@),
{
    if same(arg, flag) {
        return true;
    }
    if !starts_with(arg, flag) {
        return false;
    }
    let chars = chars_of(arg);
    let skip: usize = chars_of(flag).len();
    let ghost rest = arg@.skip(skip as int);
    proof {
        reveal_strlit("=");
        assert("="@ =~= seq!['=']);
        if rest.len() > 0 {
            assert(rest.take(1) =~= seq![rest[0]]);
            assert(seq![rest[0]][0] == rest[0]);
            assert(seq!['='][0] == '=');
        }
        assert(begins(rest, "="@) <==> rest.len() > 0 && rest[0] == '=');
    }
    if chars.len() > skip && chars[skip] == '=' {
        return chars.len() > skip + 1;
    }
    if starts_with(flag, "--") || chars.len() == skip {
        return false;
    }
    let mut i: usize = skip;
    while i < chars.len()
        invariant
            skip <= i <= chars@.len(),
            chars@ == arg@,
            skip == flag@.len(),
            arg@ != flag@,
            rest == arg@.skip(skip as int),
            !begins(rest, "="@),
            forall|j: int| 0 <= j < i - skip ==> is_digit(#[trigger] rest[j]),
        decreases chars@.len() - i,
    {
        assert(rest[i - skip] == chars@[i as int]);
        if !('0' <= chars[i] && chars[i] <= '9') {
            assert(!is_digit(rest[i - skip]));
            return false;
        }
        i = i + 1;
    }
    true
}

/// Whether one of `flags` is `arg`.
pub open spec fn any_flag(flags: Seq<Seq<char>>, arg: Seq<char>) -> bool {
    exists|k: int| 0 <= k < flags.len() && flag_hit(#[trigger] flags[k], arg)
}

/// The first of `args` that is one of `flags`.
pub open spec fn user_flag(args: Seq<Seq<char>>, flags: Seq<Seq<char>>) -> Option<Seq<char>> {
    let i = first_such(args, |a: Seq<char>| any_flag(flags, a));
    if i < args.len() {
        Some(args[i as int])
    } else {
        None
    }
}

/// The first of `args` that is one of `flags`.
pub fn find_parallel_flag(args: &[String], flags: &[String]) -> (r: Option<usize>)
    ensures
        r is Some <==> user_flag(texts(args@), texts(flags@)) is Some,
        r matches Some(i) ==> i < args@.len() && user_flag(texts(args@), texts(flags@)) == Some(
            args@[i as int]@,
        ),
{
    let ghost all = texts(args@);
    let ghost wanted = texts(flags@);
    let ghost p = |a: Seq<char>| any_flag(wanted, a);
    let mut i: usize = 0;
    while i < args.len()
        invariant
            i <= args@.len(),
            all == texts(args@),
            wanted == texts(flags@),
            p == (|a: Seq<char>| any_flag(wanted, a)),
            forall|j: int| 0 <= j < i ==> !p(#[trigger] all[j]),
        decreases args@.len() - i,
    {
        let mut k: usize = 0;
        while k < flags.len()
            invariant
                k <= flags@.len(),
                i < args@.len(),
                all == texts(args@),
                wanted == texts(flags@),
                p == (|a: Seq<char>| any_flag(wanted, a)),
                forall|j: int| 0 <= j < i ==> !p(#[trigger] all[j]),
                forall|j: int| 0 <= j < k ==> !flag_hit(#[trigger] wanted[j], all[i as int]),
            decreases flags@.len() - k,
        {
            if flag_matches(flags[k].as_str(), args[i].as_str()) {
                proof {
                    assert(flag_hit(wanted[k as int], all[i as int]));
                    assert(p(all[i as int]));
                    lemma_first_such_is(all, p, i as int);
                }
                return Some(i);
            }
            assert(!flag_hit(wanted[k as int], all[i as int]));
            k = k + 1;
        }
        i = i + 1;
    }
    proof {
        lemma_first_such_is(all, p, i as int);
    }
    None
}

/// The line that says what a parallelism flag of the user's does.
pub open spec fn flag_line(tool: Seq<char>, flag: Seq<char>, inject: Inject, class: Class) -> Seq<
    char,
> {
    "you passed "@ + flag + if tool == "ninja"@ {
        "; ninja ignores the pool when -j is explicit"@
    } else if inject == Inject::Xcodebuild {
        "; busybee will not add its own -jobs"@
    } else if class == Class::Jobserver {
        "; "@ + tool + " will use it instead of the shared pool"@
    } else {
        "; it takes precedence over busybee's core count"@
    }
}

/// The line that says what a parallelism flag of the user's does.
pub fn flag_notice(tool: &str, flag: &str, inject: Inject, class: Class) -> (r: String)
    ensures
        r@ == flag_line(tool@, flag@, inject, class),
{
    let mut out = copy("you passed ");
    out.append(flag);
    if same(tool, "ninja") {
        out.append("; ninja ignores the pool when -j is explicit");
    } else if inject == Inject::Xcodebuild {
        out.append("; busybee will not add its own -jobs");
    } else if class == Class::Jobserver {
        let ghost head = out@;
        out.append("; ");
        out.append(tool);
        out.append(" will use it instead of the shared pool");
        assert(out@ =~= head + ("; "@ + tool@ + " will use it instead of the shared pool"@));
    } else {
        out.append("; it takes precedence over busybee's core count");
    }
    out
}

/// The recipe that applies: the row's where it suits the class, and the fifo for
/// every other jobserver command.
pub open spec fn recipe(class: Class, inject: Inject) -> Inject {
    match class {
        Class::Jobserver => if style_of(inject) == Style::Fifo {
            inject
        } else {
            Inject::Jobserver
        },
        Class::Static | Class::Exclusive => if style_of(inject) == Style::Count {
            inject
        } else {
            Inject::Nothing
        },
    }
}

/// What points a member of the pool at the fifo.
pub open spec fn auth() -> Seq<char> {
    "--jobserver-auth=fifo:{fifo}"@
}

/// Variables that a recipe sets.
pub open spec fn recipe_env(inject: Inject) -> Seq<(Seq<char>, Seq<char>)> {
    match inject {
        Inject::Jobserver | Inject::Cmake => seq![("MAKEFLAGS"@, auth())],
        Inject::Cargo => seq![
            ("MAKEFLAGS"@, auth()),
            ("CARGO_MAKEFLAGS"@, auth()),
            ("RUST_TEST_THREADS"@, "{cores}"@),
        ],
        Inject::Go => seq![("GOMAXPROCS"@, "{cores}"@)],
        Inject::Ctest => seq![("CTEST_PARALLEL_LEVEL"@, "{cores}"@)],
        Inject::Nothing | Inject::Xcodebuild | Inject::Pytest => Seq::empty(),
    }
}

/// Variables that a recipe appends to.
pub open spec fn recipe_append(inject: Inject) -> Seq<(Seq<char>, Seq<char>)> {
    if inject == Inject::Pytest {
        seq![("PYTEST_ADDOPTS"@, "-n {cores}"@)]
    } else {
        Seq::empty()
    }
}

/// Variables that a recipe removes.
pub open spec fn recipe_unset(inject: Inject) -> Seq<Seq<char>> {
    if inject == Inject::Cmake {
        seq!["CMAKE_BUILD_PARALLEL_LEVEL"@]
    } else {
        Seq::empty()
    }
}

/// Arguments that a recipe appends, unless the user passed the flag.
pub open spec fn recipe_args(inject: Inject, flagged: bool) -> Seq<Seq<char>> {
    if inject == Inject::Xcodebuild && !flagged {
        seq!["-jobs"@, "{cores-1}"@]
    } else {
        Seq::empty()
    }
}

/// Whether a row of the configuration may not set `key`: the lease's own marker,
/// and for a jobserver command what points it at the pool.
pub open spec fn reserved(class: Class, key: Seq<char>) -> bool {
    key == "BUSYBEE_LEASE"@ || (class == Class::Jobserver && (key == "MAKEFLAGS"@ || key
        == "CARGO_MAKEFLAGS"@))
}

/// What a row sets of its own, without the reserved variables.
pub open spec fn row_env(class: Class, env: Seq<(Seq<char>, Seq<char>)>) -> Seq<
    (Seq<char>, Seq<char>),
>
    decreases env.len(),
{
    if env.len() == 0 {
        Seq::empty()
    } else {
        let rest = row_env(class, env.drop_last());
        if reserved(class, env.last().0) {
            rest
        } else {
            rest.push(env.last())
        }
    }
}

/// The lines that say which variables of a row were left out.
pub open spec fn row_lines(class: Class, env: Seq<(Seq<char>, Seq<char>)>) -> Seq<Seq<char>>
    decreases env.len(),
{
    if env.len() == 0 {
        Seq::empty()
    } else {
        let rest = row_lines(class, env.drop_last());
        if reserved(class, env.last().0) {
            rest.push(
                "the config file's "@ + env.last().0 + " is ignored; busybee sets it itself"@,
            )
        } else {
            rest
        }
    }
}

/// Variables that every task gets.
pub open spec fn own_env(class: Class) -> Seq<(Seq<char>, Seq<char>)> {
    seq![("BUSYBEE_CLASS"@, class_name(class)), ("BUSYBEE_CORES"@, "{cores}"@)]
}

/// The plan for a command line, by the row that its tool has.
pub open spec fn plan_by(
    argv: Seq<Seq<char>>,
    tool: Seq<char>,
    args: Seq<Seq<char>>,
    rule: Option<RuleView>,
    overrides: Overrides,
) -> PlanView {
    let table_class = match rule {
        Some(r) => r.class,
        None => Class::Exclusive,
    };
    let class = match overrides.class {
        Some(c) => c,
        None => table_class,
    };
    let table_inject = match rule {
        Some(r) => r.inject,
        None => Inject::Nothing,
    };
    let env = match rule {
        Some(r) => r.env_set,
        None => Seq::empty(),
    };
    let flag = match rule {
        Some(r) => user_flag(args, r.parallel_flags),
        None => None,
    };
    let inject = recipe(class, table_inject);
    PlanView {
        class,
        tool,
        env_set: recipe_env(inject) + row_env(class, env) + own_env(class),
        env_append: recipe_append(inject),
        env_unset: recipe_unset(inject),
        argv: argv + recipe_args(inject, flag is Some),
        cores_wanted: if class == Class::Jobserver {
            None
        } else {
            overrides.cores
        },
        notices: (match flag {
            Some(f) => seq![flag_line(tool, f, table_inject, class)],
            None => Seq::empty(),
        }) + row_lines(class, env) + (if class == Class::Jobserver && overrides.cores is Some {
            seq![
                "--cores is ignored for jobserver commands; the shared pool rebalances on its own"@,
            ]
        } else {
            Seq::empty()
        }),
    }
}

/// The plan for a command line.
pub open spec fn plan_for(
    argv: Seq<Seq<char>>,
    overrides: Overrides,
    rows: Seq<RuleView>,
) -> PlanView {
    let (tool, args) = head_of(argv);
    plan_by(argv, tool, args, row_for(rows, tool, args), overrides)
}

fn pair(key: &str, value: &str) -> (r: (String, String))
    ensures
        (r.0@, r.1@) == (key@, value@),
{
    (copy(key), copy(value))
}

/// Adds a recipe's edits to a plan.
fn apply_injection(plan: &mut Plan, inject: Inject, user_flag: bool)
    ensures
        final(plan)@ == (PlanView {
            env_set: old(plan)@.env_set + recipe_env(inject),
            env_append: old(plan)@.env_append + recipe_append(inject),
            env_unset: old(plan)@.env_unset + recipe_unset(inject),
            argv: old(plan)@.argv + recipe_args(inject, user_flag),
            ..old(plan)@
        }),
{
    let ghost before = plan@;
    match inject {
        Inject::Nothing => {},
        Inject::Jobserver => {
            plan.env_set.push(pair("MAKEFLAGS", "--jobserver-auth=fifo:{fifo}"));
        },
        Inject::Cmake => {
            plan.env_set.push(pair("MAKEFLAGS", "--jobserver-auth=fifo:{fifo}"));
            plan.env_unset.push(copy("CMAKE_BUILD_PARALLEL_LEVEL"));
        },
        Inject::Cargo => {
            plan.env_set.push(pair("MAKEFLAGS", "--jobserver-auth=fifo:{fifo}"));
            plan.env_set.push(pair("CARGO_MAKEFLAGS", "--jobserver-auth=fifo:{fifo}"));
            plan.env_set.push(pair("RUST_TEST_THREADS", "{cores}"));
        },
        Inject::Xcodebuild => {
            if !user_flag {
                plan.argv.push(copy("-jobs"));
                plan.argv.push(copy("{cores-1}"));
            }
        },
        Inject::Go => {
            plan.env_set.push(pair("GOMAXPROCS", "{cores}"));
        },
        Inject::Ctest => {
            plan.env_set.push(pair("CTEST_PARALLEL_LEVEL", "{cores}"));
        },
        Inject::Pytest => {
            plan.env_append.push(pair("PYTEST_ADDOPTS", "-n {cores}"));
        },
    }
    assert(plan@.env_set =~= before.env_set + recipe_env(inject));
    assert(plan@.env_append =~= before.env_append + recipe_append(inject));
    assert(plan@.env_unset =~= before.env_unset + recipe_unset(inject));
    assert(plan@.argv =~= before.argv + recipe_args(inject, user_flag));
    assert(plan@.notices =~= before.notices);
}

/// Adds what a row of the configuration sets of its own to a plan, or the line
/// that says why not.
fn apply_row_env(plan: &mut Plan, env: &[(String, String)])
    ensures
        final(plan)@ == (PlanView {
            env_set: old(plan)@.env_set + row_env(old(plan)@.class, pairs(env@)),
            notices: old(plan)@.notices + row_lines(old(plan)@.class, pairs(env@)),
            ..old(plan)@
        }),
{
    let ghost before = plan@;
    let ghost all = pairs(env@);
    let mut i: usize = 0;
    assert(all.take(0) =~= Seq::empty());
    while i < env.len()
        invariant
            i <= env@.len(),
            all == pairs(env@),
            plan@.class == before.class,
            plan@.tool == before.tool,
            plan@.env_append == before.env_append,
            plan@.env_unset == before.env_unset,
            plan@.argv == before.argv,
            plan@.cores_wanted == before.cores_wanted,
            plan@.env_set == before.env_set + row_env(before.class, all.take(i as int)),
            plan@.notices == before.notices + row_lines(before.class, all.take(i as int)),
        decreases env@.len() - i,
    {
        let ghost here = plan@;
        let key = env[i].0.as_str();
        proof {
            assert(all.take(i + 1).drop_last() =~= all.take(i as int));
            assert(all.take(i + 1).last() == all[i as int]);
        }
        let taken = same(key, "BUSYBEE_LEASE") || (plan.class == Class::Jobserver && (same(
            key,
            "MAKEFLAGS",
        ) || same(key, "CARGO_MAKEFLAGS")));
        if taken {
            let mut line = copy("the config file's ");
            line.append(key);
            line.append(" is ignored; busybee sets it itself");
            let ghost said = line@;
            plan.notices.push(line);
            assert(plan@.notices =~= here.notices.push(said));
            assert(row_lines(before.class, all.take(i + 1)) == row_lines(
                before.class,
                all.take(i as int),
            ).push(said));
            assert(row_env(before.class, all.take(i + 1)) == row_env(
                before.class,
                all.take(i as int),
            ));
            assert(plan@.notices =~= before.notices + row_lines(before.class, all.take(i + 1)));
            assert(plan@.env_set =~= here.env_set);
        } else {
            plan.env_set.push((env[i].0.clone(), env[i].1.clone()));
            assert(plan@.env_set =~= here.env_set.push(all[i as int]));
            assert(row_env(before.class, all.take(i + 1)) == row_env(
                before.class,
                all.take(i as int),
            ).push(all[i as int]));
            assert(row_lines(before.class, all.take(i + 1)) == row_lines(
                before.class,
                all.take(i as int),
            ));
            assert(plan@.env_set =~= before.env_set + row_env(before.class, all.take(i + 1)));
            assert(plan@.notices =~= here.notices);
        }
        assert(plan@.env_append =~= here.env_append);
        assert(plan@.env_unset =~= here.env_unset);
        assert(plan@.argv =~= here.argv);
        i = i + 1;
    }
    assert(all.take(all.len() as int) =~= all);
}

/// Classifies a command line. Any line, an empty one too, has a plan.
pub fn classify(argv: &[String], overrides: &Overrides, table: &Table) -> (r: Plan)
    ensures
        r@ == plan_for(texts(argv@), *overrides, table@),
{
    let head = unwrap_wrappers(argv);
    let args = vstd::slice::slice_subrange(argv, head.args_at, argv.len());
    let ghost spec_args = texts(argv@).skip(head.args_at as int);
    assert(texts(args@) =~= spec_args);
    let tool = head.tool;
    let ghost name = tool@;
    let rule = table.lookup(tool.as_str(), args);
    let table_class = match rule {
        Some(r) => r.class,
        None => Class::Exclusive,
    };
    let class = match overrides.class {
        Some(c) => c,
        None => table_class,
    };
    let table_inject = match rule {
        Some(r) => r.inject,
        None => Inject::Nothing,
    };
    let style = table_inject.style();
    let inject = match class {
        Class::Jobserver => if style == Style::Fifo {
            table_inject
        } else {
            Inject::Jobserver
        },
        Class::Static | Class::Exclusive => if style == Style::Count {
            table_inject
        } else {
            Inject::Nothing
        },
    };
    let mut notices: Vec<String> = Vec::new();
    let mut flagged = false;
    if let Some(r) = rule {
        if let Some(i) = find_parallel_flag(args, r.parallel_flags.as_slice()) {
            notices.push(flag_notice(tool.as_str(), args[i].as_str(), r.inject, class));
            flagged = true;
        }
    }
    let ghost want = plan_for(texts(argv@), *overrides, table@);
    let ghost flag_part = texts(notices@);
    let mut plan = Plan {
        class,
        tool,
        env_set: Vec::new(),
        env_append: Vec::new(),
        env_unset: Vec::new(),
        argv: copies(argv),
        cores_wanted: None,
        notices,
    };
    apply_injection(&mut plan, inject, flagged);
    let ghost injected = plan@;
    let ghost env = match rule {
        Some(r) => pairs(r.env_set@),
        None => Seq::empty(),
    };
    if let Some(r) = rule {
        apply_row_env(&mut plan, r.env_set.as_slice());
    }
    assert(plan@.env_set =~= injected.env_set + row_env(class, env));
    assert(plan@.notices =~= injected.notices + row_lines(class, env));
    let ghost rowed = plan@;
    if class == Class::Jobserver {
        if overrides.cores.is_some() {
            plan.notices.push(
                copy(
                    "--cores is ignored for jobserver commands; the shared pool rebalances on its own",
                ),
            );
        }
    } else {
        plan.cores_wanted = overrides.cores;
    }
    plan.env_set.push(pair("BUSYBEE_CLASS", class.as_str()));
    plan.env_set.push(pair("BUSYBEE_CORES", "{cores}"));
    proof {
        assert(plan@.env_set =~= rowed.env_set + own_env(class));
        assert(plan@.env_set =~= want.env_set);
        assert(plan@.env_append =~= want.env_append);
        assert(plan@.env_unset =~= want.env_unset);
        assert(plan@.argv =~= want.argv);
        assert(flag_part =~= match (match rule {
            Some(r) => user_flag(spec_args, texts(r.parallel_flags@)),
            None => None,
        }) {
            Some(f) => seq![flag_line(name, f, table_inject, class)],
            None => Seq::empty(),
        });
        assert(plan@.notices =~= want.notices);
    }
    plan
}

/// The name of a class stands for that class, and for no other.
pub proof fn law_class_names_round_trip(class: Class)
    ensures
        class_named(class_name(class)) == Some(class),
        forall|name: Seq<char>|
            class_named(name) == Some(class) ==> name == #[trigger] class_name(class),
{
    reveal_strlit("jobserver");
    reveal_strlit("static");
    reveal_strlit("none");
    assert("jobserver"@.len() == 9 && "static"@.len() == 6 && "none"@.len() == 4);
}

/// What the user asks for wins over what the table says: their class is the plan's,
/// and so is their core count, but for a jobserver command, which shares the pool and
/// is told that the count is ignored.
pub proof fn law_the_users_choice_wins(
    argv: Seq<Seq<char>>,
    overrides: Overrides,
    rows: Seq<RuleView>,
)
    ensures
        ({
            let plan = plan_for(argv, overrides, rows);
            &&& overrides.class is Some ==> plan.class == overrides.class->0
            &&& plan.class != Class::Jobserver ==> plan.cores_wanted == overrides.cores
            &&& plan.class == Class::Jobserver ==> plan.cores_wanted is None
            &&& plan.class == Class::Jobserver && overrides.cores is Some ==> plan.notices.contains(
                "--cores is ignored for jobserver commands; the shared pool rebalances on its own"@,
            )
        }),
{
    let plan = plan_for(argv, overrides, rows);
    if plan.class == Class::Jobserver && overrides.cores is Some {
        assert(plan.notices.last()
            == "--cores is ignored for jobserver commands; the shared pool rebalances on its own"@);
    }
}

/// What the user typed is kept: a plan's command line begins with theirs, and
/// only arguments are appended to it.
pub proof fn law_the_users_arguments_are_kept(
    argv: Seq<Seq<char>>,
    overrides: Overrides,
    rows: Seq<RuleView>,
)
    ensures
        plan_for(argv, overrides, rows).argv.len() >= argv.len(),
        plan_for(argv, overrides, rows).argv.take(argv.len() as int) == argv,
{
    assert(plan_for(argv, overrides, rows).argv.take(argv.len() as int) =~= argv);
}

/// Every plan tells the task its class and its cores, after everything else it
/// sets, so that nothing else can say otherwise.
pub proof fn law_every_plan_names_its_class_and_cores(
    argv: Seq<Seq<char>>,
    overrides: Overrides,
    rows: Seq<RuleView>,
)
    ensures
        ({
            let plan = plan_for(argv, overrides, rows);
            let n = plan.env_set.len() as int;
            &&& n >= 2
            &&& plan.env_set[n - 2] == ("BUSYBEE_CLASS"@, class_name(plan.class))
            &&& plan.env_set[n - 1] == ("BUSYBEE_CORES"@, "{cores}"@)
        }),
{
}

/// The marker of a lease is the daemon's to set: no plan sets it, whatever the
/// configuration says.
pub proof fn law_no_plan_sets_the_lease_marker(
    argv: Seq<Seq<char>>,
    overrides: Overrides,
    rows: Seq<RuleView>,
    i: int,
)
    requires
        0 <= i < plan_for(argv, overrides, rows).env_set.len(),
    ensures
        plan_for(argv, overrides, rows).env_set[i].0 != "BUSYBEE_LEASE"@,
{
    lemma_keys();
    let (tool, args) = head_of(argv);
    let rule = row_for(rows, tool, args);
    let env = match rule {
        Some(r) => r.env_set,
        None => Seq::empty(),
    };
    lemma_row_env(plan_for(argv, overrides, rows).class, env);
}

proof fn lemma_keys()
    ensures
        "MAKEFLAGS"@.len() == 9,
        "CARGO_MAKEFLAGS"@.len() == 15,
        "RUST_TEST_THREADS"@.len() == 17,
        "GOMAXPROCS"@.len() == 10,
        "CTEST_PARALLEL_LEVEL"@.len() == 20,
        "BUSYBEE_CLASS"@.len() == 13,
        "BUSYBEE_CORES"@.len() == 13,
        "BUSYBEE_LEASE"@.len() == 13,
        "BUSYBEE_LEASE"@ != "BUSYBEE_CLASS"@,
        "BUSYBEE_LEASE"@ != "BUSYBEE_CORES"@,
{
    reveal_strlit("MAKEFLAGS");
    reveal_strlit("CARGO_MAKEFLAGS");
    reveal_strlit("RUST_TEST_THREADS");
    reveal_strlit("GOMAXPROCS");
    reveal_strlit("CTEST_PARALLEL_LEVEL");
    reveal_strlit("BUSYBEE_CLASS");
    reveal_strlit("BUSYBEE_CORES");
    reveal_strlit("BUSYBEE_LEASE");
    assert("BUSYBEE_LEASE"@[8] == 'L');
    assert("BUSYBEE_CLASS"@[8] == 'C');
    assert("BUSYBEE_CORES"@[8] == 'C');
}

proof fn lemma_row_env(class: Class, env: Seq<(Seq<char>, Seq<char>)>)
    ensures
        forall|i: int|
            0 <= i < row_env(class, env).len() ==> !reserved(
                class,
                (#[trigger] row_env(class, env)[i]).0,
            ),
    decreases env.len(),
{
    if env.len() > 0 {
        lemma_row_env(class, env.drop_last());
        let rest = row_env(class, env.drop_last());
        let all = row_env(class, env);
        assert forall|i: int| 0 <= i < all.len() implies !reserved(class, (#[trigger] all[i]).0) by {
            if i < rest.len() {
                assert(all[i] == rest[i]);
            }
        }
    }
}

/// A jobserver command always gets the fifo, and nothing in the configuration
/// can take it away: every `MAKEFLAGS` and every `CARGO_MAKEFLAGS` that its plan
/// sets points at the pool, and there is a `MAKEFLAGS`.
pub proof fn law_a_jobserver_plan_points_at_the_pool(
    argv: Seq<Seq<char>>,
    overrides: Overrides,
    rows: Seq<RuleView>,
)
    requires
        plan_for(argv, overrides, rows).class == Class::Jobserver,
    ensures
        ({
            let env = plan_for(argv, overrides, rows).env_set;
            &&& env.len() > 0
            &&& env[0] == ("MAKEFLAGS"@, auth())
            &&& forall|i: int|
                0 <= i < env.len() && ((#[trigger] env[i]).0 == "MAKEFLAGS"@ || env[i].0
                    == "CARGO_MAKEFLAGS"@) ==> env[i].1 == auth()
        }),
{
    lemma_keys();
    let plan = plan_for(argv, overrides, rows);
    let (tool, args) = head_of(argv);
    let rule = row_for(rows, tool, args);
    let row_own = match rule {
        Some(r) => r.env_set,
        None => Seq::empty(),
    };
    let inject = recipe(
        plan.class,
        match rule {
            Some(r) => r.inject,
            None => Inject::Nothing,
        },
    );
    lemma_row_env(plan.class, row_own);
    let a = recipe_env(inject);
    let b = row_env(plan.class, row_own);
    assert forall|i: int|
        0 <= i < plan.env_set.len() && ((#[trigger] plan.env_set[i]).0 == "MAKEFLAGS"@
            || plan.env_set[i].0 == "CARGO_MAKEFLAGS"@) implies plan.env_set[i].1 == auth() by {
        if a.len() <= i < a.len() + b.len() {
            assert(plan.env_set[i] == b[i - a.len()]);
        }
    }
}

/// A parallelism flag of the user's never goes by in silence: the first line of
/// the plan quotes it.
pub proof fn law_a_users_flag_earns_a_line(
    argv: Seq<Seq<char>>,
    overrides: Overrides,
    rows: Seq<RuleView>,
)
    requires
        ({
            let (tool, args) = head_of(argv);
            &&& row_for(rows, tool, args) matches Some(rule)
            &&& user_flag(args, rule.parallel_flags) is Some
        }),
    ensures
        ({
            let (tool, args) = head_of(argv);
            let rule = row_for(rows, tool, args)->0;
            let said = plan_for(argv, overrides, rows).notices;
            &&& said.len() > 0
            &&& begins(said[0], "you passed "@ + user_flag(args, rule.parallel_flags)->0)
        }),
{
    let (tool, args) = head_of(argv);
    let rule = row_for(rows, tool, args)->0;
    let plan = plan_for(argv, overrides, rows);
    let flag = user_flag(args, rule.parallel_flags)->0;
    let head = "you passed "@ + flag;
    assert(plan.notices[0] == flag_line(tool, flag, rule.inject, plan.class));
    assert(plan.notices[0].take(head.len() as int) =~= head);
}

/// The names of the classes.
pub proof fn law_the_names_of_the_classes()
    ensures
        class_named("jobserver"@) == Some(Class::Jobserver),
        class_named("static"@) == Some(Class::Static),
        class_named("none"@) == Some(Class::Exclusive),
        forall|name: Seq<char>|
            (#[trigger] class_named(name)) is Some ==> name == "jobserver"@ || name == "static"@
                || name == "none"@,
{
    law_class_names_round_trip(Class::Jobserver);
    law_class_names_round_trip(Class::Static);
    law_class_names_round_trip(Class::Exclusive);
}

} // verus!
