//! What the classifier recognises, stated of whole command lines: which command
//! a wrapper hides, which tools are known and as what, and which arguments count
//! as a parallelism flag.

use vstd::prelude::*;

#[allow(unused_imports)]
use crate::classify::{
    any_flag, assignment, basename_of, default_rows, env_skip, flag_hit, flag_skip, flags_end,
    head_of, is_shell, nix_marker, nix_skip, own_env, past, plan_for, recipe, recipe_env, reserved,
    row, row_env, row_for, row_lines, row_matches, user_flag, wrapper_skip, Class, Inject,
    Overrides, RuleView, Skipped,
};
#[allow(unused_imports)]
use crate::text::{
    all_digits, begins, first_such, is_digit, lemma_after_last_is, lemma_first_such,
    lemma_first_such_is,
};

verus! {

/// The words that the classifier knows, told apart.
pub proof fn lemma_words()
    ensures
        "sh"@.len() == 2,
        "go"@.len() == 2,
        "-c"@.len() == 2,
        "-n"@.len() == 2,
        "-t"@.len() == 2,
        "-w"@.len() == 2,
        "-j"@.len() == 2,
        "-p"@.len() == 2,
        "sh"@[0] == 's',
        "go"@[0] == 'g',
        "nix"@.len() == 3,
        "env"@.len() == 3,
        "zsh"@.len() == 3,
        "nix"@[0] == 'n',
        "env"@[0] == 'e',
        "zsh"@[0] == 'z',
        "bash"@.len() == 4,
        "dash"@.len() == 4,
        "nice"@.len() == 4,
        "make"@.len() == 4,
        "bash"@[0] == 'b',
        "dash"@[0] == 'd',
        "nice"@[0] == 'n',
        "make"@[0] == 'm',
        "gmake"@.len() == 5,
        "ninja"@.len() == 5,
        "cmake"@.len() == 5,
        "cargo"@.len() == 5,
        "ctest"@.len() == 5,
        "shell"@.len() == 5,
        "gmake"@[0] == 'g',
        "ninja"@[0] == 'n',
        "cmake"@[0] == 'c',
        "cargo"@[0] == 'c',
        "ctest"@[0] == 'c',
        "cmake"@[1] == 'm',
        "cargo"@[1] == 'a',
        "ctest"@[1] == 't',
        "pytest"@.len() == 6,
        "docker"@.len() == 6,
        "pytest"@[0] == 'p',
        "docker"@[0] == 'd',
        "develop"@.len() == 7,
        "--command"@.len() == 9,
        "caffeinate"@.len() == 10,
        "xcodebuild"@.len() == 10,
        "caffeinate"@[0] == 'c',
        "xcodebuild"@[0] == 'x',
        "-n"@[1] == 'n',
        "-t"@[1] == 't',
        "-w"@[1] == 'w',
        "-"@ == seq!['-'],
        "--"@ == seq!['-', '-'],
        "="@ == seq!['='],
{
    reveal_strlit("sh");
    reveal_strlit("go");
    reveal_strlit("-c");
    reveal_strlit("-n");
    reveal_strlit("-t");
    reveal_strlit("-w");
    reveal_strlit("-j");
    reveal_strlit("-p");
    reveal_strlit("nix");
    reveal_strlit("env");
    reveal_strlit("zsh");
    reveal_strlit("bash");
    reveal_strlit("dash");
    reveal_strlit("nice");
    reveal_strlit("make");
    reveal_strlit("gmake");
    reveal_strlit("ninja");
    reveal_strlit("cmake");
    reveal_strlit("cargo");
    reveal_strlit("ctest");
    reveal_strlit("shell");
    reveal_strlit("pytest");
    reveal_strlit("docker");
    reveal_strlit("develop");
    reveal_strlit("--command");
    reveal_strlit("caffeinate");
    reveal_strlit("xcodebuild");
    reveal_strlit("-");
    reveal_strlit("--");
    reveal_strlit("=");
    assert("-"@ =~= seq!['-']);
    assert("--"@ =~= seq!['-', '-']);
    assert("="@ =~= seq!['=']);
}

/// What none of the names of tools, shells and wrappers holds.
proof fn lemma_no_slash()
    ensures
        forall|i: int| 0 <= i < "nix"@.len() ==> "nix"@[i] != '/',
        forall|i: int| 0 <= i < "env"@.len() ==> "env"@[i] != '/',
        forall|i: int| 0 <= i < "nice"@.len() ==> "nice"@[i] != '/',
        forall|i: int| 0 <= i < "caffeinate"@.len() ==> "caffeinate"@[i] != '/',
        forall|i: int| 0 <= i < "sh"@.len() ==> "sh"@[i] != '/',
        forall|i: int| 0 <= i < "bash"@.len() ==> "bash"@[i] != '/',
        forall|i: int| 0 <= i < "zsh"@.len() ==> "zsh"@[i] != '/',
        forall|i: int| 0 <= i < "dash"@.len() ==> "dash"@[i] != '/',
{
    reveal_strlit("nix");
    reveal_strlit("env");
    reveal_strlit("nice");
    reveal_strlit("caffeinate");
    reveal_strlit("sh");
    reveal_strlit("bash");
    reveal_strlit("zsh");
    reveal_strlit("dash");
}

/// Whether `dir` can stand in front of a file's name: it is empty, or ends in a
/// slash.
pub open spec fn directory(dir: Seq<char>) -> bool {
    dir.len() == 0 || dir.last() == '/'
}

/// Whether a word begins with a dash.
pub open spec fn dashed(word: Seq<char>) -> bool {
    word.len() > 0 && word[0] == '-'
}

proof fn lemma_dashed(word: Seq<char>)
    ensures
        begins(word, "-"@) <==> dashed(word),
{
    lemma_words();
    if word.len() > 0 {
        assert(word.take(1) =~= seq![word[0]]);
        assert(seq![word[0]][0] == word[0]);
        assert(seq!['-'][0] == '-');
    }
}

/// A command is known by its name, whatever directory it is called from.
pub proof fn law_a_tool_is_known_by_its_name(dir: Seq<char>, name: Seq<char>)
    requires
        directory(dir),
        !name.contains('/'),
    ensures
        basename_of(dir + name) == name,
{
    let token = dir + name;
    assert forall|i: int| dir.len() <= i < token.len() implies token[i] != '/' by {
        assert(token[i] == name[i - dir.len()]);
        assert(name.contains(name[i - dir.len()]));
    }
    lemma_after_last_is(token, '/', dir.len());
    assert(token.skip(dir.len() as int) =~= name);
}

proof fn lemma_named(dir: Seq<char>)
    requires
        directory(dir),
    ensures
        basename_of(dir + "nix"@) == "nix"@,
        basename_of(dir + "env"@) == "env"@,
        basename_of(dir + "nice"@) == "nice"@,
        basename_of(dir + "caffeinate"@) == "caffeinate"@,
        basename_of(dir + "sh"@) == "sh"@,
        basename_of(dir + "bash"@) == "bash"@,
        basename_of(dir + "zsh"@) == "zsh"@,
        basename_of(dir + "dash"@) == "dash"@,
{
    lemma_no_slash();
    law_a_tool_is_known_by_its_name(dir, "nix"@);
    law_a_tool_is_known_by_its_name(dir, "env"@);
    law_a_tool_is_known_by_its_name(dir, "nice"@);
    law_a_tool_is_known_by_its_name(dir, "caffeinate"@);
    law_a_tool_is_known_by_its_name(dir, "sh"@);
    law_a_tool_is_known_by_its_name(dir, "bash"@);
    law_a_tool_is_known_by_its_name(dir, "zsh"@);
    law_a_tool_is_known_by_its_name(dir, "dash"@);
}

/// A command line with nothing in front of it is what it says: its tool is the
/// name of its first word and its arguments are the rest, unless that word is a
/// shell or one of the wrappers.
pub proof fn law_a_plain_command_is_what_it_says(
    dir: Seq<char>,
    name: Seq<char>,
    args: Seq<Seq<char>>,
)
    requires
        directory(dir),
        !name.contains('/'),
        name != "sh"@ && name != "bash"@ && name != "zsh"@ && name != "dash"@,
        name != "nix"@ && name != "env"@ && name != "nice"@ && name != "caffeinate"@,
    ensures
        head_of(seq![dir + name] + args) == (name, args),
{
    law_a_tool_is_known_by_its_name(dir, name);
    let argv = seq![dir + name] + args;
    assert(argv[0] == dir + name);
    assert(argv.skip(1) =~= args);
}

/// A shell hides what it runs: nothing behind it is looked at. An empty command
/// line names no tool.
pub proof fn law_a_shell_hides_its_command(
    dir: Seq<char>,
    name: Seq<char>,
    args: Seq<Seq<char>>,
)
    requires
        directory(dir),
        name == "sh"@ || name == "bash"@ || name == "zsh"@ || name == "dash"@,
    ensures
        head_of(seq![dir + name] + args) == ("<shell>"@, Seq::<Seq<char>>::empty()),
        head_of(Seq::<Seq<char>>::empty()) == ("<unknown>"@, Seq::<Seq<char>>::empty()),
{
    lemma_named(dir);
    let argv = seq![dir + name] + args;
    assert(argv[0] == dir + name);
}

/// Behind `nix develop` and `nix shell` the command is what follows the first
/// `-c` or `--command`.
pub proof fn law_nix_shows_the_command_behind_its_marker(
    dir: Seq<char>,
    sub: Seq<char>,
    opts: Seq<Seq<char>>,
    marker: Seq<char>,
    cmd: Seq<Seq<char>>,
)
    requires
        directory(dir),
        sub == "develop"@ || sub == "shell"@,
        forall|i: int|
            0 <= i < opts.len() ==> (#[trigger] opts[i]) != "-c"@ && opts[i] != "--command"@,
        marker == "-c"@ || marker == "--command"@,
        cmd.len() > 0,
    ensures
        head_of(seq![dir + "nix"@, sub] + opts + seq![marker] + cmd) == head_of(cmd),
{
    lemma_named(dir);
    lemma_words();
    let argv = seq![dir + "nix"@, sub] + opts + seq![marker] + cmd;
    let args = argv.skip(1);
    assert(args =~= seq![sub] + opts + seq![marker] + cmd);
    let p = |a: Seq<char>| nix_marker(a);
    let i = 1 + opts.len() as int;
    assert forall|j: int| 0 <= j < i implies !p(#[trigger] args[j]) by {
        if j > 0 {
            assert(args[j] == opts[j - 1]);
        }
    }
    assert(args[i] == marker);
    lemma_first_such_is(args, p, i);
    assert(args.skip(i + 1) =~= cmd);
    assert(argv[0] == dir + "nix"@);
    assert(!is_shell("nix"@));
    assert(nix_skip(args) == Skipped::Past((i + 1) as nat));
}

/// `nix develop` and `nix shell` without a command behind a marker, and every
/// other subcommand of `nix`, run nothing that is known: the tool is `nix`.
pub proof fn law_nix_without_a_command_is_nix(
    dir: Seq<char>,
    sub: Seq<char>,
    opts: Seq<Seq<char>>,
    marker: Seq<char>,
)
    requires
        directory(dir),
        forall|i: int|
            0 <= i < opts.len() ==> (#[trigger] opts[i]) != "-c"@ && opts[i] != "--command"@,
        marker == "-c"@ || marker == "--command"@,
    ensures
        sub == "develop"@ || sub == "shell"@ ==> {
            &&& head_of(seq![dir + "nix"@, sub] + opts) == ("nix"@, Seq::<Seq<char>>::empty())
            &&& head_of(seq![dir + "nix"@, sub] + opts + seq![marker]) == (
                "nix"@,
                Seq::<Seq<char>>::empty(),
            )
        },
        sub != "develop"@ && sub != "shell"@ ==> head_of(seq![dir + "nix"@, sub] + opts) == (
            "nix"@,
            seq![sub] + opts,
        ),
        head_of(seq![dir + "nix"@]) == ("nix"@, Seq::<Seq<char>>::empty()),
{
    lemma_named(dir);
    lemma_words();
    assert(!is_shell("nix"@));
    let argv = seq![dir + "nix"@, sub] + opts;
    let args = argv.skip(1);
    assert(args =~= seq![sub] + opts);
    assert(argv[0] == dir + "nix"@);
    let p = |a: Seq<char>| nix_marker(a);
    let n = args.len() as int;
    assert(seq![dir + "nix"@].skip(1) =~= Seq::empty());
    assert(seq![dir + "nix"@][0] == dir + "nix"@);
    if sub == "develop"@ || sub == "shell"@ {
        assert forall|j: int| 0 <= j < n implies !p(#[trigger] args[j]) by {
            if j > 0 {
                assert(args[j] == opts[j - 1]);
            }
        }
        lemma_first_such_is(args, p, n);
        let more = (seq![dir + "nix"@, sub] + opts + seq![marker]).skip(1);
        assert(more =~= args.push(marker));
        assert forall|j: int| 0 <= j < n implies !p(#[trigger] more[j]) by {
            assert(more[j] == args[j]);
        }
        lemma_first_such_is(more, p, n);
        assert((seq![dir + "nix"@, sub] + opts + seq![marker])[0] == dir + "nix"@);
    }
}

/// `env` is looked through with its assignments: what follows them is the
/// command. With an option of its own in front of the command, or with no
/// command, the tool is `env`.
pub proof fn law_env_shows_the_command_behind_its_assignments(
    dir: Seq<char>,
    assigned: Seq<Seq<char>>,
    cmd: Seq<Seq<char>>,
)
    requires
        directory(dir),
        forall|i: int|
            0 <= i < assigned.len() ==> !dashed(#[trigger] assigned[i]) && assigned[i].contains(
                '=',
            ),
    ensures
        cmd.len() > 0 && !dashed(cmd[0]) && !cmd[0].contains('=') ==> head_of(
            seq![dir + "env"@] + assigned + cmd,
        ) == head_of(cmd),
        cmd.len() > 0 && dashed(cmd[0]) ==> head_of(seq![dir + "env"@] + assigned + cmd) == (
            "env"@,
            Seq::<Seq<char>>::empty(),
        ),
        head_of(seq![dir + "env"@] + assigned) == ("env"@, Seq::<Seq<char>>::empty()),
{
    lemma_named(dir);
    lemma_words();
    assert(!is_shell("env"@));
    let p = |a: Seq<char>| !assignment(a);
    let n = assigned.len() as int;
    let alone = seq![dir + "env"@] + assigned;
    assert(alone.skip(1) =~= assigned);
    assert(alone[0] == dir + "env"@);
    assert forall|j: int| 0 <= j < n implies !p(#[trigger] assigned[j]) by {
        lemma_dashed(assigned[j]);
    }
    lemma_first_such_is(assigned, p, n);
    assert(env_skip(assigned) is None);
    if cmd.len() > 0 && (dashed(cmd[0]) || !cmd[0].contains('=')) {
        let argv = seq![dir + "env"@] + assigned + cmd;
        let args = argv.skip(1);
        assert(args =~= assigned + cmd);
        assert(argv[0] == dir + "env"@);
        assert forall|j: int| 0 <= j < n implies !p(#[trigger] args[j]) by {
            assert(args[j] == assigned[j]);
        }
        assert(args[n] == cmd[0]);
        lemma_dashed(cmd[0]);
        lemma_first_such_is(args, p, n);
        assert(args.skip(n) =~= cmd);
    }
}

proof fn lemma_flags_shift(args: Seq<Seq<char>>, valued: Seq<Seq<char>>, k: nat, n: nat)
    requires
        k <= args.len(),
    ensures
        flags_end(args, valued, n + k) == flags_end(args.skip(k as int), valued, n) + k,
    decreases args.len() + 2 - n,
{
    let rest = args.skip(k as int);
    if n < rest.len() {
        assert(rest[n as int] == args[(n + k) as int]);
        if begins(rest[n as int], "-"@) {
            let step = if valued.contains(rest[n as int]) {
                2nat
            } else {
                1nat
            };
            lemma_flags_shift(args, valued, k, n + step);
            assert(flags_end(args, valued, n + k) == flags_end(args, valued, n + k + step));
            assert(flags_end(rest, valued, n) == flags_end(rest, valued, n + step));
        }
    }
}

/// Whether an option of the wrapper `name` takes the word behind it as its value.
pub open spec fn takes_a_value(name: Seq<char>, flag: Seq<char>) -> bool {
    ||| name == "nice"@ && flag == "-n"@
    ||| name == "caffeinate"@ && (flag == "-t"@ || flag == "-w"@)
}

/// `nice` and `caffeinate` are looked through with their options: the command is
/// the first word that is no option and no value of one (`-n` of `nice`, `-t`
/// and `-w` of `caffeinate` take one). Without a command the tool is the wrapper.
pub proof fn law_nice_and_caffeinate_show_the_command_behind_their_options(
    dir: Seq<char>,
    name: Seq<char>,
    flag: Seq<char>,
    value: Seq<char>,
    rest: Seq<Seq<char>>,
)
    requires
        directory(dir),
        name == "nice"@ || name == "caffeinate"@,
    ensures
        rest.len() > 0 && !dashed(rest[0]) ==> head_of(seq![dir + name] + rest) == head_of(rest),
        dashed(flag) && !takes_a_value(name, flag) ==> head_of(seq![dir + name, flag] + rest)
            == head_of(seq![dir + name] + rest),
        takes_a_value(name, flag) ==> head_of(seq![dir + name, flag, value] + rest) == head_of(
            seq![dir + name] + rest,
        ),
        takes_a_value(name, flag) ==> head_of(seq![dir + name, flag]) == (
            name,
            Seq::<Seq<char>>::empty(),
        ),
        head_of(seq![dir + name]) == (name, Seq::<Seq<char>>::empty()),
{
    lemma_named(dir);
    lemma_words();
    lemma_dashed(flag);
    let w = dir + name;
    let valued = if name == "nice"@ {
        seq!["-n"@]
    } else {
        seq!["-t"@, "-w"@]
    };
    assert(!is_shell(name));
    assert(valued.contains(flag) <==> takes_a_value(name, flag)) by {
        if name == "nice"@ {
            assert(valued[0] == "-n"@);
        } else {
            assert(valued[0] == "-t"@ && valued[1] == "-w"@);
        }
    }
    let none = Seq::<Seq<char>>::empty();
    // the wrapper alone
    assert(seq![w].skip(1) =~= none && seq![w][0] == w);
    assert(wrapper_skip(name, none) == past(flag_skip(none, valued)));
    // the wrapper with what follows
    let plain = seq![w] + rest;
    assert(plain.skip(1) =~= rest && plain[0] == w);
    assert(wrapper_skip(name, rest) == past(flag_skip(rest, valued)));
    if rest.len() > 0 {
        lemma_dashed(rest[0]);
        assert(rest.skip(0) =~= rest);
    }
    // one option more
    if dashed(flag) && !takes_a_value(name, flag) {
        let argv = seq![w, flag] + rest;
        let args = argv.skip(1);
        assert(args =~= seq![flag] + rest && argv[0] == w);
        assert(args[0] == flag);
        assert(args.skip(1) =~= rest);
        lemma_flags_shift(args, valued, 1, 0);
        assert(flags_end(args, valued, 0) == flags_end(rest, valued, 0) + 1);
        let n = flags_end(rest, valued, 0) as int;
        assert(wrapper_skip(name, args) == past(flag_skip(args, valued)));
        if n < rest.len() {
            assert(args.skip(n + 1) =~= rest.skip(n));
        }
    }
    // one option and its value more
    if takes_a_value(name, flag) {
        reveal_strlit("-n");
        reveal_strlit("-t");
        reveal_strlit("-w");
        assert(dashed(flag));
        let argv = seq![w, flag, value] + rest;
        let args = argv.skip(1);
        assert(args =~= seq![flag, value] + rest && argv[0] == w);
        assert(args[0] == flag);
        assert(args.skip(2) =~= rest);
        lemma_flags_shift(args, valued, 2, 0);
        assert(flags_end(args, valued, 0) == flags_end(rest, valued, 0) + 2);
        let n = flags_end(rest, valued, 0) as int;
        assert(wrapper_skip(name, args) == past(flag_skip(args, valued)));
        if n < rest.len() {
            assert(args.skip(n + 2) =~= rest.skip(n));
        }
        let short = seq![w, flag];
        assert(short.skip(1) =~= seq![flag] && short[0] == w);
        assert(seq![flag][0] == flag);
        assert(flags_end(seq![flag], valued, 2) == 2);
        assert(wrapper_skip(name, seq![flag]) == past(flag_skip(seq![flag], valued)));
    }
}

/// A row is found by its tool, and by the word it asks for where it asks for
/// one: the first such row of the table counts, and none is found only where
/// there is none.
pub proof fn law_the_first_row_that_fits_counts(
    before: Seq<RuleView>,
    row: RuleView,
    after: Seq<RuleView>,
    tool: Seq<char>,
    args: Seq<Seq<char>>,
)
    requires
        forall|i: int|
            0 <= i < before.len() ==> (#[trigger] before[i]).tool != tool || (
            before[i].requires matches Some(word) && !args.contains(word)),
    ensures
        row.tool == tool && (row.requires matches Some(word) ==> args.contains(word)) ==> row_for(
            before + seq![row] + after,
            tool,
            args,
        ) == Some(row),
        row_for(before, tool, args) is None,
{
    let p = |r: RuleView| row_matches(r, tool, args);
    let n = before.len() as int;
    assert forall|j: int| 0 <= j < n implies !p(#[trigger] before[j]) by {}
    lemma_first_such_is(before, p, n);
    let all = before + seq![row] + after;
    if p(row) {
        assert forall|j: int| 0 <= j < n implies !p(#[trigger] all[j]) by {
            assert(all[j] == before[j]);
        }
        assert(all[n] == row);
        lemma_first_such_is(all, p, n);
    }
}

/// Which row of the built-in table a tool is at.
spec fn built_in_place(tool: Seq<char>, args: Seq<Seq<char>>) -> int {
    if tool == "make"@ {
        0
    } else if tool == "gmake"@ {
        1
    } else if tool == "ninja"@ {
        2
    } else if tool == "cmake"@ && args.contains("--build"@) {
        3
    } else if tool == "cargo"@ {
        4
    } else if tool == "xcodebuild"@ {
        5
    } else if tool == "go"@ {
        6
    } else if tool == "ctest"@ {
        7
    } else if tool == "pytest"@ {
        8
    } else if tool == "docker"@ && args.contains("build"@) {
        9
    } else {
        10
    }
}

proof fn lemma_built_in(tool: Seq<char>, args: Seq<Seq<char>>)
    ensures
        default_rows().len() == 10,
        0 <= built_in_place(tool, args) <= 10,
        built_in_place(tool, args) == 10 ==> row_for(default_rows(), tool, args) is None,
        built_in_place(tool, args) < 10 ==> row_for(default_rows(), tool, args) == Some(
            default_rows()[built_in_place(tool, args)],
        ),
{
    lemma_words();
    let rows = default_rows();
    let p = |r: RuleView| row_matches(r, tool, args);
    let k = built_in_place(tool, args);
    assert forall|j: int| 0 <= j < 10 && j != k implies !p(#[trigger] rows[j]) by {
        if j == 0 {
            assert(rows[0].tool == "make"@);
        } else if j == 1 {
            assert(rows[1].tool == "gmake"@);
        } else if j == 2 {
            assert(rows[2].tool == "ninja"@);
        } else if j == 3 {
            assert(rows[3].tool == "cmake"@ && rows[3].requires == Some("--build"@));
        } else if j == 4 {
            assert(rows[4].tool == "cargo"@);
        } else if j == 5 {
            assert(rows[5].tool == "xcodebuild"@);
        } else if j == 6 {
            assert(rows[6].tool == "go"@);
        } else if j == 7 {
            assert(rows[7].tool == "ctest"@);
        } else if j == 8 {
            assert(rows[8].tool == "pytest"@);
        } else {
            assert(rows[9].tool == "docker"@ && rows[9].requires == Some("build"@));
        }
    }
    if k < 10 {
        assert(p(rows[k]));
    }
    lemma_first_such_is(rows, p, k);
}

/// What the built-in table makes of a command: the tools that share the pool
/// (`make`, `gmake`, `ninja`, `cargo`, and `cmake` with `--build`), those that
/// are given a fixed share (`xcodebuild`, `go`, `ctest`, `pytest`), and
/// everything else, which runs alone.
pub proof fn law_the_built_in_classes(argv: Seq<Seq<char>>, overrides: Overrides)
    requires
        overrides.class is None,
    ensures
        ({
            let (tool, args) = head_of(argv);
            let plan = plan_for(argv, overrides, default_rows());
            &&& plan.tool == tool
            &&& plan.class == Class::Jobserver <==> {
                ||| tool == "make"@
                ||| tool == "gmake"@
                ||| tool == "ninja"@
                ||| tool == "cargo"@
                ||| tool == "cmake"@ && args.contains("--build"@)
            }
            &&& plan.class == Class::Static <==> {
                ||| tool == "xcodebuild"@
                ||| tool == "go"@
                ||| tool == "ctest"@
                ||| tool == "pytest"@
            }
        }),
{
    let (tool, args) = head_of(argv);
    lemma_words();
    lemma_built_in(tool, args);
    let rows = default_rows();
    assert(rows[0].class == Class::Jobserver && rows[1].class == Class::Jobserver);
    assert(rows[2].class == Class::Jobserver && rows[3].class == Class::Jobserver);
    assert(rows[4].class == Class::Jobserver && rows[5].class == Class::Static);
    assert(rows[6].class == Class::Static && rows[7].class == Class::Static);
    assert(rows[8].class == Class::Static && rows[9].class == Class::Exclusive);
}

/// The edits that the built-in table attaches to its tools.
pub proof fn lemma_built_in_edits(tool: Seq<char>, args: Seq<Seq<char>>)
    ensures
        tool == "make"@ || tool == "gmake"@ || tool == "ninja"@ ==> (row_for(
            default_rows(),
            tool,
            args,
        ) matches Some(r) && r.inject == Inject::Jobserver),
        tool == "cmake"@ && args.contains("--build"@) ==> (row_for(
            default_rows(),
            tool,
            args,
        ) matches Some(r) && r.inject == Inject::Cmake),
        tool == "cargo"@ ==> (row_for(default_rows(), tool, args) matches Some(r) && r.inject
            == Inject::Cargo),
        tool == "xcodebuild"@ ==> (row_for(default_rows(), tool, args) matches Some(r) && r.inject
            == Inject::Xcodebuild && r.parallel_flags == seq!["-jobs"@]),
        tool == "go"@ ==> (row_for(default_rows(), tool, args) matches Some(r) && r.inject
            == Inject::Go),
        tool == "ctest"@ ==> (row_for(default_rows(), tool, args) matches Some(r) && r.inject
            == Inject::Ctest),
        tool == "pytest"@ ==> (row_for(default_rows(), tool, args) matches Some(r) && r.inject
            == Inject::Pytest),
        row_for(default_rows(), tool, args) matches Some(r) ==> r.env_set.len() == 0 && (r.inject
            == Inject::Xcodebuild ==> tool == "xcodebuild"@),
{
    lemma_words();
    lemma_built_in(tool, args);
    let rows = default_rows();
    assert(rows[0].inject == Inject::Jobserver && rows[1].inject == Inject::Jobserver);
    assert(rows[2].inject == Inject::Jobserver && rows[3].inject == Inject::Cmake);
    assert(rows[4].inject == Inject::Cargo && rows[5].inject == Inject::Xcodebuild);
    assert(rows[5].parallel_flags == seq!["-jobs"@]);
    assert(rows[6].inject == Inject::Go && rows[7].inject == Inject::Ctest);
    assert(rows[8].inject == Inject::Pytest && rows[9].inject == Inject::Nothing);
    assert(rows[0].env_set.len() == 0 && rows[1].env_set.len() == 0);
    assert(rows[2].env_set.len() == 0 && rows[3].env_set.len() == 0);
    assert(rows[4].env_set.len() == 0 && rows[5].env_set.len() == 0);
    assert(rows[6].env_set.len() == 0 && rows[7].env_set.len() == 0);
    assert(rows[8].env_set.len() == 0 && rows[9].env_set.len() == 0);
}

/// What counts as a flag: the flag itself, the flag with `=` and a value, and,
/// where it has one dash only, the flag with a number right behind it. Nothing
/// that does not begin with the flag does, nor an empty value, nor a number
/// behind two dashes.
pub proof fn law_the_forms_of_a_flag(flag: Seq<char>, value: Seq<char>, arg: Seq<char>)
    ensures
        flag_hit(flag, flag),
        value.len() > 0 ==> flag_hit(flag, flag + seq!['='] + value),
        !flag_hit(flag, flag + seq!['=']),
        value.len() > 0 && all_digits(value) && !(flag.len() >= 2 && flag[0] == '-' && flag[1]
            == '-') ==> flag_hit(flag, flag + value),
        value.len() > 0 && value[0] != '=' && flag.len() >= 2 && flag[0] == '-' && flag[1] == '-'
            ==> !flag_hit(flag, flag + value),
        value.len() > 0 && value[0] != '=' && !all_digits(value) ==> !flag_hit(flag, flag + value),
        !begins(arg, flag) ==> !flag_hit(flag, arg),
{
    lemma_words();
    let eq = seq!['='];
    assert(flag.take(flag.len() as int) =~= flag);
    assert(begins(flag, "--"@) <==> flag.len() >= 2 && flag[0] == '-' && flag[1] == '-') by {
        if flag.len() >= 2 {
            assert(flag.take(2) =~= seq![flag[0], flag[1]]);
            assert(seq!['-', '-'][0] == '-' && seq!['-', '-'][1] == '-');
            assert(seq![flag[0], flag[1]][0] == flag[0] && seq![flag[0], flag[1]][1] == flag[1]);
        }
    }
    let a = flag + eq + value;
    assert(a.take(flag.len() as int) =~= flag);
    assert(a.skip(flag.len() as int) =~= eq + value);
    assert((eq + value).take(1) =~= eq);
    let b = flag + eq;
    assert(b.take(flag.len() as int) =~= flag);
    assert(b.skip(flag.len() as int) =~= eq);
    assert(eq.take(1) =~= eq);
    assert(b.len() == flag.len() + 1);
    let c = flag + value;
    assert(c.take(flag.len() as int) =~= flag);
    assert(c.skip(flag.len() as int) =~= value);
    assert(c.len() == flag.len() + value.len());
    if value.len() > 0 {
        assert(value.take(1) =~= seq![value[0]]);
        assert(seq![value[0]][0] == value[0]);
        assert(eq[0] == '=');
        if all_digits(value) {
            assert(is_digit(value[0]));
        }
    }
}

/// The user's flag is the first of their arguments that is one of the tool's
/// flags in some form; they have none only where no argument is.
pub proof fn law_the_first_flag_is_the_users(args: Seq<Seq<char>>, flags: Seq<Seq<char>>)
    ensures
        match user_flag(args, flags) {
            Some(arg) => exists|i: int, k: int|
                0 <= i < args.len() && 0 <= k < flags.len() && #[trigger] args[i] == arg
                    && flag_hit(#[trigger] flags[k], arg) && forall|j: int, m: int|
                    0 <= j < i && 0 <= m < flags.len() ==> !flag_hit(
                        #[trigger] flags[m],
                        #[trigger] args[j],
                    ),
            None => forall|j: int, m: int|
                0 <= j < args.len() && 0 <= m < flags.len() ==> !flag_hit(
                    #[trigger] flags[m],
                    #[trigger] args[j],
                ),
        },
{
    let p = |a: Seq<char>| any_flag(flags, a);
    lemma_first_such(args, p);
    let i = first_such(args, p) as int;
    assert forall|j: int, m: int| 0 <= j < i && 0 <= m < flags.len() implies !flag_hit(
        #[trigger] flags[m],
        #[trigger] args[j],
    ) by {
        assert(!p(args[j]));
    }
    if i < args.len() {
        assert(p(args[i]));
        let k = choose|k: int| 0 <= k < flags.len() && flag_hit(#[trigger] flags[k], args[i]);
        assert(flag_hit(flags[k], args[i]));
        assert(args[i] == user_flag(args, flags)->0);
    }
}

/// The flags that the built-in table watches for: each of a tool's own earns the
/// user a line.
pub proof fn law_the_built_in_flags(argv: Seq<Seq<char>>, overrides: Overrides, flag: Seq<char>)
    requires
        ({
            let (tool, args) = head_of(argv);
            &&& args.contains(flag)
            &&& {
                ||| (tool == "make"@ || tool == "gmake"@ || tool == "cargo"@) && (flag == "-j"@
                    || flag == "--jobs"@)
                ||| tool == "ninja"@ && flag == "-j"@
                ||| tool == "cmake"@ && args.contains("--build"@) && (flag == "-j"@ || flag
                    == "--parallel"@)
                ||| tool == "ctest"@ && (flag == "-j"@ || flag == "--parallel"@)
                ||| tool == "go"@ && flag == "-p"@
                ||| tool == "pytest"@ && flag == "-n"@
                ||| tool == "xcodebuild"@ && flag == "-jobs"@
            }
        }),
    ensures
        plan_for(argv, overrides, default_rows()).notices.len() > 0,
{
    let (tool, args) = head_of(argv);
    lemma_words();
    lemma_built_in(tool, args);
    let rows = default_rows();
    let jobs = seq!["-j"@, "--jobs"@];
    assert(jobs[0] == "-j"@ && jobs[1] == "--jobs"@);
    assert(rows[0].parallel_flags == jobs && rows[1].parallel_flags == jobs);
    assert(rows[2].parallel_flags == seq!["-j"@] && seq!["-j"@][0] == "-j"@);
    let cmake = seq!["--parallel"@, "-j"@];
    assert(rows[3].parallel_flags == cmake && cmake[0] == "--parallel"@ && cmake[1] == "-j"@);
    assert(rows[4].parallel_flags == jobs);
    assert(rows[5].parallel_flags == seq!["-jobs"@] && seq!["-jobs"@][0] == "-jobs"@);
    assert(rows[6].parallel_flags == seq!["-p"@] && seq!["-p"@][0] == "-p"@);
    let ctest = seq!["-j"@, "--parallel"@];
    assert(rows[7].parallel_flags == ctest && ctest[0] == "-j"@ && ctest[1] == "--parallel"@);
    assert(rows[8].parallel_flags == seq!["-n"@] && seq!["-n"@][0] == "-n"@);
    let k = built_in_place(tool, args);
    let flags = rows[k].parallel_flags;
    assert(flags.contains(flag));
    let m = choose|m: int| 0 <= m < flags.len() && flags[m] == flag;
    law_the_forms_of_a_flag(flag, Seq::empty(), flag);
    law_the_first_flag_is_the_users(args, flags);
    let j = choose|j: int| 0 <= j < args.len() && args[j] == flag;
    assert(flag_hit(flags[m], args[j]));
}

/// A row's own variables reach the plan, each as the row has it, but for those
/// that are the daemon's to set: `BUSYBEE_LEASE` for every command, and
/// `MAKEFLAGS` and `CARGO_MAKEFLAGS` for one that shares the pool. Of each of
/// these the user is told.
pub proof fn law_a_rows_variables_reach_the_plan(
    argv: Seq<Seq<char>>,
    overrides: Overrides,
    rows: Seq<RuleView>,
    i: int,
)
    requires
        ({
            let (tool, args) = head_of(argv);
            &&& row_for(rows, tool, args) matches Some(r)
            &&& 0 <= i < r.env_set.len()
        }),
    ensures
        ({
            let (tool, args) = head_of(argv);
            let own = row_for(rows, tool, args)->0.env_set[i];
            let plan = plan_for(argv, overrides, rows);
            let daemons = own.0 == "BUSYBEE_LEASE"@ || plan.class == Class::Jobserver && (own.0
                == "MAKEFLAGS"@ || own.0 == "CARGO_MAKEFLAGS"@);
            &&& !daemons ==> plan.env_set.contains(own)
            &&& daemons ==> plan.notices.contains(
                "the config file's "@ + own.0 + " is ignored; busybee sets it itself"@,
            )
        }),
{
    let (tool, args) = head_of(argv);
    let r = row_for(rows, tool, args)->0;
    let plan = plan_for(argv, overrides, rows);
    let inject = recipe(plan.class, r.inject);
    lemma_row_env_keeps(plan.class, r.env_set, i);
    let own = r.env_set[i];
    let a = recipe_env(inject);
    let b = row_env(plan.class, r.env_set);
    if reserved(plan.class, own.0) {
        let line = "the config file's "@ + own.0 + " is ignored; busybee sets it itself"@;
        let lines = row_lines(plan.class, r.env_set);
        let k = choose|k: int| 0 <= k < lines.len() && lines[k] == line;
        let n: int = if user_flag(args, r.parallel_flags) is Some {
            1
        } else {
            0
        };
        assert(plan.notices[n + k] == line);
    } else {
        let k = choose|k: int| 0 <= k < b.len() && b[k] == own;
        assert(plan.env_set[a.len() + k] == own);
    }
}

proof fn lemma_row_env_keeps(class: Class, env: Seq<(Seq<char>, Seq<char>)>, i: int)
    requires
        0 <= i < env.len(),
    ensures
        !reserved(class, env[i].0) ==> row_env(class, env).contains(env[i]),
        reserved(class, env[i].0) ==> row_lines(class, env).contains(
            "the config file's "@ + env[i].0 + " is ignored; busybee sets it itself"@,
        ),
    decreases env.len(),
{
    let before = env.drop_last();
    let a = row_env(class, before);
    let b = row_lines(class, before);
    let line = "the config file's "@ + env[i].0 + " is ignored; busybee sets it itself"@;
    if i == env.len() - 1 {
        if reserved(class, env[i].0) {
            assert(row_lines(class, env)[b.len() as int] == line);
        } else {
            assert(row_env(class, env)[a.len() as int] == env[i]);
        }
    } else {
        lemma_row_env_keeps(class, before, i);
        if reserved(class, env[i].0) {
            let k = choose|k: int| 0 <= k < b.len() && b[k] == line;
            assert(row_lines(class, env)[k] == line);
        } else {
            let k = choose|k: int| 0 <= k < a.len() && a[k] == env[i];
            assert(row_env(class, env)[k] == env[i]);
        }
    }
}

/// A command that no row is for is left as it is: it runs alone, with no
/// argument added, and is told its class and cores and nothing else.
pub proof fn law_an_unknown_command_is_left_as_it_is(
    argv: Seq<Seq<char>>,
    overrides: Overrides,
    rows: Seq<RuleView>,
)
    requires
        overrides.class is None,
        forall|i: int| 0 <= i < rows.len() ==> (#[trigger] rows[i]).tool != head_of(argv).0,
    ensures
        ({
            let plan = plan_for(argv, overrides, rows);
            &&& plan.class == Class::Exclusive
            &&& plan.argv == argv
            &&& plan.env_set == seq![("BUSYBEE_CLASS"@, "none"@), ("BUSYBEE_CORES"@, "{cores}"@)]
            &&& plan.env_append.len() == 0
            &&& plan.env_unset.len() == 0
            &&& plan.notices.len() == 0
        }),
{
    let (tool, args) = head_of(argv);
    law_the_first_row_that_fits_counts(rows, arbitrary(), Seq::empty(), tool, args);
    let plan = plan_for(argv, overrides, rows);
    assert(plan.argv =~= argv);
    assert(plan.env_set =~= own_env(Class::Exclusive));
}

} // verus!
