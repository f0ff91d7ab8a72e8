//! The configuration file.

use busybee::classify::{classify, default_table, Class, Overrides, Table};
use busybee::config::{
    check_placeholders, line_of, path_from, Config, Defaults, Override, StaticDefault,
    DEFAULT_DRAIN_DEADLINE_MS, DEFAULT_MAX_CONCURRENT,
};
use busybee::errors::BusybeeError;

/// The example of the user's guide.
const EXAMPLE: &str = r#"
pool_size = 18
max_concurrent = 4
drain_deadline_ms = 2000

[defaults]
static = "fair"

[overrides]
"./build.sh" = { class = "jobserver" }
"my-bench"   = { class = "none" }
"mytool"     = { class = "static", env = { MYTOOL_THREADS = "{cores}" } }
"#;

fn load(body: &str) -> Result<Config, BusybeeError> {
    Config::parse(body, "/etc/busybee.toml", &Ok(8))
}

fn error(body: &str) -> String {
    load(body)
        .expect_err("the config should have been refused")
        .message()
}

fn row<'a>(config: &'a Config, key: &str) -> &'a Override {
    config
        .overrides
        .iter()
        .find(|row| row.key == key)
        .expect("the row")
}

fn overridden(body: &str) -> Table {
    let config = load(body).expect("parse");
    let mut table = default_table();
    config.apply_overrides(&mut table);
    table
}

fn words(argv: &[&str]) -> Vec<String> {
    argv.iter().map(|s| s.to_string()).collect()
}

#[test]
fn the_documented_example_parses() {
    let config = load(EXAMPLE).expect("the documented example must parse");

    assert_eq!(config.pool_size, 18);
    assert_eq!(config.max_concurrent, 4);
    assert_eq!(config.drain_deadline_ms, 2000);
    assert_eq!(config.defaults.static_default, StaticDefault::Fair);
    assert_eq!(row(&config, "./build.sh").class, Class::Jobserver);
    assert_eq!(row(&config, "my-bench").class, Class::Exclusive);
    assert_eq!(
        row(&config, "mytool").env,
        vec![("MYTOOL_THREADS".to_string(), "{cores}".to_string())]
    );
}

#[test]
fn an_absent_file_is_the_default_config() {
    let config = Config::defaults(&Ok(8)).expect("an absent config file is not an error");

    assert_eq!(config, load("").expect("the built-in defaults"));
    assert_eq!(config.pool_size, 8);
    assert_eq!(config.max_concurrent, DEFAULT_MAX_CONCURRENT);
    assert_eq!(config.drain_deadline_ms, DEFAULT_DRAIN_DEADLINE_MS);
    assert!(config.overrides.is_empty());
}

/// A key nobody reads is a setting that silently does nothing, and the
/// user cannot see that from the file. Name the line so the typo is
/// findable.
#[test]
fn a_misspelled_key_is_refused_with_its_line() {
    let message = error("pool_size = 4\nmax_concurent = 2\n");

    assert!(message.contains("line 2"), "message was {message:?}");
    assert!(message.contains("max_concurent"), "message was {message:?}");
}

#[test]
fn a_value_of_the_wrong_type_is_refused_with_its_line() {
    let message = error("pool_size = \"lots\"\n");

    assert!(message.contains("line 1"), "message was {message:?}");
}

/// A value inside its type but outside its range is as hard to find as a
/// typo, so it is refused the same way: the key, and the line it is on.
/// The leading blank line puts each offender past line 1, where a message
/// that names no line at all cannot pass by accident.
#[test]
fn out_of_range_values_are_refused_with_their_line() {
    for (body, key, line) in [
        ("\npool_size = 0\n", "pool_size", 2),
        ("\npool_size = 4097\n", "pool_size", 2),
        ("\nmax_concurrent = 0\n", "max_concurrent", 2),
        ("\ndrain_deadline_ms = 99\n", "drain_deadline_ms", 2),
        ("\ndrain_deadline_ms = 60001\n", "drain_deadline_ms", 2),
        ("\n[defaults]\nstatic = 0\n", "static", 3),
    ] {
        let message = error(body);
        assert!(
            message.contains(key),
            "{body:?} was refused with {message:?}, which does not name {key}"
        );
        assert!(
            message.contains(&format!("line {line}")),
            "{body:?} was refused with {message:?}, which does not name line {line}"
        );
    }
}

#[test]
fn config_an_unknown_class_is_refused() {
    let message = error("[overrides]\nmytool = { class = \"statik\" }\n");

    assert!(message.contains("statik"), "message was {message:?}");
}

/// The daemon substitutes exactly three placeholders; anything else would
/// reach the task verbatim, as a literal `{threads}` where a number
/// belongs.
#[test]
fn an_unknown_placeholder_in_an_override_env_is_refused() {
    let message = error(
        "\n[overrides]\nmytool = { class = \"static\", \
         env = { MYTOOL_THREADS = \"{threads}\" } }\n",
    );

    assert!(message.contains("{threads}"), "message was {message:?}");
    assert!(
        message.contains("overrides.mytool.env.MYTOOL_THREADS"),
        "message was {message:?}"
    );
    assert!(message.contains("line 3"), "message was {message:?}");
}

/// Written as an expanded table, an `env` value sits lines below the row
/// header. The line to fix is the assignment's own, not the row's.
#[test]
fn an_expanded_env_table_is_refused_at_the_offending_assignment() {
    let message = error(
        "[overrides.mytool]\nclass = \"static\"\n\n\
         [overrides.mytool.env]\nGOOD = \"{cores}\"\nBAD = \"{threads}\"\n",
    );

    assert!(
        message.contains("overrides.mytool.env.BAD"),
        "message was {message:?}"
    );
    assert!(message.contains("line 6"), "message was {message:?}");
}

#[test]
fn the_three_known_placeholders_are_accepted() {
    let config = load(
        "[overrides]\nmytool = { class = \"static\", \
         env = { A = \"{cores}\", B = \"-j{cores-1}\", C = \"{fifo}\" } }\n",
    )
    .expect("the documented placeholders must be accepted");

    assert_eq!(row(&config, "mytool").env.len(), 3);
}

/// Rows are looked up by the tool's basename, so two keys that share one
/// would fight over the same row and the winner would depend on nothing
/// the user can see.
#[test]
fn two_keys_with_the_same_basename_are_refused() {
    let message = error(
        "[overrides]\n\"./build.sh\" = { class = \"none\" }\n\
         \"build.sh\" = { class = \"jobserver\" }\n",
    );

    assert!(message.contains("build.sh"), "message was {message:?}");
    // The line of the second of the two, which is the one that has no row
    // of its own to take.
    assert!(message.contains("line 3"), "message was {message:?}");
}

#[test]
fn an_override_replaces_the_whole_row_for_its_tool() {
    let table = overridden("[overrides]\ncargo = { class = \"none\" }\n");

    assert_eq!(
        table.rows.iter().filter(|r| r.tool == "cargo").count(),
        1,
        "the built-in cargo row must be replaced, not shadowed"
    );
    let plan = classify(&words(&["cargo", "build"]), &Overrides::default(), &table);
    assert_eq!(plan.class, Class::Exclusive);
    assert!(
        !plan.env_set.iter().any(|(k, _)| k == "MAKEFLAGS"),
        "the replaced row must not keep cargo's jobserver injection: {:?}",
        plan.env_set
    );
}

/// The file has no way to spell how a tool writes parallelism, so that is
/// not part of what a row replaces: a replaced row that lost the built-in
/// scanner would stop earning the notice.
#[test]
fn an_override_keeps_the_replaced_rows_parallelism_flags() {
    let table = overridden("[overrides]\ncargo = { class = \"jobserver\" }\n");

    let plan = classify(
        &words(&["cargo", "build", "-j8"]),
        &Overrides::default(),
        &table,
    );

    assert!(
        plan.notices.iter().any(|n| n.contains("-j8")),
        "notices were {:?}",
        plan.notices
    );
}

/// `./build.sh` is what the user types; `classify` looks up the basename.
#[test]
fn a_path_shaped_key_matches_the_script_it_names() {
    let table = overridden("[overrides]\n\"./build.sh\" = { class = \"jobserver\" }\n");

    let plan = classify(&words(&["./build.sh"]), &Overrides::default(), &table);

    assert_eq!(plan.class, Class::Jobserver);
    assert!(
        plan.env_set
            .iter()
            .any(|(k, v)| k == "MAKEFLAGS" && v.contains("{fifo}")),
        "a forced jobserver row still gets the fifo: {:?}",
        plan.env_set
    );
}

#[test]
fn override_env_reaches_the_plan() {
    let table = overridden(
        "[overrides]\nmytool = { class = \"static\", env = { MYTOOL_THREADS = \"{cores}\" } }\n",
    );

    let plan = classify(&words(&["mytool"]), &Overrides::default(), &table);

    assert_eq!(plan.class, Class::Static);
    assert!(
        plan.env_set
            .contains(&("MYTOOL_THREADS".to_string(), "{cores}".to_string())),
        "env_set was {:?}",
        plan.env_set
    );
}

/// A jobserver row's `MAKEFLAGS` is how the task reaches the fifo, so it is
/// also how the task gets accounted. A row's own `env` may not take that
/// key from under it: the task would keep the class that reserves no
/// tokens and lose the pool that bounds it.
#[test]
fn override_env_cannot_take_the_jobserver_authentication() {
    let table = overridden(
        "[overrides]\nmytool = { class = \"jobserver\", env = { MAKEFLAGS = \"-j16\" } }\n",
    );

    let plan = classify(&words(&["mytool"]), &Overrides::default(), &table);

    assert_eq!(plan.class, Class::Jobserver);
    let makeflags: Vec<&String> = plan
        .env_set
        .iter()
        .filter(|(k, _)| k == "MAKEFLAGS")
        .map(|(_, v)| v)
        .collect();
    assert_eq!(
        makeflags,
        vec!["--jobserver-auth=fifo:{fifo}"],
        "the configured value must not reach the plan at all: {:?}",
        plan.env_set
    );
    assert!(
        plan.notices.iter().any(|n| n.contains("MAKEFLAGS")),
        "dropping a configured value has to say so: {:?}",
        plan.notices
    );
}

/// Cargo reads `CARGO_MAKEFLAGS` in preference to `MAKEFLAGS`, so the
/// generic jobserver recipe setting only the latter leaves a gap a row's
/// own `env` could fill. Filling it would point the task at a fifo the
/// scheduler never handed out, which is the same escape as replacing
/// `MAKEFLAGS` outright: a jobserver row owns both keys.
#[test]
fn override_env_cannot_take_the_cargo_jobserver_authentication() {
    let table = overridden(
        "[overrides]\ncargo = { class = \"jobserver\", \
         env = { CARGO_MAKEFLAGS = \"--jobserver-auth=fifo:/elsewhere\" } }\n",
    );

    let plan = classify(&words(&["cargo", "build"]), &Overrides::default(), &table);

    assert_eq!(plan.class, Class::Jobserver);
    assert!(
        !plan.env_set.iter().any(|(k, _)| k == "CARGO_MAKEFLAGS"),
        "the configured authentication must not reach the plan: {:?}",
        plan.env_set
    );
    assert!(
        plan.notices.iter().any(|n| n.contains("CARGO_MAKEFLAGS")),
        "dropping a configured value has to say so: {:?}",
        plan.notices
    );
}

#[test]
fn a_fixed_static_default_is_a_cores_count() {
    let config = load("[defaults]\nstatic = 3\n").expect("parse");

    assert_eq!(config.defaults.static_default, StaticDefault::Cores(3));
    assert_eq!(config.defaults.static_default.cores_wanted(), Some(3));
    assert_eq!(StaticDefault::Fair.cores_wanted(), None);
}

#[test]
fn the_params_come_from_the_file() {
    let config = load("pool_size = 18\nmax_concurrent = 2\n").expect("parse");

    let params = config.params();

    assert_eq!(params.pool_size, 18);
    assert_eq!(params.max_concurrent, 2);
}

#[test]
fn busybee_config_names_the_file_outright() {
    let path = path_from(
        Some("/tmp/somewhere/busybee.toml"),
        Some("/xdg"),
        Some("/home/someone"),
    )
    .expect("an absolute override is a path");

    assert_eq!(path, "/tmp/somewhere/busybee.toml");
}

/// Same reason `BUSYBEE_STATE_DIR` insists on one: the daemon and the
/// client run from different directories, so a relative path would give
/// them different files.
#[test]
fn a_relative_override_is_refused() {
    let err = path_from(Some("config.toml"), None, None)
        .expect_err("a relative override must be refused");

    assert!(
        err.message().contains("BUSYBEE_CONFIG"),
        "message was {err:?}"
    );
    assert!(
        err.message().contains("\"config.toml\""),
        "message was {err:?}"
    );
}

#[test]
fn xdg_config_home_wins_over_home() {
    let path = path_from(None, Some("/xdg"), Some("/home/someone"))
        .expect("an absolute XDG_CONFIG_HOME is a path");

    assert_eq!(path, "/xdg/busybee/config.toml");
}

/// The XDG convention is that a relative value counts as unset.
#[test]
fn a_relative_xdg_config_home_falls_back_to_home() {
    let path = path_from(None, Some("xdg"), Some("/home/someone")).expect("HOME is a path");

    assert_eq!(path, "/home/someone/.config/busybee/config.toml");
}

#[test]
fn nowhere_to_look_is_an_error_rather_than_a_guess() {
    let err = path_from(None, None, None).expect_err("there is no config path without HOME");

    assert!(err.message().contains("HOME"), "message was {err:?}");
}

#[test]
fn a_file_that_is_not_toml_is_refused() {
    let message = error("pool_size = \n");
    assert!(
        message.contains("/etc/busybee.toml"),
        "message was {message:?}"
    );
}

#[test]
fn a_row_without_a_class_is_refused() {
    let message = error("[overrides]\nmytool = { env = { A = \"1\" } }\n");
    assert!(message.contains("class"), "message was {message:?}");
}

#[test]
fn a_file_that_names_the_pool_needs_no_core_count() {
    let unknown = Err("no cores here".to_string());
    let config = Config::parse("pool_size = 4\n", "/etc/busybee.toml", &unknown).expect("parse");
    assert_eq!(config.pool_size, 4);

    let err = Config::defaults(&unknown).expect_err("nothing says how large the pool is");
    assert!(
        err.message().contains("no cores here"),
        "message was {err:?}"
    );
}

#[test]
fn integers_are_read_in_every_notation() {
    let config = load("pool_size = 0x10\nmax_concurrent = 0b11\n").expect("parse");
    assert_eq!(config.pool_size, 16);
    assert_eq!(config.max_concurrent, 3);
    let config = load("drain_deadline_ms = 1_000\npool_size = 0o17\n").expect("parse");
    assert_eq!(config.drain_deadline_ms, 1000);
    assert_eq!(config.pool_size, 15);
}

#[test]
fn the_bounds_themselves_are_accepted() {
    let config = load(
        "pool_size = 4096\nmax_concurrent = 1\ndrain_deadline_ms = 100\n[defaults]\nstatic = 1\n",
    )
    .expect("parse");
    assert_eq!(
        config,
        Config {
            pool_size: 4096,
            max_concurrent: 1,
            drain_deadline_ms: 100,
            defaults: Defaults {
                static_default: StaticDefault::Cores(1)
            },
            overrides: vec![],
        }
    );
    assert_eq!(
        load("drain_deadline_ms = 60000\n")
            .expect("parse")
            .drain_deadline_ms,
        60_000
    );
}

#[test]
fn offsets_are_counted_in_lines() {
    assert_eq!(line_of("a\nb\nc", 0), 1);
    assert_eq!(line_of("a\nb\nc", 2), 2);
    assert_eq!(line_of("a\nb\nc", 4), 3);
}

#[test]
fn braces_that_hold_no_known_name_are_refused() {
    assert_eq!(check_placeholders("-j{cores} {fifo} {cores-1}"), Ok(()));
    assert_eq!(check_placeholders("plain"), Ok(()));
    assert!(check_placeholders("{threads}").is_err());
}

#[test]
fn layering_the_overrides_again_changes_nothing() {
    let config = load(
        "[overrides.make]\nclass = \"static\"\n[overrides.\"./build.sh\"]\nclass = \"jobserver\"\n",
    )
    .expect("parse");
    let mut table = default_table();
    let others: Vec<String> = table
        .rows
        .iter()
        .map(|row| row.tool.clone())
        .filter(|tool| tool != "make")
        .collect();
    config.apply_overrides(&mut table);
    let once: Vec<String> = table.rows.iter().map(|row| format!("{row:?}")).collect();
    let tools: Vec<&str> = table.rows.iter().map(|row| row.tool.as_str()).collect();
    assert_eq!(tools[..others.len()], others);
    let mut new: Vec<&str> = tools[others.len()..].to_vec();
    new.sort_unstable();
    assert_eq!(new, ["build.sh", "make"]);

    config.apply_overrides(&mut table);
    let twice: Vec<String> = table.rows.iter().map(|row| format!("{row:?}")).collect();
    assert_eq!(once, twice);
}

/// A row and the defaults may also be written as an array, their values in the order of
/// their keys.
#[test]
fn an_array_stands_for_a_table_of_known_keys() {
    let fixed = |body: &str| load(body).expect("parse").defaults.static_default;
    assert_eq!(fixed("defaults = [\"fair\"]\n"), StaticDefault::Fair);
    assert_eq!(fixed("defaults = [3]\n"), StaticDefault::Cores(3));
    assert_eq!(fixed("defaults = []\n"), StaticDefault::Fair);
    assert_eq!(fixed("defaults = [3, \"and more\"]\n"), StaticDefault::Cores(3));

    let config = load(
        "[overrides]\nplain = [\"static\"]\nfull = [\"jobserver\", { A = \"{cores}\" }, 1]\n",
    )
    .expect("parse");
    assert_eq!(row(&config, "plain").class, Class::Static);
    assert!(row(&config, "plain").env.is_empty());
    assert_eq!(row(&config, "full").class, Class::Jobserver);
    assert_eq!(
        row(&config, "full").env,
        [("A".to_string(), "{cores}".to_string())]
    );
}

#[test]
fn an_array_that_does_not_fit_is_refused_with_its_line() {
    for (body, at) in [
        ("\ndefaults = [\"many\"]\n", " line 2: "),
        ("\ndefaults = [[3]]\n", " line 2: "),
        ("\n\ndefaults = [0]\n", " line 3: "),
        ("overrides = []\n", " line 1: "),
        ("[overrides]\nx = []\n", " line 2: "),
        ("[overrides]\nx = [\"nope\"]\n", " line 2: "),
        ("[overrides]\nx = [\"none\", []]\n", " line 2: "),
        ("[overrides]\nx = [\"none\",\n { A = \"{x}\" }]\n", " line 3: "),
        ("pool_size = [4]\n", " line 1: "),
    ] {
        let message = error(body);
        assert!(message.contains(at), "{body:?}: message was {message:?}");
    }
}
