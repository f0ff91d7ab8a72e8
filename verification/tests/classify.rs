//! Which class a command gets, and what is handed to it.

use std::str::FromStr;

use busybee::classify::{
    basename, classify, default_table, find_parallel_flag, flag_matches, flag_notice,
    unwrap_wrappers, Class, Inject, Overrides, Plan, Style,
};

fn words(argv: &[&str]) -> Vec<String> {
    argv.iter().map(|s| s.to_string()).collect()
}

fn plan_for(argv: &[&str]) -> Plan {
    classify(&words(argv), &Overrides::default(), &default_table())
}

fn pair(k: &str, v: &str) -> (String, String) {
    (k.to_string(), v.to_string())
}

#[test]
fn empty_argv_is_total() {
    let plan = plan_for(&[]);
    assert_eq!(plan.class, Class::Exclusive);
    assert_eq!(plan.tool, "<unknown>");
    assert!(plan.argv.is_empty());
}

#[test]
fn odd_quoting_and_unknown_flags_do_not_panic() {
    for argv in [
        vec!["--"],
        vec!["-"],
        vec![""],
        vec!["/"],
        vec!["nix"],
        vec!["nix", "develop", "-c"],
        vec!["env"],
        vec!["env", "FOO=1"],
        vec!["nice", "-n"],
        vec!["caffeinate", "-t"],
        vec!["make", "--jobs="],
        vec!["ninja", "-j"],
        vec!["sh"],
        vec!["'quoted arg'", "\"another\""],
    ] {
        let plan = plan_for(&argv);
        assert!(plan.env_set.iter().any(|(k, _)| k == "BUSYBEE_CLASS"));
    }
}

#[test]
fn busybee_env_is_always_present() {
    let plan = plan_for(&["go", "test", "./..."]);
    assert!(plan
        .env_set
        .contains(&("BUSYBEE_CLASS".to_string(), "static".to_string())));
    assert!(plan
        .env_set
        .contains(&("BUSYBEE_CORES".to_string(), "{cores}".to_string())));
}

#[test]
fn short_flags_match_glued_values_only_when_numeric() {
    assert!(flag_matches("-j", "-j8"));
    assert!(flag_matches("-j", "-j=8"));
    assert!(flag_matches("-j", "-j"));
    assert!(!flag_matches("-j", "-jobs"));
    assert!(!flag_matches("-p", "-pkgdir"));
    assert!(!flag_matches("--jobs", "--jobs8"));
    assert!(flag_matches("--jobs", "--jobs=8"));
    assert!(!flag_matches("--jobs", "--jobs="));
}

#[test]
fn class_round_trips_through_strings() {
    for class in [Class::Jobserver, Class::Static, Class::Exclusive] {
        assert_eq!(Class::from_str(class.as_str()), Ok(class));
    }
    assert!(Class::from_str("parallel").is_err());
}

#[test]
fn the_class_names_are_the_documented_ones() {
    assert_eq!(Class::Jobserver.as_str(), "jobserver");
    assert_eq!(Class::Static.as_str(), "static");
    assert_eq!(Class::Exclusive.as_str(), "none");
    let refused = Class::parse("parallel").unwrap_err();
    assert!(refused.contains("parallel"), "message was {refused:?}");
}

#[test]
fn make_and_ninja_share_the_pool() {
    for tool in ["make", "ninja"] {
        let plan = plan_for(&[tool, "all"]);
        assert_eq!(plan.class, Class::Jobserver);
        assert_eq!(plan.tool, tool);
        assert!(plan
            .env_set
            .contains(&pair("MAKEFLAGS", "--jobserver-auth=fifo:{fifo}")));
        assert!(plan.notices.is_empty());
    }
}

#[test]
fn a_users_own_parallelism_flag_earns_a_notice() {
    let plan = plan_for(&["make", "-j8", "all"]);
    assert_eq!(plan.class, Class::Jobserver);
    assert!(plan.notices.iter().any(|n| n.contains("-j8")));
    assert_eq!(plan.argv, words(&["make", "-j8", "all"]));
}

#[test]
fn a_wrapper_is_looked_through() {
    for argv in [
        vec!["env", "FOO=1", "make", "all"],
        vec!["nice", "-n", "10", "make"],
        vec!["/usr/bin/make"],
    ] {
        let plan = plan_for(&argv);
        assert_eq!(plan.tool, "make", "{argv:?}");
        assert_eq!(plan.class, Class::Jobserver, "{argv:?}");
    }
    let head = unwrap_wrappers(&words(&["env", "FOO=1", "make", "all"]));
    assert_eq!(head.tool, "make");
    assert_eq!(head.args_at, 3);
}

#[test]
fn a_wrapper_needs_no_arguments_of_its_own() {
    for argv in [
        vec!["env", "make"],
        vec!["nice", "make"],
        vec!["caffeinate", "make"],
        vec!["env", "nice", "caffeinate", "make"],
    ] {
        let plan = plan_for(&argv);
        assert_eq!(plan.tool, "make", "{argv:?}");
        assert_eq!(plan.class, Class::Jobserver, "{argv:?}");
        assert_eq!(plan.argv, words(&argv));
    }
    let head = unwrap_wrappers(&words(&["nice", "make", "-j8"]));
    assert_eq!((head.tool.as_str(), head.args_at), ("make", 2));
    assert_eq!(unwrap_wrappers(&words(&["env", "sh", "-c", "make"])).tool, "<shell>");
}

#[test]
fn a_wrapper_that_swallows_the_line_is_opaque() {
    for (argv, tool) in [
        (vec!["env"], "env"),
        (vec!["env", "FOO=1"], "env"),
        (vec!["env", "-i", "make"], "env"),
        (vec!["env", "FOO=1", "-u", "BAR", "make"], "env"),
        (vec!["nice"], "nice"),
        (vec!["nice", "-n"], "nice"),
        (vec!["nice", "-n", "10"], "nice"),
        (vec!["caffeinate", "-t"], "caffeinate"),
        (vec!["nix", "develop"], "nix"),
        (vec!["nix", "develop", "-c"], "nix"),
    ] {
        let plan = plan_for(&argv);
        assert_eq!(plan.tool, tool, "{argv:?}");
        assert_eq!(plan.class, Class::Exclusive, "{argv:?}");
        assert_eq!(unwrap_wrappers(&words(&argv)).args_at, argv.len());
    }
    assert_eq!(plan_for(&["nix", "build"]).tool, "nix");
}

#[test]
fn an_unknown_command_has_the_machine_alone() {
    let plan = plan_for(&["my-bench", "--fast"]);
    assert_eq!(plan.class, Class::Exclusive);
    assert_eq!(plan.tool, "my-bench");
    assert!(plan.env_set.contains(&pair("BUSYBEE_CLASS", "none")));
    assert!(plan.env_append.is_empty());
}

#[test]
fn the_users_overrides_reach_the_plan() {
    let plan = classify(
        &words(&["my-bench"]),
        &Overrides {
            class: Some(Class::Static),
            cores: Some(3),
        },
        &default_table(),
    );
    assert_eq!(plan.class, Class::Static);
    assert_eq!(plan.cores_wanted, Some(3));
    assert!(plan.env_set.contains(&pair("BUSYBEE_CLASS", "static")));
}

#[test]
fn a_forced_jobserver_class_still_gets_the_fifo() {
    let plan = classify(
        &words(&["my-bench"]),
        &Overrides {
            class: Some(Class::Jobserver),
            cores: None,
        },
        &default_table(),
    );
    assert_eq!(plan.class, Class::Jobserver);
    assert!(plan
        .env_set
        .iter()
        .any(|(k, v)| k == "MAKEFLAGS" && v.contains("{fifo}")));
}

#[test]
fn the_parallelism_flag_is_found_where_it_stands() {
    let flags = words(&["-j", "--jobs"]);
    assert_eq!(
        find_parallel_flag(&words(&["all", "-j8"]), &flags),
        Some(1)
    );
    assert_eq!(find_parallel_flag(&words(&["all", "-k"]), &flags), None);
    assert_eq!(find_parallel_flag(&[], &flags), None);
}

#[test]
fn a_token_s_basename_follows_its_last_slash() {
    assert_eq!(basename("/usr/bin/make"), "make");
    assert_eq!(basename("./build.sh"), "build.sh");
    assert_eq!(basename("make"), "make");
}

#[test]
fn the_notice_names_the_tool_and_the_flag() {
    let notice = flag_notice("make", "-j8", Inject::Jobserver, Class::Jobserver);
    assert!(notice.contains("make"), "notice was {notice:?}");
    assert!(notice.contains("-j8"), "notice was {notice:?}");
    assert_eq!(Inject::Jobserver.style(), Style::Fifo);
    assert_eq!(Inject::Nothing.style(), Style::Empty);
    assert_eq!(Inject::Go.style(), Style::Count);
}

#[test]
fn a_row_is_looked_up_by_tool_and_required_word() {
    let table = default_table();
    let build = table.lookup("go", &words(&["build"]));
    assert!(build.is_some_and(|row| row.tool == "go" && row.class == Class::Static));
    assert!(table.lookup("my-bench", &[]).is_none());
}
