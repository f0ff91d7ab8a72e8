//! What a plan puts into a task's environment and command line.

use busybee::classify::{classify, default_table, Overrides, Plan};
use busybee::env::EnvMap;
use busybee::inject::inject;

fn plan(argv: &[&str]) -> Plan {
    let argv: Vec<String> = argv.iter().map(|a| (*a).to_string()).collect();
    classify(&argv, &Overrides::default(), &default_table())
}

fn env(pairs: &[(&str, &str)]) -> EnvMap {
    EnvMap::from_pairs(
        pairs
            .iter()
            .map(|(k, v)| ((*k).to_string(), (*v).to_string()))
            .collect(),
    )
}

/// `-jobs N` yields N+1 concurrent compilers, so the row asks for
/// `{cores-1}`; at one core that still has to be a usable `1`.
#[test]
fn xcodebuild_with_one_core_gets_jobs_one() {
    let injected = inject(&plan(&["xcodebuild", "build"]), 2, env(&[]), "/run/js", 1);
    assert_eq!(injected.argv, ["xcodebuild", "build", "-jobs", "1"]);
}

/// The placeholders are the classifier's, in what it appended; the user's
/// own command line is not rewritten, braces and all.
#[test]
fn a_placeholder_in_the_users_own_argv_is_left_alone() {
    let argv = ["sh", "-c", "echo {cores} {cores-1} {fifo}"];
    let injected = inject(&plan(&argv), argv.len(), env(&[]), "/run/js", 3);
    assert_eq!(injected.argv, argv);
}

/// The fifo path is whatever the state directory is, and a directory may
/// be named like a placeholder. Text a substitution put in is never
/// itself substituted.
#[test]
fn a_placeholder_shaped_fifo_path_is_kept_verbatim() {
    let injected = inject(&plan(&["make"]), 1, env(&[]), "/tmp/{cores}/js", 4);
    assert_eq!(
        injected.env.get("MAKEFLAGS").map(String::as_str),
        Some("--jobserver-auth=fifo:/tmp/{cores}/js")
    );
}

#[test]
fn the_fifo_and_the_share_fill_the_placeholders() {
    let injected = inject(
        &plan(&["cargo", "test"]),
        2,
        env(&[("CMAKE_BUILD_PARALLEL_LEVEL", "9")]),
        "/run/js",
        3,
    );
    assert_eq!(
        injected.env.get("MAKEFLAGS").map(String::as_str),
        Some("--jobserver-auth=fifo:/run/js")
    );
    assert_eq!(
        injected.env.get("RUST_TEST_THREADS").map(String::as_str),
        Some("3")
    );
    assert_eq!(
        injected.env.get("BUSYBEE_CLASS").map(String::as_str),
        Some("jobserver")
    );
    assert_eq!(
        injected.env.get("BUSYBEE_CORES").map(String::as_str),
        Some("3")
    );
    // Not on cargo's row: the caller's variable is left alone.
    assert_eq!(
        injected
            .env
            .get("CMAKE_BUILD_PARALLEL_LEVEL")
            .map(String::as_str),
        Some("9")
    );
}

#[test]
fn cmake_build_unsets_the_callers_parallel_level() {
    let injected = inject(
        &plan(&["cmake", "--build", "."]),
        3,
        env(&[("CMAKE_BUILD_PARALLEL_LEVEL", "9")]),
        "/run/js",
        4,
    );
    assert!(!injected.env.contains_key("CMAKE_BUILD_PARALLEL_LEVEL"));
}

#[test]
fn pytest_extends_the_callers_addopts_rather_than_replacing_them() {
    let injected = inject(
        &plan(&["pytest"]),
        1,
        env(&[("PYTEST_ADDOPTS", "-q")]),
        "/run/js",
        2,
    );
    assert_eq!(
        injected.env.get("PYTEST_ADDOPTS").map(String::as_str),
        Some("-q -n 2")
    );
    assert_eq!(
        inject(&plan(&["pytest"]), 1, env(&[]), "/run/js", 2)
            .env
            .get("PYTEST_ADDOPTS")
            .map(String::as_str),
        Some("-n 2")
    );
}

/// `Plan::env_append`'s contract: no leading space when the caller's
/// value is there but empty (`PYTEST_ADDOPTS=""`).
#[test]
fn appending_to_an_empty_value_adds_no_leading_space() {
    let injected = inject(
        &plan(&["pytest"]),
        1,
        env(&[("PYTEST_ADDOPTS", "")]),
        "/run/js",
        2,
    );
    assert_eq!(
        injected.env.get("PYTEST_ADDOPTS").map(String::as_str),
        Some("-n 2")
    );
}
