//! Where the daemon's files are.

use vstd::prelude::*;
use vstd::string::*;

use crate::errors::BusybeeError;
use crate::text::{copy, is_absolute, join_path, quoted};

#[allow(unused_imports)]
use crate::errors::error_text;
#[allow(unused_imports)]
use crate::text::{absolute, quoted_text, under};

verus! {

/// What the environment says about where state is kept.
#[derive(Debug)]
pub struct Places {
    /// `BUSYBEE_STATE_DIR`.
    pub state_dir: Option<String>,
    /// `XDG_STATE_HOME`.
    pub xdg_state_home: Option<String>,
    /// `HOME`.
    pub home: Option<String>,
}

/// The state directory: the override, else one under the state home, else one
/// under the home directory. The override has to be absolute: the daemon and its
/// clients run from different directories, and each would find another one.
pub open spec fn state_dir_of(p: Places) -> Result<Seq<char>, Seq<char>> {
    match p.state_dir {
        Some(dir) => if absolute(dir@) {
            Ok(dir@)
        } else {
            Err("BUSYBEE_STATE_DIR must be an absolute path, got "@ + quoted_text(dir@))
        },
        None => match p.xdg_state_home {
            Some(dir) => Ok(under(dir@, "busybee"@)),
            None => match p.home {
                Some(home) => Ok(under(home@, ".local/state/busybee"@)),
                None => Err(
                    "cannot locate the busybee state directory: none of BUSYBEE_STATE_DIR, XDG_STATE_HOME or HOME is set"@,
                ),
            },
        },
    }
}

/// A file in the state directory.
pub open spec fn state_file(p: Places, name: Seq<char>) -> Result<Seq<char>, Seq<char>> {
    match state_dir_of(p) {
        Ok(dir) => Ok(under(dir, name)),
        Err(e) => Err(e),
    }
}

/// Whether a path or an error is the one that `want` states.
pub open spec fn path_answers(
    r: Result<String, BusybeeError>,
    want: Result<Seq<char>, Seq<char>>,
) -> bool {
    match r {
        Ok(path) => want == Ok::<_, Seq<char>>(path@),
        Err(e) => e is Other && want == Err::<Seq<char>, _>(error_text(e)),
    }
}

/// The directory that holds the daemon's socket, pid file, log and leases.
pub fn state_dir(p: &Places) -> (r: Result<String, BusybeeError>)
    ensures
        path_answers(r, state_dir_of(*p)),
{
    if let Some(dir) = &p.state_dir {
        if is_absolute(dir.as_str()) {
            return Ok(dir.clone());
        }
        let mut text = copy("BUSYBEE_STATE_DIR must be an absolute path, got ");
        text.append(quoted(dir.as_str()).as_str());
        return Err(BusybeeError::Other(text));
    }
    if let Some(dir) = &p.xdg_state_home {
        return Ok(join_path(dir.as_str(), "busybee"));
    }
    match &p.home {
        Some(home) => Ok(join_path(home.as_str(), ".local/state/busybee")),
        None => Err(
            BusybeeError::Other(
                copy(
                    "cannot locate the busybee state directory: none of BUSYBEE_STATE_DIR, XDG_STATE_HOME or HOME is set",
                ),
            ),
        ),
    }
}

fn file(p: &Places, name: &str) -> (r: Result<String, BusybeeError>)
    ensures
        path_answers(r, state_file(*p, name@)),
{
    match state_dir(p) {
        Ok(dir) => Ok(join_path(dir.as_str(), name)),
        Err(e) => Err(e),
    }
}

/// The daemon's socket.
pub fn socket_path(p: &Places) -> (r: Result<String, BusybeeError>)
    ensures
        path_answers(r, state_file(*p, "bzbd.sock"@)),
{
    file(p, "bzbd.sock")
}

/// The daemon's pid file.
pub fn pid_path(p: &Places) -> (r: Result<String, BusybeeError>)
    ensures
        path_answers(r, state_file(*p, "bzbd.pid"@)),
{
    file(p, "bzbd.pid")
}

/// The daemon's log.
pub fn log_path(p: &Places) -> (r: Result<String, BusybeeError>)
    ensures
        path_answers(r, state_file(*p, "bzbd.log"@)),
{
    file(p, "bzbd.log")
}

/// The record of the daemon's leases.
pub fn leases_path(p: &Places) -> (r: Result<String, BusybeeError>)
    ensures
        path_answers(r, state_file(*p, "leases.json"@)),
{
    file(p, "leases.json")
}

/// The state directory is the one that `BUSYBEE_STATE_DIR` names, whatever else is
/// set, and is refused where that is not absolute; else it is in the user's state
/// directory, else under their home, and without any of these there is none. The
/// daemon's files stand in it.
pub proof fn law_the_state_directory_is_named_or_found(p: Places, name: Seq<char>)
    ensures
        p.state_dir matches Some(dir) ==> {
            &&& dir@.len() > 0 && dir@[0] == '/' ==> state_dir_of(p) == Ok::<_, Seq<char>>(dir@)
            &&& dir@.len() == 0 || dir@[0] != '/' ==> state_dir_of(p) is Err
        },
        p.state_dir is None && p.xdg_state_home is Some ==> state_dir_of(p) == Ok::<_, Seq<char>>(
            under(p.xdg_state_home->0@, "busybee"@),
        ),
        p.state_dir is None && p.xdg_state_home is None && p.home is Some ==> state_dir_of(p)
            == Ok::<_, Seq<char>>(under(p.home->0@, ".local/state/busybee"@)),
        p.state_dir is None && p.xdg_state_home is None && p.home is None ==> state_dir_of(p)
            is Err,
        state_dir_of(p) matches Ok(dir) ==> state_file(p, name) == Ok::<_, Seq<char>>(
            under(dir, name),
        ),
        state_dir_of(p) is Err ==> state_file(p, name) is Err,
{
}

} // verus!
