//! A client inside a task that already holds a lease runs its command itself
//! instead of queueing behind its own ancestor.

use vstd::prelude::*;
use vstd::string::*;

use crate::protocol::LeaseView;
use crate::text::{copy, decimal, parse_number, same};

#[allow(unused_imports)]
use crate::text::{decimal_of, number_in};

verus! {

/// The variable that tells a task which lease it runs under. The daemon fills it
/// at admission.
pub const LEASE_ENV: &'static str = "BUSYBEE_LEASE";

/// The line that a nested client prints.
pub fn passthrough_line(id: u64) -> (r: String)
    ensures
        r@ == "busybee: nested under lease "@ + decimal_of(id as nat) + ", passing through"@,
{
    let mut out = copy("busybee: nested under lease ");
    out.append(decimal(id).as_str());
    out.append(", passing through");
    out
}

/// Whether a lease of that id is on the machine.
pub open spec fn live(leases: Seq<LeaseView>, id: u64) -> bool {
    exists|i: int|
        0 <= i < leases.len() && (#[trigger] leases[i]).id == id && leases[i].state@ != "queued"@
}

/// The lease that a client with `marker` in its environment is nested under:
/// the one the marker names, where that is on the machine. A stale marker, or
/// one that is no number, names none.
pub fn passthrough_parent(marker: Option<&str>, leases: &[LeaseView]) -> (r: Option<u64>)
    ensures
        r is Some <==> marker is Some && number_in(marker->0@, u64::MAX as nat) is Some && live(
            leases@,
            number_in(marker->0@, u64::MAX as nat)->0 as u64,
        ),
        r matches Some(id) ==> number_in(marker->0@, u64::MAX as nat) == Some(id as nat),
{
    let text = match marker {
        Some(text) => text,
        None => {
            return None;
        },
    };
    let id = match parse_number(text, 0xffff_ffff_ffff_ffff) {
        Some(id) => id,
        None => {
            return None;
        },
    };
    let mut i: usize = 0;
    while i < leases.len()
        invariant
            i <= leases@.len(),
            marker == Some(text),
            number_in(text@, u64::MAX as nat) == Some(id as nat),
            forall|j: int|
                0 <= j < i ==> !((#[trigger] leases@[j]).id == id && leases@[j].state@
                    != "queued"@),
        decreases leases@.len() - i,
    {
        if leases[i].id == id && !same(leases[i].state.as_str(), "queued") {
            assert(leases@[i as int].id == id);
            return Some(id);
        }
        i = i + 1;
    }
    None
}

/// A lease is live once it runs, with or without a client; one that waits is not,
/// nor is one that is not listed.
pub proof fn law_a_lease_is_live_once_it_runs(leases: Seq<LeaseView>, id: u64, i: int)
    ensures
        0 <= i < leases.len() && leases[i].id == id && (leases[i].state@ == "running"@
            || leases[i].state@ == "orphaned"@) ==> live(leases, id),
        (forall|j: int|
            0 <= j < leases.len() ==> (#[trigger] leases[j]).id != id || leases[j].state@
                == "queued"@) ==> !live(leases, id),
{
    reveal_strlit("running");
    reveal_strlit("orphaned");
    reveal_strlit("queued");
    assert("running"@.len() == 7 && "orphaned"@.len() == 8 && "queued"@.len() == 6);
    if 0 <= i < leases.len() {
        assert(leases[i] == leases[i]);
    }
}

} // verus!
