//! One row for each lease, the running ones first.

use vstd::prelude::*;
use vstd::string::*;

use crate::gauge::Color;
use crate::protocol::LeaseView;
use crate::report::{cores, elapsed, printable};
use crate::text::{copy, decimal, same};

#[allow(unused_imports)]
use crate::report::{cores_text, minutes_text, printed};
#[allow(unused_imports)]
use crate::text::{decimal_of, texts};

verus! {

/// A row of the table.
#[derive(Debug)]
pub struct TableRow {
    /// Its columns: id, state, time, tool, class, cores, label.
    pub cells: Vec<String>,
    pub color: Color,
}

/// The same, mathematically.
#[verifier::ext_equal]
pub struct RowView {
    pub cells: Seq<Seq<char>>,
    pub color: Color,
}

impl View for TableRow {
    type V = RowView;

    open spec fn view(&self) -> RowView {
        RowView { cells: texts(self.cells@), color: self.color }
    }
}

/// The row of a lease.
pub open spec fn row_view(lease: LeaseView) -> RowView {
    RowView {
        cells: seq![
            "#"@ + decimal_of(lease.id as nat),
            lease.state@,
            minutes_text(lease.elapsed_ms as nat),
            printed(lease.tool@),
            lease.class@,
            cores_text(lease),
            printed(lease.label@),
        ],
        color: if lease.state@ == "running"@ {
            Color::Green
        } else {
            Color::DarkGray
        },
    }
}

/// The rows of the first `n` leases that are running, or of those that are not.
pub open spec fn rows_where(leases: Seq<LeaseView>, running: bool, n: nat) -> Seq<RowView>
    decreases n,
{
    if n == 0 {
        Seq::empty()
    } else {
        let before = rows_where(leases, running, (n - 1) as nat);
        if (leases[n - 1].state@ == "running"@) == running {
            before.push(row_view(leases[n - 1]))
        } else {
            before
        }
    }
}

/// Rows, mathematically.
pub open spec fn row_views(rows: Seq<TableRow>) -> Seq<RowView> {
    Seq::new(rows.len(), |i: int| rows[i]@)
}

fn table_row(lease: &LeaseView, running: bool) -> (r: TableRow)
    requires
        running == (lease.state@ == "running"@),
    ensures
        r@ == row_view(*lease),
{
    let mut id = copy("#");
    id.append(decimal(lease.id).as_str());
    let mut cells: Vec<String> = Vec::new();
    cells.push(id);
    cells.push(lease.state.clone());
    cells.push(elapsed(lease.elapsed_ms));
    cells.push(printable(lease.tool.as_str()));
    cells.push(lease.class.clone());
    cells.push(cores(lease));
    cells.push(printable(lease.label.as_str()));
    let r = TableRow {
        cells,
        color: if running {
            Color::Green
        } else {
            Color::DarkGray
        },
    };
    assert(r@ =~= row_view(*lease));
    r
}

/// The table.
#[derive(Debug)]
pub struct LeaseTable<'a> {
    pub leases: &'a [LeaseView],
}

impl<'a> LeaseTable<'a> {
    /// Its rows: the running leases, then the others, each in the order in which they
    /// came.
    pub fn rows(&self) -> (r: Vec<TableRow>)
        ensures
            row_views(r@) == rows_where(self.leases@, true, self.leases@.len()) + rows_where(
                self.leases@,
                false,
                self.leases@.len(),
            ),
    {
        let leases = self.leases;
        let mut out: Vec<TableRow> = Vec::new();
        let mut i: usize = 0;
        assert(row_views(out@) =~= Seq::empty());
        while i < leases.len()
            invariant
                i <= leases@.len(),
                row_views(out@) == rows_where(leases@, true, i as nat),
            decreases leases@.len() - i,
        {
            let ghost before = row_views(out@);
            if same(leases[i].state.as_str(), "running") {
                out.push(table_row(&leases[i], true));
                assert(row_views(out@) =~= before.push(row_view(leases@[i as int])));
            }
            i = i + 1;
        }
        let ghost first = row_views(out@);
        let mut j: usize = 0;
        assert(first + Seq::<RowView>::empty() =~= first);
        while j < leases.len()
            invariant
                j <= leases@.len(),
                row_views(out@) == first + rows_where(leases@, false, j as nat),
            decreases leases@.len() - j,
        {
            let ghost before = row_views(out@);
            if !same(leases[j].state.as_str(), "running") {
                out.push(table_row(&leases[j], false));
                assert(row_views(out@) =~= before.push(row_view(leases@[j as int])));
            }
            j = j + 1;
            assert(row_views(out@) =~= first + rows_where(leases@, false, j as nat));
        }
        out
    }
}

/// The rows of leases, in the order in which they came.
pub open spec fn rows_of(leases: Seq<LeaseView>) -> Seq<RowView> {
    Seq::new(leases.len(), |i: int| row_view(leases[i]))
}

/// Every lease has exactly one row, and no row is anything else.
pub proof fn law_every_lease_has_a_row(leases: Seq<LeaseView>, n: nat)
    requires
        n <= leases.len(),
    ensures
        rows_where(leases, true, n).to_multiset().add(
            rows_where(leases, false, n).to_multiset(),
        ) == rows_of(leases.take(n as int)).to_multiset(),
    decreases n,
{
    broadcast use vstd::seq_lib::group_to_multiset_ensures;

    if n == 0 {
        assert(rows_of(leases.take(0)) =~= Seq::empty());
        assert(Seq::<RowView>::empty().to_multiset() =~= vstd::multiset::Multiset::empty());
    } else {
        law_every_lease_has_a_row(leases, (n - 1) as nat);
        assert(rows_of(leases.take(n as int)) =~= rows_of(leases.take(n - 1)).push(
            row_view(leases[n - 1]),
        ));
    }
}

/// Every row of a running lease is above every other.
pub proof fn law_running_leases_come_first(leases: Seq<LeaseView>, n: nat)
    requires
        n <= leases.len(),
    ensures
        forall|i: int|
            0 <= i < rows_where(leases, true, n).len() ==> (#[trigger] rows_where(
                leases,
                true,
                n,
            )[i]).color == Color::Green,
        forall|i: int|
            0 <= i < rows_where(leases, false, n).len() ==> (#[trigger] rows_where(
                leases,
                false,
                n,
            )[i]).color == Color::DarkGray,
    decreases n,
{
    if n > 0 {
        law_running_leases_come_first(leases, (n - 1) as nat);
    }
}

/// A row shows its lease: number, state, age, tool, class, cores and label, the texts
/// without anything that controls the terminal; it is green while it runs.
pub proof fn law_a_row_shows_its_lease(lease: LeaseView)
    ensures
        ({
            let row = row_view(lease);
            &&& row.cells.len() == 7
            &&& row.cells[0] == "#"@ + decimal_of(lease.id as nat)
            &&& row.cells[1] == lease.state@
            &&& row.cells[2] == minutes_text(lease.elapsed_ms as nat)
            &&& row.cells[3] == printed(lease.tool@)
            &&& row.cells[4] == lease.class@
            &&& row.cells[5] == cores_text(lease)
            &&& row.cells[6] == printed(lease.label@)
            &&& row.color == Color::Green <==> lease.state@ == "running"@
        }),
{
}

} // verus!
