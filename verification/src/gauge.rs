//! The gauges of the cores: one cell each, filled round its edge.

use vstd::prelude::*;

verus! {

/// A colour.
#[derive(Debug, Clone, Copy, PartialEq, Eq, Structural)]
pub enum Color {
    Green,
    Yellow,
    Red,
    Cyan,
    DarkGray,
}

/// A part of the screen.
#[derive(Debug, Clone, Copy, PartialEq, Eq, Structural)]
pub struct Rect {
    pub x: u16,
    pub y: u16,
    pub width: u16,
    pub height: u16,
}

/// The size of a gauge, without the padding round it.
#[derive(Debug, Clone, Copy, PartialEq, Eq, Structural)]
pub struct SizeVariant {
    pub cols: u16,
    pub rows: u16,
}

/// The sizes, largest first. The last is the narrowest that holds three digits.
pub open spec fn sizes() -> Seq<SizeVariant> {
    seq![
        SizeVariant { cols: 7, rows: 5 },
        SizeVariant { cols: 5, rows: 4 },
        SizeVariant { cols: 5, rows: 3 },
    ]
}

/// The size at a place in the list.
pub fn size_at(i: usize) -> (r: SizeVariant)
    requires
        i < 3,
    ensures
        r == sizes()[i as int],
{
    if i == 0 {
        SizeVariant { cols: 7, rows: 5 }
    } else if i == 1 {
        SizeVariant { cols: 5, rows: 4 }
    } else {
        SizeVariant { cols: 5, rows: 3 }
    }
}

/// Whether a grid of `n` gauges of that size fits, each with a column and a row of
/// padding.
pub open spec fn fits(sz: SizeVariant, area: Rect, n: nat) -> bool {
    let cw = sz.cols + 1;
    let rh = sz.rows + 1;
    &&& cw <= area.width
    &&& rh <= area.height
    &&& (area.width as int / cw) * (area.height as int / rh) >= n
}

/// The largest size that fits, and the smallest where none does.
pub open spec fn size_for(area: Rect, n: nat) -> SizeVariant {
    if fits(sizes()[0], area, n) {
        sizes()[0]
    } else if fits(sizes()[1], area, n) {
        sizes()[1]
    } else {
        sizes()[2]
    }
}

/// The largest size of which `n` gauges fit into `area`, and the smallest where
/// none does.
pub fn pick_size(area: Rect, n: u16) -> (r: SizeVariant)
    ensures
        r == size_for(area, n as nat),
{
    let mut i: usize = 0;
    while i < 2
        invariant
            i <= 2,
            forall|j: int| 0 <= j < i ==> !fits(#[trigger] sizes()[j], area, n as nat),
        decreases 2 - i,
    {
        let sz = size_at(i);
        let cw: u32 = sz.cols as u32 + 1;
        let rh: u32 = sz.rows as u32 + 1;
        if cw <= area.width as u32 && rh <= area.height as u32 {
            let cols: u32 = area.width as u32 / cw;
            let rows: u32 = area.height as u32 / rh;
            assert(cols <= 65535 && rows <= 65535);
            assert(cols * rows <= 65535 * 65535) by (nonlinear_arith)
                requires
                    cols <= 65535,
                    rows <= 65535,
            ;
            let cells: u32 = cols * rows;
            if cells >= n as u32 {
                proof {
                    if i == 1 {
                        assert(!fits(sizes()[0], area, n as nat));
                    }
                }
                return sz;
            }
        }
        assert(!fits(sizes()[i as int], area, n as nat));
        i = i + 1;
    }
    proof {
        assert(!fits(sizes()[0], area, n as nat));
        assert(!fits(sizes()[1], area, n as nat));
    }
    size_at(2)
}

/// The way round the edge of a gauge, clockwise from the gap in the middle of its
/// lower edge: as (column, row).
pub open spec fn edge(sz: SizeVariant) -> Seq<(u16, u16)> {
    let center = sz.cols / 2;
    let bottom = (sz.rows - 1) as u16;
    Seq::new(
        if center > 1 {
            (center - 1) as nat
        } else {
            0
        },
        |i: int| ((center - 1 - i) as u16, bottom),
    ) + Seq::new(sz.rows as nat, |i: int| (0u16, (sz.rows - 1 - i) as u16)) + Seq::new(
        (sz.cols - 1) as nat,
        |i: int| ((i + 1) as u16, 0u16),
    ) + Seq::new(
        (sz.rows - 1) as nat,
        |i: int| ((sz.cols - 1) as u16, (i + 1) as u16),
    ) + Seq::new(
        if sz.cols > center + 2 {
            (sz.cols - 2 - center) as nat
        } else {
            0
        },
        |i: int| ((sz.cols - 2 - i) as u16, bottom),
    )
}

/// The way round the edge of a gauge.
pub fn perimeter(sz: SizeVariant) -> (r: Vec<(u16, u16)>)
    requires
        sz.cols >= 1,
        sz.rows >= 1,
    ensures
        r@ == edge(sz),
{
    let mut p: Vec<(u16, u16)> = Vec::new();
    let center: u16 = sz.cols / 2;
    let bottom: u16 = sz.rows - 1;
    let ghost first = Seq::new(
        if center > 1 {
            (center - 1) as nat
        } else {
            0
        },
        |i: int| ((center - 1 - i) as u16, bottom),
    );
    let ghost second = Seq::new(sz.rows as nat, |i: int| (0u16, (sz.rows - 1 - i) as u16));
    let ghost third = Seq::new((sz.cols - 1) as nat, |i: int| ((i + 1) as u16, 0u16));
    let ghost fourth = Seq::new(
        (sz.rows - 1) as nat,
        |i: int| ((sz.cols - 1) as u16, (i + 1) as u16),
    );
    let ghost fifth = Seq::new(
        if sz.cols > center + 2 {
            (sz.cols - 2 - center) as nat
        } else {
            0
        },
        |i: int| ((sz.cols - 2 - i) as u16, bottom),
    );
    let mut c: u16 = center;
    assert(first.take(0) =~= p@);
    while c > 1
        invariant
            c <= center,
            c >= 1 || center < 1,
            first.len() == if center > 1 {
                center - 1
            } else {
                0
            },
            forall|i: int|
                0 <= i < first.len() ==> (#[trigger] first[i]) == ((center - 1 - i) as u16, bottom),
            p@ == first.take(center - c),
        decreases c,
    {
        p.push(((c - 1) as u16, bottom));
        assert(p@ =~= first.take(center - c + 1));
        c = c - 1;
    }
    assert(p@ =~= first);
    let mut r: u16 = sz.rows;
    assert(second.take(0) =~= Seq::empty());
    assert(first + second.take(0) =~= first);
    while r > 0
        invariant
            r <= sz.rows,
            second.len() == sz.rows,
            forall|i: int|
                0 <= i < second.len() ==> (#[trigger] second[i]) == (
                    0u16,
                    (sz.rows - 1 - i) as u16,
                ),
            p@ == first + second.take(sz.rows - r),
        decreases r,
    {
        p.push((0, (r - 1) as u16));
        assert(p@ =~= first + second.take(sz.rows - r + 1));
        r = r - 1;
    }
    assert(second.take(sz.rows as int) =~= second);
    let ghost two = first + second;
    let mut c: u16 = 1;
    assert(two + third.take(0) =~= two);
    while c < sz.cols
        invariant
            1 <= c <= sz.cols,
            third.len() == sz.cols - 1,
            forall|i: int| 0 <= i < third.len() ==> (#[trigger] third[i]) == ((i + 1) as u16, 0u16),
            p@ == two + third.take(c - 1),
        decreases sz.cols - c,
    {
        p.push((c, 0));
        assert(p@ =~= two + third.take(c as int));
        c = c + 1;
    }
    assert(third.take(sz.cols - 1) =~= third);
    let ghost three = two + third;
    let mut r: u16 = 1;
    assert(three + fourth.take(0) =~= three);
    while r < sz.rows
        invariant
            1 <= sz.cols,
            1 <= r <= sz.rows,
            fourth.len() == sz.rows - 1,
            forall|i: int|
                0 <= i < fourth.len() ==> (#[trigger] fourth[i]) == (
                    (sz.cols - 1) as u16,
                    (i + 1) as u16,
                ),
            p@ == three + fourth.take(r - 1),
        decreases sz.rows - r,
    {
        p.push(((sz.cols - 1) as u16, r));
        assert(p@ =~= three + fourth.take(r as int));
        r = r + 1;
    }
    assert(fourth.take(sz.rows - 1) =~= fourth);
    let ghost four = three + fourth;
    let mut c: u16 = sz.cols - 1;
    assert(four + fifth.take(0) =~= four);
    while c > center + 1
        invariant
            center == sz.cols / 2,
            1 <= sz.cols,
            c <= sz.cols - 1,
            sz.cols > center + 2 ==> c >= center + 1,
            sz.cols <= center + 2 ==> c == sz.cols - 1,
            fifth.len() == if sz.cols > center + 2 {
                sz.cols - 2 - center
            } else {
                0
            },
            forall|i: int|
                0 <= i < fifth.len() ==> (#[trigger] fifth[i]) == ((sz.cols - 2 - i) as u16, bottom),
            p@ == four + fifth.take(sz.cols - 1 - c),
        decreases c,
    {
        p.push(((c - 1) as u16, bottom));
        assert(p@ =~= four + fifth.take(sz.cols - c));
        c = c - 1;
    }
    assert(four + fifth.take(sz.cols - 1 - c) =~= four + fifth);
    p
}

/// The colour for a usage.
pub fn usage_color(usage: u8) -> (r: Color)
    ensures
        r == color_of(usage),
{
    if usage < 40 {
        Color::Green
    } else if usage < 75 {
        Color::Yellow
    } else {
        Color::Red
    }
}

/// The colour for a usage: green below 40, red from 75 on.
pub open spec fn color_of(usage: u8) -> Color {
    if usage < 40 {
        Color::Green
    } else if usage < 75 {
        Color::Yellow
    } else {
        Color::Red
    }
}

/// The shade at a distance from the leading edge: darker further back.
pub open spec fn shade_of(distance: int) -> char {
    if distance >= 3 {
        '█'
    } else if distance == 2 {
        '▓'
    } else if distance == 1 {
        '▒'
    } else {
        '░'
    }
}

/// The shade at a distance from the leading edge.
pub fn shade_for_distance(distance_from_edge: i32) -> (r: char)
    ensures
        r == shade_of(distance_from_edge as int),
{
    if distance_from_edge >= 3 {
        '█'
    } else if distance_from_edge == 2 {
        '▓'
    } else if distance_from_edge == 1 {
        '▒'
    } else {
        '░'
    }
}

/// One character on the screen.
#[derive(Debug, Clone, Copy, PartialEq, Eq, Structural)]
pub struct Cell {
    pub x: u16,
    pub y: u16,
    pub ch: char,
    pub color: Color,
}

/// How many steps of an edge of `len` a usage fills, rounded.
pub open spec fn filled(usage: u8, len: nat) -> nat {
    let f = (usage as nat * len + 50) / 100;
    if f > len {
        len
    } else {
        f
    }
}

/// What stands at a step of the edge.
pub open spec fn edge_cell(
    x0: nat,
    y0: nat,
    at: (u16, u16),
    k: int,
    fill: nat,
    usage: u8,
    skeleton: Color,
) -> Cell {
    Cell {
        x: (x0 + at.0) as u16,
        y: (y0 + at.1) as u16,
        ch: if k < fill {
            shade_of(fill - 1 - k)
        } else {
            '░'
        },
        color: if k < fill {
            color_of(usage)
        } else {
            skeleton
        },
    }
}

/// The three characters of a usage, to the right.
pub open spec fn usage_text(usage: u8) -> Seq<char> {
    let n = usage as nat;
    seq![
        if n >= 100 {
            crate::text::digit(n / 100)
        } else {
            ' '
        },
        if n >= 10 {
            crate::text::digit(n / 10 % 10)
        } else {
            ' '
        },
        crate::text::digit(n % 10),
    ]
}

/// The edge of a gauge with its upper left corner at (`x0`, `y0`).
pub open spec fn ring_at(
    x0: nat,
    y0: nat,
    sz: SizeVariant,
    usage: u8,
    skeleton: Color,
) -> Seq<Cell> {
    let e = edge(sz);
    let fill = filled(usage, e.len());
    Seq::new(e.len(), |k: int| edge_cell(x0, y0, e[k], k, fill, usage, skeleton))
}

/// A character of the usage in the middle of a gauge.
pub open spec fn label_cell(x0: nat, y0: nat, sz: SizeVariant, usage: u8, j: int) -> Cell {
    Cell {
        x: (x0 + (sz.cols - 3) / 2 + j) as u16,
        y: (y0 + sz.rows / 2) as u16,
        ch: usage_text(usage)[j],
        color: color_of(usage),
    }
}

/// The usage in the middle of a gauge.
pub open spec fn label_at(x0: nat, y0: nat, sz: SizeVariant, usage: u8) -> Seq<Cell> {
    seq![
        label_cell(x0, y0, sz, usage, 0),
        label_cell(x0, y0, sz, usage, 1),
        label_cell(x0, y0, sz, usage, 2),
    ]
}

/// One gauge with its upper left corner at (`x0`, `y0`): its edge, then its usage in
/// the middle.
pub open spec fn gauge_at(
    x0: nat,
    y0: nat,
    sz: SizeVariant,
    usage: u8,
    skeleton: Color,
) -> Seq<Cell> {
    ring_at(x0, y0, sz, usage, skeleton) + label_at(x0, y0, sz, usage)
}

/// Gauges in a row of `area`, at least one.
pub open spec fn per_row(area: Rect, sz: SizeVariant) -> nat {
    let n = area.width as nat / (sz.cols as nat + 1);
    if n < 1 {
        1
    } else {
        n
    }
}

/// The left edge of gauge `i`, behind a column of padding.
pub open spec fn left_of(area: Rect, sz: SizeVariant, i: nat) -> nat {
    area.x as nat + i % per_row(area, sz) * (sz.cols as nat + 1) + 1
}

/// The upper edge of gauge `i`.
pub open spec fn top_of(area: Rect, sz: SizeVariant, i: nat) -> nat {
    area.y as nat + i / per_row(area, sz) * (sz.rows as nat + 1)
}

/// Whether gauge `i` lies inside `area`.
pub open spec fn inside(area: Rect, sz: SizeVariant, i: nat) -> bool {
    left_of(area, sz, i) + sz.cols <= area.x + area.width && top_of(area, sz, i) + sz.rows
        <= area.y + area.height
}

/// The gauges before `n`, up to the first that does not fit any more.
pub open spec fn grid(
    area: Rect,
    sz: SizeVariant,
    usages: Seq<u8>,
    skeleton: Color,
    n: nat,
) -> Seq<Cell>
    decreases n,
{
    if n == 0 {
        Seq::empty()
    } else {
        let i = (n - 1) as nat;
        let before = grid(area, sz, usages, skeleton, i);
        if forall|j: nat| j <= i ==> #[trigger] inside(area, sz, j) {
            before + gauge_at(
                left_of(area, sz, i),
                top_of(area, sz, i),
                sz,
                usages[i as int],
                skeleton,
            )
        } else {
            before
        }
    }
}

/// The gauges of all cores in `area`: nothing where there are none, or no room.
pub open spec fn gauge_grid(area: Rect, usages: Seq<u8>, skeleton: Color) -> Seq<Cell> {
    if usages.len() == 0 || area.width < 3 || area.height < 2 {
        Seq::empty()
    } else {
        grid(area, size_for(area, usages.len()), usages, skeleton, usages.len())
    }
}

fn text_digit(usage: u8, j: usize) -> (r: char)
    requires
        j < 3,
    ensures
        r == usage_text(usage)[j as int],
{
    if j == 0 {
        if usage >= 100 {
            (48 + usage / 100) as char
        } else {
            ' '
        }
    } else if j == 1 {
        if usage >= 10 {
            (48 + usage / 10 % 10) as char
        } else {
            ' '
        }
    } else {
        (48 + usage % 10) as char
    }
}

proof fn lemma_edge_inside(sz: SizeVariant, k: int)
    requires
        sz.cols >= 1,
        sz.rows >= 1,
        0 <= k < edge(sz).len(),
    ensures
        edge(sz)[k].0 < sz.cols,
        edge(sz)[k].1 < sz.rows,
{
}

fn draw_gauge(
    out: &mut Vec<Cell>,
    x0: u16,
    y0: u16,
    sz: SizeVariant,
    perim: &[(u16, u16)],
    usage: u8,
    skeleton: Color,
)
    requires
        3 <= sz.cols <= 7,
        1 <= sz.rows <= 5,
        perim@ == edge(sz),
        x0 + sz.cols <= u16::MAX,
        y0 + sz.rows <= u16::MAX,
    ensures
        final(out)@ == old(out)@ + gauge_at(x0 as nat, y0 as nat, sz, usage, skeleton),
{
    let ghost before = out@;
    let ghost e = edge(sz);
    let ghost fill = filled(usage, e.len());
    let ghost ring = Seq::new(
        e.len(),
        |k: int| edge_cell(x0 as nat, y0 as nat, e[k], k, fill, usage, skeleton),
    );
    assert(e.len() <= 40);
    let len: i32 = perim.len() as i32;
    assert(usage * len <= 255 * 40) by (nonlinear_arith)
        requires
            usage <= 255,
            0 <= len <= 40,
    ;
    let raw: i32 = (usage as i32 * len + 50) / 100;
    let full: i32 = if raw > len {
        len
    } else {
        raw
    };
    assert(full == fill) by {
        assert(usage as nat * e.len() == usage * len);
    }
    let fg = usage_color(usage);
    let mut k: usize = 0;
    assert(before + ring.take(0) =~= before);
    while k < perim.len()
        invariant
            3 <= sz.cols <= 7,
            1 <= sz.rows <= 5,
            perim@ == e,
            e == edge(sz),
            e.len() <= 40,
            x0 + sz.cols <= u16::MAX,
            y0 + sz.rows <= u16::MAX,
            0 <= full <= 40,
            full == fill,
            fg == color_of(usage),
            k <= e.len(),
            ring.len() == e.len(),
            forall|i: int|
                0 <= i < e.len() ==> (#[trigger] ring[i]) == edge_cell(
                    x0 as nat,
                    y0 as nat,
                    e[i],
                    i,
                    fill,
                    usage,
                    skeleton,
                ),
            out@ == before + ring.take(k as int),
        decreases e.len() - k,
    {
        proof {
            lemma_edge_inside(sz, k as int);
        }
        let (cx, cy) = perim[k];
        let lit = (k as i32) < full;
        let ch = if lit {
            shade_for_distance(full - 1 - k as i32)
        } else {
            '░'
        };
        out.push(
            Cell {
                x: x0 + cx,
                y: y0 + cy,
                ch,
                color: if lit {
                    fg
                } else {
                    skeleton
                },
            },
        );
        assert(out@ =~= before + ring.take(k + 1));
        k = k + 1;
    }
    assert(ring.take(k as int) =~= ring);
    let ghost mid = out@;
    let tx: u16 = x0 + (sz.cols - 3) / 2;
    let ty: u16 = y0 + sz.rows / 2;
    out.push(Cell { x: tx, y: ty, ch: text_digit(usage, 0), color: fg });
    out.push(Cell { x: tx + 1, y: ty, ch: text_digit(usage, 1), color: fg });
    out.push(Cell { x: tx + 2, y: ty, ch: text_digit(usage, 2), color: fg });
    assert(out@ =~= mid + label_at(x0 as nat, y0 as nat, sz, usage));
    assert(ring =~= ring_at(x0 as nat, y0 as nat, sz, usage, skeleton));
    assert(out@ =~= before + gauge_at(x0 as nat, y0 as nat, sz, usage, skeleton));
}

proof fn lemma_grid_stops(
    area: Rect,
    sz: SizeVariant,
    usages: Seq<u8>,
    skeleton: Color,
    i: nat,
    n: nat,
)
    requires
        i <= n,
        !inside(area, sz, i),
    ensures
        grid(area, sz, usages, skeleton, n) == grid(area, sz, usages, skeleton, i),
    decreases n,
{
    if n > i {
        lemma_grid_stops(area, sz, usages, skeleton, i, (n - 1) as nat);
        assert(!(forall|j: nat| j <= n - 1 ==> #[trigger] inside(area, sz, j)));
    }
}

/// The gauges of all cores: a usage in percent for each, and the colour of what is not
/// filled.
#[derive(Debug)]
pub struct CompactGauge<'a> {
    pub usages: &'a [u8],
    pub skeleton: Color,
}

impl<'a> CompactGauge<'a> {
    /// The gauges as characters on the screen, in the order in which they are drawn.
    pub fn cells(&self, area: Rect) -> (r: Vec<Cell>)
        requires
            self.usages@.len() <= u16::MAX,
            area.x + area.width <= u16::MAX,
            area.y + area.height <= u16::MAX,
        ensures
            r@ == gauge_grid(area, self.usages@, self.skeleton),
    {
        let usages = self.usages;
        let skeleton = self.skeleton;
        let mut out: Vec<Cell> = Vec::new();
        if usages.len() == 0 || area.width < 3 || area.height < 2 {
            return out;
        }
        let sz = pick_size(area, usages.len() as u16);
        let cell_w: u32 = sz.cols as u32 + 1;
        let cell_h: u32 = sz.rows as u32 + 1;
        let fit: u32 = area.width as u32 / cell_w;
        let per: u32 = if fit < 1 {
            1
        } else {
            fit
        };
        let perim = perimeter(sz);
        let mut i: usize = 0;
        while i < usages.len()
            invariant
                usages == self.usages,
                skeleton == self.skeleton,
                usages@.len() <= u16::MAX,
                gauge_grid(area, usages@, skeleton) == grid(area, sz, usages@, skeleton, usages@.len()),
                area.x + area.width <= u16::MAX,
                area.y + area.height <= u16::MAX,
                sz == size_for(area, usages@.len()),
                cell_w == sz.cols + 1,
                cell_h == sz.rows + 1,
                per == per_row(area, sz),
                1 <= per <= 65535,
                perim@ == edge(sz),
                i <= usages@.len(),
                forall|j: nat| j < i ==> #[trigger] inside(area, sz, j),
                out@ == grid(area, sz, usages@, skeleton, i as nat),
            decreases usages@.len() - i,
        {
            let row: u32 = i as u32 / per;
            let col: u32 = i as u32 % per;
            assert(row <= 65535) by (nonlinear_arith)
                requires
                    row == i as u32 / per,
                    per >= 1,
                    i <= 65535,
            ;
            assert(col < per);
            assert(col * cell_w <= 65535 * 8) by (nonlinear_arith)
                requires
                    col <= 65535,
                    cell_w <= 8,
            ;
            assert(row * cell_h <= 65535 * 6) by (nonlinear_arith)
                requires
                    row <= 65535,
                    cell_h <= 6,
            ;
            let x0: u32 = area.x as u32 + col * cell_w + 1;
            let y0: u32 = area.y as u32 + row * cell_h;
            assert(x0 == left_of(area, sz, i as nat));
            assert(y0 == top_of(area, sz, i as nat));
            if x0 + sz.cols as u32 > area.x as u32 + area.width as u32 || y0 + sz.rows as u32 > area.y as u32
                + area.height as u32 {
                proof {
                    lemma_grid_stops(area, sz, usages@, skeleton, i as nat, usages@.len());
                }
                return out;
            }
            assert(inside(area, sz, i as nat));
            draw_gauge(
                &mut out,
                x0 as u16,
                y0 as u16,
                sz,
                perim.as_slice(),
                usages[i],
                skeleton,
            );
            i = i + 1;
            assert(forall|j: nat| j <= i - 1 ==> #[trigger] inside(area, sz, j));
        }
        out
    }
}

/// The way round a gauge visits no place twice.
pub proof fn law_the_edge_visits_no_place_twice(sz: SizeVariant, i: int, j: int)
    requires
        sz.cols >= 2,
        sz.rows >= 2,
        0 <= i < j < edge(sz).len(),
    ensures
        edge(sz)[i] != edge(sz)[j],
{
}

/// Every character of a gauge that fits lies inside the area it is drawn in.
pub proof fn law_a_gauge_stays_inside_its_area(area: Rect, usages: Seq<u8>, skeleton: Color, i: nat)
    requires
        area.x + area.width <= u16::MAX,
        area.y + area.height <= u16::MAX,
        i < usages.len(),
        inside(area, size_for(area, usages.len()), i),
    ensures
        ({
            let sz = size_for(area, usages.len());
            let cells = gauge_at(
                left_of(area, sz, i),
                top_of(area, sz, i),
                sz,
                usages[i as int],
                skeleton,
            );
            forall|k: int|
                0 <= k < cells.len() ==> area.x <= (#[trigger] cells[k]).x < area.x + area.width
                    && area.y <= cells[k].y < area.y + area.height
        }),
{
    let sz = size_for(area, usages.len());
    let x0 = left_of(area, sz, i);
    let y0 = top_of(area, sz, i);
    let e = edge(sz);
    let per = per_row(area, sz);
    assert(i % per * (sz.cols as nat + 1) >= 0) by (nonlinear_arith)
        requires
            per > 0,
    ;
    assert(i / per * (sz.rows as nat + 1) >= 0) by (nonlinear_arith)
        requires
            per > 0,
    ;
    let cells = gauge_at(x0, y0, sz, usages[i as int], skeleton);
    assert forall|k: int| 0 <= k < cells.len() implies area.x <= (#[trigger] cells[k]).x < area.x
        + area.width && area.y <= cells[k].y < area.y + area.height by {
        let ring = ring_at(x0, y0, sz, usages[i as int], skeleton);
        if k < e.len() {
            lemma_edge_inside(sz, k);
            assert(cells[k] == ring[k]);
        } else {
            let j = k - e.len();
            assert(cells[k] == label_cell(x0, y0, sz, usages[i as int], j));
        }
    }
}

/// The colour of a gauge says how busy its core is: green below 40 percent, yellow
/// below 75, red from there on.
pub proof fn law_a_colour_says_how_busy(usage: u8)
    ensures
        color_of(usage) == Color::Green <==> usage < 40,
        color_of(usage) == Color::Yellow <==> 40 <= usage < 75,
        color_of(usage) == Color::Red <==> usage >= 75,
{
}

/// As much of the edge is filled as the core is used, to the nearest place: nothing
/// at 0 percent, everything at 100.
pub proof fn law_the_edge_is_filled_to_the_nearest_place(usage: u8, len: nat)
    requires
        usage <= 100,
    ensures
        100 * filled(usage, len) <= usage * len + 50,
        usage * len < 100 * filled(usage, len) + 50,
        filled(usage, len) <= len,
        filled(100, len) == len,
        filled(0, len) == 0,
{
    let n = usage as nat * len;
    assert(n <= 100 * len) by (nonlinear_arith)
        requires
            n == usage as nat * len,
            usage <= 100,
    ;
    assert((n + 50) / 100 <= len);
    assert(0 * len == 0) by (nonlinear_arith);
}

/// The shade fades towards the end of what is filled: the last place is the
/// lightest, and from the fourth on it is full.
pub proof fn law_the_shade_fades_towards_the_end(distance: int)
    ensures
        distance >= 3 ==> shade_of(distance) == '█',
        shade_of(2) == '▓',
        shade_of(1) == '▒',
        distance <= 0 ==> shade_of(distance) == '░',
{
}

/// Whether a place is on the border of a gauge.
pub open spec fn on_border(sz: SizeVariant, at: (u16, u16)) -> bool {
    &&& at.0 < sz.cols
    &&& at.1 < sz.rows
    &&& at.0 == 0 || at.1 == 0 || at.0 == sz.cols - 1 || at.1 == sz.rows - 1
}

/// The edge is the whole border but for its lowest place in the middle, where it
/// begins and ends.
pub proof fn law_the_edge_is_the_border_but_for_the_gap(sz: SizeVariant, at: (u16, u16))
    requires
        sz.cols >= 3,
        sz.rows >= 2,
    ensures
        edge(sz).contains(at) <==> on_border(sz, at) && at != (
            (sz.cols / 2) as u16,
            (sz.rows - 1) as u16,
        ),
{
    let center = sz.cols / 2;
    let bottom = (sz.rows - 1) as u16;
    let e = edge(sz);
    let a = if center > 1 {
        center - 1
    } else {
        0int
    };
    let b = sz.rows as int;
    let c = sz.cols - 1;
    let d = sz.rows - 1;
    let f = if sz.cols > center + 2 {
        sz.cols - 2 - center
    } else {
        0int
    };
    assert(e.len() == a + b + c + d + f);
    if e.contains(at) {
        let k = choose|k: int| 0 <= k < e.len() && e[k] == at;
        if k < a {
            assert(at == ((center - 1 - k) as u16, bottom));
        } else if k < a + b {
            assert(at == (0u16, (sz.rows - 1 - (k - a)) as u16));
        } else if k < a + b + c {
            assert(at == ((k - a - b + 1) as u16, 0u16));
        } else if k < a + b + c + d {
            assert(at == ((sz.cols - 1) as u16, (k - a - b - c + 1) as u16));
        } else {
            assert(at == ((sz.cols - 2 - (k - a - b - c - d)) as u16, bottom));
        }
    }
    if on_border(sz, at) && at != (center as u16, bottom) {
        if at.0 == 0 {
            assert(e[a + (sz.rows - 1 - at.1)] == at);
        } else if at.1 == 0 {
            assert(e[a + b + at.0 - 1] == at);
        } else if at.0 == sz.cols - 1 {
            assert(e[a + b + c + at.1 - 1] == at);
        } else if at.0 < center {
            assert(e[center - 1 - at.0] == at);
        } else {
            assert(e[a + b + c + d + (sz.cols - 2 - at.0)] == at);
        }
    }
}

/// The largest size is taken that has room for every core, and the smallest where
/// none has. There is room for as many as stand side by side and one above the
/// other, each with a free column and row.
pub proof fn law_the_largest_size_with_room_is_taken(area: Rect, n: nat)
    ensures
        ({
            let room = |cols: int, rows: int|
                (area.width as int / (cols + 1)) * (area.height as int / (rows + 1)) >= n
                    && area.width > cols && area.height > rows;
            let sz = size_for(area, n);
            &&& room(7, 5) ==> sz == (SizeVariant { cols: 7, rows: 5 })
            &&& !room(7, 5) && room(5, 4) ==> sz == (SizeVariant { cols: 5, rows: 4 })
            &&& !room(7, 5) && !room(5, 4) ==> sz == (SizeVariant { cols: 5, rows: 3 })
        }),
{
    assert(sizes()[0] == (SizeVariant { cols: 7, rows: 5 }));
    assert(sizes()[1] == (SizeVariant { cols: 5, rows: 4 }));
    assert(sizes()[2] == (SizeVariant { cols: 5, rows: 3 }));
}

/// Gauges stand in rows: the one in row `r` and column `c` has a free column to its
/// left and to its right, and a free row below it.
pub proof fn law_gauges_stand_in_rows(area: Rect, sz: SizeVariant, r: nat, c: nat)
    requires
        c < per_row(area, sz),
    ensures
        left_of(area, sz, r * per_row(area, sz) + c) == area.x + c * (sz.cols + 1) + 1,
        top_of(area, sz, r * per_row(area, sz) + c) == area.y + r * (sz.rows + 1),
        area.width > sz.cols ==> per_row(area, sz) * (sz.cols + 1) <= area.width,
        area.width > sz.cols ==> area.width < (per_row(area, sz) + 1) * (sz.cols + 1),
        area.width <= sz.cols ==> per_row(area, sz) == 1,
{
    let per = per_row(area, sz);
    let i = r * per + c;
    assert(i % per == c && i / per == r) by (nonlinear_arith)
        requires
            i == r * per + c,
            c < per,
            r >= 0,
            c >= 0,
    ;
    let w = area.width as int;
    let d = sz.cols as int + 1;
    assert(w / d * d <= w < (w / d + 1) * d) by (nonlinear_arith)
        requires
            d > 0,
            w >= 0,
    ;
    assert(w >= d ==> w / d >= 1) by (nonlinear_arith)
        requires
            d > 0,
    ;
    assert(w < d ==> w / d == 0) by (nonlinear_arith)
        requires
            d > 0,
            w >= 0,
    ;
}

/// The number in a gauge is its core's usage, with blanks in front up to three
/// places.
pub proof fn law_the_number_in_a_gauge_is_its_usage(usage: u8)
    requires
        usage <= 100,
    ensures
        usage_text(usage).len() == 3,
        usage_text(usage).skip(3 - crate::text::decimal_of(usage as nat).len())
            == crate::text::decimal_of(usage as nat),
        forall|i: int|
            0 <= i < 3 - crate::text::decimal_of(usage as nat).len() ==> usage_text(usage)[i] == ' ',
{
    let n = usage as nat;
    reveal_with_fuel(crate::text::decimal_of, 4);
    let d = crate::text::decimal_of(n);
    if n < 10 {
        assert(d.len() == 1);
        assert(usage_text(usage).skip(2) =~= d);
    } else if n < 100 {
        assert(d.len() == 2);
        assert(usage_text(usage).skip(1) =~= d);
    } else {
        assert(n == 100);
        assert(d.len() == 3);
        assert(usage_text(usage).skip(0) =~= d);
    }
}

/// A gauge shows its core's usage twice: its edge is drawn place by place, in the
/// colour of the usage as far as it is filled and in the skeleton's from there on,
/// and the number stands in the middle row, in three places side by side.
pub proof fn law_a_gauge_shows_its_usage(
    x0: nat,
    y0: nat,
    sz: SizeVariant,
    usage: u8,
    skeleton: Color,
    k: int,
)
    requires
        3 <= sz.cols,
        1 <= sz.rows,
        x0 + sz.cols <= u16::MAX,
        y0 + sz.rows <= u16::MAX,
    ensures
        ({
            let cells = gauge_at(x0, y0, sz, usage, skeleton);
            let e = edge(sz);
            let n = filled(usage, e.len());
            &&& cells.len() == e.len() + 3
            &&& 0 <= k < e.len() ==> cells[k].x == x0 + e[k].0 && cells[k].y == y0 + e[k].1
            &&& 0 <= k < n && k < e.len() ==> cells[k].color == color_of(usage) && cells[k].ch
                == shade_of(n - 1 - k)
            &&& n <= k < e.len() ==> cells[k].color == skeleton && cells[k].ch == '░'
            &&& 0 <= k < 3 ==> {
                let c = cells[e.len() + k];
                &&& c.ch == usage_text(usage)[k]
                &&& c.color == color_of(usage)
                &&& c.x == x0 + (sz.cols - 3) / 2 + k
                &&& c.y == y0 + sz.rows / 2
            }
        }),
{
    if 0 <= k < edge(sz).len() {
        lemma_edge_inside(sz, k);
    }
}

/// Every core whose gauge has room, with those before it, is drawn at its place.
pub proof fn law_every_gauge_with_room_is_drawn(
    area: Rect,
    sz: SizeVariant,
    usages: Seq<u8>,
    skeleton: Color,
    n: nat,
    i: nat,
    k: int,
)
    requires
        i < n <= usages.len(),
        forall|j: nat| j <= i ==> #[trigger] inside(area, sz, j),
        0 <= k < gauge_at(
            left_of(area, sz, i),
            top_of(area, sz, i),
            sz,
            usages[i as int],
            skeleton,
        ).len(),
    ensures
        grid(area, sz, usages, skeleton, n).contains(
            gauge_at(
                left_of(area, sz, i),
                top_of(area, sz, i),
                sz,
                usages[i as int],
                skeleton,
            )[k],
        ),
    decreases n,
{
    let mine = gauge_at(
        left_of(area, sz, i),
        top_of(area, sz, i),
        sz,
        usages[i as int],
        skeleton,
    );
    let m = (n - 1) as nat;
    let before = grid(area, sz, usages, skeleton, m);
    let all = grid(area, sz, usages, skeleton, n);
    if i == m {
        assert(all == before + mine);
        assert(all[before.len() + k] == mine[k]);
    } else {
        law_every_gauge_with_room_is_drawn(area, sz, usages, skeleton, m, i, k);
        let j = choose|j: int| 0 <= j < before.len() && before[j] == mine[k];
        assert(all[j] == mine[k]);
    }
}

/// Nothing is drawn for no cores, nor in an area too small for anything; everywhere
/// else the gauges are drawn in the largest size that has room for them.
pub proof fn law_an_area_with_room_is_drawn_in(area: Rect, usages: Seq<u8>, skeleton: Color)
    ensures
        usages.len() == 0 || area.width < 3 || area.height < 2 ==> gauge_grid(
            area,
            usages,
            skeleton,
        ).len() == 0,
        usages.len() > 0 && area.width >= 3 && area.height >= 2 ==> gauge_grid(
            area,
            usages,
            skeleton,
        ) == grid(area, size_for(area, usages.len()), usages, skeleton, usages.len()),
{
}

} // verus!
