//! Voronoi: the grid is split into the regions nearest to scattered
//! points, and passages are carved between regions along a spanning tree
//! of the regions.

use vstd::prelude::*;
use crate::algorithms::{all_inside, cell_count, edges_inside, MazeGenerator};
use crate::cell_grid::{CellGrid, CellSet};
use crate::complexity::Complexity;
use crate::connectivity::mended;
use crate::grid::{forward, Grid};
use crate::reach::lemma_carve;
use crate::maze::Maze;
use crate::rng::MazeRng;
use crate::union_find::UnionFind;

verus! {

/// Voronoi, which joins the regions nearest to scattered points.
pub struct Voronoi;

/// How often a point is drawn again when it falls on an earlier one.
pub const REDRAWS: u32 = 100;

/// The square of the Euclidean distance between two cells.
pub open spec fn square_distance(a: (u32, u32), b: (u32, u32)) -> int {
    (a.0 - b.0) * (a.0 - b.0) + (a.1 - b.1) * (a.1 - b.1)
}

/// `best` is the position of the point nearest to `c`, and the first such
/// position.
pub open spec fn nearest_point_at(points: Seq<(u32, u32)>, c: (u32, u32), best: int) -> bool {
    &&& 0 <= best < points.len()
    &&& forall|j: int|
        0 <= j < points.len() ==> {
            &&& square_distance(points[best], c) <= square_distance(#[trigger] points[j], c)
            &&& j < best ==> square_distance(points[best], c) < square_distance(points[j], c)
        }
}

/// The number of points for `total` cells: `5 + floor(15 * complexity)`,
/// at most a quarter of the cells, and at least two.
pub open spec fn points_for(total: int, complexity: Complexity) -> int {
    if 5 + (complexity.value() * 15) / 1_000_000 <= total / 4 {
        (5 + (complexity.value() * 15) / 1_000_000) as int
    } else if total / 4 >= 2 {
        total / 4
    } else {
        2
    }
}

/// The number of points: `5 + floor(15 * complexity)`, at most a quarter
/// of the cells, and at least two.
pub fn point_count(total: u32, complexity: Complexity) -> (count: usize)
    ensures
        2 <= count <= 20,
        count == points_for(total as int, complexity),
{
    let wanted = 5 + complexity.portion(15);
    let quarter = (total / 4) as u64;
    let capped = if wanted <= quarter {
        wanted
    } else {
        quarter
    };
    if capped < 2 {
        2
    } else {
        capped as usize
    }
}

/// The square of the Euclidean distance between two cells.
pub fn squared(a: (u32, u32), b: (u32, u32)) -> (d: u128)
    ensures
        d == square_distance(a, b),
{
    let dx: u128 = if a.0 <= b.0 {
        (b.0 - a.0) as u128
    } else {
        (a.0 - b.0) as u128
    };
    let dy: u128 = if a.1 <= b.1 {
        (b.1 - a.1) as u128
    } else {
        (a.1 - b.1) as u128
    };
    proof {
        assert(dx * dx <= 0xFFFF_FFFF * 0xFFFF_FFFF) by (nonlinear_arith)
            requires
                0 <= dx <= 0xFFFF_FFFF,
        ;
        assert(dy * dy <= 0xFFFF_FFFF * 0xFFFF_FFFF) by (nonlinear_arith)
            requires
                0 <= dy <= 0xFFFF_FFFF,
        ;
        assert(dx * dx == (a.0 - b.0) * (a.0 - b.0)) by (nonlinear_arith)
            requires
                dx == a.0 - b.0 || dx == b.0 - a.0,
        ;
        assert(dy * dy == (a.1 - b.1) * (a.1 - b.1)) by (nonlinear_arith)
            requires
                dy == a.1 - b.1 || dy == b.1 - a.1,
        ;
    }
    dx * dx + dy * dy
}

/// The position of the point nearest to `c`; of several at the same
/// distance, the first.
pub fn nearest_point(points: &Vec<(u32, u32)>, c: (u32, u32)) -> (best: usize)
    requires
        points@.len() >= 1,
    ensures
        nearest_point_at(points@, c, best as int),
{
    let mut best: usize = 0;
    let mut least = squared(points[0], c);
    let mut i: usize = 1;
    while i < points.len()
        invariant
            1 <= i <= points@.len(),
            0 <= best < i,
            least == square_distance(points@[best as int], c),
            forall|j: int|
                0 <= j < i ==> {
                    &&& square_distance(points@[best as int], c) <= square_distance(
                        #[trigger] points@[j],
                        c,
                    )
                    &&& j < best ==> square_distance(points@[best as int], c) < square_distance(
                        points@[j],
                        c,
                    )
                },
        decreases points@.len() - i,
    {
        let d = squared(points[i], c);
        if d < least {
            best = i;
            least = d;
        }
        i += 1;
    }
    best
}

/// `count` points drawn at random; a point that falls on an earlier one is
/// drawn again, up to `REDRAWS` times.
fn scatter_points(width: u32, height: u32, count: usize, rng: &mut MazeRng) -> (points: Vec<
    (u32, u32),
>)
    requires
        width >= 1,
        height >= 1,
    ensures
        points@.len() == count,
        all_inside(points@, width, height),
{
    let mut points: Vec<(u32, u32)> = Vec::new();
    let mut taken = CellSet::new(width, height);
    let mut i: usize = 0;
    while i < count
        invariant
            width >= 1,
            height >= 1,
            taken.wf(),
            taken.cols() == width,
            taken.lines() == height,
            0 <= i <= count,
            points@.len() == i,
            all_inside(points@, width, height),
        decreases count - i,
    {
        let mut x = rng.coordinate(width);
        let mut y = rng.coordinate(height);
        let mut attempts: u32 = 0;
        while taken.contains(x, y) && attempts < REDRAWS
            invariant
                width >= 1,
                height >= 1,
                taken.wf(),
                x < width,
                y < height,
                attempts <= REDRAWS,
            decreases REDRAWS - attempts,
        {
            x = rng.coordinate(width);
            y = rng.coordinate(height);
            attempts += 1;
        }
        points.push((x, y));
        taken.insert(x, y);
        i += 1;
    }
    points
}

/// For every cell the position of the point nearest to it.
pub fn assign_regions(points: &Vec<(u32, u32)>, width: u32, height: u32) -> (regions: CellGrid<
    usize,
>)
    requires
        points@.len() >= 1,
    ensures
        regions.wf(),
        regions.cols() == width,
        regions.lines() == height,
        forall|c: (u32, u32)|
            regions.in_bounds(c) ==> nearest_point_at(points@, c, #[trigger] regions.at(c) as int),
{
    let mut regions: CellGrid<usize> = CellGrid::new(width, height, 0);
    let mut y: u32 = 0;
    while y < height
        invariant
            points@.len() >= 1,
            regions.wf(),
            regions.cols() == width,
            regions.lines() == height,
            0 <= y <= height,
            forall|c: (u32, u32)|
                regions.in_bounds(c) && c.1 < y ==> nearest_point_at(
                    points@,
                    c,
                    #[trigger] regions.at(c) as int,
                ),
        decreases height - y,
    {
        let mut x: u32 = 0;
        while x < width
            invariant
                points@.len() >= 1,
                regions.wf(),
                regions.cols() == width,
                regions.lines() == height,
                0 <= y < height,
                0 <= x <= width,
                forall|c: (u32, u32)|
                    regions.in_bounds(c) && (c.1 < y || (c.1 == y && c.0 < x)) ==> nearest_point_at(
                        points@,
                        c,
                        #[trigger] regions.at(c) as int,
                    ),
            decreases width - x,
        {
            let best = nearest_point(points, (x, y));
            regions.set(x, y, best);
            x += 1;
        }
        y += 1;
    }
    regions
}

/// Every region named in `list` is one of `count` regions, the smaller
/// name first.
pub open spec fn region_pairs(list: Seq<(usize, usize)>, count: usize) -> bool {
    forall|k: int| 0 <= k < list.len() ==> (#[trigger] list[k]).0 < list[k].1 < count
}

/// The two regions in order, the smaller name first.
pub open spec fn ordered(a: usize, b: usize) -> (usize, usize) {
    if a < b {
        (a, b)
    } else {
        (b, a)
    }
}

/// The position of a pair of regions in the table of noted pairs.
pub open spec fn pair_key(pair: (usize, usize), count: usize) -> int {
    pair.0 * count + pair.1
}

/// `a` and `b` are two regions whose pair is not yet noted.
pub open spec fn fresh_pair(noted: Seq<bool>, a: usize, b: usize, count: usize) -> bool {
    a != b && !noted[pair_key(ordered(a, b), count)]
}

/// The regions `r1` and `r2` are the regions `a` and `b`, in either order.
pub open spec fn same_pair(r1: usize, r2: usize, a: usize, b: usize) -> bool {
    (r1 == a && r2 == b) || (r1 == b && r2 == a)
}

/// The edge `e` leads from a cell to its eastern or southern neighbour,
/// one of the two in region `a` and the other in region `b`.
pub open spec fn borders(regions: &CellGrid<usize>, e: (u32, u32, u32, u32), a: usize, b: usize) -> bool {
    &&& forward(e)
    &&& regions.in_bounds((e.0, e.1))
    &&& regions.in_bounds((e.2, e.3))
    &&& same_pair(regions.at((e.0, e.1)), regions.at((e.2, e.3)), a, b)
}

/// Some cell of region `a` stands next to some cell of region `b`.
pub open spec fn touching(regions: &CellGrid<usize>, a: usize, b: usize) -> bool {
    exists|e: (u32, u32, u32, u32)| #[trigger] borders(regions, e, a, b)
}

/// The table of noted pairs says of every pair whether the list holds it.
pub open spec fn in_step(noted: Seq<bool>, edges: Seq<(usize, usize)>, count: usize) -> bool {
    forall|p: (usize, usize)|
        p.0 < p.1 < count ==> (noted[pair_key(p, count)] <==> #[trigger] edges.contains(p))
}

proof fn lemma_key(p: (usize, usize), q: (usize, usize), count: usize)
    requires
        p.1 < count,
        q.1 < count,
        pair_key(p, count) == pair_key(q, count),
    ensures
        p == q,
{
    assert(p.0 == q.0) by (nonlinear_arith)
        requires
            0 <= p.1 < count,
            0 <= q.1 < count,
            p.0 * count + p.1 == q.0 * count + q.1,
            0 <= p.0,
            0 <= q.0,
    ;
}

/// Noting a pair keeps the table and the list in step and the list free
/// of repeats.
proof fn lemma_noted(noted: Seq<bool>, edges: Seq<(usize, usize)>, a: usize, b: usize, count: usize)
    requires
        a < count,
        b < count,
        noted.len() == count * count,
        in_step(noted, edges, count),
        edges.no_duplicates(),
    ensures
        fresh_pair(noted, a, b, count) ==> {
            &&& in_step(
                noted.update(pair_key(ordered(a, b), count), true),
                edges.push(ordered(a, b)),
                count,
            )
            &&& edges.push(ordered(a, b)).no_duplicates()
        },
        a != b && !fresh_pair(noted, a, b, count) ==> edges.contains(ordered(a, b)),
{
    let pair = ordered(a, b);
    let key = pair_key(pair, count);
    if a != b {
        assert(0 <= key < count * count) by (nonlinear_arith)
            requires
                key == pair.0 * count + pair.1,
                0 <= pair.0 < pair.1,
                pair.1 < count,
        ;
        assert(noted[key] <==> edges.contains(pair));
    }
    if fresh_pair(noted, a, b, count) {
        let after = edges.push(pair);
        let table = noted.update(key, true);
        crate::seqs::lemma_push_contains(edges, pair);
        assert forall|p: (usize, usize)| p.0 < p.1 < count implies (table[pair_key(p, count)]
            <==> #[trigger] after.contains(p)) by {
            assert(noted[pair_key(p, count)] <==> edges.contains(p));
            assert(0 <= pair_key(p, count) < count * count) by (nonlinear_arith)
                requires
                    pair_key(p, count) == p.0 * count + p.1,
                    0 <= p.0 < p.1,
                    p.1 < count,
            ;
            if pair_key(p, count) == key {
                lemma_key(p, pair, count);
            }
        }
    }
}

/// Notes the pair of regions `a` and `b`, the smaller name first, at the
/// end of `edges` and in the table, unless they are one region or the
/// table holds the pair already.
fn note_pair(
    edges: &mut Vec<(usize, usize)>,
    noted: &mut Vec<bool>,
    a: usize,
    b: usize,
    count: usize,
)
    requires
        2 <= count <= 20,
        a < count,
        b < count,
        old(noted)@.len() == count * count,
        region_pairs(old(edges)@, count),
    ensures
        final(noted)@.len() == count * count,
        region_pairs(final(edges)@, count),
        final(edges)@ == (if fresh_pair(old(noted)@, a, b, count) {
            old(edges)@.push(ordered(a, b))
        } else {
            old(edges)@
        }),
        final(noted)@ == (if fresh_pair(old(noted)@, a, b, count) {
            old(noted)@.update(pair_key(ordered(a, b), count), true)
        } else {
            old(noted)@
        }),
{
    if a == b {
        return ;
    }
    let (low, high) = if a < b {
        (a, b)
    } else {
        (b, a)
    };
    proof {
        assert(low * count + high < count * count) by (nonlinear_arith)
            requires
                0 <= low < high,
                high < count,
        ;
        assert(low * count <= 20 * 20) by (nonlinear_arith)
            requires
                0 <= low < 20,
                0 <= count <= 20,
        ;
    }
    let key = low * count + high;
    if !noted[key] {
        noted[key] = true;
        edges.push((low, high));
    }
}

/// The pairs of regions that touch, each once, in the order in which the
/// grid shows them when read row by row, east before south.
fn region_edges(regions: &CellGrid<usize>, count: usize, width: u32, height: u32) -> (edges: Vec<
    (usize, usize),
>)
    requires
        2 <= count <= 20,
        width >= 1,
        height >= 1,
        regions.wf(),
        regions.cols() == width,
        regions.lines() == height,
        forall|c: (u32, u32)| regions.in_bounds(c) ==> #[trigger] regions.at(c) < count,
    ensures
        region_pairs(edges@, count),
        edges@.no_duplicates(),
        forall|k: int|
            0 <= k < edges@.len() ==> touching(regions, (#[trigger] edges@[k]).0, edges@[k].1),
        forall|e: (u32, u32, u32, u32)|
            #[trigger] forward(e) && regions.in_bounds((e.0, e.1)) && regions.in_bounds(
                (e.2, e.3),
            ) && regions.at((e.0, e.1)) != regions.at((e.2, e.3)) ==> edges@.contains(
                ordered(regions.at((e.0, e.1)), regions.at((e.2, e.3))),
            ),
{
    let mut edges: Vec<(usize, usize)> = Vec::new();
    let mut noted: Vec<bool> = Vec::new();
    proof {
        assert(count * count <= 400) by (nonlinear_arith)
            requires
                0 <= count <= 20,
        ;
    }
    let size = count * count;
    let mut i: usize = 0;
    while i < size
        invariant
            0 <= i <= size,
            noted@.len() == i,
            forall|k: int| 0 <= k < i ==> !#[trigger] noted@[k],
        decreases size - i,
    {
        noted.push(false);
        i += 1;
    }
    proof {
        assert forall|p: (usize, usize)| p.0 < p.1 < count implies (noted@[pair_key(p, count)]
            <==> #[trigger] edges@.contains(p)) by {
            assert(0 <= pair_key(p, count) < count * count) by (nonlinear_arith)
                requires
                    pair_key(p, count) == p.0 * count + p.1,
                    0 <= p.0 < p.1,
                    p.1 < count,
            ;
        }
    }
    let mut y: u32 = 0;
    while y < height
        invariant
            2 <= count <= 20,
            width >= 1,
            height >= 1,
            regions.wf(),
            regions.cols() == width,
            regions.lines() == height,
            forall|c: (u32, u32)| regions.in_bounds(c) ==> #[trigger] regions.at(c) < count,
            noted@.len() == count * count,
            region_pairs(edges@, count),
            in_step(noted@, edges@, count),
            edges@.no_duplicates(),
            forall|k: int|
                0 <= k < edges@.len() ==> touching(regions, (#[trigger] edges@[k]).0, edges@[k].1),
            forall|e: (u32, u32, u32, u32)|
                #[trigger] forward(e) && regions.in_bounds((e.0, e.1)) && regions.in_bounds(
                    (e.2, e.3),
                ) && e.1 < y && regions.at((e.0, e.1)) != regions.at((e.2, e.3))
                    ==> edges@.contains(ordered(regions.at((e.0, e.1)), regions.at((e.2, e.3)))),
            0 <= y <= height,
        decreases height - y,
    {
        let mut x: u32 = 0;
        while x < width
            invariant
                2 <= count <= 20,
                width >= 1,
                height >= 1,
                regions.wf(),
                regions.cols() == width,
                regions.lines() == height,
                forall|c: (u32, u32)| regions.in_bounds(c) ==> #[trigger] regions.at(c) < count,
                noted@.len() == count * count,
                region_pairs(edges@, count),
                in_step(noted@, edges@, count),
                edges@.no_duplicates(),
                forall|k: int|
                    0 <= k < edges@.len() ==> touching(
                        regions,
                        (#[trigger] edges@[k]).0,
                        edges@[k].1,
                    ),
                forall|e: (u32, u32, u32, u32)|
                    #[trigger] forward(e) && regions.in_bounds((e.0, e.1)) && regions.in_bounds(
                        (e.2, e.3),
                    ) && (e.1 < y || (e.1 == y && e.0 < x)) && regions.at((e.0, e.1))
                        != regions.at((e.2, e.3)) ==> edges@.contains(
                        ordered(regions.at((e.0, e.1)), regions.at((e.2, e.3))),
                    ),
                0 <= y < height,
                0 <= x <= width,
            decreases width - x,
        {
            let here = regions.get(x, y);
            let ghost listed = edges@;
            if x < width - 1 {
                let east = regions.get(x + 1, y);
                let ghost table = noted@;
                let ghost list = edges@;
                note_pair(&mut edges, &mut noted, here, east, count);
                proof {
                    lemma_noted(table, list, here, east, count);
                    crate::seqs::lemma_push_contains(list, ordered(here, east));
                    let e = (x, y, (x + 1) as u32, y);
                    assert(borders(regions, e, ordered(here, east).0, ordered(here, east).1)
                        || here == east);
                }
            }
            let ghost mid = edges@;
            if y < height - 1 {
                let south = regions.get(x, y + 1);
                let ghost table = noted@;
                let ghost list = edges@;
                note_pair(&mut edges, &mut noted, here, south, count);
                proof {
                    lemma_noted(table, list, here, south, count);
                    crate::seqs::lemma_push_contains(list, ordered(here, south));
                    let e = (x, y, x, (y + 1) as u32);
                    assert(borders(regions, e, ordered(here, south).0, ordered(here, south).1)
                        || here == south);
                }
            }
            proof {
                assert forall|p: (usize, usize)| listed.contains(p) implies edges@.contains(p) by {
                    assert(mid.contains(p));
                }
                assert forall|e: (u32, u32, u32, u32)|
                    #[trigger] forward(e) && regions.in_bounds((e.0, e.1)) && regions.in_bounds(
                        (e.2, e.3),
                    ) && (e.1 < y || (e.1 == y && e.0 < x + 1)) && regions.at((e.0, e.1))
                        != regions.at((e.2, e.3)) implies edges@.contains(
                    ordered(regions.at((e.0, e.1)), regions.at((e.2, e.3))),
                ) by {
                    let pair = ordered(regions.at((e.0, e.1)), regions.at((e.2, e.3)));
                    if e.0 == x && e.1 == y {
                        if e.2 == e.0 + 1 {
                            assert(mid.contains(pair));
                        }
                    } else {
                        assert(listed.contains(pair));
                    }
                }
            }
            x += 1;
        }
        y += 1;
    }
    edges
}

/// The pair at position `i` of `list` joins the regions `from` and `to`.
pub open spec fn leads(list: Seq<(usize, usize)>, i: int, from: int, to: int) -> bool {
    0 <= i < list.len() && ((list[i].0 == from && list[i].1 == to) || (list[i].1 == from
        && list[i].0 == to))
}

/// Region `b` can be reached from region `a` through at most `k` pairs of
/// `list`.
pub open spec fn reach_by(list: Seq<(usize, usize)>, a: int, b: int, k: nat) -> bool
    decreases k,
{
    if k == 0 {
        a == b
    } else {
        ||| reach_by(list, a, b, (k - 1) as nat)
        ||| exists|i: int, p: int| #[trigger]
            leads(list, i, p, b) && reach_by(list, a, p, (k - 1) as nat)
    }
}

/// Region `b` can be reached from region `a` through pairs of `list`.
pub open spec fn tied_by(list: Seq<(usize, usize)>, a: int, b: int) -> bool {
    exists|k: nat| reach_by(list, a, b, k)
}

proof fn lemma_reach_joined(list: Seq<(usize, usize)>, a: int, b: int, c: int, k: nat, m: nat)
    requires
        reach_by(list, a, b, k),
        reach_by(list, b, c, m),
    ensures
        reach_by(list, a, c, k + m),
    decreases m,
{
    if m == 0 {
    } else if reach_by(list, b, c, (m - 1) as nat) {
        lemma_reach_joined(list, a, b, c, k, (m - 1) as nat);
    } else {
        let (i, p) = choose|i: int, p: int| #[trigger]
            leads(list, i, p, c) && reach_by(list, b, p, (m - 1) as nat);
        lemma_reach_joined(list, a, b, p, k, (m - 1) as nat);
        assert(leads(list, i, p, c) && reach_by(list, a, p, (k + m - 1) as nat));
    }
}

proof fn lemma_tied_joined(list: Seq<(usize, usize)>, a: int, b: int, c: int)
    requires
        tied_by(list, a, b),
        tied_by(list, b, c),
    ensures
        tied_by(list, a, c),
{
    let k = choose|k: nat| reach_by(list, a, b, k);
    let m = choose|m: nat| reach_by(list, b, c, m);
    lemma_reach_joined(list, a, b, c, k, m);
}

proof fn lemma_tied_hop(list: Seq<(usize, usize)>, i: int, p: int, b: int)
    requires
        leads(list, i, p, b),
    ensures
        tied_by(list, p, b),
        tied_by(list, b, p),
{
    assert(reach_by(list, p, p, 0));
    assert(leads(list, i, p, b) && reach_by(list, p, p, 0));
    assert(reach_by(list, p, b, 1));
    assert(reach_by(list, b, b, 0));
    assert(leads(list, i, b, p) && reach_by(list, b, b, 0));
    assert(reach_by(list, b, p, 1));
}

proof fn lemma_reach_turned(list: Seq<(usize, usize)>, a: int, c: int, k: nat)
    requires
        reach_by(list, a, c, k),
    ensures
        tied_by(list, c, a),
    decreases k,
{
    if k == 0 {
        assert(reach_by(list, c, a, 0));
    } else if reach_by(list, a, c, (k - 1) as nat) {
        lemma_reach_turned(list, a, c, (k - 1) as nat);
    } else {
        let (i, p) = choose|i: int, p: int| #[trigger]
            leads(list, i, p, c) && reach_by(list, a, p, (k - 1) as nat);
        lemma_reach_turned(list, a, p, (k - 1) as nat);
        lemma_tied_hop(list, i, p, c);
        lemma_tied_joined(list, c, p, a);
    }
}

proof fn lemma_reach_kept(list: Seq<(usize, usize)>, e: (usize, usize), a: int, b: int, k: nat)
    requires
        reach_by(list, a, b, k),
    ensures
        reach_by(list.push(e), a, b, k),
    decreases k,
{
    if k == 0 {
    } else if reach_by(list, a, b, (k - 1) as nat) {
        lemma_reach_kept(list, e, a, b, (k - 1) as nat);
    } else {
        let (i, p) = choose|i: int, p: int| #[trigger]
            leads(list, i, p, b) && reach_by(list, a, p, (k - 1) as nat);
        lemma_reach_kept(list, e, a, p, (k - 1) as nat);
        assert(leads(list.push(e), i, p, b));
    }
}

proof fn lemma_tied_kept(list: Seq<(usize, usize)>, e: (usize, usize), a: int, b: int)
    requires
        tied_by(list, a, b),
    ensures
        tied_by(list.push(e), a, b),
{
    let k = choose|k: nat| reach_by(list, a, b, k);
    lemma_reach_kept(list, e, a, b, k);
}

/// Regions of one set are tied by the list.
pub open spec fn sets_tied(sets: &UnionFind, list: Seq<(usize, usize)>, count: usize) -> bool {
    forall|a: int, b: int|
        0 <= a < count && 0 <= b < count && #[trigger] sets.same_set(a, b) ==> tied_by(list, a, b)
}

/// Merging the sets of two regions while their pair joins the list keeps
/// the regions of one set tied by the list.
proof fn lemma_union_tied(
    before: &UnionFind,
    after: &UnionFind,
    list: Seq<(usize, usize)>,
    x: usize,
    y: usize,
    count: usize,
)
    requires
        before.len() == count,
        x < count,
        y < count,
        sets_tied(before, list, count),
        forall|i: int|
            0 <= i < before.len() ==> #[trigger] after.root(i) == (if before.same_set(i, x as int)
                || before.same_set(i, y as int) {
                after.root(x as int)
            } else {
                before.root(i)
            }),
        after.root(x as int) == before.root(x as int) || after.root(x as int) == before.root(
            y as int,
        ),
    ensures
        sets_tied(after, list.push((x, y)), count),
{
    let longer = list.push((x, y));
    let at = list.len() as int;
    assert(leads(longer, at, x as int, y as int));
    lemma_tied_hop(longer, at, x as int, y as int);
    assert forall|a: int, b: int|
        0 <= a < count && 0 <= b < count && #[trigger] after.same_set(a, b) implies tied_by(
        longer,
        a,
        b,
    ) by {
        assert(after.root(a) == after.root(a));
        assert(after.root(b) == after.root(b));
        let a_in = before.same_set(a, x as int) || before.same_set(a, y as int);
        let b_in = before.same_set(b, x as int) || before.same_set(b, y as int);
        if a_in && b_in {
            lemma_near_tied(before, list, x, y, count, a);
            lemma_near_tied(before, list, x, y, count, b);
            let k = choose|k: nat| reach_by(longer, x as int, a, k);
            lemma_reach_turned(longer, x as int, a, k);
            lemma_tied_joined(longer, a, x as int, b);
        } else if !a_in && !b_in {
            assert(before.same_set(a, b));
            lemma_tied_kept(list, (x, y), a, b);
        }
    }
}

proof fn lemma_near_tied(
    before: &UnionFind,
    list: Seq<(usize, usize)>,
    x: usize,
    y: usize,
    count: usize,
    a: int,
)
    requires
        x < count,
        y < count,
        0 <= a < count,
        sets_tied(before, list, count),
        before.same_set(a, x as int) || before.same_set(a, y as int),
    ensures
        tied_by(list.push((x, y)), x as int, a),
{
    let longer = list.push((x, y));
    let at = list.len() as int;
    assert(leads(longer, at, x as int, y as int));
    lemma_tied_hop(longer, at, x as int, y as int);
    if before.same_set(a, x as int) {
        assert(before.same_set(x as int, a));
        lemma_tied_kept(list, (x, y), x as int, a);
    } else {
        assert(before.same_set(y as int, a));
        lemma_tied_kept(list, (x, y), y as int, a);
        lemma_tied_joined(longer, x as int, y as int, a);
    }
}

/// The pairs of regions to join: in the order of `edges`, every pair that
/// joins two sets of regions, and above a complexity of a half every other
/// pair with probability `2 * (complexity - 0.5)`. The pairs selected tie
/// together whatever the pairs of `edges` tie together; up to a complexity
/// of a half there are fewer of them than regions.
fn select_edges(
    edges: &Vec<(usize, usize)>,
    count: usize,
    complexity: Complexity,
    rng: &mut MazeRng,
) -> (selected: Vec<(usize, usize)>)
    requires
        region_pairs(edges@, count),
    ensures
        region_pairs(selected@, count),
        forall|k: int| 0 <= k < selected@.len() ==> edges@.contains(#[trigger] selected@[k]),
        forall|i: int|
            0 <= i < edges@.len() ==> tied_by(
                selected@,
                (#[trigger] edges@[i]).0 as int,
                edges@[i].1 as int,
            ),
        complexity.value() <= 500_000 && count >= 1 ==> selected@.len() < count,
{
    let mut sets = UnionFind::new(count);
    let mut selected: Vec<(usize, usize)> = Vec::new();
    let m = complexity.millionths();
    let mut i: usize = 0;
    proof {
        assert forall|a: int, b: int|
            0 <= a < count && 0 <= b < count && #[trigger] sets.same_set(a, b) implies tied_by(
            selected@,
            a,
            b,
        ) by {
            assert(reach_by(selected@, a, b, 0));
        }
    }
    while i < edges.len()
        invariant
            region_pairs(edges@, count),
            region_pairs(selected@, count),
            sets.wf(),
            sets.len() == count,
            0 <= i <= edges@.len(),
            m <= 1_000_000,
            m == complexity.value(),
            sets_tied(&sets, selected@, count),
            forall|k: int| 0 <= k < selected@.len() ==> edges@.contains(#[trigger] selected@[k]),
            forall|j: int|
                0 <= j < i ==> tied_by(
                    selected@,
                    (#[trigger] edges@[j]).0 as int,
                    edges@[j].1 as int,
                ),
            m <= 500_000 ==> selected@.len() + sets.set_count() == count,
        decreases edges@.len() - i,
    {
        let (a, b) = edges[i];
        let ghost start = sets;
        let ghost list = selected@;
        let first = sets.find(a);
        let second = sets.find(b);
        let ghost found = sets;
        proof {
            assert forall|p: int, q: int|
                0 <= p < count && 0 <= q < count && #[trigger] found.same_set(p, q) implies tied_by(
                list,
                p,
                q,
            ) by {
                assert(found.root(p) == start.root(p));
                assert(found.root(q) == start.root(q));
                assert(start.same_set(p, q));
            }
            assert(edges@.contains(edges@[i as int]));
        }
        let apart = first != second;
        if apart {
            sets.union(a, b);
            selected.push((a, b));
            proof {
                lemma_union_tied(&found, &sets, list, a, b, count);
            }
        } else if m > 500_000 {
            if rng.happens((m - 500_000) * 2) {
                selected.push((a, b));
                proof {
                    assert forall|p: int, q: int|
                        0 <= p < count && 0 <= q < count && #[trigger] sets.same_set(
                            p,
                            q,
                        ) implies tied_by(selected@, p, q) by {
                        lemma_tied_kept(list, (a, b), p, q);
                    }
                }
            }
        }
        proof {
            assert(sets.same_set(a as int, b as int));
            assert forall|j: int| 0 <= j < i + 1 implies tied_by(
                selected@,
                (#[trigger] edges@[j]).0 as int,
                edges@[j].1 as int,
            ) by {
                if j < i && selected@.len() > list.len() {
                    lemma_tied_kept(list, (a, b), edges@[j].0 as int, edges@[j].1 as int);
                }
            }
        }
        i += 1;
    }
    proof {
        if count >= 1 {
            broadcast use vstd::set::group_set_axioms;

            sets.lemma_heads();
            sets.lemma_root_is_element(0);
            assert(sets.heads().contains(sets.root(0)));
        }
    }
    selected
}

/// The walls between a cell of region `a` and a cell of region `b`, in the
/// order in which the grid shows them when read row by row, east before
/// south: every edge of the grid that borders the two regions, and no
/// other.
fn boundary(regions: &CellGrid<usize>, a: usize, b: usize, width: u32, height: u32) -> (walls: Vec<
    (u32, u32, u32, u32),
>)
    requires
        width >= 1,
        height >= 1,
        regions.wf(),
        regions.cols() == width,
        regions.lines() == height,
    ensures
        edges_inside(walls@, width, height),
        forall|k: int| 0 <= k < walls@.len() ==> borders(regions, #[trigger] walls@[k], a, b),
        forall|e: (u32, u32, u32, u32)| #[trigger] borders(regions, e, a, b) ==> walls@.contains(e),
{
    let mut walls: Vec<(u32, u32, u32, u32)> = Vec::new();
    let mut y: u32 = 0;
    while y < height
        invariant
            width >= 1,
            height >= 1,
            regions.wf(),
            regions.cols() == width,
            regions.lines() == height,
            edges_inside(walls@, width, height),
            forall|k: int| 0 <= k < walls@.len() ==> borders(regions, #[trigger] walls@[k], a, b),
            forall|e: (u32, u32, u32, u32)|
                #[trigger] borders(regions, e, a, b) && e.1 < y ==> walls@.contains(e),
            0 <= y <= height,
        decreases height - y,
    {
        let mut x: u32 = 0;
        while x < width
            invariant
                width >= 1,
                height >= 1,
                regions.wf(),
                regions.cols() == width,
                regions.lines() == height,
                edges_inside(walls@, width, height),
                forall|k: int|
                    0 <= k < walls@.len() ==> borders(regions, #[trigger] walls@[k], a, b),
                forall|e: (u32, u32, u32, u32)|
                    #[trigger] borders(regions, e, a, b) && (e.1 < y || (e.1 == y && e.0 < x))
                        ==> walls@.contains(e),
                0 <= y < height,
                0 <= x <= width,
            decreases width - x,
        {
            let here = regions.get(x, y);
            let ghost listed = walls@;
            let other = if here == a {
                Some(b)
            } else if here == b {
                Some(a)
            } else {
                None
            };
            if let Some(wanted) = other {
                if x < width - 1 && regions.get(x + 1, y) == wanted {
                    let ghost list = walls@;
                    walls.push((x, y, x + 1, y));
                    proof {
                        crate::seqs::lemma_push_contains(list, (x, y, (x + 1) as u32, y));
                    }
                }
                let ghost mid = walls@;
                if y < height - 1 && regions.get(x, y + 1) == wanted {
                    walls.push((x, y, x, y + 1));
                    proof {
                        crate::seqs::lemma_push_contains(mid, (x, y, x, (y + 1) as u32));
                    }
                }
                proof {
                    assert forall|e: (u32, u32, u32, u32)| listed.contains(e) implies walls@.contains(
                        e,
                    ) by {
                        assert(mid.contains(e));
                    }
                    assert forall|e: (u32, u32, u32, u32)|
                        #[trigger] borders(regions, e, a, b) && e.0 == x && e.1 == y implies walls@.contains(
                        e,
                    ) by {
                        if e.2 == e.0 + 1 {
                            assert(mid.contains(e));
                        }
                    }
                }
            }
            proof {
                assert forall|e: (u32, u32, u32, u32)|
                    #[trigger] borders(regions, e, a, b) && (e.1 < y || (e.1 == y && e.0 < x + 1)) implies walls@.contains(
                    e,
                ) by {
                    if !(e.0 == x && e.1 == y) {
                        assert(listed.contains(e));
                    }
                }
            }
            x += 1;
        }
        y += 1;
    }
    walls
}

/// How many passages join two regions with `len` walls between them: one
/// below a complexity of 0.3; otherwise one more than the share
/// `complexity` of the further passages allowed, which are two at most.
pub fn passage_count(len: usize, complexity: Complexity) -> (count: usize)
    requires
        len >= 1,
    ensures
        1 <= count <= 3,
        complexity.value() < 300_000 ==> count == 1,
        complexity.value() >= 300_000 ==> count == 1 + (complexity.value() * ((if len < 3 {
            len as int
        } else {
            3int
        }) - 1)) / 1_000_000,
{
    if complexity.below(300_000) {
        1
    } else {
        let most: u64 = if len < 3 {
            len as u64
        } else {
            3
        };
        1 + complexity.portion(most - 1) as usize
    }
}

/// The step between `p` and `q` leads from one region of the pair at
/// position `k` of `selected` to the other.
pub open spec fn joins_at(
    regions: &CellGrid<usize>,
    selected: Seq<(usize, usize)>,
    k: int,
    p: (u32, u32),
    q: (u32, u32),
) -> bool {
    0 <= k < selected.len() && same_pair(regions.at(p), regions.at(q), selected[k].0, selected[k].1)
}

/// Where the regions `a` and `b` touch, some edge that borders them is a
/// passage.
pub open spec fn crossed(g: Grid, regions: &CellGrid<usize>, a: usize, b: usize) -> bool {
    touching(regions, a, b) ==> exists|e: (u32, u32, u32, u32)| #[trigger]
        borders(regions, e, a, b) && g.open_between((e.0, e.1), (e.2, e.3))
}

proof fn lemma_crossed_kept(g: Grid, h: Grid, regions: &CellGrid<usize>, a: usize, b: usize)
    requires
        g.passages_within(h),
        crossed(g, regions, a, b),
    ensures
        crossed(h, regions, a, b),
{
    if touching(regions, a, b) {
        let e = choose|e: (u32, u32, u32, u32)| #[trigger]
            borders(regions, e, a, b) && g.open_between((e.0, e.1), (e.2, e.3));
        assert(borders(regions, e, a, b) && h.open_between((e.0, e.1), (e.2, e.3)));
    }
}

/// Carves the passages between the regions of every selected pair: for
/// each pair the walls between the two regions are listed and shuffled,
/// and the first few are removed. Every passage opened leads from one
/// region of a selected pair to the other, and every selected pair of
/// regions that touch has a passage between them afterwards.
fn carve_between(
    maze: &mut Maze,
    regions: &CellGrid<usize>,
    selected: &Vec<(usize, usize)>,
    complexity: Complexity,
    rng: &mut MazeRng,
    width: u32,
    height: u32,
)
    requires
        width >= 1,
        height >= 1,
        old(maze).wf(),
        old(maze)@.width == width,
        old(maze)@.height == height,
        regions.wf(),
        regions.cols() == width,
        regions.lines() == height,
    ensures
        final(maze).wf(),
        final(maze)@.width == width,
        final(maze)@.height == height,
        old(maze)@.passages_within(final(maze)@),
        forall|p: (u32, u32), q: (u32, u32)| #[trigger]
            final(maze)@.open_between(p, q) && !old(maze)@.open_between(p, q) ==> exists|k: int| #[trigger]
                joins_at(regions, selected@, k, p, q),
        forall|k: int|
            0 <= k < selected@.len() ==> crossed(
                final(maze)@,
                regions,
                (#[trigger] selected@[k]).0,
                selected@[k].1,
            ),
{
    let mut i: usize = 0;
    while i < selected.len()
        invariant
            width >= 1,
            height >= 1,
            maze.wf(),
            maze@.width == width,
            maze@.height == height,
            old(maze)@.passages_within(maze@),
            regions.wf(),
            regions.cols() == width,
            regions.lines() == height,
            0 <= i <= selected@.len(),
            forall|p: (u32, u32), q: (u32, u32)| #[trigger]
                maze@.open_between(p, q) && !old(maze)@.open_between(p, q) ==> exists|k: int| #[trigger]
                    joins_at(regions, selected@, k, p, q),
            forall|k: int|
                0 <= k < i ==> crossed(maze@, regions, (#[trigger] selected@[k]).0, selected@[k].1),
        decreases selected@.len() - i,
    {
        let (a, b) = selected[i];
        let ghost entered = maze@;
        let mut walls = boundary(regions, a, b, width, height);
        if walls.len() > 0 {
            let count = passage_count(walls.len(), complexity);
            if walls.len() > 1 {
                let ghost listed = walls@;
                rng.shuffle(&mut walls);
                proof {
                    assert forall|t: int| 0 <= t < walls@.len() implies borders(
                        regions,
                        #[trigger] walls@[t],
                        a,
                        b,
                    ) by {
                        assert(listed.contains(walls@[t]));
                        let j = choose|j: int| 0 <= j < listed.len() && listed[j] == walls@[t];
                        assert(borders(regions, listed[j], a, b));
                    }
                }
            }
            let mut k: usize = 0;
            while k < count && k < walls.len()
                invariant
                    maze.wf(),
                    maze@.width == width,
                    maze@.height == height,
                    regions.cols() == width,
                    regions.lines() == height,
                    old(maze)@.passages_within(maze@),
                    entered.passages_within(maze@),
                    0 <= k <= walls@.len(),
                    walls@.len() >= 1,
                    0 <= i < selected@.len(),
                    selected@[i as int] == (a, b),
                    forall|t: int|
                        0 <= t < walls@.len() ==> borders(regions, #[trigger] walls@[t], a, b),
                    forall|p: (u32, u32), q: (u32, u32)| #[trigger]
                        maze@.open_between(p, q) && !old(maze)@.open_between(p, q) ==> exists|
                            j: int,
                        | #[trigger] joins_at(regions, selected@, j, p, q),
                    k >= 1 ==> maze@.open_between(
                        (walls@[0].0, walls@[0].1),
                        (walls@[0].2, walls@[0].3),
                    ),
                decreases walls@.len() - k,
            {
                let (x1, y1, x2, y2) = walls[k];
                let ghost before = maze@;
                assert(borders(regions, walls@[k as int], a, b));
                maze.remove_wall(x1, y1, x2, y2);
                proof {
                    lemma_carve(before, (x1, y1), (x2, y2));
                    assert forall|p: (u32, u32), q: (u32, u32)| #[trigger]
                        maze@.open_between(p, q) && !old(maze)@.open_between(p, q) implies exists|
                        j: int,
                    | #[trigger] joins_at(regions, selected@, j, p, q) by {
                        if !before.open_between(p, q) {
                            assert(joins_at(regions, selected@, i as int, p, q));
                        }
                    }
                }
                k += 1;
            }
        }
        proof {
            assert(crossed(maze@, regions, a, b)) by {
                if touching(regions, a, b) {
                    let e = choose|e: (u32, u32, u32, u32)| #[trigger] borders(regions, e, a, b);
                    let first = walls@[0];
                    assert(borders(regions, first, a, b));
                    assert(borders(regions, first, a, b) && maze@.open_between(
                        (first.0, first.1),
                        (first.2, first.3),
                    ));
                }
            }
            assert forall|k: int| 0 <= k < i + 1 implies crossed(
                maze@,
                regions,
                (#[trigger] selected@[k]).0,
                selected@[k].1,
            ) by {
                if k < i {
                    lemma_crossed_kept(entered, maze@, regions, selected@[k].0, selected@[k].1);
                }
            }
        }
        i += 1;
    }
}

/// `regions` names for every cell of the grid `g` the nearest of
/// `points`.
pub open spec fn parted(g: Grid, points: Seq<(u32, u32)>, regions: CellGrid<usize>) -> bool {
    &&& regions.wf()
    &&& regions.cols() == g.width
    &&& regions.lines() == g.height
    &&& forall|c: (u32, u32)|
        regions.in_bounds(c) ==> nearest_point_at(points, c, #[trigger] regions.at(c) as int)
}

/// What carving between the selected pairs of regions leaves of a grid
/// with every wall standing: every passage of `carved` leads from one
/// region to another, between the two regions of a selected pair; all
/// regions that touch are tied together by selected pairs; and the two
/// regions of every selected pair touch and have a passage between them.
pub open spec fn bridged(carved: Grid, regions: CellGrid<usize>, selected: Seq<(usize, usize)>) -> bool {
    &&& carved.wf()
    &&& forall|p: (u32, u32), q: (u32, u32)| #[trigger]
        carved.open_between(p, q) ==> regions.at(p) != regions.at(q) && exists|k: int| #[trigger]
            joins_at(&regions, selected, k, p, q)
    &&& forall|e: (u32, u32, u32, u32)|
        #[trigger] forward(e) && regions.in_bounds((e.0, e.1)) && regions.in_bounds((e.2, e.3))
            && regions.at((e.0, e.1)) != regions.at((e.2, e.3)) ==> tied_by(
            selected,
            ordered(regions.at((e.0, e.1)), regions.at((e.2, e.3))).0 as int,
            ordered(regions.at((e.0, e.1)), regions.at((e.2, e.3))).1 as int,
        )
    &&& forall|k: int|
        0 <= k < selected.len() ==> touching(&regions, (#[trigger] selected[k]).0, selected[k].1)
            && crossed(carved, &regions, selected[k].0, selected[k].1)
}

impl MazeGenerator for Voronoi {
    /// There are as many points as the size and the complexity ask for,
    /// all inside the grid, such that the maze is the grid carved between
    /// pairs of their regions that tie all touching regions together, or
    /// the repair of that grid.
    open spec fn keeps(&self, maze: Grid, complexity: Complexity) -> bool {
        exists|
            points: Seq<(u32, u32)>,
            regions: CellGrid<usize>,
            selected: Seq<(usize, usize)>,
            carved: Grid,
        |
            #![trigger parted(carved, points, regions), bridged(carved, regions, selected)]
            points.len() == points_for((maze.width * maze.height) as int, complexity)
                && all_inside(points, maze.width as u32, maze.height as u32) && parted(
                carved,
                points,
                regions,
            ) && bridged(carved, regions, selected) && mended(carved, maze)
    }

    /// Scatters the points, assigns every cell to its nearest point, lists
    /// the pairs of regions that touch, shuffles the list when the
    /// complexity is above zero, selects a spanning tree of the regions
    /// and perhaps more, carves between the selected pairs and repairs
    /// connectivity.
    fn generate(&self, width: u32, height: u32, complexity: Complexity, seed: Option<u64>) -> (maze:
        Maze) {
        let mut maze = Maze::new(width, height);
        let mut rng = MazeRng::new(seed);
        let count = point_count(cell_count(width, height), complexity);
        let points = scatter_points(width, height, count, &mut rng);
        let regions = assign_regions(&points, width, height);
        let mut edges = region_edges(&regions, count, width, height);
        let ghost listed = edges@;
        if complexity.positive() {
            rng.shuffle(&mut edges);
            proof {
                assert forall|k: int| 0 <= k < edges@.len() implies (#[trigger] edges@[k]).0
                    < edges@[k].1 < count by {
                    assert(listed.contains(edges@[k]));
                    let j = choose|j: int| 0 <= j < listed.len() && listed[j] == edges@[k];
                    assert(listed[j].0 < listed[j].1);
                }
            }
        }
        proof {
            assert forall|k: int| 0 <= k < edges@.len() implies listed.contains(
                #[trigger] edges@[k],
            ) by {}
            assert forall|k: int| 0 <= k < listed.len() implies edges@.contains(
                #[trigger] listed[k],
            ) by {}
        }
        let selected = select_edges(&edges, count, complexity, &mut rng);
        let ghost walled = maze@;
        carve_between(&mut maze, &regions, &selected, complexity, &mut rng, width, height);
        let ghost carved = maze@;
        maze.ensure_connectivity();
        proof {
            assert forall|p: (u32, u32), q: (u32, u32)| !#[trigger] walled.open_between(p, q) by {
                if walled.in_bounds(p) {
                    assert(walled.at(p).wall_count() == 4);
                }
            }
            assert forall|p: (u32, u32), q: (u32, u32)| #[trigger]
                carved.open_between(p, q) implies regions.at(p) != regions.at(q) && exists|k: int| #[trigger]
                    joins_at(&regions, selected@, k, p, q) by {
                let k = choose|k: int| #[trigger] joins_at(&regions, selected@, k, p, q);
                assert(selected@[k].0 < selected@[k].1);
            }
            assert forall|e: (u32, u32, u32, u32)|
                #[trigger] forward(e) && regions.in_bounds((e.0, e.1)) && regions.in_bounds(
                    (e.2, e.3),
                ) && regions.at((e.0, e.1)) != regions.at((e.2, e.3)) implies tied_by(
                selected@,
                ordered(regions.at((e.0, e.1)), regions.at((e.2, e.3))).0 as int,
                ordered(regions.at((e.0, e.1)), regions.at((e.2, e.3))).1 as int,
            ) by {
                let pair = ordered(regions.at((e.0, e.1)), regions.at((e.2, e.3)));
                assert(listed.contains(pair));
                let j = choose|j: int| 0 <= j < listed.len() && listed[j] == pair;
                assert(edges@.contains(listed[j]));
                let i = choose|i: int| 0 <= i < edges@.len() && edges@[i] == pair;
                assert(tied_by(selected@, edges@[i].0 as int, edges@[i].1 as int));
            }
            assert forall|k: int| 0 <= k < selected@.len() implies touching(
                &regions,
                (#[trigger] selected@[k]).0,
                selected@[k].1,
            ) && crossed(carved, &regions, selected@[k].0, selected@[k].1) by {
                assert(edges@.contains(selected@[k]));
                let i = choose|i: int| 0 <= i < edges@.len() && edges@[i] == selected@[k];
                assert(listed.contains(edges@[i]));
                let j = choose|j: int| 0 <= j < listed.len() && listed[j] == selected@[k];
                assert(touching(&regions, listed[j].0, listed[j].1));
            }
            assert(parted(carved, points@, regions));
            assert(bridged(carved, regions, selected@));
            assert(mended(carved, maze@));
        }
        maze
    }
}

} // verus!
