//! Connected regions of the free cells of a grid.
//!
//! Two cells are neighbours when they differ by one in exactly one coordinate.
//! A region is a maximal set of free cells that are linked by chains of
//! neighbours inside the grid. A piece that covers four linked cells always
//! lies within one region, so a region whose size is no multiple of four can
//! never be filled: the sizes computed here serve as a pruning oracle.

use crate::cells::{Cell, CellSet};
use std::collections::hash_set::Iter;
use std::collections::HashSet;
use std::collections::VecDeque;
use vstd::prelude::*;
use vstd::set_lib::*;
use vstd::std_specs::hash::spec_hash_keys_iter;
use vstd::std_specs::iter::IteratorSpec;

verus! {

/// Whether `c` lies inside a grid of the given dimensions.
pub open spec fn in_grid(width: int, height: int, c: Cell) -> bool {
    0 <= c.0 < width && 0 <= c.1 < height
}

/// Whether `a` and `b` are horizontal or vertical neighbours.
pub open spec fn adjacent(a: Cell, b: Cell) -> bool {
    ||| a.0 == b.0 && a.1 + 1 == b.1
    ||| a.0 == b.0 && a.1 - 1 == b.1
    ||| a.1 == b.1 && a.0 + 1 == b.0
    ||| a.1 == b.1 && a.0 - 1 == b.0
}

/// One step of a traversal: from a free cell to a free neighbour inside the
/// grid.
pub open spec fn step(width: int, height: int, free: Set<Cell>, a: Cell, b: Cell) -> bool {
    free.contains(a) && free.contains(b) && adjacent(a, b) && in_grid(width, height, b)
}

/// Whether each cell of `path` is one step from the cell before it.
pub open spec fn is_path(width: int, height: int, free: Set<Cell>, path: Seq<Cell>) -> bool {
    &&& path.len() > 0
    &&& free.contains(path[0])
    &&& forall|i: int|
        0 <= i < path.len() - 1 ==> step(width, height, free, #[trigger] path[i], path[i + 1])
}

/// Whether `b` is reached from `a` by a chain of steps.
pub open spec fn connected(width: int, height: int, free: Set<Cell>, a: Cell, b: Cell) -> bool {
    exists|path: Seq<Cell>|
        #[trigger] is_path(width, height, free, path) && path.first() == a && path.last() == b
}

/// A free cell is connected to itself.
pub proof fn lemma_connected_refl(width: int, height: int, free: Set<Cell>, a: Cell)
    requires
        free.contains(a),
    ensures
        connected(width, height, free, a, a),
{
    let path = seq![a];
    assert(is_path(width, height, free, path) && path.first() == a && path.last() == a);
}

/// A chain can be extended by one step.
pub proof fn lemma_connected_step(
    width: int,
    height: int,
    free: Set<Cell>,
    a: Cell,
    m: Cell,
    b: Cell,
)
    requires
        connected(width, height, free, a, m),
        step(width, height, free, m, b),
    ensures
        connected(width, height, free, a, b),
{
    let path = choose|path: Seq<Cell>|
        #[trigger] is_path(width, height, free, path) && path.first() == a && path.last() == m;
    let longer = path.push(b);
    assert forall|i: int| 0 <= i < longer.len() - 1 implies step(
        width,
        height,
        free,
        #[trigger] longer[i],
        longer[i + 1],
    ) by {
        if i < path.len() - 1 {
            assert(longer[i] == path[i] && longer[i + 1] == path[i + 1]);
        }
    }
    assert(is_path(width, height, free, longer) && longer.first() == a && longer.last() == b);
}

/// Whether no step leads out of `s`.
pub open spec fn closed_under_steps(width: int, height: int, free: Set<Cell>, s: Set<Cell>) -> bool {
    forall|a: Cell, b: Cell| s.contains(a) && #[trigger] step(width, height, free, a, b) ==> s.contains(b)
}

/// Whether `region` holds `root` and only cells that are reached from it.
pub open spec fn linked_from(
    width: int,
    height: int,
    free: Set<Cell>,
    region: Set<Cell>,
    root: Cell,
) -> bool {
    region.contains(root) && forall|c: Cell|
        region.contains(c) ==> #[trigger] connected(width, height, free, root, c)
}

/// Whether `region` is a region of `free`: a finite set of free cells that are
/// all reached from one of them, and that holds every free neighbour inside
/// the grid of each of its cells inside the grid.
pub open spec fn is_region(width: int, height: int, free: Set<Cell>, region: Set<Cell>) -> bool {
    &&& region.finite()
    &&& region.subset_of(free)
    &&& exists|root: Cell| #[trigger] linked_from(width, height, free, region, root)
    &&& forall|a: Cell, b: Cell|
        region.contains(a) && free.contains(b) && in_grid(width, height, a) && in_grid(
            width,
            height,
            b,
        ) && #[trigger] adjacent(a, b) ==> region.contains(b)
}

/// Whether `regions` splits `free` into its regions: each part is a region,
/// no two parts share a cell, and every free cell lies in a part.
///
/// Where all free cells lie inside the grid, the parts are the maximal sets of
/// free cells linked by chains of neighbours. A free cell outside the grid is
/// a part of its own, or the root of the part that holds what is reached from
/// it.
pub open spec fn is_region_partition(
    width: int,
    height: int,
    free: Set<Cell>,
    regions: Seq<Set<Cell>>,
) -> bool {
    &&& forall|i: int|
        0 <= i < regions.len() ==> is_region(width, height, free, #[trigger] regions[i])
    &&& forall|i: int, j: int|
        0 <= i < j < regions.len() ==> (#[trigger] regions[i]).disjoint(#[trigger] regions[j])
    &&& forall|c: Cell|
        free.contains(c) ==> exists|i: int|
            0 <= i < regions.len() && (#[trigger] regions[i]).contains(c)
}

/// Whether `sizes` lists the number of cells of each part, in order.
pub open spec fn sizes_match(sizes: Seq<usize>, regions: Seq<Set<Cell>>) -> bool {
    sizes.len() == regions.len() && forall|i: int|
        0 <= i < sizes.len() ==> #[trigger] sizes[i] == regions[i].len()
}

/// Sum of a sequence of sizes.
pub open spec fn total(sizes: Seq<usize>) -> int
    decreases sizes.len(),
{
    if sizes.len() == 0 {
        0
    } else {
        total(sizes.drop_last()) + sizes.last()
    }
}

/// Index of a part that holds `c`.
spec fn part_of(regions: Seq<Set<Cell>>, c: Cell) -> int {
    choose|i: int| 0 <= i < regions.len() && (#[trigger] regions[i]).contains(c)
}

/// State of the traversal between two floods: `regions` are the parts found so
/// far, in the order of their discovery, and `visited` is their union. A step
/// from a part leads into that part or into an earlier one.
spec fn explored(
    width: int,
    height: int,
    free: Set<Cell>,
    visited: Set<Cell>,
    regions: Seq<Set<Cell>>,
) -> bool {
    &&& visited.subset_of(free)
    &&& forall|i: int|
        0 <= i < regions.len() ==> {
            let r = #[trigger] regions[i];
            r.finite() && r.subset_of(visited) && exists|root: Cell| #[trigger]
                linked_from(width, height, free, r, root)
        }
    &&& forall|i: int, j: int|
        0 <= i < j < regions.len() ==> (#[trigger] regions[i]).disjoint(#[trigger] regions[j])
    &&& forall|c: Cell|
        visited.contains(c) ==> 0 <= #[trigger] part_of(regions, c) < regions.len()
            && regions[part_of(regions, c)].contains(c)
    &&& forall|i: int, a: Cell, b: Cell|
        0 <= i < regions.len() && (#[trigger] regions[i]).contains(a) && #[trigger] step(
            width,
            height,
            free,
            a,
            b,
        ) ==> visited.contains(b) && part_of(regions, b) <= i
}

/// A cell lies in one part only.
proof fn lemma_part_unique(
    width: int,
    height: int,
    free: Set<Cell>,
    visited: Set<Cell>,
    regions: Seq<Set<Cell>>,
    i: int,
    c: Cell,
)
    requires
        explored(width, height, free, visited, regions),
        0 <= i < regions.len(),
        regions[i].contains(c),
    ensures
        part_of(regions, c) == i,
{
    let j = part_of(regions, c);
    assert(visited.contains(c));
    if j < i {
        assert(regions[j].disjoint(regions[i]));
    } else if i < j {
        assert(regions[i].disjoint(regions[j]));
    }
}

/// A flood adds one part to the explored state.
proof fn lemma_explored_extend(
    width: int,
    height: int,
    free: Set<Cell>,
    visited: Set<Cell>,
    regions: Seq<Set<Cell>>,
    region: Set<Cell>,
    start: Cell,
)
    requires
        explored(width, height, free, visited, regions),
        visited.union(region).subset_of(free),
        region.disjoint(visited),
        region.finite(),
        linked_from(width, height, free, region, start),
        closed_under_steps(width, height, free, visited.union(region)),
    ensures
        explored(width, height, free, visited.union(region), regions.push(region)),
{
    let visited2 = visited.union(region);
    let regions2 = regions.push(region);
    let n = regions.len() as int;
    assert(regions2[n] == region);
    assert forall|i: int| 0 <= i < n implies #[trigger] regions2[i] == regions[i] by {}
    assert forall|i: int| 0 <= i < regions2.len() implies {
        let r = #[trigger] regions2[i];
        r.finite() && r.subset_of(visited2) && exists|root: Cell| #[trigger]
            linked_from(width, height, free, r, root)
    } by {
        if i < n {
            assert(regions2[i] == regions[i]);
        }
    }
    assert forall|i: int, j: int| 0 <= i < j < regions2.len() implies (#[trigger] regions2[i]).disjoint(
        #[trigger] regions2[j],
    ) by {
        assert(regions2[i] == regions[i]);
        if j < n {
            assert(regions2[j] == regions[j]);
        }
    }
    assert forall|c: Cell| visited2.contains(c) implies 0 <= #[trigger] part_of(regions2, c)
        < regions2.len() && regions2[part_of(regions2, c)].contains(c) by {
        if visited.contains(c) {
            let i = part_of(regions, c);
            assert(regions2[i].contains(c));
        } else {
            assert(regions2[n].contains(c));
        }
    }
    assert forall|i: int, a: Cell, b: Cell|
        0 <= i < regions2.len() && (#[trigger] regions2[i]).contains(a) && #[trigger] step(
            width,
            height,
            free,
            a,
            b,
        ) implies visited2.contains(b) && part_of(regions2, b) <= i by {
        if i < n {
            assert(regions[i].contains(a));
            let j = part_of(regions, b);
            assert(visited.contains(b));
            assert(regions2[j].contains(b));
            let j2 = part_of(regions2, b);
            if j2 != j {
                if j2 == n {
                    assert(region.contains(b) && visited.contains(b));
                } else if j2 < j {
                    assert(regions[j2].disjoint(regions[j]));
                } else {
                    assert(regions[j].disjoint(regions[j2]));
                }
            }
        } else {
            assert(visited2.contains(a));
            assert(visited2.contains(b));
        }
    }
}

/// Once every free cell is visited, the parts found are the regions.
proof fn lemma_explored_complete(width: int, height: int, free: Set<Cell>, regions: Seq<Set<Cell>>)
    requires
        explored(width, height, free, free, regions),
    ensures
        is_region_partition(width, height, free, regions),
{
    assert forall|i: int| 0 <= i < regions.len() implies is_region(
        width,
        height,
        free,
        #[trigger] regions[i],
    ) by {
        let r = regions[i];
        assert forall|a: Cell, b: Cell|
            r.contains(a) && free.contains(b) && in_grid(width, height, a) && in_grid(
                width,
                height,
                b,
            ) && #[trigger] adjacent(a, b) implies r.contains(b) by {
            assert(step(width, height, free, a, b));
            assert(step(width, height, free, b, a));
            let j = part_of(regions, b);
            assert(j <= i);
            assert(regions[j].contains(b));
            lemma_part_unique(width, height, free, free, regions, i, a);
            assert(part_of(regions, a) <= j);
        }
    }
    assert forall|c: Cell| free.contains(c) implies exists|i: int|
        0 <= i < regions.len() && (#[trigger] regions[i]).contains(c) by {
        assert(regions[part_of(regions, c)].contains(c));
    }
}

/// The sum grows by the size that is appended.
proof fn lemma_total_push(sizes: Seq<usize>, size: usize)
    ensures
        total(sizes.push(size)) == total(sizes) + size,
{
    assert(sizes.push(size).drop_last() =~= sizes);
}

/// Whether `after` is `before`, possibly with one more element at the back.
spec fn grown(before: Seq<Cell>, after: Seq<Cell>) -> bool {
    before.len() <= after.len() <= before.len() + 1 && forall|i: int|
        0 <= i < before.len() ==> after[i] == before[i]
}

/// Puts the cell `(x, y)` at the back of the queue if it lies inside the grid,
/// is free and has not been visited.
fn offer(
    width: i32,
    height: i32,
    free: &CellSet,
    visited: &CellSet,
    queue: &mut VecDeque<Cell>,
    x: i64,
    y: i64,
)
    ensures
        0 <= x < width && 0 <= y < height && free@.contains((x as i32, y as i32))
            && !visited@.contains((x as i32, y as i32)) ==> final(queue)@ == old(queue)@.push(
            (x as i32, y as i32),
        ),
        !(0 <= x < width && 0 <= y < height && free@.contains((x as i32, y as i32))
            && !visited@.contains((x as i32, y as i32))) ==> final(queue)@ == old(queue)@,
{
    if x >= 0 && x < width as i64 && y >= 0 && y < height as i64 {
        let neighbor: Cell = (x as i32, y as i32);
        if !visited.contains(neighbor) && free.contains(neighbor) {
            queue.push_back(neighbor);
        }
    }
}

/// Visits every cell that is reached from `start` and was not visited before,
/// breadth first, and returns how many there are, together with their set.
fn flood(
    width: i32,
    height: i32,
    free: &CellSet,
    visited: &mut CellSet,
    queue: &mut VecDeque<Cell>,
    start: Cell,
) -> (res: (usize, Ghost<Set<Cell>>))
    requires
        old(visited)@.subset_of(free@),
        free@.contains(start),
        !old(visited)@.contains(start),
        closed_under_steps(width as int, height as int, free@, old(visited)@),
    ensures
        final(visited)@ == old(visited)@.union(res.1@),
        final(visited)@.subset_of(free@),
        res.1@.disjoint(old(visited)@),
        res.1@.finite(),
        res.1@.len() == res.0,
        res.1@.contains(start),
        forall|c: Cell| res.1@.contains(c) ==> connected(width as int, height as int, free@, start, c),
        closed_under_steps(width as int, height as int, free@, final(visited)@),
{
    let ghost w = width as int;
    let ghost h = height as int;
    queue.clear();
    queue.push_back(start);
    let mut size: usize = 0;
    let ghost mut region: Set<Cell> = Set::empty();
    proof {
        free.lemma_finite();
        visited.lemma_finite();
        lemma_connected_refl(w, h, free@, start);
        assert(queue@[0] == start);
        assert(visited@ =~= old(visited)@.union(region));
    }
    loop
        invariant
            w == width as int,
            h == height as int,
            free@.finite(),
            visited@.finite(),
            visited@ == old(visited)@.union(region),
            visited@.subset_of(free@),
            region.disjoint(old(visited)@),
            region.finite(),
            region.len() == size,
            free@.contains(start),
            !old(visited)@.contains(start),
            region.contains(start) || queue@.contains(start),
            forall|i: int| 0 <= i < queue@.len() ==> free@.contains(#[trigger] queue@[i]),
            forall|i: int|
                0 <= i < queue@.len() ==> connected(w, h, free@, start, #[trigger] queue@[i]),
            forall|c: Cell| region.contains(c) ==> connected(w, h, free@, start, c),
            forall|a: Cell, b: Cell|
                visited@.contains(a) && #[trigger] step(w, h, free@, a, b) ==> visited@.contains(b)
                    || queue@.contains(b),
        ensures
            queue@.len() == 0,
        decreases free@.len() - visited@.len(), queue@.len(),
    {
        let ghost queue_before = queue@;
        let ghost visited_before = visited@;
        let next = queue.pop_front();
        if next.is_none() {
            break;
        }
        let c = next.unwrap();
        proof {
            assert(queue_before[0] == c);
            assert forall|b: Cell| queue_before.contains(b) implies b == c || queue@.contains(b) by {
                let i = choose|i: int| 0 <= i < queue_before.len() && queue_before[i] == b;
                if i > 0 {
                    assert(queue@[i - 1] == b);
                }
            }
            assert forall|i: int| 0 <= i < queue@.len() implies queue@[i] == queue_before[i + 1] by {}
        }
        if !visited.insert(c) {
            proof {
                assert(visited@ =~= visited_before);
                if !region.contains(start) {
                    assert(queue_before.contains(start));
                }
            }
            continue;
        }
        proof {
            lemma_len_subset(visited@, free@);
            lemma_len_subset(region.insert(c), visited@);
            free.lemma_finite();
            region = region.insert(c);
            assert(visited@ =~= old(visited)@.union(region));
        }
        size += 1;
        let ghost q0 = queue@;
        offer(width, height, free, visited, queue, c.0 as i64 - 1, c.1 as i64);
        let ghost q1 = queue@;
        offer(width, height, free, visited, queue, c.0 as i64 + 1, c.1 as i64);
        let ghost q2 = queue@;
        offer(width, height, free, visited, queue, c.0 as i64, c.1 as i64 - 1);
        let ghost q3 = queue@;
        offer(width, height, free, visited, queue, c.0 as i64, c.1 as i64 + 1);
        proof {
            let q4 = queue@;
            assert(grown(q0, q1) && grown(q1, q2) && grown(q2, q3) && grown(q3, q4));
            assert forall|i: int| 0 <= i < q4.len() implies free@.contains(#[trigger] q4[i])
                && connected(w, h, free@, start, q4[i]) by {
                let n = q4[i];
                if i < q0.len() {
                    assert(n == q0[i]);
                } else {
                    assert(step(w, h, free@, c, n));
                    lemma_connected_step(w, h, free@, start, c, n);
                }
            }
            assert forall|b: Cell| q0.contains(b) implies q4.contains(b) by {
                let i = choose|i: int| 0 <= i < q0.len() && q0[i] == b;
                assert(q4[i] == b);
            }
            assert forall|a: Cell, b: Cell|
                visited@.contains(a) && #[trigger] step(w, h, free@, a, b) implies visited@.contains(b)
                || q4.contains(b) by {
                if a == c {
                    if !visited@.contains(b) {
                        if b.0 == c.0 - 1 {
                            assert(q1[q1.len() - 1] == b);
                            assert(q4[q1.len() - 1] == b);
                        } else if b.0 == c.0 + 1 {
                            assert(q2[q2.len() - 1] == b);
                            assert(q4[q2.len() - 1] == b);
                        } else if b.1 == c.1 - 1 {
                            assert(q3[q3.len() - 1] == b);
                            assert(q4[q3.len() - 1] == b);
                        } else {
                            assert(q4[q4.len() - 1] == b);
                        }
                    }
                } else {
                    assert(visited_before.contains(a));
                }
            }
        }
    }
    proof {
        assert forall|a: Cell, b: Cell| visited@.contains(a) && #[trigger] step(w, h, free@, a, b)
            implies visited@.contains(b) by {
            if !visited@.contains(b) {
                assert(queue@.contains(b));
            }
        }
    }
    (size, Ghost(region))
}

/// Sizes of the regions of `free`, one entry per region in no particular
/// order, together with the regions themselves.
pub fn region_sizes(width: i32, height: i32, free: &CellSet) -> (res: (
    Vec<usize>,
    Ghost<Seq<Set<Cell>>>,
))
    ensures
        is_region_partition(width as int, height as int, free@, res.1@),
        sizes_match(res.0@, res.1@),
        total(res.0@) == free@.len(),
{
    let ghost w = width as int;
    let ghost h = height as int;
    let cells = free.to_vec();
    let mut spaces: Vec<usize> = Vec::new();
    let mut visited = CellSet::new();
    let mut queue: VecDeque<Cell> = VecDeque::new();
    let ghost mut regions: Seq<Set<Cell>> = Seq::empty();
    proof {
        free.lemma_finite();
    }
    for k in 0..cells.len()
        invariant
            w == width as int,
            h == height as int,
            free@.finite(),
            cells@.to_set() == free@,
            explored(w, h, free@, visited@, regions),
            closed_under_steps(w, h, free@, visited@),
            sizes_match(spaces@, regions),
            total(spaces@) == visited@.len(),
            forall|i: int| 0 <= i < k ==> visited@.contains(#[trigger] cells@[i]),
    {
        let start = cells[k];
        proof {
            assert(cells@.to_set().contains(cells@[k as int]));
        }
        if !visited.contains(start) {
            let ghost before = visited@;
            let (size, region) = flood(width, height, free, &mut visited, &mut queue, start);
            proof {
                visited.lemma_finite();
                lemma_set_disjoint_lens(before, region@);
                lemma_explored_extend(w, h, free@, before, regions, region@, start);
                lemma_total_push(spaces@, size);
                regions = regions.push(region@);
            }
            spaces.push(size);
        }
    }
    proof {
        assert(visited@ =~= free@) by {
            assert forall|c: Cell| free@.contains(c) implies visited@.contains(c) by {
                let i = choose|i: int| 0 <= i < cells@.len() && cells@[i] == c;
                assert(visited@.contains(cells@[i]));
            }
        }
        lemma_explored_complete(w, h, free@, regions);
    }
    (spaces, Ghost(regions))
}

/// The set of all cells of a grid.
pub open spec fn full_grid(width: int, height: int) -> Set<Cell> {
    Set::new(|c: Cell| in_grid(width, height, c))
}

/// The cells of row `y` in the columns before `width`.
spec fn row(width: int, y: i32) -> Set<Cell> {
    Set::new(|c: Cell| 0 <= c.0 < width && c.1 == y)
}

proof fn lemma_row_len(width: int, y: i32)
    requires
        0 <= width <= 0x8000_0000,
    ensures
        row(width, y).finite(),
        row(width, y).len() == width,
    decreases width,
{
    if width == 0 {
        assert(row(width, y) =~= Set::<Cell>::empty());
    } else {
        lemma_row_len(width - 1, y);
        let last: Cell = ((width - 1) as i32, y);
        assert(row(width, y) =~= row(width - 1, y).insert(last));
    }
}

/// A grid of `width` columns and `height` rows has `width * height` cells.
pub proof fn lemma_full_grid_len(width: int, height: int)
    requires
        0 <= width <= 0x8000_0000,
        0 <= height <= 0x8000_0000,
    ensures
        full_grid(width, height).finite(),
        full_grid(width, height).len() == width * height,
    decreases height,
{
    if height == 0 {
        assert(full_grid(width, height) =~= Set::<Cell>::empty());
        assert(width * height == 0);
    } else {
        lemma_full_grid_len(width, height - 1);
        let y = (height - 1) as i32;
        lemma_row_len(width, y);
        assert(full_grid(width, height) =~= full_grid(width, height - 1).union(row(width, y)));
        lemma_set_disjoint_lens(full_grid(width, height - 1), row(width, y));
        assert(width * height == width * (height - 1) + width) by (nonlinear_arith);
    }
}

/// Where nothing is free there is no region.
pub proof fn lemma_no_cells_no_regions(
    width: int,
    height: int,
    free: Set<Cell>,
    regions: Seq<Set<Cell>>,
)
    requires
        is_region_partition(width, height, free, regions),
        free =~= Set::<Cell>::empty(),
    ensures
        regions.len() == 0,
{
    if regions.len() > 0 {
        let r = regions[0];
        assert(is_region(width, height, free, r));
        let root = choose|root: Cell| #[trigger] linked_from(width, height, free, r, root);
        assert(free.contains(root));
    }
}

/// In a grid whose cells are all free, the region of the first cell holds the
/// cell `(x, y)`.
proof fn lemma_full_grid_reach(width: int, height: int, region: Set<Cell>, x: int, y: int)
    requires
        is_region(width, height, full_grid(width, height), region),
        region.contains((0i32, 0i32)),
        0 <= x < width <= 0x8000_0000,
        0 <= y < height <= 0x8000_0000,
    ensures
        region.contains((x as i32, y as i32)),
    decreases x + y,
{
    let free = full_grid(width, height);
    let c: Cell = (x as i32, y as i32);
    if x > 0 {
        lemma_full_grid_reach(width, height, region, x - 1, y);
        let a: Cell = ((x - 1) as i32, y as i32);
        assert(adjacent(a, c));
        assert(free.contains(c) && in_grid(width, height, a) && in_grid(width, height, c));
    } else if y > 0 {
        lemma_full_grid_reach(width, height, region, x, y - 1);
        let a: Cell = (x as i32, (y - 1) as i32);
        assert(adjacent(a, c));
        assert(free.contains(c) && in_grid(width, height, a) && in_grid(width, height, c));
    }
}

/// A grid whose cells are all free is a single region.
pub proof fn lemma_full_grid_one_region(width: int, height: int, regions: Seq<Set<Cell>>)
    requires
        0 < width <= 0x8000_0000,
        0 < height <= 0x8000_0000,
        is_region_partition(width, height, full_grid(width, height), regions),
    ensures
        regions.len() == 1,
        regions[0] == full_grid(width, height),
        regions[0].len() == width * height,
{
    let free = full_grid(width, height);
    let origin: Cell = (0i32, 0i32);
    assert(free.contains(origin));
    let i = choose|i: int| 0 <= i < regions.len() && (#[trigger] regions[i]).contains(origin);
    let r = regions[i];
    assert(is_region(width, height, free, r));
    assert forall|c: Cell| free.contains(c) implies r.contains(c) by {
        lemma_full_grid_reach(width, height, r, c.0 as int, c.1 as int);
    }
    assert(r =~= free);
    if regions.len() > 1 {
        let j: int = if i == 0 { 1 } else { 0 };
        let q = regions[j];
        assert(is_region(width, height, free, q));
        let root = choose|root: Cell| #[trigger] linked_from(width, height, free, q, root);
        assert(r.contains(root));
        if j < i {
            assert(regions[j].disjoint(regions[i]));
        } else {
            assert(regions[i].disjoint(regions[j]));
        }
    }
    lemma_full_grid_len(width, height);
}

/// The free cells that are reached from `c`.
pub open spec fn component(width: int, height: int, free: Set<Cell>, c: Cell) -> Set<Cell> {
    Set::new(|d: Cell| connected(width, height, free, c, d))
}

/// Whether every free cell lies inside the grid.
pub open spec fn all_in_grid(width: int, height: int, free: Set<Cell>) -> bool {
    forall|c: Cell| free.contains(c) ==> in_grid(width, height, c)
}

/// Whether the size of every region is a multiple of four.
pub open spec fn spacious(width: int, height: int, free: Set<Cell>) -> bool {
    forall|c: Cell| free.contains(c) ==> (#[trigger] component(width, height, free, c)).len() % 4 == 0
}

/// Two chains, one after the other, make a chain.
pub proof fn lemma_connected_trans(
    width: int,
    height: int,
    free: Set<Cell>,
    a: Cell,
    b: Cell,
    c: Cell,
)
    requires
        connected(width, height, free, a, b),
        connected(width, height, free, b, c),
    ensures
        connected(width, height, free, a, c),
{
    let p = choose|p: Seq<Cell>|
        #[trigger] is_path(width, height, free, p) && p.first() == a && p.last() == b;
    let q = choose|q: Seq<Cell>|
        #[trigger] is_path(width, height, free, q) && q.first() == b && q.last() == c;
    let r = p + q.drop_first();
    assert forall|i: int| 0 <= i < r.len() - 1 implies step(
        width,
        height,
        free,
        #[trigger] r[i],
        r[i + 1],
    ) by {
        if i < p.len() - 1 {
            assert(r[i] == p[i] && r[i + 1] == p[i + 1]);
        } else {
            let k = i - (p.len() - 1);
            assert(r[i] == q[k]);
            assert(r[i + 1] == q[k + 1]);
        }
    }
    assert(is_path(width, height, free, r) && r.first() == a && r.last() == c);
}

/// Where all free cells lie inside the grid, a chain can be walked backwards.
pub proof fn lemma_connected_sym(width: int, height: int, free: Set<Cell>, a: Cell, b: Cell)
    requires
        all_in_grid(width, height, free),
        connected(width, height, free, a, b),
    ensures
        connected(width, height, free, b, a),
{
    let p = choose|p: Seq<Cell>|
        #[trigger] is_path(width, height, free, p) && p.first() == a && p.last() == b;
    let r = p.reverse();
    let n = p.len() as int;
    assert forall|i: int| 0 <= i < n implies free.contains(p[i]) by {
        if i > 0 {
            assert(step(width, height, free, p[i - 1], p[i - 1 + 1]));
        }
    }
    assert forall|i: int| 0 <= i < r.len() - 1 implies step(
        width,
        height,
        free,
        #[trigger] r[i],
        r[i + 1],
    ) by {
        let k = n - 2 - i;
        assert(r[i] == p[k + 1] && r[i + 1] == p[k]);
        assert(step(width, height, free, p[k], p[k + 1]));
    }
    assert(is_path(width, height, free, r) && r.first() == b && r.last() == a);
}

/// A chain that starts inside a region stays inside it.
proof fn lemma_path_stays(
    width: int,
    height: int,
    free: Set<Cell>,
    region: Set<Cell>,
    path: Seq<Cell>,
    i: int,
)
    requires
        all_in_grid(width, height, free),
        is_region(width, height, free, region),
        is_path(width, height, free, path),
        region.contains(path[0]),
        0 <= i < path.len(),
    ensures
        region.contains(path[i]),
    decreases i,
{
    if i > 0 {
        lemma_path_stays(width, height, free, region, path, i - 1);
        assert(step(width, height, free, path[i - 1], path[i - 1 + 1]));
        assert(adjacent(path[i - 1], path[i]));
    }
}

/// Where all free cells lie inside the grid, a region is the set of the cells
/// reached from any of its cells.
pub proof fn lemma_region_is_component(
    width: int,
    height: int,
    free: Set<Cell>,
    region: Set<Cell>,
    c: Cell,
)
    requires
        all_in_grid(width, height, free),
        is_region(width, height, free, region),
        region.contains(c),
    ensures
        region =~= component(width, height, free, c),
{
    let root = choose|root: Cell| #[trigger] linked_from(width, height, free, region, root);
    assert(connected(width, height, free, root, c));
    lemma_connected_sym(width, height, free, root, c);
    assert forall|d: Cell| region.contains(d) implies component(width, height, free, c).contains(
        d,
    ) by {
        assert(connected(width, height, free, root, d));
        lemma_connected_trans(width, height, free, c, root, d);
    }
    assert forall|d: Cell| component(width, height, free, c).contains(d) implies region.contains(
        d,
    ) by {
        let p = choose|p: Seq<Cell>|
            #[trigger] is_path(width, height, free, p) && p.first() == c && p.last() == d;
        lemma_path_stays(width, height, free, region, p, p.len() - 1);
    }
}

/// Where all free cells lie inside the grid, every region has a size that is
/// a multiple of four exactly if every part of a partition has.
pub proof fn lemma_partition_spacious(
    width: int,
    height: int,
    free: Set<Cell>,
    regions: Seq<Set<Cell>>,
)
    requires
        all_in_grid(width, height, free),
        is_region_partition(width, height, free, regions),
    ensures
        spacious(width, height, free) <==> forall|i: int|
            0 <= i < regions.len() ==> (#[trigger] regions[i]).len() % 4 == 0,
{
    if spacious(width, height, free) {
        assert forall|i: int| 0 <= i < regions.len() implies (#[trigger] regions[i]).len() % 4
            == 0 by {
            let r = regions[i];
            assert(is_region(width, height, free, r));
            let root = choose|root: Cell| #[trigger] linked_from(width, height, free, r, root);
            lemma_region_is_component(width, height, free, r, root);
            assert(component(width, height, free, root).len() % 4 == 0);
        }
    }
    if forall|i: int| 0 <= i < regions.len() ==> (#[trigger] regions[i]).len() % 4 == 0 {
        assert forall|c: Cell| free.contains(c) implies (#[trigger] component(
            width,
            height,
            free,
            c,
        )).len() % 4 == 0 by {
            let i = choose|i: int| 0 <= i < regions.len() && (#[trigger] regions[i]).contains(c);
            assert(is_region(width, height, free, regions[i]));
            lemma_region_is_component(width, height, free, regions[i], c);
        }
    }
}

/// `HashSet::iter` of the standard library, on a set of coordinates: the
/// iterator hands out every element of the set once, in some order. vstd
/// states this of sets whose keys are of a primitive type; here it is taken
/// on trust for pairs of `i32`.
#[verifier::external_body]
fn iter_cells<'a>(cells: &'a HashSet<Cell>) -> (it: Iter<'a, Cell>)
    ensures
        it == spec_hash_keys_iter(cells),
        IteratorSpec::decrease(&it) is Some,
        IteratorSpec::initial_value_relation(&it, &it),
{
    cells.iter()
}

/// Sizes of the connected regions of the free cells of a `width` x `height`
/// grid, one entry per region, in no particular order.
///
/// The regions split the free cells: their sizes add up to the number of free
/// cells, no free cell yields no region, and a grid whose cells are all free
/// yields the single size `width * height`.
pub fn find_connected_region_sizes(
    width: i32,
    height: i32,
    free_cells: &HashSet<(i32, i32)>,
) -> (sizes: Vec<usize>)
    ensures
        exists|regions: Seq<Set<Cell>>|
            #[trigger] is_region_partition(width as int, height as int, free_cells@, regions)
                && sizes_match(sizes@, regions),
        total(sizes@) == free_cells@.len(),
        free_cells@ =~= Set::<Cell>::empty() ==> sizes@.len() == 0,
        width > 0 && height > 0 && free_cells@ =~= full_grid(width as int, height as int)
            ==> sizes@ =~= seq![(width * height) as usize],
{
    let mut free = CellSet::new();
    let ghost listed = spec_hash_keys_iter(free_cells).remaining();
    proof {
        vstd::std_specs::hash::axiom_spec_hash_keys_iter(free_cells);
    }
    for cell in it: iter_cells(free_cells)
        invariant
            it.seq() == listed,
            free@ == listed.take(it.index()).unref().to_set(),
    {
        proof {
            let i = it.index();
            assert(listed.take(i + 1).unref() =~= listed.take(i).unref().push(*cell));
            listed.take(i).unref().lemma_push_to_set_commute(*cell);
        }
        free.insert(*cell);
    }
    proof {
        assert(listed.take(listed.len() as int) =~= listed);
        assert(free@ == free_cells@);
    }
    let (sizes, regions) = region_sizes(width, height, &free);
    proof {
        let w = width as int;
        let h = height as int;
        assert(is_region_partition(w, h, free_cells@, regions@) && sizes_match(sizes@, regions@));
        if free_cells@ =~= Set::<Cell>::empty() {
            lemma_no_cells_no_regions(w, h, free_cells@, regions@);
        }
        if width > 0 && height > 0 && free_cells@ =~= full_grid(w, h) {
            lemma_full_grid_one_region(w, h, regions@);
            assert(sizes@[0] == regions@[0].len());
        }
    }
    sizes
}

} // verus!
