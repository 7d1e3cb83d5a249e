//! Connected-region analysis: breadth-first flood fill computing the maximal
//! orthogonally-connected group of cells sharing the start cell's
//! classification, together with the adjacent border cells whose occupant
//! differs. This is the shared primitive behind capture detection, the
//! suicide test, territory scoring and eye detection.

use vstd::prelude::*;

use crate::board::{adjacent, cell, in_bounds, Board, Coordinates};
use crate::stones::Stone;

verus! {

/// Whether the cell at `c` matches classification `class`. When
/// `through_empty` is set, empty cells match as well, so traversal crosses
/// region boundaries at empty cells (territory mode); otherwise it stops at
/// them (liberty mode).
pub open spec fn matches_class(
    v: Seq<Seq<Stone>>,
    c: Coordinates,
    class: Stone,
    through_empty: bool,
) -> bool {
    cell(v, c) == class || (through_empty && cell(v, c) == Stone::Empty)
}

/// A non-empty chain of orthogonally adjacent, in-bounds cells that all match
/// `class`.
pub open spec fn is_path(
    v: Seq<Seq<Stone>>,
    n: int,
    class: Stone,
    through_empty: bool,
    p: Seq<Coordinates>,
) -> bool {
    &&& p.len() > 0
    &&& forall|i: int|
        0 <= i < p.len() ==> in_bounds(n, #[trigger] p[i]) && matches_class(
            v,
            p[i],
            class,
            through_empty,
        )
    &&& forall|i: int| 0 <= i < p.len() - 1 ==> adjacent(#[trigger] p[i], p[i + 1])
}

/// Whether `b` can be reached from `a` through cells matching `class`.
pub open spec fn connected(
    v: Seq<Seq<Stone>>,
    n: int,
    class: Stone,
    through_empty: bool,
    a: Coordinates,
    b: Coordinates,
) -> bool {
    exists|p: Seq<Coordinates>|
        is_path(v, n, class, through_empty, p) && p.first() == a && p.last() == b
}

/// Membership in the maximal connected group of the start cell: `c` belongs
/// to the region of `start` exactly when it is reachable from `start`
/// through cells matching the start cell's classification.
pub open spec fn in_group(
    v: Seq<Seq<Stone>>,
    n: int,
    start: Coordinates,
    through_empty: bool,
    c: Coordinates,
) -> bool {
    connected(v, n, cell(v, start), through_empty, start, c)
}

/// Membership in the border of the region of `start`: an in-bounds cell that
/// does not match the start cell's classification and is orthogonally
/// adjacent to some member of the group.
pub open spec fn in_border(
    v: Seq<Seq<Stone>>,
    n: int,
    start: Coordinates,
    through_empty: bool,
    c: Coordinates,
) -> bool {
    &&& in_bounds(n, c)
    &&& !matches_class(v, c, cell(v, start), through_empty)
    &&& exists|g: Coordinates|
        #[trigger] in_group(v, n, start, through_empty, g) && adjacent(g, c)
}

/// An in-bounds matching cell is connected to itself.
pub proof fn lemma_connected_refl(
    v: Seq<Seq<Stone>>,
    n: int,
    class: Stone,
    through_empty: bool,
    a: Coordinates,
)
    requires
        in_bounds(n, a),
        matches_class(v, a, class, through_empty),
    ensures
        connected(v, n, class, through_empty, a, a),
{
    let p = seq![a];
    assert(is_path(v, n, class, through_empty, p));
    assert(p.first() == a && p.last() == a);
}

/// Connectivity extends across one step to an adjacent matching cell.
pub proof fn lemma_connected_step(
    v: Seq<Seq<Stone>>,
    n: int,
    class: Stone,
    through_empty: bool,
    a: Coordinates,
    b: Coordinates,
    c: Coordinates,
)
    requires
        connected(v, n, class, through_empty, a, b),
        adjacent(b, c),
        in_bounds(n, c),
        matches_class(v, c, class, through_empty),
    ensures
        connected(v, n, class, through_empty, a, c),
{
    let p = choose|p: Seq<Coordinates>|
        is_path(v, n, class, through_empty, p) && p.first() == a && p.last() == b;
    let q = p.push(c);
    assert forall|i: int| 0 <= i < q.len() - 1 implies adjacent(#[trigger] q[i], q[i + 1]) by {
        if i < p.len() - 1 {
            assert(q[i] == p[i] && q[i + 1] == p[i + 1]);
        } else {
            assert(q[i] == p.last() && q[i + 1] == c);
        }
    }
    assert(is_path(v, n, class, through_empty, q));
    assert(q.first() == a && q.last() == c);
}

/// A path starting inside a neighbour-closed collection of cells ends inside
/// it as well.
proof fn lemma_path_stays_in_closed(
    v: Seq<Seq<Stone>>,
    n: int,
    class: Stone,
    through_empty: bool,
    g: Seq<Coordinates>,
    p: Seq<Coordinates>,
)
    requires
        is_path(v, n, class, through_empty, p),
        g.contains(p.first()),
        forall|x: Coordinates, m: Coordinates|
            g.contains(x) && adjacent(x, m) && in_bounds(n, m) && matches_class(
                v,
                m,
                class,
                through_empty,
            ) ==> g.contains(m),
    ensures
        g.contains(p.last()),
    decreases p.len(),
{
    if p.len() > 1 {
        let q = p.drop_last();
        assert(is_path(v, n, class, through_empty, q));
        assert(q.first() == p.first());
        lemma_path_stays_in_closed(v, n, class, through_empty, g, q);
        assert(adjacent(p[p.len() - 2], p[p.len() - 1]));
        assert(q.last() == p[p.len() - 2]);
    }
}

/// Completeness of a neighbour-closed collection that contains the start
/// cell: it contains the whole connected group of the start cell.
pub proof fn lemma_closure_complete(
    v: Seq<Seq<Stone>>,
    n: int,
    class: Stone,
    through_empty: bool,
    g: Seq<Coordinates>,
    start: Coordinates,
    d: Coordinates,
)
    requires
        g.contains(start),
        forall|x: Coordinates, m: Coordinates|
            g.contains(x) && adjacent(x, m) && in_bounds(n, m) && matches_class(
                v,
                m,
                class,
                through_empty,
            ) ==> g.contains(m),
        connected(v, n, class, through_empty, start, d),
    ensures
        g.contains(d),
{
    let p = choose|p: Seq<Coordinates>|
        is_path(v, n, class, through_empty, p) && p.first() == start && p.last() == d;
    lemma_path_stays_in_closed(v, n, class, through_empty, g, p);
}

/// Every member of a group is in bounds and matches the start cell's
/// classification.
pub proof fn lemma_in_group_matches(
    v: Seq<Seq<Stone>>,
    n: int,
    start: Coordinates,
    through_empty: bool,
    d: Coordinates,
)
    requires
        in_group(v, n, start, through_empty, d),
    ensures
        in_bounds(n, d),
        matches_class(v, d, cell(v, start), through_empty),
{
    let class = cell(v, start);
    let p = choose|p: Seq<Coordinates>|
        is_path(v, n, class, through_empty, p) && p.first() == start && p.last() == d;
    assert(p[p.len() - 1] == d);
}

/// Connectivity is symmetric: a path can be walked backwards.
pub proof fn lemma_connected_sym(
    v: Seq<Seq<Stone>>,
    n: int,
    class: Stone,
    through_empty: bool,
    a: Coordinates,
    b: Coordinates,
)
    requires
        connected(v, n, class, through_empty, a, b),
    ensures
        connected(v, n, class, through_empty, b, a),
{
    let p = choose|p: Seq<Coordinates>|
        is_path(v, n, class, through_empty, p) && p.first() == a && p.last() == b;
    let q = p.reverse();
    assert forall|i: int| 0 <= i < q.len() - 1 implies adjacent(#[trigger] q[i], q[i + 1]) by {
        assert(q[i] == p[p.len() - 1 - i]);
        assert(q[i + 1] == p[p.len() - 2 - i]);
        assert(adjacent(p[p.len() - 2 - i], p[p.len() - 1 - i]));
    }
    assert(is_path(v, n, class, through_empty, q));
    assert(q.first() == b && q.last() == a);
}

/// Connectivity is transitive: two paths concatenate.
pub proof fn lemma_connected_trans(
    v: Seq<Seq<Stone>>,
    n: int,
    class: Stone,
    through_empty: bool,
    a: Coordinates,
    b: Coordinates,
    c: Coordinates,
)
    requires
        connected(v, n, class, through_empty, a, b),
        connected(v, n, class, through_empty, b, c),
    ensures
        connected(v, n, class, through_empty, a, c),
{
    let p = choose|p: Seq<Coordinates>|
        is_path(v, n, class, through_empty, p) && p.first() == a && p.last() == b;
    let q = choose|q: Seq<Coordinates>|
        is_path(v, n, class, through_empty, q) && q.first() == b && q.last() == c;
    if q.len() == 1 {
        assert(b == c);
    } else {
        let r = p + q.drop_first();
        assert(r.len() == p.len() + q.len() - 1);
        assert forall|i: int| 0 <= i < r.len() implies in_bounds(n, #[trigger] r[i])
            && matches_class(v, r[i], class, through_empty) by {
            if i < p.len() {
                assert(r[i] == p[i]);
            } else {
                assert(r[i] == q[i - p.len() + 1]);
            }
        }
        assert forall|i: int| 0 <= i < r.len() - 1 implies adjacent(#[trigger] r[i], r[i + 1]) by {
            if i + 1 < p.len() {
                assert(r[i] == p[i] && r[i + 1] == p[i + 1]);
            } else if i + 1 == p.len() {
                assert(r[i] == p.last() && r[i + 1] == q[1]);
                assert(adjacent(q[0], q[1]));
            } else {
                assert(r[i] == q[i - p.len() + 1] && r[i + 1] == q[i - p.len() + 2]);
                assert(adjacent(q[i - p.len() + 1], q[i - p.len() + 2]));
            }
        }
        assert(is_path(v, n, class, through_empty, r));
        assert(r.first() == a && r.last() == c);
    }
}

/// Two cells of one group, holding the same occupant, have the same group
/// and the same border.
pub proof fn lemma_same_group_same_border(
    v: Seq<Seq<Stone>>,
    n: int,
    through_empty: bool,
    a: Coordinates,
    d: Coordinates,
)
    requires
        in_group(v, n, a, through_empty, d),
        cell(v, a) == cell(v, d),
    ensures
        forall|x: Coordinates|
            #![trigger in_group(v, n, a, through_empty, x), in_group(v, n, d, through_empty, x)]
            in_group(v, n, a, through_empty, x) <==> in_group(v, n, d, through_empty, x),
        forall|m: Coordinates|
            #![trigger in_border(v, n, a, through_empty, m), in_border(v, n, d, through_empty, m)]
            in_border(v, n, a, through_empty, m) <==> in_border(v, n, d, through_empty, m),
{
    let class = cell(v, a);
    assert forall|x: Coordinates|
        in_group(v, n, a, through_empty, x) <==> in_group(v, n, d, through_empty, x) by {
        if in_group(v, n, a, through_empty, x) {
            lemma_connected_sym(v, n, class, through_empty, a, d);
            lemma_connected_trans(v, n, class, through_empty, d, a, x);
        }
        if in_group(v, n, d, through_empty, x) {
            lemma_connected_trans(v, n, class, through_empty, a, d, x);
        }
    }
    assert forall|m: Coordinates|
        in_border(v, n, a, through_empty, m) <==> in_border(v, n, d, through_empty, m) by {
        if in_border(v, n, a, through_empty, m) {
            let g = choose|g: Coordinates|
                #[trigger] in_group(v, n, a, through_empty, g) && adjacent(g, m);
            assert(in_group(v, n, d, through_empty, g) && adjacent(g, m));
        }
        if in_border(v, n, d, through_empty, m) {
            let g = choose|g: Coordinates|
                #[trigger] in_group(v, n, d, through_empty, g) && adjacent(g, m);
            assert(in_group(v, n, a, through_empty, g) && adjacent(g, m));
        }
    }
}

/// A duplicate-free sequence of in-bounds coordinates has at most n * n
/// entries.
pub proof fn lemma_distinct_coords_bounded(s: Seq<Coordinates>, n: int)
    requires
        s.no_duplicates(),
        n >= 0,
        forall|i: int| 0 <= i < s.len() ==> in_bounds(n, #[trigger] s[i]),
    ensures
        s.len() <= n * n,
{
    broadcast use vstd::seq_lib::group_seq_properties;
    broadcast use vstd::set::group_set_axioms;
    broadcast use vstd::seq_lib::seq_to_set_is_finite;

    let f = |c: Coordinates| c.0 as int * n + c.1 as int;
    let t = s.map_values(f);
    assert(t.len() == s.len());
    assert forall|i: int, j: int| 0 <= i < t.len() && 0 <= j < t.len() && i != j implies t[i]
        != t[j] by {
        let a = s[i];
        let b = s[j];
        assert(a != b);
        assert(a.0 < n && a.1 < n && b.0 < n && b.1 < n);
        assert(a.0 as int * n + a.1 as int != b.0 as int * n + b.1 as int) by (nonlinear_arith)
            requires
                a.0 < n,
                a.1 < n,
                b.0 < n,
                b.1 < n,
                a != b,
        {}
    }
    assert(t.no_duplicates());
    t.unique_seq_to_set();
    assert forall|x: int| t.to_set().contains(x) implies vstd::set_lib::set_int_range(
        0,
        n * n,
    ).contains(x) by {
        let i = choose|i: int| 0 <= i < t.len() && t[i] == x;
        let a = s[i];
        assert(0 <= (a.0 as int) * n + (a.1 as int) && (a.0 as int) * n + (a.1 as int) < n * n)
            by (nonlinear_arith)
            requires
                a.0 < n,
                a.1 < n,
        {}
    }
    vstd::set_lib::lemma_int_range(0, n * n);
    vstd::set_lib::lemma_len_subset(t.to_set(), vstd::set_lib::set_int_range(0, n * n));
}

/// Classification law of a flood-fill result: every member of the group
/// matches the start cell's classification, every member of the border
/// differs from it, and neither list repeats a coordinate.
pub proof fn lemma_region_classification(
    v: Seq<Seq<Stone>>,
    start: Coordinates,
    add_border: bool,
    through_empty: bool,
    r: Region,
)
    requires
        region_exact(v, start, add_border, through_empty, r),
    ensures
        forall|i: int|
            0 <= i < r.group@.len() ==> matches_class(
                v,
                #[trigger] r.group@[i],
                cell(v, start),
                through_empty,
            ) && in_bounds(v.len() as int, r.group@[i]),
        forall|i: int|
            0 <= i < r.border@.len() ==> !matches_class(
                v,
                #[trigger] r.border@[i],
                cell(v, start),
                through_empty,
            ) && in_bounds(v.len() as int, r.border@[i]),
        r.group@.no_duplicates(),
        r.border@.no_duplicates(),
{
    let n = v.len() as int;
    assert forall|i: int| 0 <= i < r.group@.len() implies matches_class(
        v,
        #[trigger] r.group@[i],
        cell(v, start),
        through_empty,
    ) && in_bounds(n, r.group@[i]) by {
        assert(r.group@.contains(r.group@[i]));
        lemma_in_group_matches(v, n, start, through_empty, r.group@[i]);
    }
    assert forall|i: int| 0 <= i < r.border@.len() implies !matches_class(
        v,
        #[trigger] r.border@[i],
        cell(v, start),
        through_empty,
    ) && in_bounds(n, r.border@[i]) by {
        assert(r.border@.contains(r.border@[i]));
        if add_border {
            assert(in_border(v, n, start, through_empty, r.border@[i]));
        }
    }
}

/// The result of a flood fill: the connected group of the start cell, and,
/// when requested, its border. Recomputed on demand, never persisted.
pub struct Region {
    pub group: Vec<Coordinates>,
    pub border: Vec<Coordinates>,
}

/// Exactness of a flood-fill result: the group lists, without repetition,
/// precisely the cells of the start cell's maximal connected group, and the
/// border (when requested) precisely the adjacent differing cells.
pub open spec fn region_exact(
    v: Seq<Seq<Stone>>,
    start: Coordinates,
    add_border: bool,
    through_empty: bool,
    r: Region,
) -> bool {
    let n = v.len() as int;
    &&& r.group@.no_duplicates()
    &&& forall|c: Coordinates| r.group@.contains(c) <==> in_group(v, n, start, through_empty, c)
    &&& r.border@.no_duplicates()
    &&& add_border ==> forall|c: Coordinates|
        r.border@.contains(c) <==> in_border(v, n, start, through_empty, c)
    &&& !add_border ==> r.border@.len() == 0
}

/// The orthogonal in-bounds neighbours of `c` on a grid of side `n`, in
/// fixed order: the cell above, below, to the left, then to the right, each
/// present exactly when it lies on the grid.
pub open spec fn spec_neighbors(c: Coordinates, n: int) -> Seq<Coordinates> {
    let up: Seq<Coordinates> = if c.0 != 0 {
        seq![(((c.0 - 1) as usize), c.1)]
    } else {
        Seq::empty()
    };
    let down: Seq<Coordinates> = if c.0 + 1 < n {
        seq![(((c.0 + 1) as usize), c.1)]
    } else {
        Seq::empty()
    };
    let left: Seq<Coordinates> = if c.1 != 0 {
        seq![(c.0, ((c.1 - 1) as usize))]
    } else {
        Seq::empty()
    };
    let right: Seq<Coordinates> = if c.1 + 1 < n {
        seq![(c.0, ((c.1 + 1) as usize))]
    } else {
        Seq::empty()
    };
    up + down + left + right
}

/// The orthogonal in-bounds neighbours of a coordinate, each listed once,
/// in the fixed order above, below, left, right.
pub fn neighbors_indices(c: Coordinates, n: usize) -> (r: Vec<Coordinates>)
    requires
        in_bounds(n as int, c),
    ensures
        r@ == spec_neighbors(c, n as int),
        r@.no_duplicates(),
        forall|i: int|
            0 <= i < r@.len() ==> in_bounds(n as int, #[trigger] r@[i]) && adjacent(c, r@[i]),
        forall|m: Coordinates| in_bounds(n as int, m) && adjacent(c, m) ==> r@.contains(m),
{
    let (x, y) = c;
    let mut r: Vec<Coordinates> = Vec::new();
    if x != 0 {
        r.push((x - 1, y));
    }
    if x + 1 < n {
        r.push((x + 1, y));
    }
    if y != 0 {
        r.push((x, y - 1));
    }
    if y + 1 < n {
        r.push((x, y + 1));
    }
    proof {
        assert forall|m: Coordinates| in_bounds(n as int, m) && adjacent(c, m) implies r@.contains(
            m,
        ) by {
            if m.0 == x && m.1 == y + 1 {
                assert(r@.last() == m);
            } else if m.0 == x && m.1 + 1 == y {
                assert(r@[r@.len() - (if y + 1 < n { 2int } else { 1int })] == m);
            } else if m.1 == y && m.0 == x + 1 {
                assert(r@[if x != 0 { 1int } else { 0int }] == m);
            } else {
                assert(m.1 == y && m.0 + 1 == x);
                assert(r@[0] == m);
            }
        }
        assert(r@ =~= spec_neighbors(c, n as int));
    }
    r
}

/// Well-formed square grid of boolean marks.
spec fn bgwf(g: Vec<Vec<bool>>, n: int) -> bool {
    &&& g@.len() == n
    &&& forall|i: int| 0 <= i < n ==> (#[trigger] g@[i])@.len() == n
}

/// The mark at coordinate `c`.
spec fn bmark(g: Vec<Vec<bool>>, c: Coordinates) -> bool {
    g@[c.0 as int]@[c.1 as int]
}

/// An n-by-n grid of cleared marks.
fn bool_grid(n: usize) -> (r: Vec<Vec<bool>>)
    ensures
        bgwf(r, n as int),
        forall|c: Coordinates| in_bounds(n as int, c) ==> !bmark(r, c),
{
    let mut g: Vec<Vec<bool>> = Vec::new();
    let mut i: usize = 0;
    while i < n
        invariant
            i <= n,
            g@.len() == i,
            forall|k: int| 0 <= k < i ==> (#[trigger] g@[k])@.len() == n,
            forall|k: int, l: int| 0 <= k < i && 0 <= l < n ==> !(#[trigger] g@[k]@[l]),
        decreases n - i,
    {
        let mut row: Vec<bool> = Vec::new();
        let mut j: usize = 0;
        while j < n
            invariant
                j <= n,
                row@.len() == j,
                forall|l: int| 0 <= l < j ==> !(#[trigger] row@[l]),
            decreases n - j,
        {
            row.push(false);
            j = j + 1;
        }
        g.push(row);
        i = i + 1;
    }
    g
}

/// Sets the mark at `c`, leaving every other mark unchanged.
fn grid_mark(g: &mut Vec<Vec<bool>>, c: Coordinates, n: usize)
    requires
        bgwf(*old(g), n as int),
        in_bounds(n as int, c),
    ensures
        bgwf(*final(g), n as int),
        bmark(*final(g), c),
        forall|d: Coordinates|
            in_bounds(n as int, d) && d != c ==> bmark(*final(g), d) == bmark(*old(g), d),
{
    let row: &mut Vec<bool> = &mut g[c.0];
    row.set(c.1, true);
}

/// Reads the mark at `c`.
fn grid_get(g: &Vec<Vec<bool>>, c: Coordinates, n: usize) -> (r: bool)
    requires
        bgwf(*g, n as int),
        in_bounds(n as int, c),
    ensures
        r == bmark(*g, c),
{
    g[c.0][c.1]
}

/// Breadth-first flood fill from `coords`. Computes the maximal
/// orthogonally-connected group of cells matching the start cell's
/// classification, visiting no coordinate twice. With `add_border` the
/// adjacent non-matching cells are recorded as the border; with `add_empty`
/// the traversal continues through empty cells (territory mode) instead of
/// stopping at them (liberty mode).
#[verifier::loop_isolation(false)]
pub fn flood_fill(board: &Board, coords: Coordinates, add_border: bool, add_empty: bool) -> (r:
    Region)
    requires
        board.wf(),
        in_bounds(board@.len() as int, coords),
    ensures
        region_exact(board@, coords, add_border, add_empty, r),
{
    let ghost v = board@;
    let n = board.side();
    let ghost ni = n as int;
    let start_stone = board.get(coords);
    let ghost class = cell(v, coords);
    let mut visited = bool_grid(n);
    let mut bordered = bool_grid(n);
    let mut queue: Vec<Coordinates> = Vec::new();
    let mut border: Vec<Coordinates> = Vec::new();
    let mut head: usize = 0;

    queue.push(coords);
    grid_mark(&mut visited, coords, n);
    proof {
        lemma_connected_refl(v, ni, class, add_empty, coords);
        assert(queue@[0] == coords);
        assert(queue@.contains(coords));
        assert(1 <= ni * ni) by (nonlinear_arith)
            requires
                ni >= 1,
        {}
    }

    while head < queue.len()
        invariant
            bgwf(visited, ni),
            bgwf(bordered, ni),
            head <= queue@.len(),
            queue@.len() <= ni * ni,
            queue@.no_duplicates(),
            queue@.contains(coords),
            forall|i: int|
                0 <= i < queue@.len() ==> in_bounds(ni, #[trigger] queue@[i]) && matches_class(
                    v,
                    queue@[i],
                    class,
                    add_empty,
                ) && in_group(v, ni, coords, add_empty, queue@[i]),
            forall|c: Coordinates|
                in_bounds(ni, c) ==> (bmark(visited, c) <==> queue@.contains(c)),
            forall|i: int, m: Coordinates|
                0 <= i < head && #[trigger] adjacent(queue@[i], m) && in_bounds(ni, m) ==> (
                matches_class(v, m, class, add_empty) ==> queue@.contains(m)) && (!matches_class(
                    v,
                    m,
                    class,
                    add_empty,
                ) && add_border ==> border@.contains(m)),
            border@.no_duplicates(),
            forall|c: Coordinates|
                in_bounds(ni, c) ==> (bmark(bordered, c) <==> border@.contains(c)),
            forall|i: int|
                0 <= i < border@.len() ==> in_border(
                    v,
                    ni,
                    coords,
                    add_empty,
                    #[trigger] border@[i],
                ),
            !add_border ==> border@.len() == 0,
        decreases ni * ni - head,
    {
        let c = queue[head];
        let neighbors = neighbors_indices(c, n);
        let mut k: usize = 0;
        while k < neighbors.len()
            invariant
                bgwf(visited, ni),
                bgwf(bordered, ni),
                k <= neighbors@.len(),
                queue@.len() <= ni * ni,
                queue@.no_duplicates(),
                queue@.contains(coords),
                head < queue@.len(),
                c == queue@[head as int],
                forall|i: int|
                    0 <= i < queue@.len() ==> in_bounds(ni, #[trigger] queue@[i]) && matches_class(
                        v,
                        queue@[i],
                        class,
                        add_empty,
                    ) && in_group(v, ni, coords, add_empty, queue@[i]),
                forall|cc: Coordinates|
                    in_bounds(ni, cc) ==> (bmark(visited, cc) <==> queue@.contains(cc)),
                forall|i: int, m: Coordinates|
                    0 <= i < head && #[trigger] adjacent(queue@[i], m) && in_bounds(ni, m) ==> (
                    matches_class(v, m, class, add_empty) ==> queue@.contains(m)) && (
                !matches_class(v, m, class, add_empty) && add_border ==> border@.contains(m)),
                forall|j: int|
                    0 <= j < k ==> (matches_class(v, #[trigger] neighbors@[j], class, add_empty)
                        ==> queue@.contains(neighbors@[j])) && (!matches_class(
                        v,
                        neighbors@[j],
                        class,
                        add_empty,
                    ) && add_border ==> border@.contains(neighbors@[j])),
                border@.no_duplicates(),
                forall|cc: Coordinates|
                    in_bounds(ni, cc) ==> (bmark(bordered, cc) <==> border@.contains(cc)),
                forall|i: int|
                    0 <= i < border@.len() ==> in_border(
                        v,
                        ni,
                        coords,
                        add_empty,
                        #[trigger] border@[i],
                    ),
                !add_border ==> border@.len() == 0,
            decreases neighbors@.len() - k,
        {
            let m = neighbors[k];
            let sm = board.get(m);
            let is_match = sm == start_stone || (add_empty && sm == Stone::Empty);
            proof {
                assert(is_match == matches_class(v, m, class, add_empty));
            }
            if is_match {
                if !grid_get(&visited, m, n) {
                    proof {
                        lemma_connected_step(v, ni, class, add_empty, coords, c, m);
                    }
                    let ghost oldq = queue@;
                    queue.push(m);
                    grid_mark(&mut visited, m, n);
                    proof {
                        assert(queue@ =~= oldq.push(m));
                        assert(queue@.last() == m);
                        assert(queue@.contains(m));
                        assert(queue@.no_duplicates());
                        assert(queue@.contains(coords)) by {
                            let i = choose|i: int| 0 <= i < oldq.len() && oldq[i] == coords;
                            assert(queue@[i] == coords);
                        }
                        assert forall|cc: Coordinates| in_bounds(ni, cc) implies (bmark(
                            visited,
                            cc,
                        ) <==> queue@.contains(cc)) by {
                            if cc != m {
                                if oldq.contains(cc) {
                                    let i = choose|i: int| 0 <= i < oldq.len() && oldq[i] == cc;
                                    assert(queue@[i] == cc);
                                }
                                if queue@.contains(cc) {
                                    let i = choose|i: int| 0 <= i < queue@.len() && queue@[i]
                                        == cc;
                                    assert(i < oldq.len());
                                    assert(oldq[i] == cc);
                                }
                            }
                        }
                        lemma_distinct_coords_bounded(queue@, ni);
                    }
                }
            } else {
                if add_border {
                    if !grid_get(&bordered, m, n) {
                        proof {
                            assert(in_group(v, ni, coords, add_empty, c) && adjacent(c, m));
                            assert(in_border(v, ni, coords, add_empty, m));
                        }
                        let ghost oldb = border@;
                        border.push(m);
                        grid_mark(&mut bordered, m, n);
                        proof {
                            assert(border@ =~= oldb.push(m));
                            assert(border@.last() == m);
                            assert(border@.contains(m));
                            assert(border@.no_duplicates());
                            assert forall|cc: Coordinates| in_bounds(ni, cc) implies (bmark(
                                bordered,
                                cc,
                            ) <==> border@.contains(cc)) by {
                                if cc != m {
                                    if oldb.contains(cc) {
                                        let i = choose|i: int|
                                            0 <= i < oldb.len() && oldb[i] == cc;
                                        assert(border@[i] == cc);
                                    }
                                    if border@.contains(cc) {
                                        let i = choose|i: int|
                                            0 <= i < border@.len() && border@[i] == cc;
                                        assert(i < oldb.len());
                                        assert(oldb[i] == cc);
                                    }
                                }
                            }
                        }
                    }
                }
            }
            k = k + 1;
        }
        head = head + 1;
    }

    proof {
        assert forall|d: Coordinates| in_group(v, ni, coords, add_empty, d) implies queue@.contains(
            d,
        ) by {
            assert forall|x: Coordinates, m: Coordinates|
                queue@.contains(x) && adjacent(x, m) && in_bounds(ni, m) && matches_class(
                    v,
                    m,
                    class,
                    add_empty,
                ) implies queue@.contains(m) by {
                let i = choose|i: int| 0 <= i < queue@.len() && queue@[i] == x;
            }
            lemma_closure_complete(v, ni, class, add_empty, queue@, coords, d);
        }
        if add_border {
            assert forall|cc: Coordinates| in_border(v, ni, coords, add_empty, cc) implies
                border@.contains(cc) by {
                let g = choose|g: Coordinates|
                    #[trigger] in_group(v, ni, coords, add_empty, g) && adjacent(g, cc);
                assert(queue@.contains(g));
                let i = choose|i: int| 0 <= i < queue@.len() && queue@[i] == g;
                assert(adjacent(queue@[i], cc));
            }
        }
    }
    Region { group: queue, border }
}

} // verus!
