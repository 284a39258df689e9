use vstd::prelude::*;
use vstd::arithmetic::div_mod::{
    lemma_div_denominator, lemma_div_is_ordered, lemma_div_pos_is_pos, lemma_fundamental_div_mod,
    lemma_fundamental_div_mod_converse_div, lemma_fundamental_div_mod_converse_mod,
    lemma_mod_division_less_than_divisor,
};
use vstd::math::abs;
use crate::math::{div_floor, V3, Vec3i};
use crate::particle::{ConfigError, Particle, CELL_LIMIT, POS_LIMIT};

verus! {

/// Integer coordinate of one grid cell.
#[derive(Clone, Copy, Debug, PartialEq, Eq, Structural)]
pub struct Cell {
    pub x: i64,
    pub y: i64,
    pub z: i64,
}

impl View for Cell {
    type V = (int, int, int);

    open spec fn view(&self) -> (int, int, int) {
        (self.x as int, self.y as int, self.z as int)
    }
}

/// The cell that holds a position: the coordinate divided by the cell
/// edge, rounded toward negative infinity on every axis.
pub open spec fn cell_of(p: V3, s: int) -> (int, int, int) {
    (p.x / s, p.y / s, p.z / s)
}

/// Two cell coordinates that differ by at most one step on every axis:
/// the same cell, or one of its 26 face, edge or corner neighbours.
pub open spec fn adjacent(a: (int, int, int), b: (int, int, int)) -> bool {
    &&& -1 <= a.0 - b.0 <= 1
    &&& -1 <= a.1 - b.1 <= 1
    &&& -1 <= a.2 - b.2 <= 1
}

/// Flooring a coordinate by a positive edge never grows its magnitude.
pub proof fn lemma_floor_div_in_range(a: int, s: int)
    requires
        s >= 1,
    ensures
        -abs(a) <= a / s <= abs(a),
{
    lemma_fundamental_div_mod(a, s);
    lemma_mod_division_less_than_divisor(a, s);
    let q = a / s;
    let r = a % s;
    assert(-abs(a) <= q <= abs(a)) by (nonlinear_arith)
        requires
            a == s * q + r,
            0 <= r < s,
            s >= 1,
    ;
}

/// A uniform spatial hash: each populated cell coordinate maps to the
/// identities inserted into it, in insertion order. The grid is a derived
/// index — cleared and rebuilt every sub-step — never the source of truth.
#[derive(Debug)]
pub struct Grid {
    /// Edge of one cubic cell, in sub-units.
    pub cell_size: i64,
    /// One entry per populated cell; coordinates are pairwise distinct.
    pub cells: Vec<(Cell, Vec<usize>)>,
}

impl Grid {
    /// A usable grid: positive cell edge, no duplicate cell entries.
    pub open spec fn wf(self) -> bool {
        &&& 0 < self.cell_size <= CELL_LIMIT
        &&& forall|i: int, j: int|
            0 <= i < j < self.cells@.len() ==> (#[trigger] self.cells@[i].0@)
                != (#[trigger] self.cells@[j].0@)
    }

    /// Some stored entry has coordinate `c`.
    pub open spec fn has_cell(self, c: (int, int, int)) -> bool {
        exists|i: int| 0 <= i < self.cells@.len() && (#[trigger] self.cells@[i].0@) == c
    }

    /// The index of the entry with coordinate `c`, where one exists.
    pub open spec fn idx_of(self, c: (int, int, int)) -> int {
        choose|i: int| 0 <= i < self.cells@.len() && (#[trigger] self.cells@[i].0@) == c
    }

    /// The identities stored in cell `c`, in insertion order.
    pub open spec fn cell_ids(self, c: (int, int, int)) -> Seq<usize> {
        if self.has_cell(c) {
            self.cells@[self.idx_of(c)].1@
        } else {
            Seq::empty()
        }
    }

    /// The identity occurs somewhere in the grid.
    pub open spec fn contains_id(self, id: usize) -> bool {
        exists|c: (int, int, int)| (#[trigger] self.cell_ids(c)).contains(id)
    }

    /// No identity occurs twice anywhere in the grid.
    pub open spec fn ids_unique(self) -> bool {
        forall|k1: int, j1: int, k2: int, j2: int|
            #![trigger self.cells@[k1].1@[j1], self.cells@[k2].1@[j2]]
            0 <= k1 < self.cells@.len() && 0 <= j1 < self.cells@[k1].1@.len() && 0 <= k2
                < self.cells@.len() && 0 <= j2 < self.cells@[k2].1@.len()
                && self.cells@[k1].1@[j1] == self.cells@[k2].1@[j2] ==> k1 == k2 && j1 == j2
    }

    /// A stored entry is the one `idx_of` names, and the only one with its
    /// coordinate.
    pub proof fn lemma_found(self, j: int)
        requires
            self.wf(),
            0 <= j < self.cells@.len(),
        ensures
            self.has_cell(self.cells@[j].0@),
            self.idx_of(self.cells@[j].0@) == j,
            self.cell_ids(self.cells@[j].0@) == self.cells@[j].1@,
    {
        let c = self.cells@[j].0@;
        assert(self.has_cell(c));
        let i = self.idx_of(c);
        assert(0 <= i < self.cells@.len() && self.cells@[i].0@ == c);
        if i < j {
            assert(self.cells@[i].0@ != self.cells@[j].0@);
        }
        if j < i {
            assert(self.cells@[j].0@ != self.cells@[i].0@);
        }
    }

    /// An identity stored anywhere is stored in the cell of its entry.
    pub proof fn lemma_id_at(self, k: int, j: int)
        requires
            self.wf(),
            0 <= k < self.cells@.len(),
            0 <= j < self.cells@[k].1@.len(),
        ensures
            self.cell_ids(self.cells@[k].0@).contains(self.cells@[k].1@[j]),
            self.contains_id(self.cells@[k].1@[j]),
    {
        self.lemma_found(k);
        assert(self.cell_ids(self.cells@[k].0@)[j] == self.cells@[k].1@[j]);
    }

    /// An empty grid over the given cell edge; a degenerate edge is
    /// rejected outright.
    pub fn new(cell_size: i64) -> (r: Result<Grid, ConfigError>)
        ensures
            r is Ok <==> 0 < cell_size <= CELL_LIMIT,
            r is Err ==> r == Err::<Grid, ConfigError>(ConfigError::CellSize),
            r is Ok ==> {
                let g = r->Ok_0;
                &&& g.wf()
                &&& g.ids_unique()
                &&& g.cell_size == cell_size
                &&& forall|c: (int, int, int)| (#[trigger] g.cell_ids(c)).len() == 0
            },
    {
        if 0 < cell_size && cell_size <= CELL_LIMIT {
            Ok(Grid { cell_size, cells: Vec::new() })
        } else {
            Err(ConfigError::CellSize)
        }
    }

    /// The cell coordinate that holds a position.
    pub fn get_cell(&self, pos: Vec3i) -> (r: Cell)
        requires
            0 < self.cell_size,
            pos@.within(POS_LIMIT as int),
        ensures
            r@ == cell_of(pos@, self.cell_size as int),
            abs(r@.0) <= POS_LIMIT && abs(r@.1) <= POS_LIMIT && abs(r@.2) <= POS_LIMIT,
    {
        proof {
            lemma_floor_div_in_range(pos@.x, self.cell_size as int);
            lemma_floor_div_in_range(pos@.y, self.cell_size as int);
            lemma_floor_div_in_range(pos@.z, self.cell_size as int);
        }
        Cell {
            x: div_floor(pos.x, self.cell_size),
            y: div_floor(pos.y, self.cell_size),
            z: div_floor(pos.z, self.cell_size),
        }
    }

    /// Drops every cell's contents.
    pub fn clear(&mut self)
        requires
            old(self).wf(),
        ensures
            final(self).wf(),
            final(self).ids_unique(),
            final(self).cell_size == old(self).cell_size,
            forall|c: (int, int, int)| (#[trigger] final(self).cell_ids(c)).len() == 0,
            forall|id: usize| !final(self).contains_id(id),
    {
        self.cells.clear();
        proof {
            assert forall|id: usize| !self.contains_id(id) by {
                assert forall|c: (int, int, int)| !((#[trigger] self.cell_ids(c)).contains(id)) by {
                    assert(self.cell_ids(c).len() == 0);
                }
            }
        }
    }

    /// The index of the entry holding cell `c`, if one exists.
    fn index_of(&self, c: Cell) -> (r: Option<usize>)
        requires
            self.wf(),
        ensures
            match r {
                Some(j) => {
                    &&& j < self.cells@.len()
                    &&& self.cells@[j as int].0@ == c@
                    &&& self.has_cell(c@)
                    &&& self.idx_of(c@) == j
                },
                None => !self.has_cell(c@),
            },
    {
        let n = self.cells.len();
        let mut j: usize = 0;
        while j < n
            invariant
                j <= n,
                n == self.cells@.len(),
                self.wf(),
                forall|k: int| 0 <= k < j ==> (#[trigger] self.cells@[k].0@) != c@,
            decreases n - j,
        {
            let entry_cell = self.cells[j].0;
            if entry_cell.x == c.x && entry_cell.y == c.y && entry_cell.z == c.z {
                proof {
                    self.lemma_found(j as int);
                }
                return Some(j);
            }
            j = j + 1;
        }
        None
    }

    /// Appends the identity to the list for the position's cell, creating
    /// the cell entry if absent. A fresh identity keeps the grid
    /// duplicate-free.
    pub fn insert(&mut self, pos: Vec3i, id: usize)
        requires
            old(self).wf(),
            pos@.within(POS_LIMIT as int),
        ensures
            final(self).wf(),
            final(self).cell_size == old(self).cell_size,
            final(self).cell_ids(cell_of(pos@, old(self).cell_size as int)) == old(self).cell_ids(
                cell_of(pos@, old(self).cell_size as int),
            ).push(id),
            forall|c: (int, int, int)|
                c != cell_of(pos@, old(self).cell_size as int) ==> #[trigger] final(self).cell_ids(
                    c,
                ) == old(self).cell_ids(c),
            forall|id2: usize|
                final(self).contains_id(id2) <==> old(self).contains_id(id2) || id2 == id,
            old(self).ids_unique() && !old(self).contains_id(id) ==> final(self).ids_unique(),
    {
        let c = self.get_cell(pos);
        let found = self.index_of(c);
        let ghost pre = *self;
        let ghost target = cell_of(pos@, self.cell_size as int);
        match found {
            Some(j) => {
                self.cells[j].1.push(id);
                proof {
                    let cs = self.cells@;
                    let ps = pre.cells@;
                    assert(cs.len() == ps.len());
                    assert(forall|k: int|
                        0 <= k < cs.len() && k != j ==> cs[k] == #[trigger] ps[k]);
                    assert(cs[j as int].0 == ps[j as int].0);
                    assert(cs[j as int].1@ == ps[j as int].1@.push(id));
                    assert(forall|k: int| 0 <= k < cs.len() ==> (#[trigger] cs[k].0) == ps[k].0);
                    assert(self.wf());
                    // the target cell's list grew by exactly `id`
                    pre.lemma_found(j as int);
                    self.lemma_found(j as int);
                    assert(self.cell_ids(target) == pre.cell_ids(target).push(id));
                    // every other cell is untouched
                    assert forall|c2: (int, int, int)| c2 != target implies #[trigger] self
                        .cell_ids(c2) == pre.cell_ids(c2) by {
                        if pre.has_cell(c2) {
                            let i = pre.idx_of(c2);
                            pre.lemma_found(i);
                            self.lemma_found(i);
                            assert(i != j);
                        } else {
                            assert(!self.has_cell(c2));
                        }
                    }
                    // membership changes by exactly `id`
                    assert forall|id2: usize|
                        self.contains_id(id2) <==> pre.contains_id(id2) || id2 == id by {
                        lemma_membership_push(pre, *self, target, id, id2);
                    }
                    // a fresh identity keeps the grid duplicate-free
                    if pre.ids_unique() && !pre.contains_id(id) {
                        assert forall|k1: int, j1: int, k2: int, j2: int|
                            #![trigger cs[k1].1@[j1], cs[k2].1@[j2]]
                            0 <= k1 < cs.len() && 0 <= j1 < cs[k1].1@.len() && 0 <= k2
                                < cs.len() && 0 <= j2 < cs[k2].1@.len()
                                && cs[k1].1@[j1] == cs[k2].1@[j2] implies k1 == k2 && j1 == j2 by {
                            let newslot = ps[j as int].1@.len() as int;
                            if k1 == j && j1 == newslot {
                                if !(k2 == j && j2 == newslot) {
                                    pre.lemma_id_at(k2, j2);
                                }
                            } else if k2 == j && j2 == newslot {
                                pre.lemma_id_at(k1, j1);
                            } else {
                                assert(cs[k1].1@[j1] == ps[k1].1@[j1]);
                                assert(cs[k2].1@[j2] == ps[k2].1@[j2]);
                            }
                        }
                        assert(self.ids_unique());
                    }
                }
            },
            None => {
                let mut ids: Vec<usize> = Vec::new();
                ids.push(id);
                self.cells.push((c, ids));
                proof {
                    let cs = self.cells@;
                    let ps = pre.cells@;
                    let n = ps.len() as int;
                    assert(cs.len() == n + 1);
                    assert(forall|k: int| 0 <= k < n ==> (#[trigger] cs[k]) == ps[k]);
                    assert(cs[n].0@ == target);
                    assert(cs[n].1@ == Seq::<usize>::empty().push(id));
                    assert(forall|k: int| 0 <= k < n ==> (#[trigger] ps[k].0@) != target);
                    assert(self.wf());
                    // the target cell now holds exactly `id`
                    self.lemma_found(n);
                    assert(!pre.has_cell(target));
                    assert(self.cell_ids(target) == pre.cell_ids(target).push(id));
                    // every other cell is untouched
                    assert forall|c2: (int, int, int)| c2 != target implies #[trigger] self
                        .cell_ids(c2) == pre.cell_ids(c2) by {
                        if pre.has_cell(c2) {
                            let i = pre.idx_of(c2);
                            pre.lemma_found(i);
                            self.lemma_found(i);
                        } else {
                            assert(forall|k: int|
                                0 <= k < cs.len() ==> (#[trigger] cs[k].0@) != c2);
                            assert(!self.has_cell(c2));
                        }
                    }
                    // membership changes by exactly `id`
                    assert forall|id2: usize|
                        self.contains_id(id2) <==> pre.contains_id(id2) || id2 == id by {
                        lemma_membership_push(pre, *self, target, id, id2);
                    }
                    // a fresh identity keeps the grid duplicate-free
                    if pre.ids_unique() && !pre.contains_id(id) {
                        assert forall|k1: int, j1: int, k2: int, j2: int|
                            #![trigger cs[k1].1@[j1], cs[k2].1@[j2]]
                            0 <= k1 < cs.len() && 0 <= j1 < cs[k1].1@.len() && 0 <= k2
                                < cs.len() && 0 <= j2 < cs[k2].1@.len()
                                && cs[k1].1@[j1] == cs[k2].1@[j2] implies k1 == k2 && j1 == j2 by {
                            if k1 == n {
                                if k2 != n {
                                    pre.lemma_id_at(k2, j2);
                                }
                            } else if k2 == n {
                                pre.lemma_id_at(k1, j1);
                            }
                        }
                        assert(self.ids_unique());
                    }
                }
            },
        }
    }
}

/// If two grids agree on every cell but one, where the later grid has
/// exactly one more identity appended, membership differs by that identity.
proof fn lemma_membership_push(
    pre: Grid,
    post: Grid,
    target: (int, int, int),
    id: usize,
    id2: usize,
)
    requires
        post.cell_ids(target) == pre.cell_ids(target).push(id),
        forall|c: (int, int, int)|
            c != target ==> #[trigger] post.cell_ids(c) == pre.cell_ids(c),
    ensures
        post.contains_id(id2) <==> pre.contains_id(id2) || id2 == id,
{
    if post.contains_id(id2) {
        let c = choose|c: (int, int, int)| (#[trigger] post.cell_ids(c)).contains(id2);
        if c == target {
            let k = choose|k: int|
                0 <= k < post.cell_ids(target).len() && post.cell_ids(target)[k] == id2;
            if k < pre.cell_ids(target).len() {
                assert(pre.cell_ids(target)[k] == id2);
                assert(pre.cell_ids(target).contains(id2));
                assert(pre.contains_id(id2));
            } else {
                assert(id2 == id);
            }
        } else {
            assert(pre.cell_ids(c).contains(id2));
            assert(pre.contains_id(id2));
        }
    }
    if pre.contains_id(id2) {
        let c = choose|c: (int, int, int)| (#[trigger] pre.cell_ids(c)).contains(id2);
        if c == target {
            let k = choose|k: int|
                0 <= k < pre.cell_ids(target).len() && pre.cell_ids(target)[k] == id2;
            assert(post.cell_ids(target)[k] == id2);
            assert(post.cell_ids(target).contains(id2));
        } else {
            assert(post.cell_ids(c).contains(id2));
        }
        assert(post.contains_id(id2));
    }
    if id2 == id {
        let len = pre.cell_ids(target).len() as int;
        assert(post.cell_ids(target)[len] == id);
        assert(post.cell_ids(target).contains(id2));
        assert(post.contains_id(id2));
    }
}

/// The `j`-th cell of the 3x3x3 block around `c`, for `j` in `[0, 27)`:
/// the three base-3 digits of `j`, each shifted into `[-1, 1]`.
pub open spec fn block_cell(c: (int, int, int), j: int) -> (int, int, int) {
    (c.0 + j / 9 - 1, c.1 + (j / 3) % 3 - 1, c.2 + j % 3 - 1)
}

/// A block index decomposes into its base-3 digits.
proof fn lemma_block_digits(j: int)
    requires
        0 <= j < 27,
    ensures
        j == 9 * (j / 9) + 3 * ((j / 3) % 3) + j % 3,
        0 <= j / 9 <= 2,
        0 <= (j / 3) % 3 <= 2,
        0 <= j % 3 <= 2,
{
    lemma_fundamental_div_mod(j, 3);
    lemma_mod_division_less_than_divisor(j, 3);
    lemma_fundamental_div_mod(j / 3, 3);
    lemma_mod_division_less_than_divisor(j / 3, 3);
    lemma_div_denominator(j, 3, 3);
    lemma_div_pos_is_pos(j, 9);
    lemma_div_is_ordered(j, 26, 9);
    lemma_div_pos_is_pos(j, 3);
}

/// Every block index names a cell adjacent to the centre.
pub proof fn lemma_block_adjacent(c: (int, int, int), j: int)
    requires
        0 <= j < 27,
    ensures
        adjacent(block_cell(c, j), c),
{
    lemma_block_digits(j);
}

/// Distinct block indices name distinct cells.
pub proof fn lemma_block_inj(c: (int, int, int), j1: int, j2: int)
    requires
        0 <= j1 < 27,
        0 <= j2 < 27,
        block_cell(c, j1) == block_cell(c, j2),
    ensures
        j1 == j2,
{
    lemma_block_digits(j1);
    lemma_block_digits(j2);
}

/// Every cell adjacent to the centre is named by some block index.
pub proof fn lemma_block_witness(c: (int, int, int), t: (int, int, int))
    requires
        adjacent(t, c),
    ensures
        0 <= block_index(c, t) < 27,
        block_cell(c, block_index(c, t)) == t,
{
    let a = t.0 - c.0 + 1;
    let b = t.1 - c.1 + 1;
    let d = t.2 - c.2 + 1;
    let j = 9 * a + 3 * b + d;
    lemma_fundamental_div_mod_converse_div(j, 9, a, 3 * b + d);
    lemma_fundamental_div_mod_converse_div(j, 3, 3 * a + b, d);
    lemma_fundamental_div_mod_converse_mod(j, 3, 3 * a + b, d);
    lemma_fundamental_div_mod_converse_mod(3 * a + b, 3, a, b);
    lemma_fundamental_div_mod_converse_div(3 * a + b, 3, a, b);
}

/// The block index that names an adjacent cell.
pub open spec fn block_index(c: (int, int, int), t: (int, int, int)) -> int {
    9 * (t.0 - c.0 + 1) + 3 * (t.1 - c.1 + 1) + (t.2 - c.2 + 1)
}

/// The contents of the first `k` cells of the block around `c`, in block
/// order, each cell's list in insertion order.
pub open spec fn block_ids(g: Grid, c: (int, int, int), k: int) -> Seq<usize>
    decreases k,
{
    if k <= 0 {
        Seq::empty()
    } else {
        block_ids(g, c, k - 1) + g.cell_ids(block_cell(c, k - 1))
    }
}

/// An element of a pushed sequence is the pushed element or an old one.
pub proof fn lemma_push_contains<T>(s: Seq<T>, x: T, y: T)
    ensures
        s.push(x).contains(y) <==> s.contains(y) || x == y,
{
    if s.contains(y) {
        let i = choose|i: int| 0 <= i < s.len() && s[i] == y;
        assert(s.push(x)[i] == y);
    }
    if x == y {
        assert(s.push(x)[s.len() as int] == y);
    }
    if s.push(x).contains(y) {
        let i = choose|i: int| 0 <= i < s.push(x).len() && s.push(x)[i] == y;
        if i < s.len() {
            assert(s[i] == y);
        }
    }
}

/// An element of a concatenation comes from one of the halves.
pub proof fn lemma_concat_contains<T>(a: Seq<T>, b: Seq<T>, x: T)
    ensures
        (a + b).contains(x) <==> a.contains(x) || b.contains(x),
{
    if a.contains(x) {
        let i = choose|i: int| 0 <= i < a.len() && a[i] == x;
        assert((a + b)[i] == x);
    }
    if b.contains(x) {
        let i = choose|i: int| 0 <= i < b.len() && b[i] == x;
        assert((a + b)[a.len() + i] == x);
    }
    if (a + b).contains(x) {
        let i = choose|i: int| 0 <= i < (a + b).len() && (a + b)[i] == x;
        if i < a.len() {
            assert(a[i] == x);
        } else {
            assert(b[i - a.len()] == x);
        }
    }
}

/// Concatenating duplicate-free, disjoint sequences stays duplicate-free.
pub proof fn lemma_concat_no_dup<T>(a: Seq<T>, b: Seq<T>)
    requires
        a.no_duplicates(),
        b.no_duplicates(),
        forall|x: T| !(a.contains(x) && #[trigger] b.contains(x)),
    ensures
        (a + b).no_duplicates(),
{
    assert forall|i: int, j: int|
        0 <= i < (a + b).len() && 0 <= j < (a + b).len() && i != j implies (a + b)[i] != (a
        + b)[j] by {
        if i < a.len() && j >= a.len() {
            if (a + b)[i] == (a + b)[j] {
                assert(a.contains((a + b)[i]));
                assert(b.contains((a + b)[j]));
            }
        }
        if j < a.len() && i >= a.len() {
            if (a + b)[i] == (a + b)[j] {
                assert(a.contains((a + b)[j]));
                assert(b.contains((a + b)[i]));
            }
        }
    }
}

impl Grid {
    /// Within a duplicate-free grid, one cell's list has no duplicates.
    pub proof fn lemma_entry_no_dup(self, c: (int, int, int))
        requires
            self.wf(),
            self.ids_unique(),
        ensures
            self.cell_ids(c).no_duplicates(),
    {
        if self.has_cell(c) {
            let k = self.idx_of(c);
            assert(0 <= k < self.cells@.len() && self.cells@[k].0@ == c);
            assert forall|i: int, j: int|
                0 <= i < self.cell_ids(c).len() && 0 <= j < self.cell_ids(c).len() && i != j
                implies self.cell_ids(c)[i] != self.cell_ids(c)[j] by {
                assert(self.cells@[k].1@[i] == self.cell_ids(c)[i]);
                assert(self.cells@[k].1@[j] == self.cell_ids(c)[j]);
            }
        }
    }

    /// Within a duplicate-free grid, distinct cells hold disjoint lists.
    pub proof fn lemma_cells_disjoint(self, c1: (int, int, int), c2: (int, int, int), x: usize)
        requires
            self.wf(),
            self.ids_unique(),
            c1 != c2,
        ensures
            !(self.cell_ids(c1).contains(x) && self.cell_ids(c2).contains(x)),
    {
        if self.cell_ids(c1).contains(x) && self.cell_ids(c2).contains(x) {
            let k1 = self.idx_of(c1);
            let k2 = self.idx_of(c2);
            assert(self.has_cell(c1) && self.has_cell(c2));
            assert(self.cells@[k1].0@ == c1 && self.cells@[k2].0@ == c2);
            let j1 = choose|j: int|
                0 <= j < self.cell_ids(c1).len() && self.cell_ids(c1)[j] == x;
            let j2 = choose|j: int|
                0 <= j < self.cell_ids(c2).len() && self.cell_ids(c2)[j] == x;
            assert(self.cells@[k1].1@[j1] == x);
            assert(self.cells@[k2].1@[j2] == x);
        }
    }

    /// Every identity in the particle's own cell and the 26 cells around
    /// it — and nothing else. The caller excludes the particle itself by
    /// identity. When the grid holds no identity twice, neither does the
    /// result.
    pub fn get_neighbors(&self, pos: Vec3i) -> (r: Vec<usize>)
        requires
            self.wf(),
            pos@.within(POS_LIMIT as int),
        ensures
            r@ == block_ids(*self, cell_of(pos@, self.cell_size as int), 27),
            forall|id: usize|
                #[trigger] r@.contains(id) <==> exists|c2: (int, int, int)|
                    adjacent(c2, cell_of(pos@, self.cell_size as int)) && (#[trigger] self.cell_ids(
                        c2,
                    )).contains(id),
            self.ids_unique() ==> r@.no_duplicates(),
    {
        let c = self.get_cell(pos);
        let ghost cv = cell_of(pos@, self.cell_size as int);
        let mut out: Vec<usize> = Vec::new();
        let mut k: usize = 0;
        while k < 27
            invariant
                k <= 27,
                self.wf(),
                pos@.within(POS_LIMIT as int),
                c@ == cv,
                cv == cell_of(pos@, self.cell_size as int),
                abs(c@.0) <= POS_LIMIT && abs(c@.1) <= POS_LIMIT && abs(c@.2) <= POS_LIMIT,
                out@ == block_ids(*self, cv, k as int),
                forall|id: usize|
                    #[trigger] out@.contains(id) <==> exists|j: int|
                        0 <= j < k && (#[trigger] self.cell_ids(block_cell(cv, j))).contains(id),
                self.ids_unique() ==> out@.no_duplicates(),
            decreases 27 - k,
        {
            let ox = (k / 9) as i64 - 1;
            let oy = ((k / 3) % 3) as i64 - 1;
            let oz = (k % 3) as i64 - 1;
            let cell = Cell { x: c.x + ox, y: c.y + oy, z: c.z + oz };
            proof {
                assert(cell@ == block_cell(cv, k as int));
            }
            let ghost out_pre = out@;
            match self.index_of(cell) {
                Some(j) => {
                    let ghost list = self.cells@[j as int].1@;
                    proof {
                        self.lemma_found(j as int);
                        assert(self.cell_ids(block_cell(cv, k as int)) == list);
                    }
                    append_ids(&mut out, &self.cells[j].1);
                    proof {
                        assert(out@ == block_ids(*self, cv, k as int + 1));
                        assert forall|id: usize|
                            #[trigger] out@.contains(id) <==> exists|jj: int|
                                0 <= jj < k + 1 && (#[trigger] self.cell_ids(
                                    block_cell(cv, jj),
                                )).contains(id) by {
                            lemma_concat_contains(out_pre, list, id);
                            if out_pre.contains(id) {
                                let jj = choose|jj: int|
                                    0 <= jj < k && (#[trigger] self.cell_ids(
                                        block_cell(cv, jj),
                                    )).contains(id);
                                assert(self.cell_ids(block_cell(cv, jj)).contains(id));
                            }
                            if exists|jj: int|
                                0 <= jj < k + 1 && (#[trigger] self.cell_ids(
                                    block_cell(cv, jj),
                                )).contains(id) {
                                let jj = choose|jj: int|
                                    0 <= jj < k + 1 && (#[trigger] self.cell_ids(
                                        block_cell(cv, jj),
                                    )).contains(id);
                                if jj < k {
                                    assert(out_pre.contains(id));
                                } else {
                                    assert(list.contains(id));
                                }
                            }
                        }
                        if self.ids_unique() {
                            self.lemma_entry_no_dup(block_cell(cv, k as int));
                            assert forall|x: usize|
                                !(out_pre.contains(x) && #[trigger] list.contains(x)) by {
                                if out_pre.contains(x) && list.contains(x) {
                                    let j0 = choose|jj: int|
                                        0 <= jj < k && (#[trigger] self.cell_ids(
                                            block_cell(cv, jj),
                                        )).contains(x);
                                    lemma_block_inj(cv, j0, k as int);
                                    self.lemma_cells_disjoint(
                                        block_cell(cv, j0),
                                        block_cell(cv, k as int),
                                        x,
                                    );
                                }
                            }
                            lemma_concat_no_dup(out_pre, list);
                        }
                    }
                },
                None => {
                    proof {
                        assert(self.cell_ids(block_cell(cv, k as int)) =~= Seq::<usize>::empty());
                        assert(out@ =~= block_ids(*self, cv, k as int + 1));
                        assert forall|id: usize|
                            #[trigger] out@.contains(id) <==> exists|jj: int|
                                0 <= jj < k + 1 && (#[trigger] self.cell_ids(
                                    block_cell(cv, jj),
                                )).contains(id) by {
                            if exists|jj: int|
                                0 <= jj < k + 1 && (#[trigger] self.cell_ids(
                                    block_cell(cv, jj),
                                )).contains(id) {
                                let jj = choose|jj: int|
                                    0 <= jj < k + 1 && (#[trigger] self.cell_ids(
                                        block_cell(cv, jj),
                                    )).contains(id);
                                assert(jj < k);
                            }
                        }
                    }
                },
            }
            k = k + 1;
        }
        proof {
            assert forall|id: usize|
                #[trigger] out@.contains(id) <==> exists|c2: (int, int, int)|
                    adjacent(c2, cv) && (#[trigger] self.cell_ids(c2)).contains(id) by {
                if out@.contains(id) {
                    let jj = choose|jj: int|
                        0 <= jj < 27 && (#[trigger] self.cell_ids(block_cell(cv, jj))).contains(
                            id,
                        );
                    lemma_block_adjacent(cv, jj);
                }
                if exists|c2: (int, int, int)|
                    adjacent(c2, cv) && (#[trigger] self.cell_ids(c2)).contains(id) {
                    let c2 = choose|c2: (int, int, int)|
                        adjacent(c2, cv) && (#[trigger] self.cell_ids(c2)).contains(id);
                    lemma_block_witness(cv, c2);
                    assert(self.cell_ids(block_cell(cv, block_index(cv, c2))).contains(id));
                }
            }
        }
        out
    }
}

/// Appends every identity of `list` to `out`, in order.
fn append_ids(out: &mut Vec<usize>, list: &Vec<usize>)
    ensures
        final(out)@ == old(out)@ + list@,
{
    let m = list.len();
    let mut t: usize = 0;
    proof {
        assert(old(out)@ + list@.take(0) =~= old(out)@);
    }
    while t < m
        invariant
            t <= m,
            m == list@.len(),
            out@ == old(out)@ + list@.take(t as int),
        decreases m - t,
    {
        out.push(list[t]);
        proof {
            assert(out@ =~= old(out)@ + list@.take(t as int + 1));
        }
        t = t + 1;
    }
    proof {
        assert(old(out)@ + list@.take(m as int) =~= old(out)@ + list@);
    }
}

/// Filtering distributes over `push`: the pushed element lands at the
/// end of the filtered sequence exactly when it satisfies the predicate.
pub proof fn lemma_filter_push<T>(s: Seq<T>, x: T, pred: spec_fn(T) -> bool)
    ensures
        s.push(x).filter(pred) == if pred(x) {
            s.filter(pred).push(x)
        } else {
            s.filter(pred)
        },
{
    reveal(Seq::filter);
    assert(s.push(x).drop_last() =~= s);
    assert(s.push(x).last() == x);
    assert(s.push(x).len() == s.len() + 1);
}

/// Filtering with predicates that agree on every element gives the same
/// sequence.
pub proof fn lemma_filter_congruent<T>(s: Seq<T>, p1: spec_fn(T) -> bool, p2: spec_fn(T) -> bool)
    requires
        forall|i: int| 0 <= i < s.len() ==> p1(#[trigger] s[i]) == p2(s[i]),
    ensures
        s.filter(p1) == s.filter(p2),
    decreases s.len(),
{
    reveal(Seq::filter);
    if s.len() > 0 {
        lemma_filter_congruent(s.drop_last(), p1, p2);
    }
}

/// The identities whose particle sits in cell `c`, in ascending order:
/// what one rebuilt grid cell holds.
pub open spec fn cell_row(ps: Seq<Particle>, s: int, c: (int, int, int)) -> Seq<usize> {
    Seq::new(ps.len(), |i: int| i as usize).filter(
        |id: usize| cell_of(ps[id as int]@.pos, s) == c,
    )
}

/// Rebuilds the grid from scratch: cleared, then every particle's identity
/// (its index) inserted at the cell of its current position. Afterwards the
/// grid holds exactly one entry per particle, at that particle's cell.
pub fn build_spatial_grid(grid: &mut Grid, particles: &Vec<Particle>)
    requires
        old(grid).wf(),
        forall|i: int|
            0 <= i < particles@.len() ==> (#[trigger] particles@[i])@.pos.within(POS_LIMIT as int),
    ensures
        final(grid).wf(),
        final(grid).ids_unique(),
        final(grid).cell_size == old(grid).cell_size,
        forall|id: usize, c: (int, int, int)|
            #[trigger] final(grid).cell_ids(c).contains(id) <==> id < particles@.len() && c
                == cell_of(particles@[id as int]@.pos, old(grid).cell_size as int),
        forall|c: (int, int, int)| #[trigger] final(grid).cell_ids(c)
            == cell_row(particles@, old(grid).cell_size as int, c),
{
    grid.clear();
    proof {
        assert forall|c: (int, int, int)| #[trigger] grid.cell_ids(c)
            == cell_row(particles@.take(0), grid.cell_size as int, c) by {
            reveal(Seq::filter);
            assert(Seq::new(0, |i: int| i as usize) =~= Seq::<usize>::empty());
            assert(grid.cell_ids(c) =~= Seq::<usize>::empty());
        }
    }
    let n = particles.len();
    let mut i: usize = 0;
    while i < n
        invariant
            i <= n,
            n == particles@.len(),
            grid.wf(),
            grid.ids_unique(),
            grid.cell_size == old(grid).cell_size,
            forall|j: int|
                0 <= j < n ==> (#[trigger] particles@[j])@.pos.within(POS_LIMIT as int),
            forall|id: usize, c: (int, int, int)|
                #[trigger] grid.cell_ids(c).contains(id) <==> id < i && c == cell_of(
                    particles@[id as int]@.pos,
                    grid.cell_size as int,
                ),
            forall|c: (int, int, int)| #[trigger] grid.cell_ids(c)
                == cell_row(particles@.take(i as int), grid.cell_size as int, c),
        decreases n - i,
    {
        let ghost pre = *grid;
        let ghost target = cell_of(particles@[i as int]@.pos, grid.cell_size as int);
        proof {
            if pre.contains_id(i) {
                let c = choose|c: (int, int, int)| (#[trigger] pre.cell_ids(c)).contains(i);
                assert(i < i);
            }
        }
        grid.insert(particles[i].pos, i);
        proof {
            let s = grid.cell_size as int;
            assert forall|c: (int, int, int)| #[trigger] grid.cell_ids(c)
                == cell_row(particles@.take(i as int + 1), s, c) by {
                let idx_new = Seq::new((i + 1) as nat, |j: int| j as usize);
                let idx_old = Seq::new(i as nat, |j: int| j as usize);
                assert(idx_new =~= idx_old.push(i));
                let rowp = |id: usize| cell_of(particles@.take(i as int + 1)[id as int]@.pos, s)
                    == c;
                let rowp_old = |id: usize| cell_of(particles@.take(i as int)[id as int]@.pos, s)
                    == c;
                lemma_filter_push(idx_old, i, rowp);
                lemma_filter_congruent(idx_old, rowp, rowp_old);
                if c == target {
                    assert(rowp(i));
                } else {
                    assert(!rowp(i));
                }
            }
            assert forall|id: usize, c: (int, int, int)|
                #[trigger] grid.cell_ids(c).contains(id) <==> id < i + 1 && c == cell_of(
                    particles@[id as int]@.pos,
                    grid.cell_size as int,
                ) by {
                if c == target {
                    lemma_push_contains(pre.cell_ids(target), i, id);
                } else {
                    assert(grid.cell_ids(c) == pre.cell_ids(c));
                }
            }
        }
        i = i + 1;
    }
    proof {
        assert(particles@.take(n as int) =~= particles@);
    }
}

} // verus!
