//! Spatial-graph board: immutable topology, mutable per-cell occupancy.
//!
//! A board is a vertex set with one neighbor list per vertex, plus one
//! occupancy slot (`Cell`) per vertex. The same interface serves a toroidal
//! 2-D grid (neighbors computed from wraparound arithmetic at construction
//! time) and an arbitrary mesh-derived graph: the topology kind is a
//! construction-time choice, never a runtime branch.

use vstd::prelude::*;

use crate::rng::random_below;

verus! {

/// Typed errors of board and position construction.
#[derive(Debug, Clone, Copy, PartialEq, Eq, Structural)]
pub enum BoardError {
    /// A vertex index at or beyond the vertex count.
    OutOfRange { index: usize, size: usize },
    /// A grid dimension of zero.
    EmptyGrid,
    /// The requested grid does not fit in the address space.
    TooManyCells,
    /// An adjacency list names a vertex outside the vertex set.
    BadNeighbor { vertex: usize, neighbor: usize },
}

/// A validated vertex index. Values are only constructed in range for their
/// board (or normalized by wraparound for grids), never silently clamped.
#[derive(Debug, Clone, Copy, PartialEq, Eq, Structural)]
pub struct BoardPosition {
    idx: usize,
}

impl View for BoardPosition {
    type V = int;

    closed spec fn view(&self) -> int {
        self.idx as int
    }
}

/// A position's view is its vertex index, so it is never negative.
pub broadcast proof fn lemma_position_index_nonneg(p: BoardPosition)
    ensures
        0 <= #[trigger] p@ <= usize::MAX,
{
}

impl BoardPosition {
    /// Validating constructor: rejects out-of-range indices with a typed
    /// error.
    pub fn new(idx: usize, size: usize) -> (r: Result<BoardPosition, BoardError>)
        ensures
            idx < size ==> (r matches Ok(p) && p@ == idx),
            idx >= size ==> r == Result::<BoardPosition, BoardError>::Err(
                BoardError::OutOfRange { index: idx, size },
            ),
    {
        if idx < size {
            Ok(BoardPosition { idx })
        } else {
            Err(BoardError::OutOfRange { index: idx, size })
        }
    }

    /// The underlying vertex index.
    pub fn idx(&self) -> (r: usize)
        ensures
            r == self@,
    {
        self.idx
    }
}

/// Normalizing constructor for wraparound grids: coordinates are reduced
/// modulo the grid dimensions (never clamped), then flattened row-major.
pub fn grid_position(width: usize, height: usize, x: usize, y: usize) -> (r: BoardPosition)
    requires
        1 <= width,
        1 <= height,
        width * height <= usize::MAX,
    ensures
        r@ == (y % height) * width + x % width,
        r@ < width * height,
{
    let xm = x % width;
    let ym = y % height;
    proof {
        assert(ym * width + xm < width * height) by (nonlinear_arith)
            requires
                0 <= xm < width,
                0 <= ym < height,
        ;
    }
    BoardPosition { idx: ym * width + xm }
}

/// One occupancy slot: at most one item (by item index) on a cell.
#[derive(Debug, Clone, Copy)]
pub struct Cell {
    pub item: Option<usize>,
}

/// Which neighbors a toroidal grid connects: the four orthogonal ones, or
/// those plus the four diagonal ones.
#[derive(Debug, Clone, Copy, PartialEq, Eq, Structural)]
pub enum Connectivity {
    Four,
    Eight,
}

/// Wraparound decrement on `0 <= i < n`.
pub open spec fn wrap_dec(i: int, n: int) -> int {
    if i == 0 {
        n - 1
    } else {
        i - 1
    }
}

/// Wraparound increment on `0 <= i < n`.
pub open spec fn wrap_inc(i: int, n: int) -> int {
    if i == n - 1 {
        0
    } else {
        i + 1
    }
}

/// The neighbor indices of grid cell `(x, y)`, in construction order:
/// left, right, up, down, then (eight-connected only) the four diagonals.
pub open spec fn grid_neighbors(w: int, h: int, x: int, y: int, conn: Connectivity) -> Seq<int> {
    let xl = wrap_dec(x, w);
    let xr = wrap_inc(x, w);
    let yu = wrap_dec(y, h);
    let yd = wrap_inc(y, h);
    if conn is Four {
        seq![y * w + xl, y * w + xr, yu * w + x, yd * w + x]
    } else {
        seq![
            y * w + xl,
            y * w + xr,
            yu * w + x,
            yd * w + x,
            yu * w + xl,
            yu * w + xr,
            yd * w + xl,
            yd * w + xr,
        ]
    }
}

/// The set of vertex indices a position list holds.
pub open spec fn spec_pos_set(r: Seq<BoardPosition>) -> Set<int> {
    Set::new(|v: int| exists|j: int| 0 <= j < r.len() && (#[trigger] r[j])@ == v)
}

/// The set of vertex indices an index list holds.
pub open spec fn spec_idx_set(f: Seq<usize>) -> Set<int> {
    Set::new(|v: int| exists|j: int| 0 <= j < f.len() && (#[trigger] f[j]) == v)
}

/// The spatial graph: per-vertex neighbor lists (fixed after construction)
/// and per-vertex occupancy. Mutate occupancy only through `set_item`.
pub struct Board {
    pub adj: Vec<Vec<usize>>,
    pub cells: Vec<Cell>,
}

impl Board {
    /// Number of vertices (= cells).
    pub open spec fn spec_size(&self) -> nat {
        self.cells@.len()
    }

    /// The neighbor list of vertex `v`.
    pub open spec fn spec_adj(&self, v: int) -> Seq<usize> {
        self.adj@[v]@
    }

    /// Well-formed: one neighbor list per cell, and every listed neighbor is
    /// a real vertex.
    pub open spec fn wf(&self) -> bool {
        &&& self.adj@.len() == self.cells@.len()
        &&& forall|v: int, k: int|
            0 <= v < self.adj@.len() && 0 <= k < self.spec_adj(v).len() ==> (
            #[trigger] self.spec_adj(v)[k]) < self.cells@.len()
    }

    /// Vertex `v` of `self` has exactly the toroidal-grid neighbors of its
    /// coordinates `(v % w, v / w)`.
    pub open spec fn grid_adj_ok(&self, w: int, h: int, v: int, conn: Connectivity) -> bool {
        let expected = grid_neighbors(w, h, v % w, v / w, conn);
        &&& self.spec_adj(v).len() == expected.len()
        &&& forall|k: int| 0 <= k < expected.len() ==> (#[trigger] self.spec_adj(v)[k]) == expected[k]
    }

    /// `self` is a `w` by `h` toroidal grid with the given connectivity.
    pub open spec fn is_toroidal_grid(&self, w: int, h: int, conn: Connectivity) -> bool {
        &&& self.spec_size() == w * h
        &&& self.adj@.len() == w * h
        &&& forall|v: int| 0 <= v < w * h ==> #[trigger] self.grid_adj_ok(w, h, v, conn)
    }

    /// All cells empty.
    pub open spec fn all_cells_empty(&self) -> bool {
        forall|c: int| 0 <= c < self.cells@.len() ==> (#[trigger] self.cells@[c]).item is None
    }

    /// Builds a board from explicit adjacency lists, validating that every
    /// listed neighbor names a real vertex. The lists are taken as-is: the
    /// topology is the caller's (for example a mesh generator's).
    pub fn from_adjacency(adj: Vec<Vec<usize>>) -> (r: Result<Board, BoardError>)
        ensures
            (r matches Ok(b) ==> {
                &&& b.wf()
                &&& b.adj@ == adj@
                &&& b.spec_size() == adj@.len()
                &&& b.all_cells_empty()
            }),
            (r matches Err(e) ==> e matches BoardError::BadNeighbor { vertex, neighbor }
                && 0 <= vertex < adj@.len() && adj@[vertex as int]@.contains(neighbor)
                && neighbor >= adj@.len()),
            (forall|vv: int, k: int|
                0 <= vv < adj@.len() && 0 <= k < adj@[vv]@.len() ==> (#[trigger] adj@[vv]@[k])
                    < adj@.len()) ==> (r matches Ok(_)),
    {
        let n = adj.len();
        let mut v: usize = 0;
        while v < n
            invariant
                n == adj@.len(),
                forall|vv: int, k: int|
                    0 <= vv < v && 0 <= k < adj@[vv]@.len() ==> (#[trigger] adj@[vv]@[k]) < n,
            decreases n - v,
        {
            let row = &adj[v];
            let mut k: usize = 0;
            while k < row.len()
                invariant
                    n == adj@.len(),
                    v < n,
                    row == adj@[v as int],
                    forall|kk: int| 0 <= kk < k ==> (#[trigger] row@[kk]) < n,
                decreases row@.len() - k,
            {
                if row[k] >= n {
                    return Err(BoardError::BadNeighbor { vertex: v, neighbor: row[k] });
                }
                k = k + 1;
            }
            v = v + 1;
        }
        let mut cells: Vec<Cell> = Vec::new();
        let mut c: usize = 0;
        while c < n
            invariant
                c <= n,
                cells@.len() == c,
                forall|cc: int| 0 <= cc < c ==> (#[trigger] cells@[cc]).item is None,
            decreases n - c,
        {
            cells.push(Cell { item: None });
            c = c + 1;
        }
        Ok(Board { adj, cells })
    }

    /// Builds a toroidal `width` by `height` grid. Both dimensions must be
    /// positive and the cell count must fit in the address space; neighbor
    /// indices wrap around the edges.
    #[verifier::rlimit(60)]
    pub fn toroidal_grid(width: usize, height: usize, conn: Connectivity) -> (r: Result<
        Board,
        BoardError,
    >)
        ensures
            width == 0 || height == 0 ==> r == Result::<Board, BoardError>::Err(
                BoardError::EmptyGrid,
            ),
            width >= 1 && height >= 1 && width * height > usize::MAX ==> r == Result::<
                Board,
                BoardError,
            >::Err(BoardError::TooManyCells),
            width >= 1 && height >= 1 && width * height <= usize::MAX ==> (r matches Ok(b) && {
                &&& b.wf()
                &&& b.is_toroidal_grid(width as int, height as int, conn)
                &&& b.all_cells_empty()
            }),
    {
        if width == 0 || height == 0 {
            return Err(BoardError::EmptyGrid);
        }
        let n = match width.checked_mul(height) {
            Some(n) => n,
            None => {
                return Err(BoardError::TooManyCells);
            },
        };
        let mut adj: Vec<Vec<usize>> = Vec::new();
        let w = width;
        let h = height;
        let mut v: usize = 0;
        while v < n
            invariant
                n == w * h,
                w >= 1,
                h >= 1,
                v <= n,
                adj@.len() == v,
                forall|vv: int, k: int|
                    0 <= vv < v && 0 <= k < adj@[vv]@.len() ==> (#[trigger] adj@[vv]@[k]) < n,
                forall|vv: int|
                    0 <= vv < v ==> {
                        let expected = grid_neighbors(w as int, h as int, vv % (w as int), vv / (
                        w as int), conn);
                        (#[trigger] adj@[vv]@).len() == expected.len() && (forall|k: int|
                            0 <= k < expected.len() ==> adj@[vv]@[k] == expected[k])
                    },
            decreases n - v,
        {
            let x = v % w;
            let y = v / w;
            proof {
                assert(y < h) by (nonlinear_arith)
                    requires
                        v < n,
                        n == w * h,
                        w >= 1,
                        h >= 1,
                        y == v as int / w as int,
                        x == v as int % w as int,
                ;
                assert((h - 1) * w + (w - 1) < n) by (nonlinear_arith)
                    requires
                        n == w * h,
                        w >= 1,
                        h >= 1,
                ;
                assert(y * w + x == v) by {
                    vstd::arithmetic::div_mod::lemma_fundamental_div_mod(v as int, w as int);
                };
                assert(y * w <= (h - 1) * w) by (nonlinear_arith)
                    requires
                        0 <= y <= h - 1,
                        w >= 1,
                ;
            }
            let xl = if x == 0 {
                w - 1
            } else {
                x - 1
            };
            let xr = if x == w - 1 {
                0
            } else {
                x + 1
            };
            let yu = if y == 0 {
                h - 1
            } else {
                y - 1
            };
            let yd = if y == h - 1 {
                0
            } else {
                y + 1
            };
            proof {
                assert(yu * w <= (h - 1) * w && yd * w <= (h - 1) * w && y * w <= (h - 1) * w)
                    by (nonlinear_arith)
                    requires
                        0 <= y < h,
                        0 <= yu < h,
                        0 <= yd < h,
                        w >= 1,
                ;
            }
            let mut row: Vec<usize> = Vec::new();
            row.push(y * w + xl);
            row.push(y * w + xr);
            row.push(yu * w + x);
            row.push(yd * w + x);
            if let Connectivity::Eight = conn {
                row.push(yu * w + xl);
                row.push(yu * w + xr);
                row.push(yd * w + xl);
                row.push(yd * w + xr);
            }
            adj.push(row);
            v = v + 1;
        }
        let b = match Board::from_adjacency(adj) {
            Ok(b) => b,
            Err(e) => {
                proof {
                    assert(false);
                }
                return Err(e);
            },
        };
        Ok(b)
    }

    /// Vertex count, also the cell count.
    pub fn size(&self) -> (r: usize)
        ensures
            r == self.spec_size(),
    {
        self.cells.len()
    }

    /// The direct graph neighbors of `pos`, in topology order.
    pub fn neighbors(&self, pos: &BoardPosition) -> (r: Vec<BoardPosition>)
        requires
            self.wf(),
            pos@ < self.spec_size(),
        ensures
            r@.len() == self.spec_adj(pos@).len(),
            forall|k: int| 0 <= k < r@.len() ==> (#[trigger] r@[k])@ == self.spec_adj(pos@)[k],
            forall|k: int| 0 <= k < r@.len() ==> (#[trigger] r@[k])@ < self.spec_size(),
    {
        let row = &self.adj[pos.idx()];
        let mut r: Vec<BoardPosition> = Vec::new();
        let mut k: usize = 0;
        while k < row.len()
            invariant
                self.wf(),
                pos@ < self.spec_size(),
                row == self.adj@[pos@],
                r@.len() == k,
                k <= row@.len(),
                forall|kk: int| 0 <= kk < k ==> (#[trigger] r@[kk])@ == row@[kk],
            decreases row@.len() - k,
        {
            r.push(BoardPosition { idx: row[k] });
            k = k + 1;
        }
        r
    }

    /// A uniformly random vertex.
    pub fn random_position(&self) -> (r: BoardPosition)
        requires
            self.spec_size() >= 1,
        ensures
            r@ < self.spec_size(),
    {
        let idx = random_below(self.cells.len());
        BoardPosition { idx }
    }

    /// A uniformly random direct neighbor of `pos`. The vertex must have at
    /// least one neighbor.
    pub fn random_neighbor(&self, pos: &BoardPosition) -> (r: BoardPosition)
        requires
            self.wf(),
            pos@ < self.spec_size(),
            self.spec_adj(pos@).len() >= 1,
        ensures
            self.spec_adj(pos@).contains(r@ as usize),
            r@ < self.spec_size(),
    {
        let row = &self.adj[pos.idx()];
        let k = random_below(row.len());
        let idx = row[k];
        proof {
            assert(self.spec_adj(pos@)[k as int] == idx);
        }
        BoardPosition { idx }
    }

    /// Read access to the cell at `pos`.
    pub fn get_cell(&self, pos: &BoardPosition) -> (r: &Cell)
        requires
            self.wf(),
            pos@ < self.spec_size(),
        ensures
            *r == self.cells@[pos@],
    {
        &self.cells[pos.idx()]
    }

    /// Sets the occupancy of the cell at `pos`; the topology is untouched.
    pub fn set_item(&mut self, pos: &BoardPosition, item: Option<usize>)
        requires
            old(self).wf(),
            pos@ < old(self).spec_size(),
        ensures
            final(self).wf(),
            final(self).adj@ == old(self).adj@,
            final(self).cells@ == old(self).cells@.update(pos@, Cell { item }),
            final(self).spec_size() == old(self).spec_size(),
    {
        self.cells[pos.idx()] = Cell { item };
        proof {
            assert(self.cells@.len() == old(self).cells@.len());
            assert(self.adj@ == old(self).adj@);
            assert forall|v: int, k: int|
                0 <= v < self.adj@.len() && 0 <= k < self.spec_adj(v).len() implies (
            #[trigger] self.spec_adj(v)[k]) < self.cells@.len() by {
                assert(self.spec_adj(v) == old(self).spec_adj(v));
            }
        }
    }

    /// One expansion step beyond `prev`: every vertex (other than `pos`)
    /// adjacent to `pos` or to a vertex of `prev`.
    pub open spec fn spec_step_set(&self, pos: int, prev: Set<int>) -> Set<int> {
        Set::new(
            |v: int|
                v != pos && exists|u: int, k: int|
                    (u == pos || prev.contains(u)) && 0 <= k < self.spec_adj(u).len() && (
                    #[trigger] self.spec_adj(u)[k]) == v,
        )
    }

    /// The vertices within `r` hops of `pos`, excluding `pos` itself.
    pub open spec fn spec_within(&self, pos: int, r: nat) -> Set<int>
        decreases r,
    {
        if r == 0 {
            Set::empty()
        } else {
            let prev = self.spec_within(pos, (r - 1) as nat);
            prev.union(self.spec_step_set(pos, prev))
        }
    }

    /// Growing the radius only grows the neighborhood.
    pub proof fn lemma_within_monotone(&self, pos: int, r1: nat, r2: nat)
        requires
            r1 <= r2,
        ensures
            self.spec_within(pos, r1).subset_of(self.spec_within(pos, r2)),
        decreases r2,
    {
        if r1 < r2 {
            self.lemma_within_monotone(pos, r1, (r2 - 1) as nat);
            assert forall|v: int|
                self.spec_within(pos, r1).contains(v) implies self.spec_within(
                pos,
                r2,
            ).contains(v) by {
                assert(self.spec_within(pos, (r2 - 1) as nat).contains(v));
            }
        }
    }

    /// The vertices of `s` below `n`, in ascending order, as positions.
    closed spec fn members_below(&self, s: Set<int>, n: nat) -> Seq<BoardPosition>
        decreases n,
    {
        if n == 0 {
            Seq::empty()
        } else {
            self.members_below(s, (n - 1) as nat) + if s.contains(n - 1) {
                seq![BoardPosition { idx: (n - 1) as usize }]
            } else {
                Seq::empty()
            }
        }
    }

    /// Every member of `s` below `n` occurs in the ascending enumeration.
    proof fn lemma_members_below_complete(&self, s: Set<int>, n: nat, v: int)
        requires
            s.contains(v),
            0 <= v < n,
            n <= usize::MAX,
        ensures
            exists|k: int|
                0 <= k < self.members_below(s, n).len() && (#[trigger] self.members_below(s, n)[k])@
                    == v,
        decreases n,
    {
        let prev = self.members_below(s, (n - 1) as nat);
        if v == n - 1 {
            assert(s.contains(n - 1));
            assert(self.members_below(s, n) == prev + seq![
                BoardPosition { idx: (n - 1) as usize },
            ]);
            assert(self.members_below(s, n)[prev.len() as int]@ == v);
        } else {
            self.lemma_members_below_complete(s, (n - 1) as nat, v);
            let k = choose|k: int| 0 <= k < prev.len() && (#[trigger] prev[k])@ == v;
            assert(self.members_below(s, n)[k]@ == v);
        }
    }

    /// The canonical neighborhood list: the vertices within `r` hops of
    /// `pos`, each once, in ascending vertex order. `neighbors_within_ordered`
    /// computes it and its ensures spell its meaning out.
    pub closed spec fn spec_within_list(&self, pos: int, r: nat) -> Seq<BoardPosition> {
        self.members_below(self.spec_within(pos, r), self.spec_size())
    }

    /// Every vertex within `r` hops is a real vertex other than `pos`.
    pub proof fn lemma_within_bounds(&self, pos: int, r: nat)
        requires
            self.wf(),
            0 <= pos < self.spec_size(),
        ensures
            forall|v: int|
                #[trigger] self.spec_within(pos, r).contains(v) ==> 0 <= v < self.spec_size() && v
                    != pos,
        decreases r,
    {
        if r > 0 {
            self.lemma_within_bounds(pos, (r - 1) as nat);
            let prev = self.spec_within(pos, (r - 1) as nat);
            assert forall|v: int|
                #[trigger] self.spec_within(pos, r).contains(v) implies 0 <= v < self.spec_size()
                && v != pos by {
                if !prev.contains(v) {
                    assert(self.spec_step_set(pos, prev).contains(v));
                    let (u, k): (int, int) = choose|u: int, k: int|
                        (u == pos || prev.contains(u)) && 0 <= k < self.spec_adj(u).len() && (
                        #[trigger] self.spec_adj(u)[k]) == v;
                    assert(self.spec_adj(u)[k] < self.cells@.len());
                }
            }
        }
    }

    /// Breadth-first neighborhood in ascending vertex order: the same set as
    /// `neighbors_within`, enumerated canonically, so that the list is a
    /// function of the board, position and radius alone.
    #[verifier::loop_isolation(false)]
    pub fn neighbors_within_ordered(&self, pos: &BoardPosition, radius: usize) -> (r: Vec<
        BoardPosition,
    >)
        requires
            self.wf(),
            pos@ < self.spec_size(),
        ensures
            r@ == self.spec_within_list(pos@, radius as nat),
            spec_pos_set(r@) == self.spec_within(pos@, radius as nat),
            forall|k1: int, k2: int|
                0 <= k1 < k2 < r@.len() ==> (#[trigger] r@[k1])@ < (#[trigger] r@[k2])@,
            forall|k: int|
                0 <= k < r@.len() ==> (#[trigger] r@[k])@ < self.spec_size() && r@[k]@ != pos@,
    {
        let bfs = self.neighbors_within(pos, radius);
        let ghost within = self.spec_within(pos@, radius as nat);
        proof {
            self.lemma_within_bounds(pos@, radius as nat);
        }
        let n = self.cells.len();
        let mut mask: Vec<bool> = Vec::new();
        let mut c: usize = 0;
        while c < n
            invariant
                c <= n,
                mask@.len() == c,
                forall|cc: int| 0 <= cc < c ==> !(#[trigger] mask@[cc]),
            decreases n - c,
        {
            mask.push(false);
            c = c + 1;
        }
        let m = bfs.len();
        let mut k: usize = 0;
        while k < m
            invariant
                k <= m,
                mask@.len() == n,
                forall|v: int|
                    0 <= v < n ==> ((#[trigger] mask@[v]) <==> exists|j: int|
                        0 <= j < k && (#[trigger] bfs@[j])@ == v),
            decreases m - k,
        {
            let ghost old_mask = mask@;
            mask[bfs[k].idx()] = true;
            proof {
                let wv = bfs@[k as int]@;
                assert forall|v: int|
                    0 <= v < n implies ((#[trigger] mask@[v]) <==> exists|j: int|
                    0 <= j < k + 1 && (#[trigger] bfs@[j])@ == v) by {
                    if v == wv {
                        assert(bfs@[k as int]@ == v);
                    } else {
                        assert(mask@[v] == old_mask[v]);
                        if exists|j: int| 0 <= j < k && (#[trigger] bfs@[j])@ == v {
                            let j = choose|j: int| 0 <= j < k && (#[trigger] bfs@[j])@ == v;
                            assert(0 <= j < k + 1 && bfs@[j]@ == v);
                        }
                        if exists|j: int| 0 <= j < k + 1 && (#[trigger] bfs@[j])@ == v {
                            let j = choose|j: int| 0 <= j < k + 1 && (#[trigger] bfs@[j])@ == v;
                            assert(j < k);
                        }
                    }
                }
            }
            k = k + 1;
        }
        proof {
            assert forall|v: int| 0 <= v < n implies ((#[trigger] mask@[v]) <==> within.contains(
                v,
            )) by {
                assert(mask@[v] <==> spec_pos_set(bfs@).contains(v));
            }
        }
        let mut out: Vec<BoardPosition> = Vec::new();
        let mut v: usize = 0;
        while v < n
            invariant
                v <= n,
                out@ == self.members_below(within, v as nat),
                forall|kk: int|
                    0 <= kk < out@.len() ==> (#[trigger] out@[kk])@ < v && within.contains(
                        out@[kk]@),
                forall|k1: int, k2: int|
                    0 <= k1 < k2 < out@.len() ==> (#[trigger] out@[k1])@ < (#[trigger] out@[k2])@,
            decreases n - v,
        {
            let ghost old_out = out@;
            if mask[v] {
                out.push(BoardPosition { idx: v });
            }
            proof {
                assert(old_out == self.members_below(within, v as nat));
                if within.contains(v as int) {
                    assert(out@ == old_out.push(BoardPosition { idx: v }));
                    assert(self.members_below(within, v as nat + 1) == old_out + seq![
                        BoardPosition { idx: v },
                    ]);
                    assert(out@ =~= old_out + seq![BoardPosition { idx: v }]);
                } else {
                    assert(out@ == old_out);
                    assert(self.members_below(within, v as nat + 1) =~= old_out);
                }
                assert(out@ =~= self.members_below(within, v as nat + 1));
            }
            v = v + 1;
        }
        proof {
            assert(v == self.spec_size());
            assert(self.spec_within_list(pos@, radius as nat) == self.members_below(
                self.spec_within(pos@, radius as nat),
                self.spec_size(),
            ));
            assert(out@ == self.members_below(within, v as nat));
            assert(self.members_below(within, v as nat) == self.members_below(
                within,
                self.spec_size(),
            ));
            assert(out@ =~= self.spec_within_list(pos@, radius as nat));
            assert forall|vv: int| #![auto] spec_pos_set(out@).contains(vv) <==> within.contains(
                vv,
            ) by {
                if within.contains(vv) {
                    assert(0 <= vv < n);
                    self.lemma_members_below_complete(within, n as nat, vv);
                    let k = choose|k: int|
                        0 <= k < self.members_below(within, n as nat).len() && (
                        #[trigger] self.members_below(within, n as nat)[k])@ == vv;
                    assert(out@[k]@ == vv);
                }
                if spec_pos_set(out@).contains(vv) {
                    let kk = choose|kk: int|
                        0 <= kk < out@.len() && (#[trigger] out@[kk])@ == vv;
                }
            }
            assert(spec_pos_set(out@) =~= within);
        }
        out
    }

    /// Breadth-first neighborhood of `pos`: every vertex reached in at most
    /// `radius` hops, excluding `pos` itself, deduplicated. A radius of zero
    /// yields the empty set. For radius one the result is exactly the direct
    /// neighbors (minus `pos`, without duplicates). The result holds exactly
    /// the vertices of `spec_within`: those within `radius` hops.
    #[verifier::loop_isolation(false)]
    #[verifier::rlimit(100)]
    pub fn neighbors_within(&self, pos: &BoardPosition, radius: usize) -> (r: Vec<BoardPosition>)
        requires
            self.wf(),
            pos@ < self.spec_size(),
        ensures
            spec_pos_set(r@) == self.spec_within(pos@, radius as nat),
            radius == 0 ==> r@.len() == 0,
            forall|k: int| 0 <= k < r@.len() ==> (#[trigger] r@[k])@ < self.spec_size(),
            forall|k: int| 0 <= k < r@.len() ==> (#[trigger] r@[k])@ != pos@,
            forall|k1: int, k2: int|
                0 <= k1 < k2 < r@.len() ==> (#[trigger] r@[k1])@ != (#[trigger] r@[k2])@,
            radius >= 1 ==> forall|k: int|
                0 <= k < self.spec_adj(pos@).len() && (#[trigger] self.spec_adj(pos@)[k]) != pos@
                    ==> exists|j: int| 0 <= j < r@.len() && (#[trigger] r@[j])@ == self.spec_adj(
                    pos@,
                )[k],
            radius == 1 ==> forall|j: int|
                0 <= j < r@.len() ==> self.spec_adj(pos@).contains((#[trigger] r@[j])@ as usize),
    {
        let n = self.cells.len();
        let mut visited: Vec<bool> = Vec::new();
        let mut c: usize = 0;
        while c < n
            invariant
                c <= n,
                visited@.len() == c,
                forall|cc: int| 0 <= cc < c ==> !(#[trigger] visited@[cc]),
            decreases n - c,
        {
            visited.push(false);
            c = c + 1;
        }
        visited[pos.idx()] = true;
        let mut result: Vec<BoardPosition> = Vec::new();
        let mut frontier: Vec<usize> = Vec::new();
        frontier.push(pos.idx());
        let mut t: usize = 0;
        while t < radius
            invariant
                self.wf(),
                pos@ < self.spec_size(),
                n == self.spec_size(),
                t <= radius,
                visited@.len() == n,
                visited@[pos@],
                // frontier holds valid vertices
                forall|f: int| 0 <= f < frontier@.len() ==> (#[trigger] frontier@[f]) < n,
                // result holds valid vertices, none of them pos, no duplicates
                forall|k: int| 0 <= k < result@.len() ==> (#[trigger] result@[k])@ < n,
                forall|k: int| 0 <= k < result@.len() ==> (#[trigger] result@[k])@ != pos@,
                forall|k1: int, k2: int|
                    0 <= k1 < k2 < result@.len() ==> (#[trigger] result@[k1])@ != (
                    #[trigger] result@[k2])@,
                // visited is exactly pos plus the collected result
                forall|vv: int|
                    0 <= vv < n && vv != pos@ ==> ((#[trigger] visited@[vv]) <==> exists|k: int|
                        0 <= k < result@.len() && (#[trigger] result@[k])@ == vv),
                t == 0 ==> result@.len() == 0 && frontier@.len() == 1 && frontier@[0] == pos@,
                // the collected result is exactly the vertices within t hops,
                // and the frontier is exactly the newest ring
                spec_pos_set(result@) == self.spec_within(pos@, t as nat),
                t >= 1 ==> spec_idx_set(frontier@) == self.spec_within(pos@, t as nat).difference(
                    self.spec_within(pos@, (t - 1) as nat),
                ),
                // after the first round, every direct neighbor of pos is in
                t >= 1 ==> forall|k: int|
                    0 <= k < self.spec_adj(pos@).len() && (#[trigger] self.spec_adj(pos@)[k])
                        != pos@ ==> visited@[self.spec_adj(pos@)[k] as int],
                // with radius one, nothing beyond the direct neighbors is in
                radius == 1 && t == 1 ==> forall|j: int|
                    0 <= j < result@.len() ==> self.spec_adj(pos@).contains(
                        (#[trigger] result@[j])@ as usize,
                    ),
            decreases radius - t,
        {
            let mut next: Vec<usize> = Vec::new();
            let mut f: usize = 0;
            while f < frontier.len()
                invariant
                    self.wf(),
                    pos@ < self.spec_size(),
                    n == self.spec_size(),
                    visited@.len() == n,
                    visited@[pos@],
                    forall|ff: int| 0 <= ff < frontier@.len() ==> (#[trigger] frontier@[ff]) < n,
                    forall|ff: int| 0 <= ff < next@.len() ==> (#[trigger] next@[ff]) < n,
                    forall|k: int| 0 <= k < result@.len() ==> (#[trigger] result@[k])@ < n,
                    forall|k: int| 0 <= k < result@.len() ==> (#[trigger] result@[k])@ != pos@,
                    forall|k1: int, k2: int|
                        0 <= k1 < k2 < result@.len() ==> (#[trigger] result@[k1])@ != (
                        #[trigger] result@[k2])@,
                    forall|vv: int|
                        0 <= vv < n && vv != pos@ ==> ((#[trigger] visited@[vv]) <==> exists|k: int|
                            0 <= k < result@.len() && (#[trigger] result@[k])@ == vv),
                    t == 0 ==> frontier@.len() == 1 && frontier@[0] == pos@,
                    self.spec_within(pos@, t as nat).subset_of(spec_pos_set(result@)),
                    spec_pos_set(result@).subset_of(self.spec_within(pos@, (t + 1) as nat)),
                    spec_idx_set(next@) == spec_pos_set(result@).difference(
                        self.spec_within(pos@, t as nat),
                    ),
                    t >= 1 ==> spec_idx_set(frontier@) == self.spec_within(
                        pos@,
                        t as nat,
                    ).difference(self.spec_within(pos@, (t - 1) as nat)),
                    forall|ff: int, kk: int|
                        0 <= ff < f && 0 <= kk < self.spec_adj(frontier@[ff] as int).len() ==> ((
                        #[trigger] self.spec_adj(frontier@[ff] as int)[kk]) == pos@ || visited@[
                        self.spec_adj(frontier@[ff] as int)[kk] as int]),
                    t == 0 && f >= 1 ==> forall|k: int|
                        0 <= k < self.spec_adj(pos@).len() && (#[trigger] self.spec_adj(pos@)[k])
                            != pos@ ==> visited@[self.spec_adj(pos@)[k] as int],
                    t >= 1 ==> forall|k: int|
                        0 <= k < self.spec_adj(pos@).len() && (#[trigger] self.spec_adj(pos@)[k])
                            != pos@ ==> visited@[self.spec_adj(pos@)[k] as int],
                    radius == 1 && t == 0 ==> forall|j: int|
                        0 <= j < result@.len() ==> self.spec_adj(pos@).contains(
                            (#[trigger] result@[j])@ as usize,
                        ),
                decreases frontier@.len() - f,
            {
                let u = frontier[f];
                let row = &self.adj[u];
                let mut k: usize = 0;
                while k < row.len()
                    invariant
                        self.wf(),
                        pos@ < self.spec_size(),
                        n == self.spec_size(),
                        u < n,
                        k <= row@.len(),
                        row@ == self.spec_adj(u as int),
                        visited@.len() == n,
                        visited@[pos@],
                        t == 0 ==> u == pos@,
                        u == frontier@[f as int],
                        self.spec_within(pos@, t as nat).subset_of(spec_pos_set(result@)),
                        spec_pos_set(result@).subset_of(self.spec_within(pos@, (t + 1) as nat)),
                        spec_idx_set(next@) == spec_pos_set(result@).difference(
                            self.spec_within(pos@, t as nat),
                        ),
                        t >= 1 ==> spec_idx_set(frontier@) == self.spec_within(
                            pos@,
                            t as nat,
                        ).difference(self.spec_within(pos@, (t - 1) as nat)),
                        forall|ff: int, kk: int|
                            0 <= ff < f && 0 <= kk < self.spec_adj(frontier@[ff] as int).len()
                                ==> ((#[trigger] self.spec_adj(frontier@[ff] as int)[kk]) == pos@
                                || visited@[self.spec_adj(frontier@[ff] as int)[kk] as int]),
                        forall|kk: int|
                            0 <= kk < k ==> ((#[trigger] self.spec_adj(u as int)[kk]) == pos@
                                || visited@[self.spec_adj(u as int)[kk] as int]),
                        forall|ff: int| 0 <= ff < next@.len() ==> (#[trigger] next@[ff]) < n,
                        forall|kk: int| 0 <= kk < result@.len() ==> (#[trigger] result@[kk])@ < n,
                        forall|kk: int|
                            0 <= kk < result@.len() ==> (#[trigger] result@[kk])@ != pos@,
                        forall|k1: int, k2: int|
                            0 <= k1 < k2 < result@.len() ==> (#[trigger] result@[k1])@ != (
                            #[trigger] result@[k2])@,
                        forall|vv: int|
                            0 <= vv < n && vv != pos@ ==> ((#[trigger] visited@[vv]) <==> exists|
                                kk: int,
                            |
                                0 <= kk < result@.len() && (#[trigger] result@[kk])@ == vv),
                        t == 0 ==> forall|kk: int|
                            0 <= kk < k && (#[trigger] self.spec_adj(pos@)[kk]) != pos@
                                ==> visited@[self.spec_adj(pos@)[kk] as int],
                        t >= 1 ==> forall|kk: int|
                            0 <= kk < self.spec_adj(pos@).len() && (#[trigger] self.spec_adj(pos@)[
                            kk]) != pos@ ==> visited@[self.spec_adj(pos@)[kk] as int],
                        radius == 1 && t == 0 ==> forall|j: int|
                            0 <= j < result@.len() ==> self.spec_adj(pos@).contains(
                                (#[trigger] result@[j])@ as usize,
                            ),
                    decreases row@.len() - k,
                {
                    let wv = row[k];
                    proof {
                        assert(self.spec_adj(u as int)[k as int] == wv);
                        assert(wv < n);
                    }
                    if !visited[wv] {
                        proof {
                            // pos is marked visited, so the fresh vertex is not pos,
                            // and by the visited/result correspondence it is not in
                            // the result yet
                            assert(wv != pos.idx);
                            assert(!(exists|kk: int|
                                0 <= kk < result@.len() && (#[trigger] result@[kk])@ == wv));
                        }
                        let ghost old_visited = visited@;
                        let ghost old_result = result@;
                        let ghost old_next = next@;
                        visited[wv] = true;
                        result.push(BoardPosition { idx: wv });
                        next.push(wv);
                        proof {
                            assert(result@ == old_result.push(BoardPosition { idx: wv }));
                            assert(result@[result@.len() - 1]@ == wv);
                            // the fresh vertex lies one step beyond within(t)
                            let wt = self.spec_within(pos@, t as nat);
                            assert(u == pos@ || wt.contains(u as int)) by {
                                if t >= 1 {
                                    assert(spec_idx_set(frontier@).contains(u as int));
                                }
                            }
                            assert(self.spec_step_set(pos@, wt).contains(wv as int)) by {
                                assert((u as int == pos@ || wt.contains(u as int)) && 0 <= (
                                k as int) && (k as int) < self.spec_adj(u as int).len()
                                    && self.spec_adj(u as int)[k as int] == wv);
                            }
                            assert(self.spec_within(pos@, (t + 1) as nat).contains(wv as int));
                            assert(!wt.contains(wv as int)) by {
                                if wt.contains(wv as int) {
                                    assert(spec_pos_set(old_result).contains(wv as int));
                                    let kk = choose|kk: int|
                                        0 <= kk < old_result.len() && (#[trigger] old_result[kk])@
                                            == wv as int;
                                }
                            }
                            assert forall|v: int|
                                spec_pos_set(result@).contains(v) <==> (spec_pos_set(
                                old_result,
                            ).contains(v) || v == wv as int) by {
                                if spec_pos_set(result@).contains(v) {
                                    let kk = choose|kk: int|
                                        0 <= kk < result@.len() && (#[trigger] result@[kk])@ == v;
                                    if kk < result@.len() - 1 {
                                        assert(old_result[kk]@ == v);
                                    }
                                }
                                if spec_pos_set(old_result).contains(v) {
                                    let kk = choose|kk: int|
                                        0 <= kk < old_result.len() && (#[trigger] old_result[kk])@
                                            == v;
                                    assert(result@[kk]@ == v);
                                }
                                if v == wv as int {
                                    assert(result@[result@.len() - 1]@ == v);
                                }
                            }
                            assert(spec_pos_set(result@) =~= spec_pos_set(old_result).insert(
                                wv as int,
                            ));
                            assert forall|v: int|
                                spec_idx_set(next@).contains(v) <==> spec_idx_set(old_next).insert(
                                    wv as int,
                                ).contains(v) by {
                                assert(spec_idx_set(old_next).insert(wv as int).contains(v) == (
                                spec_idx_set(old_next).contains(v) || v == wv as int));
                                if spec_idx_set(next@).contains(v) {
                                    let kk = choose|kk: int|
                                        0 <= kk < next@.len() && (#[trigger] next@[kk]) == v;
                                    if kk < next@.len() - 1 {
                                        assert(old_next[kk] == v);
                                    }
                                }
                                if spec_idx_set(old_next).contains(v) {
                                    let kk = choose|kk: int|
                                        0 <= kk < old_next.len() && (#[trigger] old_next[kk]) == v;
                                    assert(next@[kk] == v);
                                }
                                if v == wv as int {
                                    assert(next@[next@.len() - 1] == v);
                                }
                            }
                            assert(spec_idx_set(next@) =~= spec_idx_set(old_next).insert(
                                wv as int,
                            ));
                            assert(spec_idx_set(next@) =~= spec_pos_set(result@).difference(
                                self.spec_within(pos@, t as nat),
                            ));
                            assert(spec_pos_set(result@).subset_of(
                                self.spec_within(pos@, (t + 1) as nat),
                            ));
                            assert forall|vv: int| 0 <= vv < n && vv != pos@ implies ((
                            #[trigger] visited@[vv]) <==> exists|kk: int|
                                0 <= kk < result@.len() && (#[trigger] result@[kk])@ == vv) by {
                                if vv == wv {
                                    assert(visited@[vv]);
                                    assert(result@[result@.len() - 1]@ == vv);
                                } else {
                                    assert(visited@[vv] == old_visited[vv]);
                                    if exists|kk: int|
                                        0 <= kk < result@.len() && (#[trigger] result@[kk])@ == vv {
                                        let kk = choose|kk: int|
                                            0 <= kk < result@.len() && (#[trigger] result@[kk])@
                                                == vv;
                                        assert(kk < result@.len() - 1);
                                        assert(old_result[kk]@ == vv);
                                    }
                                    if exists|kk: int|
                                        0 <= kk < old_result.len() && (#[trigger] old_result[kk])@
                                            == vv {
                                        let kk = choose|kk: int|
                                            0 <= kk < old_result.len() && (
                                            #[trigger] old_result[kk])@ == vv;
                                        assert(result@[kk]@ == vv);
                                    }
                                }
                            }
                            if radius == 1 && t == 0 {
                                assert(self.spec_adj(pos@)[k as int] == wv);
                                assert(self.spec_adj(pos@).contains(wv));
                            }
                        }
                    }
                    k = k + 1;
                }
                f = f + 1;
            }
            proof {
                let wt = self.spec_within(pos@, t as nat);
                let wt1 = self.spec_within(pos@, (t + 1) as nat);
                assert(wt1 == wt.union(self.spec_step_set(pos@, wt)));
                assert forall|v: int| wt1.contains(v) implies spec_pos_set(result@).contains(
                    v,
                ) by {
                    if !wt.contains(v) {
                        assert(self.spec_step_set(pos@, wt).contains(v));
                        let (u2, k2): (int, int) = choose|u2: int, k2: int|
                            (u2 == pos@ || wt.contains(u2)) && 0 <= k2 < self.spec_adj(u2).len()
                                && (#[trigger] self.spec_adj(u2)[k2]) == v;
                        assert(v != pos@);
                        if u2 == pos@ {
                            if t == 0 {
                                // pos was the whole frontier and is fully processed
                                assert(frontier@[0] == pos@);
                                assert(self.spec_adj(pos@)[k2] == pos@ || visited@[self.spec_adj(
                                    pos@,
                                )[k2] as int]);
                                assert(visited@[v]);
                            } else {
                                // a direct neighbor of pos is already within one hop
                                assert(self.spec_step_set(
                                    pos@,
                                    self.spec_within(pos@, 0),
                                ).contains(v));
                                assert(self.spec_within(pos@, 1).contains(v));
                                self.lemma_within_monotone(pos@, 1, t as nat);
                                assert(false);
                            }
                        } else {
                            assert(t >= 1);
                            if self.spec_within(pos@, (t - 1) as nat).contains(u2) {
                                // one step from within(t - 1) is already within t
                                assert(self.spec_step_set(
                                    pos@,
                                    self.spec_within(pos@, (t - 1) as nat),
                                ).contains(v));
                                assert(wt.contains(v));
                                assert(false);
                            } else {
                                // u2 is in this round's frontier, which is fully
                                // processed
                                assert(spec_idx_set(frontier@).contains(u2));
                                let ff = choose|ff: int|
                                    0 <= ff < frontier@.len() && (#[trigger] frontier@[ff]) == u2;
                                assert(self.spec_adj(u2)[k2] == pos@ || visited@[self.spec_adj(u2)[
                                k2] as int]);
                                assert(visited@[v]);
                            }
                        }
                        if visited@[v] {
                            let kk = choose|kk: int|
                                0 <= kk < result@.len() && (#[trigger] result@[kk])@ == v;
                        }
                    }
                }
                assert(spec_pos_set(result@) =~= wt1);
                assert(spec_idx_set(next@) =~= wt1.difference(wt));
            }
            frontier = next;
            t = t + 1;
        }
        result
    }
}

} // verus!
