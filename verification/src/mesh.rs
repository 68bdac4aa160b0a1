//! Mesh-derived board topology.
//!
//! A triangle mesh (for example a subdivided icosphere from an outside
//! generator) supplies the graph through its index buffer: two distinct
//! vertices are neighbors exactly when some triangle contains both. The
//! derivation is verified: the board built here provably has the mesh's edge
//! relation as its adjacency, with no duplicates and no self-loops.

use vstd::prelude::*;

use crate::board::Board;
use crate::board::BoardError;
use crate::board::spec_idx_set;

verus! {

/// Vertex `v` occurs in triangle `t` of the index buffer.
pub open spec fn in_triangle(indices: Seq<u32>, t: int, v: int) -> bool {
    indices[3 * t] == v || indices[3 * t + 1] == v || indices[3 * t + 2] == v
}

/// The edge relation of the first `t` whole triangles: two distinct vertices
/// that share one of them.
pub open spec fn mesh_edge_upto(indices: Seq<u32>, t: int, v: int, w: int) -> bool {
    v != w && exists|tt: int|
        0 <= tt < t && (#[trigger] in_triangle(indices, tt, v)) && (#[trigger] in_triangle(
            indices,
            tt,
            w,
        ))
}

/// The edge relation of the whole buffer; bytes past the last whole triangle
/// are ignored.
pub open spec fn mesh_edge(indices: Seq<u32>, v: int, w: int) -> bool {
    mesh_edge_upto(indices, indices.len() as int / 3, v, w)
}

/// Records `w` as a neighbor of `u`, unless it already is one or is `u`
/// itself; other rows are untouched and the row stays duplicate-free.
#[verifier::loop_isolation(false)]
fn add_edge(adj: &mut Vec<Vec<usize>>, u: usize, w: usize)
    requires
        u < old(adj)@.len(),
        forall|k1: int, k2: int|
            0 <= k1 < k2 < old(adj)@[u as int]@.len() ==> (#[trigger] old(adj)@[u as int]@[k1]) != (
            #[trigger] old(adj)@[u as int]@[k2]),
    ensures
        final(adj)@.len() == old(adj)@.len(),
        forall|v: int|
            0 <= v < final(adj)@.len() && v != u ==> (#[trigger] final(adj)@[v]) == old(adj)@[v],
        forall|x: int|
            #[trigger] spec_idx_set(final(adj)@[u as int]@).contains(x) <==> (spec_idx_set(
                old(adj)@[u as int]@,
            ).contains(x) || (x == w && u != w)),
        forall|k1: int, k2: int|
            0 <= k1 < k2 < final(adj)@[u as int]@.len() ==> (#[trigger] final(adj)@[u as int]@[k1])
                != (#[trigger] final(adj)@[u as int]@[k2]),
{
    if u == w {
        proof {
            assert(adj@[u as int]@ == old(adj)@[u as int]@);
        }
        return ;
    }
    let len = adj[u].len();
    let mut k: usize = 0;
    while k < len
        invariant
            u < adj@.len(),
            len == adj@[u as int]@.len(),
            k <= len,
            forall|kk: int| 0 <= kk < k ==> (#[trigger] adj@[u as int]@[kk]) != w,
        decreases len - k,
    {
        if adj[u][k] == w {
            proof {
                assert(spec_idx_set(adj@[u as int]@).contains(w as int));
                assert(adj@[u as int]@ == old(adj)@[u as int]@);
            }
            return ;
        }
        k = k + 1;
    }
    let ghost old_row = adj@[u as int]@;
    adj[u].push(w);
    proof {
        assert(adj@[u as int]@ == old_row.push(w));
        assert forall|x: int|
            #[trigger] spec_idx_set(adj@[u as int]@).contains(x) <==> (spec_idx_set(
                old_row,
            ).contains(x) || x == w as int) by {
            if spec_idx_set(adj@[u as int]@).contains(x) {
                let kk = choose|kk: int|
                    0 <= kk < adj@[u as int]@.len() && (#[trigger] adj@[u as int]@[kk]) == x;
                if kk < adj@[u as int]@.len() - 1 {
                    assert(old_row[kk] == x);
                }
            }
            if spec_idx_set(old_row).contains(x) {
                let kk = choose|kk: int| 0 <= kk < old_row.len() && (#[trigger] old_row[kk]) == x;
                assert(adj@[u as int]@[kk] == x);
            }
            if x == w as int {
                assert(adj@[u as int]@[adj@[u as int]@.len() - 1] == x);
            }
        }
        assert forall|k1: int, k2: int|
            0 <= k1 < k2 < adj@[u as int]@.len() implies (#[trigger] adj@[u as int]@[k1]) != (
        #[trigger] adj@[u as int]@[k2]) by {
            if k2 == adj@[u as int]@.len() - 1 {
                assert(adj@[u as int]@[k1] == old_row[k1]);
            }
        }
    }
}

impl Board {
    /// Builds a board over the vertex set of a triangle mesh. Succeeds
    /// exactly when every index names a real vertex, and then the adjacency
    /// is provably the mesh's edge relation: `w` is a neighbor of `v` if and
    /// only if some triangle contains both and they are distinct — so
    /// neighbor lists never hold duplicates or the vertex itself.
    #[verifier::loop_isolation(false)]
    #[verifier::rlimit(60)]
    pub fn from_mesh_indices(vertex_count: usize, indices: &Vec<u32>) -> (r: Result<
        Board,
        BoardError,
    >)
        ensures
            (r matches Ok(_)) <==> (forall|k: int|
                0 <= k < indices@.len() ==> (#[trigger] indices@[k]) < vertex_count),
            r matches Ok(b) ==> {
                &&& b.wf()
                &&& b.spec_size() == vertex_count
                &&& b.all_cells_empty()
                &&& forall|v: int, w: int|
                    0 <= v < vertex_count ==> ((#[trigger] spec_idx_set(b.spec_adj(v)).contains(w))
                        <==> mesh_edge(indices@, v, w))
                &&& forall|v: int, k1: int, k2: int|
                    0 <= v < vertex_count && 0 <= k1 < k2 < b.spec_adj(v).len() ==> (
                    #[trigger] b.spec_adj(v)[k1]) != (#[trigger] b.spec_adj(v)[k2])
            },
            r matches Err(e) ==> (e matches BoardError::OutOfRange { index, size } && size
                == vertex_count && index >= vertex_count && indices@.contains(index as u32)),
    {
        let n = indices.len();
        let mut k: usize = 0;
        while k < n
            invariant
                k <= n,
                forall|kk: int| 0 <= kk < k ==> (#[trigger] indices@[kk]) < vertex_count,
            decreases n - k,
        {
            if indices[k] as usize >= vertex_count {
                return Err(
                    BoardError::OutOfRange { index: indices[k] as usize, size: vertex_count },
                );
            }
            proof {
                assert(indices@[k as int] < vertex_count);
            }
            k = k + 1;
        }
        let mut adj: Vec<Vec<usize>> = Vec::new();
        let mut v: usize = 0;
        while v < vertex_count
            invariant
                v <= vertex_count,
                adj@.len() == v,
                forall|vv: int| 0 <= vv < v ==> (#[trigger] adj@[vv])@.len() == 0,
            decreases vertex_count - v,
        {
            adj.push(Vec::new());
            v = v + 1;
        }
        let tri_count = n / 3;
        proof {
            vstd::arithmetic::div_mod::lemma_fundamental_div_mod(n as int, 3);
        }
        let mut t: usize = 0;
        while t < tri_count
            invariant
                t <= tri_count,
                adj@.len() == vertex_count,
                forall|vv: int, kk: int|
                    0 <= vv < vertex_count && 0 <= kk < adj@[vv]@.len() ==> (
                    #[trigger] adj@[vv]@[kk]) < vertex_count,
                forall|vv: int, k1: int, k2: int|
                    0 <= vv < vertex_count && 0 <= k1 < k2 < adj@[vv]@.len() ==> (
                    #[trigger] adj@[vv]@[k1]) != (#[trigger] adj@[vv]@[k2]),
                forall|vv: int, ww: int|
                    0 <= vv < vertex_count ==> ((#[trigger] spec_idx_set(adj@[vv]@).contains(ww))
                        <==> mesh_edge_upto(indices@, t as int, vv, ww)),
            decreases tri_count - t,
        {
            let a = indices[3 * t] as usize;
            let b = indices[3 * t + 1] as usize;
            let c = indices[3 * t + 2] as usize;
            let ghost g0 = adj@;
            add_edge(&mut adj, a, b);
            let ghost g1 = adj@;
            add_edge(&mut adj, a, c);
            let ghost g2 = adj@;
            add_edge(&mut adj, b, a);
            let ghost g3 = adj@;
            add_edge(&mut adj, b, c);
            let ghost g4 = adj@;
            add_edge(&mut adj, c, a);
            let ghost g5 = adj@;
            add_edge(&mut adj, c, b);
            proof {
                assert forall|vv: int, ww: int|
                    0 <= vv < vertex_count implies ((#[trigger] spec_idx_set(adj@[vv]@).contains(
                    ww)) <==> mesh_edge_upto(indices@, t as int + 1, vv, ww)) by {
                    // after the six insertions, vv lists ww exactly when it did
                    // before, or (vv, ww) is a distinct pair of this triangle
                    assert(spec_idx_set(adj@[vv]@).contains(ww) <==> (spec_idx_set(
                        g0[vv]@,
                    ).contains(ww) || (vv == a && ww == b && a != b) || (vv == a && ww == c && a
                        != c) || (vv == b && ww == a && b != a) || (vv == b && ww == c && b != c)
                        || (vv == c && ww == a && c != a) || (vv == c && ww == b && c != b))) by {
                        if vv != a && vv != b && vv != c {
                            assert(adj@[vv] == g0[vv]);
                        }
                    }
                    assert(in_triangle(indices@, t as int, a as int));
                    assert(in_triangle(indices@, t as int, b as int));
                    assert(in_triangle(indices@, t as int, c as int));
                    if mesh_edge_upto(indices@, t as int + 1, vv, ww) && !mesh_edge_upto(
                        indices@,
                        t as int,
                        vv,
                        ww,
                    ) {
                        let tt = choose|tt: int|
                            0 <= tt < t as int + 1 && (#[trigger] in_triangle(indices@, tt, vv))
                                && (#[trigger] in_triangle(indices@, tt, ww));
                        assert(tt == t as int);
                        assert(vv == a || vv == b || vv == c);
                        assert(ww == a || ww == b || ww == c);
                    }
                    if mesh_edge_upto(indices@, t as int, vv, ww) {
                        let tt = choose|tt: int|
                            0 <= tt < t as int && (#[trigger] in_triangle(indices@, tt, vv)) && (
                            #[trigger] in_triangle(indices@, tt, ww));
                        assert(in_triangle(indices@, tt, vv) && in_triangle(indices@, tt, ww) && 0
                            <= tt < t as int + 1);
                    }
                }
                // every listed neighbor still names a real vertex: it comes
                // from some triangle of the buffer, whose entries are valid
                assert forall|vv: int, kk: int|
                    0 <= vv < vertex_count && 0 <= kk < adj@[vv]@.len() implies (
                #[trigger] adj@[vv]@[kk]) < vertex_count by {
                    let x = adj@[vv]@[kk] as int;
                    assert(spec_idx_set(adj@[vv]@).contains(x));
                    assert(mesh_edge_upto(indices@, t as int + 1, vv, x));
                    let tt = choose|tt: int|
                        0 <= tt < t as int + 1 && (#[trigger] in_triangle(indices@, tt, vv)) && (
                        #[trigger] in_triangle(indices@, tt, x));
                    assert(indices@[3 * tt] < vertex_count && indices@[3 * tt + 1] < vertex_count
                        && indices@[3 * tt + 2] < vertex_count);
                }
            }
            t = t + 1;
        }
        let ghost rows = adj@;
        let board = match Board::from_adjacency(adj) {
            Ok(board) => board,
            Err(e) => {
                proof {
                    assert(false);
                }
                return Err(e);
            },
        };
        proof {
            assert forall|vv: int, ww: int|
                0 <= vv < vertex_count implies ((#[trigger] spec_idx_set(
                board.spec_adj(vv)).contains(ww)) <==> mesh_edge(indices@, vv, ww)) by {
                assert(board.spec_adj(vv) == rows[vv]@);
            }
        }
        Ok(board)
    }
}

} // verus!
