use vstd::prelude::*;
use crate::vertex::Vertex;
use crate::graph::Graph;

verus! {

/// The orthogonal neighbors of the grid cell `pos` that lie inside the grid
/// and are not walls, in the fixed order left, right, below, above.
/// `sizes` is `(rows, cols)`: a cell `(x, y)` is inside when
/// `0 <= x < cols` and `0 <= y < rows`.
pub open spec fn grid_neighbors(pos: (i32, i32), sizes: (i32, i32), walls: Seq<Vertex>) -> Seq<
    Vertex,
> {
    let left = Vertex { x: (pos.0 - 1) as i32, y: pos.1 };
    let right = Vertex { x: (pos.0 + 1) as i32, y: pos.1 };
    let below = Vertex { x: pos.0, y: (pos.1 - 1) as i32 };
    let above = Vertex { x: pos.0, y: (pos.1 + 1) as i32 };
    (if pos.0 > 0 && !walls.contains(left) {
        seq![left]
    } else {
        Seq::empty()
    }) + (if pos.0 < sizes.1 - 1 && !walls.contains(right) {
        seq![right]
    } else {
        Seq::empty()
    }) + (if pos.1 > 0 && !walls.contains(below) {
        seq![below]
    } else {
        Seq::empty()
    }) + (if pos.1 < sizes.0 - 1 && !walls.contains(above) {
        seq![above]
    } else {
        Seq::empty()
    })
}

/// Whether the cell at `pos` is one of the listed wall vertices.
pub fn is_set(pos: (i32, i32), vec: &Vec<Vertex>) -> (r: bool)
    ensures
        r == vec@.contains(Vertex { x: pos.0, y: pos.1 }),
{
    let vert = Vertex::new(pos.0, pos.1);
    let n = vec.len();
    let mut i: usize = 0;
    while i < n
        invariant
            i <= n,
            n == vec@.len(),
            vert == (Vertex { x: pos.0, y: pos.1 }),
            forall|j: int| 0 <= j < i ==> (#[trigger] vec@[j]) != vert,
        decreases n - i,
    {
        if vec[i] == vert {
            return true;
        }
        i = i + 1;
    }
    proof {
        if vec@.contains(vert) {
            let w = choose|w: int| 0 <= w < vec@.len() && (#[trigger] vec@[w]) == vert;
            assert(vec@[w] != vert);
        }
    }
    false
}

/// The open orthogonal neighbors of the cell at `pos` in a `sizes` grid,
/// walls excluded.
pub fn get_vector_smeg(pos: (i32, i32), sizes: (i32, i32), vec: &Vec<Vertex>) -> (r: Vec<Vertex>)
    requires
        0 <= sizes.0,
        0 <= sizes.1,
        0 <= pos.0,
        0 <= pos.1,
    ensures
        r@ == grid_neighbors(pos, sizes, vec@),
{
    let mut smeg_vec: Vec<Vertex> = Vec::new();
    if 0 < pos.0 {
        if !is_set((pos.0 - 1, pos.1), vec) {
            smeg_vec.push(Vertex::new(pos.0 - 1, pos.1));
        }
    }
    if pos.0 < sizes.1 - 1 {
        if !is_set((pos.0 + 1, pos.1), vec) {
            smeg_vec.push(Vertex::new(pos.0 + 1, pos.1));
        }
    }
    if pos.1 > 0 {
        if !is_set((pos.0, pos.1 - 1), vec) {
            smeg_vec.push(Vertex::new(pos.0, pos.1 - 1));
        }
    }
    if pos.1 < sizes.0 - 1 {
        if !is_set((pos.0, pos.1 + 1), vec) {
            smeg_vec.push(Vertex::new(pos.0, pos.1 + 1));
        }
    }
    proof {
        assert(smeg_vec@ =~= grid_neighbors(pos, sizes, vec@));
    }
    smeg_vec
}

/// Build the adjacency mapping of a `sizes.0` by `sizes.1` grid: one key
/// per non-wall cell, bound to its open orthogonal neighbors.
pub fn get_map_without_walls(sizes: (i32, i32), walls: &Vec<Vertex>) -> (r: Graph)
    requires
        0 <= sizes.0,
        0 <= sizes.1,
    ensures
        r.wf(),
        forall|v: Vertex|
            #[trigger] r@.contains_key(v) <==> (0 <= v.x < sizes.1 && 0 <= v.y < sizes.0
                && !walls@.contains(v)),
        forall|v: Vertex|
            #[trigger] r@.contains_key(v) ==> r@[v] == grid_neighbors((v.x, v.y), sizes, walls@),
{
    let mut map = Graph::new();
    let mut i: i32 = 0;
    while i < sizes.0
        invariant
            0 <= i <= sizes.0,
            0 <= sizes.1,
            map.wf(),
            forall|v: Vertex|
                #[trigger] map@.contains_key(v) <==> (0 <= v.x < sizes.1 && 0 <= v.y < i
                    && !walls@.contains(v)),
            forall|v: Vertex|
                #[trigger] map@.contains_key(v) ==> map@[v] == grid_neighbors(
                    (v.x, v.y),
                    sizes,
                    walls@,
                ),
        decreases sizes.0 - i,
    {
        let mut jj: i32 = 0;
        while jj < sizes.1
            invariant
                0 <= i < sizes.0,
                0 <= jj <= sizes.1,
                map.wf(),
                forall|v: Vertex|
                    #[trigger] map@.contains_key(v) <==> ((0 <= v.x < sizes.1 && 0 <= v.y < i
                        && !walls@.contains(v)) || (0 <= v.x < jj && v.y == i && !walls@.contains(
                        v,
                    ))),
                forall|v: Vertex|
                    #[trigger] map@.contains_key(v) ==> map@[v] == grid_neighbors(
                        (v.x, v.y),
                        sizes,
                        walls@,
                    ),
            decreases sizes.1 - jj,
        {
            let key = Vertex::new(jj, i);
            if !is_set((jj, i), walls) {
                let nb = get_vector_smeg((jj, i), sizes, walls);
                map.insert(key, nb);
            }
            jj = jj + 1;
        }
        i = i + 1;
    }
    map
}

} // verus!
