//! The node set, the complete graph of segments over it, and the grid.
use vstd::prelude::*;
use crate::field::{CellType, CellTypeMap, Path, path_views, rendered, rendered_cell, blend, first_two, field_distances, cell_of, classify};
use crate::geometry::Coord;

verus! {

/// The segments that a new node `node` adds: one to each of `others`.
pub open spec fn links(node: Coord, others: Seq<Coord>) -> Seq<Seq<Coord>> {
    others.map_values(|o: Coord| seq![node, o])
}

/// The segments over `nodes`: each node is joined to every node added
/// before it, at the time it is added.
pub open spec fn complete_graph(nodes: Seq<Coord>) -> Seq<Seq<Coord>>
    decreases nodes.len(),
{
    if nodes.len() == 0 {
        seq![]
    } else {
        complete_graph(nodes.drop_last()) + links(nodes.last(), nodes.drop_last())
    }
}

/// The index of the cell at `node` in a grid `width` cells wide.
pub open spec fn cell_index(node: Coord, width: int) -> int {
    node.1 * width + node.0
}

proof fn lemma_cell_index_in_grid(node: Coord, width: int, height: int)
    requires
        node.0 < width,
        node.1 < height,
    ensures
        0 <= cell_index(node, width) < width * height,
{
    let (x, y) = (node.0 as int, node.1 as int);
    assert(0 <= y * width + x < width * height) by (nonlinear_arith)
        requires
            0 <= x < width,
            0 <= y < height,
    ;
}

/// The grid with every cell but the node markers set to the background.
pub open spec fn reset_cells(cells: Seq<CellType>) -> Seq<CellType> {
    cells.map_values(|c: CellType| if c == CellType::NodeMarker { c } else { CellType::Background })
}

/// The placed nodes in order of placement, the segments between them, and
/// the grid of `size.0` columns and `size.1` rows.
#[derive(Debug)]
pub struct Configuration {
    pub nodes: Vec<Coord>,
    pub paths: Vec<Path>,
    pub map: CellTypeMap,
    pub size: (u16, u16),
}

impl Configuration {
    /// The grid has `size.0 * size.1` cells; the segments are the complete
    /// graph over the nodes; every node lies on the grid and its cell is a
    /// node marker.
    pub open spec fn wf(&self) -> bool {
        &&& self.map.map.len() == self.size.0 as int * self.size.1 as int
        &&& path_views(self.paths@) == complete_graph(self.nodes@)
        &&& forall|k: int| 0 <= k < self.nodes.len() ==> {
            &&& (#[trigger] self.nodes@[k]).0 < self.size.0
            &&& self.nodes@[k].1 < self.size.1
            &&& self.map.map@[cell_index(self.nodes@[k], self.size.0 as int)] == CellType::NodeMarker
        }
    }

    /// An empty configuration on a background grid of the given size.
    pub fn new(size: (u16, u16)) -> (r: Self)
        ensures
            r.wf(),
            r.size == size,
            r.nodes@.len() == 0,
            r.paths@.len() == 0,
            r.map.map@ == Seq::new(size.0 as nat * size.1 as nat, |i: int| CellType::Background),
    {
        proof {
            assert(size.0 as int * size.1 as int <= 0xFFFE_0001) by (nonlinear_arith)
                requires
                    size.0 <= 0xFFFF,
                    size.1 <= 0xFFFF,
            ;
        }
        let total = size.0 as usize * size.1 as usize;
        let mut cells: Vec<CellType> = Vec::new();
        let mut i: usize = 0;
        while i < total
            invariant
                i <= total,
                total == size.0 as int * size.1 as int,
                cells@ == Seq::new(i as nat, |j: int| CellType::Background),
            decreases total - i,
        {
            cells.push(CellType::Background);
            proof {
                assert(cells@ =~= Seq::new((i + 1) as nat, |j: int| CellType::Background));
            }
            i = i + 1;
        }
        let r = Configuration { nodes: Vec::new(), paths: Vec::new(), map: CellTypeMap::new(cells), size };
        proof {
            assert(path_views(r.paths@) =~= complete_graph(r.nodes@));
        }
        r
    }

    /// Places `node`, joins it by a new segment to every node placed before,
    /// and marks its cell.
    pub fn add_node_with_paths(&mut self, node: Coord)
        requires
            old(self).wf(),
            node.0 < old(self).size.0,
            node.1 < old(self).size.1,
        ensures
            final(self).wf(),
            final(self).size == old(self).size,
            final(self).nodes@ == old(self).nodes@.push(node),
            path_views(final(self).paths@) == path_views(old(self).paths@) + links(node, old(self).nodes@),
            final(self).map.map@ == old(self).map.map@.update(cell_index(node, old(self).size.0 as int), CellType::NodeMarker),
    {
        let ghost old_paths = path_views(self.paths@);
        let mut k: usize = 0;
        while k < self.nodes.len()
            invariant
                k <= self.nodes.len(),
                self.nodes@ == old(self).nodes@,
                self.map == old(self).map,
                self.size == old(self).size,
                path_views(self.paths@) == old_paths + links(node, self.nodes@).take(k as int),
            decreases self.nodes.len() - k,
        {
            let mut ends: Vec<Coord> = Vec::new();
            ends.push(node);
            ends.push(self.nodes[k]);
            assert(ends@ =~= seq![node, self.nodes@[k as int]]);
            let ghost prev = self.paths@;
            self.paths.push(Path { nodes: ends });
            proof {
                assert(path_views(self.paths@) =~= path_views(prev).push(seq![node, self.nodes@[k as int]]));
                assert(path_views(self.paths@) =~= old_paths + links(node, self.nodes@).take(k + 1));
            }
            k = k + 1;
        }
        proof {
            assert(links(node, self.nodes@).take(k as int) =~= links(node, self.nodes@));
        }
        let width = self.size.0 as usize;
        proof {
            lemma_cell_index_in_grid(node, width as int, self.size.1 as int);
        }
        let idx = node.1 as usize * width + node.0 as usize;
        self.map.map.set(idx, CellType::NodeMarker);
        self.nodes.push(node);
        proof {
            let ns = self.nodes@;
            assert(ns.drop_last() =~= old(self).nodes@);
            assert(path_views(self.paths@) =~= complete_graph(ns));
            assert forall|j: int| 0 <= j < ns.len() implies {
                &&& (#[trigger] ns[j]).0 < self.size.0
                &&& ns[j].1 < self.size.1
                &&& self.map.map@[cell_index(ns[j], self.size.0 as int)] == CellType::NodeMarker
            } by {
                if j < ns.len() - 1 {
                    assert(ns[j] == old(self).nodes@[j]);
                    lemma_cell_index_in_grid(ns[j], self.size.0 as int, self.size.1 as int);
                }
            }
        }
    }

    /// Sets every cell but the node markers to the background.
    pub fn clean_map(&mut self)
        requires
            old(self).wf(),
        ensures
            final(self).wf(),
            final(self).nodes == old(self).nodes,
            final(self).paths == old(self).paths,
            final(self).size == old(self).size,
            final(self).map.map@ == reset_cells(old(self).map.map@),
    {
        let n = self.map.map.len();
        let mut i: usize = 0;
        while i < n
            invariant
                i <= n,
                n == self.map.map.len(),
                self.map.map.len() == old(self).map.map.len(),
                self.nodes == old(self).nodes,
                self.paths == old(self).paths,
                self.size == old(self).size,
                forall|j: int| 0 <= j < i ==> self.map.map@[j] == #[trigger] reset_cells(old(self).map.map@)[j],
                forall|j: int| i <= j < n ==> self.map.map@[j] == old(self).map.map@[j],
            decreases n - i,
        {
            if self.map.map[i] != CellType::NodeMarker {
                self.map.map.set(i, CellType::Background);
            }
            i = i + 1;
        }
        proof {
            assert(self.map.map@ =~= reset_cells(old(self).map.map@));
            assert forall|k: int| 0 <= k < self.nodes.len() implies
                self.map.map@[cell_index(#[trigger] self.nodes@[k], self.size.0 as int)] == CellType::NodeMarker by {
                lemma_cell_index_in_grid(self.nodes@[k], self.size.0 as int, self.size.1 as int);
            }
        }
    }

    /// Renders the distance field of the current segments into the grid.
    pub fn add_path_cells(&mut self)
        requires
            old(self).wf(),
        ensures
            final(self).wf(),
            final(self).nodes == old(self).nodes,
            final(self).paths == old(self).paths,
            final(self).size == old(self).size,
            final(self).map.map@ == rendered(path_views(old(self).paths@), old(self).size.0 as int, old(self).map.map@),
    {
        self.map.render_path_cells(self.paths.as_slice(), self.size);
        proof {
            assert forall|k: int| 0 <= k < self.nodes.len() implies
                self.map.map@[cell_index(#[trigger] self.nodes@[k], self.size.0 as int)] == CellType::NodeMarker by {
                lemma_cell_index_in_grid(self.nodes@[k], self.size.0 as int, self.size.1 as int);
            }
        }
    }
}

/// Builds a configuration of the given size by placing `nodes` in order.
pub fn create_configuration(nodes: &Vec<Coord>, size: (u16, u16)) -> (r: Configuration)
    requires
        forall|k: int| 0 <= k < nodes.len() ==> (#[trigger] nodes@[k]).0 < size.0 && nodes@[k].1 < size.1,
    ensures
        r.wf(),
        r.size == size,
        r.nodes@ == nodes@,
        path_views(r.paths@) == complete_graph(nodes@),
{
    let mut config = Configuration::new(size);
    let mut k: usize = 0;
    while k < nodes.len()
        invariant
            k <= nodes.len(),
            config.wf(),
            config.size == size,
            config.nodes@ == nodes@.take(k as int),
            forall|j: int| 0 <= j < nodes.len() ==> (#[trigger] nodes@[j]).0 < size.0 && nodes@[j].1 < size.1,
        decreases nodes.len() - k,
    {
        config.add_node_with_paths(nodes[k]);
        proof {
            assert(config.nodes@ =~= nodes@.take(k + 1));
        }
        k = k + 1;
    }
    proof {
        assert(nodes@.take(k as int) =~= nodes@);
    }
    config
}

/// `k` nodes are joined by `k * (k - 1) / 2` segments.
pub proof fn lemma_complete_graph_size(nodes: Seq<Coord>)
    ensures
        2 * complete_graph(nodes).len() == nodes.len() * (nodes.len() - 1),
    decreases nodes.len(),
{
    if nodes.len() > 0 {
        lemma_complete_graph_size(nodes.drop_last());
        let k = nodes.len() as int;
        assert(2 * (k - 1) + (k - 1) * (k - 2) == k * (k - 1)) by (nonlinear_arith);
    }
}

/// Placing a node adds exactly one segment from it to each node already
/// placed: none for the first node, one for the second, two for the third.
pub proof fn lemma_new_node_links(nodes: Seq<Coord>, node: Coord)
    ensures
        complete_graph(nodes.push(node)) == complete_graph(nodes) + links(node, nodes),
        links(node, nodes).len() == nodes.len(),
        forall|j: int| 0 <= j < nodes.len() ==> #[trigger] links(node, nodes)[j] == seq![node, nodes[j]],
{
    assert(nodes.push(node).drop_last() =~= nodes);
}

/// Resetting keeps every node marker, sets every other cell to the
/// background, and resetting twice is resetting once.
pub proof fn lemma_reset_idempotent(cells: Seq<CellType>)
    ensures
        reset_cells(cells).len() == cells.len(),
        forall|i: int| 0 <= i < cells.len() ==> #[trigger] reset_cells(cells)[i] == if cells[i] == CellType::NodeMarker {
            CellType::NodeMarker
        } else {
            CellType::Background
        },
        reset_cells(reset_cells(cells)) == reset_cells(cells),
{
    assert(reset_cells(reset_cells(cells)) =~= reset_cells(cells));
}

/// Rendering a rendered grid again with the same segments changes nothing.
pub proof fn lemma_render_repeat(paths: Seq<Seq<Coord>>, width: int, cells: Seq<CellType>)
    ensures
        rendered(paths, width, rendered(paths, width, cells)) == rendered(paths, width, cells),
{
    let once = rendered(paths, width, cells);
    assert forall|i: int| 0 <= i < cells.len() implies #[trigger] rendered_cell(paths, width, i, once[i]) == once[i] by {
        match blend(first_two(field_distances(paths, cell_of(i, width)).sort())) {
            None => {},
            Some(c) => {
                if cells[i] != CellType::NodeMarker {
                    assert(classify(c) != CellType::NodeMarker);
                }
            },
        }
    }
    assert(rendered(paths, width, once) =~= once);
}

} // verus!
