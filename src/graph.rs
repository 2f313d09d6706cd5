use vstd::prelude::*;

verus! {

/// Largest total flow (sum of all matrix entries) that a graph may carry.
///
/// With this bound every aggregate fits in 31 bits, so that the exact
/// rational comparisons of the fit engine fit in 128-bit products.
pub const MAX_TOTAL_FLOW: u64 = 2147483647;

/// A spatial unit with the total weight of its incoming and outgoing edges.
#[derive(PartialEq, Eq, Hash, Clone, Copy, Debug)]
pub struct Node {
    pub id: usize,
    pub in_degree: u32,
    pub out_degree: u32,
}

/// A commuting flow from `source` (home) to `target` (work).
#[derive(PartialEq, Eq, Hash, Clone, Copy, Debug)]
pub struct Edge {
    pub source: usize,
    pub target: usize,
    pub weight: u32,
}

/// Which of a node's edges to enumerate.
pub enum EdgeDirection {
    In,
    Out,
}

/// Why a matrix does not make a graph.
#[derive(PartialEq, Eq, Clone, Copy, Debug)]
pub enum GraphError {
    /// A row's length differs from the number of rows.
    NotSquare { row: usize },
    /// The matrix entries sum to more than `MAX_TOTAL_FLOW`.
    TotalFlowTooLarge,
    /// A node without any incoming or outgoing flow.
    IsolatedNode { node: usize },
}

/// An immutable weighted directed graph built from a square flow matrix.
pub struct Graph {
    pub nodes: Vec<Node>,
    pub edges: Vec<Edge>,
    node_to_in_edges: Vec<Vec<Edge>>,
    node_to_out_edges: Vec<Vec<Edge>>,
    matrix: Ghost<Seq<Seq<u32>>>,
}

// ---------------------------------------------------------------------------
// The matrix model
// ---------------------------------------------------------------------------

/// The rows of a matrix given as vectors.
pub open spec fn matrix_of(a: Seq<Vec<u32>>) -> Seq<Seq<u32>> {
    Seq::new(a.len(), |i: int| a[i]@)
}

/// Every row is as long as the matrix has rows.
pub open spec fn is_square(m: Seq<Seq<u32>>) -> bool {
    forall|i: int| 0 <= i < m.len() ==> #[trigger] m[i].len() == m.len()
}

/// The first row (in order) whose length differs from the number of rows.
pub open spec fn first_bad_row(m: Seq<Seq<u32>>, r: int) -> bool {
    0 <= r < m.len() && m[r].len() != m.len() && forall|i: int|
        0 <= i < r ==> #[trigger] m[i].len() == m.len()
}

/// Sum of the first `k` entries of a row.
pub open spec fn prefix_sum(row: Seq<u32>, k: int) -> int
    decreases k,
{
    if k <= 0 {
        0
    } else {
        prefix_sum(row, k - 1) + row[k - 1]
    }
}

/// Total outgoing flow of node `i`: its row sum.
pub open spec fn row_total(m: Seq<Seq<u32>>, i: int) -> int {
    prefix_sum(m[i], m.len() as int)
}

/// Sum of column `j` over the first `k` rows.
pub open spec fn col_sum(m: Seq<Seq<u32>>, j: int, k: int) -> int
    decreases k,
{
    if k <= 0 {
        0
    } else {
        col_sum(m, j, k - 1) + m[k - 1][j]
    }
}

/// Total incoming flow of node `j`: its column sum.
pub open spec fn col_total(m: Seq<Seq<u32>>, j: int) -> int {
    col_sum(m, j, m.len() as int)
}

/// Sum of the row totals of the first `k` rows.
pub open spec fn total_upto(m: Seq<Seq<u32>>, k: int) -> int
    decreases k,
{
    if k <= 0 {
        0
    } else {
        total_upto(m, k - 1) + row_total(m, k - 1)
    }
}

/// Sum of all entries of the matrix.
pub open spec fn matrix_total(m: Seq<Seq<u32>>) -> int {
    total_upto(m, m.len() as int)
}

/// A node with neither incoming nor outgoing flow.
pub open spec fn isolated(m: Seq<Seq<u32>>, v: int) -> bool {
    row_total(m, v) == 0 && col_total(m, v) == 0
}

/// The edge for matrix cell `(i, j)`.
pub open spec fn cell_edge(m: Seq<Seq<u32>>, i: int, j: int) -> Edge {
    Edge { source: i as usize, target: j as usize, weight: m[i][j] }
}

/// Out-edges of node `i` towards the first `k` columns, in column order.
pub open spec fn out_edges_upto(m: Seq<Seq<u32>>, i: int, k: int) -> Seq<Edge>
    decreases k,
{
    if k <= 0 {
        seq![]
    } else if m[i][k - 1] > 0 {
        out_edges_upto(m, i, k - 1).push(cell_edge(m, i, k - 1))
    } else {
        out_edges_upto(m, i, k - 1)
    }
}

/// In-edges of node `j` from the first `k` rows, in row order.
pub open spec fn in_edges_upto(m: Seq<Seq<u32>>, j: int, k: int) -> Seq<Edge>
    decreases k,
{
    if k <= 0 {
        seq![]
    } else if m[k - 1][j] > 0 {
        in_edges_upto(m, j, k - 1).push(cell_edge(m, k - 1, j))
    } else {
        in_edges_upto(m, j, k - 1)
    }
}

/// All edges of the first `k` rows, in row-major order.
pub open spec fn edges_upto(m: Seq<Seq<u32>>, k: int) -> Seq<Edge>
    decreases k,
{
    if k <= 0 {
        seq![]
    } else {
        edges_upto(m, k - 1) + out_edges_upto(m, k - 1, m.len() as int)
    }
}

/// Sum of the weights of a sequence of edges.
pub open spec fn weight_sum(es: Seq<Edge>) -> int
    decreases es.len(),
{
    if es.len() == 0 {
        0
    } else {
        weight_sum(es.drop_last()) + es.last().weight
    }
}

/// Partial row sums are non-negative, grow with `k`, and bound each entry.
pub proof fn lemma_prefix_sum_bounds(row: Seq<u32>, j: int, k: int)
    requires
        0 <= j <= k <= row.len(),
    ensures
        0 <= prefix_sum(row, j) <= prefix_sum(row, k),
        j < k ==> row[j] <= prefix_sum(row, k),
    decreases k,
{
    if k > 0 {
        if j < k {
            lemma_prefix_sum_bounds(row, j, k - 1);
        } else {
            lemma_prefix_sum_bounds(row, k - 1, k - 1);
        }
    }
}

/// Partial totals are non-negative and grow with the number of rows.
pub proof fn lemma_total_mono(m: Seq<Seq<u32>>, i: int, k: int)
    requires
        is_square(m),
        0 <= i <= k <= m.len(),
    ensures
        0 <= total_upto(m, i) <= total_upto(m, k),
    decreases k,
{
    if i < k {
        lemma_total_mono(m, i, k - 1);
        lemma_prefix_sum_bounds(m[k - 1], 0, m.len() as int);
    } else if k > 0 {
        lemma_total_mono(m, 0, k - 1);
        lemma_prefix_sum_bounds(m[k - 1], 0, m.len() as int);
    }
}

/// A partial column sum is bounded by the total of the same rows.
pub proof fn lemma_col_sum_le_total(m: Seq<Seq<u32>>, j: int, k: int)
    requires
        is_square(m),
        0 <= j < m.len(),
        0 <= k <= m.len(),
    ensures
        0 <= col_sum(m, j, k) <= total_upto(m, k),
    decreases k,
{
    if k > 0 {
        lemma_col_sum_le_total(m, j, k - 1);
        lemma_prefix_sum_bounds(m[k - 1], j, m.len() as int);
    }
}

/// Each node's degrees are at most the total flow.
pub proof fn lemma_degrees_le_total(m: Seq<Seq<u32>>, v: int)
    requires
        is_square(m),
        0 <= v < m.len(),
    ensures
        0 <= row_total(m, v) <= matrix_total(m),
        0 <= col_total(m, v) <= matrix_total(m),
{
    lemma_total_mono(m, v, m.len() as int);
    lemma_total_mono(m, v + 1, m.len() as int);
    lemma_total_mono(m, 0, v);
    lemma_prefix_sum_bounds(m[v], 0, m.len() as int);
    assert(total_upto(m, v + 1) == total_upto(m, v) + row_total(m, v));
    lemma_col_sum_le_total(m, v, m.len() as int);
}

/// The weights of a concatenation add up.
pub proof fn lemma_weight_sum_concat(a: Seq<Edge>, b: Seq<Edge>)
    ensures
        weight_sum(a + b) == weight_sum(a) + weight_sum(b),
    decreases b.len(),
{
    if b.len() == 0 {
        assert(a + b =~= a);
    } else {
        lemma_weight_sum_concat(a, b.drop_last());
        assert((a + b).drop_last() =~= a + b.drop_last());
    }
}

/// The out-edges of a row carry the row's partial sum.
pub proof fn lemma_out_edges_weight(m: Seq<Seq<u32>>, i: int, k: int)
    requires
        is_square(m),
        0 <= i < m.len(),
        0 <= k <= m.len(),
    ensures
        weight_sum(out_edges_upto(m, i, k)) == prefix_sum(m[i], k),
    decreases k,
{
    if k > 0 {
        lemma_out_edges_weight(m, i, k - 1);
        if m[i][k - 1] > 0 {
            assert(out_edges_upto(m, i, k).drop_last() =~= out_edges_upto(m, i, k - 1));
        }
    }
}

/// The edges of the first `k` rows carry the total of those rows.
pub proof fn lemma_edges_weight(m: Seq<Seq<u32>>, k: int)
    requires
        is_square(m),
        0 <= k <= m.len(),
    ensures
        weight_sum(edges_upto(m, k)) == total_upto(m, k),
    decreases k,
{
    if k > 0 {
        lemma_edges_weight(m, k - 1);
        lemma_out_edges_weight(m, k - 1, m.len() as int);
        lemma_weight_sum_concat(edges_upto(m, k - 1), out_edges_upto(m, k - 1, m.len() as int));
    }
}

impl View for Graph {
    type V = Seq<Seq<u32>>;

    /// The flow matrix the graph was built from.
    closed spec fn view(&self) -> Seq<Seq<u32>> {
        self.matrix@
    }
}

impl Graph {
    /// The graph's nodes, edges and edge indices agree with its matrix.
    pub closed spec fn wf(&self) -> bool {
        let m = self.matrix@;
        let n = m.len();
        &&& is_square(m)
        &&& n <= usize::MAX
        &&& matrix_total(m) <= MAX_TOTAL_FLOW
        &&& self.nodes@.len() == n
        &&& self.node_to_in_edges@.len() == n
        &&& self.node_to_out_edges@.len() == n
        &&& self.edges@ == edges_upto(m, n as int)
        &&& forall|i: int|
            0 <= i < n ==> {
                &&& (#[trigger] self.nodes@[i]).id == i
                &&& self.nodes@[i].out_degree == row_total(m, i)
                &&& self.nodes@[i].in_degree == col_total(m, i)
            }
        &&& forall|i: int|
            0 <= i < n ==> (#[trigger] self.node_to_out_edges@[i])@ == out_edges_upto(m, i, n as int)
        &&& forall|i: int|
            0 <= i < n ==> (#[trigger] self.node_to_in_edges@[i])@ == in_edges_upto(m, i, n as int)
    }

    /// Number of nodes.
    pub open spec fn n(&self) -> int {
        self@.len() as int
    }

    /// The node with id `i`.
    pub closed spec fn node_at(&self, i: int) -> Node {
        self.nodes@[i]
    }

    /// All edges, in row-major order.
    pub closed spec fn edge_list(&self) -> Seq<Edge> {
        self.edges@
    }

    /// A well-formed graph has a square matrix within the flow bound.
    pub proof fn lemma_wf_matrix(&self)
        requires
            self.wf(),
        ensures
            is_square(self@),
            self@.len() <= usize::MAX,
            matrix_total(self@) <= MAX_TOTAL_FLOW,
    {
    }

    /// Number of nodes.
    pub fn num_nodes(&self) -> (r: usize)
        requires
            self.wf(),
        ensures
            r == self.n(),
    {
        self.nodes.len()
    }

    /// Total flow into node `v`: its column sum.
    pub fn in_degree(&self, v: usize) -> (r: u32)
        requires
            self.wf(),
            v < self.n(),
        ensures
            r == col_total(self@, v as int),
    {
        self.nodes[v].in_degree
    }

    /// Total flow out of node `v`: its row sum.
    pub fn out_degree(&self, v: usize) -> (r: u32)
        requires
            self.wf(),
            v < self.n(),
        ensures
            r == row_total(self@, v as int),
    {
        self.nodes[v].out_degree
    }

    /// Out-edges of `i`: the positive entries of row `i`, in column order.
    pub open spec fn out_edges(&self, i: int) -> Seq<Edge> {
        out_edges_upto(self@, i, self.n())
    }

    /// In-edges of `j`: the positive entries of column `j`, in row order.
    pub open spec fn in_edges(&self, j: int) -> Seq<Edge> {
        in_edges_upto(self@, j, self.n())
    }

    /// A graph with no nodes yet.
    fn new() -> (g: Graph)
        ensures
            g.nodes@.len() == 0,
            g.edges@.len() == 0,
            g.node_to_in_edges@.len() == 0,
            g.node_to_out_edges@.len() == 0,
    {
        Graph {
            nodes: Vec::new(),
            edges: Vec::new(),
            node_to_in_edges: Vec::new(),
            node_to_out_edges: Vec::new(),
            matrix: Ghost(Seq::empty()),
        }
    }

    /// Appends a node (its id must be the next index) with empty edge lists.
    fn add_node(&mut self, node: Node)
        requires
            node.id == old(self).nodes@.len(),
        ensures
            final(self).nodes@ == old(self).nodes@.push(node),
            final(self).edges@ == old(self).edges@,
            final(self).node_to_in_edges@.len() == old(self).node_to_in_edges@.len() + 1,
            final(self).node_to_out_edges@.len() == old(self).node_to_out_edges@.len() + 1,
            final(self).node_to_in_edges@.last()@ == Seq::<Edge>::empty(),
            final(self).node_to_out_edges@.last()@ == Seq::<Edge>::empty(),
            forall|u: int|
                0 <= u < old(self).node_to_in_edges@.len() ==> #[trigger] final(self).node_to_in_edges@[u] == old(self).node_to_in_edges@[u],
            forall|u: int|
                0 <= u < old(self).node_to_out_edges@.len() ==> #[trigger] final(self).node_to_out_edges@[u] == old(self).node_to_out_edges@[u],
            final(self).matrix == old(self).matrix,
    {
        self.nodes.insert(node.id, node);
        self.node_to_in_edges.push(Vec::new());
        self.node_to_out_edges.push(Vec::new());
    }

    /// Records an edge: adds its weight to both degrees and appends it to
    /// the edge list and to both endpoints' edge indices.
    fn add_edge(&mut self, edge: Edge)
        requires
            edge.source < old(self).nodes@.len(),
            edge.target < old(self).nodes@.len(),
            old(self).node_to_in_edges@.len() == old(self).nodes@.len(),
            old(self).node_to_out_edges@.len() == old(self).nodes@.len(),
            old(self).nodes@[edge.source as int].out_degree + edge.weight <= u32::MAX,
            old(self).nodes@[edge.target as int].in_degree + edge.weight <= u32::MAX,
        ensures
            final(self).nodes@.len() == old(self).nodes@.len(),
            forall|u: int|
                0 <= u < old(self).nodes@.len() ==> {
                    &&& (#[trigger] final(self).nodes@[u]).id == old(self).nodes@[u].id
                    &&& final(self).nodes@[u].out_degree == old(self).nodes@[u].out_degree + (
                    if u == edge.source {
                        edge.weight as int
                    } else {
                        0
                    })
                    &&& final(self).nodes@[u].in_degree == old(self).nodes@[u].in_degree + (
                    if u == edge.target {
                        edge.weight as int
                    } else {
                        0
                    })
                },
            final(self).edges@ == old(self).edges@.push(edge),
            final(self).node_to_out_edges@.len() == old(self).node_to_out_edges@.len(),
            final(self).node_to_in_edges@.len() == old(self).node_to_in_edges@.len(),
            forall|u: int|
                0 <= u < old(self).nodes@.len() ==> (#[trigger] final(self).node_to_out_edges@[u])@
                    == if u == edge.source {
                    old(self).node_to_out_edges@[u]@.push(edge)
                } else {
                    old(self).node_to_out_edges@[u]@
                },
            forall|u: int|
                0 <= u < old(self).nodes@.len() ==> (#[trigger] final(self).node_to_in_edges@[u])@
                    == if u == edge.target {
                    old(self).node_to_in_edges@[u]@.push(edge)
                } else {
                    old(self).node_to_in_edges@[u]@
                },
            final(self).matrix == old(self).matrix,
    {
        let source = edge.source;
        let target = edge.target;
        let s_node = Node {
            id: self.nodes[source].id,
            in_degree: self.nodes[source].in_degree,
            out_degree: self.nodes[source].out_degree + edge.weight,
        };
        self.nodes.set(source, s_node);
        let t_node = Node {
            id: self.nodes[target].id,
            in_degree: self.nodes[target].in_degree + edge.weight,
            out_degree: self.nodes[target].out_degree,
        };
        self.nodes.set(target, t_node);
        self.edges.push(edge);
        self.node_to_in_edges[target].push(edge);
        self.node_to_out_edges[source].push(edge);
    }


    /// Builds the graph of a square flow matrix: one node per row and one
    /// edge per positive entry, scanned in row-major order.
    ///
    /// Fails on the first row whose length is not the number of rows, then
    /// when the entries sum to more than `MAX_TOTAL_FLOW`, then on the first
    /// node without any flow.
    pub fn from_adjacency_matrix(adjacency: Vec<Vec<u32>>) -> (r: Result<Graph, GraphError>)
        ensures
            ({
                let m = matrix_of(adjacency@);
                match r {
                    Ok(g) => {
                        &&& g.wf()
                        &&& g@ == m
                        &&& is_square(m)
                        &&& matrix_total(m) <= MAX_TOTAL_FLOW
                        &&& forall|v: int| 0 <= v < m.len() ==> !#[trigger] isolated(m, v)
                        &&& forall|i: int|
                            0 <= i < m.len() ==> #[trigger] g.node_at(i) == (Node {
                                id: i as usize,
                                in_degree: col_total(m, i) as u32,
                                out_degree: row_total(m, i) as u32,
                            })
                        &&& g.edge_list() == edges_upto(m, m.len() as int)
                        &&& weight_sum(g.edge_list()) == matrix_total(m)
                    },
                    Err(GraphError::NotSquare { row }) => first_bad_row(m, row as int),
                    Err(GraphError::TotalFlowTooLarge) => is_square(m) && matrix_total(m)
                        > MAX_TOTAL_FLOW,
                    Err(GraphError::IsolatedNode { node }) => {
                        &&& is_square(m)
                        &&& matrix_total(m) <= MAX_TOTAL_FLOW
                        &&& 0 <= node < m.len()
                        &&& isolated(m, node as int)
                        &&& forall|v: int| 0 <= v < node ==> !#[trigger] isolated(m, v)
                    },
                }
            }),
    {
        let ghost m = matrix_of(adjacency@);
        let n = adjacency.len();
        let mut i: usize = 0;
        while i < n
            invariant
                m == matrix_of(adjacency@),
                n == m.len(),
                i <= n,
                forall|r: int| 0 <= r < i ==> #[trigger] m[r].len() == n,
            decreases n - i,
        {
            if adjacency[i].len() != n {
                return Err(GraphError::NotSquare { row: i });
            }
            i = i + 1;
        }
        assert(is_square(m));

        // The total flow, checked against the bound as it grows.
        let mut total: u64 = 0;
        let mut i: usize = 0;
        while i < n
            invariant
                m == matrix_of(adjacency@),
                n == m.len(),
                is_square(m),
                i <= n,
                total == total_upto(m, i as int),
                total <= MAX_TOTAL_FLOW,
            decreases n - i,
        {
            let row = &adjacency[i];
            let mut j: usize = 0;
            while j < n
                invariant
                    m == matrix_of(adjacency@),
                    n == m.len(),
                    is_square(m),
                    i < n,
                    row@ == m[i as int],
                    j <= n,
                    total == total_upto(m, i as int) + prefix_sum(m[i as int], j as int),
                    total <= MAX_TOTAL_FLOW,
                decreases n - j,
            {
                total = total + row[j] as u64;
                j = j + 1;
                if total > MAX_TOTAL_FLOW {
                    proof {
                        lemma_prefix_sum_bounds(m[i as int], j as int, n as int);
                        lemma_total_mono(m, i as int + 1, n as int);
                    }
                    return Err(GraphError::TotalFlowTooLarge);
                }
            }
            i = i + 1;
        }

        let mut graph = Graph::new();
        graph.matrix = Ghost(m);
        let mut i: usize = 0;
        while i < n
            invariant
                n == m.len(),
                i <= n,
                graph.matrix@ == m,
                graph.nodes@.len() == i,
                graph.node_to_in_edges@.len() == i,
                graph.node_to_out_edges@.len() == i,
                graph.edges@.len() == 0,
                forall|u: int|
                    0 <= u < i ==> {
                        &&& (#[trigger] graph.nodes@[u]).id == u
                        &&& graph.nodes@[u].in_degree == 0
                        &&& graph.nodes@[u].out_degree == 0
                    },
                forall|u: int| 0 <= u < i ==> (#[trigger] graph.node_to_in_edges@[u])@.len() == 0,
                forall|u: int| 0 <= u < i ==> (#[trigger] graph.node_to_out_edges@[u])@.len() == 0,
            decreases n - i,
        {
            graph.add_node(Node::new(i));
            i = i + 1;
        }

        let mut i: usize = 0;
        while i < n
            invariant
                m == matrix_of(adjacency@),
                n == m.len(),
                is_square(m),
                matrix_total(m) <= MAX_TOTAL_FLOW,
                i <= n,
                graph.matrix@ == m,
                graph.nodes@.len() == n,
                graph.node_to_in_edges@.len() == n,
                graph.node_to_out_edges@.len() == n,
                graph.edges@ == edges_upto(m, i as int),
                forall|u: int|
                    0 <= u < n ==> {
                        &&& (#[trigger] graph.nodes@[u]).id == u
                        &&& graph.nodes@[u].out_degree == if u < i {
                            row_total(m, u)
                        } else {
                            0
                        }
                        &&& graph.nodes@[u].in_degree == col_sum(m, u, i as int)
                    },
                forall|u: int|
                    0 <= u < n ==> (#[trigger] graph.node_to_out_edges@[u])@ == if u < i {
                        out_edges_upto(m, u, n as int)
                    } else {
                        seq![]
                    },
                forall|u: int|
                    0 <= u < n ==> (#[trigger] graph.node_to_in_edges@[u])@ == in_edges_upto(
                        m,
                        u,
                        i as int,
                    ),
            decreases n - i,
        {
            let row = &adjacency[i];
            let mut j: usize = 0;
            while j < n
                invariant
                    m == matrix_of(adjacency@),
                    n == m.len(),
                    is_square(m),
                    matrix_total(m) <= MAX_TOTAL_FLOW,
                    i < n,
                    row@ == m[i as int],
                    j <= n,
                    graph.matrix@ == m,
                    graph.nodes@.len() == n,
                    graph.node_to_in_edges@.len() == n,
                    graph.node_to_out_edges@.len() == n,
                    graph.edges@ == edges_upto(m, i as int) + out_edges_upto(m, i as int, j as int),
                    forall|u: int|
                        0 <= u < n ==> {
                            &&& (#[trigger] graph.nodes@[u]).id == u
                            &&& graph.nodes@[u].out_degree == if u < i {
                                row_total(m, u)
                            } else if u == i {
                                prefix_sum(m[i as int], j as int)
                            } else {
                                0
                            }
                            &&& graph.nodes@[u].in_degree == col_sum(m, u, i as int) + if u < j {
                                m[i as int][u] as int
                            } else {
                                0
                            }
                        },
                    forall|u: int|
                        0 <= u < n ==> (#[trigger] graph.node_to_out_edges@[u])@ == if u < i {
                            out_edges_upto(m, u, n as int)
                        } else if u == i {
                            out_edges_upto(m, i as int, j as int)
                        } else {
                            seq![]
                        },
                    forall|u: int|
                        0 <= u < n ==> (#[trigger] graph.node_to_in_edges@[u])@ == if u < j
                            && m[i as int][u] > 0 {
                            in_edges_upto(m, u, i as int).push(cell_edge(m, i as int, u))
                        } else {
                            in_edges_upto(m, u, i as int)
                        },
                decreases n - j,
            {
                let weight = row[j];
                if weight > 0 {
                    proof {
                        lemma_prefix_sum_bounds(m[i as int], j as int, n as int);
                        lemma_total_mono(m, i as int, n as int);
                        lemma_total_mono(m, i as int + 1, n as int);
                        lemma_col_sum_le_total(m, j as int, i as int);
                        lemma_prefix_sum_bounds(m[i as int], j as int, j as int + 1);
                        lemma_prefix_sum_bounds(m[i as int], j as int + 1, n as int);
                        assert(total_upto(m, i as int + 1) == total_upto(m, i as int) + row_total(
                            m,
                            i as int,
                        ));
                    }
                    graph.add_edge(Edge { source: i, target: j, weight });
                    proof {
                        assert(graph.edges@ =~= edges_upto(m, i as int) + out_edges_upto(
                            m,
                            i as int,
                            j as int + 1,
                        ));
                    }
                }
                j = j + 1;
            }
            proof {
                assert(graph.edges@ =~= edges_upto(m, i as int + 1));
            }
            i = i + 1;
        }

        let mut v: usize = 0;
        while v < n
            invariant
                m == matrix_of(adjacency@),
                n == m.len(),
                is_square(m),
                matrix_total(m) <= MAX_TOTAL_FLOW,
                v <= n,
                graph.matrix@ == m,
                graph.nodes@.len() == n,
                forall|u: int|
                    0 <= u < n ==> {
                        &&& (#[trigger] graph.nodes@[u]).out_degree == row_total(m, u)
                        &&& graph.nodes@[u].in_degree == col_total(m, u)
                    },
                forall|u: int| 0 <= u < v ==> !#[trigger] isolated(m, u),
            decreases n - v,
        {
            if graph.nodes[v].in_degree == 0 && graph.nodes[v].out_degree == 0 {
                return Err(GraphError::IsolatedNode { node: v });
            }
            v = v + 1;
        }
        proof {
            lemma_edges_weight(m, n as int);
        }
        Ok(graph)
    }

    /// The edges of a node in one direction, in the order of a row-major
    /// scan of the matrix.
    pub fn get_edges(&self, node_index: usize, direction: EdgeDirection) -> (r: &Vec<Edge>)
        requires
            self.wf(),
            node_index < self.n(),
        ensures
            r@ == match direction {
                EdgeDirection::In => self.in_edges(node_index as int),
                EdgeDirection::Out => self.out_edges(node_index as int),
            },
    {
        match direction {
            EdgeDirection::In => &self.node_to_in_edges[node_index],
            EdgeDirection::Out => &self.node_to_out_edges[node_index],
        }
    }
}

impl Node {
    /// A node without edges.
    fn new(id: usize) -> (n: Node)
        ensures
            n.id == id,
            n.in_degree == 0,
            n.out_degree == 0,
    {
        Node { id, in_degree: 0, out_degree: 0 }
    }
}

} // verus!
