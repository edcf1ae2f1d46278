//! The page graph: a petgraph `DiGraph` whose node weights are pages.

use petgraph::graph::DiGraph;
use petgraph::dot::{Config, Dot};
use petgraph::graph::NodeIndex;
use vstd::prelude::*;

verus! {

/// petgraph's `Graph`, opaque: its contents are reached through `graph_nodes`
/// and `graph_edges`.
#[verifier::external_type_specification]
#[verifier::external_body]
#[verifier::reject_recursive_types(N)]
#[verifier::reject_recursive_types(E)]
#[verifier::reject_recursive_types(Ty)]
#[verifier::reject_recursive_types(Ix)]
pub struct ExGraph<N, E, Ty, Ix>(petgraph::graph::Graph<N, E, Ty, Ix>);

/// petgraph's marker for directed graphs.
#[verifier::external_type_specification]
#[verifier::external_body]
pub struct ExDirected(petgraph::Directed);

/// A page of Geminispace as a node of the graph.
#[derive(Debug, Clone)]
pub struct PageNode {
    pub url: String,
    pub depth: usize,
    /// Whether the page's links were fetched and added to the graph.
    pub processed: bool,
}

impl View for PageNode {
    type V = (Seq<char>, usize, bool);

    open spec fn view(&self) -> (Seq<char>, usize, bool) {
        (self.url@, self.depth, self.processed)
    }
}

/// The pages held by a graph, in node-index order.
pub uninterp spec fn graph_nodes(g: DiGraph<PageNode, ()>) -> Seq<(Seq<char>, usize, bool)>;

/// The edges held by a graph, in edge-index order, as (source, target) node indices.
pub uninterp spec fn graph_edges(g: DiGraph<PageNode, ()>) -> Seq<(usize, usize)>;

/// `Graph::new`: a graph with no nodes and no edges.
#[verifier::external_body]
fn graph_new() -> (r: DiGraph<PageNode, ()>)
    ensures
        graph_nodes(r) == Seq::<(Seq<char>, usize, bool)>::empty(),
        graph_edges(r) == Seq::<(usize, usize)>::empty(),
{
    DiGraph::new()
}

/// A page graph with no pages and no links.
pub fn empty_graph() -> (r: DiGraph<PageNode, ()>)
    ensures
        graph_nodes(r) == Seq::<(Seq<char>, usize, bool)>::empty(),
        graph_edges(r) == Seq::<(usize, usize)>::empty(),
{
    graph_new()
}

/// `Graph::node_count`: the number of nodes. Claimed also: it is at most
/// `u32::MAX`, as petgraph keeps it for `u32` indices (`add_node` refuses to create
/// index `u32::MAX`, so it cannot push past that count).
#[verifier::external_body]
pub(crate) fn graph_node_count(g: &DiGraph<PageNode, ()>) -> (r: usize)
    ensures
        r == graph_nodes(*g).len(),
        r <= u32::MAX,
{
    g.node_count()
}

/// `Graph::add_node`: appends the node and gives its index. Its assertion fails
/// when the count reaches `u32::MAX`, which `requires` leaves out.
#[verifier::external_body]
pub(crate) fn graph_add_node(g: &mut DiGraph<PageNode, ()>, node: PageNode) -> (r: usize)
    requires
        graph_nodes(*old(g)).len() < u32::MAX,
    ensures
        r == graph_nodes(*old(g)).len(),
        graph_nodes(*final(g)) == graph_nodes(*old(g)).push(node@),
        graph_edges(*final(g)) == graph_edges(*old(g)),
{
    g.add_node(node).index()
}

/// `Index<NodeIndex>` on a graph: the weight of node `i` (it panics past the end).
#[verifier::external_body]
pub(crate) fn graph_node(g: &DiGraph<PageNode, ()>, i: usize) -> (r: &PageNode)
    requires
        i < graph_nodes(*g).len(),
    ensures
        r@ == graph_nodes(*g)[i as int],
{
    &g[NodeIndex::new(i)]
}

/// `Graph::edge_count`: the number of edges. Claimed also: it is at most
/// `u32::MAX`, as petgraph keeps it for `u32` indices (`add_edge` refuses to create
/// index `u32::MAX`, so it cannot push past that count); and every edge joins two
/// existing nodes (`add_edge` panics otherwise, `remove_node` removes a node's
/// edges, and deserialisation checks the endpoints).
#[verifier::external_body]
pub(crate) fn graph_edge_count(g: &DiGraph<PageNode, ()>) -> (r: usize)
    ensures
        r == graph_edges(*g).len(),
        r <= u32::MAX,
        forall|j: int| 0 <= j < r ==> (#[trigger] graph_edges(*g)[j]).0 < graph_nodes(*g).len() && graph_edges(*g)[j].1 < graph_nodes(*g).len(),
{
    g.edge_count()
}

/// `Graph::contains_edge`: whether an edge from `a` to `b` exists.
#[verifier::external_body]
pub(crate) fn graph_has_edge(g: &DiGraph<PageNode, ()>, a: usize, b: usize) -> (r: bool)
    requires
        a < graph_nodes(*g).len(),
        b < graph_nodes(*g).len(),
    ensures
        r == graph_edges(*g).contains((a, b)),
{
    g.contains_edge(NodeIndex::new(a), NodeIndex::new(b))
}

/// `IndexMut<NodeIndex>` on a graph: replaces the weight of node `i`.
#[verifier::external_body]
pub(crate) fn graph_set_node(g: &mut DiGraph<PageNode, ()>, i: usize, node: PageNode)
    requires
        i < graph_nodes(*old(g)).len(),
    ensures
        graph_nodes(*final(g)) == graph_nodes(*old(g)).update(i as int, node@),
        graph_edges(*final(g)) == graph_edges(*old(g)),
{
    g[NodeIndex::new(i)] = node;
}

/// `Graph::update_edge(a, b, ())`: where an edge from `a` to `b` exists it stays the
/// only change (its unit weight is rewritten); otherwise `add_edge` appends one, whose
/// assertion fails at `u32::MAX` edges, which `requires` leaves out.
#[verifier::external_body]
pub(crate) fn graph_update_edge(g: &mut DiGraph<PageNode, ()>, a: usize, b: usize)
    requires
        a < graph_nodes(*old(g)).len(),
        b < graph_nodes(*old(g)).len(),
        !graph_edges(*old(g)).contains((a, b)) ==> graph_edges(*old(g)).len() < u32::MAX,
    ensures
        graph_nodes(*final(g)) == graph_nodes(*old(g)),
        graph_edges(*final(g)) == if graph_edges(*old(g)).contains((a, b)) {
            graph_edges(*old(g))
        } else {
            graph_edges(*old(g)).push((a, b))
        },
{
    g.update_edge(NodeIndex::new(a), NodeIndex::new(b), ());
}

/// The Graphviz text that `petgraph::dot::Dot` writes for a graph with these
/// nodes and edges, edges unlabelled and nodes labelled by `node_label`.
pub uninterp spec fn dot_text(nodes: Seq<(Seq<char>, usize, bool)>, edges: Seq<(usize, usize)>) -> Seq<char>;

/// The Graphviz attributes of a page's node: `label="<url>"`.
pub open spec fn node_label_text(url: Seq<char>) -> Seq<char> {
    "label=\""@ + url + "\""@
}

/// The Graphviz attributes of a page's node.
pub fn node_label(node: &PageNode) -> (r: String)
    ensures
        r@ == node_label_text(node.url@),
{
    let s = crate::text::concat("label=\"", node.url.as_str());
    crate::text::concat(s.as_str(), "\"")
}

/// Law: a node's label holds its URL verbatim, character for character, between
/// `label="` and a closing `"`; so two nodes have the same label only when they
/// have the same URL.
pub proof fn law_node_label(url: Seq<char>, other: Seq<char>)
    ensures
        node_label_text(url).len() == url.len() + 8,
        node_label_text(url).subrange(0, 7) == seq!['l', 'a', 'b', 'e', 'l', '=', '"'],
        forall|i: int| 0 <= i < url.len() ==> #[trigger] node_label_text(url)[i + 7] == url[i],
        node_label_text(url)[url.len() as int + 7] == '"',
        node_label_text(url) == node_label_text(other) ==> url == other,
{
    reveal_strlit("label=\"");
    reveal_strlit("\"");
    let t = node_label_text(url);
    assert(t.subrange(0, 7) =~= seq!['l', 'a', 'b', 'e', 'l', '=', '"']);
    assert forall|i: int| 0 <= i < url.len() implies #[trigger] t[i + 7] == url[i] by {}
    if t == node_label_text(other) {
        assert(node_label_text(other).len() == other.len() + 8);
        assert(url.len() == other.len());
        assert forall|i: int| 0 <= i < url.len() implies url[i] == other[i] by {
            assert(t[i + 7] == url[i]);
            assert(node_label_text(other)[i + 7] == other[i]);
        }
        assert(url =~= other);
    }
}

/// The Graphviz attributes of an edge: none.
pub fn edge_label() -> (r: String)
    ensures
        r@ == Seq::<char>::empty(),
{
    String::new()
}

/// `petgraph::dot::Dot::with_attr_getters` with `Config::EdgeNoLabel`, written out
/// with `{:?}`. Claimed: the text is a function of the graph's nodes and edges.
#[verifier::external_body]
fn petgraph_dot(g: &DiGraph<PageNode, ()>) -> (r: String)
    ensures
        r@ == dot_text(graph_nodes(*g), graph_edges(*g)),
{
    format!(
        "{:?}",
        Dot::with_attr_getters(g, &[Config::EdgeNoLabel], &|_, _| edge_label(), &|_, (_, node)| node_label(node))
    )
}

/// The Graphviz dot text of the graph: its nodes labelled by URL, its edges
/// unlabelled.
pub fn render_dot(g: &DiGraph<PageNode, ()>) -> (r: String)
    ensures
        r@ == dot_text(graph_nodes(*g), graph_edges(*g)),
{
    petgraph_dot(g)
}

} // verus!
