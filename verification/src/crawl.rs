//! The breadth-first crawl. A `Crawler` holds the graph, the queue of pages to
//! visit and the set of pages visited; each `step` takes the next queued page and
//! either settles it from the cache or asks the caller to fetch it, and
//! `fetch_succeeded` / `fetch_failed` report the fetch.

use crate::cache::{cache_get, cache_insert, strings_view, CachePages};
use crate::graph::{
    graph_add_node, graph_edge_count, graph_edges, graph_has_edge, graph_node, graph_node_count, graph_nodes,
    graph_set_node, graph_update_edge, PageNode,
};
use petgraph::graph::DiGraph;
use std::collections::VecDeque;
use vstd::hash_map::StringHashMap;
use vstd::hash_set::StringHashSet;
use vstd::prelude::*;

verus! {

/// A node of the graph as a plain value: URL, depth, processed.
pub type NodeView = (Seq<char>, usize, bool);

/// The crawler's state as plain values.
#[verifier::ext_equal]
pub struct CrawlView {
    /// The graph's nodes, in node-index order.
    pub nodes: Seq<NodeView>,
    /// The graph's edges (source, target), in edge-index order.
    pub edges: Seq<(usize, usize)>,
    /// The node index of each URL that the crawler knows.
    pub indices: Map<Seq<char>, usize>,
    /// The URLs that were taken from the queue to be processed.
    pub visited: Set<Seq<char>>,
    /// The pages waiting to be visited, with their depth.
    pub queue: Seq<(Seq<char>, usize)>,
    pub max_depth: usize,
    /// The cache of page links, where one is used.
    pub cache: Option<Map<Seq<char>, Seq<Seq<char>>>>,
    /// The page whose fetch is awaited: URL, depth, node index.
    pub pending: Option<(Seq<char>, usize, usize)>,
}

/// The largest number of nodes, and of edges, that the graph's `u32` indices allow.
pub open spec fn index_limit() -> nat {
    u32::MAX as nat
}

/// The depth one link further than `depth` (saturating at `usize::MAX`).
pub open spec fn next_depth(depth: usize) -> usize {
    if depth < usize::MAX { (depth + 1) as usize } else { depth }
}

/// Whether the state is consistent: each known URL's index names a node with that
/// URL, every node's URL is known, and the page being fetched has a node and is
/// not cached.
pub open spec fn consistent(v: CrawlView) -> bool {
    &&& forall|k: Seq<char>| #[trigger] v.indices.contains_key(k) ==> v.indices[k] < v.nodes.len() && v.nodes[v.indices[k] as int].0 == k
    &&& forall|i: int| 0 <= i < v.nodes.len() ==> v.indices.contains_key(#[trigger] v.nodes[i].0)
    &&& v.nodes.len() <= index_limit()
    &&& v.edges.len() <= index_limit()
    &&& forall|j: int| 0 <= j < v.edges.len() ==> (#[trigger] v.edges[j]).0 < v.nodes.len() && v.edges[j].1 < v.nodes.len()
    &&& (v.pending matches Some(p) ==> p.2 < v.nodes.len() && v.nodes[p.2 as int].0 == p.0 && p.1 <= v.max_depth
        && v.nodes[p.2 as int].1 <= p.1)
    &&& (v.pending matches Some(p) ==> (v.cache matches Some(c) ==> !c.contains_key(p.0)))
}

/// Whether no two nodes have the same URL.
pub open spec fn distinct_urls(nodes: Seq<NodeView>) -> bool {
    forall|i: int, j: int| 0 <= i < nodes.len() && 0 <= j < nodes.len() && i != j ==> (#[trigger] nodes[i]).0 != (#[trigger] nodes[j]).0
}

/// Whether every processed node lies within the depth limit.
pub open spec fn processed_within(v: CrawlView) -> bool {
    forall|i: int| 0 <= i < v.nodes.len() && (#[trigger] v.nodes[i]).2 ==> v.nodes[i].1 <= v.max_depth
}

/// Whether every node of `b` that is processed was a node of `a`, processed there.
pub open spec fn processed_before(a: Seq<NodeView>, b: Seq<NodeView>) -> bool {
    forall|i: int| 0 <= i < b.len() && (#[trigger] b[i]).2 ==> i < a.len() && a[i].2
}

/// Whether node `i` of `b` is node `i` of `a` up to its processed mark, or has
/// one of `links` as its URL and a depth of at least `depth`.
pub open spec fn node_from(a: Seq<NodeView>, b: Seq<NodeView>, i: int, links: Seq<Seq<char>>, depth: usize) -> bool {
    ||| (i < a.len() && b[i].0 == a[i].0 && b[i].1 == a[i].1)
    ||| (links.contains(b[i].0) && b[i].1 >= depth)
}

/// The index map built from the first `n` nodes: each URL maps to the last of
/// those nodes that has it.
pub open spec fn index_map(nodes: Seq<NodeView>, n: nat) -> Map<Seq<char>, usize>
    decreases n,
{
    if n == 0 {
        Map::empty()
    } else {
        index_map(nodes, (n - 1) as nat).insert(nodes[n - 1].0, (n - 1) as usize)
    }
}

/// The state and node index after looking `url` up, adding a node at `depth`
/// (not processed) where the URL is new.
pub open spec fn locate(v: CrawlView, url: Seq<char>, depth: usize) -> (CrawlView, usize) {
    if v.indices.contains_key(url) {
        (v, v.indices[url])
    } else {
        let i = v.nodes.len() as usize;
        (CrawlView { nodes: v.nodes.push((url, depth, false)), indices: v.indices.insert(url, i), ..v }, i)
    }
}

/// The nodes with node `i`'s depth lowered to `depth` where it was greater.
pub open spec fn lowered(nodes: Seq<NodeView>, i: usize, depth: usize) -> Seq<NodeView> {
    if i < nodes.len() && nodes[i as int].1 > depth {
        nodes.update(i as int, (nodes[i as int].0, depth, nodes[i as int].2))
    } else {
        nodes
    }
}

/// The state after the page `url` (node `idx`, at `depth`) is found to link to
/// `link`: unless the link is the page itself, the link's node is found or added,
/// its depth is lowered to `next_depth(depth)`, the edge is added where missing,
/// and an unvisited link is queued at `next_depth(depth)`.
pub open spec fn add_link(v: CrawlView, idx: usize, url: Seq<char>, depth: usize, link: Seq<char>) -> CrawlView {
    if link == url {
        v
    } else {
        let (v1, li) = locate(v, link, depth);
        CrawlView {
            nodes: lowered(v1.nodes, li, next_depth(depth)),
            edges: if v1.edges.contains((idx, li)) { v1.edges } else { v1.edges.push((idx, li)) },
            queue: if v1.visited.contains(link) { v1.queue } else { v1.queue.push((link, next_depth(depth))) },
            ..v1
        }
    }
}

/// `add_link` for each of `links` in order.
pub open spec fn add_links(v: CrawlView, idx: usize, url: Seq<char>, depth: usize, links: Seq<Seq<char>>) -> CrawlView
    decreases links.len(),
{
    if links.len() == 0 {
        v
    } else {
        add_link(add_links(v, idx, url, depth, links.drop_last()), idx, url, depth, links.last())
    }
}

/// The state after the page `url` (node `idx`, at `depth`) is found to have
/// `links`: the links are added and the page's node is marked processed.
pub open spec fn absorb(v: CrawlView, idx: usize, url: Seq<char>, depth: usize, links: Seq<Seq<char>>) -> CrawlView {
    let w = add_links(v, idx, url, depth, links);
    CrawlView { nodes: w.nodes.update(idx as int, (w.nodes[idx as int].0, w.nodes[idx as int].1, true)), ..w }
}

/// What a step did, as plain values.
pub enum StepKind {
    Finished,
    Skipped,
    CacheHit(Seq<char>),
    Fetch(Seq<char>),
}

/// The links cached for `url`, where a cache is used and holds it.
pub open spec fn cached_links(v: CrawlView, url: Seq<char>) -> Option<Seq<Seq<char>>> {
    match v.cache {
        Some(c) => if c.contains_key(url) { Some(c[url]) } else { None },
        None => None,
    }
}

/// Whether the graph's `u32` indices have room for what the next step adds.
pub open spec fn next_step_fits(v: CrawlView) -> bool {
    step_spec(v).0.nodes.len() <= index_limit() && step_spec(v).0.edges.len() <= index_limit()
}

/// Whether the graph's `u32` indices have room for what a fetch with `links` adds.
pub open spec fn fetch_fits(v: CrawlView, links: Seq<Seq<char>>) -> bool {
    fetched_spec(v, links).nodes.len() <= index_limit() && fetched_spec(v, links).edges.len() <= index_limit()
}

/// The links that a step from `v` takes into the graph: the cached links of the
/// page it settles from the cache, if it does.
pub open spec fn step_links(v: CrawlView) -> Seq<Seq<char>> {
    match step_spec(v).1 {
        StepKind::CacheHit(u) => cached_links(v, u)->0,
        _ => Seq::empty(),
    }
}

/// One step of the crawl. With a fetch awaited, the step asks for it again.
/// Otherwise the head of the queue is taken; it is skipped when already visited or
/// deeper than the limit; else it is marked visited, its node is found or added
/// and its depth lowered to the queued depth, and then it is settled from the
/// cache where the cache holds it, or awaited as a fetch.
pub open spec fn step_spec(v: CrawlView) -> (CrawlView, StepKind) {
    if let Some(p) = v.pending {
        (v, StepKind::Fetch(p.0))
    } else if v.queue.len() == 0 {
        (v, StepKind::Finished)
    } else {
        let url = v.queue[0].0;
        let depth = v.queue[0].1;
        let v0 = CrawlView { queue: v.queue.drop_first(), ..v };
        if v.visited.contains(url) || depth > v.max_depth {
            (v0, StepKind::Skipped)
        } else {
            let v1 = CrawlView { visited: v0.visited.insert(url), ..v0 };
            let (v2, idx) = locate(v1, url, depth);
            let v3 = CrawlView { nodes: lowered(v2.nodes, idx, depth), ..v2 };
            match cached_links(v3, url) {
                Some(ls) => (absorb(v3, idx, url, depth, ls), StepKind::CacheHit(url)),
                None => (CrawlView { pending: Some((url, depth, idx)), ..v3 }, StepKind::Fetch(url)),
            }
        }
    }
}

/// The state after the awaited page was fetched with `links`: the links are
/// recorded in the cache, where one is used, and absorbed into the graph. With
/// nothing awaited, nothing changes.
pub open spec fn fetched_spec(v: CrawlView, links: Seq<Seq<char>>) -> CrawlView {
    match v.pending {
        Some(p) => {
            let v1 = CrawlView {
                pending: None,
                cache: match v.cache {
                    Some(c) => Some(c.insert(p.0, links)),
                    None => None,
                },
                ..v
            };
            absorb(v1, p.2, p.0, p.1, links)
        },
        None => v,
    }
}

/// The state after the awaited fetch failed: nothing is awaited any more.
pub open spec fn failed_spec(v: CrawlView) -> CrawlView {
    CrawlView { pending: None, ..v }
}

/// The state at the start of a crawl of `graph` from `start`.
pub open spec fn initial_spec(
    nodes: Seq<NodeView>,
    edges: Seq<(usize, usize)>,
    start: Seq<char>,
    max_depth: usize,
    cache: Option<Map<Seq<char>, Seq<Seq<char>>>>,
) -> CrawlView {
    CrawlView {
        nodes,
        edges,
        indices: index_map(nodes, nodes.len()),
        visited: Set::empty(),
        queue: seq![(start, 0usize)],
        max_depth,
        cache,
        pending: None,
    }
}

/// What a step did.
pub enum CrawlStep {
    /// The queue is empty: the crawl is over.
    Finished,
    /// The head of the queue was visited already or too deep.
    Skipped,
    /// The page was settled from the cache.
    CacheHit(String),
    /// The page must be fetched; report with `fetch_succeeded` or `fetch_failed`.
    Fetch(String),
}

impl View for CrawlStep {
    type V = StepKind;

    open spec fn view(&self) -> StepKind {
        match self {
            CrawlStep::Finished => StepKind::Finished,
            CrawlStep::Skipped => StepKind::Skipped,
            CrawlStep::CacheHit(u) => StepKind::CacheHit(u@),
            CrawlStep::Fetch(u) => StepKind::Fetch(u@),
        }
    }
}

/// The view of an optional cache.
pub open spec fn cache_view(c: Option<CachePages>) -> Option<Map<Seq<char>, Seq<Seq<char>>>> {
    match c {
        Some(c) => Some(c@),
        None => None,
    }
}

/// The view of a queue.
pub open spec fn queue_view(q: Seq<(String, usize)>) -> Seq<(Seq<char>, usize)> {
    q.map_values(|e: (String, usize)| (e.0@, e.1))
}

/// The view of the awaited page.
pub open spec fn pending_view(p: Option<(String, usize, usize)>) -> Option<(Seq<char>, usize, usize)> {
    match p {
        Some(p) => Some((p.0@, p.1, p.2)),
        None => None,
    }
}

/// The state of a breadth-first crawl of Geminispace.
pub struct Crawler {
    graph: DiGraph<PageNode, ()>,
    indices: StringHashMap<usize>,
    visited: StringHashSet,
    queue: VecDeque<(String, usize)>,
    max_depth: usize,
    cache: Option<CachePages>,
    pending: Option<(String, usize, usize)>,
}

impl View for Crawler {
    type V = CrawlView;

    closed spec fn view(&self) -> CrawlView {
        CrawlView {
            nodes: graph_nodes(self.graph),
            edges: graph_edges(self.graph),
            indices: self.indices@,
            visited: self.visited@,
            queue: queue_view(self.queue@),
            max_depth: self.max_depth,
            cache: cache_view(self.cache),
            pending: pending_view(self.pending),
        }
    }
}

impl Crawler {
    /// The crawler's invariant: its state is consistent and its cache well formed.
    pub closed spec fn inv(&self) -> bool {
        &&& consistent(self@)
        &&& (self.cache matches Some(c) ==> c.wf())
    }

    /// Looks `url` up, adding a node at `depth` where it is new.
    fn locate(&mut self, url: &String, depth: usize) -> (i: usize)
        requires
            old(self).inv(),
            locate(old(self)@, url@, depth).0.nodes.len() <= index_limit(),
        ensures
            final(self).inv(),
            (final(self)@, i) == locate(old(self)@, url@, depth),
    {
        let found: Option<usize> = match self.indices.get(url.as_str()) {
            Some(i) => Some(*i),
            None => None,
        };
        match found {
            Some(i) => i,
            None => {
                let i = graph_add_node(&mut self.graph, PageNode { url: url.clone(), depth, processed: false });
                self.indices.insert(url.clone(), i);
                proof {
                    assert(self@ =~= locate(old(self)@, url@, depth).0);
                }
                i
            },
        }
    }

    /// Lowers the depth of node `i` to `depth` where it is greater.
    fn lower_depth(&mut self, i: usize, depth: usize)
        requires
            old(self).inv(),
            i < old(self)@.nodes.len(),
        ensures
            final(self).inv(),
            final(self)@ == (CrawlView { nodes: lowered(old(self)@.nodes, i, depth), ..old(self)@ }),
    {
        let node = graph_node(&self.graph, i);
        if node.depth > depth {
            let n = PageNode { url: node.url.clone(), depth, processed: node.processed };
            graph_set_node(&mut self.graph, i, n);
        }
        proof {
            assert(self@ =~= (CrawlView { nodes: lowered(old(self)@.nodes, i, depth), ..old(self)@ }));
        }
    }

    /// Marks node `i` processed.
    fn mark_processed(&mut self, i: usize)
        requires
            old(self).inv(),
            i < old(self)@.nodes.len(),
        ensures
            final(self).inv(),
            final(self)@ == (CrawlView {
                nodes: old(self)@.nodes.update(i as int, (old(self)@.nodes[i as int].0, old(self)@.nodes[i as int].1, true)),
                ..old(self)@
            }),
    {
        let node = graph_node(&self.graph, i);
        let n = PageNode { url: node.url.clone(), depth: node.depth, processed: true };
        graph_set_node(&mut self.graph, i, n);
        proof {
            assert(self@ =~= (CrawlView {
                nodes: old(self)@.nodes.update(i as int, (old(self)@.nodes[i as int].0, old(self)@.nodes[i as int].1, true)),
                ..old(self)@
            }));
        }
    }

    /// Adds the link from page `url` (node `idx`, at `depth`) to `link`.
    fn add_link(&mut self, idx: usize, url: &String, depth: usize, link: &String)
        requires
            old(self).inv(),
            idx < old(self)@.nodes.len(),
            depth <= old(self)@.max_depth,
            add_link(old(self)@, idx, url@, depth, link@).nodes.len() <= index_limit(),
            add_link(old(self)@, idx, url@, depth, link@).edges.len() <= index_limit(),
        ensures
            final(self).inv(),
            final(self)@ == add_link(old(self)@, idx, url@, depth, link@),
    {
        if *link == *url {
            return;
        }
        let li = self.locate(link, depth);
        let next: usize = if depth < usize::MAX { depth + 1 } else { depth };
        self.lower_depth(li, next);
        graph_update_edge(&mut self.graph, idx, li);
        if !self.visited.contains(link.as_str()) {
            let ghost q = self.queue@;
            self.queue.push_back((link.clone(), next));
            proof {
                assert(queue_view(self.queue@) =~= queue_view(q).push((link@, next_depth(depth))));
            }
        }
        proof {
            assert(self@ =~= add_link(old(self)@, idx, url@, depth, link@));
        }
    }

    /// Absorbs the links of page `url` (node `idx`, at `depth`) and marks it processed.
    fn absorb(&mut self, idx: usize, url: &String, depth: usize, links: &Vec<String>)
        requires
            old(self).inv(),
            idx < old(self)@.nodes.len(),
            depth <= old(self)@.max_depth,
            absorb(old(self)@, idx, url@, depth, strings_view(links@)).nodes.len() <= index_limit(),
            absorb(old(self)@, idx, url@, depth, strings_view(links@)).edges.len() <= index_limit(),
        ensures
            final(self).inv(),
            final(self)@ == absorb(old(self)@, idx, url@, depth, strings_view(links@)),
    {
        let ghost v0 = self@;
        let ghost ls = strings_view(links@);
        let mut i: usize = 0;
        while i < links.len()
            invariant
                self.inv(),
                i <= links@.len(),
                ls == strings_view(links@),
                idx < v0.nodes.len(),
                add_links(v0, idx, url@, depth, ls).nodes.len() <= index_limit(),
                add_links(v0, idx, url@, depth, ls).edges.len() <= index_limit(),
                depth <= v0.max_depth,
                self@ == add_links(v0, idx, url@, depth, ls.take(i as int)),
                v0.nodes.len() <= self@.nodes.len(),
                self@.max_depth == v0.max_depth,
            decreases links@.len() - i,
        {
            proof {
                assert(ls.take(i + 1).drop_last() =~= ls.take(i as int));
                assert(ls.take(i + 1).last() == links@[i as int]@);
                lemma_add_links_mono(v0, idx, url@, depth, ls, i + 1);
            }
            self.add_link(idx, url, depth, &links[i]);
            i = i + 1;
        }
        proof {
            assert(ls.take(links@.len() as int) =~= ls);
        }
        self.mark_processed(idx);
    }

    /// Starts a crawl of `graph` from `start`, following links no deeper than
    /// `max_depth`, with a cache of page links where `cache` is given. Every page
    /// already in the graph is known by its URL (the last node with a URL wins);
    /// none counts as visited; the queue holds `start` at depth 0.
    pub fn new(graph: DiGraph<PageNode, ()>, start: &str, max_depth: usize, cache: Option<CachePages>) -> (r: Self)
        requires
            cache matches Some(c) ==> c.wf(),
        ensures
            r.inv(),
            consistent(r@),
            r@ == initial_spec(graph_nodes(graph), graph_edges(graph), start@, max_depth, cache_view(cache)),
    {
        let ghost nodes = graph_nodes(graph);
        let n = graph_node_count(&graph);
        // Read for the bound that petgraph keeps on the number of edges.
        let _ = graph_edge_count(&graph);
        let mut indices: StringHashMap<usize> = StringHashMap::new();
        let mut i: usize = 0;
        while i < n
            invariant
                i <= n,
                n == nodes.len(),
                nodes == graph_nodes(graph),
                indices@ == index_map(nodes, i as nat),
            decreases n - i,
        {
            let node = graph_node(&graph, i);
            indices.insert(node.url.clone(), i);
            i = i + 1;
        }
        proof {
            lemma_index_map(nodes, nodes.len());
            assert forall|j: int| 0 <= j < nodes.len() implies index_map(nodes, nodes.len()).contains_key(#[trigger] nodes[j].0) by {
                lemma_index_map_covers(nodes, nodes.len(), j);
            }
        }
        let mut queue: VecDeque<(String, usize)> = VecDeque::new();
        queue.push_back((start.to_owned(), 0));
        let r = Crawler {
            graph,
            indices,
            visited: StringHashSet::new(),
            queue,
            max_depth,
            cache,
            pending: None,
        };
        proof {
            assert(queue_view(r.queue@) =~= seq![(start@, 0usize)]);
            assert(r@ =~= initial_spec(nodes, graph_edges(graph), start@, max_depth, cache_view(cache)));
        }
        r
    }

    /// Whether absorbing `links` for the page `url` (node `idx`, at `depth`) into
    /// the state `b` keeps the graph within its index room. `b` is this crawler's
    /// state, with the page's node appended where `page_new`.
    fn absorb_fits(
        &self,
        Ghost(b): Ghost<CrawlView>,
        page_new: bool,
        idx: usize,
        url: &String,
        depth: usize,
        links: &Vec<String>,
    ) -> (r: bool)
        requires
            self.inv(),
            consistent(b),
            b.edges == self@.edges,
            page_new ==> b.nodes.len() == self@.nodes.len() + 1 && b.indices == self@.indices.insert(url@, self@.nodes.len() as usize)
                && idx == self@.nodes.len(),
            !page_new ==> b.nodes.len() == self@.nodes.len() && b.indices == self@.indices,
            idx < b.nodes.len(),
            b.nodes[idx as int].0 == url@,
            depth <= b.max_depth,
        ensures
            r == (absorb(b, idx, url@, depth, strings_view(links@)).nodes.len() <= index_limit()
                && absorb(b, idx, url@, depth, strings_view(links@)).edges.len() <= index_limit()),
    {
        let ghost ls = strings_view(links@);
        let n_self = graph_node_count(&self.graph);
        let nb: u64 = if page_new { n_self as u64 + 1 } else { n_self as u64 };
        let eb: u64 = graph_edge_count(&self.graph) as u64;
        let mut seen: StringHashMap<usize> = StringHashMap::new();
        let mut added: StringHashSet = StringHashSet::new();
        let mut cn: u64 = 0;
        let mut ce: u64 = 0;
        let ghost mut w = b;
        proof {
            lemma_grows_refl(b);
            assert(ls.take(0) =~= Seq::<Seq<char>>::empty());
        }
        let mut i: usize = 0;
        while i < links.len()
            invariant
                ls == strings_view(links@),
                i <= links@.len(),
                self.inv(),
                consistent(b),
                b.edges == self@.edges,
                page_new ==> b.indices == self@.indices.insert(url@, self@.nodes.len() as usize),
                !page_new ==> b.indices == self@.indices,
                n_self == self@.nodes.len(),
                nb == b.nodes.len(),
                eb == b.edges.len(),
                idx < b.nodes.len(),
                b.nodes[idx as int].0 == url@,
                depth <= b.max_depth,
                w == add_links(b, idx, url@, depth, ls.take(i as int)),
                consistent(w),
                grows(b, w),
                w.nodes.len() == nb + cn,
                w.edges.len() == eb + ce,
                forall|k: Seq<char>| #[trigger] w.indices.contains_key(k) <==> (b.indices.contains_key(k) || seen@.contains_key(k)),
                forall|k: Seq<char>| #[trigger] seen@.contains_key(k) ==> !b.indices.contains_key(k) && w.indices[k] == seen@[k],
                forall|k: Seq<char>| #[trigger] added@.contains(k) ==> w.indices.contains_key(k),
                forall|t: usize| w.edges.contains((idx, t)) <==> (b.edges.contains((idx, t))
                    || exists|k: Seq<char>| #[trigger] added@.contains(k) && w.indices[k] == t),
            decreases links@.len() - i,
        {
            let link = &links[i];
            let ghost l = link@;
            proof {
                assert(ls.take(i + 1).drop_last() =~= ls.take(i as int));
                assert(ls.take(i + 1).last() == l);
                assert(ls[i as int] == l);
            }
            let ghost next = add_link(w, idx, url@, depth, l);
            if *link == *url {
                proof {
                    assert(next == w);
                    assert(add_links(b, idx, url@, depth, ls.take(i + 1)) == next);
                }
            } else {
                let known: Option<usize> = match self.indices.get(link.as_str()) {
                    Some(x) => Some(*x),
                    None => match seen.get(link.as_str()) {
                        Some(x) => Some(*x),
                        None => None,
                    },
                };
                proof {
                    assert(b.indices.contains_key(l) == self@.indices.contains_key(l));
                    if self@.indices.contains_key(l) {
                        assert(b.indices[l] == self@.indices[l]);
                    }
                    if b.indices.contains_key(l) {
                        assert(w.indices[l] == b.indices[l]);
                    }
                    match known {
                        Some(x) => {
                            assert(w.indices.contains_key(l) && w.indices[l] == x);
                        },
                        None => {
                            assert(!w.indices.contains_key(l));
                        },
                    }
                }
                let is_new: bool = known.is_none();
                let li: usize = match known {
                    Some(x) => x,
                    None => (nb + cn) as usize,
                };
                proof {
                    let (w1, lj) = locate(w, l, depth);
                    assert(lj == li);
                    assert(li < w1.nodes.len());
                    assert(w1.nodes[li as int].0 == l) by {
                        if !is_new {
                            assert(w.nodes[w.indices[l] as int].0 == l);
                        }
                    }
                }
                if is_new && nb + cn + 1 > 0xffff_ffff {
                    proof {
                        lemma_add_links_mono(b, idx, url@, depth, ls, i + 1);
                    }
                    return false;
                }
                let old_edge: bool = if idx < n_self && li < n_self {
                    graph_has_edge(&self.graph, idx, li)
                } else {
                    false
                };
                proof {
                    if !(idx < n_self && li < n_self) {
                        if b.edges.contains((idx, li)) {
                            let j = choose|j: int| 0 <= j < b.edges.len() && b.edges[j] == (idx, li);
                            assert(self@.edges[j].0 < self@.nodes.len() && self@.edges[j].1 < self@.nodes.len());
                        }
                    }
                }
                let in_added = added.contains(link.as_str());
                let present: bool = old_edge || in_added;
                proof {
                    assert((exists|k: Seq<char>| #[trigger] added@.contains(k) && w.indices[k] == li) == added@.contains(l)) by {
                        if added@.contains(l) {
                            assert(w.indices.contains_key(l));
                        }
                        if exists|k: Seq<char>| #[trigger] added@.contains(k) && w.indices[k] == li {
                            let k = choose|k: Seq<char>| #[trigger] added@.contains(k) && w.indices[k] == li;
                            assert(w.indices.contains_key(k));
                            assert(w.nodes[w.indices[k] as int].0 == k);
                            if !is_new {
                                assert(w.nodes[w.indices[l] as int].0 == l);
                            }
                        }
                    }
                    assert(present == w.edges.contains((idx, li)));
                }
                if !present && eb + ce + 1 > 0xffff_ffff {
                    proof {
                        lemma_add_links_mono(b, idx, url@, depth, ls, i + 1);
                    }
                    return false;
                }
                proof {
                    assert(next.nodes.len() == w.nodes.len() + if is_new { 1int } else { 0int });
                    assert(next.edges.len() == w.edges.len() + if present { 0int } else { 1int });
                    lemma_add_link(w, idx, url@, depth, l);
                    lemma_grows_trans(b, w, next);
                }
                let ghost a_old = added@;
                proof {
                    assert(next.indices.contains_key(l) && next.indices[l] == li);
                    assert forall|k: Seq<char>| #[trigger] a_old.contains(k) implies next.indices[k] == w.indices[k] by {
                        assert(w.indices.contains_key(k));
                    }
                }
                if is_new {
                    seen.insert(link.clone(), li);
                    cn = cn + 1;
                }
                if !present {
                    added.insert(link.clone());
                    ce = ce + 1;
                }
                proof {
                    assert forall|t: usize| next.edges.contains((idx, t)) <==> (b.edges.contains((idx, t))
                        || exists|k: Seq<char>| #[trigger] added@.contains(k) && next.indices[k] == t) by {
                        if next.edges.contains((idx, t)) {
                            if w.edges.contains((idx, t)) {
                                if !b.edges.contains((idx, t)) {
                                    let k = choose|k: Seq<char>| #[trigger] a_old.contains(k) && w.indices[k] == t;
                                    assert(added@.contains(k) && next.indices[k] == t);
                                }
                            } else {
                                assert(!present && t == li);
                                assert(added@.contains(l) && next.indices[l] == t);
                            }
                        }
                        if b.edges.contains((idx, t)) {
                            assert(w.edges.contains((idx, t)));
                            let j = choose|j: int| 0 <= j < w.edges.len() && w.edges[j] == (idx, t);
                            assert(next.edges[j] == w.edges[j]);
                        }
                        if exists|k: Seq<char>| #[trigger] added@.contains(k) && next.indices[k] == t {
                            let k = choose|k: Seq<char>| #[trigger] added@.contains(k) && next.indices[k] == t;
                            if a_old.contains(k) {
                                assert(w.indices[k] == t);
                                assert(w.edges.contains((idx, t)));
                                let j = choose|j: int| 0 <= j < w.edges.len() && w.edges[j] == (idx, t);
                                assert(next.edges[j] == w.edges[j]);
                            } else {
                                assert(k == l && !present);
                                assert(t == li);
                                assert(next.edges[next.edges.len() - 1] == (idx, li));
                            }
                        }
                    }
                }
            }
            proof {
                w = next;
            }
            i = i + 1;
        }
        proof {
            assert(ls.take(links@.len() as int) =~= ls);
        }
        true
    }

    /// Whether the graph has room for what the next step adds.
    pub fn fits_next_step(&self) -> (r: bool)
        requires
            self.inv(),
        ensures
            r == next_step_fits(self@),
    {
        proof {
            lemma_inv_consistent(self);
        }
        if self.pending.is_some() || self.queue.len() == 0 {
            return true;
        }
        let url = &self.queue[0].0;
        let depth = self.queue[0].1;
        let ghost v = self@;
        proof {
            assert(queue_view(self.queue@)[0] == (url@, depth));
        }
        if self.visited.contains(url.as_str()) || depth > self.max_depth {
            return true;
        }
        let n_self = graph_node_count(&self.graph);
        let found: Option<usize> = match self.indices.get(url.as_str()) {
            Some(x) => Some(*x),
            None => None,
        };
        let page_new = found.is_none();
        if page_new && n_self as u64 + 1 > 0xffff_ffff {
            proof {
                let v1 = CrawlView { visited: v.visited.insert(url@), queue: v.queue.drop_first(), ..v };
                let (v2, i2) = locate(v1, url@, depth);
                let v3 = CrawlView { nodes: lowered(v2.nodes, i2, depth), ..v2 };
                if let Some(ls) = cached_links(v3, url@) {
                    lemma_add_links_mono(v3, i2, url@, depth, ls, 0);
                    assert(ls.take(0) =~= Seq::<Seq<char>>::empty());
                }
            }
            return false;
        }
        let idx: usize = match found {
            Some(x) => x,
            None => n_self,
        };
        let ghost v1 = CrawlView { visited: v.visited.insert(url@), queue: v.queue.drop_first(), ..v };
        let ghost v3 = CrawlView { nodes: lowered(locate(v1, url@, depth).0.nodes, idx, depth), ..locate(v1, url@, depth).0 };
        proof {
            assert(locate(v1, url@, depth).1 == idx);
            if !page_new {
                assert(v.nodes[v.indices[url@] as int].0 == url@);
            }
            assert(consistent(v3)) by {
                assert forall|key: Seq<char>| #[trigger] v3.indices.contains_key(key)
                    implies v3.indices[key] < v3.nodes.len() && v3.nodes[v3.indices[key] as int].0 == key by {
                    if key != url@ {
                        assert(v.indices.contains_key(key));
                    }
                }
            }
        }
        let cached = match &self.cache {
            Some(c) => cache_get(c, url.as_str()),
            None => None,
        };
        match cached {
            Some(links) => {
                proof {
                    assert(cached_links(v3, url@) == Some(strings_view(links@)));
                }
                self.absorb_fits(Ghost(v3), page_new, idx, url, depth, &links)
            },
            None => true,
        }
    }

    /// Whether the graph has room for what a fetch of the awaited page with
    /// `links` adds.
    pub fn fits_links(&self, links: &Vec<String>) -> (r: bool)
        requires
            self.inv(),
        ensures
            r == fetch_fits(self@, strings_view(links@)),
    {
        proof {
            lemma_inv_consistent(self);
        }
        match &self.pending {
            None => true,
            Some(p) => {
                let ghost v = self@;
                let ghost v1 = CrawlView {
                    pending: None,
                    cache: match v.cache {
                        Some(c) => Some(c.insert(p.0@, strings_view(links@))),
                        None => None,
                    },
                    ..v
                };
                self.absorb_fits(Ghost(v1), false, p.2, &p.0, p.1, links)
            },
        }
    }

    /// Takes one step of the crawl (see `step_spec`).
    pub fn step(&mut self) -> (r: CrawlStep)
        requires
            old(self).inv(),
            next_step_fits(old(self)@),
        ensures
            final(self).inv(),
            consistent(final(self)@),
            (final(self)@, r@) == step_spec(old(self)@),
    {
        match &self.pending {
            Some(p) => {
                return CrawlStep::Fetch(p.0.clone());
            },
            None => {},
        }
        let ghost v = self@;
        let ghost q = self.queue@;
        let (url, depth) = match self.queue.pop_front() {
            Some(e) => e,
            None => {
                return CrawlStep::Finished;
            },
        };
        proof {
            assert(queue_view(self.queue@) =~= v.queue.drop_first());
            assert(v.queue[0] == (url@, depth));
            assert(self@ =~= (CrawlView { queue: v.queue.drop_first(), ..v }));
        }
        if self.visited.contains(url.as_str()) || depth > self.max_depth {
            return CrawlStep::Skipped;
        }
        self.visited.insert(url.clone());
        proof {
            let v1 = CrawlView { visited: v.visited.insert(url@), queue: v.queue.drop_first(), ..v };
            assert(self@ =~= v1);
            let (v2, i2) = locate(v1, url@, depth);
            let v3 = CrawlView { nodes: lowered(v2.nodes, i2, depth), ..v2 };
            if let Some(ls) = cached_links(v3, url@) {
                lemma_add_links_mono(v3, i2, url@, depth, ls, 0);
                assert(ls.take(0) =~= Seq::<Seq<char>>::empty());
            }
        }
        let idx = self.locate(&url, depth);
        self.lower_depth(idx, depth);
        let cached = match &self.cache {
            Some(c) => cache_get(c, url.as_str()),
            None => None,
        };
        match cached {
            Some(links) => {
                self.absorb(idx, &url, depth, &links);
                CrawlStep::CacheHit(url)
            },
            None => {
                self.pending = Some((url.clone(), depth, idx));
                CrawlStep::Fetch(url)
            },
        }
    }

    /// Reports that the awaited page was fetched and holds `links` (see `fetched_spec`).
    pub fn fetch_succeeded(&mut self, links: Vec<String>)
        requires
            old(self).inv(),
            fetch_fits(old(self)@, strings_view(links@)),
        ensures
            final(self).inv(),
            consistent(final(self)@),
            final(self)@ == fetched_spec(old(self)@, strings_view(links@)),
    {
        let p = self.pending.take();
        match p {
            Some((url, depth, idx)) => {
                let c = self.cache.take();
                match c {
                    Some(mut c) => {
                        cache_insert(&mut c, url.as_str(), links.clone());
                        self.cache = Some(c);
                    },
                    None => {},
                }
                self.absorb(idx, &url, depth, &links);
            },
            None => {},
        }
    }

    /// Reports that the awaited fetch failed.
    pub fn fetch_failed(&mut self)
        requires
            old(self).inv(),
        ensures
            final(self).inv(),
            consistent(final(self)@),
            final(self)@ == failed_spec(old(self)@),
    {
        self.pending = None;
        proof {
            assert(self@ =~= failed_spec(old(self)@));
        }
    }

    /// The number of nodes of the graph.
    pub fn node_count(&self) -> (r: usize)
        ensures
            r == self@.nodes.len(),
    {
        graph_node_count(&self.graph)
    }

    /// The number of edges of the graph.
    pub fn edge_count(&self) -> (r: usize)
        ensures
            r == self@.edges.len(),
    {
        graph_edge_count(&self.graph)
    }

    /// The graph built so far.
    pub fn graph(&self) -> (r: &DiGraph<PageNode, ()>)
        ensures
            graph_nodes(*r) == self@.nodes,
            graph_edges(*r) == self@.edges,
    {
        &self.graph
    }

    /// Ends the crawl, giving back the graph and the cache.
    pub fn finish(self) -> (r: (DiGraph<PageNode, ()>, Option<CachePages>))
        requires
            self.inv(),
        ensures
            graph_nodes(r.0) == self@.nodes,
            graph_edges(r.0) == self@.edges,
            cache_view(r.1) == self@.cache,
            r.1 matches Some(c) ==> c.wf(),
    {
        (self.graph, self.cache)
    }
}

/// A crawler's invariant gives a consistent state, so the laws below apply to it.
pub proof fn lemma_inv_consistent(c: &Crawler)
    requires
        c.inv(),
    ensures
        consistent(c@),
{
}

/// Each URL of the index map built from the first `n` nodes names one of those
/// nodes, which has that URL.
pub proof fn lemma_index_map(nodes: Seq<NodeView>, n: nat)
    requires
        n <= nodes.len(),
        n <= usize::MAX + 1,
    ensures
        forall|k: Seq<char>| #[trigger] index_map(nodes, n).contains_key(k)
            ==> index_map(nodes, n)[k] < n && nodes[index_map(nodes, n)[k] as int].0 == k,
    decreases n,
{
    if n > 0 {
        lemma_index_map(nodes, (n - 1) as nat);
        let m = index_map(nodes, n);
        let prev = index_map(nodes, (n - 1) as nat);
        assert forall|k: Seq<char>| #[trigger] m.contains_key(k) implies m[k] < n && nodes[m[k] as int].0 == k by {
            if k != nodes[n - 1].0 {
                assert(prev.contains_key(k));
            }
        }
    }
}

/// How a later state extends an earlier one: nodes are only added, keep their
/// URLs, never get deeper and stay processed once processed; edges are only
/// appended; visited pages stay visited; known URLs keep their index.
pub open spec fn grows(a: CrawlView, b: CrawlView) -> bool {
    &&& a.nodes.len() <= b.nodes.len()
    &&& forall|i: int| 0 <= i < a.nodes.len() ==> {
        &&& (#[trigger] b.nodes[i]).0 == a.nodes[i].0
        &&& b.nodes[i].1 <= a.nodes[i].1
        &&& (a.nodes[i].2 ==> b.nodes[i].2)
    }
    &&& a.edges.len() <= b.edges.len()
    &&& b.edges.subrange(0, a.edges.len() as int) == a.edges
    &&& a.visited.subset_of(b.visited)
    &&& forall|k: Seq<char>| #[trigger] a.indices.contains_key(k) ==> b.indices.contains_key(k) && b.indices[k] == a.indices[k]
    &&& a.max_depth == b.max_depth
    &&& (a.cache is None ==> b.cache is None)
    &&& (a.cache matches Some(ca) ==> b.cache matches Some(cb) && ca.submap_of(cb))
}

/// The edges that `b` holds beyond those of `a` all leave node `idx` and none
/// returns to it.
pub open spec fn new_edges_leave(a: CrawlView, b: CrawlView, idx: usize) -> bool {
    forall|j: int| a.edges.len() <= j < b.edges.len() ==> (#[trigger] b.edges[j]).0 == idx && b.edges[j].1 != idx
}

/// The edges that `b` holds beyond those of `a` all point to a node whose URL
/// is one of `links`.
pub open spec fn new_edges_reach(a: CrawlView, b: CrawlView, links: Seq<Seq<char>>) -> bool {
    forall|j: int| a.edges.len() <= j < b.edges.len() ==> links.contains(b.nodes[(#[trigger] b.edges[j]).1 as int].0)
}

/// `grows` is transitive.
pub proof fn lemma_grows_trans(a: CrawlView, b: CrawlView, c: CrawlView)
    requires
        grows(a, b),
        grows(b, c),
    ensures
        grows(a, c),
{
    assert forall|i: int| 0 <= i < a.nodes.len() implies {
        &&& (#[trigger] c.nodes[i]).0 == a.nodes[i].0
        &&& c.nodes[i].1 <= a.nodes[i].1
        &&& (a.nodes[i].2 ==> c.nodes[i].2)
    } by {
        assert(b.nodes[i].0 == a.nodes[i].0);
    }
    assert(c.edges.subrange(0, a.edges.len() as int) =~= a.edges) by {
        assert forall|j: int| 0 <= j < a.edges.len() implies c.edges[j] == a.edges[j] by {
            assert(c.edges.subrange(0, b.edges.len() as int)[j] == b.edges[j]);
            assert(b.edges.subrange(0, a.edges.len() as int)[j] == a.edges[j]);
        }
    }
    if let Some(ca) = a.cache {
        let cb = b.cache->0;
        let cc = c.cache->0;
        assert(ca.submap_of(cc)) by {
            assert forall|k: Seq<char>| #[trigger] ca.contains_key(k) implies cc.contains_key(k) && cc[k] == ca[k] by {
                assert(cb.contains_key(k));
            }
        }
    }
}

/// Every state extends itself.
pub proof fn lemma_grows_refl(a: CrawlView)
    ensures
        grows(a, a),
{
    assert(a.edges.subrange(0, a.edges.len() as int) =~= a.edges);
}

/// Adding one link keeps the state consistent and extends it; a new edge leaves
/// the page's node and goes elsewhere, and is not a duplicate.
pub proof fn lemma_add_link(v: CrawlView, idx: usize, url: Seq<char>, depth: usize, link: Seq<char>)
    requires
        consistent(v),
        idx < v.nodes.len(),
        v.nodes[idx as int].0 == url,
        depth <= v.max_depth,
        add_link(v, idx, url, depth, link).nodes.len() <= index_limit(),
        add_link(v, idx, url, depth, link).edges.len() <= index_limit(),
    ensures
        consistent(add_link(v, idx, url, depth, link)),
        grows(v, add_link(v, idx, url, depth, link)),
        new_edges_leave(v, add_link(v, idx, url, depth, link), idx),
        new_edges_reach(v, add_link(v, idx, url, depth, link), seq![link]),
        add_link(v, idx, url, depth, link).nodes.len() <= v.nodes.len() + 1,
        add_link(v, idx, url, depth, link).edges.len() <= v.edges.len() + 1,
        v.edges.no_duplicates() ==> add_link(v, idx, url, depth, link).edges.no_duplicates(),
        add_link(v, idx, url, depth, link).pending == v.pending,
        add_link(v, idx, url, depth, link).cache == v.cache,
        add_link(v, idx, url, depth, link).visited == v.visited,
        distinct_urls(v.nodes) ==> distinct_urls(add_link(v, idx, url, depth, link).nodes),
        processed_before(v.nodes, add_link(v, idx, url, depth, link).nodes),
        forall|i: int| 0 <= i < add_link(v, idx, url, depth, link).nodes.len()
            ==> #[trigger] node_from(v.nodes, add_link(v, idx, url, depth, link).nodes, i, seq![link], depth),
{
    let w = add_link(v, idx, url, depth, link);
    if link == url {
        lemma_grows_refl(v);
    } else {
        let (v1, li) = locate(v, link, depth);
        if v.indices.contains_key(link) {
            assert(v.nodes[v.indices[link] as int].0 == link);
        }
        assert(v1.nodes[li as int].0 == link);
        assert(li != idx);
        assert(w.nodes[li as int].0 == link);
        assert(seq![link][0] == link);
        assert(seq![link].contains(link));
        assert(w.edges.subrange(0, v.edges.len() as int) =~= v.edges);
        assert forall|k: Seq<char>| #[trigger] w.indices.contains_key(k)
            implies w.indices[k] < w.nodes.len() && w.nodes[w.indices[k] as int].0 == k by {
            if k != link {
                assert(v.indices.contains_key(k));
            }
        }
        if v.edges.no_duplicates() && !v1.edges.contains((idx, li)) {
            assert forall|a: int, b: int| 0 <= a < w.edges.len() && 0 <= b < w.edges.len() && a != b
                implies w.edges[a] != w.edges[b] by {
                if a == v.edges.len() as int {
                    assert(v.edges[b] == w.edges[b]);
                } else if b == v.edges.len() as int {
                    assert(v.edges[a] == w.edges[a]);
                }
            }
        }
    }
}

/// Links added earlier are part of links added later: the numbers of nodes and
/// edges after a prefix of the links are at most those after all of them.
pub proof fn lemma_add_links_mono(v: CrawlView, idx: usize, url: Seq<char>, depth: usize, links: Seq<Seq<char>>, i: int)
    requires
        0 <= i <= links.len(),
    ensures
        add_links(v, idx, url, depth, links.take(i)).nodes.len() <= add_links(v, idx, url, depth, links).nodes.len(),
        add_links(v, idx, url, depth, links.take(i)).edges.len() <= add_links(v, idx, url, depth, links).edges.len(),
    decreases links.len(),
{
    if i < links.len() {
        lemma_add_links_mono(v, idx, url, depth, links.drop_last(), i);
        assert(links.drop_last().take(i) =~= links.take(i));
        let u = add_links(v, idx, url, depth, links.drop_last());
        let (u1, li) = locate(u, links.last(), depth);
        assert(add_links(v, idx, url, depth, links) == add_link(u, idx, url, depth, links.last()));
        assert(u1.nodes.len() >= u.nodes.len());
        assert(lowered(u1.nodes, li, next_depth(depth)).len() == u1.nodes.len());
    } else {
        assert(links.take(i) =~= links);
    }
}

/// Adding links one by one keeps the state consistent and extends it; each
/// link adds at most one node and one edge; the new edges leave the page's node.
pub proof fn lemma_add_links(v: CrawlView, idx: usize, url: Seq<char>, depth: usize, links: Seq<Seq<char>>)
    requires
        consistent(v),
        idx < v.nodes.len(),
        v.nodes[idx as int].0 == url,
        depth <= v.max_depth,
        add_links(v, idx, url, depth, links).nodes.len() <= index_limit(),
        add_links(v, idx, url, depth, links).edges.len() <= index_limit(),
    ensures
        consistent(add_links(v, idx, url, depth, links)),
        grows(v, add_links(v, idx, url, depth, links)),
        new_edges_leave(v, add_links(v, idx, url, depth, links), idx),
        new_edges_reach(v, add_links(v, idx, url, depth, links), links),
        add_links(v, idx, url, depth, links).nodes.len() <= v.nodes.len() + links.len(),
        add_links(v, idx, url, depth, links).edges.len() <= v.edges.len() + links.len(),
        v.edges.no_duplicates() ==> add_links(v, idx, url, depth, links).edges.no_duplicates(),
        add_links(v, idx, url, depth, links).pending == v.pending,
        add_links(v, idx, url, depth, links).cache == v.cache,
        add_links(v, idx, url, depth, links).visited == v.visited,
        distinct_urls(v.nodes) ==> distinct_urls(add_links(v, idx, url, depth, links).nodes),
        processed_before(v.nodes, add_links(v, idx, url, depth, links).nodes),
        forall|i: int| 0 <= i < add_links(v, idx, url, depth, links).nodes.len()
            ==> #[trigger] node_from(v.nodes, add_links(v, idx, url, depth, links).nodes, i, links, depth),
    decreases links.len(),
{
    if links.len() == 0 {
        lemma_grows_refl(v);
    } else {
        let u = add_links(v, idx, url, depth, links.drop_last());
        lemma_add_links_mono(v, idx, url, depth, links, links.len() - 1);
        assert(links.take(links.len() - 1) =~= links.drop_last());
        lemma_add_links(v, idx, url, depth, links.drop_last());
        lemma_add_link(u, idx, url, depth, links.last());
        let w = add_link(u, idx, url, depth, links.last());
        lemma_grows_trans(v, u, w);
        assert forall|j: int| v.edges.len() <= j < w.edges.len() implies (#[trigger] w.edges[j]).0 == idx && w.edges[j].1 != idx by {
            if j < u.edges.len() {
                assert(w.edges.subrange(0, u.edges.len() as int)[j] == u.edges[j]);
            }
        }
        assert forall|i: int| 0 <= i < w.nodes.len() implies #[trigger] node_from(v.nodes, w.nodes, i, links, depth) by {
            assert(node_from(u.nodes, w.nodes, i, seq![links.last()], depth));
            if i < u.nodes.len() && w.nodes[i].0 == u.nodes[i].0 && w.nodes[i].1 == u.nodes[i].1 {
                assert(node_from(v.nodes, u.nodes, i, links.drop_last(), depth));
                if links.drop_last().contains(u.nodes[i].0) {
                    let k = choose|k: int| 0 <= k < links.drop_last().len() && links.drop_last()[k] == u.nodes[i].0;
                    assert(links[k] == u.nodes[i].0);
                }
            } else {
                assert(seq![links.last()].contains(w.nodes[i].0));
                assert(seq![links.last()][0] == links.last());
                assert(w.nodes[i].0 == links.last());
                assert(links[links.len() - 1] == links.last());
            }
        }
    }
}

/// Absorbing a page's links keeps the state consistent and extends it, and leaves
/// the page's node processed.
pub proof fn lemma_absorb(v: CrawlView, idx: usize, url: Seq<char>, depth: usize, links: Seq<Seq<char>>)
    requires
        consistent(v),
        idx < v.nodes.len(),
        v.nodes[idx as int].0 == url,
        depth <= v.max_depth,
        absorb(v, idx, url, depth, links).nodes.len() <= index_limit(),
        absorb(v, idx, url, depth, links).edges.len() <= index_limit(),
    ensures
        consistent(absorb(v, idx, url, depth, links)),
        grows(v, absorb(v, idx, url, depth, links)),
        new_edges_leave(v, absorb(v, idx, url, depth, links), idx),
        new_edges_reach(v, absorb(v, idx, url, depth, links), links),
        absorb(v, idx, url, depth, links).nodes[idx as int].0 == url,
        absorb(v, idx, url, depth, links).nodes[idx as int].2,
        v.edges.no_duplicates() ==> absorb(v, idx, url, depth, links).edges.no_duplicates(),
        absorb(v, idx, url, depth, links).cache == v.cache,
        absorb(v, idx, url, depth, links).pending == v.pending,
        absorb(v, idx, url, depth, links).visited == v.visited,
        distinct_urls(v.nodes) ==> distinct_urls(absorb(v, idx, url, depth, links).nodes),
        forall|i: int| 0 <= i < absorb(v, idx, url, depth, links).nodes.len() && i != idx
            && (#[trigger] absorb(v, idx, url, depth, links).nodes[i]).2 ==> i < v.nodes.len() && v.nodes[i].2,
        forall|i: int| 0 <= i < absorb(v, idx, url, depth, links).nodes.len()
            ==> #[trigger] node_from(v.nodes, absorb(v, idx, url, depth, links).nodes, i, links, depth),
{
    lemma_add_links(v, idx, url, depth, links);
    let w = add_links(v, idx, url, depth, links);
    let x = absorb(v, idx, url, depth, links);
    assert(w.nodes[idx as int].0 == url);
    assert forall|k: Seq<char>| #[trigger] x.indices.contains_key(k)
        implies x.indices[k] < x.nodes.len() && x.nodes[x.indices[k] as int].0 == k by {
        assert(w.indices.contains_key(k));
    }
    assert forall|i: int| 0 <= i < v.nodes.len() implies {
        &&& (#[trigger] x.nodes[i]).0 == v.nodes[i].0
        &&& x.nodes[i].1 <= v.nodes[i].1
        &&& (v.nodes[i].2 ==> x.nodes[i].2)
    } by {
        assert(w.nodes[i].0 == v.nodes[i].0);
    }
    assert forall|i: int| 0 <= i < x.nodes.len() implies #[trigger] node_from(v.nodes, x.nodes, i, links, depth) by {
        assert(node_from(v.nodes, w.nodes, i, links, depth));
    }
}

/// Law: a crawl starts from a consistent state in which every page of the given
/// graph is known by its URL, nothing is visited, nothing is awaited, and only
/// the start page is queued, at depth 0; the first step visits the start page and
/// gives it a node.
pub proof fn law_initial(
    nodes: Seq<NodeView>,
    edges: Seq<(usize, usize)>,
    start: Seq<char>,
    max_depth: usize,
    cache: Option<Map<Seq<char>, Seq<Seq<char>>>>,
)
    requires
        nodes.len() <= index_limit(),
        edges.len() <= index_limit(),
        forall|j: int| 0 <= j < edges.len() ==> (#[trigger] edges[j]).0 < nodes.len() && edges[j].1 < nodes.len(),
    ensures
        consistent(initial_spec(nodes, edges, start, max_depth, cache)),
        forall|i: int| 0 <= i < nodes.len() ==> initial_spec(nodes, edges, start, max_depth, cache).indices.contains_key(
            #[trigger] nodes[i].0,
        ),
        step_spec(initial_spec(nodes, edges, start, max_depth, cache)).0.indices.contains_key(start),
        step_spec(initial_spec(nodes, edges, start, max_depth, cache)).0.visited.contains(start),
{
    lemma_index_map(nodes, nodes.len());
    assert forall|i: int| 0 <= i < nodes.len() implies index_map(nodes, nodes.len()).contains_key(#[trigger] nodes[i].0) by {
        lemma_index_map_covers(nodes, nodes.len(), i);
    }
    let v = initial_spec(nodes, edges, start, max_depth, cache);
    assert(v.queue[0] == (start, 0usize));
    let v1 = CrawlView { visited: v.visited.insert(start), queue: v.queue.drop_first(), ..v };
    let (v2, i2) = locate(v1, start, 0);
    let v3 = CrawlView { nodes: lowered(v2.nodes, i2, 0), ..v2 };
    assert(v3.indices.contains_key(start));
    if let Some(ls) = cached_links(v3, start) {
        lemma_add_links_keeps(v3, i2, start, 0, ls);
    }
}

/// Adding links keeps every known URL known and changes no visited page.
pub proof fn lemma_add_links_keeps(v: CrawlView, idx: usize, url: Seq<char>, depth: usize, links: Seq<Seq<char>>)
    ensures
        forall|k: Seq<char>| #[trigger] v.indices.contains_key(k) ==> add_links(v, idx, url, depth, links).indices.contains_key(k),
        add_links(v, idx, url, depth, links).visited == v.visited,
    decreases links.len(),
{
    if links.len() > 0 {
        lemma_add_links_keeps(v, idx, url, depth, links.drop_last());
    }
}

/// Every URL of the first `n` nodes is in the index map built from them.
pub proof fn lemma_index_map_covers(nodes: Seq<NodeView>, n: nat, i: int)
    requires
        0 <= i < n <= nodes.len(),
    ensures
        index_map(nodes, n).contains_key(nodes[i].0),
    decreases n,
{
    if i < n - 1 {
        lemma_index_map_covers(nodes, (n - 1) as nat, i);
    }
}

/// Law: a step keeps the state consistent and only extends it (nodes keep their
/// URLs, depths never grow, edges are only appended, visited pages stay visited);
/// edges without duplicates stay so. A page is asked for (`Fetch`) only when it was
/// not visited and not cached, at a queued depth within the limit, and it is then
/// visited and awaited; so no page is fetched twice in a crawl, and no cached page
/// is fetched. A page settled from the cache gets its node marked processed, at a
/// depth within the limit, and every new edge leaves that node for the node of one
/// of its cached links, never itself; no other node becomes processed. The queue
/// is consumed at its head and appended to at its tail, by at most the number of
/// cached links and only with those links; the only page that becomes visited is
/// the head of the queue, within the depth limit; the cache does not change.
pub proof fn law_step(v: CrawlView)
    requires
        consistent(v),
        next_step_fits(v),
    ensures
        consistent(step_spec(v).0),
        grows(v, step_spec(v).0),
        v.edges.no_duplicates() ==> step_spec(v).0.edges.no_duplicates(),
        v.pending is None ==> (step_spec(v).1 matches StepKind::Fetch(u) ==> {
            &&& v.queue.len() > 0 && v.queue[0].0 == u && v.queue[0].1 <= v.max_depth
            &&& !v.visited.contains(u)
            &&& cached_links(v, u) is None
            &&& step_spec(v).0.visited.contains(u)
            &&& step_spec(v).0.pending matches Some(p) && p.0 == u && p.1 == v.queue[0].1
                && step_spec(v).0.indices.contains_key(u) && p.2 == step_spec(v).0.indices[u]
        }),
        step_spec(v).1 matches StepKind::CacheHit(u) ==> {
            &&& v.queue.len() > 0 && v.queue[0].0 == u && v.queue[0].1 <= v.max_depth
            &&& !v.visited.contains(u)
            &&& cached_links(v, u) is Some
            &&& step_spec(v).0.visited.contains(u)
            &&& step_spec(v).0.indices.contains_key(u)
            &&& step_spec(v).0.nodes[step_spec(v).0.indices[u] as int].2
            &&& step_spec(v).0.nodes[step_spec(v).0.indices[u] as int].1 <= v.queue[0].1
            &&& step_spec(v).0.nodes[step_spec(v).0.indices[u] as int].1 <= v.max_depth
            &&& new_edges_leave(v, step_spec(v).0, step_spec(v).0.indices[u])
            &&& new_edges_reach(v, step_spec(v).0, cached_links(v, u)->0)
            &&& forall|j: int| v.queue.len() - 1 <= j < step_spec(v).0.queue.len()
                ==> (#[trigger] step_spec(v).0.queue[j]).1 == next_depth(v.queue[0].1)
                    && cached_links(v, u)->0.contains(step_spec(v).0.queue[j].0)
        },
        step_spec(v).1 is Fetch || step_spec(v).0.pending == v.pending,
        v.pending is None && v.queue.len() > 0 && v.queue[0].1 <= v.max_depth ==> step_spec(v).0.visited.contains(v.queue[0].0),
        step_spec(v).1 matches StepKind::CacheHit(u) ==> forall|l: Seq<char>| #[trigger] cached_links(v, u)->0.contains(l) && l != u
            ==> step_spec(v).0.visited.contains(l) || queued_at(step_spec(v).0.queue, l, next_depth(v.queue[0].1)),
        step_spec(v).1 matches StepKind::CacheHit(u) ==> forall|l: Seq<char>| #[trigger] cached_links(v, u)->0.contains(l) && l != u
            ==> edge_between(step_spec(v).0, u, l),
        forall|n: int| 0 <= n < step_spec(v).0.nodes.len() && (#[trigger] step_spec(v).0.nodes[n]).2
            ==> (n < v.nodes.len() && v.nodes[n].2) || (step_spec(v).1 matches StepKind::CacheHit(u) && step_spec(v).0.nodes[n].0 == u),
        forall|i: int| 0 <= i < step_spec(v).0.nodes.len() ==> #[trigger] node_from(v.nodes, step_spec(v).0.nodes, i, step_links(v), v.queue[0].1)
            || (v.pending is None && step_spec(v).0.nodes[i].0 == v.queue[0].0 && step_spec(v).0.nodes[i].1 == v.queue[0].1),
        step_spec(v).0.visited == v.visited || (v.pending is None && v.queue.len() > 0 && v.queue[0].1 <= v.max_depth
            && step_spec(v).0.visited == v.visited.insert(v.queue[0].0)),
        step_spec(v).1 matches StepKind::Finished ==> v.pending is None && v.queue.len() == 0 && step_spec(v).0 == v,
        step_spec(v).1 matches StepKind::Skipped ==> v.queue.len() > 0 && step_spec(v).0 == (CrawlView { queue: v.queue.drop_first(), ..v }),
        v.pending is None && v.queue.len() > 0 ==> v.queue.drop_first().is_prefix_of(step_spec(v).0.queue),
        step_spec(v).0.edges.len() == v.edges.len() || step_spec(v).1 is CacheHit,
        distinct_urls(v.nodes) ==> distinct_urls(step_spec(v).0.nodes),
        processed_within(v) ==> processed_within(step_spec(v).0),
        step_spec(v).0.cache == v.cache,
        v.pending is None && v.queue.len() > 0 ==> step_spec(v).0.queue.len() + 1 <= v.queue.len() + match cached_links(v, v.queue[0].0) {
            Some(ls) => if step_spec(v).1 is CacheHit { ls.len() } else { 0 },
            None => 0,
        },
{
    let (w, k) = step_spec(v);
    if let Some(p) = v.pending {
        lemma_grows_refl(v);
    } else if v.queue.len() == 0 {
        lemma_grows_refl(v);
    } else {
        let url = v.queue[0].0;
        let depth = v.queue[0].1;
        let v0 = CrawlView { queue: v.queue.drop_first(), ..v };
        if v.visited.contains(url) || depth > v.max_depth {
            assert(v0.edges.subrange(0, v.edges.len() as int) =~= v.edges);
            assert(v.queue.drop_first().is_prefix_of(w.queue)) by {
                assert(w.queue == v.queue.drop_first());
            }
        } else {
            let v1 = CrawlView { visited: v0.visited.insert(url), ..v0 };
            let (v2, idx) = locate(v1, url, depth);
            let v3 = CrawlView { nodes: lowered(v2.nodes, idx, depth), ..v2 };
            if v.indices.contains_key(url) {
                assert(v.nodes[v.indices[url] as int].0 == url);
            }
            assert(v3.nodes[idx as int].0 == url);
            if let Some(ls) = cached_links(v3, url) {
                lemma_add_links_mono(v3, idx, url, depth, ls, 0);
                assert(ls.take(0) =~= Seq::<Seq<char>>::empty());
            }
            assert(v3.nodes.len() <= index_limit());
            assert(consistent(v3)) by {
                assert forall|key: Seq<char>| #[trigger] v3.indices.contains_key(key)
                    implies v3.indices[key] < v3.nodes.len() && v3.nodes[v3.indices[key] as int].0 == key by {
                    if key != url {
                        assert(v.indices.contains_key(key));
                    }
                }
            }
            assert(grows(v, v3)) by {
                assert(v3.edges.subrange(0, v.edges.len() as int) =~= v.edges);
                assert forall|i: int| 0 <= i < v.nodes.len() implies {
                    &&& (#[trigger] v3.nodes[i]).0 == v.nodes[i].0
                    &&& v3.nodes[i].1 <= v.nodes[i].1
                    &&& (v.nodes[i].2 ==> v3.nodes[i].2)
                } by {
                    assert(v2.nodes[i] == v.nodes[i]);
                }
            }
            assert(v.queue.drop_first().is_prefix_of(v3.queue)) by {
                assert(v3.queue == v.queue.drop_first());
            }
            assert forall|i: int| 0 <= i < v3.nodes.len() implies
                (i < v.nodes.len() && v3.nodes[i].0 == v.nodes[i].0 && v3.nodes[i].1 == v.nodes[i].1)
                || (v3.nodes[i].0 == url && v3.nodes[i].1 == depth) by {
                if i != idx {
                    assert(v2.nodes[i] == v.nodes[i]);
                }
            }
            match cached_links(v3, url) {
                Some(ls) => {
                    lemma_absorb(v3, idx, url, depth, ls);
                    lemma_add_links_follow(v3, idx, url, depth, ls);
                    lemma_add_links_edges(v3, idx, url, depth, ls);
                    assert forall|l: Seq<char>| #[trigger] ls.contains(l) && l != url implies edge_between(w, url, l) by {
                        let a3 = add_links(v3, idx, url, depth, ls);
                        let j = choose|j: int| 0 <= j < a3.edges.len() && a3.nodes[(#[trigger] a3.edges[j]).0 as int].0 == url && a3.nodes[a3.edges[j].1 as int].0 == l;
                        assert(w.edges[j] == a3.edges[j]);
                        assert(w.nodes[a3.edges[j].0 as int].0 == a3.nodes[a3.edges[j].0 as int].0);
                        assert(w.nodes[a3.edges[j].1 as int].0 == a3.nodes[a3.edges[j].1 as int].0);
                    }
                    assert(step_links(v) == ls);
                    assert forall|i: int| 0 <= i < w.nodes.len() implies #[trigger] node_from(v.nodes, w.nodes, i, step_links(v), depth)
                        || (w.nodes[i].0 == url && w.nodes[i].1 == depth) by {
                        assert(node_from(v3.nodes, w.nodes, i, ls, depth));
                    }
                    lemma_grows_trans(v, v3, w);
                    assert(v3.indices.contains_key(url) && v3.indices[url] == idx);
                    assert(w.indices.contains_key(url));
                    assert(w.indices[url] == idx);
                    assert(cached_links(v, url) == cached_links(v3, url));
                    lemma_add_links_queue(v3, idx, url, depth, ls);
                    assert(v.queue.drop_first().is_prefix_of(w.queue)) by {
                        assert forall|j: int| 0 <= j < v.queue.drop_first().len() implies w.queue[j] == v.queue.drop_first()[j] by {
                            assert(v3.queue[j] == w.queue[j]);
                        }
                    }
                },
                None => {
                    assert(grows(v3, w)) by {
                        lemma_grows_refl(v3);
                    }
                    lemma_grows_trans(v, v3, w);
                },
            }
        }
    }
}

/// Adding links only appends to the queue, and what it appends is queued one
/// level deeper than the page.
pub proof fn lemma_add_links_queue(v: CrawlView, idx: usize, url: Seq<char>, depth: usize, links: Seq<Seq<char>>)
    ensures
        add_links(v, idx, url, depth, links).queue.len() <= v.queue.len() + links.len(),
        v.queue.is_prefix_of(add_links(v, idx, url, depth, links).queue),
        v.queue.is_prefix_of(absorb(v, idx, url, depth, links).queue),
        forall|j: int| v.queue.len() <= j < add_links(v, idx, url, depth, links).queue.len()
            ==> (#[trigger] add_links(v, idx, url, depth, links).queue[j]).1 == next_depth(depth),
        forall|j: int| v.queue.len() <= j < absorb(v, idx, url, depth, links).queue.len()
            ==> (#[trigger] absorb(v, idx, url, depth, links).queue[j]).1 == next_depth(depth),
        forall|j: int| v.queue.len() <= j < absorb(v, idx, url, depth, links).queue.len()
            ==> links.contains((#[trigger] absorb(v, idx, url, depth, links).queue[j]).0),
    decreases links.len(),
{
    if links.len() > 0 {
        lemma_add_links_queue(v, idx, url, depth, links.drop_last());
        let u = add_links(v, idx, url, depth, links.drop_last());
        let w = add_links(v, idx, url, depth, links);
        assert forall|j: int| v.queue.len() <= j < w.queue.len() implies (#[trigger] w.queue[j]).1 == next_depth(depth)
            && links.contains(w.queue[j].0) by {
            if j < u.queue.len() {
                assert(w.queue[j] == u.queue[j]);
                let k = choose|k: int| 0 <= k < links.drop_last().len() && links.drop_last()[k] == u.queue[j].0;
                assert(links[k] == u.queue[j].0);
            } else {
                assert(links[links.len() - 1] == links.last());
            }
        }
    }
}

/// Whether the queue `q` holds `url` at depth `depth`.
pub open spec fn queued_at(q: Seq<(Seq<char>, usize)>, url: Seq<char>, depth: usize) -> bool {
    exists|j: int| 0 <= j < q.len() && #[trigger] q[j] == (url, depth)
}

/// After a page's links are added, each of them other than the page itself is
/// visited or queued one level deeper than the page.
pub proof fn lemma_add_links_follow(v: CrawlView, idx: usize, url: Seq<char>, depth: usize, links: Seq<Seq<char>>)
    ensures
        forall|l: Seq<char>| #[trigger] links.contains(l) && l != url
            ==> add_links(v, idx, url, depth, links).visited.contains(l)
                || queued_at(add_links(v, idx, url, depth, links).queue, l, next_depth(depth)),
    decreases links.len(),
{
    if links.len() > 0 {
        let pre = links.drop_last();
        lemma_add_links_follow(v, idx, url, depth, pre);
        let u = add_links(v, idx, url, depth, pre);
        let w = add_links(v, idx, url, depth, links);
        assert(w == add_link(u, idx, url, depth, links.last()));
        assert(w.visited == u.visited);
        assert(u.queue.is_prefix_of(w.queue));
        assert forall|l: Seq<char>| #[trigger] links.contains(l) && l != url
            implies w.visited.contains(l) || queued_at(w.queue, l, next_depth(depth)) by {
            let k = choose|k: int| 0 <= k < links.len() && links[k] == l;
            if k < pre.len() {
                assert(pre[k] == l);
                assert(pre.contains(l));
                if !u.visited.contains(l) {
                    let j = choose|j: int| 0 <= j < u.queue.len() && #[trigger] u.queue[j] == (l, next_depth(depth));
                    assert(w.queue[j] == u.queue[j]);
                }
            } else {
                assert(l == links.last());
                if !u.visited.contains(l) {
                    assert(w.queue[u.queue.len() as int] == (l, next_depth(depth)));
                }
            }
        }
    }
}

/// Whether `v` has an edge from a node with URL `from` to a node with URL `to`.
pub open spec fn edge_between(v: CrawlView, from: Seq<char>, to: Seq<char>) -> bool {
    exists|j: int| 0 <= j < v.edges.len() && v.nodes[(#[trigger] v.edges[j]).0 as int].0 == from && v.nodes[v.edges[j].1 as int].0 == to
}

/// After a page's links are added, the graph has an edge from the page to each of
/// them other than the page itself.
pub proof fn lemma_add_links_edges(v: CrawlView, idx: usize, url: Seq<char>, depth: usize, links: Seq<Seq<char>>)
    requires
        consistent(v),
        idx < v.nodes.len(),
        v.nodes[idx as int].0 == url,
        depth <= v.max_depth,
        add_links(v, idx, url, depth, links).nodes.len() <= index_limit(),
        add_links(v, idx, url, depth, links).edges.len() <= index_limit(),
    ensures
        forall|l: Seq<char>| #[trigger] links.contains(l) && l != url ==> edge_between(add_links(v, idx, url, depth, links), url, l),
    decreases links.len(),
{
    if links.len() > 0 {
        let pre = links.drop_last();
        lemma_add_links_mono(v, idx, url, depth, links, links.len() - 1);
        assert(links.take(links.len() - 1) =~= pre);
        lemma_add_links_edges(v, idx, url, depth, pre);
        lemma_add_links(v, idx, url, depth, pre);
        let u = add_links(v, idx, url, depth, pre);
        let w = add_links(v, idx, url, depth, links);
        assert(w == add_link(u, idx, url, depth, links.last()));
        assert(u.nodes[idx as int].0 == url);
        lemma_add_link(u, idx, url, depth, links.last());
        assert forall|l: Seq<char>| #[trigger] links.contains(l) && l != url implies edge_between(w, url, l) by {
            let k = choose|k: int| 0 <= k < links.len() && links[k] == l;
            if k < pre.len() {
                assert(pre[k] == l);
                assert(pre.contains(l));
                assert(edge_between(u, url, l));
                let j = choose|j: int| 0 <= j < u.edges.len() && u.nodes[(#[trigger] u.edges[j]).0 as int].0 == url && u.nodes[u.edges[j].1 as int].0 == l;
                assert(w.edges.subrange(0, u.edges.len() as int)[j] == u.edges[j]);
                assert(w.edges[j] == u.edges[j]);
                assert(w.nodes[u.edges[j].0 as int].0 == u.nodes[u.edges[j].0 as int].0);
                assert(w.nodes[u.edges[j].1 as int].0 == u.nodes[u.edges[j].1 as int].0);
            } else {
                assert(l == links.last());
                let (v1, li) = locate(u, l, depth);
                assert(w.indices.contains_key(l) && w.indices[l] == li);
                assert(w.nodes[li as int].0 == l);
                assert(w.nodes[idx as int].0 == url);
                if v1.edges.contains((idx, li)) {
                    let j = choose|j: int| 0 <= j < v1.edges.len() && v1.edges[j] == (idx, li);
                    assert(w.edges[j] == (idx, li));
                } else {
                    assert(w.edges[u.edges.len() as int] == (idx, li));
                }
            }
        }
    }
}

/// Law: reporting a fetched page keeps the state consistent and only extends it;
/// nothing is awaited afterwards. Where a page was awaited and a cache is used,
/// the cache then holds exactly the fetched links for that page, so a later crawl
/// with this cache does not fetch it again; the page's node is processed, at a
/// depth within the limit, and every new edge leaves it for the node of one of the
/// fetched links, never itself; no other node becomes processed. New queue entries
/// come after all earlier ones, one level deeper than the page (breadth-first
/// order), at most one per fetched link and only for fetched links; no page becomes
/// visited.
pub proof fn law_fetched(v: CrawlView, links: Seq<Seq<char>>)
    requires
        consistent(v),
        fetch_fits(v, links),
    ensures
        consistent(fetched_spec(v, links)),
        grows(v, fetched_spec(v, links)),
        fetched_spec(v, links).pending is None,
        v.edges.no_duplicates() ==> fetched_spec(v, links).edges.no_duplicates(),
        v.pending matches Some(p) ==> {
            &&& fetched_spec(v, links).nodes[p.2 as int].0 == p.0
            &&& fetched_spec(v, links).nodes[p.2 as int].2
            &&& fetched_spec(v, links).nodes[p.2 as int].1 <= v.max_depth
            &&& new_edges_leave(v, fetched_spec(v, links), p.2)
            &&& new_edges_reach(v, fetched_spec(v, links), links)
            &&& (v.cache is Some ==> fetched_spec(v, links).cache == Some(v.cache->0.insert(p.0, links)))
            &&& (v.cache is None ==> fetched_spec(v, links).cache is None)
            &&& v.queue.is_prefix_of(fetched_spec(v, links).queue)
            &&& fetched_spec(v, links).queue.len() <= v.queue.len() + links.len()
            &&& forall|j: int| v.queue.len() <= j < fetched_spec(v, links).queue.len()
                ==> (#[trigger] fetched_spec(v, links).queue[j]).1 == next_depth(p.1)
                    && links.contains(fetched_spec(v, links).queue[j].0)
            &&& forall|i: int| 0 <= i < fetched_spec(v, links).nodes.len()
                ==> #[trigger] node_from(v.nodes, fetched_spec(v, links).nodes, i, links, p.1)
            &&& forall|l: Seq<char>| #[trigger] links.contains(l) && l != p.0
                ==> fetched_spec(v, links).visited.contains(l) || queued_at(fetched_spec(v, links).queue, l, next_depth(p.1))
            &&& forall|l: Seq<char>| #[trigger] links.contains(l) && l != p.0 ==> edge_between(fetched_spec(v, links), p.0, l)
            &&& forall|n: int| 0 <= n < fetched_spec(v, links).nodes.len() && (#[trigger] fetched_spec(v, links).nodes[n]).2
                ==> (n < v.nodes.len() && v.nodes[n].2) || fetched_spec(v, links).nodes[n].0 == p.0
        },
        fetched_spec(v, links).visited == v.visited,
        distinct_urls(v.nodes) ==> distinct_urls(fetched_spec(v, links).nodes),
        processed_within(v) ==> processed_within(fetched_spec(v, links)),
{
    match v.pending {
        Some(p) => {
            let v1 = CrawlView {
                pending: None,
                cache: match v.cache {
                    Some(c) => Some(c.insert(p.0, links)),
                    None => None,
                },
                ..v
            };
            lemma_grows_refl(v);
            assert(grows(v, v1));
            lemma_absorb(v1, p.2, p.0, p.1, links);
            lemma_add_links_follow(v1, p.2, p.0, p.1, links);
            lemma_add_links_edges(v1, p.2, p.0, p.1, links);
            lemma_add_links_mono(v1, p.2, p.0, p.1, links, 0);
            assert(links.take(0) =~= Seq::<Seq<char>>::empty());
            let w = fetched_spec(v, links);
            assert forall|l: Seq<char>| #[trigger] links.contains(l) && l != p.0 implies edge_between(w, p.0, l) by {
                let a1 = add_links(v1, p.2, p.0, p.1, links);
                let j = choose|j: int| 0 <= j < a1.edges.len() && a1.nodes[(#[trigger] a1.edges[j]).0 as int].0 == p.0 && a1.nodes[a1.edges[j].1 as int].0 == l;
                assert(w == absorb(v1, p.2, p.0, p.1, links));
                assert(w.edges[j] == a1.edges[j]);
                assert(w.nodes.len() == a1.nodes.len());
                assert(a1.edges[j].0 < w.nodes.len() && a1.edges[j].1 < w.nodes.len());
                assert(w.nodes[a1.edges[j].0 as int].0 == a1.nodes[a1.edges[j].0 as int].0);
                assert(w.nodes[a1.edges[j].1 as int].0 == a1.nodes[a1.edges[j].1 as int].0);
            }
            lemma_grows_trans(v, v1, fetched_spec(v, links));
            lemma_add_links_queue(v1, p.2, p.0, p.1, links);
        },
        None => {
            lemma_grows_refl(v);
        },
    }
}

/// Law: reporting a failed fetch changes nothing but that nothing is awaited.
pub proof fn law_failed(v: CrawlView)
    requires
        consistent(v),
    ensures
        consistent(failed_spec(v)),
        grows(v, failed_spec(v)),
        failed_spec(v).pending is None,
        failed_spec(v).nodes == v.nodes && failed_spec(v).edges == v.edges && failed_spec(v).queue == v.queue,
        distinct_urls(v.nodes) ==> distinct_urls(failed_spec(v).nodes),
        processed_within(v) ==> processed_within(failed_spec(v)),
        failed_spec(v).cache == v.cache,
{
    lemma_grows_refl(v);
}

/// Law: once a step asks for page `u`, no later step of the crawl asks for it
/// again: for any state `w` that extends the state after that step (as every later
/// step and report does, by `law_step`, `law_fetched` and `law_failed`) and awaits
/// nothing, the next step does not ask for `u`.
pub proof fn law_fetch_once(v: CrawlView, u: Seq<char>, w: CrawlView)
    requires
        consistent(v),
        next_step_fits(v),
        v.pending is None,
        step_spec(v).1 == StepKind::Fetch(u),
        grows(step_spec(v).0, w),
        consistent(w),
        next_step_fits(w),
        w.pending is None,
    ensures
        step_spec(w).1 != StepKind::Fetch(u),
{
    law_step(v);
    law_step(w);
    assert(step_spec(v).0.visited.contains(u));
    assert(w.visited.contains(u));
}

/// One call on a crawler, as a plain value.
pub enum CrawlEvent {
    /// `step`.
    Step,
    /// `fetch_succeeded` with these links.
    Fetched(Seq<Seq<char>>),
    /// `fetch_failed`.
    Failed,
}

/// The state after one call.
pub open spec fn apply(v: CrawlView, e: CrawlEvent) -> CrawlView {
    match e {
        CrawlEvent::Step => step_spec(v).0,
        CrawlEvent::Fetched(ls) => fetched_spec(v, ls),
        CrawlEvent::Failed => failed_spec(v),
    }
}

/// Whether a call is allowed in state `v`: the `requires` of `step` and
/// `fetch_succeeded` on the graph's room.
pub open spec fn allowed(v: CrawlView, e: CrawlEvent) -> bool {
    match e {
        CrawlEvent::Step => next_step_fits(v),
        CrawlEvent::Fetched(ls) => fetch_fits(v, ls),
        CrawlEvent::Failed => true,
    }
}

/// The state after the calls `es`, in order, from `v`.
pub open spec fn run(v: CrawlView, es: Seq<CrawlEvent>) -> CrawlView
    decreases es.len(),
{
    if es.len() == 0 {
        v
    } else {
        apply(run(v, es.drop_last()), es.last())
    }
}

/// Whether each of the calls `es` is allowed in the state where it is made.
pub open spec fn run_allowed(v: CrawlView, es: Seq<CrawlEvent>) -> bool
    decreases es.len(),
{
    es.len() == 0 || (run_allowed(v, es.drop_last()) && allowed(run(v, es.drop_last()), es.last()))
}

/// The pages that the calls `es` newly ask to fetch, in order: those named by a
/// `step` that gives `Fetch` while nothing is awaited.
pub open spec fn run_fetches(v: CrawlView, es: Seq<CrawlEvent>) -> Seq<Seq<char>>
    decreases es.len(),
{
    if es.len() == 0 {
        Seq::empty()
    } else {
        let w = run(v, es.drop_last());
        let earlier = run_fetches(v, es.drop_last());
        match (es.last(), w.pending, step_spec(w).1) {
            (CrawlEvent::Step, None, StepKind::Fetch(u)) => earlier.push(u),
            _ => earlier,
        }
    }
}

/// The links that the calls `es` record in the cache: for each `fetch_succeeded`
/// while a page is awaited, that page's fetched links.
pub open spec fn run_stored(v: CrawlView, es: Seq<CrawlEvent>) -> Map<Seq<char>, Seq<Seq<char>>>
    decreases es.len(),
{
    if es.len() == 0 {
        Map::empty()
    } else {
        let w = run(v, es.drop_last());
        let earlier = run_stored(v, es.drop_last());
        match (es.last(), w.pending) {
            (CrawlEvent::Fetched(ls), Some(p)) => earlier.insert(p.0, ls),
            _ => earlier,
        }
    }
}

/// A page whose links a crawl took in: its URL, its links and the depth at which
/// it was taken from the queue.
pub type TakenPage = (Seq<char>, Seq<Seq<char>>, usize);

/// The pages whose links the calls `es` took into the graph, in order, each with
/// those links and its queued depth: for each `step` settled from the cache, the
/// page and its cached links; for each `fetch_succeeded` while a page is awaited,
/// that page and the fetched links.
pub open spec fn run_absorbed(v: CrawlView, es: Seq<CrawlEvent>) -> Seq<TakenPage>
    decreases es.len(),
{
    if es.len() == 0 {
        Seq::empty()
    } else {
        let w = run(v, es.drop_last());
        let earlier = run_absorbed(v, es.drop_last());
        match es.last() {
            CrawlEvent::Step => match step_spec(w).1 {
                StepKind::CacheHit(u) => earlier.push((u, cached_links(w, u)->0, w.queue[0].1)),
                _ => earlier,
            },
            CrawlEvent::Fetched(ls) => match w.pending {
                Some(p) => earlier.push((p.0, ls, p.1)),
                None => earlier,
            },
            CrawlEvent::Failed => earlier,
        }
    }
}

/// The number of links in all of `pages`.
pub open spec fn links_total(pages: Seq<TakenPage>) -> nat
    decreases pages.len(),
{
    if pages.len() == 0 {
        0
    } else {
        links_total(pages.drop_last()) + pages.last().1.len()
    }
}

/// Whether one of `pages` is `url` and has `link` among its links.
pub open spec fn absorbed_link(pages: Seq<TakenPage>, url: Seq<char>, link: Seq<char>) -> bool {
    exists|i: int| 0 <= i < pages.len() && pages[i].0 == url && #[trigger] pages[i].1.contains(link)
}

/// Whether some node of `v` with URL `url` is processed.
pub open spec fn page_processed(v: CrawlView, url: Seq<char>) -> bool {
    exists|n: int| 0 <= n < v.nodes.len() && (#[trigger] v.nodes[n]).0 == url && v.nodes[n].2
}

/// Whether `url` is one of `pages`.
pub open spec fn taken_page(pages: Seq<TakenPage>, url: Seq<char>) -> bool {
    exists|i: int| 0 <= i < pages.len() && (#[trigger] pages[i]).0 == url
}

/// The number of queue entries that the calls `es` take: one for each `step`
/// made while nothing is awaited and the queue is not empty.
pub open spec fn run_pops(v: CrawlView, es: Seq<CrawlEvent>) -> nat
    decreases es.len(),
{
    if es.len() == 0 {
        0
    } else {
        let w = run(v, es.drop_last());
        let earlier = run_pops(v, es.drop_last());
        if es.last() is Step && w.pending is None && w.queue.len() > 0 {
            earlier + 1
        } else {
            earlier
        }
    }
}

/// Whether `path` is a chain of URLs each of which, after the first, is one of
/// the links that `pages` record for the URL before it.
pub open spec fn link_path(pages: Seq<TakenPage>, path: Seq<Seq<char>>) -> bool {
    &&& path.len() > 0
    &&& forall|k: int| 1 <= k < path.len() ==> absorbed_link(pages, path[k - 1], #[trigger] path[k])
}

/// Whether `url` is reached from `start` by following at most `hops` links that
/// `pages` record.
pub open spec fn reached(pages: Seq<TakenPage>, start: Seq<char>, url: Seq<char>, hops: int) -> bool {
    exists|path: Seq<Seq<char>>| #[trigger] link_path(pages, path) && path[0] == start && path.last() == url && path.len() <= hops + 1
}

/// Whether every page that `v` queues, awaits or has visited is reached from
/// `start` through links that `pages` record: a queued or awaited page within its
/// depth, a visited page within the depth limit.
pub open spec fn reach_sound(v: CrawlView, pages: Seq<TakenPage>, start: Seq<char>) -> bool {
    &&& forall|j: int| 0 <= j < v.queue.len() ==> reached(pages, start, (#[trigger] v.queue[j]).0, v.queue[j].1 as int)
    &&& (v.pending matches Some(p) ==> reached(pages, start, p.0, p.1 as int))
    &&& forall|u: Seq<char>| #[trigger] v.visited.contains(u) ==> reached(pages, start, u, v.max_depth as int)
}

/// What is reached through some pages' links is reached through those pages and
/// one more.
pub proof fn lemma_reached_more(pages: Seq<TakenPage>, x: TakenPage, start: Seq<char>, url: Seq<char>, hops: int)
    requires
        reached(pages, start, url, hops),
    ensures
        reached(pages.push(x), start, url, hops),
{
    let path = choose|path: Seq<Seq<char>>| #[trigger] link_path(pages, path) && path[0] == start && path.last() == url && path.len() <= hops + 1;
    let more = pages.push(x);
    assert forall|k: int| 1 <= k < path.len() implies absorbed_link(more, path[k - 1], #[trigger] path[k]) by {
        assert(absorbed_link(pages, path[k - 1], path[k]));
        let i = choose|i: int| 0 <= i < pages.len() && pages[i].0 == path[k - 1] && #[trigger] pages[i].1.contains(path[k]);
        assert(more[i] == pages[i]);
    }
    assert(link_path(more, path));
}

/// A page reached within `hops` links, whose links `pages` record, leads to each
/// of those links within one link more.
pub proof fn lemma_reached_link(pages: Seq<TakenPage>, start: Seq<char>, url: Seq<char>, hops: int, link: Seq<char>)
    requires
        reached(pages, start, url, hops),
        absorbed_link(pages, url, link),
    ensures
        reached(pages, start, link, hops + 1),
{
    let path = choose|path: Seq<Seq<char>>| #[trigger] link_path(pages, path) && path[0] == start && path.last() == url && path.len() <= hops + 1;
    let longer = path.push(link);
    assert forall|k: int| 1 <= k < longer.len() implies absorbed_link(pages, longer[k - 1], #[trigger] longer[k]) by {
        if k < path.len() {
            assert(longer[k - 1] == path[k - 1] && longer[k] == path[k]);
            assert(absorbed_link(pages, path[k - 1], path[k]));
        } else {
            assert(longer[k - 1] == url);
        }
    }
    assert(link_path(pages, longer));
    assert(longer[0] == start);
}

/// Law, on what a crawl reaches: with a depth limit below `usize::MAX`, every page
/// that a crawl queues, awaits or visits is reached from the start page by
/// following links that the crawl itself took in (cached or fetched), within its
/// queued depth; so every page it visits, and every page whose links it takes in,
/// lies within the depth limit of the start page.
pub proof fn law_run_reach(v: CrawlView, es: Seq<CrawlEvent>, start: Seq<char>)
    requires
        consistent(v),
        run_allowed(v, es),
        v.max_depth < usize::MAX,
        reach_sound(v, Seq::empty(), start),
    ensures
        reach_sound(run(v, es), run_absorbed(v, es), start),
    decreases es.len(),
{
    if es.len() > 0 {
        let pre = es.drop_last();
        law_run_reach(v, pre, start);
        law_run(v, pre);
        let w = run(v, pre);
        let x = run(v, es);
        let a = run_absorbed(v, pre);
        let b = run_absorbed(v, es);
        assert(x == apply(w, es.last()));
        assert(w.max_depth == v.max_depth);
        if b.len() > a.len() {
            assert(b.drop_last() =~= a);
            assert(b == a.push(b.last()));
            let y = b.last();
            assert forall|j: int| 0 <= j < w.queue.len() implies reached(b, start, (#[trigger] w.queue[j]).0, w.queue[j].1 as int) by {
                lemma_reached_more(a, y, start, w.queue[j].0, w.queue[j].1 as int);
            }
            if let Some(p) = w.pending {
                lemma_reached_more(a, y, start, p.0, p.1 as int);
            }
            assert forall|u: Seq<char>| #[trigger] w.visited.contains(u) implies reached(b, start, u, w.max_depth as int) by {
                lemma_reached_more(a, y, start, u, w.max_depth as int);
            }
        } else {
            assert(b == a);
        }
        assert(reach_sound(w, b, start));
        match es.last() {
            CrawlEvent::Step => {
                law_step(w);
                if w.pending is None && w.queue.len() > 0 {
                    let q = w.queue[0];
                    assert(reached(b, start, q.0, q.1 as int));
                    assert forall|j: int| 0 <= j < x.queue.len() implies reached(b, start, (#[trigger] x.queue[j]).0, x.queue[j].1 as int) by {
                        if j < w.queue.len() - 1 {
                            assert(w.queue.drop_first().is_prefix_of(x.queue));
                            assert(x.queue[j] == w.queue.drop_first()[j]);
                            assert(x.queue[j] == w.queue[j + 1]);
                        } else {
                            if let StepKind::CacheHit(u) = step_spec(w).1 {
                                let ls = cached_links(w, u)->0;
                                assert(b[a.len() as int] == (u, ls, q.1));
                                assert(x.queue[j].1 == next_depth(q.1) && ls.contains(x.queue[j].0));
                                assert(b[a.len() as int].1.contains(x.queue[j].0));
                                assert(absorbed_link(b, u, x.queue[j].0));
                                lemma_reached_link(b, start, u, q.1 as int, x.queue[j].0);
                            }
                        }
                    }
                    if let Some(p) = x.pending {
                        assert(step_spec(w).1 is Fetch);
                        assert(p.0 == q.0 && p.1 == q.1);
                    }
                    assert forall|u: Seq<char>| #[trigger] x.visited.contains(u) implies reached(b, start, u, x.max_depth as int) by {
                        if !w.visited.contains(u) {
                            assert(u == q.0);
                            assert(q.1 <= x.max_depth);
                            let path = choose|path: Seq<Seq<char>>| #[trigger] link_path(b, path) && path[0] == start && path.last() == q.0 && path.len() <= q.1 + 1;
                            assert(link_path(b, path));
                        }
                    }
                    assert(reach_sound(x, b, start));
                } else {
                    assert(x == w);
                }
            },
            CrawlEvent::Fetched(ls) => {
                law_fetched(w, ls);
                if let Some(p) = w.pending {
                    assert(b[a.len() as int] == (p.0, ls, p.1));
                    assert forall|j: int| 0 <= j < x.queue.len() implies reached(b, start, (#[trigger] x.queue[j]).0, x.queue[j].1 as int) by {
                        if j < w.queue.len() {
                            assert(w.queue.is_prefix_of(x.queue));
                            assert(x.queue[j] == w.queue[j]);
                        } else {
                            assert(x.queue[j].1 == next_depth(p.1) && ls.contains(x.queue[j].0));
                            assert(b[a.len() as int].1.contains(x.queue[j].0));
                            assert(absorbed_link(b, p.0, x.queue[j].0));
                            lemma_reached_link(b, start, p.0, p.1 as int, x.queue[j].0);
                        }
                    }
                    assert(reach_sound(x, b, start));
                } else {
                    assert(x == w);
                }
            },
            CrawlEvent::Failed => {
                law_failed(w);
                assert(x.visited == w.visited);
            },
        }
    }
}

/// Whether every node of `v` from index `n0` on has a URL that is reached from
/// `start` through links that `pages` record within one link more than the node's
/// depth.
pub open spec fn nodes_reached(v: CrawlView, pages: Seq<TakenPage>, start: Seq<char>, n0: int) -> bool {
    forall|i: int| n0 <= i < v.nodes.len() ==> reached(pages, start, (#[trigger] v.nodes[i]).0, v.nodes[i].1 + 1)
}

/// What is reached within some number of links is reached within any larger
/// number.
pub proof fn lemma_reached_within(pages: Seq<TakenPage>, start: Seq<char>, url: Seq<char>, hops: int, more: int)
    requires
        reached(pages, start, url, hops),
        hops <= more,
    ensures
        reached(pages, start, url, more),
{
    let path = choose|path: Seq<Seq<char>>| #[trigger] link_path(pages, path) && path[0] == start && path.last() == url && path.len() <= hops + 1;
    assert(link_path(pages, path));
}

/// Law, on node depths: with a depth limit below `usize::MAX`, every node that a
/// crawl adds to the graph has a URL reached from the start page through links
/// that the crawl took in, within one link more than the node's depth (a new node
/// takes the depth of the page that links to it, and a visited page its queued
/// depth). So no node's depth is less than its distance from the start page minus
/// one.
pub proof fn law_run_node_depths(v: CrawlView, es: Seq<CrawlEvent>, start: Seq<char>)
    requires
        consistent(v),
        run_allowed(v, es),
        v.max_depth < usize::MAX,
        reach_sound(v, Seq::empty(), start),
    ensures
        nodes_reached(run(v, es), run_absorbed(v, es), start, v.nodes.len() as int),
    decreases es.len(),
{
    if es.len() > 0 {
        let n0 = v.nodes.len() as int;
        let pre = es.drop_last();
        law_run_node_depths(v, pre, start);
        law_run_reach(v, pre, start);
        law_run(v, pre);
        let w = run(v, pre);
        let x = run(v, es);
        let a = run_absorbed(v, pre);
        let b = run_absorbed(v, es);
        assert(x == apply(w, es.last()));
        if b.len() > a.len() {
            assert(b.drop_last() =~= a);
            assert(b == a.push(b.last()));
            let y = b.last();
            assert forall|i: int| n0 <= i < w.nodes.len() implies reached(b, start, (#[trigger] w.nodes[i]).0, w.nodes[i].1 + 1) by {
                lemma_reached_more(a, y, start, w.nodes[i].0, w.nodes[i].1 + 1);
            }
            assert forall|j: int| 0 <= j < w.queue.len() implies reached(b, start, (#[trigger] w.queue[j]).0, w.queue[j].1 as int) by {
                lemma_reached_more(a, y, start, w.queue[j].0, w.queue[j].1 as int);
            }
            if let Some(p) = w.pending {
                lemma_reached_more(a, y, start, p.0, p.1 as int);
            }
        } else {
            assert(b == a);
        }
        if x == w {
        } else {
            match es.last() {
                CrawlEvent::Step => {
                    law_step(w);
                    let q = w.queue[0];
                    assert(w.pending is None && w.queue.len() > 0);
                    assert(reached(b, start, q.0, q.1 as int));
                    assert forall|i: int| n0 <= i < x.nodes.len() implies reached(b, start, (#[trigger] x.nodes[i]).0, x.nodes[i].1 + 1) by {
                        if node_from(w.nodes, x.nodes, i, step_links(w), q.1) {
                            if i < w.nodes.len() && x.nodes[i].0 == w.nodes[i].0 && x.nodes[i].1 == w.nodes[i].1 {
                                assert(reached(b, start, w.nodes[i].0, w.nodes[i].1 + 1));
                            } else {
                                if let StepKind::CacheHit(u) = step_spec(w).1 {
                                    let ls = cached_links(w, u)->0;
                                    assert(b[a.len() as int] == (u, ls, q.1));
                                    assert(b[a.len() as int].1.contains(x.nodes[i].0));
                                    assert(absorbed_link(b, u, x.nodes[i].0));
                                    lemma_reached_link(b, start, u, q.1 as int, x.nodes[i].0);
                                    lemma_reached_within(b, start, x.nodes[i].0, q.1 + 1, x.nodes[i].1 + 1);
                                } else {
                                    assert(step_links(w) =~= Seq::<Seq<char>>::empty());
                                }
                            }
                        } else {
                            lemma_reached_within(b, start, q.0, q.1 as int, q.1 + 1);
                        }
                    }
                },
                CrawlEvent::Fetched(ls) => {
                    law_fetched(w, ls);
                    let p = w.pending->0;
                    assert(b[a.len() as int] == (p.0, ls, p.1));
                    assert(reached(b, start, p.0, p.1 as int));
                    assert forall|i: int| n0 <= i < x.nodes.len() implies reached(b, start, (#[trigger] x.nodes[i]).0, x.nodes[i].1 + 1) by {
                        assert(node_from(w.nodes, x.nodes, i, ls, p.1));
                        if i < w.nodes.len() && x.nodes[i].0 == w.nodes[i].0 && x.nodes[i].1 == w.nodes[i].1 {
                            assert(reached(b, start, w.nodes[i].0, w.nodes[i].1 + 1));
                        } else {
                            assert(b[a.len() as int].1.contains(x.nodes[i].0));
                            assert(absorbed_link(b, p.0, x.nodes[i].0));
                            lemma_reached_link(b, start, p.0, p.1 as int, x.nodes[i].0);
                            lemma_reached_within(b, start, x.nodes[i].0, p.1 + 1, x.nodes[i].1 + 1);
                        }
                    }
                },
                CrawlEvent::Failed => {
                    law_failed(w);
                },
            }
        }
    }
}

/// Law: in a crawl from `start` with a depth limit below `usize::MAX`, every page
/// that is queued, awaited or visited is reached from `start` through links that
/// the crawl took in, a visited page within the depth limit; and every node added
/// to the graph is reached within one link more than its depth.
pub proof fn law_crawl_reach(
    nodes: Seq<NodeView>,
    edges: Seq<(usize, usize)>,
    start: Seq<char>,
    max_depth: usize,
    cache: Option<Map<Seq<char>, Seq<Seq<char>>>>,
    es: Seq<CrawlEvent>,
)
    requires
        nodes.len() <= index_limit(),
        edges.len() <= index_limit(),
        forall|j: int| 0 <= j < edges.len() ==> (#[trigger] edges[j]).0 < nodes.len() && edges[j].1 < nodes.len(),
        max_depth < usize::MAX,
        run_allowed(initial_spec(nodes, edges, start, max_depth, cache), es),
    ensures
        reach_sound(
            run(initial_spec(nodes, edges, start, max_depth, cache), es),
            run_absorbed(initial_spec(nodes, edges, start, max_depth, cache), es),
            start,
        ),
        nodes_reached(
            run(initial_spec(nodes, edges, start, max_depth, cache), es),
            run_absorbed(initial_spec(nodes, edges, start, max_depth, cache), es),
            start,
            nodes.len() as int,
        ),
{
    let v = initial_spec(nodes, edges, start, max_depth, cache);
    law_initial(nodes, edges, start, max_depth, cache);
    let none = Seq::<TakenPage>::empty();
    let path = seq![start];
    assert(link_path(none, path));
    assert(path.last() == start);
    assert forall|j: int| 0 <= j < v.queue.len() implies reached(none, start, (#[trigger] v.queue[j]).0, v.queue[j].1 as int) by {
        assert(v.queue[j] == (start, 0usize));
    }
    law_run_reach(v, es, start);
    law_run_node_depths(v, es, start);
}

/// Whether `url` waits in the queue of `v` at a depth within the limit.
pub open spec fn queued_within(v: CrawlView, url: Seq<char>) -> bool {
    exists|j: int| 0 <= j < v.queue.len() && (#[trigger] v.queue[j]).0 == url && v.queue[j].1 <= v.max_depth
}

/// Whether, in `v`, each link of each of `pages` taken in below the depth limit,
/// other than the page itself, is visited or waits in the queue within the limit.
pub open spec fn links_followed(v: CrawlView, pages: Seq<TakenPage>) -> bool {
    forall|i: int, l: Seq<char>| 0 <= i < pages.len() && pages[i].2 < v.max_depth && #[trigger] pages[i].1.contains(l)
        && l != pages[i].0 ==> v.visited.contains(l) || queued_within(v, l)
}

/// Law, on following links: at every point of a crawl, each link of each page
/// whose links were taken in below the depth limit, other than the page itself,
/// is visited or waits in the queue within the limit; so once the queue is empty,
/// every such link has been visited.
pub proof fn law_run_follow(v: CrawlView, es: Seq<CrawlEvent>)
    requires
        consistent(v),
        run_allowed(v, es),
    ensures
        links_followed(run(v, es), run_absorbed(v, es)),
        run(v, es).queue.len() == 0 ==> forall|i: int, l: Seq<char>|
            0 <= i < run_absorbed(v, es).len() && run_absorbed(v, es)[i].2 < v.max_depth
                && #[trigger] run_absorbed(v, es)[i].1.contains(l) && l != run_absorbed(v, es)[i].0
                ==> run(v, es).visited.contains(l),
    decreases es.len(),
{
    if es.len() > 0 {
        let pre = es.drop_last();
        law_run_follow(v, pre);
        law_run(v, pre);
        let w = run(v, pre);
        let x = run(v, es);
        let a = run_absorbed(v, pre);
        let b = run_absorbed(v, es);
        assert(x == apply(w, es.last()));
        match es.last() {
            CrawlEvent::Step => law_step(w),
            CrawlEvent::Fetched(ls) => law_fetched(w, ls),
            CrawlEvent::Failed => law_failed(w),
        }
        assert(x.max_depth == w.max_depth && w.max_depth == v.max_depth);
        if b.len() > a.len() {
            assert(b.drop_last() =~= a);
            assert(b == a.push(b.last()));
        } else {
            assert(b == a);
        }
        assert forall|i: int, l: Seq<char>| 0 <= i < b.len() && b[i].2 < x.max_depth && #[trigger] b[i].1.contains(l)
            && l != b[i].0 implies x.visited.contains(l) || queued_within(x, l) by {
            if i < a.len() {
                assert(b[i] == a[i]);
                if !w.visited.contains(l) {
                    let j = choose|j: int| 0 <= j < w.queue.len() && (#[trigger] w.queue[j]).0 == l && w.queue[j].1 <= w.max_depth;
                    if x != w {
                        match es.last() {
                            CrawlEvent::Step => {
                                if j == 0 {
                                    assert(x.visited.contains(l));
                                } else {
                                    assert(w.queue.drop_first().is_prefix_of(x.queue));
                                    assert(x.queue[j - 1] == w.queue.drop_first()[j - 1]);
                                    assert(x.queue[j - 1] == w.queue[j]);
                                }
                            },
                            CrawlEvent::Fetched(ls) => {
                                assert(w.queue.is_prefix_of(x.queue));
                                assert(x.queue[j] == w.queue[j]);
                            },
                            CrawlEvent::Failed => {
                                assert(x.queue[j] == w.queue[j]);
                            },
                        }
                    }
                }
            } else {
                match es.last() {
                    CrawlEvent::Step => {
                        if let StepKind::CacheHit(u) = step_spec(w).1 {
                            let ls = cached_links(w, u)->0;
                            assert(b[i] == (u, ls, w.queue[0].1));
                            assert(ls.contains(l));
                            if !x.visited.contains(l) {
                                let j = choose|j: int| 0 <= j < x.queue.len() && #[trigger] x.queue[j] == (l, next_depth(w.queue[0].1));
                                assert(x.queue[j].0 == l);
                            }
                        }
                    },
                    CrawlEvent::Fetched(ls) => {
                        let p = w.pending->0;
                        assert(b[i] == (p.0, ls, p.1));
                        assert(ls.contains(l));
                        if !x.visited.contains(l) {
                            let j = choose|j: int| 0 <= j < x.queue.len() && #[trigger] x.queue[j] == (l, next_depth(p.1));
                            assert(x.queue[j].0 == l);
                        }
                    },
                    CrawlEvent::Failed => {},
                }
            }
        }
    }
}

/// Whether `url` waits in the queue of `v` at depth `depth` or less.
pub open spec fn queued_by(v: CrawlView, url: Seq<char>, depth: int) -> bool {
    exists|j: int| 0 <= j < v.queue.len() && (#[trigger] v.queue[j]).0 == url && v.queue[j].1 <= depth
}

/// Whether `url` is visited in `v` and its node lies at depth `depth` or less, and
/// it was taken in (where it was) and is awaited (where it is) at depth `depth` or
/// less.
pub open spec fn settled_by(v: CrawlView, pages: Seq<TakenPage>, url: Seq<char>, depth: int) -> bool {
    &&& v.visited.contains(url)
    &&& v.indices.contains_key(url) && v.nodes[v.indices[url] as int].1 <= depth
    &&& forall|k: int| 0 <= k < pages.len() && (#[trigger] pages[k]).0 == url ==> pages[k].2 <= depth
    &&& (v.pending matches Some(p) ==> (p.0 == url ==> p.1 <= depth))
}

/// Whether the crawl in `v`, having taken in `pages`, keeps breadth-first order:
/// the queued depths never decrease along the queue and span at most one level
/// (from the awaited page's depth, where a page is awaited); no page was taken in,
/// and no visited page's node lies, deeper than anything queued or awaited; and
/// each link of each page taken in
/// below the depth limit, other than the page itself, waits in the queue at most
/// one level deeper than the page, or is visited and was taken in, or is awaited,
/// at most one level deeper.
pub open spec fn bfs_order(v: CrawlView, pages: Seq<TakenPage>) -> bool {
    &&& forall|i: int, j: int| 0 <= i <= j < v.queue.len() ==> (#[trigger] v.queue[i]).1 <= (#[trigger] v.queue[j]).1
    &&& (v.pending is None ==> forall|j: int| 0 <= j < v.queue.len() ==> (#[trigger] v.queue[j]).1 <= v.queue[0].1 + 1)
    &&& (v.pending matches Some(p) ==> forall|j: int| 0 <= j < v.queue.len() ==> p.1 <= (#[trigger] v.queue[j]).1 <= p.1 + 1)
    &&& forall|k: int, j: int| 0 <= k < pages.len() && 0 <= j < v.queue.len() ==> (#[trigger] pages[k]).2 <= (#[trigger] v.queue[j]).1
    &&& (v.pending matches Some(p) ==> forall|k: int| 0 <= k < pages.len() ==> (#[trigger] pages[k]).2 <= p.1)
    &&& forall|u: Seq<char>, j: int| #[trigger] v.visited.contains(u) && 0 <= j < v.queue.len()
        ==> v.indices.contains_key(u) && v.nodes[v.indices[u] as int].1 <= (#[trigger] v.queue[j]).1
    &&& (v.pending matches Some(p) ==> forall|u: Seq<char>| #[trigger] v.visited.contains(u)
        ==> v.indices.contains_key(u) && v.nodes[v.indices[u] as int].1 <= p.1)
    &&& forall|i: int, l: Seq<char>| 0 <= i < pages.len() && pages[i].2 < v.max_depth && #[trigger] pages[i].1.contains(l)
        && l != pages[i].0 ==> queued_by(v, l, pages[i].2 + 1) || settled_by(v, pages, l, pages[i].2 + 1)
}

/// A step keeps breadth-first order.
pub proof fn lemma_bfs_step(w: CrawlView, a: Seq<TakenPage>)
    requires
        consistent(w),
        next_step_fits(w),
        w.max_depth < usize::MAX,
        bfs_order(w, a),
    ensures
        bfs_order(step_spec(w).0, match step_spec(w).1 {
            StepKind::CacheHit(u) => a.push((u, cached_links(w, u)->0, w.queue[0].1)),
            _ => a,
        }),
{
    law_step(w);
    let x = step_spec(w).0;
    let b = match step_spec(w).1 {
        StepKind::CacheHit(u) => a.push((u, cached_links(w, u)->0, w.queue[0].1)),
        _ => a,
    };
    if w.pending is None && w.queue.len() > 0 {
        let u = w.queue[0].0;
        let e = w.queue[0].1;
        let hit = step_spec(w).1 is CacheHit;
        let ls = step_links(w);
        assert(w.queue.drop_first().is_prefix_of(x.queue));
        assert forall|j: int| 0 <= j < x.queue.len() implies
            (j < w.queue.len() - 1 && #[trigger] x.queue[j] == w.queue[j + 1])
            || (hit && x.queue[j].1 == e + 1 && ls.contains(x.queue[j].0)) by {
            if j < w.queue.len() - 1 {
                assert(x.queue[j] == w.queue.drop_first()[j]);
            } else {
                if let StepKind::CacheHit(h) = step_spec(w).1 {
                    assert(h == u);
                    assert(ls == cached_links(w, u)->0);
                } else {
                    assert(x.queue.len() + 1 <= w.queue.len());
                }
            }
        }
        if hit {
            assert(b.drop_last() =~= a);
        } else {
            assert(b == a);
        }
        // the queue stays sorted and within one level
        assert forall|i: int, j: int| 0 <= i <= j < x.queue.len() implies (#[trigger] x.queue[i]).1 <= (#[trigger] x.queue[j]).1 by {
            if j < w.queue.len() - 1 {
                assert(x.queue[i] == w.queue.drop_first()[i]);
                assert(x.queue[j] == w.queue.drop_first()[j]);
                assert(x.queue[i] == w.queue[i + 1]);
                assert(x.queue[j] == w.queue[j + 1]);
            } else if i < w.queue.len() - 1 {
                assert(x.queue[i] == w.queue.drop_first()[i]);
                assert(x.queue[i] == w.queue[i + 1]);
                assert(w.queue[i + 1].1 <= w.queue[0].1 + 1);
            }
        }
        assert forall|j: int| 0 <= j < x.queue.len() implies e <= (#[trigger] x.queue[j]).1 <= e + 1 by {
            if j < w.queue.len() - 1 {
                assert(x.queue[j] == w.queue.drop_first()[j]);
                assert(x.queue[j] == w.queue[j + 1]);
                assert(w.queue[0].1 <= w.queue[j + 1].1);
                assert(w.queue[j + 1].1 <= w.queue[0].1 + 1);
            }
        }
        if x.pending is None && x.queue.len() > 0 {
            assert forall|j: int| 0 <= j < x.queue.len() implies (#[trigger] x.queue[j]).1 <= x.queue[0].1 + 1 by {
                assert(e <= x.queue[0].1);
            }
        }
        if let Some(p) = x.pending {
            assert(step_spec(w).1 is Fetch);
            assert(p.1 == e);
        }
        // pages taken in lie no deeper than anything queued or awaited
        assert forall|k: int, j: int| 0 <= k < b.len() && 0 <= j < x.queue.len() implies (#[trigger] b[k]).2 <= (#[trigger] x.queue[j]).1 by {
            if k < a.len() {
                assert(b[k] == a[k]);
                assert(a[k].2 <= w.queue[0].1);
                if j < w.queue.len() - 1 {
                    assert(x.queue[j] == w.queue.drop_first()[j]);
                    assert(x.queue[j] == w.queue[j + 1]);
                }
            } else {
                if j < w.queue.len() - 1 {
                    assert(x.queue[j] == w.queue.drop_first()[j]);
                    assert(x.queue[j] == w.queue[j + 1]);
                    assert(w.queue[0].1 <= w.queue[j + 1].1);
                }
            }
        }
        if let Some(p) = x.pending {
            assert forall|k: int| 0 <= k < b.len() implies (#[trigger] b[k]).2 <= p.1 by {
                assert(b[k] == a[k]);
                assert(a[k].2 <= w.queue[0].1);
            }
        }
        // links of pages taken in are followed
        assert forall|i: int, l: Seq<char>| 0 <= i < b.len() && b[i].2 < x.max_depth && #[trigger] b[i].1.contains(l)
            && l != b[i].0 implies queued_by(x, l, b[i].2 + 1) || settled_by(x, b, l, b[i].2 + 1) by {
            let d = b[i].2;
            if i < a.len() {
                assert(b[i] == a[i]);
                if settled_by(w, a, l, d + 1) {
                    assert(x.visited.contains(l));
                    assert forall|k: int| 0 <= k < b.len() && (#[trigger] b[k]).0 == l implies b[k].2 <= d + 1 by {
                        if k < a.len() {
                            assert(b[k] == a[k]);
                        } else {
                            assert(!w.visited.contains(u));
                        }
                    }
                } else {
                    let j = choose|j: int| 0 <= j < w.queue.len() && (#[trigger] w.queue[j]).0 == l && w.queue[j].1 <= d + 1;
                    if j > 0 {
                        assert(x.queue[j - 1] == w.queue.drop_first()[j - 1]);
                        assert(x.queue[j - 1] == w.queue[j]);
                        assert(queued_by(x, l, d + 1));
                    } else {
                        assert(l == u && e <= d + 1);
                        assert(x.visited.contains(u));
                        assert forall|k: int| 0 <= k < b.len() && (#[trigger] b[k]).0 == l implies b[k].2 <= d + 1 by {
                            if k < a.len() {
                                assert(b[k] == a[k]);
                                assert(a[k].2 <= w.queue[0].1);
                            }
                        }
                        assert(settled_by(x, b, l, d + 1));
                    }
                }
            } else {
                let h = step_spec(w).1->CacheHit_0;
                assert(h == u);
                assert(b[i] == (u, cached_links(w, u)->0, e));
                if !x.visited.contains(l) {
                    let j = choose|j: int| 0 <= j < x.queue.len() && #[trigger] x.queue[j] == (l, next_depth(e));
                    assert(x.queue[j].0 == l);
                    assert(queued_by(x, l, d + 1));
                } else {
                    assert forall|k: int| 0 <= k < b.len() && (#[trigger] b[k]).0 == l implies b[k].2 <= d + 1 by {
                        if k < a.len() {
                            assert(b[k] == a[k]);
                            assert(a[k].2 <= w.queue[0].1);
                        }
                    }
                    assert(settled_by(x, b, l, d + 1));
                }
            }
        }
    } else {
        assert(x == w);
        assert(b == a);
    }
}

/// Reporting a fetch keeps breadth-first order.
pub proof fn lemma_bfs_fetched(w: CrawlView, a: Seq<TakenPage>, ls: Seq<Seq<char>>)
    requires
        consistent(w),
        fetch_fits(w, ls),
        w.max_depth < usize::MAX,
        bfs_order(w, a),
    ensures
        bfs_order(fetched_spec(w, ls), match w.pending {
            Some(p) => a.push((p.0, ls, p.1)),
            None => a,
        }),
{
    law_fetched(w, ls);
    if let Some(p) = w.pending {
        let x = fetched_spec(w, ls);
        let b = a.push((p.0, ls, p.1));
        let e = p.1;
        assert(w.queue.is_prefix_of(x.queue));
        assert forall|j: int| 0 <= j < x.queue.len() implies
            (j < w.queue.len() && #[trigger] x.queue[j] == w.queue[j]) || (j >= w.queue.len() && x.queue[j].1 == e + 1 && ls.contains(x.queue[j].0)) by {
            if j < w.queue.len() {
                assert(x.queue[j] == w.queue[j]);
            }
        }
        assert forall|i: int, j: int| 0 <= i <= j < x.queue.len() implies (#[trigger] x.queue[i]).1 <= (#[trigger] x.queue[j]).1 by {
            if j < w.queue.len() {
                assert(x.queue[i] == w.queue[i] && x.queue[j] == w.queue[j]);
            } else if i < w.queue.len() {
                assert(x.queue[i] == w.queue[i]);
            }
        }
        assert forall|j: int| 0 <= j < x.queue.len() implies e <= (#[trigger] x.queue[j]).1 <= e + 1 by {
            if j < w.queue.len() {
                assert(x.queue[j] == w.queue[j]);
            }
        }
        if x.queue.len() > 0 {
            assert(e <= x.queue[0].1);
        }
        assert forall|k: int, j: int| 0 <= k < b.len() && 0 <= j < x.queue.len() implies (#[trigger] b[k]).2 <= (#[trigger] x.queue[j]).1 by {
            if k < a.len() {
                assert(b[k] == a[k]);
            }
            if j < w.queue.len() {
                assert(x.queue[j] == w.queue[j]);
            }
        }
        assert forall|i: int, l: Seq<char>| 0 <= i < b.len() && b[i].2 < x.max_depth && #[trigger] b[i].1.contains(l)
            && l != b[i].0 implies queued_by(x, l, b[i].2 + 1) || settled_by(x, b, l, b[i].2 + 1) by {
            let d = b[i].2;
            if i < a.len() {
                assert(b[i] == a[i]);
                if settled_by(w, a, l, d + 1) {
                    assert forall|k: int| 0 <= k < b.len() && (#[trigger] b[k]).0 == l implies b[k].2 <= d + 1 by {
                        if k < a.len() {
                            assert(b[k] == a[k]);
                        }
                    }
                } else {
                    let j = choose|j: int| 0 <= j < w.queue.len() && (#[trigger] w.queue[j]).0 == l && w.queue[j].1 <= d + 1;
                    assert(x.queue[j] == w.queue[j]);
                }
            } else {
                assert(b[i] == (p.0, ls, e));
                if !x.visited.contains(l) {
                    let j = choose|j: int| 0 <= j < x.queue.len() && #[trigger] x.queue[j] == (l, next_depth(e));
                    assert(x.queue[j].0 == l);
                    assert(queued_by(x, l, d + 1));
                } else {
                    assert forall|k: int| 0 <= k < b.len() && (#[trigger] b[k]).0 == l implies b[k].2 <= d + 1 by {
                        if k < a.len() {
                            assert(b[k] == a[k]);
                        }
                    }
                }
            }
        }
    }
}

/// A failed fetch keeps breadth-first order.
pub proof fn lemma_bfs_failed(w: CrawlView, a: Seq<TakenPage>)
    requires
        bfs_order(w, a),
    ensures
        bfs_order(failed_spec(w), a),
{
    let x = failed_spec(w);
    if let Some(p) = w.pending {
        if x.queue.len() > 0 {
            assert(p.1 <= x.queue[0].1);
        }
    }
    assert forall|i: int, l: Seq<char>| 0 <= i < a.len() && a[i].2 < x.max_depth && #[trigger] a[i].1.contains(l)
        && l != a[i].0 implies queued_by(x, l, a[i].2 + 1) || settled_by(x, a, l, a[i].2 + 1) by {
        if settled_by(w, a, l, a[i].2 + 1) {
        } else {
            let j = choose|j: int| 0 <= j < w.queue.len() && (#[trigger] w.queue[j]).0 == l && w.queue[j].1 <= a[i].2 + 1;
            assert(x.queue[j] == w.queue[j]);
        }
    }
}

/// Law, on breadth-first order over a whole crawl: with a depth limit below
/// `usize::MAX`, from a state in breadth-first order (as the start of a crawl is),
/// the crawl stays in breadth-first order (see `bfs_order`). So once the queue is
/// empty and nothing is awaited, each link of each page taken in at a depth `d`
/// below the limit, other than the page itself, is visited, its node lies at depth
/// `d + 1` or less, and it was taken in (if at all) at depth `d + 1` or less
/// (`law_crawl_complete` follows chains of links from the start page with this).
pub proof fn law_run_bfs(v: CrawlView, es: Seq<CrawlEvent>)
    requires
        consistent(v),
        run_allowed(v, es),
        v.max_depth < usize::MAX,
        bfs_order(v, Seq::empty()),
    ensures
        bfs_order(run(v, es), run_absorbed(v, es)),
        run(v, es).queue.len() == 0 && run(v, es).pending is None ==> forall|i: int, l: Seq<char>|
            0 <= i < run_absorbed(v, es).len() && run_absorbed(v, es)[i].2 < v.max_depth
                && #[trigger] run_absorbed(v, es)[i].1.contains(l) && l != run_absorbed(v, es)[i].0
                ==> settled_by(run(v, es), run_absorbed(v, es), l, run_absorbed(v, es)[i].2 + 1),
    decreases es.len(),
{
    if es.len() > 0 {
        let pre = es.drop_last();
        law_run_bfs(v, pre);
        law_run(v, pre);
        let w = run(v, pre);
        let x = run(v, es);
        let a = run_absorbed(v, pre);
        let b = run_absorbed(v, es);
        assert(x == apply(w, es.last()));
        assert(w.max_depth == v.max_depth);
        match es.last() {
            CrawlEvent::Step => {
                lemma_bfs_step(w, a);
                if let StepKind::CacheHit(u) = step_spec(w).1 {
                    assert(b == a.push((u, cached_links(w, u)->0, w.queue[0].1)));
                } else {
                    assert(b == a);
                }
            },
            CrawlEvent::Fetched(ls) => {
                lemma_bfs_fetched(w, a, ls);
                if let Some(p) = w.pending {
                    assert(b == a.push((p.0, ls, p.1)));
                } else {
                    assert(b == a);
                }
            },
            CrawlEvent::Failed => {
                lemma_bfs_failed(w, a);
                assert(b == a);
            },
        }
    }
    if run(v, es).queue.len() == 0 && run(v, es).pending is None {
        let x = run(v, es);
        let b = run_absorbed(v, es);
        law_run(v, es);
        assert(x.max_depth == v.max_depth);
        assert forall|i: int, l: Seq<char>| 0 <= i < b.len() && b[i].2 < v.max_depth && #[trigger] b[i].1.contains(l)
            && l != b[i].0 implies settled_by(x, b, l, b[i].2 + 1) by {
            if queued_by(x, l, b[i].2 + 1) {
                let j = choose|j: int| 0 <= j < x.queue.len() && (#[trigger] x.queue[j]).0 == l && x.queue[j].1 <= b[i].2 + 1;
            }
        }
    }
}

/// What is settled stays settled: over any allowed calls after a state in which
/// `url` is settled at depth `d` (visited, and taken in and awaited at depth `d`
/// or less), `url` stays settled at depth `d`.
pub proof fn lemma_settled_keeps(v: CrawlView, es: Seq<CrawlEvent>, url: Seq<char>, d: int)
    requires
        consistent(v),
        run_allowed(v, es),
        es.len() > 0,
        settled_by(run(v, es.take(1)), run_absorbed(v, es.take(1)), url, d),
    ensures
        settled_by(run(v, es), run_absorbed(v, es), url, d),
    decreases es.len(),
{
    if es.len() == 1 {
        assert(es.take(1) =~= es);
    } else {
        let pre = es.drop_last();
        assert(pre.take(1) =~= es.take(1));
        lemma_settled_keeps(v, pre, url, d);
        law_run(v, pre);
        let w = run(v, pre);
        let x = run(v, es);
        let a = run_absorbed(v, pre);
        let b = run_absorbed(v, es);
        assert(x == apply(w, es.last()));
        match es.last() {
            CrawlEvent::Step => law_step(w),
            CrawlEvent::Fetched(ls) => law_fetched(w, ls),
            CrawlEvent::Failed => law_failed(w),
        }
        if b.len() > a.len() {
            assert(b.drop_last() =~= a);
            assert(b == a.push(b.last()));
        } else {
            assert(b == a);
        }
        assert forall|k: int| 0 <= k < b.len() && (#[trigger] b[k]).0 == url implies b[k].2 <= d by {
            if k < a.len() {
                assert(b[k] == a[k]);
            } else {
                match es.last() {
                    CrawlEvent::Step => {
                        let u = step_spec(w).1->CacheHit_0;
                        assert(b[k] == (u, cached_links(w, u)->0, w.queue[0].1));
                        assert(!w.visited.contains(u));
                    },
                    CrawlEvent::Fetched(ls) => {
                        let p = w.pending->0;
                        assert(b[k] == (p.0, ls, p.1));
                    },
                    CrawlEvent::Failed => {},
                }
            }
        }
        if let Some(p) = x.pending {
            if p.0 == url && w.pending is None {
                assert(step_spec(w).1 is Fetch);
                assert(!w.visited.contains(p.0));
            }
        }
    }
}

/// Law, on what a finished crawl reaches: a crawl from `start` with a depth limit
/// below `usize::MAX` whose first call is a `step` and which has run until the
/// queue is empty and nothing is awaited has visited every page reached from
/// `start` through at most `max_depth` links that it took in (each from a page to
/// another page); the node of the `k`-th page of such a chain lies at depth `k` or
/// less, and that page was taken in, if at all, at depth `k` or less. With a cache that holds every page within the depth limit,
/// every such page is taken in, so the crawl visits exactly the pages within
/// `max_depth` links of `start` (the converse is `law_crawl_reach`).
pub proof fn law_crawl_complete(
    nodes: Seq<NodeView>,
    edges: Seq<(usize, usize)>,
    start: Seq<char>,
    max_depth: usize,
    cache: Option<Map<Seq<char>, Seq<Seq<char>>>>,
    es: Seq<CrawlEvent>,
    path: Seq<Seq<char>>,
)
    requires
        nodes.len() <= index_limit(),
        edges.len() <= index_limit(),
        forall|j: int| 0 <= j < edges.len() ==> (#[trigger] edges[j]).0 < nodes.len() && edges[j].1 < nodes.len(),
        max_depth < usize::MAX,
        run_allowed(initial_spec(nodes, edges, start, max_depth, cache), es),
        es.len() > 0,
        es[0] is Step,
        run(initial_spec(nodes, edges, start, max_depth, cache), es).queue.len() == 0,
        run(initial_spec(nodes, edges, start, max_depth, cache), es).pending is None,
        link_path(run_absorbed(initial_spec(nodes, edges, start, max_depth, cache), es), path),
        path[0] == start,
        path.len() <= max_depth + 1,
        forall|k: int| 1 <= k < path.len() ==> path[k - 1] != #[trigger] path[k],
    ensures
        forall|k: int| 0 <= k < path.len() ==> settled_by(
            run(initial_spec(nodes, edges, start, max_depth, cache), es),
            run_absorbed(initial_spec(nodes, edges, start, max_depth, cache), es),
            #[trigger] path[k],
            k,
        ),
        run(initial_spec(nodes, edges, start, max_depth, cache), es).visited.contains(path.last()),
{
    let v = initial_spec(nodes, edges, start, max_depth, cache);
    let x = run(v, es);
    let b = run_absorbed(v, es);
    law_initial(nodes, edges, start, max_depth, cache);
    // the first step settles the start page at depth 0
    let first = es.take(1);
    assert(first.drop_last() =~= Seq::<CrawlEvent>::empty());
    assert(first.last() == es[0]);
    assert(run(v, first.drop_last()) == v);
    assert(run_absorbed(v, first.drop_last()) =~= Seq::<TakenPage>::empty());
    assert(run(v, first) == step_spec(v).0);
    lemma_run_prefix(v, es, 1);
    law_step(v);
    assert(v.queue[0] == (start, 0usize));
    let b1 = run_absorbed(v, first);
    assert forall|k: int| 0 <= k < b1.len() && (#[trigger] b1[k]).0 == start implies b1[k].2 <= 0 by {
        let u = step_spec(v).1->CacheHit_0;
        assert(b1 =~= seq![(u, cached_links(v, u)->0, v.queue[0].1)]);
    }
    assert(settled_by(run(v, first), b1, start, 0));
    lemma_settled_keeps(v, es, start, 0);
    // breadth-first order, and so every link of a page taken in below the limit is settled
    assert(bfs_order(v, Seq::empty()));
    law_run_bfs(v, es);
    law_run(v, es);
    assert forall|k: int| 0 <= k < path.len() implies settled_by(x, b, #[trigger] path[k], k) by {
        lemma_path_settled(x, b, path, k, max_depth);
    }
    assert(settled_by(x, b, path[path.len() - 1], path.len() - 1));
}

/// Induction along a chain of links: where the first page of `path` is settled at
/// depth 0 and every link of every page taken in below the limit is settled one
/// level deeper, the `k`-th page of `path` is settled at depth `k`.
pub proof fn lemma_path_settled(x: CrawlView, b: Seq<TakenPage>, path: Seq<Seq<char>>, k: int, max_depth: usize)
    requires
        link_path(b, path),
        0 <= k < path.len(),
        path.len() <= max_depth + 1,
        forall|j: int| 1 <= j < path.len() ==> path[j - 1] != #[trigger] path[j],
        settled_by(x, b, path[0], 0),
        forall|i: int, l: Seq<char>| 0 <= i < b.len() && b[i].2 < max_depth && #[trigger] b[i].1.contains(l)
            && l != b[i].0 ==> settled_by(x, b, l, b[i].2 + 1),
    ensures
        settled_by(x, b, path[k], k),
    decreases k,
{
    if k > 0 {
        lemma_path_settled(x, b, path, k - 1, max_depth);
        assert(absorbed_link(b, path[k - 1], path[k]));
        let i = choose|i: int| 0 <= i < b.len() && b[i].0 == path[k - 1] && #[trigger] b[i].1.contains(path[k]);
        assert(b[i].2 <= k - 1);
        assert(path[k - 1] != path[k]);
        assert(settled_by(x, b, path[k], b[i].2 + 1));
    }
}

/// A run of calls extends the state after each of its prefixes, and each prefix
/// is allowed where the run is.
pub proof fn lemma_run_prefix(v: CrawlView, es: Seq<CrawlEvent>, n: int)
    requires
        consistent(v),
        run_allowed(v, es),
        0 <= n <= es.len(),
    ensures
        run_allowed(v, es.take(n)),
        grows(run(v, es.take(n)), run(v, es)),
    decreases es.len(),
{
    if n == es.len() {
        assert(es.take(n) =~= es);
        lemma_grows_refl(run(v, es));
    } else {
        let pre = es.drop_last();
        assert(pre.take(n) =~= es.take(n));
        lemma_run_prefix(v, pre, n);
        law_run(v, pre);
        let w = run(v, pre);
        match es.last() {
            CrawlEvent::Step => law_step(w),
            CrawlEvent::Fetched(ls) => law_fetched(w, ls),
            CrawlEvent::Failed => law_failed(w),
        }
        lemma_grows_trans(run(v, es.take(n)), w, run(v, es));
    }
}

/// Law: a crawl whose first call is a `step` visits its start page and gives it a
/// node at depth 0, which stays in the graph with that URL and that depth whatever
/// calls follow.
pub proof fn law_crawl_start(
    nodes: Seq<NodeView>,
    edges: Seq<(usize, usize)>,
    start: Seq<char>,
    max_depth: usize,
    cache: Option<Map<Seq<char>, Seq<Seq<char>>>>,
    es: Seq<CrawlEvent>,
)
    requires
        nodes.len() <= index_limit(),
        edges.len() <= index_limit(),
        forall|j: int| 0 <= j < edges.len() ==> (#[trigger] edges[j]).0 < nodes.len() && edges[j].1 < nodes.len(),
        run_allowed(initial_spec(nodes, edges, start, max_depth, cache), es),
        es.len() > 0,
        es[0] is Step,
    ensures
        run(initial_spec(nodes, edges, start, max_depth, cache), es).visited.contains(start),
        run(initial_spec(nodes, edges, start, max_depth, cache), es).indices.contains_key(start),
        run(initial_spec(nodes, edges, start, max_depth, cache), es).nodes[
            run(initial_spec(nodes, edges, start, max_depth, cache), es).indices[start] as int
        ].0 == start,
        run(initial_spec(nodes, edges, start, max_depth, cache), es).nodes[
            run(initial_spec(nodes, edges, start, max_depth, cache), es).indices[start] as int
        ].1 == 0,
{
    let v = initial_spec(nodes, edges, start, max_depth, cache);
    law_initial(nodes, edges, start, max_depth, cache);
    lemma_run_prefix(v, es, 1);
    law_run(v, es);
    let first = es.take(1);
    assert(first.drop_last() =~= Seq::<CrawlEvent>::empty());
    assert(first.last() == es[0]);
    assert(run(v, first) == step_spec(v).0);
    law_step(v);
    assert(v.queue[0] == (start, 0usize));
}

/// Law, on termination and on where edges come from, over a whole crawl: every
/// `step` made while nothing is awaited takes one entry from the queue, and the
/// queue only grows by the links that the crawl takes in, so the number of such
/// steps, plus what is left in the queue, is at most the queue at the start plus
/// the number of links taken in (from a fresh crawl: one plus the links of the
/// pages visited). Once the queue is empty and nothing is awaited, `step` answers
/// `Finished`. Every edge that the calls add goes from the node of a page whose
/// links were taken in, which is processed, to a different node whose URL is one
/// of that page's links; and from each such page there is an edge to each of its
/// links other than itself. A page whose links were taken in has a processed node,
/// and a node that the calls mark processed is such a page's.
pub proof fn law_run_progress(v: CrawlView, es: Seq<CrawlEvent>)
    requires
        consistent(v),
        run_allowed(v, es),
    ensures
        run_pops(v, es) + run(v, es).queue.len() <= v.queue.len() + links_total(run_absorbed(v, es)),
        run(v, es).pending is None && run(v, es).queue.len() == 0 ==> step_spec(run(v, es)).1 is Finished,
        forall|j: int| v.edges.len() <= j < run(v, es).edges.len() ==> {
            let e = #[trigger] run(v, es).edges[j];
            &&& e.0 != e.1
            &&& run(v, es).nodes[e.0 as int].2
            &&& absorbed_link(run_absorbed(v, es), run(v, es).nodes[e.0 as int].0, run(v, es).nodes[e.1 as int].0)
        },
        forall|i: int, l: Seq<char>| 0 <= i < run_absorbed(v, es).len() && #[trigger] run_absorbed(v, es)[i].1.contains(l)
            && l != run_absorbed(v, es)[i].0 ==> edge_between(run(v, es), run_absorbed(v, es)[i].0, l),
        forall|i: int| 0 <= i < run_absorbed(v, es).len() ==> page_processed(run(v, es), (#[trigger] run_absorbed(v, es)[i]).0),
        forall|n: int| 0 <= n < run(v, es).nodes.len() && (#[trigger] run(v, es).nodes[n]).2
            ==> (n < v.nodes.len() && v.nodes[n].2) || taken_page(run_absorbed(v, es), run(v, es).nodes[n].0),
    decreases es.len(),
{
    if es.len() > 0 {
        let pre = es.drop_last();
        law_run_progress(v, pre);
        law_run(v, pre);
        let w = run(v, pre);
        let x = run(v, es);
        let a = run_absorbed(v, pre);
        let b = run_absorbed(v, es);
        assert(x == apply(w, es.last()));
        match es.last() {
            CrawlEvent::Step => law_step(w),
            CrawlEvent::Fetched(ls) => law_fetched(w, ls),
            CrawlEvent::Failed => law_failed(w),
        }
        if b.len() > a.len() {
            assert(b.drop_last() =~= a);
            assert(b == a.push(b.last()));
        } else {
            assert(b == a);
        }
        assert forall|j: int| v.edges.len() <= j < x.edges.len() implies {
            let e = #[trigger] x.edges[j];
            &&& e.0 != e.1
            &&& x.nodes[e.0 as int].2
            &&& absorbed_link(b, x.nodes[e.0 as int].0, x.nodes[e.1 as int].0)
        } by {
            let e = x.edges[j];
            if j < w.edges.len() {
                assert(x.edges.subrange(0, w.edges.len() as int)[j] == w.edges[j]);
                assert(w.edges[j] == e);
                assert(w.nodes[e.0 as int].0 == x.nodes[e.0 as int].0);
                assert(w.nodes[e.1 as int].0 == x.nodes[e.1 as int].0);
                let i = choose|i: int| 0 <= i < a.len() && a[i].0 == w.nodes[e.0 as int].0 && #[trigger] a[i].1.contains(w.nodes[e.1 as int].0);
                assert(b[i] == a[i]);
            } else {
                let i = a.len() as int;
                match es.last() {
                    CrawlEvent::Step => {
                        if let StepKind::CacheHit(u) = step_spec(w).1 {
                            assert(b[i] == (u, cached_links(w, u)->0, w.queue[0].1));
                            assert(x.nodes[x.indices[u] as int].0 == u);
                        }
                    },
                    CrawlEvent::Fetched(ls) => {
                        if let Some(p) = w.pending {
                            assert(b[i] == (p.0, ls, p.1));
                        }
                    },
                    CrawlEvent::Failed => {},
                }
                assert(b[i].1.contains(x.nodes[e.1 as int].0));
            }
        }
        assert forall|i: int, l: Seq<char>| 0 <= i < b.len() && #[trigger] b[i].1.contains(l) && l != b[i].0
            implies edge_between(x, b[i].0, l) by {
            if i < a.len() {
                assert(b[i] == a[i]);
                let j = choose|j: int| 0 <= j < w.edges.len() && w.nodes[(#[trigger] w.edges[j]).0 as int].0 == a[i].0 && w.nodes[w.edges[j].1 as int].0 == l;
                assert(x.edges.subrange(0, w.edges.len() as int)[j] == w.edges[j]);
                assert(x.edges[j] == w.edges[j]);
                assert(x.nodes[w.edges[j].0 as int].0 == w.nodes[w.edges[j].0 as int].0);
                assert(x.nodes[w.edges[j].1 as int].0 == w.nodes[w.edges[j].1 as int].0);
            } else {
                match es.last() {
                    CrawlEvent::Step => {
                        let u = step_spec(w).1->CacheHit_0;
                        assert(b[i] == (u, cached_links(w, u)->0, w.queue[0].1));
                    },
                    CrawlEvent::Fetched(ls) => {
                        let p = w.pending->0;
                        assert(b[i] == (p.0, ls, p.1));
                    },
                    CrawlEvent::Failed => {},
                }
            }
        }
        assert forall|i: int| 0 <= i < b.len() implies page_processed(x, (#[trigger] b[i]).0) by {
            if i < a.len() {
                assert(b[i] == a[i]);
                let n = choose|n: int| 0 <= n < w.nodes.len() && (#[trigger] w.nodes[n]).0 == a[i].0 && w.nodes[n].2;
                assert(x.nodes[n].0 == w.nodes[n].0 && x.nodes[n].2);
            } else {
                match es.last() {
                    CrawlEvent::Step => {
                        let u = step_spec(w).1->CacheHit_0;
                        assert(b[i] == (u, cached_links(w, u)->0, w.queue[0].1));
                        let n = x.indices[u] as int;
                        assert(x.nodes[n].0 == u && x.nodes[n].2);
                    },
                    CrawlEvent::Fetched(ls) => {
                        let p = w.pending->0;
                        assert(b[i] == (p.0, ls, p.1));
                        assert(x.nodes[p.2 as int].0 == p.0 && x.nodes[p.2 as int].2);
                    },
                    CrawlEvent::Failed => {},
                }
            }
        }
        assert forall|n: int| 0 <= n < x.nodes.len() && (#[trigger] x.nodes[n]).2 implies (n < v.nodes.len() && v.nodes[n].2)
            || taken_page(b, x.nodes[n].0) by {
            let ghost from_w = n < w.nodes.len() && w.nodes[n].2;
            if from_w {
                if !(n < v.nodes.len() && v.nodes[n].2) {
                    let i = choose|i: int| 0 <= i < a.len() && (#[trigger] a[i]).0 == w.nodes[n].0;
                    assert(b[i] == a[i]);
                    assert(x.nodes[n].0 == w.nodes[n].0);
                }
            } else {
                let i = a.len() as int;
                match es.last() {
                    CrawlEvent::Step => {
                        let u = step_spec(w).1->CacheHit_0;
                        assert(b[i] == (u, cached_links(w, u)->0, w.queue[0].1));
                    },
                    CrawlEvent::Fetched(ls) => {
                        let p = w.pending->0;
                        assert(b[i] == (p.0, ls, p.1));
                    },
                    CrawlEvent::Failed => {},
                }
            }
        }
    }
}

/// Law, over a whole crawl: any allowed sequence of calls keeps the state
/// consistent and only extends it (nodes keep their indices and URLs, depths never
/// grow, edges are only appended, visited pages stay visited, cache entries are
/// never removed or changed); node URLs that were distinct stay distinct; edges
/// without duplicates stay so; where every processed node lay within the depth
/// limit (as in a fresh graph), every processed node still does. The pages it asks to fetch are pairwise distinct,
/// were neither visited nor cached before, and are visited after. Where a cache
/// is used, the cache afterwards is the cache before plus, for each successful
/// fetch, the fetched page's links, none of them for a page cached before; where
/// none is used, none appears.
pub proof fn law_run(v: CrawlView, es: Seq<CrawlEvent>)
    requires
        consistent(v),
        run_allowed(v, es),
    ensures
        consistent(run(v, es)),
        grows(v, run(v, es)),
        distinct_urls(v.nodes) ==> distinct_urls(run(v, es).nodes),
        processed_within(v) ==> processed_within(run(v, es)),
        v.edges.no_duplicates() ==> run(v, es).edges.no_duplicates(),
        run_fetches(v, es).no_duplicates(),
        forall|i: int| 0 <= i < run_fetches(v, es).len() ==> {
            &&& !v.visited.contains(#[trigger] run_fetches(v, es)[i])
            &&& run(v, es).visited.contains(run_fetches(v, es)[i])
            &&& (v.cache matches Some(c) ==> !c.contains_key(run_fetches(v, es)[i]))
        },
        v.cache is None ==> run(v, es).cache is None,
        v.cache matches Some(c) ==> run(v, es).cache == Some(c.union_prefer_right(run_stored(v, es))),
        v.cache matches Some(c) ==> forall|k: Seq<char>| #[trigger] run_stored(v, es).contains_key(k) ==> !c.contains_key(k),
    decreases es.len(),
{
    if es.len() == 0 {
        lemma_grows_refl(v);
    } else {
        let pre = es.drop_last();
        law_run(v, pre);
        let w = run(v, pre);
        let f = run_fetches(v, pre);
        let x = run(v, es);
        match es.last() {
            CrawlEvent::Step => law_step(w),
            CrawlEvent::Fetched(ls) => law_fetched(w, ls),
            CrawlEvent::Failed => law_failed(w),
        }
        assert(x == apply(w, es.last()));
        lemma_grows_trans(v, w, x);
        if let Some(c) = v.cache {
            let m = run_stored(v, pre);
            let m2 = run_stored(v, es);
            if let (CrawlEvent::Fetched(ls), Some(p)) = (es.last(), w.pending) {
                assert(m2 == m.insert(p.0, ls));
                let cw = w.cache->0;
                assert(!cw.contains_key(p.0));
                assert(c.submap_of(cw));
                assert(!c.contains_key(p.0));
                assert(c.union_prefer_right(m2) =~= c.union_prefer_right(m).insert(p.0, ls));
                assert forall|k: Seq<char>| #[trigger] m2.contains_key(k) implies !c.contains_key(k) by {
                    if k != p.0 {
                        assert(m.contains_key(k));
                    }
                }
            } else {
                assert(m2 == m);
            }
        } else {
            if let (CrawlEvent::Fetched(ls), Some(p)) = (es.last(), w.pending) {
            }
        }
        assert forall|i: int| 0 <= i < f.len() implies x.visited.contains(#[trigger] f[i]) by {
            assert(w.visited.contains(f[i]));
        }
        if let (CrawlEvent::Step, None, StepKind::Fetch(u)) = (es.last(), w.pending, step_spec(w).1) {
            assert(run_fetches(v, es) == f.push(u));
            assert(!w.visited.contains(u));
            assert(!v.visited.contains(u));
            if let Some(c) = v.cache {
                let cw = w.cache->0;
                assert(cached_links(w, u) is None);
                assert(!cw.contains_key(u));
                assert(!c.contains_key(u));
            }
            assert forall|i: int| 0 <= i < f.len() implies f[i] != u by {
                assert(w.visited.contains(f[i]));
            }
            assert(run_fetches(v, es).no_duplicates()) by {
                let g = run_fetches(v, es);
                assert forall|a: int, b: int| 0 <= a < g.len() && 0 <= b < g.len() && a != b implies g[a] != g[b] by {
                    if a == f.len() {
                        assert(g[b] == f[b]);
                    } else if b == f.len() {
                        assert(g[a] == f[a]);
                    } else {
                        assert(g[a] == f[a] && g[b] == f[b]);
                    }
                }
            }
        } else {
            assert(run_fetches(v, es) == f);
        }
    }
}

} // verus!
