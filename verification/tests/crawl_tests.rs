use geminispace_map::cache::{cache_get, cache_insert, CachePages};
use geminispace_map::crawl::{CrawlStep, Crawler};
use geminispace_map::graph::{node_label, render_dot, PageNode};
use petgraph::graph::{DiGraph, NodeIndex};

fn strings(v: &[&str]) -> Vec<String> {
    v.iter().map(|s| s.to_string()).collect()
}

fn node(g: &DiGraph<PageNode, ()>, i: usize) -> (String, usize, bool) {
    let n = &g[NodeIndex::new(i)];
    (n.url.clone(), n.depth, n.processed)
}

fn edges(g: &DiGraph<PageNode, ()>) -> Vec<(usize, usize)> {
    g.raw_edges().iter().map(|e| (e.source().index(), e.target().index())).collect()
}

fn fetch_url(s: CrawlStep) -> String {
    match s {
        CrawlStep::Fetch(u) => u,
        _ => panic!("expected a fetch"),
    }
}

#[test]
fn first_step_fetches_the_start_page() {
    let mut c = Crawler::new(DiGraph::new(), "gemini://a/", 5, None);
    assert!(c.fits_next_step());
    assert_eq!(fetch_url(c.step()), "gemini://a/");
    assert_eq!(c.node_count(), 1);
    assert_eq!(node(c.graph(), 0), ("gemini://a/".to_string(), 0, false));
}

#[test]
fn fetched_links_become_nodes_and_edges() {
    let mut c = Crawler::new(DiGraph::new(), "gemini://a/", 5, None);
    c.step();
    let links = strings(&["gemini://b/", "gemini://a/", "gemini://c/", "gemini://b/"]);
    assert!(c.fits_links(&links));
    c.fetch_succeeded(links);
    let g = c.graph();
    assert_eq!(g.node_count(), 3);
    // the page itself is processed; new nodes take the depth of the page that found them
    assert_eq!(node(g, 0), ("gemini://a/".to_string(), 0, true));
    assert_eq!(node(g, 1), ("gemini://b/".to_string(), 0, false));
    assert_eq!(node(g, 2), ("gemini://c/".to_string(), 0, false));
    // no self loop, no duplicate edge
    assert_eq!(edges(g), vec![(0, 1), (0, 2)]);
    assert_eq!(fetch_url(c.step()), "gemini://b/");
}

#[test]
fn queue_is_breadth_first_and_visits_once() {
    let mut c = Crawler::new(DiGraph::new(), "gemini://a/", 5, None);
    c.step();
    c.fetch_succeeded(strings(&["gemini://b/", "gemini://c/", "gemini://b/"]));
    assert_eq!(fetch_url(c.step()), "gemini://b/");
    c.fetch_succeeded(strings(&["gemini://d/", "gemini://a/"]));
    assert_eq!(fetch_url(c.step()), "gemini://c/");
    c.fetch_failed();
    // the second "gemini://b/" in the queue was visited already
    assert!(matches!(c.step(), CrawlStep::Skipped));
    assert_eq!(fetch_url(c.step()), "gemini://d/");
    c.fetch_succeeded(vec![]);
    assert!(matches!(c.step(), CrawlStep::Finished));
    let g = c.graph();
    assert_eq!(edges(g), vec![(0, 1), (0, 2), (1, 3), (1, 0)]);
    assert_eq!(node(g, 2), ("gemini://c/".to_string(), 0, false));
    assert_eq!(node(g, 3), ("gemini://d/".to_string(), 1, true));
}

#[test]
fn pages_deeper_than_the_limit_are_skipped() {
    let mut c = Crawler::new(DiGraph::new(), "gemini://a/", 0, None);
    c.step();
    c.fetch_succeeded(strings(&["gemini://b/"]));
    assert!(matches!(c.step(), CrawlStep::Skipped));
    assert!(matches!(c.step(), CrawlStep::Finished));
    assert_eq!(c.node_count(), 2);
}

#[test]
fn awaited_fetch_is_asked_again() {
    let mut c = Crawler::new(DiGraph::new(), "gemini://a/", 5, None);
    assert_eq!(fetch_url(c.step()), "gemini://a/");
    assert_eq!(fetch_url(c.step()), "gemini://a/");
    assert_eq!(c.node_count(), 1);
}

#[test]
fn failed_fetch_leaves_the_page_unprocessed() {
    let mut c = Crawler::new(DiGraph::new(), "gemini://a/", 5, None);
    c.step();
    c.fetch_failed();
    assert!(matches!(c.step(), CrawlStep::Finished));
    assert_eq!(node(c.graph(), 0), ("gemini://a/".to_string(), 0, false));
    // a report with nothing awaited changes nothing
    c.fetch_succeeded(strings(&["gemini://z/"]));
    assert_eq!(c.node_count(), 1);
}

#[test]
fn cached_page_is_not_fetched() {
    let mut cache = CachePages::new();
    cache_insert(&mut cache, "gemini://a/", strings(&["gemini://b/"]));
    let mut c = Crawler::new(DiGraph::new(), "gemini://a/", 5, Some(cache));
    match c.step() {
        CrawlStep::CacheHit(u) => assert_eq!(u, "gemini://a/"),
        _ => panic!("expected a cache hit"),
    }
    assert_eq!(node(c.graph(), 0), ("gemini://a/".to_string(), 0, true));
    assert_eq!(fetch_url(c.step()), "gemini://b/");
    c.fetch_succeeded(strings(&["gemini://c/"]));
    let (g, cache) = c.finish();
    assert_eq!(edges(&g), vec![(0, 1), (1, 2)]);
    let cache = cache.unwrap();
    assert_eq!(cache_get(&cache, "gemini://b/"), Some(strings(&["gemini://c/"])));
    assert_eq!(cache_get(&cache, "gemini://a/"), Some(strings(&["gemini://b/"])));
}

#[test]
fn loaded_graph_nodes_are_reused() {
    let mut g: DiGraph<PageNode, ()> = DiGraph::new();
    let a = g.add_node(PageNode { url: "gemini://a/".to_string(), depth: 3, processed: true });
    let b = g.add_node(PageNode { url: "gemini://b/".to_string(), depth: 4, processed: false });
    g.add_edge(a, b, ());
    let mut c = Crawler::new(g, "gemini://a/", 5, None);
    assert_eq!(fetch_url(c.step()), "gemini://a/");
    assert_eq!(c.node_count(), 2);
    // the depth is lowered to the one at which the page was reached
    assert_eq!(node(c.graph(), 0), ("gemini://a/".to_string(), 0, true));
    c.fetch_succeeded(strings(&["gemini://b/"]));
    // the existing edge is not duplicated; b's depth is lowered to 1
    assert_eq!(edges(c.graph()), vec![(0, 1)]);
    assert_eq!(node(c.graph(), 1), ("gemini://b/".to_string(), 1, false));
    assert_eq!(c.edge_count(), 1);
}

#[test]
fn node_label_and_dot() {
    let n = PageNode { url: "gemini://a/".to_string(), depth: 0, processed: false };
    assert_eq!(node_label(&n), "label=\"gemini://a/\"");
    let mut g: DiGraph<PageNode, ()> = DiGraph::new();
    let a = g.add_node(n);
    let b = g.add_node(PageNode { url: "gemini://b/".to_string(), depth: 1, processed: false });
    g.add_edge(a, b, ());
    let dot = render_dot(&g);
    assert!(dot.starts_with("digraph {"));
    assert!(dot.contains("label=\"gemini://a/\""));
    assert!(dot.contains("label=\"gemini://b/\""));
    assert!(dot.contains("0 -> 1"));
}

#[test]
fn empty_graph_has_nothing() {
    let g = geminispace_map::graph::empty_graph();
    assert_eq!(g.node_count(), 0);
    assert_eq!(g.edge_count(), 0);
}

fn run_to_end(c: &mut Crawler) {
    loop {
        match c.step() {
            CrawlStep::Finished => break,
            CrawlStep::Fetch(u) => panic!("unexpected fetch of {}", u),
            _ => {}
        }
    }
}

#[test]
fn cached_crawl_from_an_empty_graph() {
    let mut cache = CachePages::new();
    cache_insert(&mut cache, "gemini://a/", strings(&["gemini://b/", "gemini://a/"]));
    cache_insert(&mut cache, "gemini://b/", strings(&["gemini://c/"]));
    cache_insert(&mut cache, "gemini://c/", strings(&["gemini://a/"]));
    let mut c = Crawler::new(geminispace_map::graph::empty_graph(), "gemini://a/", 1, Some(cache));
    run_to_end(&mut c);
    let (g, cache) = c.finish();
    assert_eq!(g.node_count(), 3);
    assert_eq!(node(&g, 0), ("gemini://a/".to_string(), 0, true));
    assert_eq!(node(&g, 1), ("gemini://b/".to_string(), 0, true));
    assert_eq!(node(&g, 2), ("gemini://c/".to_string(), 1, false));
    assert_eq!(edges(&g), vec![(0, 1), (1, 2)]);
    assert_eq!(cache.unwrap().entries().len(), 3);
}

#[test]
fn nothing_beyond_the_depth_limit_is_fetched() {
    let mut cache = CachePages::new();
    cache_insert(&mut cache, "gemini://a/", strings(&["gemini://b/", "gemini://c/"]));
    let mut c = Crawler::new(geminispace_map::graph::empty_graph(), "gemini://a/", 0, Some(cache));
    run_to_end(&mut c);
    let g = c.graph();
    assert_eq!(node(g, 0), ("gemini://a/".to_string(), 0, true));
    assert_eq!(node(g, 1), ("gemini://b/".to_string(), 0, false));
    assert_eq!(node(g, 2), ("gemini://c/".to_string(), 0, false));
    assert_eq!(edges(g), vec![(0, 1), (0, 2)]);
}

#[test]
fn largest_depth_limit_is_accepted() {
    let mut c = Crawler::new(geminispace_map::graph::empty_graph(), "gemini://a/", usize::MAX, None);
    assert_eq!(fetch_url(c.step()), "gemini://a/");
    c.fetch_succeeded(strings(&["gemini://b/"]));
    assert_eq!(fetch_url(c.step()), "gemini://b/");
}

#[test]
fn cached_crawl_ends_within_its_step_bound() {
    let pages = [
        ("gemini://a/", vec!["gemini://b/", "gemini://c/", "gemini://a/"]),
        ("gemini://b/", vec!["gemini://c/", "gemini://a/"]),
        ("gemini://c/", vec!["gemini://d/"]),
        ("gemini://d/", vec!["gemini://a/", "gemini://b/"]),
    ];
    let mut cache = CachePages::new();
    let mut total_links = 0;
    for (url, links) in pages.iter() {
        cache_insert(&mut cache, url, strings(links));
        total_links += links.len();
    }
    let mut c = Crawler::new(geminispace_map::graph::empty_graph(), "gemini://a/", 5, Some(cache));
    let mut steps = 0;
    loop {
        match c.step() {
            CrawlStep::Finished => break,
            CrawlStep::Fetch(u) => panic!("unexpected fetch of {}", u),
            _ => steps += 1,
        }
        assert!(steps <= 1 + total_links);
    }
    // a, b, c, c again (skipped), d
    assert_eq!(steps, 5);
    let (g, cache) = c.finish();
    let cache = cache.unwrap();
    // the start page has a node at depth 0; a new node takes the depth of the page
    // that first links to it, so no depth is below the page's distance minus one
    assert_eq!(node(&g, 0), ("gemini://a/".to_string(), 0, true));
    assert_eq!(node(&g, 1), ("gemini://b/".to_string(), 0, true));
    assert_eq!(node(&g, 2), ("gemini://c/".to_string(), 0, true));
    assert_eq!(node(&g, 3), ("gemini://d/".to_string(), 1, true));
    assert_eq!(edges(&g), vec![(0, 1), (0, 2), (1, 2), (1, 0), (2, 3), (3, 0), (3, 1)]);
    // every edge leaves a processed page for another node, one of that page's links
    for (s, t) in edges(&g) {
        assert_ne!(s, t);
        let (su, _, processed) = node(&g, s);
        assert!(processed);
        let (tu, _, _) = node(&g, t);
        assert!(cache_get(&cache, &su).unwrap().contains(&tu));
    }
    // once the queue is empty, every link of every page taken in below the limit
    // has been visited
    for (_, links) in pages.iter() {
        for l in links {
            let i = (0..g.node_count()).find(|&i| node(&g, i).0 == *l).unwrap();
            assert!(node(&g, i).2);
        }
    }
    // each node's depth lies between its distance from the start page minus one
    // and that distance
    let distances = [("gemini://a/", 0), ("gemini://b/", 1), ("gemini://c/", 1), ("gemini://d/", 2)];
    for (url, dist) in distances.iter() {
        let i = (0..g.node_count()).find(|&i| node(&g, i).0 == *url).unwrap();
        let depth = node(&g, i).1;
        assert!(depth <= *dist && depth + 1 >= *dist);
    }
    // every processed page lies within the depth limit
    for i in 0..g.node_count() {
        let (_, depth, processed) = node(&g, i);
        assert!(!processed || depth <= 5);
    }
}
