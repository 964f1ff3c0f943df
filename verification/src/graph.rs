//! The registry of files and the multigraph of their inclusions.
//!
//! Every file is one node, found by its path; every directive that names a
//! file is one edge from the file that holds it to the file it names. The
//! contracts speak of the graph as a map from each path to the inclusions that
//! its file holds, in the order in which they are worked through: by line,
//! and on one line by the order in which they were added.

use vstd::prelude::*;
use vstd::hash_map::StringHashMap;
use crate::stable::{
    graph_add_edge, graph_add_node, graph_edge_count, graph_edges, graph_edges_from, graph_new,
    graph_node_count, graph_node_indices, graph_node_weight, graph_nodes, graph_remove_edge,
    graph_remove_node, record, EdgeRecord, EdgeWeight, FileGraph,
};

verus! {

/// Where a directive names its file: the line, and on it the column of the
/// first character of the path and the column of the closing quote. All count
/// from zero.
#[derive(Clone, Copy, Debug, PartialEq, Eq, Structural)]
pub struct IncludePosition {
    pub line: usize,
    pub start: usize,
    pub end: usize,
}

/// One inclusion as the contracts see it: its position and the path named.
pub struct Inclusion {
    pub line: int,
    pub start: int,
    pub end: int,
    pub target: Seq<char>,
}

/// The graph as the contracts see it.
pub struct GraphView {
    /// Each file of the graph with its inclusions in working order.
    pub files: Map<Seq<char>, Seq<Inclusion>>,
    /// Number of files.
    pub nodes: nat,
    /// Number of inclusions.
    pub edges: nat,
    /// Number of inclusions ever added.
    pub clock: nat,
    /// The files that could be read when they were last looked for.
    pub present: Set<Seq<char>>,
    /// The most files that the graph takes.
    pub node_limit: nat,
    /// The most inclusions that the graph takes.
    pub edge_limit: nat,
}

/// The most files that any graph takes.
pub const NODE_LIMIT: usize = 0xffff_ffff;

/// The most inclusions that any graph takes.
pub const EDGE_LIMIT: usize = 0xffff_ffff;

/// The most inclusions that can be added to one graph over its life.
pub const CLOCK_LIMIT: u64 = 0xffff_ffff_ffff_ffff;

/// Whether one more file can be added.
pub open spec fn has_node_room(v: GraphView) -> bool {
    v.nodes < v.node_limit
}

/// Whether one more inclusion can be added.
pub open spec fn has_edge_room(v: GraphView) -> bool {
    v.edges < v.edge_limit && v.clock < CLOCK_LIMIT
}

/// Number of inclusions that `list` begins with whose line is at most `line`.
pub open spec fn through_line(list: Seq<Inclusion>, line: int) -> int
    decreases list.len(),
{
    if list.len() == 0 || list[0].line > line {
        0
    } else {
        1 + through_line(list.drop_first(), line)
    }
}

/// `list` with `inc` put behind the inclusions of its line and of earlier
/// lines that `list` begins with.
pub open spec fn placed(list: Seq<Inclusion>, inc: Inclusion) -> Seq<Inclusion> {
    list.insert(through_line(list, inc.line), inc)
}

/// `v` with the file `path`, which is added without inclusions where `v` has
/// no such file.
pub open spec fn with_file(v: GraphView, path: Seq<char>) -> GraphView {
    if v.files.contains_key(path) {
        v
    } else {
        GraphView { files: v.files.insert(path, Seq::empty()), nodes: v.nodes + 1, ..v }
    }
}

/// `v` with one more inclusion in the file `path`.
pub open spec fn with_inclusion(v: GraphView, path: Seq<char>, inc: Inclusion) -> GraphView {
    GraphView {
        files: v.files.insert(path, placed(v.files[path], inc)),
        edges: v.edges + 1,
        clock: v.clock + 1,
        ..v
    }
}

/// `v` with the file `path` left without inclusions.
pub open spec fn without_inclusions(v: GraphView, path: Seq<char>) -> GraphView {
    GraphView {
        files: v.files.insert(path, Seq::empty()),
        edges: (v.edges - v.files[path].len()) as nat,
        ..v
    }
}

/// `v` with the file `path` taken as one that could be read, or as one that
/// could not.
pub open spec fn marked(v: GraphView, path: Seq<char>, readable: bool) -> GraphView {
    GraphView {
        present: if readable {
            v.present.insert(path)
        } else {
            v.present.remove(path)
        },
        ..v
    }
}

/// `v` with the file `path` taken as one that cannot be read, and without
/// that file where `removed` holds.
pub open spec fn without_file(v: GraphView, path: Seq<char>, removed: bool) -> GraphView {
    if removed {
        GraphView {
            files: v.files.remove(path),
            nodes: (v.nodes - 1) as nat,
            present: v.present.remove(path),
            ..v
        }
    } else {
        GraphView { present: v.present.remove(path), ..v }
    }
}

/// Whether `after` holds every file that `before` held, no fewer files, and
/// takes as many files and inclusions as `before` did.
pub open spec fn keeps_files(before: GraphView, after: GraphView) -> bool {
    &&& forall|p: Seq<char>| #[trigger]
        before.files.contains_key(p) ==> after.files.contains_key(p)
    &&& after.nodes >= before.nodes
    &&& after.node_limit == before.node_limit
    &&& after.edge_limit == before.edge_limit
}

/// Whether every file that `before` held, but for `path`, has in `after` the
/// inclusions it had.
pub open spec fn leaves_others(before: GraphView, after: GraphView, path: Seq<char>) -> bool {
    forall|p: Seq<char>|
        before.files.contains_key(p) && p != path ==> #[trigger] after.files[p] == before.files[p]
}

/// Whether any of `files` names `path` in an inclusion.
pub open spec fn is_named(files: Map<Seq<char>, Seq<Inclusion>>, path: Seq<char>) -> bool {
    exists|p: Seq<char>, i: int|
        files.contains_key(p) && 0 <= i < files[p].len() && (#[trigger] files[p][i]).target == path
}

/// Whether any file of `v` names `path` in an inclusion.
pub open spec fn is_included(v: GraphView, path: Seq<char>) -> bool {
    is_named(v.files, path)
}

/// Whether edge `a` is worked through before edge `b` of the same file.
pub open spec fn key_before(a: EdgeRecord, b: EdgeRecord) -> bool {
    a.line < b.line || (a.line == b.line && a.order < b.order)
}

/// Whether `s` holds the edges that leave `node`, each once, in working order.
pub open spec fn is_out_list(edges: Map<int, EdgeRecord>, node: int, s: Seq<int>) -> bool {
    &&& forall|i: int|
        0 <= i < s.len() ==> edges.dom().contains(#[trigger] s[i]) && edges[s[i]].src == node
    &&& forall|e: int| #[trigger]
        edges.dom().contains(e) && edges[e].src == node ==> exists|i: int|
            0 <= i < s.len() && #[trigger] s[i] == e
    &&& forall|i: int, j: int|
        0 <= i < j < s.len() ==> key_before(edges[#[trigger] s[i]], edges[#[trigger] s[j]])
}

/// The edges that leave `node`, in working order.
pub open spec fn out_list(edges: Map<int, EdgeRecord>, node: int) -> Seq<int> {
    choose|s: Seq<int>| is_out_list(edges, node, s)
}

/// The inclusion that an edge stands for.
pub open spec fn inclusion_of(nodes: Map<int, Seq<char>>, r: EdgeRecord) -> Inclusion {
    Inclusion { line: r.line, start: r.start, end: r.end, target: nodes[r.dst] }
}

/// The inclusions that the edges `s` stand for.
pub open spec fn inclusions_of(
    nodes: Map<int, Seq<char>>,
    edges: Map<int, EdgeRecord>,
    s: Seq<int>,
) -> Seq<Inclusion> {
    Seq::new(s.len(), |i: int| inclusion_of(nodes, edges[s[i]]))
}

/// Whether a node carries `path`.
pub open spec fn has_path(nodes: Map<int, Seq<char>>, path: Seq<char>) -> bool {
    exists|n: int| #[trigger] nodes.dom().contains(n) && nodes[n] == path
}

/// The node that carries `path`.
pub open spec fn node_with(nodes: Map<int, Seq<char>>, path: Seq<char>) -> int {
    choose|n: int| #[trigger] nodes.dom().contains(n) && nodes[n] == path
}

/// Each path of the graph with the inclusions of its file.
pub open spec fn files_of(nodes: Map<int, Seq<char>>, edges: Map<int, EdgeRecord>) -> Map<
    Seq<char>,
    Seq<Inclusion>,
> {
    Map::new(
        |p: Seq<char>| has_path(nodes, p),
        |p: Seq<char>| inclusions_of(nodes, edges, out_list(edges, node_with(nodes, p))),
    )
}

/// What holds of the nodes and edges of every graph of this library.
pub open spec fn graph_wf(nodes: Map<int, Seq<char>>, edges: Map<int, EdgeRecord>, clock: int) -> bool {
    &&& nodes.dom().finite()
    &&& edges.dom().finite()
    &&& nodes.dom().len() <= NODE_LIMIT
    &&& edges.dom().len() <= EDGE_LIMIT
    &&& 0 <= clock <= CLOCK_LIMIT
    &&& forall|a: int, b: int|
        #[trigger] nodes.dom().contains(a) && #[trigger] nodes.dom().contains(b) && nodes[a]
            == nodes[b] ==> a == b
    &&& forall|n: int| #[trigger] nodes.dom().contains(n) ==> 0 <= n <= u32::MAX
    &&& forall|e: int| #[trigger]
        edges.dom().contains(e) ==> {
            &&& 0 <= e <= u32::MAX
            &&& nodes.dom().contains(edges[e].src)
            &&& nodes.dom().contains(edges[e].dst)
            &&& 0 <= edges[e].order < clock
            &&& 0 <= edges[e].line <= usize::MAX
            &&& 0 <= edges[e].start <= usize::MAX
            &&& 0 <= edges[e].end <= usize::MAX
        }
    &&& forall|a: int, b: int|
        #[trigger] edges.dom().contains(a) && #[trigger] edges.dom().contains(b) && edges[a].order
            == edges[b].order ==> a == b
    &&& forall|n: int| #[trigger]
        nodes.dom().contains(n) ==> is_out_list(edges, n, out_list(edges, n))
}

/// Two lists of edges in working order that hold the same edges are equal.
#[verifier::rlimit(50)]
pub proof fn lemma_sorted_lists_equal(edges: Map<int, EdgeRecord>, s1: Seq<int>, s2: Seq<int>)
    requires
        forall|i: int, j: int|
            0 <= i < j < s1.len() ==> key_before(edges[#[trigger] s1[i]], edges[#[trigger] s1[j]]),
        forall|i: int, j: int|
            0 <= i < j < s2.len() ==> key_before(edges[#[trigger] s2[i]], edges[#[trigger] s2[j]]),
        forall|i: int| 0 <= i < s1.len() ==> s2.contains(#[trigger] s1[i]),
        forall|i: int| 0 <= i < s2.len() ==> s1.contains(#[trigger] s2[i]),
    ensures
        s1 == s2,
    decreases s1.len(),
{
    if s1.len() == 0 {
        if s2.len() > 0 {
            assert(s1.contains(s2[0]));
        }
        assert(s1 =~= s2);
    } else {
        assert(s2.contains(s1[0]));
        let j = choose|j: int| 0 <= j < s2.len() && s2[j] == s1[0];
        assert(s1.contains(s2[0]));
        let i = choose|i: int| 0 <= i < s1.len() && s1[i] == s2[0];
        if j > 0 && i > 0 {
            assert(key_before(edges[s2[0]], edges[s2[j]]));
            assert(key_before(edges[s1[0]], edges[s1[i]]));
        }
        assert(s1[0] == s2[0]);
        let t1 = s1.drop_first();
        let t2 = s2.drop_first();
        assert forall|a: int| 0 <= a < t1.len() implies t2.contains(#[trigger] t1[a]) by {
            assert(t1[a] == s1[a + 1]);
            assert(s2.contains(s1[a + 1]));
            let b = choose|b: int| 0 <= b < s2.len() && s2[b] == s1[a + 1];
            assert(key_before(edges[s1[0]], edges[s1[a + 1]]));
            assert(b > 0);
            assert(t2[b - 1] == s2[b]);
        }
        assert forall|a: int| 0 <= a < t2.len() implies t1.contains(#[trigger] t2[a]) by {
            assert(t2[a] == s2[a + 1]);
            assert(s1.contains(s2[a + 1]));
            let b = choose|b: int| 0 <= b < s1.len() && s1[b] == s2[a + 1];
            assert(key_before(edges[s2[0]], edges[s2[a + 1]]));
            assert(b > 0);
            assert(t1[b - 1] == s1[b]);
        }
        assert forall|a: int, b: int| 0 <= a < b < t1.len() implies key_before(
            edges[#[trigger] t1[a]],
            edges[#[trigger] t1[b]],
        ) by {
            assert(t1[a] == s1[a + 1] && t1[b] == s1[b + 1]);
        }
        assert forall|a: int, b: int| 0 <= a < b < t2.len() implies key_before(
            edges[#[trigger] t2[a]],
            edges[#[trigger] t2[b]],
        ) by {
            assert(t2[a] == s2[a + 1] && t2[b] == s2[b + 1]);
        }
        lemma_sorted_lists_equal(edges, t1, t2);
        assert(s1 =~= seq![s1[0]] + t1);
        assert(s2 =~= seq![s2[0]] + t2);
    }
}

/// A list that holds the edges that leave a node in working order is the
/// list of that node.
pub proof fn lemma_out_list_is(edges: Map<int, EdgeRecord>, node: int, s: Seq<int>)
    requires
        is_out_list(edges, node, s),
    ensures
        out_list(edges, node) == s,
        is_out_list(edges, node, out_list(edges, node)),
{
    let o = out_list(edges, node);
    assert(is_out_list(edges, node, o));
    assert forall|i: int| 0 <= i < o.len() implies s.contains(#[trigger] o[i]) by {
        let e = o[i];
        assert(edges.dom().contains(e) && edges[e].src == node);
        let k = choose|k: int| 0 <= k < s.len() && s[k] == e;
        assert(s[k] == e);
    }
    assert forall|i: int| 0 <= i < s.len() implies o.contains(#[trigger] s[i]) by {
        let e = s[i];
        assert(edges.dom().contains(e) && edges[e].src == node);
        let k = choose|k: int| 0 <= k < o.len() && o[k] == e;
        assert(o[k] == e);
    }
    lemma_sorted_lists_equal(edges, o, s);
}

/// In a graph whose nodes carry different paths, the node that carries the
/// path of `n` is `n`.
pub proof fn lemma_node_with(nodes: Map<int, Seq<char>>, n: int)
    requires
        nodes.dom().contains(n),
        forall|a: int, b: int|
            #[trigger] nodes.dom().contains(a) && #[trigger] nodes.dom().contains(b) && nodes[a]
                == nodes[b] ==> a == b,
    ensures
        has_path(nodes, nodes[n]),
        node_with(nodes, nodes[n]) == n,
{
    let m = node_with(nodes, nodes[n]);
    assert(nodes.dom().contains(m) && nodes[m] == nodes[n]);
}

/// Adding a node that carries a new path adds a file without inclusions and
/// leaves the other files as they were.
#[verifier::rlimit(50)]
pub proof fn lemma_files_with_node(
    nodes: Map<int, Seq<char>>,
    edges: Map<int, EdgeRecord>,
    clock: int,
    id: int,
    path: Seq<char>,
)
    requires
        graph_wf(nodes, edges, clock),
        !nodes.dom().contains(id),
        0 <= id <= u32::MAX,
        !has_path(nodes, path),
        nodes.dom().len() < NODE_LIMIT,
    ensures
        graph_wf(nodes.insert(id, path), edges, clock),
        files_of(nodes.insert(id, path), edges) == files_of(nodes, edges).insert(
            path,
            Seq::empty(),
        ),
{
    let nodes2 = nodes.insert(id, path);
    assert forall|a: int, b: int|
        #[trigger] nodes2.dom().contains(a) && #[trigger] nodes2.dom().contains(b) && nodes2[a]
            == nodes2[b] implies a == b by {
        if a == id && b != id {
            assert(nodes.dom().contains(b) && nodes[b] == path);
        }
        if b == id && a != id {
            assert(nodes.dom().contains(a) && nodes[a] == path);
        }
    }
    let none = Seq::<int>::empty();
    assert(is_out_list(edges, id, none)) by {
        assert forall|e: int| #[trigger] edges.dom().contains(e) && edges[e].src == id implies exists|
            i: int,
        |
            0 <= i < none.len() && #[trigger] none[i] == e by {
            assert(nodes.dom().contains(edges[e].src));
        }
    }
    lemma_out_list_is(edges, id, none);
    assert(graph_wf(nodes2, edges, clock));
    let f1 = files_of(nodes2, edges);
    let f2 = files_of(nodes, edges).insert(path, Seq::empty());
    assert forall|p: Seq<char>| f1.dom().contains(p) <==> f2.dom().contains(p) by {
        if has_path(nodes2, p) {
            let n = choose|n: int| #[trigger] nodes2.dom().contains(n) && nodes2[n] == p;
            if n != id {
                assert(nodes.dom().contains(n) && nodes[n] == p);
            }
        }
        if has_path(nodes, p) {
            let n = choose|n: int| #[trigger] nodes.dom().contains(n) && nodes[n] == p;
            assert(nodes2.dom().contains(n) && nodes2[n] == p);
        }
        if p == path {
            assert(nodes2.dom().contains(id) && nodes2[id] == p);
        }
    }
    assert forall|p: Seq<char>| f1.dom().contains(p) implies #[trigger] f1[p] == f2[p] by {
        if p == path {
            lemma_node_with(nodes2, id);
            assert(f1[p] =~= Seq::<Inclusion>::empty());
        } else {
            let n = node_with(nodes, p);
            assert(has_path(nodes, p));
            assert(nodes.dom().contains(n) && nodes[n] == p);
            assert(nodes2.dom().contains(n));
            lemma_node_with(nodes2, n);
            let o = out_list(edges, n);
            assert(is_out_list(edges, n, o));
            assert(inclusions_of(nodes2, edges, o) =~= inclusions_of(nodes, edges, o)) by {
                assert forall|i: int| 0 <= i < o.len() implies inclusion_of(nodes2, edges[o[i]])
                    == inclusion_of(nodes, edges[o[i]]) by {
                    assert(edges.dom().contains(o[i]));
                    assert(nodes.dom().contains(edges[o[i]].dst));
                }
            }
        }
    }
    assert(f1 =~= f2);
}

/// What `through_line` counts.
pub proof fn lemma_through_line(list: Seq<Inclusion>, line: int)
    ensures
        0 <= through_line(list, line) <= list.len(),
        forall|i: int| 0 <= i < through_line(list, line) ==> (#[trigger] list[i]).line <= line,
        through_line(list, line) < list.len() ==> list[through_line(list, line)].line > line,
    decreases list.len(),
{
    if list.len() == 0 || list[0].line > line {
    } else {
        let t = list.drop_first();
        lemma_through_line(t, line);
        assert forall|i: int| 0 <= i < through_line(list, line) implies (#[trigger] list[i]).line
            <= line by {
            if i > 0 {
                assert(list[i] == t[i - 1]);
            }
        }
        let k = through_line(t, line);
        if k < t.len() {
            assert(list[k + 1] == t[k]);
        }
    }
}

/// An inclusion whose line lies behind every line of `list` is put at its end.
pub proof fn lemma_placed_last(list: Seq<Inclusion>, inc: Inclusion)
    requires
        forall|i: int| 0 <= i < list.len() ==> (#[trigger] list[i]).line <= inc.line,
    ensures
        placed(list, inc) == list.push(inc),
{
    lemma_through_line(list, inc.line);
    assert(list.insert(list.len() as int, inc) =~= list.push(inc));
}

/// Adding an edge puts its inclusion into the file that it leaves and leaves
/// the other files as they were.
#[verifier::rlimit(50)]
pub proof fn lemma_files_with_edge(
    nodes: Map<int, Seq<char>>,
    edges: Map<int, EdgeRecord>,
    clock: int,
    e: int,
    r: EdgeRecord,
)
    requires
        graph_wf(nodes, edges, clock),
        !edges.dom().contains(e),
        0 <= e <= u32::MAX,
        nodes.dom().contains(r.src),
        nodes.dom().contains(r.dst),
        r.order == clock,
        clock < CLOCK_LIMIT,
        edges.dom().len() < EDGE_LIMIT,
        0 <= r.line <= usize::MAX,
        0 <= r.start <= usize::MAX,
        0 <= r.end <= usize::MAX,
    ensures
        graph_wf(nodes, edges.insert(e, r), clock + 1),
        files_of(nodes, edges.insert(e, r)) == files_of(nodes, edges).insert(
            nodes[r.src],
            placed(files_of(nodes, edges)[nodes[r.src]], inclusion_of(nodes, r)),
        ),
{
    let edges2 = edges.insert(e, r);
    let a = r.src;
    let o = out_list(edges, a);
    assert(is_out_list(edges, a, o));
    let incs = inclusions_of(nodes, edges, o);
    let k = through_line(incs, r.line);
    lemma_through_line(incs, r.line);
    let c = o.insert(k, e);
    assert forall|i: int| k <= i < o.len() implies edges[#[trigger] o[i]].line > r.line by {
        assert(incs[k].line > r.line);
        assert(incs[k].line == edges[o[k]].line);
        if i > k {
            assert(key_before(edges[o[k]], edges[o[i]]));
        }
    }
    assert forall|i: int| 0 <= i < k implies edges[#[trigger] o[i]].line <= r.line by {
        assert(incs[i].line <= r.line);
    }
    assert(is_out_list(edges2, a, c)) by {
        assert forall|i: int| 0 <= i < c.len() implies edges2.dom().contains(#[trigger] c[i])
            && edges2[c[i]].src == a by {
            if i < k {
                assert(c[i] == o[i]);
            } else if i > k {
                assert(c[i] == o[i - 1]);
            }
        }
        assert forall|x: int| #[trigger] edges2.dom().contains(x) && edges2[x].src == a implies exists|
            i: int,
        |
            0 <= i < c.len() && #[trigger] c[i] == x by {
            if x == e {
                assert(c[k] == x);
            } else {
                assert(edges.dom().contains(x) && edges[x].src == a);
                let i = choose|i: int| 0 <= i < o.len() && #[trigger] o[i] == x;
                if i < k {
                    assert(c[i] == x);
                } else {
                    assert(c[i + 1] == x);
                }
            }
        }
        assert forall|i: int, j: int| 0 <= i < j < c.len() implies key_before(
            edges2[#[trigger] c[i]],
            edges2[#[trigger] c[j]],
        ) by {
            if i < k {
                assert(c[i] == o[i]);
                assert(edges.dom().contains(o[i]));
            } else if i > k {
                assert(c[i] == o[i - 1]);
                assert(edges.dom().contains(o[i - 1]));
            }
            if j < k {
                assert(c[j] == o[j]);
                assert(edges.dom().contains(o[j]));
            } else if j > k {
                assert(c[j] == o[j - 1]);
                assert(edges.dom().contains(o[j - 1]));
            }
            if i < k && j < k {
                assert(key_before(edges[o[i]], edges[o[j]]));
            } else if i > k && j > k {
                assert(key_before(edges[o[i - 1]], edges[o[j - 1]]));
            } else if i < k && j > k {
                assert(key_before(edges[o[i]], edges[o[j - 1]]));
            }
        }
    }
    lemma_out_list_is(edges2, a, c);
    assert forall|n: int| #[trigger] nodes.dom().contains(n) && n != a implies out_list(edges2, n)
        == out_list(edges, n) && is_out_list(edges2, n, out_list(edges2, n)) by {
        let on = out_list(edges, n);
        assert(is_out_list(edges, n, on));
        assert(is_out_list(edges2, n, on)) by {
            assert forall|i: int| 0 <= i < on.len() implies edges2.dom().contains(#[trigger] on[i])
                && edges2[on[i]].src == n by {
                assert(edges.dom().contains(on[i]));
            }
            assert forall|x: int| #[trigger]
                edges2.dom().contains(x) && edges2[x].src == n implies exists|i: int|
                0 <= i < on.len() && #[trigger] on[i] == x by {
                assert(edges.dom().contains(x) && edges[x].src == n);
            }
            assert forall|i: int, j: int| 0 <= i < j < on.len() implies key_before(
                edges2[#[trigger] on[i]],
                edges2[#[trigger] on[j]],
            ) by {
                assert(edges.dom().contains(on[i]) && edges.dom().contains(on[j]));
                assert(key_before(edges[on[i]], edges[on[j]]));
            }
        }
        lemma_out_list_is(edges2, n, on);
    }
    assert(graph_wf(nodes, edges2, clock + 1));
    let f1 = files_of(nodes, edges2);
    let f0 = files_of(nodes, edges);
    let f2 = f0.insert(nodes[a], placed(f0[nodes[a]], inclusion_of(nodes, r)));
    lemma_node_with(nodes, a);
    assert forall|p: Seq<char>| f1.dom().contains(p) implies #[trigger] f1[p] == f2[p] by {
        let n = node_with(nodes, p);
        assert(nodes.dom().contains(n) && nodes[n] == p);
        if p == nodes[a] {
            assert(n == a);
            assert(inclusions_of(nodes, edges2, c) =~= incs.insert(
                k,
                inclusion_of(nodes, r),
            )) by {
                assert forall|i: int| 0 <= i < c.len() implies inclusions_of(nodes, edges2, c)[i]
                    == incs.insert(k, inclusion_of(nodes, r))[i] by {
                    if i < k {
                        assert(c[i] == o[i]);
                        assert(edges.dom().contains(o[i]));
                    } else if i > k {
                        assert(c[i] == o[i - 1]);
                        assert(edges.dom().contains(o[i - 1]));
                    }
                }
            }
        } else {
            assert(n != a);
            let on = out_list(edges, n);
            assert(is_out_list(edges, n, on));
            assert(inclusions_of(nodes, edges2, on) =~= inclusions_of(nodes, edges, on)) by {
                assert forall|i: int| 0 <= i < on.len() implies edges2[on[i]] == edges[on[i]] by {
                    assert(edges.dom().contains(on[i]));
                }
            }
        }
    }
    assert(f1 =~= f2);
}

/// Removing the edges that leave a node leaves its file without inclusions
/// and the other files as they were.
#[verifier::rlimit(50)]
pub proof fn lemma_files_without_edges(
    nodes: Map<int, Seq<char>>,
    edges: Map<int, EdgeRecord>,
    clock: int,
    a: int,
    edges2: Map<int, EdgeRecord>,
)
    requires
        graph_wf(nodes, edges, clock),
        nodes.dom().contains(a),
        edges2.dom().finite(),
        edges2.dom().len() <= edges.dom().len(),
        forall|x: int|
            edges2.dom().contains(x) <==> edges.dom().contains(x) && edges[x].src != a,
        forall|x: int| edges2.dom().contains(x) ==> edges2[x] == edges[x],
    ensures
        graph_wf(nodes, edges2, clock),
        files_of(nodes, edges2) == files_of(nodes, edges).insert(nodes[a], Seq::empty()),
{
    let none = Seq::<int>::empty();
    assert(is_out_list(edges2, a, none));
    lemma_out_list_is(edges2, a, none);
    assert forall|n: int| #[trigger] nodes.dom().contains(n) && n != a implies out_list(edges2, n)
        == out_list(edges, n) && is_out_list(edges2, n, out_list(edges2, n)) by {
        let on = out_list(edges, n);
        assert(is_out_list(edges, n, on));
        assert(is_out_list(edges2, n, on)) by {
            assert forall|i: int| 0 <= i < on.len() implies edges2.dom().contains(#[trigger] on[i])
                && edges2[on[i]].src == n by {
                assert(edges.dom().contains(on[i]) && edges[on[i]].src == n);
            }
            assert forall|x: int| #[trigger]
                edges2.dom().contains(x) && edges2[x].src == n implies exists|i: int|
                0 <= i < on.len() && #[trigger] on[i] == x by {
                assert(edges.dom().contains(x) && edges[x].src == n);
            }
            assert forall|i: int, j: int| 0 <= i < j < on.len() implies key_before(
                edges2[#[trigger] on[i]],
                edges2[#[trigger] on[j]],
            ) by {
                assert(edges.dom().contains(on[i]) && edges[on[i]].src == n);
                assert(edges.dom().contains(on[j]) && edges[on[j]].src == n);
                assert(key_before(edges[on[i]], edges[on[j]]));
            }
        }
        lemma_out_list_is(edges2, n, on);
    }
    assert(graph_wf(nodes, edges2, clock));
    let f1 = files_of(nodes, edges2);
    let f2 = files_of(nodes, edges).insert(nodes[a], Seq::empty());
    lemma_node_with(nodes, a);
    assert forall|p: Seq<char>| f1.dom().contains(p) implies #[trigger] f1[p] == f2[p] by {
        let n = node_with(nodes, p);
        assert(nodes.dom().contains(n) && nodes[n] == p);
        if p == nodes[a] {
            assert(n == a);
            assert(f1[p] =~= Seq::<Inclusion>::empty());
        } else {
            let on = out_list(edges, n);
            assert(is_out_list(edges, n, on));
            assert(inclusions_of(nodes, edges2, on) =~= inclusions_of(nodes, edges, on)) by {
                assert forall|i: int| 0 <= i < on.len() implies edges2[on[i]] == edges[on[i]] by {
                    assert(edges.dom().contains(on[i]) && edges[on[i]].src == n);
                }
            }
        }
    }
    assert(f1 =~= f2);
}

/// `edges` without the first `i` edges of `ids`.
pub open spec fn without_edges(edges: Map<int, EdgeRecord>, ids: Seq<int>, i: int) -> Map<
    int,
    EdgeRecord,
>
    decreases i,
{
    if i <= 0 {
        edges
    } else {
        without_edges(edges, ids, i - 1).remove(ids[i - 1])
    }
}

/// What is left of the edges when the first `i` edges of `ids` are removed.
pub proof fn lemma_without_edges(
    edges: Map<int, EdgeRecord>,
    ids: Seq<int>,
    i: int,
    left: Map<int, EdgeRecord>,
)
    requires
        0 <= i <= ids.len(),
        edges.dom().finite(),
        forall|a: int| 0 <= a < ids.len() ==> edges.dom().contains(#[trigger] ids[a]),
        forall|a: int, b: int| 0 <= a < b < ids.len() ==> ids[a] != ids[b],
        left == without_edges(edges, ids, i),
    ensures
        left.dom().finite(),
        left.dom().len() == edges.dom().len() - i,
        forall|x: int| #[trigger] left.dom().contains(x) ==> edges.dom().contains(x) && left[x] == edges[x],
        forall|a: int| 0 <= a < i ==> !left.dom().contains(#[trigger] ids[a]),
        forall|a: int| i <= a < ids.len() ==> left.dom().contains(#[trigger] ids[a]),
        forall|x: int|
            edges.dom().contains(x) && !(#[trigger] left.dom().contains(x)) ==> exists|a: int|
                0 <= a < i && #[trigger] ids[a] == x,
    decreases i,
{
    if i > 0 {
        let prev = without_edges(edges, ids, i - 1);
        lemma_without_edges(edges, ids, i - 1, prev);
        assert(left == prev.remove(ids[i - 1]));
        assert(prev.dom().contains(ids[i - 1]));
        assert forall|x: int| #[trigger] left.dom().contains(x) implies edges.dom().contains(x)
            && left[x] == edges[x] by {
            assert(prev.dom().contains(x));
        }
        assert forall|a: int| 0 <= a < i implies !left.dom().contains(#[trigger] ids[a]) by {
            if a < i - 1 {
                assert(!prev.dom().contains(ids[a]));
            }
        }
        assert forall|a: int| i <= a < ids.len() implies left.dom().contains(#[trigger] ids[a]) by {
            assert(prev.dom().contains(ids[a]));
            assert(ids[i - 1] != ids[a]);
        }
        assert forall|x: int|
            edges.dom().contains(x) && !(#[trigger] left.dom().contains(x)) implies exists|a: int|
            0 <= a < i && #[trigger] ids[a] == x by {
            if x == ids[i - 1] {
            } else {
                assert(!prev.dom().contains(x));
                let a = choose|a: int| 0 <= a < i - 1 && #[trigger] ids[a] == x;
                assert(ids[a] == x);
            }
        }
    }
}

/// Removing a node that no edge leaves or enters removes its file and leaves
/// the other files as they were.
pub proof fn lemma_files_without_node(
    nodes: Map<int, Seq<char>>,
    edges: Map<int, EdgeRecord>,
    clock: int,
    a: int,
)
    requires
        graph_wf(nodes, edges, clock),
        nodes.dom().contains(a),
        forall|x: int| #[trigger] edges.dom().contains(x) ==> edges[x].src != a && edges[x].dst != a,
    ensures
        graph_wf(nodes.remove(a), edges, clock),
        files_of(nodes.remove(a), edges) == files_of(nodes, edges).remove(nodes[a]),
{
    let nodes2 = nodes.remove(a);
    assert(graph_wf(nodes2, edges, clock));
    let f1 = files_of(nodes2, edges);
    let f2 = files_of(nodes, edges).remove(nodes[a]);
    assert forall|p: Seq<char>| f1.dom().contains(p) <==> f2.dom().contains(p) by {
        if has_path(nodes2, p) {
            let n = choose|n: int| #[trigger] nodes2.dom().contains(n) && nodes2[n] == p;
            assert(nodes.dom().contains(n) && nodes[n] == p);
        }
        if has_path(nodes, p) && p != nodes[a] {
            let n = choose|n: int| #[trigger] nodes.dom().contains(n) && nodes[n] == p;
            assert(nodes2.dom().contains(n) && nodes2[n] == p);
        }
    }
    assert forall|p: Seq<char>| f1.dom().contains(p) implies #[trigger] f1[p] == f2[p] by {
        let n = node_with(nodes2, p);
        assert(nodes2.dom().contains(n) && nodes2[n] == p);
        lemma_node_with(nodes, n);
        let o = out_list(edges, n);
        assert(is_out_list(edges, n, o));
        assert(inclusions_of(nodes2, edges, o) =~= inclusions_of(nodes, edges, o)) by {
            assert forall|i: int| 0 <= i < o.len() implies inclusion_of(nodes2, edges[o[i]])
                == inclusion_of(nodes, edges[o[i]]) by {
                assert(edges.dom().contains(o[i]));
            }
        }
    }
    assert(f1 =~= f2);
}

/// A file is named in an inclusion just where an edge enters its node.
pub proof fn lemma_included_iff_entered(
    nodes: Map<int, Seq<char>>,
    edges: Map<int, EdgeRecord>,
    clock: int,
    a: int,
)
    requires
        graph_wf(nodes, edges, clock),
        nodes.dom().contains(a),
    ensures
        is_named(files_of(nodes, edges), nodes[a]) <==> (exists|x: int| #[trigger]
            edges.dom().contains(x) && edges[x].dst == a),
{
    let files = files_of(nodes, edges);
    if exists|x: int| #[trigger] edges.dom().contains(x) && edges[x].dst == a {
        let x = choose|x: int| #[trigger] edges.dom().contains(x) && edges[x].dst == a;
        let n = edges[x].src;
        assert(nodes.dom().contains(n));
        lemma_node_with(nodes, n);
        let o = out_list(edges, n);
        assert(is_out_list(edges, n, o));
        let i = choose|i: int| 0 <= i < o.len() && #[trigger] o[i] == x;
        assert(files.contains_key(nodes[n]));
        assert(files[nodes[n]][i].target == nodes[a]);
    }
    if exists|p: Seq<char>, i: int|
        files.contains_key(p) && 0 <= i < files[p].len() && (#[trigger] files[p][i]).target
            == nodes[a] {
        let (p, i) = choose|p: Seq<char>, i: int|
            files.contains_key(p) && 0 <= i < files[p].len() && (#[trigger] files[p][i]).target
                == nodes[a];
        let n = node_with(nodes, p);
        assert(nodes.dom().contains(n) && nodes[n] == p);
        let o = out_list(edges, n);
        assert(is_out_list(edges, n, o));
        let x = o[i];
        assert(edges.dom().contains(x));
        assert(nodes.dom().contains(edges[x].dst));
        assert(edges[x].dst == a);
    }
}

/// The indices of a list of edges.
pub open spec fn edge_ids(s: Seq<(u32, u32, EdgeWeight)>) -> Seq<int> {
    Seq::new(s.len(), |i: int| s[i].0 as int)
}

/// An inclusion held as line, first column, column of the closing quote and
/// path, as the contracts see it.
pub open spec fn entry_view(e: (usize, usize, usize, String)) -> Inclusion {
    Inclusion { line: e.0 as int, start: e.1 as int, end: e.2 as int, target: e.3@ }
}

/// A list of inclusions as the contracts see it.
pub open spec fn entries_view(s: Seq<(usize, usize, usize, String)>) -> Seq<Inclusion> {
    Seq::new(s.len(), |i: int| entry_view(s[i]))
}

/// The position of an inclusion.
pub open spec fn position_of(inc: Inclusion) -> IncludePosition {
    IncludePosition { line: inc.line as usize, start: inc.start as usize, end: inc.end as usize }
}

/// The positions of the inclusions of `list` that name `target`, in order.
pub open spec fn positions_to(list: Seq<Inclusion>, target: Seq<char>) -> Seq<IncludePosition>
    decreases list.len(),
{
    if list.len() == 0 {
        Seq::empty()
    } else {
        let rest = positions_to(list.drop_last(), target);
        if list.last().target == target {
            rest.push(position_of(list.last()))
        } else {
            rest
        }
    }
}

/// The paths that the inclusions of `list` name, each once, in the order in
/// which they are named first.
pub open spec fn distinct_targets(list: Seq<Inclusion>) -> Seq<Seq<char>>
    decreases list.len(),
{
    if list.len() == 0 {
        Seq::empty()
    } else {
        let rest = distinct_targets(list.drop_last());
        if rest.contains(list.last().target) {
            rest
        } else {
            rest.push(list.last().target)
        }
    }
}

/// Whether an edge that carries `a` is worked through before one of the same
/// file that carries `b`.
pub open spec fn weight_key_before(a: EdgeWeight, b: EdgeWeight) -> bool {
    a.0 < b.0 || (a.0 == b.0 && a.3 < b.3)
}

/// Whether an edge that carries `a` is worked through before one that
/// carries `b`.
fn weight_before(a: EdgeWeight, b: EdgeWeight) -> (r: bool)
    ensures
        r == weight_key_before(a, b),
{
    a.0 < b.0 || (a.0 == b.0 && a.3 < b.3)
}

/// `v` with `x` put before the first edge that `x` is not behind.
fn insert_edge(v: &mut Vec<(u32, u32, EdgeWeight)>, x: (u32, u32, EdgeWeight)) -> (j: usize)
    requires
        forall|a: int, b: int|
            0 <= a < b < old(v)@.len() ==> weight_key_before(
                (#[trigger] old(v)@[a]).2,
                (#[trigger] old(v)@[b]).2,
            ),
        forall|a: int| 0 <= a < old(v)@.len() ==> (#[trigger] old(v)@[a]).2.3 != x.2.3,
    ensures
        forall|a: int, b: int|
            0 <= a < b < final(v)@.len() ==> weight_key_before(
                (#[trigger] final(v)@[a]).2,
                (#[trigger] final(v)@[b]).2,
            ),
        j <= old(v)@.len(),
        final(v)@ == old(v)@.insert(j as int, x),
{
    let mut j: usize = 0;
    while j < v.len() && weight_before(v[j].2, x.2)
        invariant
            j <= v.len(),
            v@ == old(v)@,
            forall|a: int| 0 <= a < j ==> weight_key_before((#[trigger] v@[a]).2, x.2),
        decreases v.len() - j,
    {
        j = j + 1;
    }
    let ghost before = v@;
    proof {
        assert forall|b: int| j <= b < before.len() implies weight_key_before(
            x.2,
            (#[trigger] before[b]).2,
        ) by {
            assert(before[j as int].2.3 != x.2.3);
            assert(!weight_key_before(before[j as int].2, x.2));
            if b > j {
                assert(weight_key_before(before[j as int].2, before[b].2));
            }
        }
    }
    v.insert(j, x);
    proof {
        assert(v@ == before.insert(j as int, x));
        assert forall|a: int, b: int| 0 <= a < b < v@.len() implies weight_key_before(
            (#[trigger] v@[a]).2,
            (#[trigger] v@[b]).2,
        ) by {
            if a < j {
                assert(v@[a] == before[a]);
            } else if a > j {
                assert(v@[a] == before[a - 1]);
            }
            if b < j {
                assert(v@[b] == before[b]);
            } else if b > j {
                assert(v@[b] == before[b - 1]);
            }
        }
    }
    j
}

/// The edges of `raw` in working order, with the place in `raw` that each
/// comes from and the place that each edge of `raw` went to.
#[verifier::rlimit(50)]
fn sort_edges(raw: &Vec<(u32, u32, EdgeWeight)>) -> (r: (
    Vec<(u32, u32, EdgeWeight)>,
    Ghost<Seq<int>>,
    Ghost<Seq<int>>,
))
    requires
        forall|i: int, j: int|
            0 <= i < j < raw@.len() ==> (#[trigger] raw@[i]).2.3 != (#[trigger] raw@[j]).2.3,
    ensures
        forall|a: int, b: int|
            0 <= a < b < r.0@.len() ==> weight_key_before(
                (#[trigger] r.0@[a]).2,
                (#[trigger] r.0@[b]).2,
            ),
        r.1@.len() == r.0@.len(),
        forall|a: int|
            0 <= a < r.0@.len() ==> 0 <= #[trigger] r.1@[a] < raw@.len() && r.0@[a] == raw@[r.1@[a]],
        r.2@.len() == raw@.len(),
        forall|k: int|
            0 <= k < raw@.len() ==> 0 <= #[trigger] r.2@[k] < r.0@.len() && r.0@[r.2@[k]] == raw@[k],
{
    let mut v: Vec<(u32, u32, EdgeWeight)> = Vec::new();
    let ghost mut from: Seq<int> = Seq::empty();
    let ghost mut to: Seq<int> = Seq::empty();
    let mut i: usize = 0;
    while i < raw.len()
        invariant
            i <= raw.len(),
            forall|i: int, j: int|
                0 <= i < j < raw@.len() ==> (#[trigger] raw@[i]).2.3 != (#[trigger] raw@[j]).2.3,
            forall|a: int, b: int|
                0 <= a < b < v@.len() ==> weight_key_before(
                    (#[trigger] v@[a]).2,
                    (#[trigger] v@[b]).2,
                ),
            from.len() == v@.len(),
            forall|a: int| 0 <= a < v@.len() ==> 0 <= #[trigger] from[a] < i && v@[a] == raw@[from[a]],
            to.len() == i,
            forall|k: int| 0 <= k < i ==> 0 <= #[trigger] to[k] < v@.len() && v@[to[k]] == raw@[k],
        decreases raw.len() - i,
    {
        let x = raw[i];
        let ghost before = v@;
        proof {
            assert forall|a: int| 0 <= a < before.len() implies (#[trigger] before[a]).2.3
                != x.2.3 by {
                assert(raw@[from[a]].2.3 != raw@[i as int].2.3);
            }
        }
        let j = insert_edge(&mut v, x);
        proof {
            let from0 = from;
            let to0 = to;
            from = from0.insert(j as int, i as int);
            to = Seq::new(
                i as nat,
                |k: int|
                    if to0[k] >= j {
                        to0[k] + 1
                    } else {
                        to0[k]
                    },
            ).push(j as int);
            assert forall|a: int| 0 <= a < v@.len() implies 0 <= #[trigger] from[a] < i + 1
                && v@[a] == raw@[from[a]] by {
                if a < j {
                    assert(v@[a] == before[a]);
                    assert(from[a] == from0[a]);
                } else if a > j {
                    assert(v@[a] == before[a - 1]);
                    assert(from[a] == from0[a - 1]);
                }
            }
            assert forall|k: int| 0 <= k < i + 1 implies 0 <= #[trigger] to[k] < v@.len()
                && v@[to[k]] == raw@[k] by {
                if k < i {
                    if to0[k] >= j {
                        assert(v@[to0[k] + 1] == before[to0[k]]);
                    } else {
                        assert(v@[to0[k]] == before[to0[k]]);
                    }
                }
            }
        }
        i = i + 1;
    }
    (v, Ghost(from), Ghost(to))
}

/// The files and their inclusions, held in a graph that keeps the index of
/// a node while the node lives, with a cache that finds a node by its path.
pub struct CachedStableGraph {
    graph: FileGraph,
    cache: StringHashMap<u32>,
    readable: StringHashMap<bool>,
    clock: u64,
    node_limit: usize,
    edge_limit: usize,
}

impl View for CachedStableGraph {
    type V = GraphView;

    closed spec fn view(&self) -> GraphView {
        GraphView {
            files: files_of(graph_nodes(self.graph), graph_edges(self.graph)),
            nodes: graph_nodes(self.graph).dom().len(),
            edges: graph_edges(self.graph).dom().len(),
            clock: self.clock as nat,
            present: Set::new(|p: Seq<char>| self.readable@.contains_key(p) && self.readable@[p]),
            node_limit: self.node_limit as nat,
            edge_limit: self.edge_limit as nat,
        }
    }
}

impl CachedStableGraph {
    /// The path that each node carries.
    pub closed spec fn nodes(&self) -> Map<int, Seq<char>> {
        graph_nodes(self.graph)
    }

    /// Whether `id` is a node.
    pub open spec fn has_node(&self, id: u32) -> bool {
        self.nodes().dom().contains(id as int)
    }

    /// The path that node `id` carries.
    pub open spec fn path_of(&self, id: u32) -> Seq<char> {
        self.nodes()[id as int]
    }

    /// What holds of every graph: no two nodes carry one path, every edge
    /// joins two nodes, and the cache names no node wrongly.
    pub closed spec fn wf(&self) -> bool {
        &&& graph_wf(graph_nodes(self.graph), graph_edges(self.graph), self.clock as int)
        &&& forall|p: Seq<char>| #[trigger]
            self.cache@.contains_key(p) ==> graph_nodes(self.graph).dom().contains(
                self.cache@[p] as int,
            ) && graph_nodes(self.graph)[self.cache@[p] as int] == p
        &&& forall|p: Seq<char>| #[trigger]
            self.readable@.contains_key(p) ==> has_path(graph_nodes(self.graph), p)
        &&& self.node_limit <= NODE_LIMIT
        &&& self.edge_limit <= EDGE_LIMIT
    }

    /// A node is a file, and a file a node.
    pub proof fn lemma_nodes_are_files(&self)
        requires
            self.wf(),
        ensures
            forall|id: u32| #[trigger]
                self.has_node(id) ==> self@.files.contains_key(self.path_of(id)),
            forall|p: Seq<char>| #[trigger]
                self@.files.contains_key(p) ==> exists|id: u32|
                    self.has_node(id) && self.path_of(id) == p,
            forall|a: u32, b: u32|
                self.has_node(a) && self.has_node(b) && self.path_of(a) == self.path_of(b) ==> a
                    == b,
            forall|p: Seq<char>| #[trigger]
                self@.present.contains(p) ==> self@.files.contains_key(p),
            self@.nodes <= NODE_LIMIT,
            self@.edges <= EDGE_LIMIT,
            self@.clock <= CLOCK_LIMIT,
            self@.node_limit <= NODE_LIMIT,
            self@.edge_limit <= EDGE_LIMIT,
    {
        let nodes = graph_nodes(self.graph);
        assert forall|p: Seq<char>| #[trigger] self@.files.contains_key(p) implies exists|id: u32|
            self.has_node(id) && self.path_of(id) == p by {
            let n = choose|n: int| #[trigger] nodes.dom().contains(n) && nodes[n] == p;
            assert(self.has_node(n as u32) && self.path_of(n as u32) == p);
        }
    }

    /// The inclusions of a file stand in working order: a later one is not
    /// on an earlier line.
    pub proof fn lemma_working_order(&self, path: Seq<char>)
        requires
            self.wf(),
            self@.files.contains_key(path),
        ensures
            forall|i: int, j: int|
                0 <= i < j < self@.files[path].len() ==> (#[trigger] self@.files[path][i]).line <= (
                #[trigger] self@.files[path][j]).line,
    {
        let nodes = graph_nodes(self.graph);
        let edges = graph_edges(self.graph);
        let n = node_with(nodes, path);
        assert(nodes.dom().contains(n) && nodes[n] == path);
        let o = out_list(edges, n);
        assert(is_out_list(edges, n, o));
        assert forall|i: int, j: int| 0 <= i < j < self@.files[path].len() implies (
        #[trigger] self@.files[path][i]).line <= (#[trigger] self@.files[path][j]).line by {
            assert(key_before(edges[o[i]], edges[o[j]]));
        }
    }

    /// A graph without files, which takes as many files and inclusions as
    /// any graph.
    pub fn new() -> (g: CachedStableGraph)
        ensures
            g.wf(),
            g@.files == Map::<Seq<char>, Seq<Inclusion>>::empty(),
            g@.nodes == 0,
            g@.edges == 0,
            g@.clock == 0,
            g@.present == Set::<Seq<char>>::empty(),
            g@.node_limit == NODE_LIMIT,
            g@.edge_limit == EDGE_LIMIT,
    {
        CachedStableGraph::with_limits(NODE_LIMIT, EDGE_LIMIT)
    }

    /// A graph without files, which takes `node_limit` files and
    /// `edge_limit` inclusions, or as many as any graph where that is less.
    pub fn with_limits(node_limit: usize, edge_limit: usize) -> (g: CachedStableGraph)
        ensures
            g.wf(),
            g@.files == Map::<Seq<char>, Seq<Inclusion>>::empty(),
            g@.nodes == 0,
            g@.edges == 0,
            g@.clock == 0,
            g@.present == Set::<Seq<char>>::empty(),
            g@.node_limit == if node_limit <= NODE_LIMIT {
                node_limit
            } else {
                NODE_LIMIT
            },
            g@.edge_limit == if edge_limit <= EDGE_LIMIT {
                edge_limit
            } else {
                EDGE_LIMIT
            },
    {
        let g = CachedStableGraph {
            graph: graph_new(),
            cache: StringHashMap::new(),
            readable: StringHashMap::new(),
            clock: 0,
            node_limit: if node_limit <= NODE_LIMIT {
                node_limit
            } else {
                NODE_LIMIT
            },
            edge_limit: if edge_limit <= EDGE_LIMIT {
                edge_limit
            } else {
                EDGE_LIMIT
            },
        };
        assert(g@.files =~= Map::<Seq<char>, Seq<Inclusion>>::empty());
        assert(g@.present =~= Set::<Seq<char>>::empty());
        g
    }

    /// Number of files.
    pub fn node_count(&self) -> (n: usize)
        ensures
            n == self@.nodes,
    {
        let n = graph_node_count(&self.graph);
        n
    }

    /// Number of inclusions.
    pub fn edge_count(&self) -> (n: usize)
        ensures
            n == self@.edges,
    {
        let n = graph_edge_count(&self.graph);
        n
    }

    /// Whether one more file can be added.
    pub fn has_node_room(&self) -> (r: bool)
        ensures
            r == has_node_room(self@),
    {
        self.node_count() < self.node_limit
    }

    /// Whether one more inclusion can be added.
    pub fn has_edge_room(&self) -> (r: bool)
        ensures
            r == has_edge_room(self@),
    {
        self.edge_count() < self.edge_limit && self.clock < CLOCK_LIMIT
    }

    /// The node that carries the path `name`, where there is one: from the
    /// cache where it holds the path, else from a search through all nodes.
    pub fn node_of(&self, name: &str) -> (r: Option<u32>)
        requires
            self.wf(),
        ensures
            match r {
                Some(id) => self.has_node(id) && self.path_of(id) == name@,
                None => !self@.files.contains_key(name@),
            },
    {
        match self.cache.get(name) {
            Some(id) => {
                return Some(*id);
            },
            None => {},
        }
        let ids = graph_node_indices(&self.graph);
        let owned = name.to_owned();
        let mut i: usize = 0;
        while i < ids.len()
            invariant
                i <= ids.len(),
                owned@ == name@,
                forall|id: u32|
                    ids@.contains(id) <==> graph_nodes(self.graph).dom().contains(id as int),
                forall|j: int| 0 <= j < i ==> graph_nodes(self.graph)[ids@[j] as int] != name@,
            decreases ids.len() - i,
        {
            let id = ids[i];
            assert(ids@.contains(id));
            match graph_node_weight(&self.graph, id) {
                Some(w) => {
                    if *w == owned {
                        return Some(id);
                    }
                },
                None => {},
            }
            i = i + 1;
        }
        proof {
            let nodes = graph_nodes(self.graph);
            if has_path(nodes, name@) {
                let n = choose|n: int| #[trigger] nodes.dom().contains(n) && nodes[n] == name@;
                assert(ids@.contains(n as u32));
                let j = choose|j: int| 0 <= j < ids@.len() && ids@[j] == n as u32;
                assert(nodes[ids@[j] as int] != name@);
            }
        }
        None
    }

    /// The node that carries the path `name`, where there is one. The cache
    /// holds the path afterwards.
    pub fn find_node(&mut self, name: &str) -> (r: Option<u32>)
        requires
            old(self).wf(),
        ensures
            final(self).wf(),
            final(self)@ == old(self)@,
            final(self).nodes() == old(self).nodes(),
            match r {
                Some(id) => final(self).has_node(id) && final(self).path_of(id) == name@,
                None => !old(self)@.files.contains_key(name@),
            },
    {
        match self.node_of(name) {
            Some(id) => {
                self.cache.insert(name.to_owned(), id);
                Some(id)
            },
            None => None,
        }
    }

    /// The path of the file that node `node` stands for.
    pub fn get_node(&self, node: u32) -> (path: String)
        requires
            self.wf(),
            self.has_node(node),
        ensures
            path@ == self.path_of(node),
    {
        match graph_node_weight(&self.graph, node) {
            Some(w) => w.clone(),
            None => String::new(),
        }
    }

    /// The node of the file `name`, which is added without inclusions where
    /// the graph has no such file.
    pub fn add_node(&mut self, name: &str) -> (id: u32)
        requires
            old(self).wf(),
            old(self)@.files.contains_key(name@) || has_node_room(old(self)@),
        ensures
            final(self).wf(),
            final(self)@ == with_file(old(self)@, name@),
            final(self).has_node(id),
            final(self).path_of(id) == name@,
            forall|n: u32| #[trigger]
                old(self).has_node(n) ==> final(self).has_node(n) && final(self).path_of(n)
                    == old(self).path_of(n),
            forall|n: u32| #[trigger]
                final(self).has_node(n) ==> old(self).has_node(n) || n == id,
    {
        match self.find_node(name) {
            Some(id) => {
                proof {
                    self.lemma_nodes_are_files();
                }
                return id;
            },
            None => {},
        }
        let ghost nodes = graph_nodes(self.graph);
        let ghost edges = graph_edges(self.graph);
        let id = graph_add_node(&mut self.graph, name.to_owned());
        proof {
            lemma_files_with_node(nodes, edges, self.clock as int, id as int, name@);
            let nodes2 = graph_nodes(self.graph);
            assert forall|p: Seq<char>| #[trigger] self.readable@.contains_key(p) implies has_path(
                nodes2,
                p,
            ) by {
                let n = choose|n: int| #[trigger] nodes.dom().contains(n) && nodes[n] == p;
                assert(nodes2.dom().contains(n) && nodes2[n] == p);
            }
        }
        self.cache.insert(name.to_owned(), id);
        id
    }
    /// The edges that leave `node`, in working order.
    #[verifier::rlimit(50)]
    fn sorted_edges(&self, node: u32) -> (v: Vec<(u32, u32, EdgeWeight)>)
        requires
            self.wf(),
            self.has_node(node),
        ensures
            edge_ids(v@) == out_list(graph_edges(self.graph), node as int),
            forall|i: int|
                0 <= i < v@.len() ==> graph_edges(self.graph).dom().contains(
                    (#[trigger] v@[i]).0 as int,
                ) && graph_edges(self.graph)[v@[i].0 as int] == record(
                    node as int,
                    v@[i].1 as int,
                    v@[i].2,
                ),
    {
        let raw = graph_edges_from(&self.graph, node);
        let ghost edges = graph_edges(self.graph);
        proof {
            assert forall|i: int, j: int| 0 <= i < j < raw@.len() implies (#[trigger] raw@[i]).2.3
                != (#[trigger] raw@[j]).2.3 by {
                assert(edges.dom().contains(raw@[i].0 as int));
                assert(edges.dom().contains(raw@[j].0 as int));
                assert(raw@[i].0 != raw@[j].0);
            }
        }
        let (v, Ghost(from), Ghost(to)) = sort_edges(&raw);
        proof {
            let ids = edge_ids(v@);
            assert forall|a: int| 0 <= a < v@.len() implies edges.dom().contains(
                (#[trigger] v@[a]).0 as int,
            ) && edges[v@[a].0 as int] == record(node as int, v@[a].1 as int, v@[a].2) by {
                let k = from[a];
                assert(edges.dom().contains(raw@[k].0 as int));
            }
            assert(is_out_list(edges, node as int, ids)) by {
                assert forall|a: int| 0 <= a < ids.len() implies edges.dom().contains(
                    #[trigger] ids[a],
                ) && edges[ids[a]].src == node as int by {
                    assert(edges.dom().contains(v@[a].0 as int));
                }
                assert forall|e: int| #[trigger]
                    edges.dom().contains(e) && edges[e].src == node as int implies exists|a: int|
                    0 <= a < ids.len() && #[trigger] ids[a] == e by {
                    let k = choose|k: int| 0 <= k < raw@.len() && #[trigger] raw@[k].0 as int == e;
                    let a = to[k];
                    assert(ids[a] == e);
                }
                assert forall|a: int, b: int| 0 <= a < b < ids.len() implies key_before(
                    edges[#[trigger] ids[a]],
                    edges[#[trigger] ids[b]],
                ) by {
                    assert(edges.dom().contains(v@[a].0 as int));
                    assert(edges.dom().contains(v@[b].0 as int));
                    assert(weight_key_before(v@[a].2, v@[b].2));
                }
            }
            lemma_out_list_is(edges, node as int, ids);
        }
        v
    }

    /// Adds the inclusion of `child` at `meta` to the file `parent`.
    pub fn add_edge(&mut self, parent: u32, child: u32, meta: IncludePosition)
        requires
            old(self).wf(),
            old(self).has_node(parent),
            old(self).has_node(child),
            has_edge_room(old(self)@),
        ensures
            final(self).wf(),
            final(self).nodes() == old(self).nodes(),
            final(self)@ == with_inclusion(
                old(self)@,
                old(self).path_of(parent),
                Inclusion {
                    line: meta.line as int,
                    start: meta.start as int,
                    end: meta.end as int,
                    target: old(self).path_of(child),
                },
            ),
    {
        let ghost nodes = graph_nodes(self.graph);
        let ghost edges = graph_edges(self.graph);
        let stamp = self.clock;
        let w: EdgeWeight = (meta.line, meta.start, meta.end, stamp);
        let e = graph_add_edge(&mut self.graph, parent, child, w);
        self.clock = stamp + 1;
        proof {
            lemma_files_with_edge(
                nodes,
                edges,
                stamp as int,
                e as int,
                record(parent as int, child as int, w),
            );
            lemma_node_with(nodes, parent as int);
        }
    }

    /// The inclusions of the file `node`, in working order.
    #[verifier::loop_isolation(false)]
    pub fn including_files(&self, node: u32) -> (list: Vec<(usize, usize, usize, String)>)
        requires
            self.wf(),
            self.has_node(node),
        ensures
            entries_view(list@) == self@.files[self.path_of(node)],
    {
        let sorted = self.sorted_edges(node);
        let ghost nodes = graph_nodes(self.graph);
        let ghost edges = graph_edges(self.graph);
        let ghost o = out_list(edges, node as int);
        let mut list: Vec<(usize, usize, usize, String)> = Vec::new();
        let mut i: usize = 0;
        while i < sorted.len()
            invariant
                i <= sorted.len(),
                list@.len() == i,
                forall|k: int|
                    0 <= k < i ==> entry_view(#[trigger] list@[k]) == inclusion_of(
                        nodes,
                        edges[o[k]],
                    ),
            decreases sorted.len() - i,
        {
            let (e, target, w) = sorted[i];
            assert(edge_ids(sorted@)[i as int] == o[i as int]);
            assert(edges.dom().contains(sorted@[i as int].0 as int));
            let path = self.get_node(target);
            list.push((w.0, w.1, w.2, path));
            i = i + 1;
        }
        proof {
            lemma_node_with(nodes, node as int);
            assert(edge_ids(sorted@).len() == o.len());
            assert(entries_view(list@) =~= inclusions_of(nodes, edges, o));
        }
        list
    }

    /// Where the file `parent` names the file `child`, in working order.
    #[verifier::loop_isolation(false)]
    pub fn get_child_positions(&self, parent: u32, child: u32) -> (list: Vec<IncludePosition>)
        requires
            self.wf(),
            self.has_node(parent),
            self.has_node(child),
        ensures
            list@ == positions_to(self@.files[self.path_of(parent)], self.path_of(child)),
    {
        let sorted = self.sorted_edges(parent);
        let ghost nodes = graph_nodes(self.graph);
        let ghost edges = graph_edges(self.graph);
        let ghost o = out_list(edges, parent as int);
        let ghost incs = inclusions_of(nodes, edges, o);
        let mut list: Vec<IncludePosition> = Vec::new();
        let mut i: usize = 0;
        assert(edge_ids(sorted@).len() == o.len());
        while i < sorted.len()
            invariant
                i <= sorted.len(),
                list@ == positions_to(incs.take(i as int), nodes[child as int]),
            decreases sorted.len() - i,
        {
            let (e, target, w) = sorted[i];
            proof {
                assert(edge_ids(sorted@)[i as int] == o[i as int]);
                assert(edges.dom().contains(sorted@[i as int].0 as int));
                let t = incs.take(i + 1);
                assert(t.drop_last() =~= incs.take(i as int));
                assert(t.last() == incs[i as int]);
                assert(nodes.dom().contains(target as int));
            }
            if target == child {
                list.push(IncludePosition { line: w.0, start: w.1, end: w.2 });
            }
            i = i + 1;
        }
        proof {
            lemma_node_with(nodes, parent as int);
            assert(incs.take(sorted.len() as int) =~= incs);
        }
        list
    }
    /// Removes every inclusion of the file `node`.
    pub fn clear_edges(&mut self, node: u32)
        requires
            old(self).wf(),
            old(self).has_node(node),
        ensures
            final(self).wf(),
            final(self).nodes() == old(self).nodes(),
            final(self)@ == without_inclusions(old(self)@, old(self).path_of(node)),
    {
        let sorted = self.sorted_edges(node);
        let ghost nodes = graph_nodes(self.graph);
        let ghost edges = graph_edges(self.graph);
        let ghost ids = edge_ids(sorted@);
        proof {
            assert(is_out_list(edges, node as int, ids));
            assert forall|a: int, b: int| 0 <= a < b < ids.len() implies ids[a] != ids[b] by {
                assert(key_before(edges[ids[a]], edges[ids[b]]));
            }
        }
        let mut i: usize = 0;
        while i < sorted.len()
            invariant
                i <= sorted.len(),
                ids == edge_ids(sorted@),
                graph_nodes(self.graph) == nodes,
                self.cache == old(self).cache,
                self.readable == old(self).readable,
                self.clock == old(self).clock,
                self.node_limit == old(self).node_limit,
                self.edge_limit == old(self).edge_limit,
                graph_edges(self.graph) == without_edges(edges, ids, i as int),
            decreases sorted.len() - i,
        {
            assert(ids[i as int] == sorted@[i as int].0 as int);
            graph_remove_edge(&mut self.graph, sorted[i].0);
            i = i + 1;
        }
        proof {
            let edges2 = graph_edges(self.graph);
            lemma_without_edges(edges, ids, ids.len() as int, edges2);
            assert forall|x: int|
                edges2.dom().contains(x) <==> edges.dom().contains(x) && edges[x].src
                    != node as int by {
                if edges.dom().contains(x) && edges[x].src == node as int {
                    let a = choose|a: int| 0 <= a < ids.len() && #[trigger] ids[a] == x;
                    assert(!edges2.dom().contains(ids[a]));
                }
                if edges.dom().contains(x) && !edges2.dom().contains(x) {
                    let a = choose|a: int| 0 <= a < ids.len() && #[trigger] ids[a] == x;
                    assert(edges.dom().contains(ids[a]) && edges[ids[a]].src == node as int);
                }
                if edges2.dom().contains(x) {
                    assert(edges.dom().contains(x));
                }
            }
            assert forall|x: int| edges2.dom().contains(x) implies edges2[x] == edges[x] by {}
            lemma_files_without_edges(nodes, edges, self.clock as int, node as int, edges2);
            lemma_node_with(nodes, node as int);
            assert(inclusions_of(nodes, edges, ids).len() == ids.len());
        }
    }

    /// The files that the file `node` names, each once, in the order in which
    /// it names them first.
    #[verifier::rlimit(50)]
    pub fn child_node_indexes(&self, node: u32) -> (children: Vec<u32>)
        requires
            self.wf(),
            self.has_node(node),
        ensures
            children@.len() == distinct_targets(self@.files[self.path_of(node)]).len(),
            forall|k: int|
                0 <= k < children@.len() ==> self.has_node(#[trigger] children@[k]) && self.path_of(
                    children@[k],
                ) == distinct_targets(self@.files[self.path_of(node)])[k],
    {
        let sorted = self.sorted_edges(node);
        let ghost nodes = graph_nodes(self.graph);
        let ghost edges = graph_edges(self.graph);
        let ghost o = out_list(edges, node as int);
        let ghost incs = inclusions_of(nodes, edges, o);
        let mut children: Vec<u32> = Vec::new();
        let mut i: usize = 0;
        assert(edge_ids(sorted@).len() == o.len());
        while i < sorted.len()
            invariant
                i <= sorted.len(),
                self.wf(),
                nodes == graph_nodes(self.graph),
                edges == graph_edges(self.graph),
                o == out_list(edges, node as int),
                incs == inclusions_of(nodes, edges, o),
                edge_ids(sorted@) == o,
                forall|k: int|
                    0 <= k < sorted@.len() ==> edges.dom().contains((#[trigger] sorted@[k]).0 as int)
                        && edges[sorted@[k].0 as int] == record(
                        node as int,
                        sorted@[k].1 as int,
                        sorted@[k].2,
                    ),
                children@.len() == distinct_targets(incs.take(i as int)).len(),
                forall|k: int|
                    0 <= k < children@.len() ==> nodes.dom().contains(#[trigger] children@[k] as int)
                        && nodes[children@[k] as int] == distinct_targets(incs.take(i as int))[k],
            decreases sorted.len() - i,
        {
            let target = sorted[i].1;
            let ghost seen = distinct_targets(incs.take(i as int));
            proof {
                assert(edge_ids(sorted@)[i as int] == o[i as int]);
                assert(edges.dom().contains(sorted@[i as int].0 as int));
                let t = incs.take(i + 1);
                assert(t.drop_last() =~= incs.take(i as int));
                assert(t.last() == incs[i as int]);
                assert(nodes.dom().contains(target as int));
            }
            let mut j: usize = 0;
            let mut found = false;
            while j < children.len()
                invariant
                    j <= children.len(),
                    found <==> exists|k: int| 0 <= k < j && children@[k] == target,
                decreases children.len() - j,
            {
                if children[j] == target {
                    found = true;
                }
                j = j + 1;
            }
            proof {
                if found {
                    let k = choose|k: int| 0 <= k < children@.len() && children@[k] == target;
                    assert(seen[k] == nodes[target as int]);
                }
                if seen.contains(nodes[target as int]) {
                    let k = choose|k: int| 0 <= k < seen.len() && seen[k] == nodes[target as int];
                    assert(nodes.dom().contains(children@[k] as int));
                    assert(children@[k] == target);
                }
            }
            if !found {
                children.push(target);
            }
            i = i + 1;
        }
        proof {
            lemma_node_with(nodes, node as int);
            assert(incs.take(sorted.len() as int) =~= incs);
        }
        children
    }

    /// Whether any file names the file `node` in an inclusion.
    #[verifier::loop_isolation(false)]
    #[verifier::rlimit(50)]
    pub fn is_included(&self, node: u32) -> (r: bool)
        requires
            self.wf(),
            self.has_node(node),
        ensures
            r == is_included(self@, self.path_of(node)),
    {
        let ids = graph_node_indices(&self.graph);
        let ghost nodes = graph_nodes(self.graph);
        let ghost edges = graph_edges(self.graph);
        let mut i: usize = 0;
        while i < ids.len()
            invariant
                i <= ids.len(),
                self.wf(),
                self.has_node(node),
                nodes == graph_nodes(self.graph),
                edges == graph_edges(self.graph),
                forall|x: int| #[trigger]
                    edges.dom().contains(x) && (exists|k: int|
                        0 <= k < i && ids@[k] as int == edges[x].src) ==> edges[x].dst
                        != node as int,
            decreases ids.len() - i,
        {
            let raw = graph_edges_from(&self.graph, ids[i]);
            let mut j: usize = 0;
            while j < raw.len()
                invariant
                    j <= raw.len(),
                    forall|k: int| 0 <= k < j ==> (#[trigger] raw@[k]).1 != node,
                decreases raw.len() - j,
            {
                if raw[j].1 == node {
                    proof {
                        assert(edges.dom().contains(raw@[j as int].0 as int));
                        assert(edges[raw@[j as int].0 as int].dst == node as int);
                        lemma_included_iff_entered(nodes, edges, self.clock as int, node as int);
                    }
                    return true;
                }
                j = j + 1;
            }
            proof {
                assert forall|x: int| #[trigger]
                    edges.dom().contains(x) && (exists|k: int|
                        0 <= k < i + 1 && ids@[k] as int == edges[x].src) implies edges[x].dst
                    != node as int by {
                    let k = choose|k: int| 0 <= k < i + 1 && ids@[k] as int == edges[x].src;
                    if k == i {
                        let m = choose|m: int| 0 <= m < raw@.len() && #[trigger] raw@[m].0 as int == x;
                        assert(raw@[m].1 != node);
                    }
                }
            }
            i = i + 1;
        }
        proof {
            assert forall|x: int| #[trigger] edges.dom().contains(x) implies edges[x].dst
                != node as int by {
                let n = edges[x].src;
                assert(nodes.dom().contains(n));
                assert(ids@.contains(n as u32));
                let k = choose|k: int| 0 <= k < ids@.len() && ids@[k] == n as u32;
                assert(ids@[k] as int == edges[x].src);
            }
            lemma_included_iff_entered(nodes, edges, self.clock as int, node as int);
        }
        false
    }

    /// Removes the inclusions of the file `node`, and the file itself unless
    /// another file still names it. Returns whether the file was removed.
    #[verifier::rlimit(50)]
    pub fn remove_node(&mut self, node: u32) -> (removed: bool)
        requires
            old(self).wf(),
            old(self).has_node(node),
        ensures
            final(self).wf(),
            removed == !is_included(
                without_inclusions(old(self)@, old(self).path_of(node)),
                old(self).path_of(node),
            ),
            final(self)@ == without_file(
                without_inclusions(old(self)@, old(self).path_of(node)),
                old(self).path_of(node),
                removed,
            ),
            forall|n: u32|
                n != node ==> (#[trigger] final(self).has_node(n) == old(self).has_node(n)),
            forall|n: u32|
                n != node && old(self).has_node(n) ==> #[trigger] final(self).path_of(n) == old(
                    self,
                ).path_of(n),
            final(self).has_node(node) == !removed,
            !removed ==> final(self).path_of(node) == old(self).path_of(node),
    {
        self.clear_edges(node);
        let path = self.get_node(node);
        let ghost cleared = *self;
        self.readable.remove(path.as_str());
        assert(self@.present =~= cleared@.present.remove(path@));
        if self.is_included(node) {
            return false;
        }
        let ghost nodes = graph_nodes(self.graph);
        let ghost edges = graph_edges(self.graph);
        proof {
            lemma_included_iff_entered(nodes, edges, self.clock as int, node as int);
            lemma_node_with(nodes, node as int);
            assert forall|x: int| #[trigger] edges.dom().contains(x) implies edges[x].src
                != node as int && edges[x].dst != node as int by {
                if edges[x].src == node as int {
                    let o = out_list(edges, node as int);
                    assert(is_out_list(edges, node as int, o));
                    assert(self@.files[nodes[node as int]] == Seq::<Inclusion>::empty());
                    assert(self@.files[nodes[node as int]] == inclusions_of(nodes, edges, o));
                    assert(inclusions_of(nodes, edges, o).len() == 0);
                    let i = choose|i: int| 0 <= i < o.len() && #[trigger] o[i] == x;
                }
            }
            lemma_files_without_node(nodes, edges, self.clock as int, node as int);
        }
        graph_remove_node(&mut self.graph, node);
        self.cache.remove(path.as_str());
        proof {
            assert(graph_edges(self.graph) =~= edges);
            let nodes2 = graph_nodes(self.graph);
            assert forall|p: Seq<char>| #[trigger] self.readable@.contains_key(p) implies has_path(
                nodes2,
                p,
            ) by {
                let n = choose|n: int| #[trigger] nodes.dom().contains(n) && nodes[n] == p;
                assert(nodes2.dom().contains(n) && nodes2[n] == p);
            }
        }
        true
    }
    /// The nodes of the files that the file `node` names, one for each of its
    /// inclusions, in working order.
    #[verifier::loop_isolation(false)]
    pub fn included_nodes(&self, node: u32) -> (ids: Vec<u32>)
        requires
            self.wf(),
            self.has_node(node),
        ensures
            ids@.len() == self@.files[self.path_of(node)].len(),
            forall|k: int|
                0 <= k < ids@.len() ==> self.has_node(#[trigger] ids@[k]) && self.path_of(ids@[k])
                    == self@.files[self.path_of(node)][k].target,
    {
        let sorted = self.sorted_edges(node);
        let ghost nodes = graph_nodes(self.graph);
        let ghost edges = graph_edges(self.graph);
        let ghost o = out_list(edges, node as int);
        let mut ids: Vec<u32> = Vec::new();
        let mut i: usize = 0;
        assert(edge_ids(sorted@).len() == o.len());
        proof {
            lemma_node_with(nodes, node as int);
        }
        while i < sorted.len()
            invariant
                i <= sorted.len(),
                ids@.len() == i,
                forall|k: int|
                    0 <= k < i ==> nodes.dom().contains(#[trigger] ids@[k] as int) && nodes[ids@[k] as int]
                        == inclusion_of(nodes, edges[o[k]]).target,
            decreases sorted.len() - i,
        {
            assert(edge_ids(sorted@)[i as int] == o[i as int]);
            assert(edges.dom().contains(sorted@[i as int].0 as int));
            ids.push(sorted[i].1);
            i = i + 1;
        }
        ids
    }
    /// The paths of the files of the graph, each once.
    pub fn files(&self) -> (paths: Vec<String>)
        requires
            self.wf(),
        ensures
            forall|i: int, j: int| 0 <= i < j < paths@.len() ==> paths@[i]@ != paths@[j]@,
            forall|i: int| 0 <= i < paths@.len() ==> self@.files.contains_key(#[trigger] paths@[i]@),
            forall|p: Seq<char>| #[trigger]
                self@.files.contains_key(p) ==> exists|i: int|
                    0 <= i < paths@.len() && #[trigger] paths@[i]@ == p,
    {
        let ids = graph_node_indices(&self.graph);
        let ghost nodes = graph_nodes(self.graph);
        let mut paths: Vec<String> = Vec::new();
        let mut i: usize = 0;
        while i < ids.len()
            invariant
                i <= ids.len(),
                self.wf(),
                nodes == graph_nodes(self.graph),
                ids@.no_duplicates(),
                forall|id: u32| ids@.contains(id) <==> nodes.dom().contains(id as int),
                paths@.len() == i,
                forall|k: int| 0 <= k < i ==> (#[trigger] paths@[k])@ == nodes[ids@[k] as int],
            decreases ids.len() - i,
        {
            assert(ids@.contains(ids@[i as int]));
            paths.push(self.get_node(ids[i]));
            i = i + 1;
        }
        proof {
            assert forall|a: int, b: int| 0 <= a < b < paths@.len() implies paths@[a]@
                != paths@[b]@ by {
                assert(ids@.contains(ids@[a]) && ids@.contains(ids@[b]));
                assert(ids@[a] != ids@[b]);
            }
            assert forall|k: int| 0 <= k < paths@.len() implies self@.files.contains_key(
                #[trigger] paths@[k]@,
            ) by {
                assert(ids@.contains(ids@[k]));
                assert(nodes.dom().contains(ids@[k] as int));
            }
            assert forall|p: Seq<char>| #[trigger] self@.files.contains_key(p) implies exists|
                k: int,
            |
                0 <= k < paths@.len() && #[trigger] paths@[k]@ == p by {
                let n = choose|n: int| #[trigger] nodes.dom().contains(n) && nodes[n] == p;
                assert(ids@.contains(n as u32));
                let k = choose|k: int| 0 <= k < ids@.len() && ids@[k] == n as u32;
                assert(paths@[k]@ == p);
            }
        }
        paths
    }
    /// Whether the file `node` could be read when it was last looked for.
    pub fn file_exists(&self, node: u32) -> (r: bool)
        requires
            self.wf(),
            self.has_node(node),
        ensures
            r == self@.present.contains(self.path_of(node)),
    {
        let path = self.get_node(node);
        match self.readable.get(path.as_str()) {
            Some(readable) => *readable,
            None => false,
        }
    }

    /// Takes down whether the file `node` could be read.
    pub fn set_file_exists(&mut self, node: u32, readable: bool)
        requires
            old(self).wf(),
            old(self).has_node(node),
        ensures
            final(self).wf(),
            final(self).nodes() == old(self).nodes(),
            final(self)@ == marked(old(self)@, old(self).path_of(node), readable),
    {
        let path = self.get_node(node);
        proof {
            lemma_node_with(graph_nodes(self.graph), node as int);
        }
        self.readable.insert(path, readable);
        assert(self@.present =~= marked(old(self)@, old(self).path_of(node), readable).present);
    }
}

} // verus!
