//! Graph algorithms over adjacency lists: reachability, reverse reachability to a terminal,
//! and strongly connected components.
use vstd::prelude::*;

use crate::graph::semantics::ids::{node_text, text_of};
use crate::json_value::{array_data, JsonData, JsonValue};
use crate::text::text_eq;

verus! {

/// The adjacency lists as sequences.
pub open spec fn adjacency(edges: Vec<Vec<usize>>) -> Seq<Seq<usize>> {
    edges@.map_values(|targets: Vec<usize>| targets@)
}

/// Every edge ends at a node of the graph.
pub open spec fn graph_wf(edges: Seq<Seq<usize>>) -> bool {
    forall|a: int, k: int| 0 <= a < edges.len() && 0 <= k < edges[a].len() ==> #[trigger] edges[a][k] < edges.len()
}

/// An edge from `a` to `b`.
pub open spec fn has_edge(edges: Seq<Seq<usize>>, a: int, b: int) -> bool {
    0 <= a < edges.len() && 0 <= b < edges.len() && b <= usize::MAX && edges[a].contains(b as usize)
}

/// A walk: consecutive nodes are joined by edges.
pub open spec fn is_walk(edges: Seq<Seq<usize>>, walk: Seq<int>) -> bool {
    &&& walk.len() >= 1
    &&& 0 <= walk[0] < edges.len()
    &&& forall|i: int| 0 <= i < walk.len() - 1 ==> #[trigger] has_edge(edges, walk[i], walk[i + 1])
}

/// `b` can be reached from `a` along edges (in zero or more steps).
pub open spec fn reaches(edges: Seq<Seq<usize>>, a: int, b: int) -> bool {
    exists|walk: Seq<int>| #[trigger] is_walk(edges, walk) && walk[0] == a && walk.last() == b
}

/// `b` can be reached from one of `starts`.
pub open spec fn reached_from(edges: Seq<Seq<usize>>, starts: Seq<usize>, b: int) -> bool {
    exists|s: int| 0 <= s < starts.len() && reaches(edges, #[trigger] starts[s] as int, b)
}

/// The edges reversed.
pub open spec fn reversed(edges: Seq<Seq<usize>>, b: int, a: int) -> bool {
    has_edge(edges, a, b)
}

pub proof fn lemma_reaches_self(edges: Seq<Seq<usize>>, a: int)
    requires
        0 <= a < edges.len(),
    ensures
        reaches(edges, a, a),
{
    assert(is_walk(edges, seq![a]));
}

pub proof fn lemma_reaches_step(edges: Seq<Seq<usize>>, a: int, b: int, c: int)
    requires
        reaches(edges, a, b),
        has_edge(edges, b, c),
    ensures
        reaches(edges, a, c),
{
    let walk = choose|walk: Seq<int>| #[trigger] is_walk(edges, walk) && walk[0] == a && walk.last() == b;
    let longer = walk.push(c);
    assert forall|i: int| 0 <= i < longer.len() - 1 implies #[trigger] has_edge(edges, longer[i], longer[i + 1]) by {
        if i < walk.len() - 1 {
            assert(longer[i] == walk[i] && longer[i + 1] == walk[i + 1]);
        }
    }
    assert(is_walk(edges, longer));
}

/// Along a walk that starts in a set closed under edges, every node lies in the set.
proof fn lemma_closed_set_holds_walk(edges: Seq<Seq<usize>>, flags: Seq<bool>, walk: Seq<int>, i: int)
    requires
        flags.len() == edges.len(),
        is_walk(edges, walk),
        flags[walk[0]],
        forall|u: int, k: int| 0 <= u < edges.len() && flags[u] && 0 <= k < edges[u].len() ==> #[trigger] flags[edges[u][k] as int],
        0 <= i < walk.len(),
    ensures
        0 <= walk[i] < flags.len() && flags[walk[i]],
    decreases i,
{
    if i > 0 {
        let j = i - 1;
        lemma_closed_set_holds_walk(edges, flags, walk, j);
        assert(has_edge(edges, walk[j], walk[j + 1]));
        assert(walk[j + 1] == walk[i]);
        assert(0 <= walk[i] < edges.len());
        assert(edges[walk[j]].contains(walk[i] as usize));
        let k = choose|k: int| 0 <= k < edges[walk[j]].len() && #[trigger] edges[walk[j]][k] == walk[i] as usize;
        assert(flags[edges[walk[j]][k] as int]);
        assert(edges[walk[j]][k] as int == walk[i]);
    }
}

/// A set closed under edges that holds `a` holds everything `a` reaches.
pub proof fn lemma_closed_set_holds_reached(edges: Seq<Seq<usize>>, flags: Seq<bool>, a: int, b: int)
    requires
        flags.len() == edges.len(),
        0 <= a < edges.len(),
        flags[a],
        forall|u: int, k: int| 0 <= u < edges.len() && flags[u] && 0 <= k < edges[u].len() ==> #[trigger] flags[edges[u][k] as int],
        reaches(edges, a, b),
    ensures
        0 <= b < flags.len() && flags[b],
{
    let walk = choose|walk: Seq<int>| #[trigger] is_walk(edges, walk) && walk[0] == a && walk.last() == b;
    lemma_closed_set_holds_walk(edges, flags, walk, walk.len() - 1);
}

/// The number of set flags.
pub open spec fn count_true(flags: Seq<bool>) -> nat
    decreases flags.len(),
{
    if flags.len() == 0 {
        0
    } else {
        count_true(flags.drop_last()) + if flags.last() {
            1nat
        } else {
            0nat
        }
    }
}

/// No flag set, none counted.
pub proof fn lemma_count_true_none(flags: Seq<bool>)
    requires
        forall|i: int| 0 <= i < flags.len() ==> !#[trigger] flags[i],
    ensures
        count_true(flags) == 0,
    decreases flags.len(),
{
    if flags.len() > 0 {
        lemma_count_true_none(flags.drop_last());
    }
}

pub proof fn lemma_count_true_bound(flags: Seq<bool>)
    ensures
        count_true(flags) <= flags.len(),
    decreases flags.len(),
{
    if flags.len() > 0 {
        lemma_count_true_bound(flags.drop_last());
    }
}

pub proof fn lemma_count_true_set(flags: Seq<bool>, i: int)
    requires
        0 <= i < flags.len(),
        !flags[i],
    ensures
        count_true(flags.update(i, true)) == count_true(flags) + 1,
    decreases flags.len(),
{
    let u = flags.update(i, true);
    if i == flags.len() - 1 {
        assert(u.drop_last() =~= flags.drop_last());
    } else {
        assert(u.drop_last() =~= flags.drop_last().update(i, true));
        lemma_count_true_set(flags.drop_last(), i);
    }
}

proof fn lemma_contains_after_pop(pre: Seq<usize>, x: usize)
    requires
        pre.len() > 0,
        pre.contains(x),
    ensures
        pre.last() == x || pre.drop_last().contains(x),
{
    let k = choose|k: int| 0 <= k < pre.len() && pre[k] == x;
    if k < pre.len() - 1 {
        assert(pre.drop_last()[k] == x);
    }
}

proof fn lemma_prefix_contains(base: Seq<usize>, stack: Seq<usize>, x: usize)
    requires
        base.len() <= stack.len(),
        stack.subrange(0, base.len() as int) == base,
        base.contains(x),
    ensures
        stack.contains(x),
{
    let k = choose|k: int| 0 <= k < base.len() && base[k] == x;
    assert(stack.subrange(0, base.len() as int)[k] == stack[k]);
}

/// Every start is marked or waiting; every edge out of a marked node ends at a marked or
/// waiting node; everything marked or waiting is reached.
spec fn search_invariant(g: Seq<Seq<usize>>, starts: Seq<usize>, flags: Seq<bool>, stack: Seq<usize>) -> bool {
    &&& flags.len() == g.len()
    &&& forall|k: int| 0 <= k < stack.len() ==> #[trigger] stack[k] < g.len() && reached_from(g, starts, stack[k] as int)
    &&& forall|v: int| 0 <= v < g.len() && #[trigger] flags[v] ==> reached_from(g, starts, v)
    &&& forall|u: int, k: int| 0 <= u < g.len() && flags[u] && 0 <= k < g[u].len() ==> #[trigger] flags[g[u][k] as int]
        || stack.contains(g[u][k])
    &&& forall|t: int| 0 <= t < starts.len() ==> #[trigger] flags[starts[t] as int] || stack.contains(starts[t])
}

proof fn lemma_search_pop_marked(g: Seq<Seq<usize>>, starts: Seq<usize>, flags: Seq<bool>, pre: Seq<usize>)
    requires
        graph_wf(g),
        forall|s: int| 0 <= s < starts.len() ==> #[trigger] starts[s] < g.len(),
        search_invariant(g, starts, flags, pre),
        pre.len() > 0,
        flags[pre.last() as int],
    ensures
        search_invariant(g, starts, flags, pre.drop_last()),
{
    let base = pre.drop_last();
    assert forall|k: int| 0 <= k < base.len() implies #[trigger] base[k] < g.len() && reached_from(g, starts, base[k] as int) by {
        assert(base[k] == pre[k]);
    }
    assert forall|u: int, k: int| 0 <= u < g.len() && flags[u] && 0 <= k < g[u].len() implies #[trigger] flags[g[u][k] as int]
        || base.contains(g[u][k]) by {
        if !flags[g[u][k] as int] {
            lemma_contains_after_pop(pre, g[u][k]);
        }
    }
    assert forall|t: int| 0 <= t < starts.len() implies #[trigger] flags[starts[t] as int] || base.contains(starts[t]) by {
        if !flags[starts[t] as int] {
            lemma_contains_after_pop(pre, starts[t]);
        }
    }
}

/// Marks every node reachable from one of `starts` (iterative depth-first search).
pub fn reach_set(starts: &Vec<usize>, edges: &Vec<Vec<usize>>) -> (result: Vec<bool>)
    requires
        graph_wf(adjacency(*edges)),
        forall|s: int| 0 <= s < starts.len() ==> #[trigger] starts[s] < edges.len(),
    ensures
        result.len() == edges.len(),
        forall|b: int| 0 <= b < edges.len() ==> (#[trigger] result[b] <==> reached_from(adjacency(*edges), starts@, b)),
{
    let ghost g = adjacency(*edges);
    let n = edges.len();
    let mut flags: Vec<bool> = vec![false; n];
    let mut stack: Vec<usize> = starts.clone();
    proof {
        assert forall|k: int| 0 <= k < stack.len() implies #[trigger] stack[k] < g.len() && reached_from(g, starts@, stack[k] as int) by {
            lemma_reaches_self(g, starts[k] as int);
        }
        assert forall|t: int| 0 <= t < starts.len() implies #[trigger] flags@[starts[t] as int] || stack@.contains(starts[t]) by {
            assert(stack@[t] == starts[t]);
        }
    }
    while stack.len() > 0
        invariant
            g == adjacency(*edges),
            g.len() == n,
            graph_wf(g),
            n == edges.len(),
            forall|s: int| 0 <= s < starts.len() ==> #[trigger] starts[s] < edges.len(),
            search_invariant(g, starts@, flags@, stack@),
        decreases n - count_true(flags@), stack.len(),
    {
        let ghost pre = stack@;
        let node = stack.pop().unwrap();
        assert(pre.last() == node && pre.drop_last() == stack@);
        if flags[node] {
            proof {
                lemma_search_pop_marked(g, starts@, flags@, pre);
                lemma_count_true_bound(flags@);
            }
            continue;
        }
        let ghost before = flags@;
        proof {
            lemma_count_true_set(before, node as int);
            lemma_count_true_bound(before.update(node as int, true));
        }
        flags.set(node, true);
        let ghost base = stack@;
        let targets = &edges[node];
        assert(targets@ == g[node as int]);
        let mut k: usize = 0;
        while k < targets.len()
            invariant
                g == adjacency(*edges),
                g.len() == n,
                graph_wf(g),
                flags.len() == n,
                k <= targets.len(),
                targets@ == g[node as int],
                node < n,
                reached_from(g, starts@, node as int),
                stack@.len() == base.len() + k,
                stack@.subrange(0, base.len() as int) == base,
                forall|q: int| 0 <= q < stack.len() ==> #[trigger] stack[q] < g.len() && reached_from(g, starts@, stack[q] as int),
                forall|j: int| 0 <= j < k ==> #[trigger] stack@[base.len() + j] == targets@[j],
            decreases targets.len() - k,
        {
            let t = targets[k];
            proof {
                let s0 = choose|s0: int| 0 <= s0 < starts.len() && reaches(g, #[trigger] starts@[s0] as int, node as int);
                assert(g[node as int].contains(t));
                lemma_reaches_step(g, starts@[s0] as int, node as int, t as int);
                assert(reaches(g, starts@[s0] as int, t as int));
            }
            let ghost prev = stack@;
            stack.push(t);
            proof {
                assert(stack@.subrange(0, base.len() as int) =~= prev.subrange(0, base.len() as int));
                assert forall|j: int| 0 <= j < k + 1 implies #[trigger] stack@[base.len() + j] == targets@[j] by {
                    if j < k {
                        assert(stack@[base.len() + j] == prev[base.len() + j]);
                    }
                }
            }
            k = k + 1;
        }
        proof {
            let fl = flags@;
            let st = stack@;
            assert forall|u: int, q: int| 0 <= u < g.len() && fl[u] && 0 <= q < g[u].len() implies #[trigger] fl[g[u][q] as int]
                || st.contains(g[u][q]) by {
                if u == node {
                    assert(st[base.len() + q] == g[u][q]);
                } else {
                    assert(before[u]);
                    if !fl[g[u][q] as int] {
                        assert(g[u][q] != node);
                        lemma_contains_after_pop(pre, g[u][q]);
                        lemma_prefix_contains(base, st, g[u][q]);
                    }
                }
            }
            assert forall|t: int| 0 <= t < starts.len() implies #[trigger] fl[starts[t] as int] || st.contains(starts[t]) by {
                if !fl[starts[t] as int] {
                    lemma_contains_after_pop(pre, starts[t]);
                    lemma_prefix_contains(base, st, starts[t]);
                }
            }
            assert forall|v: int| 0 <= v < g.len() && #[trigger] fl[v] implies reached_from(g, starts@, v) by {
                if v != node {
                    assert(before[v]);
                }
            }
        }
    }
    proof {
        assert forall|b: int| 0 <= b < edges.len() implies (#[trigger] flags@[b] <==> reached_from(g, starts@, b)) by {
            if reached_from(g, starts@, b) {
                let s0 = choose|s0: int| 0 <= s0 < starts.len() && reaches(g, #[trigger] starts@[s0] as int, b);
                assert(flags@[starts@[s0] as int]);
                lemma_closed_set_holds_reached(g, flags@, starts@[s0] as int, b);
            }
        }
    }
    flags
}

/// Marks every node reachable from `entry`.
pub fn reachable_from(entry: usize, edges: &Vec<Vec<usize>>) -> (result: Vec<bool>)
    requires
        graph_wf(adjacency(*edges)),
        entry < edges.len(),
    ensures
        result.len() == edges.len(),
        forall|b: int| 0 <= b < edges.len() ==> (#[trigger] result[b] <==> reaches(adjacency(*edges), entry as int, b)),
{
    let starts = vec![entry];
    let result = reach_set(&starts, edges);
    proof {
        assert forall|b: int| 0 <= b < edges.len() implies (#[trigger] result[b] <==> reaches(adjacency(*edges), entry as int, b)) by {
            if reaches(adjacency(*edges), entry as int, b) {
                assert(starts@[0] == entry);
            }
        }
    }
    result
}

/// The edges of `g` turned around: `a -> b` in the result exactly when `b -> a` in `g`.
pub open spec fn reverses(rev: Seq<Seq<usize>>, g: Seq<Seq<usize>>) -> bool {
    &&& rev.len() == g.len()
    &&& forall|a: int, b: int| #[trigger] has_edge(rev, a, b) <==> has_edge(g, b, a)
}

/// A walk read backwards is a walk of the reversed graph.
pub proof fn lemma_reverse_reaches(g: Seq<Seq<usize>>, rev: Seq<Seq<usize>>, a: int, b: int)
    requires
        reverses(rev, g),
        reaches(rev, a, b),
    ensures
        reaches(g, b, a),
{
    let walk = choose|walk: Seq<int>| #[trigger] is_walk(rev, walk) && walk[0] == a && walk.last() == b;
    assert(is_walk(rev, walk));
    assert(rev.len() == g.len());
    let n = walk.len();
    let back = Seq::new(n, |i: int| walk[n - 1 - i]);
    assert forall|i: int| 0 <= i < back.len() - 1 implies #[trigger] has_edge(g, back[i], back[i + 1]) by {
        let j = n - 2 - i;
        assert(has_edge(rev, walk[j], walk[j + 1]));
        assert(back[i] == walk[j + 1] && back[i + 1] == walk[j]);
    }
    if n == 1 {
        assert(back[0] == walk[0]);
        assert(0 <= back[0] < g.len());
    } else {
        let j = n - 2;
        assert(has_edge(rev, walk[j], walk[j + 1]));
        assert(back[0] == walk[j + 1] && back[1] == walk[j]);
        assert(has_edge(g, back[0], back[1]));
    }
    assert(is_walk(g, back));
}

/// Builds the reversed adjacency lists.
pub fn reverse_edges(edges: &Vec<Vec<usize>>) -> (result: Vec<Vec<usize>>)
    requires
        graph_wf(adjacency(*edges)),
    ensures
        reverses(adjacency(result), adjacency(*edges)),
        graph_wf(adjacency(result)),
{
    let ghost g = adjacency(*edges);
    let n = edges.len();
    let mut rev: Vec<Vec<usize>> = Vec::new();
    let mut t: usize = 0;
    while t < n
        invariant
            t <= n,
            n == edges.len(),
            rev.len() == t,
            forall|x: int| 0 <= x < t ==> (#[trigger] rev@[x])@.len() == 0,
        decreases n - t,
    {
        rev.push(Vec::new());
        t = t + 1;
    }
    let mut s: usize = 0;
    while s < n
        invariant
            s <= n,
            n == edges.len(),
            g == adjacency(*edges),
            graph_wf(g),
            rev.len() == n,
            forall|x: int, y: int| 0 <= x < n && 0 <= y < rev@[x]@.len() ==> #[trigger] rev@[x]@[y] < s,
            forall|x: int, src: int| 0 <= x < n ==> ((#[trigger] rev@[x]@.contains(src as usize) && 0 <= src <= usize::MAX)
                <==> (0 <= src < s && g[src].contains(x as usize))),
        decreases n - s,
    {
        let targets = &edges[s];
        assert(targets@ == g[s as int]);
        let mut k: usize = 0;
        while k < targets.len()
            invariant
                s < n,
                k <= targets.len(),
                n == edges.len(),
                g == adjacency(*edges),
                graph_wf(g),
                targets@ == g[s as int],
                rev.len() == n,
                forall|x: int, y: int| 0 <= x < n && 0 <= y < rev@[x]@.len() ==> #[trigger] rev@[x]@[y] <= s,
                forall|x: int, src: int| 0 <= x < n ==> ((#[trigger] rev@[x]@.contains(src as usize) && 0 <= src <= usize::MAX)
                    <==> ((0 <= src < s && g[src].contains(x as usize)) || (src == s && targets@.take(k as int).contains(x as usize)))),
            decreases targets.len() - k,
        {
            let target = targets[k];
            assert(target < n);
            let ghost before = rev@;
            let mut list = Vec::new();
            std::mem::swap(&mut list, &mut rev[target]);
            list.push(s);
            rev.set(target, list);
            proof {
                assert forall|x: int, y: int| 0 <= x < n && 0 <= y < rev@[x]@.len() implies #[trigger] rev@[x]@[y] <= s by {
                    if x != target && y < before[x]@.len() {
                        assert(rev@[x] == before[x]);
                    } else if x == target && y < before[x]@.len() {
                        assert(rev@[x]@[y] == before[x]@[y]);
                    }
                }
                assert forall|x: int, src: int| 0 <= x < n implies ((#[trigger] rev@[x]@.contains(src as usize) && 0 <= src <= usize::MAX)
                    <==> ((0 <= src < s && g[src].contains(x as usize)) || (src == s && targets@.take(k + 1).contains(x as usize)))) by {
                    assert(targets@.take(k + 1) =~= targets@.take(k as int).push(target));
                    if x != target {
                        assert(rev@[x] == before[x]);
                        if targets@.take(k + 1).contains(x as usize) {
                            let q = choose|q: int| 0 <= q < targets@.take(k + 1).len() && #[trigger] targets@.take(k + 1)[q] == x as usize;
                            assert(q < k);
                            assert(targets@.take(k as int)[q] == x as usize);
                        }
                    } else {
                        assert(rev@[x]@ =~= before[x]@.push(s));
                        if before[x]@.push(s).contains(src as usize) && src as usize != s {
                            let q = choose|q: int| 0 <= q < before[x]@.push(s).len() && #[trigger] before[x]@.push(s)[q] == src as usize;
                            assert(before[x]@[q] == src as usize);
                        }
                        if before[x]@.contains(src as usize) {
                            let q = choose|q: int| 0 <= q < before[x]@.len() && #[trigger] before[x]@[q] == src as usize;
                            assert(before[x]@.push(s)[q] == src as usize);
                        }
                        assert(before[x]@.push(s)[before[x]@.len() as int] == s);
                        assert(targets@.take(k + 1)[k as int] == target);
                    }
                }
            }
            k = k + 1;
        }
        proof {
            assert(targets@.take(targets.len() as int) =~= targets@);
            assert forall|x: int, y: int| 0 <= x < n && 0 <= y < rev@[x]@.len() implies #[trigger] rev@[x]@[y] < s + 1 by {
            }
        }
        s = s + 1;
    }
    proof {
        let r = adjacency(rev);
        assert forall|a: int, b: int| #[trigger] has_edge(r, a, b) <==> has_edge(g, b, a) by {
            if 0 <= a < n && 0 <= b < n {
                assert(r[a] == rev@[a]@);
                assert(rev@[a]@.contains(b as usize) <==> (0 <= b < n && g[b].contains(a as usize)));
            }
        }
        assert forall|a: int, k: int| 0 <= a < r.len() && 0 <= k < r[a].len() implies #[trigger] r[a][k] < r.len() by {
            assert(r[a] == rev@[a]@);
        }
    }
    rev
}

/// A node where a successful path may end: the output, or a raise-error node.
pub open spec fn is_terminal(nodes: Seq<JsonData>, output: int, t: int) -> bool {
    t == output || node_text(nodes[t], "type"@) == Some("raise-error"@)
}

/// Node `b` reaches some terminal node.
pub open spec fn reaches_terminal(g: Seq<Seq<usize>>, nodes: Seq<JsonData>, output: int, b: int) -> bool {
    exists|t: int| 0 <= t < g.len() && #[trigger] is_terminal(nodes, output, t) && reaches(g, b, t)
}

/// Marks the nodes from which the output or a raise-error node can be reached.
pub fn can_reach_terminal(output: usize, nodes: &Vec<JsonValue>, edges: &Vec<Vec<usize>>) -> (result: Vec<bool>)
    requires
        graph_wf(adjacency(*edges)),
        output < edges.len(),
        nodes.len() == edges.len(),
    ensures
        result.len() == edges.len(),
        forall|b: int| 0 <= b < edges.len() ==> (#[trigger] result[b] <==> reaches_terminal(
            adjacency(*edges),
            array_data(*nodes),
            output as int,
            b,
        )),
{
    let ghost g = adjacency(*edges);
    let ghost nd = array_data(*nodes);
    let reverse = reverse_edges(edges);
    let ghost r = adjacency(reverse);
    let mut starts: Vec<usize> = vec![output];
    let mut i: usize = 0;
    while i < nodes.len()
        invariant
            i <= nodes.len(),
            nodes.len() == edges.len(),
            nd == array_data(*nodes),
            output < edges.len(),
            forall|s: int| 0 <= s < starts.len() ==> #[trigger] starts[s] < edges.len()
                && is_terminal(nd, output as int, starts[s] as int),
            forall|t: int| 0 <= t < i && #[trigger] is_terminal(nd, output as int, t) ==> starts@.contains(t as usize),
            starts@.contains(output),
        decreases nodes.len() - i,
    {
        assert(nd[i as int] == nodes[i as int]@);
        let raises = match text_of(&nodes[i], "type") {
            Some(t) => text_eq(t, "raise-error"),
            None => false,
        };
        let ghost before = starts@;
        if raises {
            starts.push(i);
        }
        proof {
            assert forall|t: int| 0 <= t < i + 1 && #[trigger] is_terminal(nd, output as int, t) implies starts@.contains(t as usize) by {
                if t == i && t != output {
                    assert(starts@[starts.len() - 1] == i);
                } else if t == output {
                    let q = choose|q: int| 0 <= q < before.len() && before[q] == output;
                    assert(starts@[q] == output);
                } else {
                    let q = choose|q: int| 0 <= q < before.len() && before[q] == t as usize;
                    assert(starts@[q] == t as usize);
                }
            }
            if raises {
                let q = choose|q: int| 0 <= q < before.len() && before[q] == output;
                assert(starts@[q] == output);
            }
        }
        i = i + 1;
    }
    let result = reach_set(&starts, &reverse);
    proof {
        assert forall|a: int, b: int| #[trigger] has_edge(g, a, b) <==> has_edge(r, b, a) by {
            assert(has_edge(r, b, a) <==> has_edge(g, a, b));
        }
        assert forall|b: int| 0 <= b < edges.len() implies (#[trigger] result[b] <==> reaches_terminal(g, nd, output as int, b)) by {
            if result[b] {
                let s0 = choose|s0: int| 0 <= s0 < starts.len() && reaches(r, #[trigger] starts@[s0] as int, b);
                lemma_reverse_reaches(g, r, starts@[s0] as int, b);
                assert(is_terminal(nd, output as int, starts@[s0] as int));
            }
            if reaches_terminal(g, nd, output as int, b) {
                let t = choose|t: int| 0 <= t < g.len() && #[trigger] is_terminal(nd, output as int, t) && reaches(g, b, t);
                lemma_reverse_reaches(r, g, b, t);
                assert(starts@.contains(t as usize));
                let q = choose|q: int| 0 <= q < starts.len() && starts@[q] == t as usize;
                assert(reaches(r, starts@[q] as int, b));
            }
        }
    }
    result
}

/// The work left for the nodes not yet visited: each counts its out-degree plus two.
pub open spec fn unvisited_work(g: Seq<Seq<usize>>, visited: Seq<bool>, k: int) -> nat
    decreases k,
{
    if k <= 0 {
        0
    } else {
        unvisited_work(g, visited, k - 1) + if visited[k - 1] {
            0nat
        } else {
            (g[k - 1].len() + 2) as nat
        }
    }
}

proof fn lemma_unvisited_work_visit(g: Seq<Seq<usize>>, visited: Seq<bool>, t: int, k: int)
    requires
        0 <= t < visited.len(),
        !visited[t],
        0 <= k <= visited.len(),
    ensures
        unvisited_work(g, visited.update(t, true), k) == unvisited_work(g, visited, k) - if t < k {
            g[t].len() + 2
        } else {
            0
        },
    decreases k,
{
    if k > 0 {
        lemma_unvisited_work_visit(g, visited, t, k - 1);
    }
}

/// The work left for the frames of the depth-first stack: the edges each has still to try,
/// plus one to finish it.
pub open spec fn frame_work(g: Seq<Seq<usize>>, stack: Seq<(usize, usize)>) -> int
    decreases stack.len(),
{
    if stack.len() == 0 {
        0
    } else {
        frame_work(g, stack.drop_last()) + g[stack.last().0 as int].len() - stack.last().1 + 1
    }
}

proof fn lemma_frame_work_push(g: Seq<Seq<usize>>, stack: Seq<(usize, usize)>, frame: (usize, usize))
    ensures
        frame_work(g, stack.push(frame)) == frame_work(g, stack) + g[frame.0 as int].len() - frame.1 + 1,
{
    assert(stack.push(frame).drop_last() =~= stack);
}

proof fn lemma_frame_work_nonneg(g: Seq<Seq<usize>>, stack: Seq<(usize, usize)>)
    requires
        forall|q: int| 0 <= q < stack.len() ==> (#[trigger] stack[q]).0 < g.len() && stack[q].1 <= g[stack[q].0 as int].len(),
    ensures
        frame_work(g, stack) >= 0,
    decreases stack.len(),
{
    if stack.len() > 0 {
        assert forall|q: int| 0 <= q < stack.drop_last().len() implies (#[trigger] stack.drop_last()[q]).0 < g.len()
            && stack.drop_last()[q].1 <= g[stack.drop_last()[q].0 as int].len() by {
            assert(stack.drop_last()[q] == stack[q]);
        }
        lemma_frame_work_nonneg(g, stack.drop_last());
    }
}

/// Node `v` has a frame on the depth-first stack.
pub open spec fn on_stack(stack: Seq<(usize, usize)>, v: int) -> bool {
    exists|q: int| 0 <= q < stack.len() && #[trigger] stack[q].0 == v
}

proof fn lemma_on_stack_after_pop(pre: Seq<(usize, usize)>, v: int)
    requires
        pre.len() > 0,
        on_stack(pre, v),
    ensures
        pre.last().0 == v || on_stack(pre.drop_last(), v),
{
    let q = choose|q: int| 0 <= q < pre.len() && #[trigger] pre[q].0 == v;
    if q < pre.len() - 1 {
        assert(pre.drop_last()[q] == pre[q]);
    }
}

proof fn lemma_on_stack_push(stack: Seq<(usize, usize)>, frame: (usize, usize), v: int)
    requires
        on_stack(stack, v) || frame.0 == v,
    ensures
        on_stack(stack.push(frame), v),
{
    if frame.0 == v {
        assert(stack.push(frame)[stack.len() as int].0 == v);
    } else {
        let q = choose|q: int| 0 <= q < stack.len() && #[trigger] stack[q].0 == v;
        assert(stack.push(frame)[q] == stack[q]);
    }
}

/// `a` and `b` reach each other.
pub open spec fn same_scc(g: Seq<Seq<usize>>, a: int, b: int) -> bool {
    reaches(g, a, b) && reaches(g, b, a)
}

pub proof fn lemma_reaches_trans(g: Seq<Seq<usize>>, a: int, b: int, c: int)
    requires
        reaches(g, a, b),
        reaches(g, b, c),
    ensures
        reaches(g, a, c),
{
    let w1 = choose|w: Seq<int>| #[trigger] is_walk(g, w) && w[0] == a && w.last() == b;
    let w2 = choose|w: Seq<int>| #[trigger] is_walk(g, w) && w[0] == b && w.last() == c;
    let w = w1 + w2.drop_first();
    assert forall|i: int| 0 <= i < w.len() - 1 implies #[trigger] has_edge(g, w[i], w[i + 1]) by {
        if i < w1.len() - 1 {
            assert(w[i] == w1[i] && w[i + 1] == w1[i + 1]);
        } else if i == w1.len() - 1 {
            assert(w[i] == w1[i] && w1[i] == b && w2[0] == b);
            assert(w[i + 1] == w2[1]);
            assert(has_edge(g, w2[0int], w2[0int + 1]));
        } else {
            let j = i - w1.len() + 1;
            assert(w[i] == w2[j] && w[i + 1] == w2[j + 1]);
        }
    }
    assert(w[0] == w1[0]);
    assert(is_walk(g, w));
    if w2.len() == 1 {
        assert(w =~= w1);
    } else {
        assert(w.last() == w2.last());
    }
}

/// What a node reaches is a node.
pub proof fn lemma_reaches_range(g: Seq<Seq<usize>>, a: int, c: int)
    requires
        reaches(g, a, c),
    ensures
        0 <= c < g.len(),
{
    let w = choose|w: Seq<int>| #[trigger] is_walk(g, w) && w[0] == a && w.last() == c;
    if w.len() > 1 {
        let p = w.len() - 2;
        assert(has_edge(g, w[p], w[p + 1]));
    }
}

/// A walk reaches each of its nodes from its first.
proof fn lemma_walk_prefix_reaches(g: Seq<Seq<usize>>, w: Seq<int>, i: int)
    requires
        is_walk(g, w),
        0 <= i < w.len(),
    ensures
        reaches(g, w[0], w[i]),
    decreases i,
{
    if i == 0 {
        lemma_reaches_self(g, w[0]);
    } else {
        lemma_walk_prefix_reaches(g, w, i - 1);
        let j = i - 1;
        assert(has_edge(g, w[j], w[j + 1]));
        lemma_reaches_step(g, w[0], w[j], w[i]);
    }
}

/// Some frame of the stack holds a node that reaches `b` and is reached from it.
pub open spec fn scc_gray(g: Seq<Seq<usize>>, stack: Seq<(usize, usize)>, b: int) -> bool {
    exists|k: int| 0 <= k < stack.len() && #[trigger] same_scc(g, stack[k].0 as int, b)
}

/// `c` finished no later than some node that reaches `b` and is reached from it.
pub open spec fn dominated(g: Seq<Seq<usize>>, finished: Seq<usize>, b: int, c: int) -> bool {
    exists|jc: int, jm: int| #![trigger finished[jc], finished[jm]]
        0 <= jc <= jm < finished.len() && finished[jc] as int == c && same_scc(g, finished[jm] as int, b)
}

/// Whatever a node reaches finished no later than some node of the first node's component.
#[verifier::opaque]
pub open spec fn finish_ordered(g: Seq<Seq<usize>>, finished: Seq<usize>) -> bool {
    forall|b: int, c: int| 0 <= b < g.len() && #[trigger] reaches(g, b, c) ==> dominated(g, finished, b, c)
}

/// The state of the depth-first search: the marked nodes are the finished ones and those with
/// a frame on the stack; the stack is a walk of distinct unfinished nodes, each frame's tried
/// edges ending at marked nodes; finished nodes are distinct and their edges end at marked
/// nodes; and everything a finished node reaches finished no later than a node of its
/// component, unless that component still has a node on the stack.
pub open spec fn dfs_state(g: Seq<Seq<usize>>, visited: Seq<bool>, finished: Seq<usize>, stack: Seq<(usize, usize)>) -> bool {
    &&& graph_wf(g)
    &&& g.len() <= usize::MAX
    &&& visited.len() == g.len()
    &&& forall|q: int| 0 <= q < finished.len() ==> #[trigger] finished[q] < g.len()
    &&& forall|q: int| 0 <= q < stack.len() ==> (#[trigger] stack[q]).0 < g.len() && stack[q].1 <= g[stack[q].0 as int].len()
    &&& forall|v: int| 0 <= v < g.len() ==> (#[trigger] visited[v] <==> (finished.contains(v as usize) || on_stack(stack, v)))
    &&& forall|q: int| 0 <= q < stack.len() ==> !finished.contains(#[trigger] stack[q].0)
    &&& forall|i: int, j: int| 0 <= i < j < finished.len() ==> #[trigger] finished[i] != #[trigger] finished[j]
    &&& forall|i: int, j: int| 0 <= i < j < stack.len() ==> (#[trigger] stack[i]).0 != (#[trigger] stack[j]).0
    &&& forall|k: int, l: int| 0 <= k && l == k + 1 && l < stack.len() ==> #[trigger] has_edge(g, stack[k].0 as int, stack[l].0 as int)
    &&& forall|k: int, i: int| 0 <= k < stack.len() && 0 <= i < stack[k].1 ==> visited[#[trigger] g[stack[k].0 as int][i] as int]
    &&& forall|q: int, i: int| 0 <= q < finished.len() && 0 <= i < g[finished[q] as int].len() ==> visited[#[trigger] g[finished[q] as int][i] as int]
    &&& forall|b: int, c: int| 0 <= b < g.len() && #[trigger] finished.contains(b as usize) && #[trigger] reaches(g, b, c)
        ==> scc_gray(g, stack, b) || dominated(g, finished, b, c)
}

/// A lower frame's node reaches a higher frame's node.
proof fn lemma_stack_reaches(g: Seq<Seq<usize>>, visited: Seq<bool>, finished: Seq<usize>, stack: Seq<(usize, usize)>, k: int, l: int)
    requires
        dfs_state(g, visited, finished, stack),
        0 <= k <= l < stack.len(),
    ensures
        reaches(g, stack[k].0 as int, stack[l].0 as int),
    decreases l - k,
{
    if k == l {
        lemma_reaches_self(g, stack[k].0 as int);
    } else {
        lemma_stack_reaches(g, visited, finished, stack, k, l - 1);
        let m = l - 1;
        assert(has_edge(g, stack[m].0 as int, stack[l].0 as int));
        lemma_reaches_step(g, stack[k].0 as int, stack[m].0 as int, stack[l].0 as int);
    }
}

/// Along a walk from a finished node to an unfinished one, some finished node is followed by an
/// unfinished one.
proof fn lemma_walk_leaves(w: Seq<int>, finished: Seq<usize>, i: int)
    requires
        0 <= i < w.len(),
        0 <= w[i] && finished.contains(w[i] as usize),
        forall|q: int| 0 <= q < w.len() ==> 0 <= #[trigger] w[q] <= usize::MAX,
        !finished.contains(w.last() as usize),
    ensures
        exists|j: int| i < j < w.len() && finished.contains(#[trigger] w[j - 1] as usize) && !finished.contains(w[j] as usize),
    decreases w.len() - i,
{
    if i + 1 < w.len() {
        if !finished.contains(w[i + 1] as usize) {
            let j = i + 1;
            assert(w[j - 1] == w[i]);
        } else {
            lemma_walk_leaves(w, finished, i + 1);
        }
    }
}

/// When the top node finishes, whatever it reaches that is unfinished shares its component with
/// a node still on the stack.
proof fn lemma_finish_reaches_gray(
    g: Seq<Seq<usize>>,
    visited: Seq<bool>,
    finished: Seq<usize>,
    stack: Seq<(usize, usize)>,
    c: int,
)
    requires
        dfs_state(g, visited, finished, stack),
        stack.len() > 0,
        stack.last().1 == g[stack.last().0 as int].len(),
        reaches(g, stack.last().0 as int, c),
        !finished.push(stack.last().0).contains(c as usize),
        0 <= c < g.len(),
    ensures
        scc_gray(g, stack.drop_last(), stack.last().0 as int),
{
    let x = stack.last().0;
    let top = stack.len() - 1;
    assert(stack[top] == stack.last());
    let after = finished.push(x);
    let w = choose|w: Seq<int>| #[trigger] is_walk(g, w) && w[0] == x as int && w.last() == c;
    assert forall|q: int| 0 <= q < w.len() implies 0 <= #[trigger] w[q] <= usize::MAX by {
        if q < w.len() - 1 {
            assert(has_edge(g, w[q], w[q + 1]));
        } else if q > 0 {
            let p = q - 1;
            assert(has_edge(g, w[p], w[p + 1]));
        }
    }
    assert(after[finished.len() as int] == x);
    lemma_walk_leaves(w, after, 0);
    let j = choose|j: int| 0 < j < w.len() && after.contains(#[trigger] w[j - 1] as usize) && !after.contains(w[j] as usize);
    let prev = w[j - 1];
    let y = w[j];
    let jj = j - 1;
    assert(has_edge(g, w[jj], w[jj + 1]));
    assert(g[prev].contains(y as usize));
    let e = choose|e: int| 0 <= e < g[prev].len() && g[prev][e] == y as usize;
    if prev == x as int {
        assert(visited[g[stack[top].0 as int][e] as int]);
    } else {
        let q = choose|q: int| 0 <= q < after.len() && after[q] == prev as usize;
        assert(q < finished.len());
        assert(finished[q] == prev as usize);
        assert(visited[g[finished[q] as int][e] as int]);
    }
    assert(visited[y]);
    if finished.contains(y as usize) {
        let q = choose|q: int| 0 <= q < finished.len() && finished[q] == y as usize;
        assert(after[q] == finished[q]);
    }
    assert(!finished.contains(y as usize));
    assert(on_stack(stack, y));
    let k = choose|k: int| 0 <= k < stack.len() && #[trigger] stack[k].0 == y;
    if k == top {
        assert(y == x as int);
        assert(after.contains(x));
    }
    assert(k < top);
    lemma_stack_reaches(g, visited, finished, stack, k, top);
    lemma_walk_prefix_reaches(g, w, j);
    assert(same_scc(g, stack.drop_last()[k].0 as int, x as int));
}

/// Starting a search at an unmarked node keeps the state.
proof fn lemma_dfs_start(g: Seq<Seq<usize>>, visited: Seq<bool>, finished: Seq<usize>, start: int)
    requires
        dfs_state(g, visited, finished, Seq::empty()),
        0 <= start < g.len(),
        !visited[start],
    ensures
        dfs_state(g, visited.update(start, true), finished, seq![(start as usize, 0usize)]),
{
    let stack = seq![(start as usize, 0usize)];
    let v2 = visited.update(start, true);
    assert(stack[0] == (start as usize, 0usize));
    assert forall|v: int| 0 <= v < g.len() implies (#[trigger] v2[v] <==> (finished.contains(v as usize) || on_stack(stack, v))) by {
        if v == start {
            assert(stack[0].0 == v);
        } else {
            assert(!on_stack(Seq::<(usize, usize)>::empty(), v));
            if on_stack(stack, v) {
                let q = choose|q: int| 0 <= q < stack.len() && #[trigger] stack[q].0 == v;
            }
        }
    }
    assert(!visited[start]);
    assert(!finished.contains(start as usize));
    assert forall|b: int, c: int| 0 <= b < g.len() && #[trigger] finished.contains(b as usize) && #[trigger] reaches(g, b, c)
        implies scc_gray(g, stack, b) || dominated(g, finished, b, c) by {
        if !dominated(g, finished, b, c) {
            assert(scc_gray(g, Seq::<(usize, usize)>::empty(), b));
            let k = choose|k: int| 0 <= k < 0 && #[trigger] same_scc(g, Seq::<(usize, usize)>::empty()[k].0 as int, b);
        }
    }
}

/// Trying the next edge of the top frame keeps the state: the frame moves on, and an unmarked
/// target is marked and gets a frame of its own.
proof fn lemma_dfs_advance(g: Seq<Seq<usize>>, visited: Seq<bool>, finished: Seq<usize>, stack: Seq<(usize, usize)>)
    requires
        dfs_state(g, visited, finished, stack),
        stack.len() > 0,
        stack.last().1 < g[stack.last().0 as int].len(),
    ensures
        ({
            let node = stack.last().0;
            let idx = stack.last().1;
            let target = g[node as int][idx as int];
            let base = stack.drop_last().push((node, (idx + 1) as usize));
            &&& visited[target as int] ==> dfs_state(g, visited, finished, base)
            &&& !visited[target as int] ==> dfs_state(g, visited.update(target as int, true), finished, base.push((target, 0usize)))
        }),
{
    let top = stack.len() - 1;
    assert(stack[top] == stack.last());
    let node = stack.last().0;
    let idx = stack.last().1;
    let target = g[node as int][idx as int];
    assert(target < g.len());
    let base = stack.drop_last().push((node, (idx + 1) as usize));
    assert forall|q: int| 0 <= q < base.len() implies #[trigger] base[q].0 == stack[q].0 by {}
    assert forall|v: int| on_stack(base, v) <==> on_stack(stack, v) by {
        if on_stack(base, v) {
            let q = choose|q: int| 0 <= q < base.len() && #[trigger] base[q].0 == v;
            assert(stack[q].0 == v);
        }
        if on_stack(stack, v) {
            let q = choose|q: int| 0 <= q < stack.len() && #[trigger] stack[q].0 == v;
            assert(base[q].0 == v);
        }
    }
    assert forall|b: int| scc_gray(g, stack, b) implies #[trigger] scc_gray(g, base, b) by {
        let k = choose|k: int| 0 <= k < stack.len() && #[trigger] same_scc(g, stack[k].0 as int, b);
        assert(base[k].0 == stack[k].0);
        assert(same_scc(g, base[k].0 as int, b));
    }
    assert forall|k: int, l: int| 0 <= k && l == k + 1 && l < base.len() implies #[trigger] has_edge(g, base[k].0 as int, base[l].0 as int) by {
        assert(has_edge(g, stack[k].0 as int, stack[l].0 as int));
    }
    assert(g[node as int].contains(target));
    if visited[target as int] {
        assert forall|k: int, i: int| 0 <= k < base.len() && 0 <= i < base[k].1 implies visited[#[trigger] g[base[k].0 as int][i] as int] by {
            if k < top {
                assert(base[k] == stack[k]);
            } else if i < idx {
                assert(visited[g[stack[top].0 as int][i] as int]);
            }
        }
        assert(dfs_state(g, visited, finished, base));
    } else {
        let v2 = visited.update(target as int, true);
        let next = base.push((target, 0usize));
        assert(!on_stack(stack, target as int));
        assert(!finished.contains(target));
        assert forall|q: int| 0 <= q < next.len() implies #[trigger] next[q].0 < g.len() && next[q].1 <= g[next[q].0 as int].len() by {
            if q < base.len() {
                assert(next[q] == base[q]);
            }
        }
        assert forall|v: int| 0 <= v < g.len() implies (#[trigger] v2[v] <==> (finished.contains(v as usize) || on_stack(next, v))) by {
            if v == target as int {
                assert(next[base.len() as int].0 == target);
            } else {
                if on_stack(next, v) {
                    let q = choose|q: int| 0 <= q < next.len() && #[trigger] next[q].0 == v;
                    assert(q < base.len());
                    assert(base[q].0 == v);
                }
                if on_stack(base, v) {
                    let q = choose|q: int| 0 <= q < base.len() && #[trigger] base[q].0 == v;
                    assert(next[q].0 == v);
                }
            }
        }
        assert forall|q: int| 0 <= q < next.len() implies !finished.contains(#[trigger] next[q].0) by {
            if q < base.len() {
                assert(next[q] == base[q]);
                assert(base[q].0 == stack[q].0);
            }
        }
        assert forall|i: int, j: int| 0 <= i < j < next.len() implies (#[trigger] next[i]).0 != (#[trigger] next[j]).0 by {
            if j < base.len() {
                assert(next[i] == base[i] && next[j] == base[j]);
                assert(stack[i].0 != stack[j].0);
            } else {
                assert(next[i] == base[i]);
                assert(base[i].0 == stack[i].0);
                assert(on_stack(stack, stack[i].0 as int));
            }
        }
        assert forall|k: int, l: int| 0 <= k && l == k + 1 && l < next.len() implies #[trigger] has_edge(g, next[k].0 as int, next[l].0 as int) by {
            if l < base.len() {
                assert(next[k] == base[k] && next[l] == base[l]);
                assert(has_edge(g, base[k].0 as int, base[l].0 as int));
            } else {
                assert(next[k] == base[top]);
            }
        }
        assert forall|k: int, i: int| 0 <= k < next.len() && 0 <= i < next[k].1 implies v2[#[trigger] g[next[k].0 as int][i] as int] by {
            if k < top {
                assert(next[k] == stack[k]);
                assert(visited[g[stack[k].0 as int][i] as int]);
            } else if k == top {
                assert(next[k] == (node, (idx + 1) as usize));
                if i < idx {
                    assert(visited[g[stack[top].0 as int][i] as int]);
                }
            }
        }
        assert forall|q: int, i: int| 0 <= q < finished.len() && 0 <= i < g[finished[q] as int].len() implies v2[#[trigger] g[finished[q] as int][i] as int] by {
            assert(visited[g[finished[q] as int][i] as int]);
        }
        assert forall|b: int, c: int| 0 <= b < g.len() && #[trigger] finished.contains(b as usize) && #[trigger] reaches(g, b, c)
            implies scc_gray(g, next, b) || dominated(g, finished, b, c) by {
            if scc_gray(g, base, b) {
                let k = choose|k: int| 0 <= k < base.len() && #[trigger] same_scc(g, base[k].0 as int, b);
                assert(next[k] == base[k]);
            }
        }
    }
}

/// Finishing the top frame keeps the state, with its node finished.
proof fn lemma_dfs_finish(g: Seq<Seq<usize>>, visited: Seq<bool>, finished: Seq<usize>, stack: Seq<(usize, usize)>)
    requires
        dfs_state(g, visited, finished, stack),
        stack.len() > 0,
        stack.last().1 == g[stack.last().0 as int].len(),
    ensures
        dfs_state(g, visited, finished.push(stack.last().0), stack.drop_last()),
{
    let top = stack.len() - 1;
    assert(stack[top] == stack.last());
    let x = stack.last().0;
    let after = finished.push(x);
    let rest = stack.drop_last();
    assert(after[finished.len() as int] == x);
    assert forall|q: int| 0 <= q < rest.len() implies #[trigger] rest[q] == stack[q] by {}
    assert(!finished.contains(x));
    assert forall|v: int| 0 <= v < g.len() implies (#[trigger] visited[v] <==> (after.contains(v as usize) || on_stack(rest, v))) by {
        if visited[v] {
            if finished.contains(v as usize) {
                let q = choose|q: int| 0 <= q < finished.len() && finished[q] == v as usize;
                assert(after[q] == finished[q]);
            } else {
                let q = choose|q: int| 0 <= q < stack.len() && #[trigger] stack[q].0 == v;
                if q < top {
                    assert(rest[q].0 == v);
                }
            }
        }
        if after.contains(v as usize) {
            let q = choose|q: int| 0 <= q < after.len() && after[q] == v as usize;
            if q < finished.len() {
                assert(finished[q] == after[q]);
                assert(finished.contains(v as usize));
            } else {
                assert(stack[top].0 == v);
            }
        }
        if on_stack(rest, v) {
            let q = choose|q: int| 0 <= q < rest.len() && #[trigger] rest[q].0 == v;
            assert(stack[q].0 == v);
        }
    }
    assert forall|q: int| 0 <= q < rest.len() implies !after.contains(#[trigger] rest[q].0) by {
        assert(rest[q] == stack[q]);
        assert(stack[q].0 != stack[top].0);
        if after.contains(rest[q].0) {
            let j = choose|j: int| 0 <= j < after.len() && after[j] == rest[q].0;
            if j < finished.len() {
                assert(finished[j] == after[j]);
            }
        }
    }
    assert forall|i: int, j: int| 0 <= i < j < after.len() implies #[trigger] after[i] != #[trigger] after[j] by {
        if j == finished.len() {
            assert(after[i] == finished[i]);
            assert(finished.contains(finished[i]));
        } else {
            assert(after[i] == finished[i] && after[j] == finished[j]);
        }
    }
    assert forall|k: int, l: int| 0 <= k && l == k + 1 && l < rest.len() implies #[trigger] has_edge(g, rest[k].0 as int, rest[l].0 as int) by {
        assert(has_edge(g, stack[k].0 as int, stack[l].0 as int));
    }
    assert forall|k: int, i: int| 0 <= k < rest.len() && 0 <= i < rest[k].1 implies visited[#[trigger] g[rest[k].0 as int][i] as int] by {
        assert(visited[g[stack[k].0 as int][i] as int]);
    }
    assert forall|q: int, i: int| 0 <= q < after.len() && 0 <= i < g[after[q] as int].len() implies visited[#[trigger] g[after[q] as int][i] as int] by {
        if q < finished.len() {
            assert(after[q] == finished[q]);
            assert(visited[g[finished[q] as int][i] as int]);
        } else {
            assert(visited[g[stack[top].0 as int][i] as int]);
        }
    }
    assert forall|b: int, c: int| 0 <= b < g.len() && #[trigger] after.contains(b as usize) && #[trigger] reaches(g, b, c)
        implies scc_gray(g, rest, b) || dominated(g, after, b, c) by {
        let last = finished.len() as int;
        lemma_reaches_range(g, b, c);
        if b == x as int {
            lemma_reaches_self(g, b);
            if after.contains(c as usize) {
                let jc = choose|jc: int| 0 <= jc < after.len() && after[jc] == c as usize;
                assert(after[last] == x);
                assert(same_scc(g, after[last] as int, b));
                assert(0 <= jc <= last < after.len() && after[jc] as int == c && same_scc(g, after[last] as int, b));
                assert(dominated(g, after, b, c));
            } else {
                assert(0 <= c < g.len()) by {
                    let w = choose|w: Seq<int>| #[trigger] is_walk(g, w) && w[0] == b && w.last() == c;
                    if w.len() > 1 {
                        let p = w.len() - 2;
                        assert(has_edge(g, w[p], w[p + 1]));
                    }
                }
                lemma_finish_reaches_gray(g, visited, finished, stack, c);
            }
        } else {
            let q = choose|q: int| 0 <= q < after.len() && after[q] == b as usize;
            assert(q < last);
            assert(finished[q] == after[q]);
            assert(finished.contains(b as usize));
            if dominated(g, finished, b, c) {
                let (jc, jm) = choose|jc: int, jm: int| #![trigger finished[jc], finished[jm]]
                    0 <= jc <= jm < finished.len() && finished[jc] as int == c && same_scc(g, finished[jm] as int, b);
                assert(after[jc] == finished[jc] && after[jm] == finished[jm]);
                assert(dominated(g, after, b, c));
            } else {
                let k = choose|k: int| 0 <= k < stack.len() && #[trigger] same_scc(g, stack[k].0 as int, b);
                if k < top {
                    assert(rest[k] == stack[k]);
                    assert(same_scc(g, rest[k].0 as int, b));
                } else {
                    assert(same_scc(g, x as int, b));
                    if after.contains(c as usize) {
                        let jc = choose|jc: int| 0 <= jc < after.len() && after[jc] == c as usize;
                        assert(after[last] == x);
                        assert(same_scc(g, after[last] as int, b));
                        assert(0 <= jc <= last < after.len() && after[jc] as int == c && same_scc(g, after[last] as int, b));
                        assert(dominated(g, after, b, c));
                    } else {
                        lemma_reaches_trans(g, x as int, b, c);
                        assert(0 <= c < g.len()) by {
                            let w = choose|w: Seq<int>| #[trigger] is_walk(g, w) && w[0] == b && w.last() == c;
                            if w.len() > 1 {
                                let p = w.len() - 2;
                                assert(has_edge(g, w[p], w[p + 1]));
                            }
                        }
                        lemma_finish_reaches_gray(g, visited, finished, stack, c);
                        let k2 = choose|k2: int| 0 <= k2 < rest.len() && #[trigger] same_scc(g, rest[k2].0 as int, x as int);
                        lemma_reaches_trans(g, rest[k2].0 as int, x as int, b);
                        lemma_reaches_trans(g, b, x as int, rest[k2].0 as int);
                        assert(same_scc(g, rest[k2].0 as int, b));
                    }
                }
            }
        }
    }
}

/// The nodes in the order a depth-first search finishes them, every start taken in index
/// sequence: each node once, and each node finished no later than some node of the component
/// of every node that reaches it.
fn finishing_sequence(edges: &Vec<Vec<usize>>) -> (result: Vec<usize>)
    requires
        graph_wf(adjacency(*edges)),
    ensures
        forall|q: int| 0 <= q < result.len() ==> #[trigger] result[q] < edges.len(),
        forall|v: int| 0 <= v < edges.len() ==> #[trigger] result@.contains(v as usize),
        forall|i: int, j: int| 0 <= i < j < result.len() ==> #[trigger] result@[i] != #[trigger] result@[j],
        finish_ordered(adjacency(*edges), result@),
{
    let ghost g = adjacency(*edges);
    let n = edges.len();
    let mut visited: Vec<bool> = vec![false; n];
    let mut finished: Vec<usize> = Vec::new();
    proof {
        assert forall|v: int| 0 <= v < g.len() implies (#[trigger] visited@[v] <==> (finished@.contains(v as usize)
            || on_stack(Seq::<(usize, usize)>::empty(), v))) by {}
        assert(dfs_state(g, visited@, finished@, Seq::empty()));
    }
    let mut start: usize = 0;
    while start < n
        invariant
            start <= n,
            n == edges.len(),
            g == adjacency(*edges),
            dfs_state(g, visited@, finished@, Seq::empty()),
            forall|v: int| 0 <= v < start ==> #[trigger] visited@[v],
        decreases n - start,
    {
        if !visited[start] {
            let mut stack: Vec<(usize, usize)> = vec![(start, 0)];
            proof {
                lemma_unvisited_work_visit(g, visited@, start as int, n as int);
                assert(stack@ =~= Seq::<(usize, usize)>::empty().push((start, 0usize)));
                lemma_frame_work_push(g, Seq::<(usize, usize)>::empty(), (start, 0usize));
                lemma_dfs_start(g, visited@, finished@, start as int);
                assert(stack@ =~= seq![(start, 0usize)]);
            }
            visited.set(start, true);
            while stack.len() > 0
                invariant
                    n == edges.len(),
                    g == adjacency(*edges),
                    start < n,
                    visited@[start as int],
                    forall|v: int| 0 <= v < start ==> #[trigger] visited@[v],
                    dfs_state(g, visited@, finished@, stack@),
                decreases unvisited_work(g, visited@, n as int) + frame_work(g, stack@),
            {
                proof {
                    lemma_frame_work_nonneg(g, stack@);
                }
                let ghost pre = stack@;
                let ghost pre_visited = visited@;
                let ghost pre_finished = finished@;
                let (node, edge_index) = stack.pop().unwrap();
                assert(pre.drop_last() == stack@ && pre.last() == (node, edge_index));
                assert(pre[pre.len() - 1] == (node, edge_index));
                assert(edges[node as int]@ == g[node as int]);
                if edge_index < edges[node].len() {
                    proof {
                        lemma_frame_work_push(g, stack@, (node, (edge_index + 1) as usize));
                        lemma_dfs_advance(g, visited@, finished@, pre);
                    }
                    stack.push((node, edge_index + 1));
                    let target = edges[node][edge_index];
                    assert(target < n);
                    if !visited[target] {
                        proof {
                            lemma_unvisited_work_visit(g, visited@, target as int, n as int);
                            lemma_frame_work_push(g, stack@, (target, 0usize));
                        }
                        visited.set(target, true);
                        stack.push((target, 0));
                    }
                } else {
                    proof {
                        lemma_dfs_finish(g, visited@, finished@, pre);
                    }
                    finished.push(node);
                }
                proof {
                    lemma_frame_work_nonneg(g, stack@);
                }
            }
            assert(stack@ =~= Seq::<(usize, usize)>::empty());
        }
        start = start + 1;
    }
    proof {
        assert forall|v: int| 0 <= v < edges.len() implies #[trigger] finished@.contains(v as usize) by {
            assert(visited@[v]);
            assert(!on_stack(Seq::<(usize, usize)>::empty(), v));
        }
        reveal(finish_ordered);
        assert forall|b: int, c: int| 0 <= b < edges.len() && #[trigger] reaches(adjacency(*edges), b, c)
            implies dominated(adjacency(*edges), finished@, b, c) by {
            assert(visited@[b]);
            assert(!on_stack(Seq::<(usize, usize)>::empty(), b));
            assert(finished@.contains(b as usize));
            if scc_gray(g, Seq::<(usize, usize)>::empty(), b) {
                let k = choose|k: int| 0 <= k < 0 && #[trigger] same_scc(g, Seq::<(usize, usize)>::empty()[k].0 as int, b);
            }
        }
    }
    finished
}

/// The components as sequences of nodes.
pub open spec fn component_lists(components: Vec<Vec<usize>>) -> Seq<Seq<usize>> {
    components@.map_values(|c: Vec<usize>| c@)
}

/// Node `v` is a member of component `c`.
pub open spec fn in_component(components: Seq<Seq<usize>>, c: int, v: int) -> bool {
    0 <= c < components.len() && 0 <= v <= usize::MAX && components[c].contains(v as usize)
}

/// Node `v` is a member of some component.
pub open spec fn covered(components: Seq<Seq<usize>>, v: int) -> bool {
    exists|c: int| #[trigger] in_component(components, c, v)
}

/// Every edge into a member of a component comes from a member of that component or of an
/// earlier one.
pub open spec fn components_closed(g: Seq<Seq<usize>>, components: Seq<Seq<usize>>) -> bool {
    forall|c: int, v: int, q: int| #[trigger] in_component(components, c, v) && #[trigger] has_edge(g, q, v)
        ==> exists|c2: int| c2 <= c && #[trigger] in_component(components, c2, q)
}

/// Every member of a component is marked.
spec fn members_marked(components: Seq<Seq<usize>>, marked: Seq<bool>) -> bool {
    forall|c: int, v: int| #[trigger] in_component(components, c, v) ==> v < marked.len() && marked[v]
}

/// Every marked node is a member of a component, of the component being built, or waiting.
spec fn marked_placed(components: Seq<Seq<usize>>, marked: Seq<bool>, current: Seq<usize>, stack: Seq<usize>) -> bool {
    forall|v: int| 0 <= v < marked.len() && #[trigger] marked[v] ==> (exists|c: int| #[trigger] in_component(components, c, v))
        || current.contains(v as usize) || stack.contains(v as usize)
}

/// The reversed edges out of the first `upto` nodes of `current` all end at marked nodes.
spec fn scanned(r: Seq<Seq<usize>>, marked: Seq<bool>, current: Seq<usize>, upto: int) -> bool {
    forall|p: int, k: int| 0 <= p < upto && 0 <= k < r[current[p] as int].len() ==> marked[#[trigger] r[current[p] as int][k] as int]
}

proof fn lemma_contains_push(s: Seq<usize>, x: usize, y: usize)
    requires
        s.contains(x) || x == y,
    ensures
        s.push(y).contains(x),
{
    if x == y {
        assert(s.push(y)[s.len() as int] == y);
    } else {
        let k = choose|k: int| 0 <= k < s.len() && s[k] == x;
        assert(s.push(y)[k] == x);
    }
}

/// Adding a finished component keeps the components closed.
proof fn lemma_close_component(
    g: Seq<Seq<usize>>,
    r: Seq<Seq<usize>>,
    components: Seq<Seq<usize>>,
    marked: Seq<bool>,
    current: Seq<usize>,
)
    requires
        reverses(r, g),
        graph_wf(r),
        marked.len() == g.len(),
        g.len() <= usize::MAX,
        components_closed(g, components),
        members_marked(components, marked),
        marked_placed(components, marked, current, Seq::empty()),
        scanned(r, marked, current, current.len() as int),
        forall|p: int| 0 <= p < current.len() ==> #[trigger] current[p] < g.len() && marked[current[p] as int],
    ensures
        components_closed(g, components.push(current)),
        members_marked(components.push(current), marked),
        marked_placed(components.push(current), marked, Seq::empty(), Seq::empty()),
{
    let after = components.push(current);
    let n = components.len() as int;
    assert forall|c: int, v: int| #[trigger] in_component(after, c, v) implies v < marked.len() && marked[v] by {
        if c < n {
            assert(after[c] == components[c]);
            assert(in_component(components, c, v));
        } else {
            let p = choose|p: int| 0 <= p < current.len() && current[p] == v as usize;
        }
    }
    assert forall|v: int| 0 <= v < marked.len() && #[trigger] marked[v] implies (exists|c: int| #[trigger] in_component(after, c, v))
        || Seq::<usize>::empty().contains(v as usize) || Seq::<usize>::empty().contains(v as usize) by {
        if exists|c: int| #[trigger] in_component(components, c, v) {
            let c = choose|c: int| #[trigger] in_component(components, c, v);
            assert(after[c] == components[c]);
            assert(in_component(after, c, v));
        } else {
            assert(current.contains(v as usize));
            assert(after[n] == current);
            assert(in_component(after, n, v));
        }
    }
    assert forall|c: int, v: int, q: int| #[trigger] in_component(after, c, v) && #[trigger] has_edge(g, q, v)
        implies exists|c2: int| c2 <= c && #[trigger] in_component(after, c2, q) by {
        if c < n {
            assert(after[c] == components[c]);
            assert(in_component(components, c, v));
            let c2 = choose|c2: int| c2 <= c && #[trigger] in_component(components, c2, q);
            assert(after[c2] == components[c2]);
            assert(in_component(after, c2, q));
        } else {
            assert(after[c] == current);
            let p = choose|p: int| 0 <= p < current.len() && current[p] == v as usize;
            assert(has_edge(r, v, q));
            let k = choose|k: int| 0 <= k < r[v].len() && r[v][k] == q as usize;
            assert(r[current[p] as int][k] == q as usize);
            assert(marked[r[current[p] as int][k] as int]);
            assert(marked[q]);
            if exists|c2: int| #[trigger] in_component(components, c2, q) {
                let c2 = choose|c2: int| #[trigger] in_component(components, c2, q);
                assert(after[c2] == components[c2]);
                assert(in_component(after, c2, q));
            } else {
                assert(current.contains(q as usize));
                assert(in_component(after, n, q));
            }
        }
    }
}

proof fn lemma_reverses_back(g: Seq<Seq<usize>>, r: Seq<Seq<usize>>)
    requires
        reverses(r, g),
    ensures
        reverses(g, r),
{
    assert forall|a: int, b: int| #[trigger] has_edge(g, a, b) <==> has_edge(r, b, a) by {
        assert(has_edge(r, b, a) <==> has_edge(g, a, b));
    }
}

/// The marked nodes are closed under incoming edges when they are the members of components
/// closed under incoming edges.
proof fn lemma_marked_closed(g: Seq<Seq<usize>>, r: Seq<Seq<usize>>, components: Seq<Seq<usize>>, marked: Seq<bool>)
    requires
        reverses(r, g),
        graph_wf(r),
        marked.len() == g.len(),
        components_closed(g, components),
        members_marked(components, marked),
        marked_placed(components, marked, Seq::empty(), Seq::empty()),
    ensures
        forall|u: int, k: int| 0 <= u < r.len() && marked[u] && 0 <= k < r[u].len() ==> #[trigger] marked[r[u][k] as int],
{
    assert forall|u: int, k: int| 0 <= u < r.len() && marked[u] && 0 <= k < r[u].len() implies #[trigger] marked[r[u][k] as int] by {
        let y = r[u][k] as int;
        assert(r[u].contains(r[u][k]));
        assert(has_edge(r, u, y));
        assert(has_edge(g, y, u));
        assert(!Seq::<usize>::empty().contains(u as usize));
        let c = choose|c: int| #[trigger] in_component(components, c, u);
        let c2 = choose|c2: int| c2 <= c && #[trigger] in_component(components, c2, y);
    }
}

/// A node that reaches the latest-finishing unmarked node, and is itself unmarked, is reached
/// from it, when the marked nodes are closed under incoming edges.
proof fn lemma_latest_reaches_back(
    g: Seq<Seq<usize>>,
    r: Seq<Seq<usize>>,
    finished: Seq<usize>,
    marked: Seq<bool>,
    position: int,
    p: int,
)
    requires
        graph_wf(g),
        graph_wf(r),
        reverses(r, g),
        marked.len() == g.len(),
        0 <= position < finished.len(),
        forall|i: int, j: int| 0 <= i < j < finished.len() ==> #[trigger] finished[i] != #[trigger] finished[j],
        forall|q: int| 0 <= q < finished.len() ==> #[trigger] finished[q] < g.len(),
        dominated(g, finished, p, finished[position] as int),
        forall|q: int| position < q < finished.len() ==> marked[#[trigger] finished[q] as int],
        forall|u: int, k: int| 0 <= u < r.len() && marked[u] && 0 <= k < r[u].len() ==> #[trigger] marked[r[u][k] as int],
        0 <= p < g.len(),
        !marked[p],
    ensures
        reaches(g, finished[position] as int, p),
{
    let s = finished[position] as int;
    let (jc, jm) = choose|jc: int, jm: int| #![trigger finished[jc], finished[jm]]
        0 <= jc <= jm < finished.len() && finished[jc] as int == s && same_scc(g, finished[jm] as int, p);
    if jc != position {
        if jc < position {
            assert(finished[jc] != finished[position]);
        } else {
            assert(finished[position] != finished[jc]);
        }
    }
    if jm > position {
        let m = finished[jm] as int;
        assert(marked[m]);
        lemma_reverses_back(g, r);
        lemma_reverse_reaches(r, g, p, m);
        lemma_closed_set_holds_reached(r, marked, m, p);
        assert(false);
    }
}

/// Marks and collects every unmarked node that reaches `start` through unmarked nodes, by a
/// depth-first search over the reversed edges; `start` comes first.
fn search_component(reverse: &Vec<Vec<usize>>, visited: &mut Vec<bool>, start: usize, lists: Ghost<Seq<Seq<usize>>>) -> (component: Vec<usize>)
    requires
        graph_wf(adjacency(*reverse)),
        old(visited).len() == reverse.len(),
        start < reverse.len(),
        !old(visited)@[start as int],
        members_marked(lists@, old(visited)@),
        marked_placed(lists@, old(visited)@, Seq::empty(), Seq::empty()),
    ensures
        final(visited).len() == reverse.len(),
        forall|v: int| 0 <= v < reverse.len() && #[trigger] old(visited)@[v] ==> final(visited)@[v],
        component.len() >= 1,
        component[0] == start,
        forall|p: int| 0 <= p < component.len() ==> #[trigger] component[p] < reverse.len()
            && reaches(adjacency(*reverse), start as int, component[p] as int)
            && final(visited)@[component[p] as int] && !old(visited)@[component[p] as int],
        forall|p: int| 0 < p < component.len() ==> #[trigger] component[p] != start,
        forall|a: int, b: int| 0 <= a < b < component.len() ==> #[trigger] component[a] != #[trigger] component[b],
        members_marked(lists@, final(visited)@),
        marked_placed(lists@, final(visited)@, component@, Seq::empty()),
        scanned(adjacency(*reverse), final(visited)@, component@, component.len() as int),
{
    let ghost r = adjacency(*reverse);
    let ghost vis0 = visited@;
    let n = reverse.len();
    let mut component: Vec<usize> = Vec::new();
    let mut stack: Vec<usize> = vec![start];
    proof {
        lemma_reaches_self(r, start as int);
        lemma_count_true_set(visited@, start as int);
        lemma_count_true_bound(visited@.update(start as int, true));
    }
    visited.set(start, true);
    proof {
        assert(stack@[0] == start);
        assert forall|v: int| 0 <= v < visited@.len() && #[trigger] visited@[v] implies (exists|c: int| #[trigger] in_component(lists@, c, v))
            || component@.contains(v as usize) || stack@.contains(v as usize) by {
            if v == start as int {
                assert(stack@[0] == start);
            } else {
                assert(vis0[v]);
            }
        }
        assert forall|c: int, v: int| #[trigger] in_component(lists@, c, v) implies v < visited@.len() && visited@[v] by {
            assert(vis0[v]);
        }
    }
    while stack.len() > 0
        invariant
            n == reverse.len(),
            r == adjacency(*reverse),
            graph_wf(r),
            r.len() == n,
            visited.len() == n,
            start < n,
            vis0.len() == n,
            !vis0[start as int],
            visited@[start as int],
            forall|v: int| 0 <= v < n && #[trigger] vis0[v] ==> visited@[v],
            forall|q: int| 0 <= q < stack.len() ==> #[trigger] stack[q] < n && reaches(r, start as int, stack[q] as int)
                && visited@[stack[q] as int] && !vis0[stack[q] as int],
            forall|p: int| 0 <= p < component.len() ==> #[trigger] component[p] < n && reaches(r, start as int, component[p] as int)
                && visited@[component[p] as int] && !vis0[component[p] as int],
            component.len() == 0 ==> stack.len() == 1 && stack[0] == start,
            component.len() > 0 ==> component[0] == start,
            component.len() > 0 ==> forall|q: int| 0 <= q < stack.len() ==> #[trigger] stack[q] != start,
            forall|p: int| 0 < p < component.len() ==> #[trigger] component[p] != start,
            forall|a: int, b: int| 0 <= a < b < component.len() ==> #[trigger] component[a] != #[trigger] component[b],
            forall|a: int, b: int| 0 <= a < b < stack.len() ==> #[trigger] stack[a] != #[trigger] stack[b],
            forall|a: int, b: int| 0 <= a < component.len() && 0 <= b < stack.len() ==> #[trigger] component[a] != #[trigger] stack[b],
            members_marked(lists@, visited@),
            marked_placed(lists@, visited@, component@, stack@),
            scanned(r, visited@, component@, component.len() as int),
        decreases n - count_true(visited@), stack.len(),
    {
        let ghost pre = stack@;
        let node = stack.pop().unwrap();
        assert(pre.last() == node && pre.drop_last() == stack@);
        assert(pre[pre.len() - 1] < n);
        proof {
            lemma_count_true_bound(visited@);
        }
        let ghost comp_before = component@;
        component.push(node);
        proof {
            assert forall|a: int, b: int| 0 <= a < b < component.len() implies #[trigger] component[a] != #[trigger] component[b] by {
                if b == component.len() - 1 {
                    assert(component[a] == comp_before[a]);
                    assert(comp_before[a] != pre[pre.len() - 1]);
                } else {
                    assert(component[a] == comp_before[a] && component[b] == comp_before[b]);
                }
            }
            assert forall|a: int, b: int| 0 <= a < b < stack.len() implies #[trigger] stack[a] != #[trigger] stack[b] by {
                assert(stack[a] == pre[a] && stack[b] == pre[b]);
            }
            assert forall|a: int, b: int| 0 <= a < component.len() && 0 <= b < stack.len() implies #[trigger] component[a] != #[trigger] stack[b] by {
                assert(stack[b] == pre[b]);
                if a == component.len() - 1 {
                    assert(pre[b] != pre[pre.len() - 1]);
                } else {
                    assert(component[a] == comp_before[a]);
                }
            }
            assert forall|v: int| 0 <= v < visited@.len() && #[trigger] visited@[v] implies (exists|c: int| #[trigger] in_component(lists@, c, v))
                || component@.contains(v as usize) || stack@.contains(v as usize) by {
                if !(exists|c: int| #[trigger] in_component(lists@, c, v)) && !comp_before.contains(v as usize) {
                    assert(pre.contains(v as usize));
                    lemma_contains_after_pop(pre, v as usize);
                    if pre.last() == v as usize {
                        lemma_contains_push(comp_before, v as usize, node);
                    }
                } else if comp_before.contains(v as usize) {
                    lemma_contains_push(comp_before, v as usize, node);
                }
            }
            assert forall|p: int, k: int| 0 <= p < component.len() - 1 && 0 <= k < r[component@[p] as int].len()
                implies visited@[#[trigger] r[component@[p] as int][k] as int] by {
                assert(component@[p] == comp_before[p]);
            }
            if comp_before.len() > 0 {
                assert(node != start);
            }
        }
        let targets = &reverse[node];
        assert(targets@ == r[node as int]);
        let ghost count_before = count_true(visited@);
        let ghost stack_before = stack.len();
        let mut k: usize = 0;
        while k < targets.len()
            invariant
                k <= targets.len(),
                targets@ == r[node as int],
                node < n,
                n == reverse.len(),
                r == adjacency(*reverse),
                graph_wf(r),
                r.len() == n,
                visited.len() == n,
                start < n,
                reaches(r, start as int, node as int),
                component.len() >= 1,
                component@.last() == node,
                component[0] == start,
                vis0.len() == n,
                !vis0[start as int],
                visited@[start as int],
                forall|v: int| 0 <= v < n && #[trigger] vis0[v] ==> visited@[v],
                forall|q: int| 0 <= q < stack.len() ==> #[trigger] stack[q] < n && reaches(r, start as int, stack[q] as int)
                    && visited@[stack[q] as int] && !vis0[stack[q] as int],
                forall|p: int| 0 <= p < component.len() ==> #[trigger] component[p] < n && reaches(r, start as int, component[p] as int)
                    && visited@[component[p] as int] && !vis0[component[p] as int],
                forall|q: int| 0 <= q < stack.len() ==> #[trigger] stack[q] != start,
                forall|p: int| 0 < p < component.len() ==> #[trigger] component[p] != start,
                forall|a: int, b: int| 0 <= a < b < component.len() ==> #[trigger] component[a] != #[trigger] component[b],
                forall|a: int, b: int| 0 <= a < b < stack.len() ==> #[trigger] stack[a] != #[trigger] stack[b],
                forall|a: int, b: int| 0 <= a < component.len() && 0 <= b < stack.len() ==> #[trigger] component[a] != #[trigger] stack[b],
                members_marked(lists@, visited@),
                marked_placed(lists@, visited@, component@, stack@),
                scanned(r, visited@, component@, component.len() - 1),
                forall|kk: int| 0 <= kk < k ==> visited@[#[trigger] r[node as int][kk] as int],
                count_true(visited@) >= count_before,
                count_true(visited@) <= n,
                stack.len() <= stack_before + (count_true(visited@) - count_before),
            decreases targets.len() - k,
        {
            let target = targets[k];
            assert(r[node as int][k as int] == target);
            assert(target < r.len());
            if !visited[target] {
                let ghost vis_before = visited@;
                let ghost stack_pre = stack@;
                proof {
                    assert(r[node as int].contains(target));
                    lemma_reaches_step(r, start as int, node as int, target as int);
                    lemma_count_true_set(visited@, target as int);
                    lemma_count_true_bound(visited@.update(target as int, true));
                }
                visited.set(target, true);
                stack.push(target);
                proof {
                    assert forall|a: int, b: int| 0 <= a < b < stack.len() implies #[trigger] stack[a] != #[trigger] stack[b] by {
                        assert(stack[a] == stack_pre[a]);
                        assert(vis_before[stack_pre[a] as int]);
                        if b < stack_pre.len() {
                            assert(stack[b] == stack_pre[b]);
                        }
                    }
                    assert forall|a: int, b: int| 0 <= a < component.len() && 0 <= b < stack.len() implies #[trigger] component[a] != #[trigger] stack[b] by {
                        assert(vis_before[component[a] as int]);
                        if b < stack_pre.len() {
                            assert(stack[b] == stack_pre[b]);
                        }
                    }
                    assert forall|v: int| 0 <= v < visited@.len() && #[trigger] visited@[v] implies (exists|c: int| #[trigger] in_component(lists@, c, v))
                        || component@.contains(v as usize) || stack@.contains(v as usize) by {
                        if v == target as int {
                            lemma_contains_push(stack_pre, target, target);
                        } else {
                            assert(vis_before[v]);
                            if stack_pre.contains(v as usize) {
                                lemma_contains_push(stack_pre, v as usize, target);
                            }
                        }
                    }
                    assert forall|c: int, v: int| #[trigger] in_component(lists@, c, v) implies v < visited@.len() && visited@[v] by {
                        assert(vis_before[v]);
                    }
                    assert forall|v: int| 0 <= v < n && #[trigger] vis0[v] implies visited@[v] by {
                        assert(vis_before[v]);
                    }
                    assert forall|q: int| 0 <= q < stack.len() implies #[trigger] stack[q] < n && reaches(r, start as int, stack[q] as int)
                        && visited@[stack[q] as int] && !vis0[stack[q] as int] by {
                        if q < stack_pre.len() {
                            assert(stack[q] == stack_pre[q]);
                            assert(vis_before[stack_pre[q] as int]);
                        }
                    }
                    assert forall|p: int| 0 <= p < component.len() implies #[trigger] component[p] < n && reaches(r, start as int, component[p] as int)
                        && visited@[component[p] as int] && !vis0[component[p] as int] by {
                        assert(vis_before[component[p] as int]);
                    }
                    assert forall|p: int, kk: int| 0 <= p < component.len() - 1 && 0 <= kk < r[component@[p] as int].len()
                        implies visited@[#[trigger] r[component@[p] as int][kk] as int] by {
                        assert(vis_before[r[component@[p] as int][kk] as int]);
                    }
                    assert forall|kk: int| 0 <= kk < k + 1 implies visited@[#[trigger] r[node as int][kk] as int] by {
                        if kk < k {
                            assert(vis_before[r[node as int][kk] as int]);
                        }
                    }
                }
            }
            k = k + 1;
        }
        proof {
            assert forall|p: int, kk: int| 0 <= p < component.len() && 0 <= kk < r[component@[p] as int].len()
                implies visited@[#[trigger] r[component@[p] as int][kk] as int] by {
                if p == component.len() - 1 {
                    assert(component@[p] == node);
                }
            }
        }
    }
    assert(stack@ =~= Seq::<usize>::empty());
    component
}

/// Walking back along a walk from a node of component `c` stays in components up to `c`.
proof fn lemma_walk_back_upto(g: Seq<Seq<usize>>, components: Seq<Seq<usize>>, walk: Seq<int>, c: int, i: int)
    requires
        components_closed(g, components),
        is_walk(g, walk),
        0 <= i < walk.len(),
        in_component(components, c, walk.last()),
    ensures
        exists|c2: int| c2 <= c && #[trigger] in_component(components, c2, walk[i]),
    decreases walk.len() - i,
{
    if i == walk.len() - 1 {
        assert(in_component(components, c, walk[i]));
    } else {
        lemma_walk_back_upto(g, components, walk, c, i + 1);
        let c1 = choose|c2: int| c2 <= c && #[trigger] in_component(components, c2, walk[i + 1]);
        assert(has_edge(g, walk[i], walk[i + 1]));
        let c2 = choose|c2: int| c2 <= c1 && #[trigger] in_component(components, c2, walk[i]);
    }
}

/// A node that reaches a member of component `c` lies in a component up to `c`.
proof fn lemma_reach_into(g: Seq<Seq<usize>>, components: Seq<Seq<usize>>, x: int, w: int, c: int)
    requires
        components_closed(g, components),
        reaches(g, x, w),
        in_component(components, c, w),
    ensures
        exists|c2: int| c2 <= c && #[trigger] in_component(components, c2, x),
{
    let walk = choose|walk: Seq<int>| #[trigger] is_walk(g, walk) && walk[0] == x && walk.last() == w;
    lemma_walk_back_upto(g, components, walk, c, 0);
}

/// The strongly connected components, by a second search over the reversed edges in reverse
/// finishing order. Every node lies in exactly the component of the nodes it reaches and is
/// reached from: every component is non-empty, its first node reaches each of its nodes and
/// each of them reaches the first, and every edge into a component comes from it or from an
/// earlier one.
pub fn strongly_connected(edges: &Vec<Vec<usize>>) -> (result: Vec<Vec<usize>>)
    requires
        graph_wf(adjacency(*edges)),
    ensures
        forall|c: int| 0 <= c < result.len() ==> (#[trigger] result[c]).len() >= 1,
        forall|c: int, p: int| 0 <= c < result.len() && 0 <= p < result[c].len() ==> #[trigger] result[c][p] < edges.len()
            && reaches(adjacency(*edges), result[c][p] as int, result[c][0] as int),
        forall|v: int| 0 <= v < edges.len() ==> #[trigger] covered(component_lists(result), v),
        components_closed(adjacency(*edges), component_lists(result)),
        forall|c: int, p: int| 0 <= c < result.len() && 0 <= p < result[c].len()
            ==> reaches(adjacency(*edges), result[c][0] as int, #[trigger] result[c][p] as int),
        forall|c: int, p: int| 0 <= c < result.len() && 0 < p < result[c].len() ==> #[trigger] result[c][p] != result[c][0],
        forall|c: int, a: int, b: int| 0 <= c < result.len() && 0 <= a < b < result[c].len()
            ==> #[trigger] result[c][a] != #[trigger] result[c][b],
        forall|c: int, d: int, a: int, b: int| 0 <= c < d < result.len() && 0 <= a < result[c].len() && 0 <= b < result[d].len()
            ==> #[trigger] result[c][a] != #[trigger] result[d][b],
        forall|c: int, d: int, a: int, b: int| 0 <= c < result.len() && 0 <= d < result.len() && 0 <= a < result[c].len()
            && 0 <= b < result[d].len() ==> (c == d <==> same_scc(adjacency(*edges), #[trigger] result[c][a] as int, #[trigger] result[d][b] as int)),
{
    let ghost g = adjacency(*edges);
    let n = edges.len();
    let finished = finishing_sequence(edges);
    let reverse = reverse_edges(edges);
    let ghost r = adjacency(reverse);
    let mut visited: Vec<bool> = vec![false; n];
    let mut components: Vec<Vec<usize>> = Vec::new();
    let mut position = finished.len();
    proof {
        assert forall|c: int, v: int| #[trigger] in_component(component_lists(components), c, v) implies v < visited@.len() && visited@[v] by {
        }
        assert forall|v: int| 0 <= v < visited@.len() && #[trigger] visited@[v] implies (exists|c: int| #[trigger] in_component(component_lists(components), c, v))
            || Seq::<usize>::empty().contains(v as usize) || Seq::<usize>::empty().contains(v as usize) by {
        }
    }
    while position > 0
        invariant
            position <= finished.len(),
            n == edges.len(),
            g == adjacency(*edges),
            r == adjacency(reverse),
            graph_wf(g),
            graph_wf(r),
            reverses(r, g),
            reverse.len() == n,
            visited.len() == n,
            forall|q: int| 0 <= q < finished.len() ==> #[trigger] finished[q] < n,
            forall|v: int| 0 <= v < n ==> #[trigger] finished@.contains(v as usize),
            forall|q: int| position <= q < finished.len() ==> visited@[#[trigger] finished[q] as int],
            forall|i: int, j: int| 0 <= i < j < finished.len() ==> #[trigger] finished@[i] != #[trigger] finished@[j],
            finish_ordered(g, finished@),
            forall|c: int| 0 <= c < components.len() ==> (#[trigger] components[c]).len() >= 1,
            forall|c: int, p: int| 0 <= c < components.len() && 0 <= p < components[c].len() ==> #[trigger] components[c][p] < n
                && reaches(g, components[c][p] as int, components[c][0] as int),
            forall|c: int, p: int| 0 <= c < components.len() && 0 <= p < components[c].len()
                ==> reaches(g, components[c][0] as int, #[trigger] components[c][p] as int),
            forall|c: int, p: int| 0 <= c < components.len() && 0 < p < components[c].len() ==> #[trigger] components[c][p] != components[c][0],
            forall|c: int, a: int, b: int| 0 <= c < components.len() && 0 <= a < b < components[c].len()
                ==> #[trigger] components[c][a] != #[trigger] components[c][b],
            forall|c: int, d: int, a: int, b: int| 0 <= c < d < components.len() && 0 <= a < components[c].len() && 0 <= b < components[d].len()
                ==> #[trigger] components[c][a] != #[trigger] components[d][b],
            components_closed(g, component_lists(components)),
            members_marked(component_lists(components), visited@),
            marked_placed(component_lists(components), visited@, Seq::empty(), Seq::empty()),
        decreases position,
    {
        position = position - 1;
        let start = finished[position];
        if !visited[start] {
            let ghost lists = component_lists(components);
            let ghost vis0 = visited@;
            proof {
                lemma_marked_closed(g, r, lists, vis0);
            }
            let component = search_component(&reverse, &mut visited, start, Ghost(lists));
            proof {
                assert forall|p: int| 0 <= p < component.len() implies #[trigger] component[p] < n
                    && reaches(g, component[p] as int, component[0] as int) by {
                    lemma_reverse_reaches(g, r, start as int, component[p] as int);
                }
                assert forall|p: int| 0 <= p < component@.len() implies #[trigger] component@[p] < g.len() && visited@[component@[p] as int] by {
                    assert(component[p] < n);
                }
                lemma_close_component(g, r, lists, visited@, component@);
                assert forall|q: int| position < q < finished.len() implies vis0[#[trigger] finished[q] as int] by {
                }
                assert forall|p: int| 0 <= p < component.len() implies reaches(g, start as int, #[trigger] component[p] as int) by {
                    lemma_reverse_reaches(g, r, start as int, component[p] as int);
                    lemma_reaches_range(g, component[p] as int, start as int);
                    assert(dominated(g, finished@, component[p] as int, finished@[position as int] as int)) by {
                        reveal(finish_ordered);
                    }
                    lemma_latest_reaches_back(g, r, finished@, vis0, position as int, component[p] as int);
                }
                assert forall|q: int| position <= q < finished.len() implies visited@[#[trigger] finished[q] as int] by {
                    if q > position {
                        assert(vis0[finished[q] as int]);
                    }
                }
            }
            let ghost before = components@;
            components.push(component);
            proof {
                assert(component_lists(components) =~= lists.push(component_lists(components).last()));
                let last = components.len() - 1;
                assert forall|c: int, d: int, a: int, b: int| 0 <= c < d < components.len() && 0 <= a < components[c].len()
                    && 0 <= b < components[d].len() implies #[trigger] components[c][a] != #[trigger] components[d][b] by {
                    if d == last {
                        assert(components[c] == before[c]);
                        assert(in_component(lists, c, components[c][a] as int)) by {
                            assert(lists[c] == before[c]@);
                            assert(lists[c][a] == components[c][a]);
                        }
                        assert(vis0[components[c][a] as int]);
                        assert(!vis0[components[d][b] as int]);
                    } else {
                        assert(components[c] == before[c] && components[d] == before[d]);
                    }
                }
                assert forall|c: int, a: int, b: int| 0 <= c < components.len() && 0 <= a < b < components[c].len()
                    implies #[trigger] components[c][a] != #[trigger] components[c][b] by {
                    if c < last {
                        assert(components[c] == before[c]);
                    }
                }
            }
        }
    }
    proof {
        assert forall|v: int| 0 <= v < edges.len() implies #[trigger] covered(component_lists(components), v) by {
            assert(finished@.contains(v as usize));
            let q = choose|q: int| 0 <= q < finished.len() && finished@[q] == v as usize;
            assert(visited@[finished[q] as int]);
            assert(visited@[v]);
        }
        let lists = component_lists(components);
        assert forall|c: int, d: int, a: int, b: int| 0 <= c < components.len() && 0 <= d < components.len() && 0 <= a < components[c].len()
            && 0 <= b < components[d].len() implies (c == d <==> same_scc(g, #[trigger] components[c][a] as int, #[trigger] components[d][b] as int)) by {
            let u = components[c][a] as int;
            let v = components[d][b] as int;
            let fc = components[c][0] as int;
            if c == d {
                lemma_reaches_trans(g, u, fc, v);
                lemma_reaches_trans(g, v, fc, u);
            } else if same_scc(g, u, v) {
                assert(lists[c] == components[c]@ && lists[d] == components[d]@);
                assert(in_component(lists, c, u)) by {
                    assert(lists[c][a] == components[c][a]);
                }
                assert(in_component(lists, d, v)) by {
                    assert(lists[d][b] == components[d][b]);
                }
                lemma_reach_into(g, lists, v, u, c);
                lemma_reach_into(g, lists, u, v, d);
                let c2 = choose|c2: int| c2 <= c && #[trigger] in_component(lists, c2, v);
                let d2 = choose|d2: int| d2 <= d && #[trigger] in_component(lists, d2, u);
                let b2 = choose|k: int| 0 <= k < lists[c2].len() && lists[c2][k] == v as usize;
                let a2 = choose|k: int| 0 <= k < lists[d2].len() && lists[d2][k] == u as usize;
                assert(lists[c2] == components[c2]@ && lists[d2] == components[d2]@);
                assert(components[c2][b2] == components[d][b]);
                assert(components[d2][a2] == components[c][a]);
                if c2 != d {
                    if c2 < d {
                        assert(components[c2][b2] != components[d][b]);
                    } else {
                        assert(components[d][b] != components[c2][b2]);
                    }
                }
                if d2 != c {
                    if d2 < c {
                        assert(components[d2][a2] != components[c][a]);
                    } else {
                        assert(components[c][a] != components[d2][a2]);
                    }
                }
            }
        }
    }
    components
}

/// Node `a` lies on a cycle: an edge leaves it for a node that reaches back to it.
pub open spec fn on_cycle(g: Seq<Seq<usize>>, a: int) -> bool {
    exists|b: int| #[trigger] has_edge(g, a, b) && reaches(g, b, a)
}

/// The graph has a cycle.
pub open spec fn has_cycle(g: Seq<Seq<usize>>) -> bool {
    exists|a: int| 0 <= a < g.len() && #[trigger] on_cycle(g, a)
}

/// A component that shows a cycle: it has two members, or its first member has an edge to
/// itself.
pub open spec fn cyclic_component(g: Seq<Seq<usize>>, component: Seq<usize>) -> bool {
    component.len() > 1 || (component.len() == 1 && has_edge(g, component[0] as int, component[0] as int))
}

/// Some node of the walk at or after position `from` lies in component `c`.
spec fn walk_touches(components: Seq<Seq<usize>>, walk: Seq<int>, c: int) -> bool {
    exists|i: int| 0 <= i < walk.len() && #[trigger] in_component(components, c, walk[i])
}

proof fn lemma_least_touched(components: Seq<Seq<usize>>, walk: Seq<int>, b: int)
    requires
        0 <= b,
        walk_touches(components, walk, b),
    ensures
        exists|m: int| 0 <= m <= b && #[trigger] walk_touches(components, walk, m)
            && forall|j: int| 0 <= j < m ==> !#[trigger] walk_touches(components, walk, j),
    decreases b,
{
    if exists|j: int| 0 <= j < b && #[trigger] walk_touches(components, walk, j) {
        let j = choose|j: int| 0 <= j < b && #[trigger] walk_touches(components, walk, j);
        lemma_least_touched(components, walk, j);
    } else {
        assert(forall|j: int| 0 <= j < b ==> !#[trigger] walk_touches(components, walk, j));
    }
}

/// Walking back along edges from a node of the least component touched stays in it.
proof fn lemma_walk_back(g: Seq<Seq<usize>>, components: Seq<Seq<usize>>, walk: Seq<int>, m: int, i: int)
    requires
        components_closed(g, components),
        is_walk(g, walk),
        0 <= i < walk.len(),
        in_component(components, m, walk[i]),
        forall|j: int| 0 <= j < m ==> !#[trigger] walk_touches(components, walk, j),
    ensures
        forall|j: int| 0 <= j <= i ==> #[trigger] in_component(components, m, walk[j]),
    decreases i,
{
    if i > 0 {
        let j = i - 1;
        assert(has_edge(g, walk[j], walk[j + 1]));
        assert(walk[j + 1] == walk[i]);
        let c2 = choose|c2: int| c2 <= m && #[trigger] in_component(components, c2, walk[i - 1]);
        if c2 < m {
            assert(walk_touches(components, walk, c2));
        }
        lemma_walk_back(g, components, walk, m, i - 1);
    }
}

/// When components cover the nodes and are closed under incoming edges, a cycle of the graph
/// shows in one of them.
pub proof fn lemma_cycle_shows_in_component(g: Seq<Seq<usize>>, components: Seq<Seq<usize>>)
    requires
        graph_wf(g),
        g.len() <= usize::MAX,
        has_cycle(g),
        forall|v: int| 0 <= v < g.len() ==> #[trigger] covered(components, v),
        components_closed(g, components),
    ensures
        exists|c: int| 0 <= c < components.len() && #[trigger] cyclic_component(g, components[c]),
{
    let a = choose|a: int| 0 <= a < g.len() && #[trigger] on_cycle(g, a);
    let b = choose|b: int| #[trigger] has_edge(g, a, b) && reaches(g, b, a);
    let back = choose|w: Seq<int>| #[trigger] is_walk(g, w) && w[0] == b && w.last() == a;
    let walk = seq![a] + back;
    assert(walk[0] == a && walk[1] == b && walk.last() == a);
    assert forall|i: int| 0 <= i < walk.len() - 1 implies #[trigger] has_edge(g, walk[i], walk[i + 1]) by {
        if i > 0 {
            assert(walk[i] == back[i - 1] && walk[i + 1] == back[i]);
            assert(has_edge(g, back[i - 1], back[i - 1 + 1]));
        }
    }
    assert(is_walk(g, walk));
    assert(covered(components, a));
    let c0 = choose|c: int| #[trigger] in_component(components, c, a);
    assert(walk_touches(components, walk, c0));
    lemma_least_touched(components, walk, c0);
    let m = choose|m: int| 0 <= m <= c0 && #[trigger] walk_touches(components, walk, m)
        && forall|j: int| 0 <= j < m ==> !#[trigger] walk_touches(components, walk, j);
    let i0 = choose|i: int| 0 <= i < walk.len() && #[trigger] in_component(components, m, walk[i]);
    lemma_walk_back(g, components, walk, m, i0);
    assert(in_component(components, m, walk[0]));
    assert(in_component(components, m, walk[walk.len() - 1]));
    lemma_walk_back(g, components, walk, m, walk.len() - 1);
    assert(in_component(components, m, a));
    assert(in_component(components, m, b));
    let comp = components[m];
    let pa = choose|p: int| 0 <= p < comp.len() && comp[p] == a as usize;
    let pb = choose|p: int| 0 <= p < comp.len() && comp[p] == b as usize;
    if a != b {
        assert(pa != pb);
        assert(cyclic_component(g, comp));
    } else {
        if comp.len() == 1 {
            assert(comp[0] == a as usize);
        }
        assert(cyclic_component(g, comp));
    }
}

/// A walk reaches its last node from each of its nodes.
proof fn lemma_walk_suffix_reaches(g: Seq<Seq<usize>>, w: Seq<int>, i: int)
    requires
        is_walk(g, w),
        0 <= i < w.len(),
    ensures
        reaches(g, w[i], w.last()),
{
    let rest = w.subrange(i, w.len() as int);
    assert forall|k: int| 0 <= k < rest.len() - 1 implies #[trigger] has_edge(g, rest[k], rest[k + 1]) by {
        assert(rest[k] == w[i + k] && rest[k + 1] == w[i + k + 1]);
        assert(has_edge(g, w[i + k], w[i + k + 1]));
    }
    if i > 0 {
        let j = i - 1;
        assert(has_edge(g, w[j], w[j + 1]));
    }
    assert(is_walk(g, rest));
    assert(rest[0] == w[i] && rest.last() == w.last());
}

/// A node that reaches, and is reached from, another node lies on a cycle.
proof fn lemma_mutual_on_cycle(g: Seq<Seq<usize>>, a: int, b: int)
    requires
        a != b,
        reaches(g, a, b),
        reaches(g, b, a),
    ensures
        on_cycle(g, a),
{
    let w = choose|w: Seq<int>| #[trigger] is_walk(g, w) && w[0] == a && w.last() == b;
    assert(w.len() > 1);
    assert(has_edge(g, w[0int], w[0int + 1]));
    let next = w[1];
    lemma_walk_suffix_reaches(g, w, 1);
    lemma_reaches_trans(g, next, b, a);
}

/// Every node of a component that shows a cycle lies on a cycle: two of its nodes reach each
/// other, or its one node has an edge to itself.
pub proof fn lemma_cyclic_component_is_cycle(g: Seq<Seq<usize>>, component: Seq<usize>)
    requires
        graph_wf(g),
        g.len() <= usize::MAX,
        component.len() >= 1,
        forall|p: int| 0 <= p < component.len() ==> #[trigger] component[p] < g.len()
            && reaches(g, component[p] as int, component[0] as int) && reaches(g, component[0] as int, component[p] as int),
        forall|p: int| 0 < p < component.len() ==> #[trigger] component[p] != component[0],
        cyclic_component(g, component),
    ensures
        forall|p: int| 0 <= p < component.len() ==> on_cycle(g, #[trigger] component[p] as int),
        has_cycle(g),
{
    let a = component[0] as int;
    if component.len() > 1 {
        let b = component[1] as int;
        assert(component[1] != component[0]);
        lemma_mutual_on_cycle(g, a, b);
        assert forall|p: int| 0 <= p < component.len() implies on_cycle(g, #[trigger] component[p] as int) by {
            if p > 0 {
                lemma_mutual_on_cycle(g, component[p] as int, a);
            }
        }
    } else {
        lemma_reaches_self(g, a);
        assert(on_cycle(g, a));
    }
    assert(component[0] < g.len());
    assert(on_cycle(g, component[0] as int));
}

} // verus!
