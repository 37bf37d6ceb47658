use vstd::prelude::*;

use crate::gnba::{filter_ids, lemma_filter_ids};

verus! {

/// Every successor listed in the graph is a node of it.
pub open spec fn valid_graph(g: Seq<Seq<usize>>) -> bool {
    forall|u: int, k: int| 0 <= u < g.len() && 0 <= k < g[u].len() ==> #[trigger] g[u][k] < g.len()
}

/// `p` is a walk in `g`: a nonempty sequence of nodes, each followed by one of its successors.
pub open spec fn is_path(g: Seq<Seq<usize>>, p: Seq<int>) -> bool {
    &&& p.len() >= 1
    &&& forall|i: int| 0 <= i < p.len() ==> 0 <= #[trigger] p[i] < g.len()
    &&& forall|i: int| 0 <= i < p.len() - 1 ==> #[trigger] path_step(g, p, i)
}

/// `v` is a successor of `u`.
pub open spec fn has_edge(g: Seq<Seq<usize>>, u: int, v: int) -> bool {
    exists|k: int| 0 <= k < g[u].len() && #[trigger] g[u][k] as int == v
}

/// Node `i + 1` of `p` is a successor of node `i`.
pub open spec fn path_step(g: Seq<Seq<usize>>, p: Seq<int>, i: int) -> bool {
    has_edge(g, p[i], p[i + 1])
}

/// There is a walk, possibly empty, from `u` to `v`.
pub open spec fn reaches(g: Seq<Seq<usize>>, u: int, v: int) -> bool {
    exists|p: Seq<int>| #[trigger] is_path(g, p) && p[0] == u && p.last() == v
}

/// There is a walk of at least one step from `u` to `v`.
pub open spec fn reaches_plus(g: Seq<Seq<usize>>, u: int, v: int) -> bool {
    exists|p: Seq<int>| #[trigger] is_path(g, p) && p.len() >= 2 && p[0] == u && p.last() == v
}

pub proof fn lemma_reaches_refl(g: Seq<Seq<usize>>, u: int)
    requires
        0 <= u < g.len(),
    ensures
        reaches(g, u, u),
{
    let p = seq![u];
    assert(is_path(g, p));
}

/// A walk followed by one more step.
pub proof fn lemma_reaches_step(g: Seq<Seq<usize>>, u: int, v: int, k: int)
    requires
        valid_graph(g),
        reaches(g, u, v),
        0 <= v < g.len(),
        0 <= k < g[v].len(),
    ensures
        reaches(g, u, g[v][k] as int),
        reaches_plus(g, u, g[v][k] as int),
{
    let w = g[v][k] as int;
    let p = choose|p: Seq<int>| #[trigger] is_path(g, p) && p[0] == u && p.last() == v;
    let q = p.push(w);
    assert(g[v][k] < g.len());
    assert(has_edge(g, v, w));
    assert forall|i: int| 0 <= i < q.len() - 1 implies #[trigger] path_step(g, q, i) by {
        if i < p.len() - 1 {
            assert(path_step(g, p, i));
            assert(q[i + 1] == p[i + 1]);
        }
    }
    assert(is_path(g, q));
}

/// Two walks joined.
pub proof fn lemma_reaches_trans(g: Seq<Seq<usize>>, u: int, v: int, w: int)
    requires
        reaches(g, u, v),
        reaches(g, v, w),
    ensures
        reaches(g, u, w),
{
    let p = choose|p: Seq<int>| #[trigger] is_path(g, p) && p[0] == u && p.last() == v;
    let q = choose|q: Seq<int>| #[trigger] is_path(g, q) && q[0] == v && q.last() == w;
    let r = p + q.drop_first();
    assert forall|i: int| 0 <= i < r.len() implies 0 <= #[trigger] r[i] < g.len() by {
        if i >= p.len() {
            assert(r[i] == q[i - p.len() + 1]);
        }
    }
    assert forall|i: int| 0 <= i < r.len() - 1 implies #[trigger] path_step(g, r, i) by {
        if i < p.len() - 1 {
            assert(path_step(g, p, i));
            assert(r[i + 1] == p[i + 1]);
        } else if i == p.len() - 1 {
            assert(path_step(g, q, 0));
            assert(r[i] == q[0]);
            assert(r[i + 1] == q[1]);
        } else {
            assert(path_step(g, q, i - p.len() + 1));
            assert(r[i] == q[i - p.len() + 1]);
            assert(r[i + 1] == q[i - p.len() + 2]);
        }
    }
    if q.len() == 1 {
        assert(r =~= p);
    } else {
        assert(r.last() == q.last());
    }
    assert(is_path(g, r));
}

/// A set of nodes that holds every successor of each of its nodes holds everything that its
/// nodes reach.
pub proof fn lemma_closed_reach(g: Seq<Seq<usize>>, marks: Seq<bool>, u: int, v: int)
    requires
        marks.len() == g.len(),
        forall|x: int, k: int|
            0 <= x < g.len() && marks[x] && 0 <= k < g[x].len() ==> marks[#[trigger] g[x][k] as int],
        0 <= u < g.len(),
        marks[u],
        reaches(g, u, v),
    ensures
        marks[v],
{
    let p = choose|p: Seq<int>| #[trigger] is_path(g, p) && p[0] == u && p.last() == v;
    lemma_closed_path(g, marks, p, p.len() - 1);
}

proof fn lemma_closed_path(g: Seq<Seq<usize>>, marks: Seq<bool>, p: Seq<int>, i: int)
    requires
        marks.len() == g.len(),
        forall|x: int, k: int|
            0 <= x < g.len() && marks[x] && 0 <= k < g[x].len() ==> marks[#[trigger] g[x][k] as int],
        is_path(g, p),
        marks[p[0]],
        0 <= i < p.len(),
    ensures
        marks[p[i]],
    decreases i,
{
    if i > 0 {
        lemma_closed_path(g, marks, p, i - 1);
        assert(path_step(g, p, i - 1));
        let row = g[p[i - 1]];
        let k = choose|k: int| 0 <= k < row.len() && #[trigger] row[k] as int == p[i];
        assert(marks[g[p[i - 1]][k] as int]);
    }
}

pub open spec fn count_false(s: Seq<bool>) -> nat
    decreases s.len(),
{
    if s.len() == 0 {
        0
    } else {
        count_false(s.drop_last()) + if s.last() {
            0nat
        } else {
            1nat
        }
    }
}

proof fn lemma_count_false_update(s: Seq<bool>, i: int)
    requires
        0 <= i < s.len(),
        !s[i],
    ensures
        count_false(s.update(i, true)) + 1 == count_false(s),
    decreases s.len(),
{
    if i < s.len() - 1 {
        lemma_count_false_update(s.drop_last(), i);
        assert(s.update(i, true).drop_last() =~= s.drop_last().update(i, true));
    } else {
        assert(s.update(i, true).drop_last() =~= s.drop_last());
    }
}

/// The nodes that some marked node reaches, found by one depth-first search started from all
/// of them.
pub fn reached_from_marked(g: &Vec<Vec<usize>>, sources: &Vec<bool>) -> (r: Vec<bool>)
    requires
        valid_graph(g@.map_values(|v: Vec<usize>| v@)),
        sources@.len() == g@.len(),
    ensures
        r@.len() == g@.len(),
        forall|v: int|
            0 <= v < g@.len() ==> (r@[v] <==> exists|s: int|
                0 <= s < g@.len() && #[trigger] sources@[s] && reaches(g@.map_values(|x: Vec<usize>| x@), s, v)),
{
    let ghost gv = g@.map_values(|v: Vec<usize>| v@);
    let n = g.len();
    assert(gv.len() == n);
    let mut marks: Vec<bool> = Vec::new();
    let mut stack: Vec<usize> = Vec::new();
    let mut i: usize = 0;
    while i < n
        invariant
            n == g@.len(),
            sources@.len() == n,
            i <= n,
            marks@.len() == i,
            forall|j: int| 0 <= j < i ==> #[trigger] marks@[j] == sources@[j],
            forall|j: int| 0 <= j < stack@.len() ==> #[trigger] stack@[j] < i && marks@[stack@[j] as int],
            forall|x: int| 0 <= x < i && #[trigger] marks@[x] ==> stack@.contains(x as usize),
        decreases n - i,
    {
        let m = sources[i];
        let ghost old_stack = stack@;
        marks.push(m);
        if m {
            stack.push(i);
        }
        proof {
            assert forall|x: int| 0 <= x < i + 1 && #[trigger] marks@[x] implies stack@.contains(x as usize) by {
                if x < i {
                    let j = choose|j: int| 0 <= j < old_stack.len() && old_stack[j] == x as usize;
                    assert(stack@[j] == x as usize);
                } else {
                    assert(stack@[stack@.len() - 1] == i);
                }
            }
        }
        i = i + 1;
    }
    let ghost mut origin: Seq<int> = Seq::new(n as nat, |v: int| v);
    proof {
        assert forall|v: int| 0 <= v < n && marks@[v] implies 0 <= #[trigger] origin[v] < n && sources@[origin[v]]
            && reaches(gv, origin[v], v) by {
            lemma_reaches_refl(gv, v);
            assert(sources@[v]);
        }
    }
    while stack.len() > 0
        invariant
            n == g@.len(),
            gv == g@.map_values(|v: Vec<usize>| v@),
            valid_graph(gv),
            sources@.len() == n,
            marks@.len() == n,
            forall|x: int| 0 <= x < n && #[trigger] sources@[x] ==> marks@[x],
            forall|j: int| 0 <= j < stack@.len() ==> #[trigger] stack@[j] < n && marks@[stack@[j] as int],
            origin.len() == n,
            forall|v: int|
                0 <= v < n && marks@[v] ==> 0 <= #[trigger] origin[v] < n && sources@[origin[v]] && reaches(gv, origin[v], v),
            forall|x: int, k: int|
                0 <= x < n && marks@[x] && !stack@.contains(x as usize) && 0 <= k < gv[x].len()
                    ==> marks@[#[trigger] gv[x][k] as int],
        decreases count_false(marks@), stack@.len(),
    {
        let ghost stack_before = stack@;
        let u = stack.pop().unwrap();
        let ghost stack_after_pop = stack@;
        assert forall|x: int|
            0 <= x < n && !stack_after_pop.contains(x as usize) && x != u as int implies !#[trigger] stack_before.contains(
            x as usize,
        ) by {
            if stack_before.contains(x as usize) {
                let j = choose|j: int| 0 <= j < stack_before.len() && stack_before[j] == x as usize;
                if j < stack_after_pop.len() {
                    assert(stack_after_pop[j] == x as usize);
                }
            }
        }
        let ghost marks_at_pop = marks@;
        assert(gv[u as int] == g@[u as int]@);
        let succ = &g[u];
        let mut k: usize = 0;
        while k < succ.len()
            invariant
                n == g@.len(),
                gv == g@.map_values(|v: Vec<usize>| v@),
                valid_graph(gv),
                u < n,
                succ@ == gv[u as int],
                marks@.len() == n,
                marks@[u as int],
                sources@.len() == n,
                forall|x: int| 0 <= x < n && #[trigger] sources@[x] ==> marks@[x],
                k <= succ@.len(),
                count_false(marks@) <= count_false(marks_at_pop),
                stack@.len() >= stack_after_pop.len(),
                stack@.len() > stack_after_pop.len() ==> count_false(marks@) < count_false(marks_at_pop),
                forall|j: int| 0 <= j < stack_after_pop.len() ==> stack@[j] == stack_after_pop[j],
                forall|j: int| 0 <= j < stack@.len() ==> #[trigger] stack@[j] < n && marks@[stack@[j] as int],
                origin.len() == n,
                forall|v: int|
                    0 <= v < n && marks@[v] ==> 0 <= #[trigger] origin[v] < n && sources@[origin[v]] && reaches(gv, origin[v], v),
                forall|j: int| 0 <= j < k ==> marks@[#[trigger] succ@[j] as int],
                forall|x: int| 0 <= x < n && marks_at_pop[x] ==> marks@[x],
                forall|x: int, kk: int|
                    0 <= x < n && marks@[x] && x != u && !stack@.contains(x as usize) && 0 <= kk
                        < gv[x].len() ==> marks@[#[trigger] gv[x][kk] as int],
            decreases succ@.len() - k,
        {
            let w = succ[k];
            assert(gv[u as int][k as int] == w);
            assert(w < n);
            if !marks[w] {
                proof {
                    lemma_reaches_step(gv, origin[u as int], u as int, k as int);
                    lemma_count_false_update(marks@, w as int);
                    origin = origin.update(w as int, origin[u as int]);
                }
                let ghost old_marks = marks@;
                let ghost old_stack = stack@;
                marks.set(w, true);
                stack.push(w);
                assert forall|x: int, kk: int|
                    0 <= x < n && marks@[x] && x != u && !stack@.contains(x as usize) && 0 <= kk
                        < gv[x].len() implies marks@[#[trigger] gv[x][kk] as int] by {
                    assert(stack@[stack@.len() - 1] == w);
                    if x == w as int {
                        assert(stack@.contains(x as usize));
                    } else {
                        assert(old_marks[x]);
                        if old_stack.contains(x as usize) {
                            let j = choose|j: int| 0 <= j < old_stack.len() && old_stack[j] == x as usize;
                            assert(stack@[j] == x as usize);
                        }
                        assert(old_marks[gv[x][kk] as int]);
                    }
                }
            }
            k = k + 1;
        }
        assert forall|x: int, kk: int|
            0 <= x < n && marks@[x] && !stack@.contains(x as usize) && 0 <= kk < gv[x].len()
                implies marks@[#[trigger] gv[x][kk] as int] by {
            if x == u as int {
                assert(succ@[kk] == gv[x][kk]);
            }
        }
    }
    proof {
        assert forall|v: int| 0 <= v < n implies (marks@[v] <==> exists|s: int|
            0 <= s < n && #[trigger] sources@[s] && reaches(gv, s, v)) by {
            if exists|s: int| 0 <= s < n && #[trigger] sources@[s] && reaches(gv, s, v) {
                let s = choose|s: int| 0 <= s < n && #[trigger] sources@[s] && reaches(gv, s, v);
                lemma_closed_reach(gv, marks@, s, v);
            }
            if marks@[v] {
                let s = origin[v];
                assert(0 <= s < n && sources@[s] && reaches(gv, s, v));
            }
        }
    }
    marks
}

/// The nodes that `source` reaches.
pub fn reachable_from(g: &Vec<Vec<usize>>, source: usize) -> (r: Vec<bool>)
    requires
        valid_graph(g@.map_values(|v: Vec<usize>| v@)),
        source < g@.len(),
    ensures
        r@.len() == g@.len(),
        forall|v: int|
            0 <= v < g@.len() ==> (r@[v] <==> reaches(
                g@.map_values(|x: Vec<usize>| x@),
                source as int,
                v,
            )),
{
    let ghost gv = g@.map_values(|v: Vec<usize>| v@);
    let n = g.len();
    let mut sources: Vec<bool> = Vec::new();
    let mut i: usize = 0;
    while i < n
        invariant
            i <= n,
            sources@.len() == i,
            forall|j: int| 0 <= j < i ==> #[trigger] sources@[j] == (j == source as int),
        decreases n - i,
    {
        sources.push(i == source);
        i = i + 1;
    }
    let r = reached_from_marked(g, &sources);
    proof {
        assert forall|v: int| 0 <= v < n implies (r@[v] <==> reaches(gv, source as int, v)) by {
            if reaches(gv, source as int, v) {
                assert(sources@[source as int]);
            }
        }
    }
    r
}

/// Every edge of `g1`, turned round, is an edge of `g2`.
pub open spec fn edges_turned(g1: Seq<Seq<usize>>, g2: Seq<Seq<usize>>) -> bool {
    forall|u: int, v: int| 0 <= u < g1.len() && 0 <= v < g1.len() && #[trigger] has_edge(g1, u, v) ==> has_edge(g2, v, u)
}

/// A walk of `g1` read backwards is a walk of `g2` when `g2` holds the edges of `g1` turned
/// round.
pub proof fn lemma_reaches_turned(g1: Seq<Seq<usize>>, g2: Seq<Seq<usize>>, a: int, b: int)
    requires
        edges_turned(g1, g2),
        g1.len() == g2.len(),
        reaches(g1, a, b),
    ensures
        reaches(g2, b, a),
{
    let p = choose|p: Seq<int>| #[trigger] is_path(g1, p) && p[0] == a && p.last() == b;
    let q = p.reverse();
    let n = p.len();
    assert forall|i: int| 0 <= i < q.len() implies 0 <= #[trigger] q[i] < g2.len() by {
        assert(q[i] == p[n - 1 - i]);
    }
    assert forall|i: int| 0 <= i < q.len() - 1 implies #[trigger] path_step(g2, q, i) by {
        let j = n - 2 - i;
        assert(path_step(g1, p, j));
        assert(q[i] == p[j + 1]);
        assert(q[i + 1] == p[j]);
        assert(0 <= p[j] < g1.len() && 0 <= p[j + 1] < g1.len());
        assert(has_edge(g1, p[j], p[j + 1]));
    }
    assert(q[0] == b);
    assert(q.last() == a);
    assert(is_path(g2, q));
}

/// The graph with every edge turned round.
pub fn reverse_graph(g: &Vec<Vec<usize>>) -> (r: Vec<Vec<usize>>)
    requires
        valid_graph(g@.map_values(|v: Vec<usize>| v@)),
    ensures
        r@.len() == g@.len(),
        valid_graph(r@.map_values(|v: Vec<usize>| v@)),
        edges_turned(g@.map_values(|v: Vec<usize>| v@), r@.map_values(|v: Vec<usize>| v@)),
        edges_turned(r@.map_values(|v: Vec<usize>| v@), g@.map_values(|v: Vec<usize>| v@)),
{
    let ghost gv = g@.map_values(|v: Vec<usize>| v@);
    let n = g.len();
    assert(gv.len() == n);
    let mut r: Vec<Vec<usize>> = Vec::new();
    let mut i: usize = 0;
    while i < n
        invariant
            i <= n,
            r@.len() == i,
            forall|x: int| 0 <= x < i ==> (#[trigger] r@[x])@.len() == 0,
        decreases n - i,
    {
        r.push(Vec::new());
        i = i + 1;
    }
    let mut u: usize = 0;
    while u < n
        invariant
            n == g@.len(),
            gv == g@.map_values(|x: Vec<usize>| x@),
            gv.len() == n,
            valid_graph(gv),
            u <= n,
            r@.len() == n,
            forall|x: int, j: int| 0 <= x < n && 0 <= j < r@[x]@.len() ==> #[trigger] r@[x]@[j] < u,
            forall|x: int, y: int|
                0 <= x < n && 0 <= y < u ==> (#[trigger] r@[x]@.contains(y as usize) <==> has_edge(gv, y, x)),
        decreases n - u,
    {
        assert(gv[u as int] == g@[u as int]@);
        let succ = &g[u];
        let ghost base = r@;
        let mut k: usize = 0;
        while k < succ.len()
            invariant
                n == g@.len(),
                gv.len() == n,
                valid_graph(gv),
                u < n,
                succ@ == gv[u as int],
                k <= succ@.len(),
                r@.len() == n,
                base.len() == n,
                forall|x: int| 0 <= x < n ==> (#[trigger] r@[x])@.len() >= base[x]@.len(),
                forall|x: int, j: int| 0 <= x < n && 0 <= j < base[x]@.len() ==> #[trigger] r@[x]@[j] == base[x]@[j],
                forall|x: int, j: int| 0 <= x < n && base[x]@.len() <= j < r@[x]@.len() ==> #[trigger] r@[x]@[j] == u,
                forall|x: int|
                    0 <= x < n ==> (#[trigger] r@[x]@.contains(u) <==> exists|kk: int|
                        0 <= kk < k && #[trigger] succ@[kk] as int == x),
            decreases succ@.len() - k,
        {
            let w = succ[k];
            assert(gv[u as int][k as int] == w);
            assert(w < n);
            let ghost prev = r@;
            r[w].push(u);
            assert(r@[w as int]@ == prev[w as int]@.push(u));
            assert forall|x: int| 0 <= x < n && x != w implies #[trigger] r@[x] == prev[x] by {}
            assert forall|x: int|
                0 <= x < n implies (#[trigger] r@[x]@.contains(u) <==> exists|kk: int|
                    0 <= kk < k + 1 && #[trigger] succ@[kk] as int == x) by {
                if x == w as int {
                    assert(r@[x]@[r@[x]@.len() - 1] == u);
                    assert(succ@[k as int] as int == x);
                } else {
                    if exists|kk: int| 0 <= kk < k + 1 && #[trigger] succ@[kk] as int == x {
                        let kk = choose|kk: int| 0 <= kk < k + 1 && #[trigger] succ@[kk] as int == x;
                        assert(kk < k);
                    }
                }
            }
            k = k + 1;
        }
        assert forall|x: int, y: int|
            0 <= x < n && 0 <= y < u + 1 implies (#[trigger] r@[x]@.contains(y as usize) <==> has_edge(gv, y, x)) by {
            if y < u {
                if r@[x]@.contains(y as usize) {
                    let j = choose|j: int| 0 <= j < r@[x]@.len() && r@[x]@[j] == y as usize;
                    assert(j < base[x]@.len());
                    assert(base[x]@[j] == y as usize);
                    assert(base[x]@.contains(y as usize));
                }
                if base[x]@.contains(y as usize) {
                    let j = choose|j: int| 0 <= j < base[x]@.len() && base[x]@[j] == y as usize;
                    assert(r@[x]@[j] == y as usize);
                }
            } else {
                if has_edge(gv, y, x) {
                    let kk = choose|kk: int| 0 <= kk < gv[y].len() && #[trigger] gv[y][kk] as int == x;
                    assert(succ@[kk] as int == x);
                }
            }
        }
        assert forall|x: int, j: int| 0 <= x < n && 0 <= j < r@[x]@.len() implies #[trigger] r@[x]@[j] < u + 1 by {
            if j < base[x]@.len() {
                assert(base[x]@[j] < u);
            }
        }
        u = u + 1;
    }
    let ghost rv = r@.map_values(|x: Vec<usize>| x@);
    assert forall|x: int, k: int| 0 <= x < rv.len() && 0 <= k < rv[x].len() implies #[trigger] rv[x][k] < rv.len() by {
        assert(rv[x] == r@[x]@);
    }
    assert forall|a: int, b: int| 0 <= a < gv.len() && 0 <= b < gv.len() && #[trigger] has_edge(gv, a, b) implies has_edge(rv, b, a) by {
        assert(rv[b] == r@[b]@);
        assert(r@[b]@.contains(a as usize));
        let j = choose|j: int| 0 <= j < r@[b]@.len() && r@[b]@[j] == a as usize;
        assert(rv[b][j] as int == a);
    }
    assert forall|a: int, b: int| 0 <= a < rv.len() && 0 <= b < rv.len() && #[trigger] has_edge(rv, a, b) implies has_edge(gv, b, a) by {
        assert(rv[a] == r@[a]@);
        let j = choose|j: int| 0 <= j < rv[a].len() && #[trigger] rv[a][j] as int == b;
        assert(r@[a]@.contains(b as usize)) by {
            assert(r@[a]@[j] == b as usize);
        }
    }
    r
}

/// `u` and `v` reach each other.
pub open spec fn mutual(g: Seq<Seq<usize>>, u: int, v: int) -> bool {
    reaches(g, u, v) && reaches(g, v, u)
}


/// The nodes `w < n` with `u` and `w` reaching each other, in increasing order.
pub open spec fn component_of(g: Seq<Seq<usize>>, u: int) -> Seq<usize> {
    filter_ids(g.len(), |w: int| mutual(g, u, w))
}

pub proof fn lemma_mutual_class(g: Seq<Seq<usize>>, u: int, v: int, w: int)
    requires
        mutual(g, u, v),
    ensures
        mutual(g, u, w) <==> mutual(g, v, w),
{
    if mutual(g, u, w) {
        lemma_reaches_trans(g, v, u, w);
        lemma_reaches_trans(g, w, u, v);
    }
    if mutual(g, v, w) {
        lemma_reaches_trans(g, u, v, w);
        lemma_reaches_trans(g, w, v, u);
    }
}

/// Some component holds `v`.
pub open spec fn covered(comps: Seq<Vec<usize>>, v: int) -> bool {
    exists|c: int| 0 <= c < comps.len() && #[trigger] comps[c]@.contains(v as usize)
}

/// The first id that a filter keeps is the least one it keeps.
proof fn lemma_filter_first(n: nat, p: spec_fn(int) -> bool, x: int)
    requires
        0 <= x < n,
        p(x),
    ensures
        filter_ids(n, p).len() > 0,
        filter_ids(n, p)[0] <= x,
    decreases n,
{
    if x < n - 1 {
        lemma_filter_first((n - 1) as nat, p, x);
        let prev = filter_ids((n - 1) as nat, p);
        if p(n - 1) {
            assert(prev.push((n - 1) as usize)[0] == prev[0]);
        }
    } else {
        let prev = filter_ids((n - 1) as nat, p);
        if prev.len() > 0 {
            assert(prev.push((n - 1) as usize)[0] == prev[0]);
            lemma_filter_bound((n - 1) as nat, p);
        }
    }
}

proof fn lemma_filter_bound(n: nat, p: spec_fn(int) -> bool)
    ensures
        forall|k: int| 0 <= k < filter_ids(n, p).len() ==> #[trigger] filter_ids(n, p)[k] < n,
    decreases n,
{
    if n > 0 {
        lemma_filter_bound((n - 1) as nat, p);
        let prev = filter_ids((n - 1) as nat, p);
        if p(n - 1) {
            assert forall|k: int| 0 <= k < prev.push((n - 1) as usize).len() implies #[trigger] prev.push((n - 1) as usize)[k] < n by {
                if k < prev.len() {
                    assert(prev[k] < n - 1);
                }
            }
        }
    }
}

/// The number of `true` entries.
pub open spec fn count_true(s: Seq<bool>) -> nat
    decreases s.len(),
{
    if s.len() == 0 {
        0
    } else {
        count_true(s.drop_last()) + if s.last() {
            1nat
        } else {
            0nat
        }
    }
}

pub(crate) proof fn lemma_count_true_bound(s: Seq<bool>)
    ensures
        count_true(s) <= s.len(),
    decreases s.len(),
{
    if s.len() > 0 {
        lemma_count_true_bound(s.drop_last());
    }
}

proof fn lemma_count_true_pos(s: Seq<bool>, j: int)
    requires
        0 <= j < s.len(),
        s[j],
    ensures
        count_true(s) >= 1,
    decreases s.len(),
{
    if j < s.len() - 1 {
        lemma_count_true_pos(s.drop_last(), j);
    }
}

proof fn lemma_count_true_le(s: Seq<bool>, t: Seq<bool>)
    requires
        s.len() == t.len(),
        forall|i: int| 0 <= i < s.len() && #[trigger] s[i] ==> t[i],
    ensures
        count_true(s) <= count_true(t),
    decreases s.len(),
{
    if s.len() > 0 {
        let s1 = s.drop_last();
        let t1 = t.drop_last();
        assert forall|i: int| 0 <= i < s1.len() && #[trigger] s1[i] implies t1[i] by {
            assert(s[i]);
        }
        lemma_count_true_le(s1, t1);
        if s.last() {
            assert(s[s.len() - 1]);
        }
    }
}

/// Pointwise fewer entries, and one fewer at `j`, give a smaller count.
proof fn lemma_count_true_lt(s: Seq<bool>, t: Seq<bool>, j: int)
    requires
        s.len() == t.len(),
        forall|i: int| 0 <= i < s.len() && #[trigger] s[i] ==> t[i],
        0 <= j < s.len(),
        !s[j],
        t[j],
    ensures
        count_true(s) < count_true(t),
    decreases s.len(),
{
    let s1 = s.drop_last();
    let t1 = t.drop_last();
    assert forall|i: int| 0 <= i < s1.len() && #[trigger] s1[i] implies t1[i] by {
        assert(s[i]);
    }
    if j == s.len() - 1 {
        lemma_count_true_le(s1, t1);
    } else {
        assert(s1[j] == s[j]);
        lemma_count_true_lt(s1, t1, j);
        if s.last() {
            assert(s[s.len() - 1]);
        }
    }
}

/// The number of entries of a row that are set.
fn count_row(row: &Vec<bool>) -> (r: usize)
    ensures
        r == count_true(row@),
{
    let mut c: usize = 0;
    let mut i: usize = 0;
    while i < row.len()
        invariant
            i <= row@.len(),
            c == count_true(row@.take(i as int)),
            c <= i,
        decreases row@.len() - i,
    {
        proof {
            assert(row@.take(i + 1).drop_last() =~= row@.take(i as int));
            assert(row@.take(i + 1).last() == row@[i as int]);
        }
        if row[i] {
            c = c + 1;
        }
        i = i + 1;
    }
    proof {
        assert(row@.take(row@.len() as int) =~= row@);
    }
    c
}

/// The nodes that `u` reaches, as marks.
pub open spec fn reach_row(g: Seq<Seq<usize>>, u: int) -> Seq<bool> {
    Seq::new(g.len(), |v: int| reaches(g, u, v))
}

/// Nodes that reach each other reach the same number of nodes.
proof fn lemma_count_mutual(g: Seq<Seq<usize>>, a: int, b: int)
    requires
        0 <= a < g.len(),
        0 <= b < g.len(),
        mutual(g, a, b),
    ensures
        count_true(reach_row(g, a)) == count_true(reach_row(g, b)),
{
    assert forall|w: int| 0 <= w < g.len() implies reach_row(g, a)[w] == reach_row(g, b)[w] by {
        if reaches(g, a, w) {
            lemma_reaches_trans(g, b, a, w);
        }
        if reaches(g, b, w) {
            lemma_reaches_trans(g, a, b, w);
        }
    }
    assert(reach_row(g, a) =~= reach_row(g, b));
}

/// A node reaches more nodes than one it reaches but that does not reach it back.
proof fn lemma_count_down(g: Seq<Seq<usize>>, a: int, b: int)
    requires
        0 <= a < g.len(),
        0 <= b < g.len(),
        reaches(g, a, b),
        !reaches(g, b, a),
    ensures
        count_true(reach_row(g, b)) < count_true(reach_row(g, a)),
{
    let s = reach_row(g, b);
    let t = reach_row(g, a);
    assert forall|i: int| 0 <= i < s.len() && #[trigger] s[i] implies t[i] by {
        lemma_reaches_trans(g, a, b, i);
    }
    lemma_reaches_refl(g, a);
    assert(t[a]);
    assert(!s[a]);
    lemma_count_true_lt(s, t, a);
}

/// A member of the component of `f` has the same component, and reaches each other with `f`.
pub proof fn lemma_component_member(g: Seq<Seq<usize>>, f: int, x: int)
    requires
        g.len() <= usize::MAX,
        0 <= x < g.len(),
        component_of(g, f).contains(x as usize),
    ensures
        mutual(g, f, x),
        component_of(g, f) == component_of(g, x),
{
    let pf = |w: int| mutual(g, f, w);
    let px = |w: int| mutual(g, x, w);
    lemma_filter_ids(g.len(), pf);
    assert(pf(x));
    assert(pf =~= px) by {
        assert forall|w: int| #[trigger] pf(w) == px(w) by {
            lemma_mutual_class(g, f, x, w);
        }
    }
}

/// Collects, in increasing order, the nodes that reach each other with `v`, and marks them.
fn collect_class(g: &Vec<Vec<usize>>, rev: &Vec<Vec<usize>>, v: usize, assigned: &mut Vec<bool>) -> (comp: Vec<usize>)
    requires
        valid_graph(g@.map_values(|x: Vec<usize>| x@)),
        rev@.len() == g@.len(),
        valid_graph(rev@.map_values(|x: Vec<usize>| x@)),
        edges_turned(rev@.map_values(|x: Vec<usize>| x@), g@.map_values(|x: Vec<usize>| x@)),
        edges_turned(g@.map_values(|x: Vec<usize>| x@), rev@.map_values(|x: Vec<usize>| x@)),
        v < g@.len(),
        old(assigned)@.len() == g@.len(),
    ensures
        comp@ == component_of(g@.map_values(|x: Vec<usize>| x@), v as int),
        final(assigned)@.len() == g@.len(),
        forall|x: int|
            0 <= x < g@.len() ==> #[trigger] final(assigned)@[x] == (old(assigned)@[x] || mutual(
                g@.map_values(|y: Vec<usize>| y@),
                v as int,
                x,
            )),
{
    let ghost gv = g@.map_values(|x: Vec<usize>| x@);
    let ghost p = |w: int| mutual(gv, v as int, w);
    let ghost rv = rev@.map_values(|x: Vec<usize>| x@);
    let ghost before = assigned@;
    let n = g.len();
    assert(gv.len() == n);
    assert(rv.len() == n);
    let fwd = reachable_from(g, v);
    let bwd = reachable_from(rev, v);
    assert forall|x: int| 0 <= x < n implies (#[trigger] p(x) <==> fwd@[x] && bwd@[x]) by {
        if reaches(rv, v as int, x) {
            lemma_reaches_turned(rv, gv, v as int, x);
        }
        if reaches(gv, x, v as int) {
            lemma_reaches_turned(gv, rv, x, v as int);
        }
    }
    let mut comp: Vec<usize> = Vec::new();
    let mut w: usize = 0;
    while w < n
        invariant
            n == g@.len(),
            gv == g@.map_values(|x: Vec<usize>| x@),
            gv.len() == n,
            v < n,
            w <= n,
            fwd@.len() == n,
            bwd@.len() == n,
            forall|x: int| 0 <= x < n ==> (#[trigger] p(x) <==> fwd@[x] && bwd@[x]),
            assigned@.len() == n,
            forall|x: int| #[trigger] p(x) == mutual(gv, v as int, x),
            comp@ == filter_ids(w as nat, p),
            forall|x: int| 0 <= x < w ==> #[trigger] assigned@[x] == (before[x] || p(x)),
            forall|x: int| w <= x < n ==> #[trigger] assigned@[x] == before[x],
        decreases n - w,
    {
        if fwd[w] && bwd[w] {
            comp.push(w);
            assigned.set(w, true);
        }
        w = w + 1;
    }
    proof {
        assert(component_of(gv, v as int) == filter_ids(n as nat, p)) by {
            assert((|x: int| mutual(gv, v as int, x)) =~= p);
        }
    }
    comp
}

/// What the components collected so far satisfy: each is the component of its first node,
/// their first nodes are marked and distinct, their counts of reached nodes are at most
/// `bound` and do not fall along the list, the marked nodes are those they cover, and no
/// class is marked in part.
pub open spec fn components_so_far(
    g: Seq<Seq<usize>>,
    comps: Seq<Vec<usize>>,
    assigned: Seq<bool>,
    bound: int,
) -> bool {
    &&& forall|w: int| 0 <= w < g.len() && assigned[w] ==> #[trigger] covered(comps, w)
    &&& forall|c: int|
        0 <= c < comps.len() ==> (#[trigger] comps[c])@ == component_of(g, comps[c]@[0] as int)
    &&& forall|c: int| 0 <= c < comps.len() ==> (#[trigger] comps[c])@.len() > 0
    &&& forall|c: int| 0 <= c < comps.len() ==> (#[trigger] comps[c])@[0] < g.len()
    &&& forall|c: int| 0 <= c < comps.len() ==> assigned[(#[trigger] comps[c])@[0] as int]
    &&& forall|c: int|
        0 <= c < comps.len() ==> count_true(reach_row(g, (#[trigger] comps[c])@[0] as int)) <= bound
    &&& forall|c1: int, c2: int|
        0 <= c1 < c2 < comps.len() ==> count_true(reach_row(g, (#[trigger] comps[c1])@[0] as int))
            <= count_true(reach_row(g, (#[trigger] comps[c2])@[0] as int))
    &&& forall|c1: int, c2: int|
        0 <= c1 < c2 < comps.len() ==> (#[trigger] comps[c1])@[0] != (#[trigger] comps[c2])@[0]
    &&& forall|x: int, y: int|
        0 <= x < g.len() && 0 <= y < g.len() && #[trigger] assigned[x] && #[trigger] mutual(g, x, y)
            ==> assigned[y]
}

/// The strongly connected components: every node lies in one of them, each of them is the
/// set of nodes that reach each other with any of its members, listed in increasing order,
/// no two are the same, and a component comes after every other component that its nodes
/// reach (reverse topological order).
pub fn components(g: &Vec<Vec<usize>>) -> (r: Vec<Vec<usize>>)
    requires
        valid_graph(g@.map_values(|v: Vec<usize>| v@)),
    ensures
        forall|v: int| 0 <= v < g@.len() ==> #[trigger] covered(r@, v),
        forall|c: int|
            0 <= c < r@.len() ==> (#[trigger] r@[c])@ == component_of(
                g@.map_values(|x: Vec<usize>| x@),
                r@[c]@[0] as int,
            ),
        forall|c: int| 0 <= c < r@.len() ==> (#[trigger] r@[c])@.len() > 0,
        forall|c1: int, c2: int|
            0 <= c1 < r@.len() && 0 <= c2 < r@.len() && c1 != c2 ==> (#[trigger] r@[c1])@[0]
                != (#[trigger] r@[c2])@[0],
        forall|c1: int, c2: int, u: usize, v: usize|
            0 <= c1 < r@.len() && 0 <= c2 < r@.len() && c1 != c2 && #[trigger] r@[c1]@.contains(u)
                && #[trigger] r@[c2]@.contains(v) && reaches(
                g@.map_values(|x: Vec<usize>| x@),
                u as int,
                v as int,
            ) ==> c2 < c1,
{
    let ghost gv = g@.map_values(|x: Vec<usize>| x@);
    let n = g.len();
    proof {
        assert(gv.len() == n);
    }
    let rev = reverse_graph(g);
    let mut keys: Vec<usize> = Vec::new();
    let mut i: usize = 0;
    while i < n
        invariant
            i <= n,
            n == g@.len(),
            gv == g@.map_values(|x: Vec<usize>| x@),
            gv.len() == n,
            valid_graph(gv),
            keys@.len() == i,
            forall|j: int| 0 <= j < i ==> #[trigger] keys@[j] as int == count_true(reach_row(gv, j)),
        decreases n - i,
    {
        let row = reachable_from(g, i);
        assert(row@ =~= reach_row(gv, i as int));
        let k = count_row(&row);
        keys.push(k);
        i = i + 1;
    }
    let mut assigned: Vec<bool> = Vec::new();
    let mut i: usize = 0;
    while i < n
        invariant
            i <= n,
            assigned@.len() == i,
            forall|j: int| 0 <= j < i ==> !assigned@[j],
        decreases n - i,
    {
        assigned.push(false);
        i = i + 1;
    }
    let mut comps: Vec<Vec<usize>> = Vec::new();
    proof {
        assert forall|w: int| 0 <= w < n implies keys@[w] >= 1 by {
            lemma_reaches_refl(gv, w);
            assert(reach_row(gv, w)[w]);
            lemma_count_true_pos(reach_row(gv, w), w);
        }
    }
    let mut level: usize = 0;
    while level < n
        invariant
            n == g@.len(),
            gv == g@.map_values(|x: Vec<usize>| x@),
            gv.len() == n,
            rev@.len() == n,
            valid_graph(gv),
            valid_graph(rev@.map_values(|x: Vec<usize>| x@)),
            edges_turned(rev@.map_values(|x: Vec<usize>| x@), gv),
            edges_turned(gv, rev@.map_values(|x: Vec<usize>| x@)),
            keys@.len() == n,
            forall|j: int| 0 <= j < n ==> #[trigger] keys@[j] as int == count_true(reach_row(gv, j)),
            level <= n,
            assigned@.len() == n,
            forall|w: int| 0 <= w < n && keys@[w] <= level ==> #[trigger] assigned@[w],
            components_so_far(gv, comps@, assigned@, level as int),
        decreases n - level,
    {
        let target = level + 1;
        let mut v: usize = 0;
        while v < n
            invariant
                n == g@.len(),
                gv == g@.map_values(|x: Vec<usize>| x@),
                gv.len() == n,
                rev@.len() == n,
                valid_graph(gv),
                valid_graph(rev@.map_values(|x: Vec<usize>| x@)),
                edges_turned(rev@.map_values(|x: Vec<usize>| x@), gv),
                edges_turned(gv, rev@.map_values(|x: Vec<usize>| x@)),
                keys@.len() == n,
                forall|j: int| 0 <= j < n ==> #[trigger] keys@[j] as int == count_true(reach_row(gv, j)),
                level < n,
                target == level + 1,
                v <= n,
                assigned@.len() == n,
                forall|w: int| 0 <= w < n && keys@[w] <= level ==> #[trigger] assigned@[w],
                forall|w: int| 0 <= w < v && keys@[w] == target ==> #[trigger] assigned@[w],
                components_so_far(gv, comps@, assigned@, target as int),
            decreases n - v,
        {
            if !assigned[v] && keys[v] == target {
                let ghost before = assigned@;
                let ghost comps_before = comps@;
                let comp = collect_class(g, &rev, v, &mut assigned);
                proof {
                    let p = |x: int| mutual(gv, v as int, x);
                    lemma_reaches_refl(gv, v as int);
                    lemma_filter_ids(n as nat, p);
                    assert(p(v as int));
                    assert(comp@.contains(v as usize));
                    lemma_filter_first(n as nat, p, v as int);
                    let first = comp@[0] as int;
                    assert(p(first));
                    if first < v {
                        lemma_count_mutual(gv, v as int, first);
                        assert(keys@[first] == target);
                        assert(before[first]);
                        assert(mutual(gv, first, v as int));
                        assert(before[v as int]);
                        assert(false);
                    }
                    assert(first == v);
                }
                comps.push(comp);
                proof {
                    let last = comps_before.len() as int;
                    assert(comps@[last]@[0] == v);
                    assert forall|x: int| 0 <= x < n && #[trigger] before[x] implies assigned@[x] by {}
                    assert forall|c: int| 0 <= c < comps@.len() implies assigned@[(#[trigger] comps@[c])@[0] as int] by {
                        if c < last {
                            assert(comps@[c] == comps_before[c]);
                        }
                    }
                    assert forall|c1: int, c2: int|
                        0 <= c1 < c2 < comps@.len() implies (#[trigger] comps@[c1])@[0] != (#[trigger] comps@[c2])@[0] by {
                        assert(comps@[c1] == comps_before[c1]);
                        if c2 == last {
                            assert(before[comps_before[c1]@[0] as int]);
                        } else {
                            assert(comps@[c2] == comps_before[c2]);
                        }
                    }
                    assert forall|c1: int, c2: int|
                        0 <= c1 < c2 < comps@.len() implies count_true(reach_row(gv, (#[trigger] comps@[c1])@[0] as int))
                            <= count_true(reach_row(gv, (#[trigger] comps@[c2])@[0] as int)) by {
                        assert(comps@[c1] == comps_before[c1]);
                        if c2 < last {
                            assert(comps@[c2] == comps_before[c2]);
                        }
                    }
                    assert forall|c: int| 0 <= c < comps@.len() implies count_true(reach_row(gv, (#[trigger] comps@[c])@[0] as int)) <= target by {
                        if c < last {
                            assert(comps@[c] == comps_before[c]);
                        }
                    }
                    assert forall|x: int, y: int|
                        0 <= x < n && 0 <= y < n && #[trigger] assigned@[x] && #[trigger] mutual(gv, x, y)
                            implies assigned@[y] by {
                        if mutual(gv, v as int, x) {
                            lemma_mutual_class(gv, v as int, x, y);
                        } else {
                            assert(before[x]);
                        }
                    }
                    assert forall|x: int| 0 <= x < n && assigned@[x] implies #[trigger] covered(comps@, x) by {
                        if mutual(gv, v as int, x) {
                            lemma_filter_ids(n as nat, |y: int| mutual(gv, v as int, y));
                            assert(comps@[last]@.contains(x as usize));
                        } else {
                            assert(before[x]);
                            assert(covered(comps_before, x));
                            let c = choose|c: int|
                                0 <= c < comps_before.len() && #[trigger] comps_before[c]@.contains(x as usize);
                            assert(comps@[c] == comps_before[c]);
                        }
                    }
                    assert forall|c: int| 0 <= c < comps@.len() implies (#[trigger] comps@[c])@ == component_of(gv, comps@[c]@[0] as int) by {
                        if c < last {
                            assert(comps@[c] == comps_before[c]);
                        }
                    }
                    assert forall|c: int| 0 <= c < comps@.len() implies (#[trigger] comps@[c])@.len() > 0 && comps@[c]@[0] < n by {
                        if c < last {
                            assert(comps@[c] == comps_before[c]);
                        }
                    }
                    assert(assigned@[v as int]);
                }
            }
            v = v + 1;
        }
        level = level + 1;
    }
    proof {
        assert forall|w: int| 0 <= w < n implies #[trigger] covered(comps@, w) by {
            lemma_count_true_bound(reach_row(gv, w));
            assert(assigned@[w]);
        }
        assert forall|c1: int, c2: int|
            0 <= c1 < comps@.len() && 0 <= c2 < comps@.len() && c1 != c2 implies (#[trigger] comps@[c1])@[0]
                != (#[trigger] comps@[c2])@[0] by {
            if c2 < c1 {
                assert(comps@[c2]@[0] != comps@[c1]@[0]);
            }
        }
        assert forall|c1: int, c2: int, u: usize, v: usize|
            0 <= c1 < comps@.len() && 0 <= c2 < comps@.len() && c1 != c2 && #[trigger] comps@[c1]@.contains(u)
                && #[trigger] comps@[c2]@.contains(v) && reaches(gv, u as int, v as int) implies c2 < c1 by {
            let f1 = comps@[c1]@[0] as int;
            let f2 = comps@[c2]@[0] as int;
            let s1 = comps@[c1]@;
            let s2 = comps@[c2]@;
            lemma_filter_ids(n as nat, |y: int| mutual(gv, f1, y));
            lemma_filter_ids(n as nat, |y: int| mutual(gv, f2, y));
            assert(u < n && v < n);
            lemma_component_member(gv, f1, u as int);
            lemma_component_member(gv, f2, v as int);
            if reaches(gv, v as int, u as int) {
                lemma_mutual_class(gv, u as int, v as int, f2);
                assert(mutual(gv, u as int, f1));
                lemma_mutual_class(gv, u as int, f1, f2);
                lemma_component_member(gv, f1, f2);
                assert(s1 == s2);
                if c2 < c1 {
                    assert(comps@[c2]@[0] != comps@[c1]@[0]);
                } else {
                    assert(comps@[c1]@[0] != comps@[c2]@[0]);
                }
                assert(false);
            } else {
                lemma_count_down(gv, u as int, v as int);
                lemma_count_mutual(gv, f1, u as int);
                lemma_count_mutual(gv, f2, v as int);
                if c1 < c2 {
                    assert(count_true(reach_row(gv, f1)) <= count_true(reach_row(gv, f2)));
                    assert(false);
                }
            }
        }
    }
    comps
}

} // verus!
