use vstd::prelude::*;
use crate::problem::strategy::StrategyFactory;

verus! {

/// An immutable, published problem revision.
pub struct ProblemRevision {
    pub dependency_graph: DependencyGraph,
    pub strategy_factory: StrategyFactory,
}

/// For each test id (its index), the tests that are ignored when it is not accepted.
/// Lists may hold duplicates; cycles are intended.
pub struct DependencyGraph {
    pub dependents_of: Vec<Vec<u64>>,
}

/// `v` depends directly on `u`: both are tests of the graph and `v` is listed under `u`.
pub open spec fn edge(g: Seq<Seq<u64>>, u: int, v: int) -> bool {
    0 <= u < g.len() && 0 <= v < g.len() && g[u].contains(v as u64)
}

pub open spec fn is_path(g: Seq<Seq<u64>>, p: Seq<int>) -> bool {
    p.len() >= 2 && forall|i: int| 0 <= i < p.len() - 1 ==> edge(g, #[trigger] p[i], p[i + 1])
}

/// `v` is reached from `s` along one or more edges.
pub open spec fn reaches(g: Seq<Seq<u64>>, s: int, v: int) -> bool {
    exists|p: Seq<int>| #[trigger] is_path(g, p) && p[0] == s && p.last() == v
}

pub open spec fn row_views(rows: Seq<Vec<u64>>) -> Seq<Seq<u64>> {
    rows.map_values(|r: Vec<u64>| r@)
}

pub open spec fn count_false(s: Seq<bool>) -> nat
    decreases s.len(),
{
    if s.len() == 0 {
        0
    } else {
        count_false(s.drop_last()) + if s.last() {
            0nat
        } else {
            1nat
        }
    }
}

proof fn lemma_count_false_set(s: Seq<bool>, i: int)
    requires
        0 <= i < s.len(),
        !s[i],
    ensures
        count_false(s.update(i, true)) + 1 == count_false(s),
    decreases s.len(),
{
    let t = s.update(i, true);
    if i < s.len() - 1 {
        lemma_count_false_set(s.drop_last(), i);
        assert(t.drop_last() =~= s.drop_last().update(i, true));
    } else {
        assert(t.drop_last() =~= s.drop_last());
    }
}

pub open spec fn search_ok(
    g: Seq<Seq<u64>>,
    test: int,
    visited: Seq<bool>,
    result: Seq<u64>,
) -> bool {
    &&& visited.len() == g.len()
    &&& forall|v: int| 0 <= v < g.len() ==> (#[trigger] visited[v] <==> result.contains(v as u64))
    &&& forall|i: int| 0 <= i < result.len() ==> (#[trigger] result[i] as int) < g.len()
    &&& forall|i: int, j: int| 0 <= i < j < result.len() ==> result[i] != result[j]
    &&& forall|v: u64| #[trigger] result.contains(v) ==> reaches(g, test, v as int)
}

/// Visits the unvisited dependents of `u`, adding each to the result and the stack.
fn expand(
    rows: &Vec<Vec<u64>>,
    test: u64,
    u: usize,
    visited: &mut Vec<bool>,
    result: &mut Vec<u64>,
    stack: &mut Vec<u64>,
)
    requires
        u < rows@.len(),
        search_ok(row_views(rows@), test as int, old(visited)@, old(result)@),
        u as int == test as int || reaches(row_views(rows@), test as int, u as int),
    ensures
        search_ok(row_views(rows@), test as int, final(visited)@, final(result)@),
        forall|v: int| #[trigger] edge(row_views(rows@), u as int, v) ==> final(visited)@[v],
        forall|v: int| 0 <= v < rows@.len() && old(visited)@[v] ==> #[trigger] final(visited)@[v],
        forall|v: u64| old(result)@.contains(v) ==> #[trigger] final(result)@.contains(v),
        final(stack)@.len() - old(stack)@.len() == final(result)@.len() - old(result)@.len(),
        count_false(final(visited)@) + final(result)@.len() == count_false(old(visited)@) + old(result)@.len(),
        old(stack)@.len() <= final(stack)@.len(),
        old(stack)@ == final(stack)@.subrange(0, old(stack)@.len() as int),
        final(result)@ == old(result)@ + final(stack)@.subrange(old(stack)@.len() as int, final(stack)@.len() as int),
{
    let ghost g = row_views(rows@);
    let ghost s0 = stack@;
    let ghost v0 = visited@;
    let ghost r0 = result@;
    let n = rows.len();
    let row = &rows[u];
    assert(row@ == g[u as int]);
    let mut j: usize = 0;
    while j < row.len()
        invariant
            n == rows@.len(),
            g == row_views(rows@),
            row@ == g[u as int],
            u < n,
            u as int == test as int || reaches(g, test as int, u as int),
            search_ok(g, test as int, visited@, result@),
            forall|k: int| 0 <= k < j ==> (row@[k] as int) < n ==> #[trigger] visited@[row@[k] as int],
            forall|v: int| 0 <= v < n && v0[v] ==> #[trigger] visited@[v],
            forall|v: u64| r0.contains(v) ==> #[trigger] result@.contains(v),
            stack@.len() - s0.len() == result@.len() - r0.len(),
            count_false(visited@) + result@.len() == count_false(v0) + r0.len(),
            s0.len() <= stack@.len(),
            s0 == stack@.subrange(0, s0.len() as int),
            result@ == r0 + stack@.subrange(s0.len() as int, stack@.len() as int),
        decreases row@.len() - j,
    {
        let v = row[j];
        if (v as usize as u64) == v && (v as usize) < n && !visited[v as usize] {
            let vi = v as usize;
            let ghost rb = result@;
            let ghost vb = visited@;
            let ghost sb = stack@;
            proof {
                lemma_count_false_set(vb, vi as int);
                assert(edge(g, u as int, vi as int)) by {
                    assert(g[u as int][j as int] == v);
                }
                if u as int == test as int {
                    let p = seq![test as int, vi as int];
                    assert(is_path(g, p));
                } else {
                    let p = choose|p: Seq<int>| #[trigger] is_path(g, p) && p[0] == test as int && p.last() == u as int;
                    let q = p.push(vi as int);
                    assert forall|i: int| 0 <= i < q.len() - 1 implies edge(g, #[trigger] q[i], q[i + 1]) by {
                        if i < p.len() - 1 {
                            assert(q[i] == p[i] && q[i + 1] == p[i + 1]);
                        }
                    }
                    assert(is_path(g, q));
                }
            }
            visited.set(vi, true);
            result.push(v);
            stack.push(v);
            proof {
                assert forall|x: u64| #[trigger] result@.contains(x) implies rb.contains(x) || x == v by {
                    vstd::seq_lib::lemma_seq_contains_after_push(rb, v, x);
                }
                assert forall|x: int| 0 <= x < n implies (#[trigger] visited@[x] <==> result@.contains(x as u64)) by {
                    vstd::seq_lib::lemma_seq_contains_after_push(rb, v, x as u64);
                }
                assert forall|x: u64| rb.contains(x) implies #[trigger] result@.contains(x) by {
                    vstd::seq_lib::lemma_seq_contains_after_push(rb, v, x);
                }
                assert(stack@.subrange(0, s0.len() as int) =~= sb.subrange(0, s0.len() as int));
                assert(result@ =~= r0 + stack@.subrange(s0.len() as int, stack@.len() as int));
                assert forall|a: int, b: int| 0 <= a < b < result@.len() implies result@[a] != result@[b] by {
                    if b == rb.len() {
                        assert(!rb.contains(v));
                        if result@[a] == result@[b] {
                            assert(rb[a] == v);
                        }
                    }
                }
            }
        }
        j += 1;
    }
    proof {
        assert forall|v: int| #[trigger] edge(g, u as int, v) implies visited@[v] by {
            let k = choose|k: int| 0 <= k < row@.len() && row@[k] == v as u64;
            assert(row@[k] as int == v);
        }
    }
}

/// After popping `u` and pushing new entries, every other entry of the old stack is still on it.
proof fn lemma_stack_after_expand(sb: Seq<u64>, sp: Seq<u64>, u: u64, st: Seq<u64>)
    requires
        sb == sp.push(u),
        sp.len() <= st.len(),
        sp == st.subrange(0, sp.len() as int),
    ensures
        forall|w: u64| w != u && #[trigger] sb.contains(w) ==> st.contains(w),
{
    assert forall|w: u64| w != u && #[trigger] sb.contains(w) implies st.contains(w) by {
        let i = choose|i: int| 0 <= i < sb.len() && sb[i] == w;
        assert(i < sp.len());
        assert(st.subrange(0, sp.len() as int)[i] == w);
        assert(st[i] == w);
    }
}

proof fn lemma_step(
    g: Seq<Seq<u64>>,
    test: int,
    sb: Seq<u64>,
    sp: Seq<u64>,
    u: u64,
    st: Seq<u64>,
    rb: Seq<u64>,
    r: Seq<u64>,
    vb: Seq<bool>,
    va: Seq<bool>,
)
    requires
        sb == sp.push(u),
        sp.len() <= st.len(),
        sp == st.subrange(0, sp.len() as int),
        r == rb + st.subrange(sp.len() as int, st.len() as int),
        vb.len() == g.len(),
        forall|i: int| 0 <= i < sb.len() ==> rb.contains(#[trigger] sb[i]),
        forall|w: u64, v: int| rb.contains(w) && !sb.contains(w) && #[trigger] edge(g, w as int, v) ==> vb[v],
        forall|v: int| 0 <= v < g.len() && vb[v] ==> #[trigger] va[v],
        forall|v: int| #[trigger] edge(g, u as int, v) ==> va[v],
    ensures
        forall|i: int| 0 <= i < st.len() ==> r.contains(#[trigger] st[i]),
        forall|w: u64, v: int| r.contains(w) && !st.contains(w) && #[trigger] edge(g, w as int, v) ==> va[v],
{
    lemma_stack_after_expand(sb, sp, u, st);
    assert forall|i: int| 0 <= i < st.len() implies r.contains(#[trigger] st[i]) by {
        if i < sp.len() {
            assert(st.subrange(0, sp.len() as int)[i] == st[i]);
            assert(sb[i] == st[i]);
            assert(rb.contains(sb[i]));
            let k = choose|k: int| 0 <= k < rb.len() && rb[k] == sb[i];
            assert(r[k] == rb[k]);
        } else {
            assert(r[rb.len() + i - sp.len()] == st[i]);
        }
    }
    assert forall|w: u64, v: int| r.contains(w) && !st.contains(w) && #[trigger] edge(g, w as int, v) implies va[v] by {
        if w != u {
            let k = choose|k: int| 0 <= k < r.len() && r[k] == w;
            if k >= rb.len() {
                assert(st[sp.len() + k - rb.len()] == w);
            } else {
                assert(rb[k] == w);
                assert(!sb.contains(w));
                assert(vb[v]);
            }
        }
    }
}

proof fn lemma_no_paths_from_outside(g: Seq<Seq<u64>>, test: int)
    requires
        !(0 <= test < g.len()),
    ensures
        forall|v: u64| !reaches(g, test, v as int),
{
    assert forall|v: u64| !reaches(g, test, v as int) by {
        if reaches(g, test, v as int) {
            let p = choose|p: Seq<int>| #[trigger] is_path(g, p) && p[0] == test && p.last() == v as int;
            assert(edge(g, p[0], p[1]));
        }
    }
}

fn all_false(n: usize) -> (r: Vec<bool>)
    ensures
        r@.len() == n,
        forall|i: int| 0 <= i < n ==> !r@[i],
{
    let mut visited: Vec<bool> = Vec::new();
    let mut k: usize = 0;
    while k < n
        invariant
            k <= n,
            visited@.len() == k,
            forall|i: int| 0 <= i < k ==> !visited@[i],
        decreases n - k,
    {
        visited.push(false);
        k += 1;
    }
    visited
}

proof fn lemma_complete(g: Seq<Seq<u64>>, test: int, visited: Seq<bool>, result: Seq<u64>)
    requires
        g.len() <= u64::MAX,
        search_ok(g, test, visited, result),
        forall|w: u64, v: int| result.contains(w) && #[trigger] edge(g, w as int, v) ==> visited[v],
        forall|v: int| #[trigger] edge(g, test, v) ==> visited[v],
    ensures
        forall|v: u64| #[trigger] result.contains(v) <==> reaches(g, test, v as int),
{
    assert forall|v: u64| reaches(g, test, v as int) implies #[trigger] result.contains(v) by {
        let p = choose|p: Seq<int>| #[trigger] is_path(g, p) && p[0] == test && p.last() == v as int;
        assert forall|w: int, x: int| 0 <= w < g.len() && visited[w] && #[trigger] edge(g, w, x) implies visited[x] by {
            assert(visited[w] <==> result.contains(w as u64));
            assert(edge(g, (w as u64) as int, x));
        }
        lemma_closed_reaches(g, test, visited, p, p.len() - 1);
        assert(edge(g, p[p.len() - 2], p[p.len() - 1]));
    }
}

proof fn lemma_closed_reaches(g: Seq<Seq<u64>>, test: int, visited: Seq<bool>, p: Seq<int>, i: int)
    requires
        visited.len() == g.len(),
        is_path(g, p),
        p[0] == test,
        1 <= i < p.len(),
        forall|v: int| #[trigger] edge(g, test, v) ==> visited[v],
        forall|w: int, v: int| 0 <= w < g.len() && visited[w] && #[trigger] edge(g, w, v) ==> visited[v],
    ensures
        visited[p[i]],
    decreases i,
{
    assert(edge(g, p[i - 1], p[i]));
    if i > 1 {
        lemma_closed_reaches(g, test, visited, p, i - 1);
    }
}

impl DependencyGraph {
    pub open spec fn rows(&self) -> Seq<Seq<u64>> {
        row_views(self.dependents_of@)
    }

    /// The tests that transitively depend on `test`, each once: those to ignore when `test`
    /// is not accepted. A cycle through `test` brings `test` itself.
    pub fn transitive_dependents(&self, test: u64) -> (r: Vec<u64>)
        ensures
            forall|v: u64| #[trigger] r@.contains(v) <==> reaches(self.rows(), test as int, v as int),
            forall|i: int, j: int| 0 <= i < j < r@.len() ==> r@[i] != r@[j],
    {
        let ghost g = self.rows();
        let n = self.dependents_of.len();
        let mut result: Vec<u64> = Vec::new();
        if test as usize as u64 != test || test as usize >= n {
            proof {
                lemma_no_paths_from_outside(g, test as int);
            }
            return result;
        }
        let mut visited = all_false(n);
        let mut stack: Vec<u64> = Vec::new();
        assert(search_ok(g, test as int, visited@, result@)) by {
            assert forall|v: int| 0 <= v < g.len() implies (#[trigger] visited@[v] <==> result@.contains(v as u64)) by {
            }
        }
        expand(&self.dependents_of, test, test as usize, &mut visited, &mut result, &mut stack);
        assert(result@ =~= stack@);
        while stack.len() > 0
            invariant
                n == self.dependents_of@.len(),
                g == self.rows(),
                g == row_views(self.dependents_of@),
                (test as int) < n,
                search_ok(g, test as int, visited@, result@),
                forall|i: int| 0 <= i < stack@.len() ==> result@.contains(#[trigger] stack@[i]),
                forall|w: u64, v: int|
                    result@.contains(w) && !stack@.contains(w) && #[trigger] edge(g, w as int, v) ==> visited@[v],
                forall|v: int| #[trigger] edge(g, test as int, v) ==> visited@[v],
            decreases count_false(visited@), stack@.len(),
        {
            let ghost sb = stack@;
            let ghost rb = result@;
            let ghost vb = visited@;
            let u = stack.pop().unwrap();
            let ghost sp = stack@;
            assert(sb == sp.push(u));
            assert(result@.contains(u)) by {
                assert(sb[sb.len() - 1] == u);
            }
            let ui = u as usize;
            assert(search_ok(g, test as int, visited@, result@));
            expand(&self.dependents_of, test, ui, &mut visited, &mut result, &mut stack);
            proof {
                lemma_step(g, test as int, sb, sp, u, stack@, rb, result@, vb, visited@);
            }
        }
        proof {
            assert(g.len() <= u64::MAX);
            lemma_complete(g, test as int, visited@, result@);
        }
        result
    }
}

} // verus!
