use vstd::prelude::*;

use crate::error::ContainerError;

verus! {

/// Identifier of a component's declared interface type.
pub type TypeKey = u64;

/// What a component type declares about itself before composition.
pub struct ComponentMeta {
    pub type_id: TypeKey,
    /// The interface types that must be built before this one.
    pub depends_on: Vec<TypeKey>,
    /// Whether the component runs start and stop hooks.
    pub lifecycle: bool,
}

/// A record for `t` is among `metas`.
pub open spec fn is_registered(metas: Seq<ComponentMeta>, t: TypeKey) -> bool {
    exists|i: int| 0 <= i < metas.len() && metas[i].type_id == t
}

/// No two records share an interface type.
pub open spec fn ids_unique(metas: Seq<ComponentMeta>) -> bool {
    forall|i: int, j: int|
        0 <= i < metas.len() && 0 <= j < metas.len() && i != j ==> metas[i].type_id
            != metas[j].type_id
}

/// The record registered for `a` lists `b` among its dependencies.
pub open spec fn depends(metas: Seq<ComponentMeta>, a: TypeKey, b: TypeKey) -> bool {
    exists|i: int| 0 <= i < metas.len() && metas[i].type_id == a && #[trigger] metas[i].depends_on@.contains(b)
}

/// Every dependency of the first `i` records is registered.
pub open spec fn resolved_upto(metas: Seq<ComponentMeta>, i: int) -> bool {
    forall|j: int, k: int|
        0 <= j < i && 0 <= k < metas[j].depends_on@.len() ==> is_registered(
            metas,
            #[trigger] metas[j].depends_on@[k],
        )
}

/// Every dependency named by any record is registered.
pub open spec fn all_resolved(metas: Seq<ComponentMeta>) -> bool {
    resolved_upto(metas, metas.len() as int)
}

/// `missing` is the first unregistered dependency, in registration order and
/// then in declaration order, and `requester` the record that names it.
pub open spec fn first_unresolved(
    metas: Seq<ComponentMeta>,
    requester: TypeKey,
    missing: TypeKey,
) -> bool {
    exists|i: int, k: int|
        0 <= i < metas.len() && 0 <= k < metas[i].depends_on@.len() && metas[i].type_id
            == requester && #[trigger] metas[i].depends_on@[k] == missing && !is_registered(
            metas,
            missing,
        ) && resolved_upto(metas, i) && forall|l: int|
            0 <= l < k ==> is_registered(metas, #[trigger] metas[i].depends_on@[l])
}

/// `c` is a cycle: each node depends on the next and the last on the first.
pub open spec fn is_cycle(metas: Seq<ComponentMeta>, c: Seq<TypeKey>) -> bool {
    &&& c.len() > 0
    &&& forall|j: int| 0 <= j < c.len() - 1 ==> depends(metas, #[trigger] c[j], c[j + 1])
    &&& depends(metas, c[c.len() - 1], c[0])
}

pub open spec fn has_cycle(metas: Seq<ComponentMeta>) -> bool {
    exists|c: Seq<TypeKey>| is_cycle(metas, c)
}

/// `plan` names every registered type exactly once, and every dependency
/// comes strictly before its dependents.
pub open spec fn is_build_plan(metas: Seq<ComponentMeta>, plan: Seq<TypeKey>) -> bool {
    &&& plan.no_duplicates()
    &&& forall|i: int| 0 <= i < plan.len() ==> is_registered(metas, #[trigger] plan[i])
    &&& forall|j: int| 0 <= j < metas.len() ==> plan.contains(#[trigger] metas[j].type_id)
    &&& forall|i: int, j: int|
        0 <= i < plan.len() && 0 <= j < plan.len() && depends(metas, #[trigger] plan[i], #[trigger] plan[j]) ==> j < i
}

/// Position of the record registered for `t`.
pub fn find_index(metas: &Vec<ComponentMeta>, t: TypeKey) -> (r: Option<usize>)
    ensures
        match r {
            Some(i) => i < metas@.len() && metas@[i as int].type_id == t,
            None => !is_registered(metas@, t),
        },
{
    let mut i: usize = 0;
    while i < metas.len()
        invariant
            i <= metas@.len(),
            forall|j: int| 0 <= j < i ==> metas@[j].type_id != t,
        decreases metas@.len() - i,
    {
        if metas[i].type_id == t {
            return Some(i);
        }
        i = i + 1;
    }
    None
}

// ---- The graph over record positions that the sort walks. ----

/// Record `u` lists record `v` as a dependency.
spec fn edge(adj: Seq<Vec<usize>>, u: int, v: int) -> bool {
    0 <= u < adj.len() && exists|k: int| 0 <= k < adj[u]@.len() && adj[u]@[k] as int == v
}

/// `adj` is the dependency lists of `metas`, each name replaced by the
/// position of its record.
spec fn adj_of(metas: Seq<ComponentMeta>, adj: Seq<Vec<usize>>) -> bool {
    &&& adj.len() == metas.len()
    &&& forall|u: int|
        0 <= u < adj.len() ==> #[trigger] adj[u]@.len() == metas[u].depends_on@.len()
    &&& forall|u: int, k: int|
        0 <= u < adj.len() && 0 <= k < adj[u]@.len() ==> (#[trigger] adj[u]@[k] as int) < adj.len()
            && metas[adj[u]@[k] as int].type_id == metas[u].depends_on@[k]
}

spec fn index_cycle(adj: Seq<Vec<usize>>, c: Seq<usize>) -> bool {
    &&& c.len() > 0
    &&& forall|j: int| 0 <= j < c.len() - 1 ==> edge(adj, #[trigger] c[j] as int, c[j + 1] as int)
    &&& edge(adj, c[c.len() - 1] as int, c[0] as int)
}

const UNVISITED: u8 = 0;
const VISITING: u8 = 1;
const VISITED: u8 = 2;

/// The state of the depth-first walk: `stack` holds the nodes being visited,
/// each a dependency of the one below it, and `plan` the nodes finished, each
/// after all of its dependencies.
#[verifier::opaque]
spec fn walk_inv(adj: Seq<Vec<usize>>, mark: Seq<u8>, stack: Seq<usize>, plan: Seq<usize>) -> bool {
    &&& adj.len() <= usize::MAX
    &&& mark.len() == adj.len()
    &&& forall|x: int| 0 <= x < mark.len() ==> #[trigger] mark[x] <= VISITED
    &&& forall|j: int| 0 <= j < stack.len() ==> (#[trigger] stack[j] as int) < adj.len() && mark[stack[j] as int] == VISITING
    &&& forall|x: int| 0 <= x < mark.len() && #[trigger] mark[x] == VISITING ==> stack.contains(x as usize)
    &&& forall|j: int| 0 <= j < stack.len() - 1 ==> edge(adj, #[trigger] stack[j] as int, stack[j + 1] as int)
    &&& forall|j: int| 0 <= j < plan.len() ==> (#[trigger] plan[j] as int) < adj.len() && mark[plan[j] as int] == VISITED
    &&& forall|x: int| 0 <= x < mark.len() && #[trigger] mark[x] == VISITED ==> plan.contains(x as usize)
    &&& plan.no_duplicates()
    &&& forall|i: int, k: int|
        0 <= i < plan.len() && 0 <= k < adj[plan[i] as int]@.len() ==> #[trigger] dep_before(adj, plan, i, k)
}

/// The `k`-th dependency of `plan[i]` stands in `plan` before it.
spec fn dep_before(adj: Seq<Vec<usize>>, plan: Seq<usize>, i: int, k: int) -> bool {
    exists|j: int| 0 <= j < i && plan[j] == #[trigger] adj[plan[i] as int]@[k]
}

/// Marks only move forward: unvisited to visiting to visited.
spec fn marks_grow(m1: Seq<u8>, m2: Seq<u8>) -> bool {
    &&& m1.len() == m2.len()
    &&& forall|x: int| 0 <= x < m1.len() && #[trigger] m2[x] == UNVISITED ==> m1[x] == UNVISITED
    &&& forall|x: int| 0 <= x < m1.len() && #[trigger] m1[x] == VISITED ==> m2[x] == VISITED
    &&& forall|x: int| 0 <= x < m1.len() && #[trigger] m1[x] == VISITING ==> m2[x] == VISITING
}

spec fn unvisited(m: Seq<u8>) -> nat
    decreases m.len(),
{
    if m.len() == 0 {
        0
    } else {
        unvisited(m.drop_last()) + if m.last() == UNVISITED {
            1nat
        } else {
            0nat
        }
    }
}

proof fn lemma_unvisited_le(m1: Seq<u8>, m2: Seq<u8>)
    requires
        m1.len() == m2.len(),
        forall|x: int| 0 <= x < m1.len() && #[trigger] m2[x] == UNVISITED ==> m1[x] == UNVISITED,
    ensures
        unvisited(m2) <= unvisited(m1),
    decreases m1.len(),
{
    if m1.len() > 0 {
        let (a, b) = (m1.drop_last(), m2.drop_last());
        assert forall|x: int| 0 <= x < a.len() && #[trigger] b[x] == UNVISITED implies a[x] == UNVISITED by {
            assert(b[x] == m2[x] && a[x] == m1[x]);
        }
        lemma_unvisited_le(a, b);
    }
}

proof fn lemma_unvisited_lt(m1: Seq<u8>, m2: Seq<u8>, u: int)
    requires
        m1.len() == m2.len(),
        forall|x: int| 0 <= x < m1.len() && #[trigger] m2[x] == UNVISITED ==> m1[x] == UNVISITED,
        0 <= u < m1.len(),
        m1[u] == UNVISITED,
        m2[u] != UNVISITED,
    ensures
        unvisited(m2) < unvisited(m1),
    decreases m1.len(),
{
    let (a, b) = (m1.drop_last(), m2.drop_last());
    assert forall|x: int| 0 <= x < a.len() && #[trigger] b[x] == UNVISITED implies a[x] == UNVISITED by {
        assert(b[x] == m2[x] && a[x] == m1[x]);
    }
    if u == m1.len() - 1 {
        lemma_unvisited_le(a, b);
    } else {
        assert(a[u] == m1[u] && b[u] == m2[u]);
        lemma_unvisited_lt(a, b, u);
    }
}


proof fn lemma_grow_trans(m1: Seq<u8>, m2: Seq<u8>, m3: Seq<u8>)
    requires
        marks_grow(m1, m2),
        marks_grow(m2, m3),
    ensures
        marks_grow(m1, m3),
{
    assert forall|x: int| 0 <= x < m1.len() && #[trigger] m3[x] == UNVISITED implies m1[x] == UNVISITED by {
        assert(m2[x] == UNVISITED);
    }
    assert forall|x: int| 0 <= x < m1.len() && #[trigger] m1[x] == VISITED implies m3[x] == VISITED by {
        assert(m2[x] == VISITED);
    }
    assert forall|x: int| 0 <= x < m1.len() && #[trigger] m1[x] == VISITING implies m3[x] == VISITING by {
        assert(m2[x] == VISITING);
    }
}

/// Marking `u` as being visited and pushing it keeps the walk's invariant.
proof fn lemma_enter(adj: Seq<Vec<usize>>, m: Seq<u8>, s: Seq<usize>, p: Seq<usize>, u: usize)
    requires
        walk_inv(adj, m, s, p),
        (u as int) < adj.len(),
        m[u as int] == UNVISITED,
        s.len() > 0 ==> edge(adj, s.last() as int, u as int),
    ensures
        walk_inv(adj, m.update(u as int, VISITING), s.push(u), p),
{
    reveal(walk_inv);
    let m2 = m.update(u as int, VISITING);
    let s2 = s.push(u);
    assert forall|x: int| 0 <= x < m2.len() && #[trigger] m2[x] == VISITING implies s2.contains(x as usize) by {
        if x != u as int {
            assert(m[x] == VISITING);
            let j = choose|j: int| 0 <= j < s.len() && s[j] == x as usize;
            assert(s2[j] == x as usize);
        } else {
            assert(s2[s.len() as int] == u);
        }
    }
    assert forall|j: int| 0 <= j < s2.len() - 1 implies edge(adj, #[trigger] s2[j] as int, s2[j + 1] as int) by {
        if j < s.len() - 1 {
            assert(s2[j] == s[j] && s2[j + 1] == s[j + 1]);
        } else {
            assert(s2[j] == s.last());
        }
    }
    assert forall|j: int| 0 <= j < s2.len() implies (#[trigger] s2[j] as int) < adj.len() && m2[s2[j] as int] == VISITING by {
        if j < s.len() {
            assert(s2[j] == s[j]);
        }
    }
    assert forall|j: int| 0 <= j < p.len() implies (#[trigger] p[j] as int) < adj.len() && m2[p[j] as int] == VISITED by {
        assert(m[p[j] as int] == VISITED);
    }
    assert forall|x: int| 0 <= x < m2.len() && #[trigger] m2[x] == VISITED implies p.contains(x as usize) by {
        assert(m[x] == VISITED);
    }
    assert forall|x: int| 0 <= x < m2.len() implies #[trigger] m2[x] <= VISITED by {
        assert(x != u ==> m2[x] == m[x]);
    }
}

/// Marking `u` as visited, popping it and appending it to the plan keeps the
/// walk's invariant, once all of its dependencies are visited.
proof fn lemma_finish(adj: Seq<Vec<usize>>, m: Seq<u8>, s: Seq<usize>, p: Seq<usize>, u: usize)
    requires
        walk_inv(adj, m, s.push(u), p),
        (u as int) < adj.len(),
        m[u as int] == VISITING,
        forall|l: int| 0 <= l < adj[u as int]@.len() ==> m[#[trigger] adj[u as int]@[l] as int] == VISITED,
        !s.contains(u),
        forall|a: int, k: int|
            0 <= a < adj.len() && 0 <= k < adj[a]@.len() ==> (#[trigger] adj[a]@[k] as int) < adj.len(),
    ensures
        walk_inv(adj, m.update(u as int, VISITED), s, p.push(u)),
{
    reveal(walk_inv);
    let m2 = m.update(u as int, VISITED);
    let s1 = s.push(u);
    let grown = p.push(u);
    assert(!p.contains(u)) by {
        if p.contains(u) {
            let j = choose|j: int| 0 <= j < p.len() && p[j] == u;
            assert(m[p[j] as int] == VISITED);
        }
    }
    assert forall|i: int, j: int| 0 <= i < grown.len() && 0 <= j < grown.len() && i != j implies grown[i] != grown[j] by {
        if i < p.len() && j < p.len() {
            assert(grown[i] == p[i] && grown[j] == p[j]);
        } else if i < p.len() {
            assert(grown[i] == p[i]);
        } else if j < p.len() {
            assert(grown[j] == p[j]);
        }
    }
    assert forall|x: int| 0 <= x < m2.len() && #[trigger] m2[x] == VISITING implies s.contains(x as usize) by {
        assert(x != u as int);
        assert(m[x] == VISITING);
        assert(s1.contains(x as usize));
        let j = choose|j: int| 0 <= j < s1.len() && s1[j] == x as usize;
        assert(j != s.len());
        assert(s1[j] == s[j]);
        assert(s[j] == x as usize);
    }
    assert forall|x: int| 0 <= x < m2.len() && #[trigger] m2[x] == VISITED implies grown.contains(x as usize) by {
        if x == u as int {
            assert(grown[p.len() as int] == u);
        } else {
            assert(m[x] == VISITED);
            let j = choose|j: int| 0 <= j < p.len() && p[j] == x as usize;
            assert(grown[j] == x as usize);
        }
    }
    assert forall|j: int| 0 <= j < s.len() implies (#[trigger] s[j] as int) < adj.len() && m2[s[j] as int] == VISITING by {
        assert(s1[j] == s[j]);
        assert(s.contains(s[j]));
    }
    assert forall|j: int| 0 <= j < s.len() - 1 implies edge(adj, #[trigger] s[j] as int, s[j + 1] as int) by {
        assert(s1[j] == s[j] && s1[j + 1] == s[j + 1]);
    }
    assert forall|j: int| 0 <= j < grown.len() implies (#[trigger] grown[j] as int) < adj.len() && m2[grown[j] as int] == VISITED by {
        if j < p.len() {
            assert(grown[j] == p[j]);
        }
    }
    assert forall|i: int, l: int|
        0 <= i < grown.len() && 0 <= l < adj[grown[i] as int]@.len() implies #[trigger] dep_before(adj, grown, i, l) by {
        if i < p.len() {
            assert(grown[i] == p[i]);
            assert(dep_before(adj, p, i, l));
            let j = choose|j: int| 0 <= j < i && p[j] == #[trigger] adj[p[i] as int]@[l];
            assert(grown[j] == p[j]);
        } else {
            assert(grown[i] == u);
            let w = adj[u as int]@[l];
            assert((w as int) < adj.len());
            assert(m[w as int] == VISITED);
            assert(p.contains(w));
            let j = choose|j: int| 0 <= j < p.len() && p[j] == w;
            assert(grown[j] == p[j]);
            assert(grown[j] == adj[grown[i] as int]@[l]);
        }
    }
    assert forall|x: int| 0 <= x < m2.len() implies #[trigger] m2[x] <= VISITED by {
        assert(x != u ==> m2[x] == m[x]);
    }
}

/// Position of `v` in `s`.
fn position(s: &Vec<usize>, v: usize) -> (r: usize)
    requires
        s@.contains(v),
    ensures
        r < s@.len() && s@[r as int] == v,
{
    let mut p: usize = 0;
    while p < s.len()
        invariant
            p <= s@.len(),
            forall|j: int| 0 <= j < p ==> s@[j] != v,
        decreases s@.len() - p,
    {
        if s[p] == v {
            return p;
        }
        p = p + 1;
    }
    proof {
        let j = choose|j: int| 0 <= j < s@.len() && s@[j] == v;
        assert(s@[j] != v);
    }
    0
}

/// The nodes of `stack` from position `p` on, when the top of the stack
/// depends on the node at `p`.
fn cycle_from(adj: &Vec<Vec<usize>>, stack: &Vec<usize>, p: usize) -> (c: Vec<usize>)
    requires
        p < stack@.len(),
        forall|j: int| 0 <= j < stack@.len() - 1 ==> edge(adj@, #[trigger] stack@[j] as int, stack@[j + 1] as int),
        edge(adj@, stack@.last() as int, stack@[p as int] as int),
    ensures
        index_cycle(adj@, c@),
{
    let mut c: Vec<usize> = Vec::new();
    let mut q: usize = p;
    while q < stack.len()
        invariant
            p <= q <= stack@.len(),
            c@ == stack@.subrange(p as int, q as int),
        decreases stack@.len() - q,
    {
        c.push(stack[q]);
        q = q + 1;
    }
    assert(c@.last() == stack@.last());
    assert(c@[0] == stack@[p as int]);
    assert forall|j: int| 0 <= j < c@.len() - 1 implies edge(adj@, #[trigger] c@[j] as int, c@[j + 1] as int) by {
        assert(c@[j] == stack@[p + j] && c@[j + 1] == stack@[p + j + 1]);
    }
    c
}

/// Visits `u` and, depth first, every dependency of it not yet visited,
/// appending each to `plan` after its dependencies. Fails with a cycle when
/// the walk meets a node that is still being visited.
fn visit(
    adj: &Vec<Vec<usize>>,
    u: usize,
    mark: &mut Vec<u8>,
    stack: &mut Vec<usize>,
    plan: &mut Vec<usize>,
) -> (r: Result<(), Vec<usize>>)
    requires
        walk_inv(adj@, old(mark)@, old(stack)@, old(plan)@),
        forall|a: int, k: int|
            0 <= a < adj@.len() && 0 <= k < adj@[a]@.len() ==> (#[trigger] adj@[a]@[k] as int) < adj@.len(),
        u < adj@.len(),
        old(mark)@[u as int] == UNVISITED,
        old(stack)@.len() > 0 ==> edge(adj@, old(stack)@.last() as int, u as int),
    ensures
        match r {
            Ok(()) => {
                &&& walk_inv(adj@, final(mark)@, final(stack)@, final(plan)@)
                &&& final(stack)@ == old(stack)@
                &&& final(mark)@[u as int] == VISITED
                &&& marks_grow(old(mark)@, final(mark)@)
            },
            Err(c) => index_cycle(adj@, c@),
        },
    decreases unvisited(old(mark)@),
{
    let ghost m0 = mark@;
    let ghost s0 = stack@;
    proof {
        lemma_enter(adj@, m0, s0, plan@, u);
        reveal(walk_inv);
    }
    mark.set(u, VISITING);
    stack.push(u);
    let ghost m1 = mark@;
    assert(!s0.contains(u)) by {
        if s0.contains(u) {
            let j = choose|j: int| 0 <= j < s0.len() && s0[j] == u;
            assert(m0[s0[j] as int] == VISITING);
        }
    }
    let mut k: usize = 0;
    while k < adj[u].len()
        invariant
            walk_inv(adj@, mark@, stack@, plan@),
            forall|a: int, k: int|
                0 <= a < adj@.len() && 0 <= k < adj@[a]@.len() ==> (#[trigger] adj@[a]@[k] as int) < adj@.len(),
            u < adj@.len(),
            k <= adj@[u as int]@.len(),
            stack@ == s0.push(u),
            !s0.contains(u),
            m1 == m0.update(u as int, VISITING),
            m0[u as int] == UNVISITED,
            m0 == old(mark)@,
            m0.len() == adj@.len(),
            s0 == old(stack)@,
            marks_grow(m1, mark@),
            forall|l: int| 0 <= l < k ==> mark@[#[trigger] adj@[u as int]@[l] as int] == VISITED,
        decreases adj@[u as int]@.len() - k,
    {
        let v = adj[u][k];
        assert(edge(adj@, u as int, v as int)) by {
            assert(adj@[u as int]@[k as int] == v);
        }
        proof {
            reveal(walk_inv);
        }
        if mark[v] == VISITING {
            // `v` is still on the stack: the stack from `v` up to `u`,
            // closed by the edge from `u` to `v`, is a cycle.
            let p = position(stack, v);
            return Err(cycle_from(adj, stack, p));
        } else if mark[v] == UNVISITED {
            let ghost mb = mark@;
            assert(stack@.last() == u);
            proof {
                assert(m1.len() == m0.len());
                assert(mark@.len() == m1.len());
                assert forall|x: int| 0 <= x < m0.len() && #[trigger] mark@[x] == UNVISITED implies m0[x] == UNVISITED by {
                    assert(m1[x] == UNVISITED);
                    assert(x != u as int);
                    assert(m1[x] == m0[x]);
                }
                lemma_unvisited_lt(m0, mark@, u as int);
            }
            match visit(adj, v, mark, stack, plan) {
                Ok(()) => {},
                Err(c) => {
                    return Err(c);
                },
            }
            proof {
                lemma_grow_trans(m1, mb, mark@);
            }
            assert forall|l: int| 0 <= l < k + 1 implies mark@[#[trigger] adj@[u as int]@[l] as int] == VISITED by {
                if l < k {
                    assert(mb[adj@[u as int]@[l] as int] == VISITED);
                }
            }
        }
        k = k + 1;
    }
    let ghost mb = mark@;
    let ghost pb = plan@;
    assert(mb[u as int] == VISITING);
    proof {
        assert(!s0.contains(u));
        lemma_finish(adj@, mb, s0, pb, u);
    }
    mark.set(u, VISITED);
    stack.pop();
    plan.push(u);
    assert(stack@ == s0);
    assert(marks_grow(m0, mark@)) by {
        assert forall|x: int| 0 <= x < m0.len() && #[trigger] mark@[x] == UNVISITED implies m0[x] == UNVISITED by {
            assert(mb[x] == UNVISITED);
            assert(m1[x] == UNVISITED);
        }
        assert forall|x: int| 0 <= x < m0.len() && #[trigger] m0[x] == VISITED implies mark@[x] == VISITED by {
            assert(m1[x] == VISITED);
        }
        assert forall|x: int| 0 <= x < m0.len() && #[trigger] m0[x] == VISITING implies mark@[x] == VISITING by {
            assert(m1[x] == VISITING);
        }
    }
    Ok(())
}

/// Replaces each dependency by the position of its record, failing on the
/// first dependency that has no record.
fn resolve(metas: &Vec<ComponentMeta>) -> (r: Result<Vec<Vec<usize>>, ContainerError>)
    ensures
        match r {
            Ok(adj) => all_resolved(metas@) && adj_of(metas@, adj@),
            Err(ContainerError::MissingDependency { requester, missing }) => first_unresolved(
                metas@,
                requester,
                missing,
            ),
            Err(_) => false,
        },
{
    let n = metas.len();
    let mut adj: Vec<Vec<usize>> = Vec::new();
    let mut i: usize = 0;
    while i < n
        invariant
            n == metas@.len(),
            i <= n,
            adj@.len() == i,
            resolved_upto(metas@, i as int),
            forall|u: int| 0 <= u < i ==> #[trigger] adj@[u]@.len() == metas@[u].depends_on@.len(),
            forall|u: int, k: int|
                0 <= u < i && 0 <= k < adj@[u]@.len() ==> (#[trigger] adj@[u]@[k] as int) < n
                    && metas@[adj@[u]@[k] as int].type_id == metas@[u].depends_on@[k],
        decreases n - i,
    {
        let deps = &metas[i].depends_on;
        let mut row: Vec<usize> = Vec::new();
        let mut k: usize = 0;
        while k < deps.len()
            invariant
                n == metas@.len(),
                i < n,
                deps@ == metas@[i as int].depends_on@,
                k <= deps@.len(),
                row@.len() == k,
                resolved_upto(metas@, i as int),
                forall|l: int| 0 <= l < k ==> is_registered(metas@, #[trigger] deps@[l]),
                forall|l: int|
                    0 <= l < k ==> (#[trigger] row@[l] as int) < n && metas@[row@[l] as int].type_id
                        == deps@[l],
            decreases deps@.len() - k,
        {
            match find_index(metas, deps[k]) {
                Some(j) => {
                    row.push(j);
                },
                None => {
                    assert(metas@[i as int].depends_on@[k as int] == deps@[k as int]);
                    return Err(ContainerError::MissingDependency { requester: metas[i].type_id, missing: deps[k] });
                },
            }
            k = k + 1;
        }
        let ghost a0 = adj@;
        adj.push(row);
        assert forall|u: int| 0 <= u < i + 1 implies #[trigger] adj@[u]@.len() == metas@[u].depends_on@.len() by {
            if u < i {
                assert(adj@[u] == a0[u]);
            }
        }
        assert forall|u: int, k: int|
            0 <= u < i + 1 && 0 <= k < adj@[u]@.len() implies (#[trigger] adj@[u]@[k] as int) < n
                && metas@[adj@[u]@[k] as int].type_id == metas@[u].depends_on@[k] by {
            if u < i {
                assert(adj@[u] == a0[u]);
            }
        }
        assert forall|j: int, k: int|
            0 <= j < i + 1 && 0 <= k < metas@[j].depends_on@.len() implies is_registered(
                metas@,
                #[trigger] metas@[j].depends_on@[k],
            ) by {
            if j == i {
                assert(deps@[k] == metas@[j].depends_on@[k]);
            }
        }
        i = i + 1;
    }
    Ok(adj)
}

/// An edge between positions is a dependency between their types.
proof fn lemma_edge_depends(metas: Seq<ComponentMeta>, adj: Seq<Vec<usize>>, u: int, v: int)
    requires
        adj_of(metas, adj),
        edge(adj, u, v),
    ensures
        depends(metas, metas[u].type_id, metas[v].type_id),
{
    let k = choose|k: int| 0 <= k < adj[u]@.len() && adj[u]@[k] as int == v;
    assert(metas[u].depends_on@[k] == metas[v].type_id);
    assert(metas[u].depends_on@.contains(metas[v].type_id));
}

/// A dependency between the types of two positions is an edge between them.
proof fn lemma_depends_edge(metas: Seq<ComponentMeta>, adj: Seq<Vec<usize>>, u: int, v: int)
    requires
        ids_unique(metas),
        adj_of(metas, adj),
        0 <= u < metas.len(),
        0 <= v < metas.len(),
        depends(metas, metas[u].type_id, metas[v].type_id),
    ensures
        exists|k: int| 0 <= k < adj[u]@.len() && adj[u]@[k] as int == v,
{
    let i = choose|i: int| 0 <= i < metas.len() && metas[i].type_id == metas[u].type_id && #[trigger] metas[i].depends_on@.contains(metas[v].type_id);
    assert(i == u);
    let k = choose|k: int| 0 <= k < metas[u].depends_on@.len() && metas[u].depends_on@[k] == metas[v].type_id;
    assert(adj[u]@[k] as int == v);
}

/// Every node of a cycle has a record.
proof fn lemma_cycle_registered(metas: Seq<ComponentMeta>, c: Seq<TypeKey>, j: int)
    requires
        is_cycle(metas, c),
        0 <= j < c.len(),
    ensures
        is_registered(metas, c[j]),
{
    if j < c.len() - 1 {
        assert(depends(metas, c[j], c[j + 1]));
    }
}

/// Along a cycle, positions in a build plan would strictly decrease.
proof fn lemma_cycle_descends(metas: Seq<ComponentMeta>, plan: Seq<TypeKey>, c: Seq<TypeKey>, j: int)
    requires
        is_build_plan(metas, plan),
        is_cycle(metas, c),
        0 <= j < c.len(),
    ensures
        plan.contains(c[j]),
        plan.index_of(c[j]) <= plan.index_of(c[0]) - j,
    decreases j,
{
    lemma_cycle_registered(metas, c, j);
    let i = choose|i: int| 0 <= i < metas.len() && metas[i].type_id == c[j];
    assert(plan.contains(metas[i].type_id));
    if j > 0 {
        lemma_cycle_descends(metas, plan, c, j - 1);
        assert(depends(metas, c[j - 1], c[j]));
        let a = plan.index_of(c[j - 1]);
        let b = plan.index_of(c[j]);
        assert(depends(metas, plan[a], plan[b]));
    }
}

/// A collection of records that has a build plan has no dependency cycle.
pub proof fn lemma_plan_acyclic(metas: Seq<ComponentMeta>, plan: Seq<TypeKey>)
    requires
        is_build_plan(metas, plan),
    ensures
        !has_cycle(metas),
{
    if has_cycle(metas) {
        let c = choose|c: Seq<TypeKey>| is_cycle(metas, c);
        let last = c.len() - 1;
        lemma_cycle_descends(metas, plan, c, last);
        lemma_cycle_descends(metas, plan, c, 0);
        let a = plan.index_of(c[last]);
        let b = plan.index_of(c[0]);
        assert(depends(metas, plan[a], plan[b]));
    }
}

/// The types at the positions of `plan`.
fn plan_ids(metas: &Vec<ComponentMeta>, plan: &Vec<usize>) -> (ids: Vec<TypeKey>)
    requires
        forall|j: int| 0 <= j < plan@.len() ==> (#[trigger] plan@[j] as int) < metas@.len(),
    ensures
        ids@.len() == plan@.len(),
        forall|j: int| 0 <= j < plan@.len() ==> #[trigger] ids@[j] == metas@[plan@[j] as int].type_id,
{
    let mut ids: Vec<TypeKey> = Vec::new();
    let mut j: usize = 0;
    while j < plan.len()
        invariant
            j <= plan@.len(),
            forall|j: int| 0 <= j < plan@.len() ==> (#[trigger] plan@[j] as int) < metas@.len(),
            ids@.len() == j,
            forall|l: int| 0 <= l < j ==> #[trigger] ids@[l] == metas@[plan@[l] as int].type_id,
        decreases plan@.len() - j,
    {
        ids.push(metas[plan[j]].type_id);
        j = j + 1;
    }
    ids
}

proof fn lemma_ids_cycle(metas: Seq<ComponentMeta>, adj: Seq<Vec<usize>>, c: Seq<usize>, ids: Seq<TypeKey>)
    requires
        adj_of(metas, adj),
        index_cycle(adj, c),
        ids.len() == c.len(),
        forall|j: int| 0 <= j < c.len() ==> (#[trigger] c[j] as int) < metas.len(),
        forall|j: int| 0 <= j < c.len() ==> #[trigger] ids[j] == metas[c[j] as int].type_id,
    ensures
        is_cycle(metas, ids),
{
    assert forall|j: int| 0 <= j < ids.len() - 1 implies depends(metas, #[trigger] ids[j], ids[j + 1]) by {
        assert(edge(adj, c[j] as int, c[j + 1] as int));
        lemma_edge_depends(metas, adj, c[j] as int, c[j + 1] as int);
    }
    lemma_edge_depends(metas, adj, c[c.len() - 1] as int, c[0] as int);
}

proof fn lemma_ids_plan(metas: Seq<ComponentMeta>, adj: Seq<Vec<usize>>, mark: Seq<u8>, plan: Seq<usize>, ids: Seq<TypeKey>)
    requires
        ids_unique(metas),
        adj_of(metas, adj),
        walk_inv(adj, mark, Seq::empty(), plan),
        forall|x: int| 0 <= x < mark.len() ==> #[trigger] mark[x] == VISITED,
        ids.len() == plan.len(),
        forall|j: int| 0 <= j < plan.len() ==> #[trigger] ids[j] == metas[plan[j] as int].type_id,
    ensures
        is_build_plan(metas, ids),
{
    reveal(walk_inv);
    assert forall|i: int, j: int| 0 <= i < ids.len() && 0 <= j < ids.len() && i != j implies ids[i] != ids[j] by {
        assert(plan[i] != plan[j]);
    }
    assert forall|i: int| 0 <= i < ids.len() implies is_registered(metas, #[trigger] ids[i]) by {
        assert(metas[plan[i] as int].type_id == ids[i]);
    }
    assert forall|x: int| 0 <= x < metas.len() implies ids.contains(#[trigger] metas[x].type_id) by {
        assert(mark[x] == VISITED);
        let q = choose|q: int| 0 <= q < plan.len() && plan[q] == x as usize;
        assert(ids[q] == metas[x].type_id);
    }
    assert forall|i: int, j: int|
        0 <= i < ids.len() && 0 <= j < ids.len() && depends(metas, #[trigger] ids[i], #[trigger] ids[j]) implies j < i by {
        let (u, v) = (plan[i] as int, plan[j] as int);
        lemma_depends_edge(metas, adj, u, v);
        let k = choose|k: int| 0 <= k < adj[u]@.len() && adj[u]@[k] as int == v;
        assert(dep_before(adj, plan, i, k));
        let jj = choose|jj: int| 0 <= jj < i && plan[jj] == #[trigger] adj[plan[i] as int]@[k];
        assert(plan[jj] == plan[j]);
    }
}

/// Orders the records so that every dependency is built before its
/// dependents: a depth-first walk in registration order that visits the
/// dependencies of each record in the order they are declared and emits a
/// record once all of them are emitted.
pub fn build_plan(metas: &Vec<ComponentMeta>) -> (r: Result<Vec<TypeKey>, ContainerError>)
    requires
        ids_unique(metas@),
    ensures
        match r {
            Ok(plan) => is_build_plan(metas@, plan@),
            Err(ContainerError::MissingDependency { requester, missing }) => first_unresolved(
                metas@,
                requester,
                missing,
            ),
            Err(ContainerError::CircularDependency(c)) => all_resolved(metas@) && is_cycle(metas@, c@),
            Err(_) => false,
        },
        r is Ok <==> all_resolved(metas@) && !has_cycle(metas@),
{
    let adj = match resolve(metas) {
        Ok(adj) => adj,
        Err(e) => {
            return Err(e);
        },
    };
    let n = metas.len();
    let mut mark: Vec<u8> = Vec::new();
    let mut i: usize = 0;
    while i < n
        invariant
            i <= n,
            mark@.len() == i,
            forall|x: int| 0 <= x < i ==> #[trigger] mark@[x] == UNVISITED,
        decreases n - i,
    {
        mark.push(UNVISITED);
        i = i + 1;
    }
    let mut stack: Vec<usize> = Vec::new();
    let mut plan: Vec<usize> = Vec::new();
    assert(walk_inv(adj@, mark@, stack@, plan@)) by {
        reveal(walk_inv);
    }
    let mut i: usize = 0;
    while i < n
        invariant
            n == metas@.len(),
            i <= n,
            adj_of(metas@, adj@),
            all_resolved(metas@),
            walk_inv(adj@, mark@, stack@, plan@),
            stack@ == Seq::<usize>::empty(),
            forall|x: int| 0 <= x < i ==> #[trigger] mark@[x] == VISITED,
        decreases n - i,
    {
        proof {
            reveal(walk_inv);
        }
        if mark[i] == UNVISITED {
            let ghost m0 = mark@;
            match visit(&adj, i, &mut mark, &mut stack, &mut plan) {
                Ok(()) => {},
                Err(c) => {
                    proof {
                        assert forall|j: int| 0 <= j < c@.len() implies (#[trigger] c@[j] as int) < metas@.len() by {
                            if j < c@.len() - 1 {
                                assert(edge(adj@, c@[j] as int, c@[j + 1] as int));
                            } else {
                                assert(edge(adj@, c@[c@.len() - 1] as int, c@[0] as int));
                            }
                        }
                    }
                    let ids = plan_ids(metas, &c);
                    proof {
                        lemma_ids_cycle(metas@, adj@, c@, ids@);
                    }
                    return Err(ContainerError::CircularDependency(ids));
                },
            }
            assert forall|x: int| 0 <= x < i + 1 implies #[trigger] mark@[x] == VISITED by {
                if x < i {
                    assert(m0[x] == VISITED);
                }
            }
        } else {
            assert(mark@[i as int] == VISITED) by {
                if mark@[i as int] == VISITING {
                    assert(stack@.contains(i));
                }
            }
        }
        i = i + 1;
    }
    proof {
        reveal(walk_inv);
    }
    let ids = plan_ids(metas, &plan);
    proof {
        lemma_ids_plan(metas@, adj@, mark@, plan@, ids@);
        lemma_plan_acyclic(metas@, ids@);
    }
    Ok(ids)
}

} // verus!
