//! Vamana graph, as described in DiskANN (NeurIPS '19) and its follow-up papers.
//!
//! Vectors hold 16-bit integer coordinates, so every squared L2 distance is an
//! exact integer and every comparison made while building is exact.

use vstd::prelude::*;
use rand::rngs::StdRng;
use rand::seq::SliceRandom;
use rand::SeedableRng;

verus! {

/// Largest vector dimension a builder accepts.
pub const MAX_DIM: usize = 2147483647;

/// Largest number of vectors a builder accepts.
pub const MAX_POINTS: usize = 4294967295;

#[verifier::external_type_specification]
#[verifier::external_body]
pub struct ExStdRng(StdRng);

/// Squared L2 distance between the first `k` coordinates of `a` and `b`.
pub open spec fn sq_dist_upto(a: Seq<i16>, b: Seq<i16>, k: nat) -> int
    decreases k,
{
    if k == 0 {
        0
    } else {
        let diff = a[k - 1] as int - b[k - 1] as int;
        sq_dist_upto(a, b, (k - 1) as nat) + diff * diff
    }
}

/// The vector at position `i` of a row-major buffer of dimension `dim`.
pub open spec fn vector_at(data: Seq<i16>, dim: nat, i: int) -> Seq<i16> {
    data.subrange(i * dim, i * dim + dim)
}

proof fn lemma_term_bound(x: i16, y: i16)
    ensures
        0 <= (x as int - y as int) * (x as int - y as int) <= 65536 * 65536,
{
    let d = x as int - y as int;
    assert(-65536 <= d <= 65536);
    assert(0 <= d * d <= 65536 * 65536) by (nonlinear_arith)
        requires
            -65536 <= d <= 65536,
    ;
}

proof fn lemma_sq_dist_bound(a: Seq<i16>, b: Seq<i16>, k: nat)
    requires
        k <= a.len(),
        k <= b.len(),
    ensures
        0 <= sq_dist_upto(a, b, k) <= k * (65536 * 65536),
    decreases k,
{
    if k > 0 {
        lemma_sq_dist_bound(a, b, (k - 1) as nat);
        lemma_term_bound(a[k - 1], b[k - 1]);
        assert((k - 1) * (65536 * 65536) + 65536 * 65536 == k * (65536 * 65536)) by (nonlinear_arith);
    }
}

proof fn lemma_sq_dist_self(a: Seq<i16>, k: nat)
    requires
        k <= a.len(),
    ensures
        sq_dist_upto(a, a, k) == 0,
    decreases k,
{
    if k > 0 {
        lemma_sq_dist_self(a, (k - 1) as nat);
    }
}

proof fn lemma_sq_dist_symmetric(a: Seq<i16>, b: Seq<i16>, k: nat)
    requires
        k <= a.len(),
        k <= b.len(),
    ensures
        sq_dist_upto(a, b, k) == sq_dist_upto(b, a, k),
    decreases k,
{
    if k > 0 {
        lemma_sq_dist_symmetric(a, b, (k - 1) as nat);
        let d = a[k - 1] as int - b[k - 1] as int;
        assert(d * d == (-d) * (-d)) by (nonlinear_arith);
    }
}

/// Squared L2 distance between `dim` coordinates of `a` from `a_off` and of `b`
/// from `b_off`.
fn l2_at(a: &Vec<i16>, a_off: usize, b: &Vec<i16>, b_off: usize, dim: usize) -> (r: u64)
    requires
        a_off + dim <= a.len(),
        b_off + dim <= b.len(),
        dim <= MAX_DIM,
    ensures
        r == sq_dist_upto(
            a@.subrange(a_off as int, a_off + dim),
            b@.subrange(b_off as int, b_off + dim),
            dim as nat,
        ),
{
    let ghost sa = a@.subrange(a_off as int, a_off + dim);
    let ghost sb = b@.subrange(b_off as int, b_off + dim);
    let mut sum: u64 = 0;
    let mut k: usize = 0;
    while k < dim
        invariant
            k <= dim,
            a_off + dim <= a.len(),
            b_off + dim <= b.len(),
            dim <= MAX_DIM,
            sa == a@.subrange(a_off as int, a_off + dim),
            sb == b@.subrange(b_off as int, b_off + dim),
            sum == sq_dist_upto(sa, sb, k as nat),
        decreases dim - k,
    {
        let x = a[a_off + k];
        let y = b[b_off + k];
        assert(sa[k as int] == x && sb[k as int] == y);
        proof {
            lemma_term_bound(x, y);
            lemma_sq_dist_bound(sa, sb, (k + 1) as nat);
            assert((k + 1) * (65536 * 65536) <= 2147483648 * (65536 * 65536)) by (nonlinear_arith)
                requires
                    k + 1 <= 2147483648,
            ;
        }
        let diff: i64 = x as i64 - y as i64;
        let sq: u64 = (diff * diff) as u64;
        sum = sum + sq;
        k = k + 1;
    }
    sum
}

/// One vertex of the graph: its position, the row it came from, and its
/// outgoing edges.
pub struct Vertex {
    pub id: usize,
    pub row_id: u64,
    pub neighbors: Vec<usize>,
}

/// Whether `s` is a valid neighbor list for vertex `i` of a graph of `n`
/// vertices: distinct ids, all in `[0, n)`, none equal to `i`.
pub open spec fn valid_neighbors(s: Seq<usize>, i: int, n: nat) -> bool {
    &&& s.no_duplicates()
    &&& forall|k: int| 0 <= k < s.len() ==> #[trigger] s[k] < n && s[k] != i
}

/// Builder of a Vamana graph: the vectors, and one vertex per vector.
pub struct VamanaBuilder {
    pub vertices: Vec<Vertex>,
    pub vectors: Vec<i16>,
    pub dimension: usize,
}

impl VamanaBuilder {
    /// Number of vertices.
    pub open spec fn n(&self) -> nat {
        self.vertices.len() as nat
    }

    pub open spec fn dim(&self) -> nat {
        self.dimension as nat
    }

    /// Neighbor list of vertex `i`.
    pub open spec fn nbrs(&self, i: int) -> Seq<usize> {
        self.vertices@[i].neighbors@
    }

    /// The vector of vertex `i`.
    pub open spec fn vec_of(&self, i: int) -> Seq<i16> {
        vector_at(self.vectors@, self.dim(), i)
    }

    /// Squared L2 distance between the vectors of vertices `i` and `j`.
    pub open spec fn dist(&self, i: int, j: int) -> int {
        sq_dist_upto(self.vec_of(i), self.vec_of(j), self.dim())
    }

    /// Squared L2 distance between a query vector and the vector of vertex `i`.
    pub open spec fn query_dist(&self, q: Seq<i16>, i: int) -> int {
        sq_dist_upto(q, self.vec_of(i), self.dim())
    }

    /// The vector store is consistent and every neighbor list is valid.
    pub open spec fn wf(&self) -> bool {
        &&& 1 <= self.dimension <= MAX_DIM
        &&& self.n() <= MAX_POINTS
        &&& self.vectors.len() == self.n() * self.dim()
        &&& forall|i: int| 0 <= i < self.n() ==> (#[trigger] self.vertices@[i]).id == i
        &&& forall|i: int| 0 <= i < self.n() ==> valid_neighbors(#[trigger] self.nbrs(i), i, self.n())
    }

    /// Every neighbor list holds at most `r` ids.
    pub open spec fn bounded(&self, r: nat) -> bool {
        forall|i: int| 0 <= i < self.n() ==> (#[trigger] self.nbrs(i)).len() <= r
    }

    proof fn lemma_vec_range(&self, i: int)
        requires
            self.wf(),
            0 <= i < self.n(),
        ensures
            0 <= i * self.dim(),
            i * self.dim() + self.dim() <= self.vectors.len(),
    {
        let d = self.dim() as int;
        let n = self.n() as int;
        assert(0 <= i * d) by (nonlinear_arith)
            requires
                0 <= i,
                0 <= d,
        ;
        assert(i * d + d <= n * d) by (nonlinear_arith)
            requires
                0 <= i < n,
                0 <= d,
        ;
    }

    /// Distance between the vectors of two vertices.
    pub fn distance(&self, a: usize, b: usize) -> (r: u64)
        requires
            self.wf(),
            a < self.n(),
            b < self.n(),
        ensures
            r == self.dist(a as int, b as int),
    {
        proof {
            self.lemma_vec_range(a as int);
            self.lemma_vec_range(b as int);
        }
        let dim = self.dimension;
        l2_at(&self.vectors, a * dim, &self.vectors, b * dim, dim)
    }

    /// Distance from a query vector to the vector of vertex `idx`.
    pub fn distance_to(&self, query: &Vec<i16>, idx: usize) -> (r: u64)
        requires
            self.wf(),
            idx < self.n(),
            query.len() == self.dim(),
        ensures
            r == self.query_dist(query@, idx as int),
    {
        proof {
            self.lemma_vec_range(idx as int);
        }
        let dim = self.dimension;
        let r = l2_at(query, 0, &self.vectors, idx * dim, dim);
        assert(query@.subrange(0, dim as int) =~= query@);
        r
    }

    /// The distance between two vertices is non-negative and bounded, zero
    /// from a vertex to itself, and symmetric.
    pub proof fn lemma_dist_facts(&self, i: int, j: int)
        requires
            self.wf(),
            0 <= i < self.n(),
            0 <= j < self.n(),
        ensures
            0 <= self.dist(i, j) <= MAX_DIM * (65536 * 65536),
            self.dist(i, i) == 0,
            self.dist(i, j) == self.dist(j, i),
    {
        self.lemma_vec_range(i);
        self.lemma_vec_range(j);
        lemma_sq_dist_bound(self.vec_of(i), self.vec_of(j), self.dim());
        lemma_sq_dist_self(self.vec_of(i), self.dim());
        lemma_sq_dist_symmetric(self.vec_of(i), self.vec_of(j), self.dim());
        assert(self.dim() * (65536 * 65536) <= MAX_DIM * (65536 * 65536)) by (nonlinear_arith)
            requires
                self.dim() <= MAX_DIM,
        ;
    }
}


/// Whether `v` is a candidate when pruning vertex `id` with the set `visited`:
/// a vertex of the graph, other than `id`, that is in `visited` or is a
/// current neighbor of `id`.
pub open spec fn is_candidate(g: &VamanaBuilder, id: usize, visited: Seq<usize>, v: usize) -> bool {
    &&& v < g.n()
    &&& v != id
    &&& (visited.contains(v) || g.nbrs(id as int).contains(v))
}

/// The prune rule with relaxation `an / ad`: `p` stands in for `v` when
/// `(an / ad) * dist(p, v) <= dist(id, v)`.
pub open spec fn covers(g: &VamanaBuilder, an: u32, ad: u32, id: usize, p: usize, v: usize) -> bool {
    an as int * g.dist(p as int, v as int) <= ad as int * g.dist(id as int, v as int)
}

/// Some member of `s` stands in for `v`.
pub open spec fn covered(
    g: &VamanaBuilder,
    an: u32,
    ad: u32,
    id: usize,
    s: Seq<usize>,
    v: usize,
) -> bool {
    exists|k: int| 0 <= k < s.len() && #[trigger] covers(g, an, ad, id, s[k], v)
}

/// `a` comes no later than `b` in the order of distance to `id`, ties going
/// to the lower id.
pub open spec fn nearer(g: &VamanaBuilder, id: usize, a: usize, b: usize) -> bool {
    ||| g.dist(id as int, a as int) < g.dist(id as int, b as int)
    ||| (g.dist(id as int, a as int) == g.dist(id as int, b as int) && a <= b)
}

/// `out` is the neighbor list that the robust prune of `id` chooses: each
/// member is the nearest candidate that no earlier member stands in for, and
/// the choice stops at `r` members or when every candidate is stood in for.
pub open spec fn is_pruned(
    g: &VamanaBuilder,
    id: usize,
    visited: Seq<usize>,
    an: u32,
    ad: u32,
    r: nat,
    out: Seq<usize>,
) -> bool {
    &&& out.len() <= r
    &&& valid_neighbors(out, id as int, g.n())
    &&& forall|k: int| 0 <= k < out.len() ==> is_candidate(g, id, visited, #[trigger] out[k])
    &&& forall|k: int| 0 <= k < out.len() ==> !covered(g, an, ad, id, out.take(k), #[trigger] out[k])
    &&& forall|k: int, v: usize|
        #![trigger out[k], is_candidate(g, id, visited, v)]
        0 <= k < out.len() && is_candidate(g, id, visited, v) && !covered(g, an, ad, id, out.take(k), v)
            ==> nearer(g, id, out[k], v)
    &&& out.len() < r ==> forall|v: usize|
        is_candidate(g, id, visited, v) ==> #[trigger] covered(g, an, ad, id, out, v)
}

proof fn lemma_covered_push(
    g: &VamanaBuilder,
    an: u32,
    ad: u32,
    id: usize,
    s: Seq<usize>,
    p: usize,
    v: usize,
)
    ensures
        covered(g, an, ad, id, s.push(p), v) == (covered(g, an, ad, id, s, v) || covers(g, an, ad, id, p, v)),
{
    let t = s.push(p);
    if covered(g, an, ad, id, s, v) {
        let k = choose|k: int| 0 <= k < s.len() && #[trigger] covers(g, an, ad, id, s[k], v);
        assert(t[k] == s[k]);
    }
    if covers(g, an, ad, id, p, v) {
        assert(t[s.len() as int] == p);
    }
    if covered(g, an, ad, id, t, v) {
        let k = choose|k: int| 0 <= k < t.len() && #[trigger] covers(g, an, ad, id, t[k], v);
        if k < s.len() {
            assert(t[k] == s[k]);
        }
    }
}

/// A robust prune with room for one neighbor and some candidate chooses at
/// least one neighbor.
pub proof fn lemma_pruned_nonempty(
    g: &VamanaBuilder,
    id: usize,
    visited: Seq<usize>,
    an: u32,
    ad: u32,
    r: nat,
    out: Seq<usize>,
    v: usize,
)
    requires
        is_pruned(g, id, visited, an, ad, r, out),
        r >= 1,
        is_candidate(g, id, visited, v),
    ensures
        out.len() >= 1,
{
    if out.len() == 0 {
        assert(covered(g, an, ad, id, out, v));
    }
}

/// Robust prune of vertex `id` (Algorithm 2 of the paper): from the union of
/// `visited` and the current neighbors of `id`, without `id` itself, choose
/// at most `r` diverse neighbors under the relaxation `alpha_num / alpha_den`.
pub fn robust_prune(
    graph: &VamanaBuilder,
    id: usize,
    visited: &Vec<usize>,
    alpha_num: u32,
    alpha_den: u32,
    r: usize,
) -> (out: Vec<usize>)
    requires
        graph.wf(),
        id < graph.n(),
        forall|k: int| 0 <= k < visited.len() ==> #[trigger] visited[k] < graph.n(),
    ensures
        is_pruned(graph, id, visited@, alpha_num, alpha_den, r as nat, out@),
{
    let n = graph.vertices.len();
    let ghost g = graph;
    let ghost vis = visited@;
    let mut flag: Vec<bool> = Vec::new();
    while flag.len() < n
        invariant
            flag.len() <= n,
            forall|v: int| 0 <= v < flag.len() ==> !flag[v],
        decreases n - flag.len(),
    {
        flag.push(false);
    }
    // Gather the candidates, each once.
    let mut cand: Vec<usize> = Vec::new();
    let mut t: usize = 0;
    while t < visited.len()
        invariant
            g == graph,
            vis == visited@,
            graph.wf(),
            id < n,
            n == graph.n(),
            flag.len() == n,
            t <= visited.len(),
            forall|k: int| 0 <= k < visited.len() ==> #[trigger] visited[k] < graph.n(),
            cand@.no_duplicates(),
            forall|m: int| 0 <= m < cand.len() ==> #[trigger] cand[m] < n && flag[cand[m] as int]
                && is_candidate(g, id, vis, cand[m]),
            forall|v: int| 0 <= v < n && #[trigger] flag[v] ==> cand@.contains(v as usize),
            forall|j: int| 0 <= j < t && #[trigger] visited[j] != id ==> flag[visited[j] as int],
        decreases visited.len() - t,
    {
        let v = visited[t];
        if v != id && !flag[v] {
            assert(vis.contains(v)) by {
                assert(vis[t as int] == v);
            }
            let ghost old_flag = flag@;
            let ghost old_cand = cand@;
            flag.set(v, true);
            cand.push(v);
            proof {
                assert forall|w: int| 0 <= w < n && #[trigger] flag[w] implies cand@.contains(w as usize) by {
                    if w == v {
                        assert(cand@[old_cand.len() as int] == v);
                    } else {
                        assert(old_flag[w]);
                        let i = choose|i: int| 0 <= i < old_cand.len() && old_cand[i] == w as usize;
                        assert(cand@[i] == old_cand[i]);
                    }
                }
            }
        }
        t = t + 1;
    }
    let nb = &graph.vertices[id].neighbors;
    assert(nb@ == graph.nbrs(id as int));
    let mut t: usize = 0;
    while t < nb.len()
        invariant
            g == graph,
            vis == visited@,
            graph.wf(),
            id < n,
            n == graph.n(),
            nb@ == graph.nbrs(id as int),
            flag.len() == n,
            t <= nb.len(),
            cand@.no_duplicates(),
            forall|m: int| 0 <= m < cand.len() ==> #[trigger] cand[m] < n && flag[cand[m] as int]
                && is_candidate(g, id, vis, cand[m]),
            forall|v: int| 0 <= v < n && #[trigger] flag[v] ==> cand@.contains(v as usize),
            forall|k: int| 0 <= k < visited.len() ==> #[trigger] visited[k] < graph.n(),
            forall|j: int| 0 <= j < visited.len() && #[trigger] visited[j] != id ==> flag[visited[j] as int],
            forall|j: int| 0 <= j < t ==> flag[#[trigger] nb[j] as int],
        decreases nb.len() - t,
    {
        let v = nb[t];
        assert(valid_neighbors(graph.nbrs(id as int), id as int, graph.n()));
        assert(v < n && v != id);
        if !flag[v] {
            assert(nb@.contains(v)) by {
                assert(nb@[t as int] == v);
            }
            let ghost old_flag = flag@;
            let ghost old_cand = cand@;
            flag.set(v, true);
            cand.push(v);
            proof {
                assert forall|w: int| 0 <= w < n && #[trigger] flag[w] implies cand@.contains(w as usize) by {
                    if w == v {
                        assert(cand@[old_cand.len() as int] == v);
                    } else {
                        assert(old_flag[w]);
                        let i = choose|i: int| 0 <= i < old_cand.len() && old_cand[i] == w as usize;
                        assert(cand@[i] == old_cand[i]);
                    }
                }
            }
        }
        t = t + 1;
    }
    // Every candidate is listed in `cand`.
    assert forall|v: usize| is_candidate(g, id, vis, v) implies cand@.contains(v) by {
        if vis.contains(v) {
            let j = choose|j: int| 0 <= j < vis.len() && vis[j] == v;
            assert(visited[j] != id);
            assert(flag[v as int]);
        } else {
            let j = choose|j: int| 0 <= j < nb.len() && nb@[j] == v;
            assert(flag[nb[j] as int]);
        }
    }
    let c = cand.len();
    let mut dists: Vec<u64> = Vec::new();
    let mut alive: Vec<bool> = Vec::new();
    while dists.len() < c
        invariant
            graph.wf(),
            id < graph.n(),
            dists.len() <= c,
            c == cand.len(),
            alive.len() == dists.len(),
            forall|m: int| 0 <= m < cand.len() ==> #[trigger] cand[m] < graph.n(),
            forall|m: int| 0 <= m < dists.len() ==> dists[m] == graph.dist(id as int, #[trigger] cand[m] as int),
            forall|m: int| 0 <= m < alive.len() ==> #[trigger] alive[m],
        decreases c - dists.len(),
    {
        let d = graph.distance(id, cand[dists.len()]);
        dists.push(d);
        alive.push(true);
    }
    let mut out: Vec<usize> = Vec::new();
    let mut done = false;
    while !done && out.len() < r
        invariant
            g == graph,
            vis == visited@,
            graph.wf(),
            id < graph.n(),
            c == cand.len(),
            dists.len() == c,
            alive.len() == c,
            forall|m: int| 0 <= m < c ==> #[trigger] cand[m] < graph.n()
                && is_candidate(g, id, vis, cand[m]),
            forall|v: usize| is_candidate(g, id, vis, v) ==> cand@.contains(v),
            forall|m: int| 0 <= m < c ==> dists[m] == graph.dist(id as int, #[trigger] cand[m] as int),
            forall|m: int| 0 <= m < c ==> #[trigger] alive[m] == !covered(g, alpha_num, alpha_den, id, out@, cand[m]),
            done ==> forall|m: int| 0 <= m < c ==> !#[trigger] alive[m],
            out.len() <= r,
            forall|k: int| 0 <= k < out.len() ==> is_candidate(g, id, vis, #[trigger] out[k]),
            forall|k: int| 0 <= k < out.len() ==> !covered(g, alpha_num, alpha_den, id, out@.take(k), #[trigger] out[k]),
            forall|k: int, v: usize|
                #![trigger out[k], is_candidate(g, id, vis, v)]
                0 <= k < out.len() && is_candidate(g, id, vis, v)
                    && !covered(g, alpha_num, alpha_den, id, out@.take(k), v)
                    ==> nearer(g, id, out[k], v),
        decreases r - out.len() + (if done { 0int } else { 1int }),
    {
        let mut best: usize = c;
        let mut m: usize = 0;
        while m < c
            invariant
                c == cand.len(),
                dists.len() == c,
                alive.len() == c,
                m <= c,
                g == graph,
                forall|x: int| 0 <= x < c ==> dists[x] == graph.dist(id as int, #[trigger] cand[x] as int),
                best == c || (best < m && alive[best as int]),
                forall|x: int| 0 <= x < m && #[trigger] alive[x] ==> best < c && nearer(g, id, cand[best as int], cand[x]),
            decreases c - m,
        {
            if alive[m] && (best == c || dists[m] < dists[best] || (dists[m] == dists[best] && cand[m] < cand[best])) {
                best = m;
            }
            m = m + 1;
        }
        if best == c {
            done = true;
        } else {
            let p = cand[best];
            let ghost old_out = out@;
            out.push(p);
            proof {
                assert(old_out =~= out@.take(old_out.len() as int));
                assert forall|k: int| 0 <= k < old_out.len() implies #[trigger] out@.take(k) == old_out.take(k) by {
                    assert(out@.take(k) =~= old_out.take(k));
                }
                assert forall|v: usize| is_candidate(g, id, vis, v) && !covered(g, alpha_num, alpha_den, id, old_out, v)
                    implies nearer(g, id, p, v) by {
                    assert(cand@.contains(v));
                    let x = choose|x: int| 0 <= x < cand.len() && cand[x] == v;
                    assert(alive[x]);
                }
            }
            let mut m: usize = 0;
            while m < c
                invariant
                    g == graph,
                    graph.wf(),
                    id < graph.n(),
                    c == cand.len(),
                    dists.len() == c,
                    alive.len() == c,
                    m <= c,
                    p < graph.n(),
                    out@ == old_out.push(p),
                    forall|x: int| 0 <= x < c ==> #[trigger] cand[x] < graph.n(),
                    forall|x: int| 0 <= x < c ==> dists[x] == graph.dist(id as int, #[trigger] cand[x] as int),
                    forall|x: int| 0 <= x < m ==> #[trigger] alive[x] == !covered(g, alpha_num, alpha_den, id, out@, cand[x]),
                    forall|x: int| m <= x < c ==> #[trigger] alive[x] == !covered(g, alpha_num, alpha_den, id, old_out, cand[x]),
                decreases c - m,
            {
                proof {
                    lemma_covered_push(g, alpha_num, alpha_den, id, old_out, p, cand[m as int]);
                }
                if alive[m] {
                    let dp = graph.distance(p, cand[m]);
                    proof {
                        graph.lemma_dist_facts(p as int, cand[m as int] as int);
                        graph.lemma_dist_facts(id as int, cand[m as int] as int);
                        assert(alpha_num as int * dp as int <= 4294967295 * (MAX_DIM * (65536 * 65536))) by (nonlinear_arith)
                            requires
                                0 <= alpha_num <= 4294967295,
                                0 <= dp <= MAX_DIM * (65536 * 65536),
                        ;
                        assert(alpha_den as int * dists[m as int] as int <= 4294967295 * (MAX_DIM * (65536 * 65536))) by (nonlinear_arith)
                            requires
                                0 <= alpha_den <= 4294967295,
                                0 <= dists[m as int] <= MAX_DIM * (65536 * 65536),
                        ;
                    }
                    if (alpha_num as u128) * (dp as u128) <= (alpha_den as u128) * (dists[m] as u128) {
                        alive.set(m, false);
                    }
                }
                m = m + 1;
            }
            proof {
                graph.lemma_dist_facts(id as int, p as int);
                graph.lemma_dist_facts(p as int, p as int);
                assert(alpha_den as int * graph.dist(id as int, p as int) >= 0) by (nonlinear_arith)
                    requires
                        alpha_den >= 0,
                        graph.dist(id as int, p as int) >= 0,
                ;
                assert(covers(g, alpha_num, alpha_den, id, p, p));
            }
        }
    }
    proof {
        let o = out@;
        assert forall|a: int, b: int| 0 <= a < o.len() && 0 <= b < o.len() && a != b implies o[a] != o[b] by {
            let (lo, hi) = if a < b { (a, b) } else { (b, a) };
            graph.lemma_dist_facts(id as int, o[lo] as int);
            graph.lemma_dist_facts(o[lo] as int, o[lo] as int);
            assert(alpha_den as int * graph.dist(id as int, o[lo] as int) >= 0) by (nonlinear_arith)
                requires
                    alpha_den >= 0,
                    graph.dist(id as int, o[lo] as int) >= 0,
            ;
            assert(o.take(hi)[lo] == o[lo]);
            if o[lo] == o[hi] {
                assert(covers(g, alpha_num, alpha_den, id, o.take(hi)[lo], o[hi]));
                assert(covered(g, alpha_num, alpha_den, id, o.take(hi), o[hi]));
            }
        }
        if out.len() < r {
            assert forall|v: usize| is_candidate(g, id, vis, v) implies #[trigger] covered(g, alpha_num, alpha_den, id, o, v) by {
                assert(cand@.contains(v));
                let x = choose|x: int| 0 <= x < cand.len() && cand[x] == v;
                assert(!alive[x]);
            }
        }
    }
    out
}


/// Strict order on (distance, id) pairs: by distance, then by id.
pub open spec fn pair_lt(a: (u64, usize), b: (u64, usize)) -> bool {
    a.0 < b.0 || (a.0 == b.0 && a.1 < b.1)
}

/// The pairs of `s` ascend strictly.
pub open spec fn sorted_pairs(s: Seq<(u64, usize)>) -> bool {
    forall|i: int, j: int| 0 <= i < j < s.len() ==> pair_lt(#[trigger] s[i], #[trigger] s[j])
}

/// Number of `false` entries of `s`.
pub open spec fn count_false(s: Seq<bool>) -> nat
    decreases s.len(),
{
    if s.len() == 0 {
        0
    } else {
        count_false(s.drop_last()) + if s.last() { 0nat } else { 1nat }
    }
}

proof fn lemma_count_false_set(s: Seq<bool>, i: int)
    requires
        0 <= i < s.len(),
        !s[i],
    ensures
        count_false(s.update(i, true)) + 1 == count_false(s),
    decreases s.len(),
{
    let t = s.update(i, true);
    if i == s.len() - 1 {
        assert(t.drop_last() =~= s.drop_last());
    } else {
        assert(t.drop_last() =~= s.drop_last().update(i, true));
        lemma_count_false_set(s.drop_last(), i);
    }
}

/// A vector of `n` copies of `false`.
fn all_false(n: usize) -> (r: Vec<bool>)
    ensures
        r.len() == n,
        forall|i: int| 0 <= i < n ==> !#[trigger] r[i],
{
    let mut r: Vec<bool> = Vec::new();
    while r.len() < n
        invariant
            r.len() <= n,
            forall|i: int| 0 <= i < r.len() ==> !#[trigger] r[i],
        decreases n - r.len(),
    {
        r.push(false);
    }
    r
}

/// Whether `s` holds the pair `x`.
fn has_pair(s: &Vec<(u64, usize)>, x: (u64, usize)) -> (r: bool)
    ensures
        r == s@.contains(x),
{
    let mut i: usize = 0;
    while i < s.len()
        invariant
            i <= s.len(),
            forall|j: int| 0 <= j < i ==> s[j] != x,
        decreases s.len() - i,
    {
        if s[i].0 == x.0 && s[i].1 == x.1 {
            assert(s@[i as int] == x);
            return true;
        }
        i = i + 1;
    }
    false
}

/// `s` with `x` put in its place in the order, unless `s` holds it already.
fn insert_sorted(s: &Vec<(u64, usize)>, x: (u64, usize)) -> (r: Vec<(u64, usize)>)
    requires
        sorted_pairs(s@),
    ensures
        sorted_pairs(r@),
        forall|y: (u64, usize)| r@.contains(y) <==> (s@.contains(y) || y == x),
        s.len() <= r.len() <= s.len() + 1,
        !s@.contains(x) ==> r.len() == s.len() + 1,
{
    let mut pos: usize = 0;
    while pos < s.len() && (s[pos].0 < x.0 || (s[pos].0 == x.0 && s[pos].1 < x.1))
        invariant
            pos <= s.len(),
            forall|j: int| 0 <= j < pos ==> pair_lt(#[trigger] s[j], x),
        decreases s.len() - pos,
    {
        pos = pos + 1;
    }
    if pos < s.len() && s[pos].0 == x.0 && s[pos].1 == x.1 {
        let mut r: Vec<(u64, usize)> = Vec::new();
        let mut i: usize = 0;
        while i < s.len()
            invariant
                i <= s.len(),
                r@ == s@.take(i as int),
            decreases s.len() - i,
        {
            r.push(s[i]);
            i = i + 1;
            assert(r@ =~= s@.take(i as int));
        }
        assert(r@ =~= s@);
        assert(s@[pos as int] == x);
        return r;
    }
    let mut r: Vec<(u64, usize)> = Vec::new();
    let mut i: usize = 0;
    while i < pos
        invariant
            i <= pos <= s.len(),
            r@ == s@.take(i as int),
        decreases pos - i,
    {
        r.push(s[i]);
        i = i + 1;
        assert(r@ =~= s@.take(i as int));
    }
    r.push(x);
    while i < s.len()
        invariant
            pos <= i <= s.len(),
            r@ == s@.take(pos as int).push(x) + s@.subrange(pos as int, i as int),
        decreases s.len() - i,
    {
        r.push(s[i]);
        i = i + 1;
        assert(r@ =~= s@.take(pos as int).push(x) + s@.subrange(pos as int, i as int));
    }
    proof {
        let t = r@;
        assert(t.len() == s.len() + 1);
        assert forall|j: int| 0 <= j < t.len() implies #[trigger] t[j] == (if j < pos {
            s@[j]
        } else if j == pos {
            x
        } else {
            s@[j - 1]
        }) by {}
        assert forall|a: int, b: int| 0 <= a < b < t.len() implies pair_lt(#[trigger] t[a], #[trigger] t[b]) by {
            if b < pos {
            } else if b == pos {
            } else if a == pos {
                assert(!pair_lt(s@[pos as int], x));
                assert(s@[pos as int] != x);
                if b - 1 > pos {
                    assert(pair_lt(s@[pos as int], s@[b - 1]));
                }
            } else if a < pos {
                assert(pair_lt(s@[a], x));
                assert(!pair_lt(s@[pos as int], x));
                assert(s@[pos as int] != x);
            }
        }
        assert forall|y: (u64, usize)| t.contains(y) <==> (s@.contains(y) || y == x) by {
            if t.contains(y) {
                let j = choose|j: int| 0 <= j < t.len() && t[j] == y;
                if j < pos {
                    assert(s@[j] == y);
                } else if j > pos {
                    assert(s@[j - 1] == y);
                }
            }
            if s@.contains(y) {
                let j = choose|j: int| 0 <= j < s.len() && s@[j] == y;
                if j < pos {
                    assert(t[j] == y);
                } else {
                    assert(t[j + 1] == y);
                }
            }
            if y == x {
                assert(t[pos as int] == x);
            }
        }
    }
    r
}

/// Either `s` holds `pw`, or `s` is full (at least `l` pairs) and every pair
/// of `s` comes before `pw`.
pub open spec fn kept_or_beaten(s: Seq<(u64, usize)>, l: nat, pw: (u64, usize)) -> bool {
    ||| s.contains(pw)
    ||| (s.len() >= l && forall|i: int| 0 <= i < s.len() ==> pair_lt(#[trigger] s[i], pw))
}

/// `u` is `t` without its last pair when `t` holds more than `l` pairs.
pub open spec fn capped(t: Seq<(u64, usize)>, l: nat) -> Seq<(u64, usize)> {
    if t.len() > l {
        t.drop_last()
    } else {
        t
    }
}

proof fn lemma_last_is_max(t: Seq<(u64, usize)>, x: (u64, usize))
    requires
        sorted_pairs(t),
        t.contains(x),
        t.len() > 0,
    ensures
        t.last() == x || pair_lt(x, t.last()),
        forall|i: int| 0 <= i < t.len() - 1 ==> pair_lt(#[trigger] t[i], t.last()),
{
    let j = choose|j: int| 0 <= j < t.len() && t[j] == x;
    if j < t.len() - 1 {
        assert(pair_lt(t[j], t[t.len() - 1]));
    }
    assert forall|i: int| 0 <= i < t.len() - 1 implies pair_lt(#[trigger] t[i], t.last()) by {
        assert(pair_lt(t[i], t[t.len() - 1]));
    }
}

/// Inserting `x` into the sorted `s` and dropping the last pair when more
/// than `l` remain keeps every pair either held or beaten, `x` included.
proof fn lemma_keep_after_insert(
    s: Seq<(u64, usize)>,
    t: Seq<(u64, usize)>,
    x: (u64, usize),
    l: nat,
    pw: (u64, usize),
)
    requires
        sorted_pairs(s),
        sorted_pairs(t),
        forall|y: (u64, usize)| t.contains(y) <==> (s.contains(y) || y == x),
        s.len() <= t.len() <= s.len() + 1,
        !s.contains(x) ==> t.len() == s.len() + 1,
        kept_or_beaten(s, l, pw) || pw == x,
    ensures
        kept_or_beaten(capped(t, l), l, pw),
{
    let u = capped(t, l);
    assert(t.contains(x));
    lemma_last_is_max(t, x);
    if t.contains(pw) {
        if t.len() > l {
            lemma_last_is_max(t, pw);
            if t.last() == pw {
                assert forall|i: int| 0 <= i < u.len() implies pair_lt(#[trigger] u[i], pw) by {
                    assert(u[i] == t[i]);
                }
            } else {
                let j = choose|j: int| 0 <= j < t.len() && t[j] == pw;
                assert(j < t.len() - 1);
                assert(u[j] == pw);
            }
        }
    } else {
        assert(pw != x);
        assert(!s.contains(pw));
        assert(s.len() >= l && forall|i: int| 0 <= i < s.len() ==> pair_lt(#[trigger] s[i], pw));
        if pair_lt(x, pw) {
            assert forall|i: int| 0 <= i < u.len() implies pair_lt(#[trigger] u[i], pw) by {
                assert(u[i] == t[i]);
                assert(t.contains(t[i]));
                if t[i] != x {
                    let j = choose|j: int| 0 <= j < s.len() && s[j] == t[i];
                }
            }
        } else {
            assert(pair_lt(pw, x));
            assert(!s.contains(x)) by {
                if s.contains(x) {
                    let j = choose|j: int| 0 <= j < s.len() && s[j] == x;
                    assert(pair_lt(s[j], pw));
                }
            }
            assert(t.len() > l);
            assert(t.last() == x) by {
                if t.last() != x {
                    assert(t.contains(t.last()));
                    let j = choose|j: int| 0 <= j < s.len() && s[j] == t.last();
                    assert(pair_lt(s[j], pw));
                }
            }
            assert forall|i: int| 0 <= i < u.len() implies pair_lt(#[trigger] u[i], pw) by {
                assert(u[i] == t[i]);
                assert(t.contains(t[i]));
                assert(t[i] != x);
                let j = choose|j: int| 0 <= j < s.len() && s[j] == t[i];
            }
        }
    }
}

proof fn lemma_sorted_no_dup(s: Seq<(u64, usize)>)
    requires
        sorted_pairs(s),
    ensures
        s.no_duplicates(),
{
    assert forall|i: int, j: int| 0 <= i < s.len() && 0 <= j < s.len() && i != j implies s[i] != s[j] by {
        if i < j {
            assert(pair_lt(s[i], s[j]));
        } else {
            assert(pair_lt(s[j], s[i]));
        }
    }
}

impl VamanaBuilder {
    /// `a` comes before `b` in the order of distance to the query `q`, ties
    /// going to the lower id.
    pub open spec fn query_before(&self, q: Seq<i16>, a: usize, b: usize) -> bool {
        ||| self.query_dist(q, a as int) < self.query_dist(q, b as int)
        ||| (self.query_dist(q, a as int) == self.query_dist(q, b as int) && a < b)
    }

    /// Every pair of `s` is (distance of its id to `q`, an id of the graph).
    pub open spec fn pairs_of_query(&self, q: Seq<i16>, s: Seq<(u64, usize)>) -> bool {
        forall|i: int| 0 <= i < s.len() ==> (#[trigger] s[i]).1 < self.n()
            && s[i].0 == self.query_dist(q, s[i].1 as int)
    }

    /// The (distance to `q`, id) pair of vertex `w`.
    pub open spec fn key(&self, q: Seq<i16>, w: usize) -> (u64, usize) {
        (self.query_dist(q, w as int) as u64, w)
    }

    /// `w` is `start` or a neighbor of a vertex of `vis`: a vertex that a
    /// search from `start` which expanded `vis` has looked at.
    pub open spec fn explored(&self, start: usize, vis: Seq<usize>, w: usize) -> bool {
        ||| w == start
        ||| exists|x: int| 0 <= x < vis.len() && #[trigger] self.nbrs(vis[x] as int).contains(w)
    }

    /// `(res, vis)` is what a greedy search from `start` toward `q` with
    /// result size `k` and search-list size `l` gives: `vis` holds the
    /// expanded vertices, `start` first among them, each one looked at; `res`
    /// holds expanded vertices, nearest first, and every vertex looked at but
    /// not returned comes after all of them; with `k <= l`, `res` holds `k`
    /// ids or every vertex looked at.
    pub open spec fn is_search_result(
        &self,
        start: usize,
        q: Seq<i16>,
        k: nat,
        l: nat,
        res: Seq<usize>,
        vis: Seq<usize>,
    ) -> bool {
        &&& res.len() <= k
        &&& vis.no_duplicates()
        &&& vis.contains(start)
        &&& forall|i: int| 0 <= i < vis.len() ==> #[trigger] vis[i] < self.n() && self.explored(start, vis, vis[i])
        &&& forall|i: int| 0 <= i < res.len() ==> #[trigger] res[i] < self.n() && vis.contains(res[i])
        &&& forall|i: int, j: int| 0 <= i < j < res.len() ==> self.query_before(q, #[trigger] res[i], #[trigger] res[j])
        &&& forall|w: usize, i: int|
            #![trigger self.explored(start, vis, w), res[i]]
            self.explored(start, vis, w) && !res.contains(w) && 0 <= i < res.len()
                ==> self.query_before(q, res[i], w)
        &&& k <= l ==> (res.len() == k || forall|w: usize| #[trigger] self.explored(start, vis, w) ==> res.contains(w))
        &&& k >= 1 && l >= 1 ==> res.len() >= 1
    }

    proof fn lemma_key(&self, q: Seq<i16>, w: usize)
        requires
            self.wf(),
            w < self.n(),
            q.len() == self.dim(),
        ensures
            self.key(q, w).0 == self.query_dist(q, w as int),
    {
        self.lemma_vec_range(w as int);
        lemma_sq_dist_bound(q, self.vec_of(w as int), self.dim());
        assert(self.dim() * (65536 * 65536) <= MAX_DIM * (65536 * 65536)) by (nonlinear_arith)
            requires
                self.dim() <= MAX_DIM,
        ;
    }

    /// Greedy search (Algorithm 1 of the paper) from vertex `start` toward
    /// `query`, keeping at most `search_size` candidates (L in the paper).
    /// Returns the `k` nearest candidates found, nearest first, and the
    /// vertices that were expanded.
    pub fn greedy_search(
        &self,
        start: usize,
        query: &Vec<i16>,
        k: usize,
        search_size: usize,
    ) -> (res: (Vec<usize>, Vec<usize>))
        requires
            self.wf(),
            start < self.n(),
            query.len() == self.dim(),
        ensures
            self.is_search_result(start, query@, k as nat, search_size as nat, res.0@, res.1@),
    {
        let n = self.vertices.len();
        let ghost q = query@;
        let ghost lsz = search_size as nat;
        let mut flags = all_false(n);
        let mut visited: Vec<usize> = Vec::new();
        let d0 = self.distance_to(query, start);
        proof {
            self.lemma_key(q, start);
        }
        let mut cands: Vec<(u64, usize)> = Vec::new();
        cands.push((d0, start));
        let mut frontier: Vec<(u64, usize)> = Vec::new();
        frontier.push((d0, start));
        proof {
            assert(cands@[0] == (d0, start));
            assert(cands@.contains((d0, start)));
        }
        while frontier.len() > 0
            invariant
                self.wf(),
                n == self.n(),
                start < n,
                q == query@,
                lsz == search_size,
                query.len() == self.dim(),
                flags.len() == n,
                search_size >= 1 ==> cands.len() >= 1,
                sorted_pairs(cands@),
                self.pairs_of_query(q, cands@),
                forall|i: int| 0 <= i < frontier.len() ==> (#[trigger] frontier[i]).1 < n
                    && self.explored(start, visited@, frontier[i].1),
                visited@.no_duplicates(),
                forall|i: int| 0 <= i < visited.len() ==> #[trigger] visited[i] < n
                    && self.explored(start, visited@, visited[i]),
                forall|x: int| 0 <= x < n ==> (#[trigger] flags[x] <==> visited@.contains(x as usize)),
                flags[start as int] || (frontier@ == seq![(d0, start)] && cands@ == seq![(d0, start)]),
                d0 == self.query_dist(q, start as int),
                forall|c: (u64, usize)| #[trigger] cands@.contains(c) ==> flags[c.1 as int] || frontier@.contains(c),
                forall|w: usize| w < n && #[trigger] self.explored(start, visited@, w)
                    ==> kept_or_beaten(cands@, lsz, self.key(q, w)),
            decreases count_false(flags@), frontier.len(),
        {
            let mut b: usize = 0;
            let mut m: usize = 1;
            while m < frontier.len()
                invariant
                    frontier.len() > 0,
                    b < m <= frontier.len(),
                decreases frontier.len() - m,
            {
                if frontier[m].0 < frontier[b].0 || (frontier[m].0 == frontier[b].0 && frontier[m].1 < frontier[b].1) {
                    b = m;
                }
                m = m + 1;
            }
            let ghost old_frontier = frontier@;
            let p = frontier.remove(b);
            assert(old_frontier[b as int] == p);
            proof {
                assert forall|i: int| 0 <= i < frontier.len() implies (#[trigger] frontier[i]).1 < n
                    && self.explored(start, visited@, frontier[i].1) by {
                    if i < b {
                        assert(frontier[i] == old_frontier[i]);
                    } else {
                        assert(frontier[i] == old_frontier[i + 1]);
                    }
                }
                assert forall|c: (u64, usize)| #[trigger] old_frontier.contains(c) && c != p implies frontier@.contains(c) by {
                    let j = choose|j: int| 0 <= j < old_frontier.len() && old_frontier[j] == c;
                    if j < b {
                        assert(frontier@[j] == c);
                    } else {
                        assert(j != b);
                        assert(frontier@[j - 1] == c);
                    }
                }
            }
            if !flags[p.1] && has_pair(&cands, p) {
                let ghost old_flags = flags@;
                let ghost old_visited = visited@;
                let ghost old_frontier2 = frontier@;
                proof {
                    lemma_count_false_set(flags@, p.1 as int);
                }
                flags.set(p.1, true);
                visited.push(p.1);
                proof {
                    if !old_flags[start as int] {
                        assert(old_frontier.len() == 1);
                        assert(p == (d0, start));
                    }
                    assert(flags[start as int]);
                    assert(visited@.drop_last() =~= old_visited);
                    assert(!old_visited.contains(p.1));
                    assert forall|x: int| 0 <= x < n implies (#[trigger] flags[x] <==> visited@.contains(x as usize)) by {
                        if x != p.1 {
                            if visited@.contains(x as usize) {
                                let i = choose|i: int| 0 <= i < visited.len() && visited@[i] == x as usize;
                                if i < old_visited.len() {
                                    assert(old_visited[i] == visited@[i]);
                                }
                            }
                            if old_visited.contains(x as usize) {
                                let i = choose|i: int| 0 <= i < old_visited.len() && old_visited[i] == x as usize;
                                assert(visited@[i] == old_visited[i]);
                            }
                        } else {
                            assert(visited@[old_visited.len() as int] == p.1);
                        }
                    }
                    // looking at more expanded vertices only adds to what was looked at
                    assert forall|w: usize| #[trigger] self.explored(start, old_visited, w) implies self.explored(
                        start,
                        visited@,
                        w,
                    ) by {
                        if w != start {
                            let x = choose|x: int| 0 <= x < old_visited.len() && #[trigger] self.nbrs(old_visited[x] as int).contains(w);
                            assert(visited@[x] == old_visited[x]);
                        }
                    }
                    assert forall|i: int| 0 <= i < visited.len() implies #[trigger] visited[i] < n
                        && self.explored(start, visited@, visited[i]) by {
                        if i < old_visited.len() {
                            assert(visited[i] == old_visited[i]);
                        }
                    }
                    assert forall|i: int| 0 <= i < frontier.len() implies (#[trigger] frontier[i]).1 < n
                        && self.explored(start, visited@, frontier[i].1) by {}
                    assert forall|c: (u64, usize)| #[trigger] cands@.contains(c) implies flags[c.1 as int] || frontier@.contains(c) by {
                        if c == p {
                        } else {
                            assert(old_flags[c.1 as int] ==> flags[c.1 as int]);
                        }
                    }
                }
                let ghost flags_now = flags@;
                let ghost vis_now = visited@;
                let nb = &self.vertices[p.1].neighbors;
                assert(valid_neighbors(self.nbrs(p.1 as int), p.1 as int, self.n()));
                let mut t: usize = 0;
                while t < nb.len()
                    invariant
                        self.wf(),
                        n == self.n(),
                        start < n,
                        q == query@,
                        lsz == search_size,
                        query.len() == self.dim(),
                        nb@ == self.nbrs(p.1 as int),
                        valid_neighbors(nb@, p.1 as int, n as nat),
                        t <= nb.len(),
                        flags@ == flags_now,
                        visited@ == vis_now,
                        vis_now.len() > 0,
                        vis_now.last() == p.1,
                        flags.len() == n,
                        flags[start as int],
                        search_size >= 1 ==> cands.len() >= 1,
                        sorted_pairs(cands@),
                        self.pairs_of_query(q, cands@),
                        forall|i: int| 0 <= i < frontier.len() ==> (#[trigger] frontier[i]).1 < n
                            && self.explored(start, visited@, frontier[i].1),
                        forall|c: (u64, usize)| #[trigger] cands@.contains(c) ==> flags[c.1 as int] || frontier@.contains(c),
                        forall|w: usize| w < n && #[trigger] self.explored(start, old_visited, w)
                            ==> kept_or_beaten(cands@, lsz, self.key(q, w)),
                        forall|a: int| 0 <= a < t ==> kept_or_beaten(cands@, lsz, self.key(q, #[trigger] nb@[a])),
                        old_visited == vis_now.drop_last(),
                        forall|i: int| 0 <= i < old_visited.len() ==> #[trigger] old_visited[i] < n
                            && self.explored(start, old_visited, old_visited[i]),
                        forall|x: int| 0 <= x < n ==> (#[trigger] flags[x] <==> visited@.contains(x as usize)),
                    decreases nb.len() - t,
                {
                    let nid = nb[t];
                    proof {
                        assert(vis_now[vis_now.len() - 1] == p.1);
                        assert(self.explored(start, vis_now, nid)) by {
                            assert(self.nbrs(vis_now[vis_now.len() - 1] as int).contains(nid)) by {
                                assert(nb@[t as int] == nid);
                            }
                        }
                    }
                    if !flags[nid] {
                        let d = self.distance_to(query, nid);
                        proof {
                            self.lemma_key(q, nid);
                        }
                        let ghost before = cands@;
                        cands = insert_sorted(&cands, (d, nid));
                        let ghost inserted = cands@;
                        proof {
                            assert forall|i: int| 0 <= i < cands.len() implies (#[trigger] cands@[i]).1 < self.n()
                                && cands@[i].0 == self.query_dist(query@, cands@[i].1 as int) by {
                                assert(cands@.contains(cands@[i]));
                                if before.contains(cands@[i]) {
                                    let j = choose|j: int| 0 <= j < before.len() && before[j] == cands@[i];
                                    assert(before[j].1 < self.n());
                                }
                            }
                        }
                        if cands.len() > search_size {
                            cands.pop();
                        }
                        let ghost fr_before = frontier@;
                        frontier.push((d, nid));
                        proof {
                            assert(cands@ == capped(inserted, lsz));
                            assert forall|w: usize| w < n && #[trigger] self.explored(start, old_visited, w)
                                implies kept_or_beaten(cands@, lsz, self.key(q, w)) by {
                                lemma_keep_after_insert(before, inserted, (d, nid), lsz, self.key(q, w));
                            }
                            assert forall|a: int| 0 <= a <= t implies kept_or_beaten(cands@, lsz, self.key(q, #[trigger] nb@[a])) by {
                                lemma_keep_after_insert(before, inserted, (d, nid), lsz, self.key(q, nb@[a]));
                            }
                            assert forall|i: int| 0 <= i < cands.len() implies (#[trigger] cands@[i]).1 < self.n()
                                && cands@[i].0 == self.query_dist(query@, cands@[i].1 as int) by {
                                assert(cands@[i] == inserted[i]);
                            }
                            assert forall|c: (u64, usize)| #[trigger] cands@.contains(c) implies flags[c.1 as int] || frontier@.contains(c) by {
                                let j = choose|j: int| 0 <= j < cands.len() && cands@[j] == c;
                                assert(inserted[j] == c);
                                assert(inserted.contains(c));
                                if c == (d, nid) {
                                    assert(frontier@[frontier.len() - 1] == c);
                                } else {
                                    assert(before.contains(c));
                                    if !flags[c.1 as int] {
                                        assert(fr_before.contains(c));
                                        let fi = choose|fi: int| 0 <= fi < fr_before.len() && fr_before[fi] == c;
                                        assert(frontier@[fi] == c);
                                    }
                                }
                            }
                            assert forall|i: int| 0 <= i < frontier.len() implies (#[trigger] frontier[i]).1 < n
                                && self.explored(start, visited@, frontier[i].1) by {}
                            if search_size >= 1 {
                                assert(inserted.len() >= 1);
                            }
                            assert(sorted_pairs(cands@)) by {
                                assert forall|i: int, j: int| 0 <= i < j < cands.len() implies pair_lt(#[trigger] cands@[i], #[trigger] cands@[j]) by {
                                    assert(cands@[i] == inserted[i] && cands@[j] == inserted[j]);
                                }
                            }
                        }
                    } else {
                        proof {
                            let ix = choose|ix: int| 0 <= ix < vis_now.len() && vis_now[ix] == nid;
                            if ix == vis_now.len() - 1 {
                                assert(nb@[t as int] == nid);
                            }
                            assert(old_visited[ix] == nid);
                            assert(self.explored(start, old_visited, old_visited[ix]));
                        }
                    }
                    t = t + 1;
                }
                proof {
                    assert forall|w: usize| w < n && #[trigger] self.explored(start, visited@, w)
                        implies kept_or_beaten(cands@, lsz, self.key(q, w)) by {
                        if w != start {
                            let x = choose|x: int| 0 <= x < visited.len() && #[trigger] self.nbrs(visited@[x] as int).contains(w);
                            if x == visited.len() - 1 {
                                let a = choose|a: int| 0 <= a < nb.len() && nb@[a] == w;
                            } else {
                                assert(old_visited[x] == visited@[x]);
                                assert(self.explored(start, old_visited, w));
                            }
                        }
                    }
                }
            } else {
                proof {
                    if !flags[start as int] {
                        assert(old_frontier.len() == 1);
                        assert(p == (d0, start));
                        assert(cands@[0] == p);
                    }
                    assert forall|c: (u64, usize)| #[trigger] cands@.contains(c) implies flags[c.1 as int] || frontier@.contains(c) by {
                        assert(old_frontier.contains(c) || flags[c.1 as int]);
                        if c == p {
                            assert(flags[p.1 as int] || !cands@.contains(p));
                        }
                    }
                }
            }
        }
        let take = if k < cands.len() { k } else { cands.len() };
        let mut out: Vec<usize> = Vec::new();
        let mut i: usize = 0;
        while i < take
            invariant
                i <= take <= cands.len(),
                out.len() == i,
                forall|j: int| 0 <= j < i ==> #[trigger] out[j] == cands@[j].1,
            decreases take - i,
        {
            out.push(cands[i].1);
            i = i + 1;
        }
        proof {
            assert(flags[start as int]);
            assert(visited@.contains(start));
            assert forall|a: int, b: int| 0 <= a < b < out.len()
                implies self.query_before(query@, #[trigger] out[a], #[trigger] out[b]) by {
                assert(pair_lt(cands@[a], cands@[b]));
                assert(cands@[a].1 < self.n() && cands@[b].1 < self.n());
            }
            assert forall|j: int| 0 <= j < out.len() implies #[trigger] out[j] < self.n() && visited@.contains(out[j]) by {
                assert(cands@.contains(cands@[j]));
                assert(flags[cands@[j].1 as int]);
            }
            assert forall|w: usize, i: int|
                #![trigger self.explored(start, visited@, w), out[i]]
                self.explored(start, visited@, w) && !out@.contains(w) && 0 <= i < out.len()
                    implies self.query_before(q, out[i], w) by {
                lemma_explored_in_range(self, start, visited@, w);
                self.lemma_key(q, w);
                let pw = self.key(q, w);
                if cands@.contains(pw) {
                    let j = choose|j: int| 0 <= j < cands.len() && cands@[j] == pw;
                    if j < out.len() {
                        assert(out@[j] == w);
                    }
                    assert(pair_lt(cands@[i], cands@[j]));
                } else {
                    assert(pair_lt(cands@[i], pw));
                }
            }
            if k <= search_size && out.len() < k {
                assert forall|w: usize| #[trigger] self.explored(start, visited@, w) implies out@.contains(w) by {
                    lemma_explored_in_range(self, start, visited@, w);
                    self.lemma_key(q, w);
                    let pw = self.key(q, w);
                    let j = choose|j: int| 0 <= j < cands.len() && cands@[j] == pw;
                    assert(out@[j] == w);
                }
            }
        }
        (out, visited)
    }
}

/// A vertex that a search has looked at is a vertex of the graph.
proof fn lemma_explored_in_range(g: &VamanaBuilder, start: usize, vis: Seq<usize>, w: usize)
    requires
        g.wf(),
        start < g.n(),
        forall|i: int| 0 <= i < vis.len() ==> #[trigger] vis[i] < g.n(),
        g.explored(start, vis, w),
    ensures
        w < g.n(),
{
    if w != start {
        let x = choose|x: int| 0 <= x < vis.len() && #[trigger] g.nbrs(vis[x] as int).contains(w);
        let a = choose|a: int| 0 <= a < g.nbrs(vis[x] as int).len() && g.nbrs(vis[x] as int)[a] == w;
        assert(valid_neighbors(g.nbrs(vis[x] as int), vis[x] as int, g.n()));
    }
}



/// Relies on `rand::seq::index::sample`: exactly `amount` distinct indices
/// from `0..length`, in random order. It panics when `amount > length`, and
/// (in debug builds) when `amount == length > u32::MAX`.
#[verifier::external_body]
fn sample_indices(rng: &mut StdRng, length: usize, amount: usize) -> (r: Vec<usize>)
    requires
        amount <= length,
        length <= u32::MAX as usize,
    ensures
        r.len() == amount,
        r@.no_duplicates(),
        forall|i: int| 0 <= i < r.len() ==> #[trigger] r[i] < length,
{
    rand::seq::index::sample(rng, length, amount).into_vec()
}

/// Relies on `SliceRandom::shuffle`: the elements are permuted in place.
#[verifier::external_body]
fn shuffle_ids(rng: &mut StdRng, ids: &mut Vec<usize>)
    ensures
        final(ids)@.to_multiset() == old(ids)@.to_multiset(),
{
    ids.shuffle(rng)
}

/// Relies on `SeedableRng::seed_from_u64` for `StdRng`: a generator whose
/// output is fixed by the seed.
#[verifier::external_body]
fn seeded_rng(seed: u64) -> StdRng {
    StdRng::seed_from_u64(seed)
}

/// What makes a set of build parameters unusable.
#[derive(Clone, Copy, Debug, PartialEq, Eq, Structural)]
pub enum ConfigError {
    /// The dataset holds no vector.
    EmptyDataset,
    /// The vectors have no coordinate.
    ZeroDimension,
    /// The vector buffer does not hold one vector of the dimension per row.
    LengthMismatch,
    /// The out-degree cap is not below the number of vectors.
    DegreeTooLarge,
    /// The relaxation factor is below one (or has a zero denominator).
    AlphaBelowOne,
}

/// The error that graph initialization reports, if any, for `n` rows, vectors
/// of dimension `dim` in a buffer of `len` coordinates, and degree cap `r`.
pub open spec fn init_error(n: nat, dim: nat, len: nat, r: nat) -> Option<ConfigError> {
    if n == 0 {
        Some(ConfigError::EmptyDataset)
    } else if dim == 0 {
        Some(ConfigError::ZeroDimension)
    } else if len != n * dim {
        Some(ConfigError::LengthMismatch)
    } else if r >= n {
        Some(ConfigError::DegreeTooLarge)
    } else {
        None
    }
}

/// The error that a full build reports, if any: those of initialization,
/// then a relaxation `an / ad` below one.
pub open spec fn build_error(n: nat, dim: nat, len: nat, r: nat, an: nat, ad: nat) -> Option<ConfigError> {
    if init_error(n, dim, len, r).is_some() {
        init_error(n, dim, len, r)
    } else if ad == 0 || an < ad {
        Some(ConfigError::AlphaBelowOne)
    } else {
        None
    }
}

/// `s` holds, for each of the `n()` vertices of `g`, a sample of `r`
/// distinct neighbor ids other than itself, and the lists of `g` are those
/// samples with every edge mirrored.
pub open spec fn is_init_sample(g: &VamanaBuilder, r: nat, s: Seq<Seq<usize>>) -> bool {
    &&& s.len() == g.n()
    &&& forall|i: int| 0 <= i < g.n() ==> valid_neighbors(#[trigger] s[i], i, g.n()) && s[i].len() == r
    &&& forall|i: int, y: usize|
        0 <= i < g.n() && y < g.n() ==> (#[trigger] g.nbrs(i).contains(y) <==> (s[i].contains(y) || s[y as int].contains(i as usize)))
}

/// The lists of `g` are a random initialization with `r` samples per vertex.
pub open spec fn is_init_graph(g: &VamanaBuilder, r: nat) -> bool {
    exists|s: Seq<Seq<usize>>| #[trigger] is_init_sample(g, r, s)
}

/// A copy of `s`.
fn copy_ids(s: &Vec<usize>) -> (r: Vec<usize>)
    ensures
        r@ == s@,
{
    let mut r: Vec<usize> = Vec::new();
    let mut i: usize = 0;
    while i < s.len()
        invariant
            i <= s.len(),
            r@ == s@.take(i as int),
        decreases s.len() - i,
    {
        r.push(s[i]);
        i = i + 1;
        assert(r@ =~= s@.take(i as int));
    }
    assert(r@ =~= s@);
    r
}

/// Whether `s` holds `x`.
fn contains_id(s: &Vec<usize>, x: usize) -> (r: bool)
    ensures
        r == s@.contains(x),
{
    let mut i: usize = 0;
    while i < s.len()
        invariant
            i <= s.len(),
            forall|j: int| 0 <= j < i ==> s[j] != x,
        decreases s.len() - i,
    {
        if s[i] == x {
            return true;
        }
        i = i + 1;
    }
    false
}

proof fn lemma_index_in_range(i: int, k: int, n: int, d: int)
    requires
        0 <= i < n,
        0 <= k < d,
    ensures
        0 <= i * d + k < n * d,
        i * d + d <= n * d,
{
    assert(0 <= i * d + k < n * d && i * d + d <= n * d) by (nonlinear_arith)
        requires
            0 <= i < n,
            0 <= k < d,
    ;
}

impl VamanaBuilder {
    /// Randomly initializes the graph: each vertex gets `r` distinct random
    /// neighbors other than itself, and then every sampled edge is mirrored.
    pub fn try_init(
        vectors: Vec<i16>,
        dimension: usize,
        row_ids: Vec<u64>,
        r: usize,
        rng: &mut StdRng,
    ) -> (res: Result<VamanaBuilder, ConfigError>)
        requires
            dimension <= MAX_DIM,
            row_ids.len() <= MAX_POINTS,
        ensures
            match res {
                Ok(g) => {
                    &&& init_error(row_ids.len() as nat, dimension as nat, vectors.len() as nat, r as nat).is_none()
                    &&& g.wf()
                    &&& g.n() == row_ids.len()
                    &&& g.vectors@ == vectors@
                    &&& g.dimension == dimension
                    &&& forall|i: int| 0 <= i < g.n() ==> (#[trigger] g.vertices@[i]).row_id == row_ids@[i]
                    &&& forall|i: int| 0 <= i < g.n() ==> (#[trigger] g.nbrs(i)).len() >= r
                    &&& r >= 1 ==> forall|i: int| 0 <= i < g.n() ==> (#[trigger] g.nbrs(i)).len() >= 1
                    &&& forall|i: int, j: usize| 0 <= i < g.n() && #[trigger] g.nbrs(i).contains(j)
                        ==> g.nbrs(j as int).contains(i as usize)
                    &&& is_init_graph(&g, r as nat)
                },
                Err(e) => init_error(row_ids.len() as nat, dimension as nat, vectors.len() as nat, r as nat)
                    == Some(e),
            },
    {
        let n = row_ids.len();
        if n == 0 {
            return Err(ConfigError::EmptyDataset);
        }
        if dimension == 0 {
            return Err(ConfigError::ZeroDimension);
        }
        assert((n as int) * (dimension as int) <= 4294967295 * 2147483647) by (nonlinear_arith)
            requires
                n <= 4294967295,
                dimension <= 2147483647,
        ;
        if (n as u64) * (dimension as u64) != vectors.len() as u64 {
            return Err(ConfigError::LengthMismatch);
        }
        if r >= n {
            return Err(ConfigError::DegreeTooLarge);
        }
        // Sample the out-edges of every vertex.
        let mut sampled: Vec<Vec<usize>> = Vec::new();
        let mut vertices: Vec<Vertex> = Vec::new();
        let mut i: usize = 0;
        while i < n
            invariant
                n == row_ids.len(),
                n <= MAX_POINTS,
                r < n,
                i <= n,
                sampled.len() == i,
                vertices.len() == i,
                forall|j: int| 0 <= j < i ==> (#[trigger] vertices@[j]).id == j
                    && vertices@[j].row_id == row_ids@[j]
                    && vertices@[j].neighbors@ == sampled@[j]@
                    && valid_neighbors(sampled@[j]@, j, n as nat)
                    && sampled@[j]@.len() == r,
                forall|j: int| 0 <= j < i ==> valid_neighbors(#[trigger] sampled@[j]@, j, n as nat),
                forall|j: int| 0 <= j < i ==> (#[trigger] sampled@[j]@).len() == r,
            decreases n - i,
        {
            let s = sample_indices(rng, n - 1, r);
            let mut nb: Vec<usize> = Vec::new();
            let mut t: usize = 0;
            while t < s.len()
                invariant
                    i < n,
                    t <= s.len(),
                    s@.no_duplicates(),
                    forall|a: int| 0 <= a < s.len() ==> #[trigger] s[a] < n - 1,
                    nb.len() == t,
                    forall|a: int| 0 <= a < t ==> #[trigger] nb[a] == if s[a] >= i { s[a] + 1 } else { s[a] as int },
                decreases s.len() - t,
            {
                let x = s[t];
                if x >= i {
                    nb.push(x + 1);
                } else {
                    nb.push(x);
                }
                t = t + 1;
            }
            proof {
                assert forall|a: int, b: int| 0 <= a < b < nb.len() implies nb[a] != nb[b] by {
                    assert(s[a] != s[b]);
                }
                assert forall|a: int| 0 <= a < nb.len() implies #[trigger] nb[a] < n && nb[a] != i by {
                    assert(s[a] < n - 1);
                }
            }
            assert(valid_neighbors(nb@, i as int, n as nat));
            let nb2 = copy_ids(&nb);
            sampled.push(nb);
            vertices.push(Vertex { id: i, row_id: row_ids[i], neighbors: nb2 });
            i = i + 1;
        }
        // Mirror every sampled edge.
        proof {
            assert forall|x: int, y: usize| 0 <= x < n && #[trigger] vertices@[x].neighbors@.contains(y)
                implies sampled@[x]@.contains(y) by {}
            assert forall|x: int, a: int| 0 <= x < n && 0 <= a < sampled@[x]@.len()
                implies vertices@[x].neighbors@.contains(#[trigger] sampled@[x]@[a]) by {
                assert(vertices@[x].neighbors@[a] == sampled@[x]@[a]);
            }
        }
        let mut i: usize = 0;
        while i < n
            invariant
                n == row_ids.len(),
                r < n,
                i <= n,
                sampled.len() == n,
                vertices.len() == n,
                forall|j: int| 0 <= j < n ==> valid_neighbors(#[trigger] sampled@[j]@, j, n as nat),
                forall|j: int| 0 <= j < n ==> (#[trigger] sampled@[j]@).len() == r,
                forall|j: int| 0 <= j < n ==> (#[trigger] vertices@[j]).id == j
                    && vertices@[j].row_id == row_ids@[j]
                    && valid_neighbors(vertices@[j].neighbors@, j, n as nat)
                    && vertices@[j].neighbors@.len() >= r,
                forall|x: int, a: int| 0 <= x < n && 0 <= a < sampled@[x]@.len()
                    ==> vertices@[x].neighbors@.contains(#[trigger] sampled@[x]@[a]),
                forall|x: int, y: usize| 0 <= x < n && #[trigger] vertices@[x].neighbors@.contains(y)
                    ==> sampled@[x]@.contains(y) || (y < i && sampled@[y as int]@.contains(x as usize)),
                forall|x: int, a: int| 0 <= x < i && 0 <= a < sampled@[x]@.len()
                    ==> vertices@[#[trigger] sampled@[x]@[a] as int].neighbors@.contains(x as usize),
            decreases n - i,
        {
            let si = &sampled[i];
            assert(valid_neighbors(si@, i as int, n as nat));
            let mut t: usize = 0;
            while t < si.len()
                invariant
                    n == row_ids.len(),
                    r < n,
                    i < n,
                    t <= si.len(),
                    si@ == sampled@[i as int]@,
                    sampled.len() == n,
                    valid_neighbors(si@, i as int, n as nat),
                    forall|j: int| 0 <= j < n ==> valid_neighbors(#[trigger] sampled@[j]@, j, n as nat),
                    forall|j: int| 0 <= j < n ==> (#[trigger] sampled@[j]@).len() == r,
                    vertices.len() == n,
                    forall|j: int| 0 <= j < n ==> (#[trigger] vertices@[j]).id == j
                        && vertices@[j].row_id == row_ids@[j]
                        && valid_neighbors(vertices@[j].neighbors@, j, n as nat)
                        && vertices@[j].neighbors@.len() >= r,
                    forall|x: int, a: int| 0 <= x < n && 0 <= a < sampled@[x]@.len()
                        ==> vertices@[x].neighbors@.contains(#[trigger] sampled@[x]@[a]),
                    forall|x: int, y: usize| 0 <= x < n && #[trigger] vertices@[x].neighbors@.contains(y)
                        ==> sampled@[x]@.contains(y) || (y < i && sampled@[y as int]@.contains(x as usize))
                            || (y == i && sampled@[i as int]@.contains(x as usize)),
                    forall|x: int, a: int| 0 <= x < i && 0 <= a < sampled@[x]@.len()
                        ==> vertices@[#[trigger] sampled@[x]@[a] as int].neighbors@.contains(x as usize),
                    forall|a: int| 0 <= a < t ==> vertices@[#[trigger] si@[a] as int].neighbors@.contains(i),
                decreases si.len() - t,
            {
                let j = si[t];
                if !contains_id(&vertices[j].neighbors, i) {
                    let mut nb = copy_ids(&vertices[j].neighbors);
                    let ghost before = nb@;
                    let ghost old_vertices = vertices@;
                    nb.push(i);
                    proof {
                        assert forall|a: int, b: int| 0 <= a < b < nb.len() implies nb[a] != nb[b] by {
                            if b == before.len() {
                                assert(before[a] == nb[a]);
                            } else {
                                assert(before[a] != before[b]);
                            }
                        }
                        assert forall|a: int| 0 <= a < nb.len() implies #[trigger] nb[a] < n && nb[a] != j by {
                            if a < before.len() {
                                assert(before[a] == nb[a]);
                            }
                        }
                        assert forall|y: usize| nb@.contains(y) <==> (before.contains(y) || y == i) by {
                            if nb@.contains(y) {
                                let a = choose|a: int| 0 <= a < nb.len() && nb@[a] == y;
                                if a < before.len() {
                                    assert(before[a] == y);
                                }
                            }
                            if before.contains(y) {
                                let a = choose|a: int| 0 <= a < before.len() && before[a] == y;
                                assert(nb@[a] == y);
                            }
                            if y == i {
                                assert(nb@[before.len() as int] == i);
                            }
                        }
                        assert(si@.contains(j)) by {
                            assert(si@[t as int] == j);
                        }
                    }
                    let row_id = vertices[j].row_id;
                    vertices.set(j, Vertex { id: j, row_id, neighbors: nb });
                    proof {
                        assert forall|x: int, y: usize| 0 <= x < n && #[trigger] old_vertices[x].neighbors@.contains(y)
                            implies vertices@[x].neighbors@.contains(y) by {}
                        assert forall|x: int, y: usize| 0 <= x < n && #[trigger] vertices@[x].neighbors@.contains(y)
                            implies sampled@[x]@.contains(y) || (y < i && sampled@[y as int]@.contains(x as usize))
                                || (y == i && sampled@[i as int]@.contains(x as usize)) by {
                            if x == j {
                                if y != i {
                                    assert(before.contains(y));
                                    assert(old_vertices[x].neighbors@.contains(y));
                                }
                            } else {
                                assert(old_vertices[x] == vertices@[x]);
                                assert(old_vertices[x].neighbors@.contains(y));
                            }
                        }
                    }
                }
                t = t + 1;
            }
            i = i + 1;
        }
        let ghost samples = Seq::new(n as nat, |x: int| sampled@[x]@);
        proof {
            let g = VamanaBuilder { vertices, vectors, dimension };
            assert forall|x: int, y: usize| 0 <= x < n && y < n implies (#[trigger] g.nbrs(x).contains(y) <==> (
            samples[x].contains(y) || samples[y as int].contains(x as usize))) by {
                if samples[x].contains(y) {
                    let a = choose|a: int| 0 <= a < sampled@[x]@.len() && sampled@[x]@[a] == y;
                    assert(vertices@[x].neighbors@.contains(sampled@[x]@[a]));
                }
                if samples[y as int].contains(x as usize) {
                    let a = choose|a: int| 0 <= a < sampled@[y as int]@.len() && sampled@[y as int]@[a] == x as usize;
                    assert(vertices@[sampled@[y as int]@[a] as int].neighbors@.contains(y));
                }
            }
            assert forall|i: int| 0 <= i < g.n() implies valid_neighbors(#[trigger] samples[i], i, g.n()) && samples[i].len() == r by {
                assert(samples[i] == sampled@[i]@);
            }
            assert(is_init_sample(&g, r as nat, samples));
        }
        proof {
            assert forall|x: int, y: usize| 0 <= x < n && #[trigger] vertices@[x].neighbors@.contains(y)
                implies vertices@[y as int].neighbors@.contains(x as usize) by {
                if sampled@[x]@.contains(y) {
                    let a = choose|a: int| 0 <= a < sampled@[x]@.len() && sampled@[x]@[a] == y;
                    assert(vertices@[sampled@[x]@[a] as int].neighbors@.contains(x as usize));
                } else {
                    assert(sampled@[y as int]@.contains(x as usize));
                    let a = choose|a: int| 0 <= a < sampled@[y as int]@.len() && sampled@[y as int]@[a] == x as usize;
                    assert(vertices@[y as int].neighbors@.contains(sampled@[y as int]@[a]));
                }
            }
        }
        Ok(VamanaBuilder { vertices, vectors, dimension })
    }

    /// A copy of the neighbor list of vertex `id`.
    pub fn neighbors(&self, id: usize) -> (r: Vec<usize>)
        requires
            id < self.n(),
        ensures
            r@ == self.nbrs(id as int),
    {
        copy_ids(&self.vertices[id].neighbors)
    }

    /// Replaces the neighbor list of vertex `i`.
    pub fn set_neighbors(&mut self, i: usize, list: Vec<usize>)
        requires
            old(self).wf(),
            i < old(self).n(),
            valid_neighbors(list@, i as int, old(self).n()),
        ensures
            final(self).wf(),
            final(self).n() == old(self).n(),
            final(self).vectors == old(self).vectors,
            final(self).dimension == old(self).dimension,
            final(self).nbrs(i as int) == list@,
            forall|j: int| 0 <= j < final(self).n() && j != i ==> #[trigger] final(self).nbrs(j) == old(self).nbrs(j),
            forall|j: int| 0 <= j < final(self).n() ==> (#[trigger] final(self).vertices@[j]).row_id == old(self).vertices@[j].row_id,
    {
        let row_id = self.vertices[i].row_id;
        let ghost before = *self;
        self.vertices.set(i, Vertex { id: i, row_id, neighbors: list });
        proof {
            assert forall|j: int| 0 <= j < self.n() implies (#[trigger] self.vertices@[j]).id == j by {
                if j != i {
                    assert(self.vertices@[j] == before.vertices@[j]);
                }
            }
            assert forall|j: int| 0 <= j < self.n() implies valid_neighbors(#[trigger] self.nbrs(j), j, self.n()) by {
                if j != i {
                    assert(self.nbrs(j) == before.nbrs(j));
                }
            }
        }
    }

    /// The vector of vertex `idx`.
    pub fn get_vector(&self, idx: usize) -> (r: Vec<i16>)
        requires
            self.wf(),
            idx < self.n(),
        ensures
            r@ == self.vec_of(idx as int),
            r.len() == self.dim(),
    {
        proof {
            self.lemma_vec_range(idx as int);
        }
        let dim = self.dimension;
        let start = idx * dim;
        let mut r: Vec<i16> = Vec::new();
        let mut k: usize = 0;
        while k < dim
            invariant
                k <= dim,
                dim == self.dim(),
                start == idx * self.dim(),
                start + dim <= self.vectors.len(),
                r@ == self.vectors@.subrange(start as int, start + k),
            decreases dim - k,
        {
            r.push(self.vectors[start + k]);
            k = k + 1;
            assert(r@ =~= self.vectors@.subrange(start as int, start + k));
        }
        r
    }

    /// Vector dimension.
    pub fn dimension(&self) -> (r: usize)
        ensures
            r == self.dimension,
    {
        self.dimension
    }

    /// Number of vertices.
    pub fn len(&self) -> (r: usize)
        ensures
            r == self.n(),
    {
        self.vertices.len()
    }

}

/// The list vertex `j` gets when vertex `id` of `before` takes `j` as a new
/// neighbor: `id` appended when the list holds fewer than `r` ids and not
/// `id` already, else the robust prune of `j` with `[id]`.
pub open spec fn is_back_edge(
    before: &VamanaBuilder,
    id: usize,
    j: usize,
    an: u32,
    ad: u32,
    r: nat,
    list: Seq<usize>,
) -> bool {
    let old_list = before.nbrs(j as int);
    if old_list.len() < r {
        list == (if old_list.contains(id) { old_list } else { old_list.push(id) })
    } else {
        is_pruned(before, j, seq![id], an, ad, r, list)
    }
}

/// `after` is `before` with vertex `id` refined from the expanded set `vis`:
/// `id` gets the robust prune of `vis`, each of its new neighbors the back
/// edge, and every other vertex keeps its list.
pub open spec fn is_refine_step(
    before: &VamanaBuilder,
    after: &VamanaBuilder,
    id: usize,
    vis: Seq<usize>,
    an: u32,
    ad: u32,
    r: nat,
) -> bool {
    &&& after.n() == before.n()
    &&& after.vectors == before.vectors
    &&& after.dimension == before.dimension
    &&& forall|j: int| 0 <= j < after.n() ==> (#[trigger] after.vertices@[j]).row_id == before.vertices@[j].row_id
    &&& is_pruned(before, id, vis, an, ad, r, after.nbrs(id as int))
    &&& forall|j: usize| j < after.n() && j != id ==> if after.nbrs(id as int).contains(j) {
        is_back_edge(before, id, j, an, ad, r, #[trigger] after.nbrs(j as int))
    } else {
        after.nbrs(j as int) == before.nbrs(j as int)
    }
}

/// The steps of a pass: `order` lists every vertex once, `states[t + 1]` is
/// `states[t]` with vertex `order[t]` refined from the vertices `vis[t]`
/// that a greedy search on `states[t]` from `medoid` toward its vector
/// (result size one, search-list size `l`) expanded.
pub open spec fn is_pass_trace(
    before: &VamanaBuilder,
    after: &VamanaBuilder,
    medoid: usize,
    an: u32,
    ad: u32,
    r: nat,
    l: nat,
    order: Seq<usize>,
    states: Seq<VamanaBuilder>,
    vis: Seq<Seq<usize>>,
    res: Seq<Seq<usize>>,
) -> bool {
    let n = before.n();
    &&& order.len() == n
    &&& order.no_duplicates()
    &&& forall|t: int| 0 <= t < n ==> #[trigger] order[t] < n
    &&& states.len() == n + 1
    &&& vis.len() == n
    &&& res.len() == n
    &&& states[0] == *before
    &&& states[n as int] == *after
    &&& forall|t: int|
        0 <= t < n ==> {
            &&& (#[trigger] states[t]).is_search_result(medoid, states[t].vec_of(order[t] as int), 1, l, res[t], vis[t])
            &&& is_refine_step(&states[t], &states[t + 1], order[t], vis[t], an, ad, r)
        }
}

/// `after` is `before` after one refinement pass.
pub open spec fn is_pass(
    before: &VamanaBuilder,
    after: &VamanaBuilder,
    medoid: usize,
    an: u32,
    ad: u32,
    r: nat,
    l: nat,
) -> bool {
    exists|order: Seq<usize>, states: Seq<VamanaBuilder>, vis: Seq<Seq<usize>>, res: Seq<Seq<usize>>|
        #[trigger] is_pass_trace(before, after, medoid, an, ad, r, l, order, states, vis, res)
}

/// A robust prune reads only the vectors and the list of the vertex pruned.
proof fn lemma_pruned_same(
    g1: &VamanaBuilder,
    g2: &VamanaBuilder,
    j: usize,
    vis: Seq<usize>,
    an: u32,
    ad: u32,
    r: nat,
    out: Seq<usize>,
)
    requires
        g1.n() == g2.n(),
        g1.vectors == g2.vectors,
        g1.dimension == g2.dimension,
        g1.nbrs(j as int) == g2.nbrs(j as int),
    ensures
        is_pruned(g1, j, vis, an, ad, r, out) == is_pruned(g2, j, vis, an, ad, r, out),
{
    if is_pruned(g1, j, vis, an, ad, r, out) {
        lemma_pruned_transfer(g1, g2, j, vis, an, ad, r, out);
    }
    if is_pruned(g2, j, vis, an, ad, r, out) {
        lemma_pruned_transfer(g2, g1, j, vis, an, ad, r, out);
    }
}

proof fn lemma_pruned_transfer(
    g1: &VamanaBuilder,
    g2: &VamanaBuilder,
    j: usize,
    vis: Seq<usize>,
    an: u32,
    ad: u32,
    r: nat,
    out: Seq<usize>,
)
    requires
        g1.n() == g2.n(),
        g1.vectors == g2.vectors,
        g1.dimension == g2.dimension,
        g1.nbrs(j as int) == g2.nbrs(j as int),
        is_pruned(g1, j, vis, an, ad, r, out),
    ensures
        is_pruned(g2, j, vis, an, ad, r, out),
{
    assert forall|v: usize| #[trigger] is_candidate(g2, j, vis, v) == is_candidate(g1, j, vis, v) by {}
    assert forall|s: Seq<usize>, v: usize| #[trigger] covered(g2, an, ad, j, s, v) == covered(g1, an, ad, j, s, v) by {
        if covered(g1, an, ad, j, s, v) {
            let k = choose|k: int| 0 <= k < s.len() && #[trigger] covers(g1, an, ad, j, s[k], v);
            assert(covers(g2, an, ad, j, s[k], v));
        }
        if covered(g2, an, ad, j, s, v) {
            let k = choose|k: int| 0 <= k < s.len() && #[trigger] covers(g2, an, ad, j, s[k], v);
            assert(covers(g1, an, ad, j, s[k], v));
        }
    }
    assert forall|k: int| 0 <= k < out.len() implies is_candidate(g2, j, vis, #[trigger] out[k]) by {
        assert(is_candidate(g1, j, vis, out[k]));
    }
    assert forall|k: int| 0 <= k < out.len() implies !covered(g2, an, ad, j, out.take(k), #[trigger] out[k]) by {
        assert(!covered(g1, an, ad, j, out.take(k), out[k]));
    }
    assert forall|k: int, v: usize|
        #![trigger out[k], is_candidate(g2, j, vis, v)]
        0 <= k < out.len() && is_candidate(g2, j, vis, v) && !covered(g2, an, ad, j, out.take(k), v)
            implies nearer(g2, j, out[k], v) by {
        assert(is_candidate(g1, j, vis, v));
        assert(!covered(g1, an, ad, j, out.take(k), v));
        assert(nearer(g1, j, out[k], v));
    }
    if out.len() < r {
        assert forall|v: usize| is_candidate(g2, j, vis, v) implies #[trigger] covered(g2, an, ad, j, out, v) by {
            assert(is_candidate(g1, j, vis, v));
            assert(covered(g1, an, ad, j, out, v));
        }
    }
}

impl VamanaBuilder {
    /// Refines vertex `id` from the vertices `visited` that a search expanded:
    /// `id` gets their robust prune, and each of its new neighbors gets `id`
    /// appended when its list has room (and lacks `id`), or else the robust
    /// prune of that neighbor with `id` as the one extra candidate.
    pub fn refine_vertex(&mut self, id: usize, visited: &Vec<usize>, alpha_num: u32, alpha_den: u32, r: usize)
        requires
            old(self).wf(),
            id < old(self).n(),
            forall|k: int| 0 <= k < visited.len() ==> #[trigger] visited[k] < old(self).n(),
        ensures
            final(self).wf(),
            is_refine_step(old(self), final(self), id, visited@, alpha_num, alpha_den, r as nat),
            final(self).nbrs(id as int).len() <= r,
            forall|x: int| 0 <= x < final(self).n() ==> (#[trigger] final(self).nbrs(x)).len() <= r
                || final(self).nbrs(x) == old(self).nbrs(x),
            r >= 1 && (forall|i: int| 0 <= i < old(self).n() ==> (#[trigger] old(self).nbrs(i)).len() >= 1)
                ==> forall|i: int| 0 <= i < final(self).n() ==> (#[trigger] final(self).nbrs(i)).len() >= 1,
    {
        let ghost before = *self;
        let ghost n = self.n();
        let ghost keep = r >= 1 && (forall|i: int| 0 <= i < before.n() ==> (#[trigger] before.nbrs(i)).len() >= 1);
        let new_nbrs = robust_prune(self, id, visited, alpha_num, alpha_den, r);
        proof {
            if keep {
                assert(self.nbrs(id as int).len() >= 1);
                let v0 = self.nbrs(id as int)[0];
                assert(self.nbrs(id as int).contains(v0));
                assert(valid_neighbors(self.nbrs(id as int), id as int, self.n()));
                lemma_pruned_nonempty(self, id, visited@, alpha_num, alpha_den, r as nat, new_nbrs@, v0);
            }
        }
        let ghost pruned = new_nbrs@;
        self.set_neighbors(id, new_nbrs);
        let new_nbrs = self.neighbors(id);
        let mut k: usize = 0;
        while k < new_nbrs.len()
            invariant
                self.wf(),
                n == self.n(),
                id < n,
                k <= new_nbrs.len(),
                new_nbrs@ == pruned,
                valid_neighbors(pruned, id as int, n),
                is_pruned(&before, id, visited@, alpha_num, alpha_den, r as nat, pruned),
                self.nbrs(id as int) == pruned,
                self.vectors == before.vectors,
                self.dimension == before.dimension,
                before.n() == n,
                forall|j: int| 0 <= j < n ==> (#[trigger] self.vertices@[j]).row_id == before.vertices@[j].row_id,
                forall|j: usize| j < n && j != id ==> if pruned.take(k as int).contains(j) {
                    is_back_edge(&before, id, j, alpha_num, alpha_den, r as nat, #[trigger] self.nbrs(j as int))
                } else {
                    self.nbrs(j as int) == before.nbrs(j as int)
                },
                forall|x: int| 0 <= x < n ==> (#[trigger] self.nbrs(x)).len() <= r || self.nbrs(x) == before.nbrs(x),
                keep ==> r >= 1 && forall|i: int| 0 <= i < n ==> (#[trigger] self.nbrs(i)).len() >= 1,
            decreases new_nbrs.len() - k,
        {
            let j = new_nbrs[k];
            let ghost cur = *self;
            proof {
                assert(pruned[k as int] == j);
                assert(j != id && j < n);
                assert(!pruned.take(k as int).contains(j)) by {
                    if pruned.take(k as int).contains(j) {
                        let a = choose|a: int| 0 <= a < k && pruned.take(k as int)[a] == j;
                        assert(pruned[a] == pruned[k as int]);
                    }
                }
                assert(self.nbrs(j as int) == before.nbrs(j as int));
                let t0 = pruned.take(k as int);
                let t1 = pruned.take(k + 1);
                assert forall|x: usize| t1.contains(x) <==> (t0.contains(x) || x == j) by {
                    if t1.contains(x) {
                        let a = choose|a: int| 0 <= a < t1.len() && t1[a] == x;
                        if a < k {
                            assert(t0[a] == x);
                        }
                    }
                    if t0.contains(x) {
                        let a = choose|a: int| 0 <= a < t0.len() && t0[a] == x;
                        assert(t1[a] == x);
                    }
                    if x == j {
                        assert(t1[k as int] == j);
                    }
                }
            }
            let mut nj = self.neighbors(j);
            if nj.len() < r {
                if !contains_id(&nj, id) {
                    let ghost bl = nj@;
                    nj.push(id);
                    proof {
                        assert(valid_neighbors(bl, j as int, n));
                        assert forall|a: int, b: int| 0 <= a < b < nj.len() implies nj[a] != nj[b] by {
                            if b == bl.len() {
                                assert(bl[a] == nj[a]);
                            } else {
                                assert(bl[a] != bl[b]);
                            }
                        }
                        assert forall|a: int| 0 <= a < nj.len() implies #[trigger] nj[a] < n && nj[a] != j by {
                            if a < bl.len() {
                                assert(bl[a] == nj[a]);
                            }
                        }
                    }
                    self.set_neighbors(j, nj);
                }
            } else {
                let mut single: Vec<usize> = Vec::new();
                single.push(id);
                assert(single@ =~= seq![id]);
                let p = robust_prune(self, j, &single, alpha_num, alpha_den, r);
                proof {
                    lemma_pruned_same(&cur, &before, j, seq![id], alpha_num, alpha_den, r as nat, p@);
                    if keep {
                        assert(single@[0] == id);
                        assert(single@.contains(id));
                        lemma_pruned_nonempty(self, j, single@, alpha_num, alpha_den, r as nat, p@, id);
                    }
                }
                self.set_neighbors(j, p);
            }
            k = k + 1;
        }
        proof {
            assert(pruned.take(k as int) =~= pruned);
        }
    }

    /// One refinement pass: every vertex, in a freshly shuffled order, is
    /// refined (`refine_vertex`) from what a greedy search from `medoid`
    /// toward its own vector expands.
    pub fn index_pass(
        &mut self,
        medoid: usize,
        alpha_num: u32,
        alpha_den: u32,
        r: usize,
        l: usize,
        rng: &mut StdRng,
    )
        requires
            old(self).wf(),
            medoid < old(self).n(),
        ensures
            final(self).wf(),
            final(self).bounded(r as nat),
            is_pass(old(self), final(self), medoid, alpha_num, alpha_den, r as nat, l as nat),
            final(self).n() == old(self).n(),
            final(self).vectors == old(self).vectors,
            final(self).dimension == old(self).dimension,
            forall|j: int| 0 <= j < final(self).n() ==> (#[trigger] final(self).vertices@[j]).row_id == old(self).vertices@[j].row_id,
            r >= 1 && (forall|i: int| 0 <= i < old(self).n() ==> (#[trigger] old(self).nbrs(i)).len() >= 1)
                ==> forall|i: int| 0 <= i < final(self).n() ==> (#[trigger] final(self).nbrs(i)).len() >= 1,
    {
        let ghost keep = r >= 1 && (forall|i: int| 0 <= i < old(self).n() ==> (#[trigger] old(self).nbrs(i)).len() >= 1);
        let ghost start_state = *self;
        let n = self.vertices.len();
        let mut ids: Vec<usize> = Vec::new();
        while ids.len() < n
            invariant
                ids.len() <= n,
                forall|a: int| 0 <= a < ids.len() ==> #[trigger] ids[a] == a,
            decreases n - ids.len(),
        {
            ids.push(ids.len());
        }
        let ghost ordered = ids@;
        proof {
            assert(ordered.no_duplicates());
            ordered.lemma_multiset_has_no_duplicates();
        }
        shuffle_ids(rng, &mut ids);
        proof {
            ordered.to_multiset_ensures();
            ids@.to_multiset_ensures();
            assert forall|a: int| 0 <= a < ids.len() implies #[trigger] ids[a] < n by {
                let v = ids[a];
                assert(ids@.contains(v));
                assert(ids@.to_multiset().count(v) > 0);
                assert(ordered.to_multiset().count(v) > 0);
                assert(ordered.contains(v));
                let b = choose|b: int| 0 <= b < ordered.len() && ordered[b] == v;
            }
            assert forall|x: usize| x < n implies ids@.contains(x) by {
                assert(ordered[x as int] == x);
                assert(ordered.contains(x));
                assert(ordered.to_multiset().count(x) > 0);
                assert(ids@.to_multiset().count(x) > 0);
            }
            ids@.lemma_multiset_has_no_duplicates_conv();
        }
        let ghost mut states: Seq<VamanaBuilder> = seq![*self];
        let ghost mut viss: Seq<Seq<usize>> = Seq::empty();
        let ghost mut ress: Seq<Seq<usize>> = Seq::empty();
        let mut t: usize = 0;
        while t < ids.len()
            invariant
                self.wf(),
                n == self.n(),
                n == start_state.n(),
                ids.len() == n,
                medoid < n,
                t <= ids.len(),
                self.vectors == start_state.vectors,
                self.dimension == start_state.dimension,
                ids@.no_duplicates(),
                forall|a: int| 0 <= a < ids.len() ==> #[trigger] ids[a] < n,
                forall|x: usize| x < n ==> ids@.contains(x),
                forall|a: int| 0 <= a < t ==> (#[trigger] self.nbrs(ids[a] as int)).len() <= r,
                forall|j: int| 0 <= j < n ==> (#[trigger] self.vertices@[j]).row_id == start_state.vertices@[j].row_id,
                keep ==> r >= 1 && forall|i: int| 0 <= i < n ==> (#[trigger] self.nbrs(i)).len() >= 1,
                states.len() == t + 1,
                viss.len() == t,
                ress.len() == t,
                states[0] == start_state,
                states[t as int] == *self,
                forall|s: int|
                    0 <= s < t ==> {
                        &&& (#[trigger] states[s]).is_search_result(
                            medoid,
                            states[s].vec_of(ids@[s] as int),
                            1,
                            l as nat,
                            ress[s],
                            viss[s],
                        )
                        &&& is_refine_step(&states[s], &states[s + 1], ids@[s], viss[s], alpha_num, alpha_den, r as nat)
                    },
            decreases ids.len() - t,
        {
            let id = ids[t];
            let q = self.get_vector(id);
            let (top, visited) = self.greedy_search(medoid, &q, 1, l);
            proof {
                viss = viss.push(visited@);
                ress = ress.push(top@);
            }
            self.refine_vertex(id, &visited, alpha_num, alpha_den, r);
            proof {
                let prev = states;
                states = states.push(*self);
                assert forall|s: int|
                    0 <= s < t + 1 implies {
                        &&& (#[trigger] states[s]).is_search_result(
                            medoid,
                            states[s].vec_of(ids@[s] as int),
                            1,
                            l as nat,
                            ress[s],
                            viss[s],
                        )
                        &&& is_refine_step(&states[s], &states[s + 1], ids@[s], viss[s], alpha_num, alpha_den, r as nat)
                    } by {
                    if s < t {
                        assert(states[s] == prev[s] && states[s + 1] == prev[s + 1]);
                    }
                }
                assert forall|a: int| 0 <= a < t + 1 implies (#[trigger] self.nbrs(ids[a] as int)).len() <= r by {
                    if a < t {
                        assert(prev[t as int].nbrs(ids[a] as int).len() <= r);
                    }
                }
            }
            t = t + 1;
        }
        proof {
            assert forall|x: int| 0 <= x < self.n() implies (#[trigger] self.nbrs(x)).len() <= r by {
                assert(ids@.contains(x as usize));
                let a = choose|a: int| 0 <= a < ids.len() && ids[a] == x as usize;
                assert(self.nbrs(ids[a] as int).len() <= r);
            }
            assert(is_pass_trace(&start_state, self, medoid, alpha_num, alpha_den, r as nat, l as nat, ids@, states, viss, ress));
        }
    }
}


/// Sum of coordinate `k` over the first `m` vectors of `data`.
pub open spec fn col_sum(data: Seq<i16>, dim: nat, k: int, m: nat) -> int
    decreases m,
{
    if m == 0 {
        0
    } else {
        col_sum(data, dim, k, (m - 1) as nat) + data[(m - 1) * dim + k] as int
    }
}

/// `g` is what a build gives: `g0`, a random initialization of the vectors,
/// `m`, its medoid, and `g1`, `g0` after a pass with relaxation one, and `g`,
/// `g1` after a pass with relaxation `an / ad`.
pub open spec fn is_build_trace(
    g: &VamanaBuilder,
    vectors: Seq<i16>,
    dimension: usize,
    row_ids: Seq<u64>,
    r: nat,
    an: u32,
    ad: u32,
    l: nat,
    g0: VamanaBuilder,
    g1: VamanaBuilder,
    m: usize,
) -> bool {
    &&& g0.wf()
    &&& g0.n() == row_ids.len()
    &&& g0.vectors@ == vectors
    &&& g0.dimension == dimension
    &&& forall|i: int| 0 <= i < g0.n() ==> (#[trigger] g0.vertices@[i]).row_id == row_ids[i]
    &&& is_init_graph(&g0, r)
    &&& g0.is_medoid(m as int)
    &&& is_pass(&g0, &g1, m, 1, 1, r, l)
    &&& is_pass(&g1, g, m, an, ad, r, l)
}

impl VamanaBuilder {
    /// Coordinate `k` of vertex `i`, scaled by the number of vertices, minus
    /// the sum of coordinate `k` over all vertices: `n` times the offset of
    /// vertex `i` from the centroid along axis `k`.
    pub open spec fn centroid_gap(&self, i: int, k: int) -> int {
        self.n() * self.vectors@[i * self.dim() + k] - col_sum(self.vectors@, self.dim(), k, self.n())
    }

    pub open spec fn centroid_score_upto(&self, i: int, k: nat) -> int
        decreases k,
    {
        if k == 0 {
            0
        } else {
            self.centroid_score_upto(i, (k - 1) as nat) + self.centroid_gap(i, k - 1) * self.centroid_gap(i, k - 1)
        }
    }

    /// `n * n` times the squared L2 distance from vertex `i` to the centroid
    /// of all vectors.
    pub open spec fn centroid_score(&self, i: int) -> int {
        self.centroid_score_upto(i, self.dim())
    }

    /// `m` is the vertex nearest to the centroid, the lowest such id on ties.
    pub open spec fn is_medoid(&self, m: int) -> bool {
        &&& 0 <= m < self.n()
        &&& forall|j: int| 0 <= j < self.n() ==> self.centroid_score(m) <= #[trigger] self.centroid_score(j)
        &&& forall|j: int| 0 <= j < m ==> self.centroid_score(m) < #[trigger] self.centroid_score(j)
    }

    proof fn lemma_col_sum_bound(&self, k: int, m: nat)
        requires
            self.wf(),
            0 <= k < self.dim(),
            m <= self.n(),
        ensures
            -32768 * m <= col_sum(self.vectors@, self.dim(), k, m) <= 32767 * m,
        decreases m,
    {
        if m > 0 {
            self.lemma_col_sum_bound(k, (m - 1) as nat);
            lemma_index_in_range(m - 1, k, self.n() as int, self.dim() as int);
        }
    }

    proof fn lemma_gap_bound(&self, i: int, k: int)
        requires
            self.wf(),
            0 <= i < self.n(),
            0 <= k < self.dim(),
        ensures
            -281474976710656 <= self.centroid_gap(i, k) <= 281474976710656,
            0 <= self.centroid_gap(i, k) * self.centroid_gap(i, k) <= 281474976710656 * 281474976710656,
    {
        self.lemma_col_sum_bound(k, self.n());
        lemma_index_in_range(i, k, self.n() as int, self.dim() as int);
        let n = self.n() as int;
        let x = self.vectors@[i * self.dim() + k] as int;
        assert(-32768 * n <= n * x <= 32767 * n) by (nonlinear_arith)
            requires
                0 <= n,
                -32768 <= x <= 32767,
        ;
        let g = self.centroid_gap(i, k);
        assert(0 <= g * g <= 281474976710656 * 281474976710656) by (nonlinear_arith)
            requires
                -281474976710656 <= g <= 281474976710656,
        ;
    }

    proof fn lemma_score_bound(&self, i: int, k: nat)
        requires
            self.wf(),
            0 <= i < self.n(),
            k <= self.dim(),
        ensures
            0 <= self.centroid_score_upto(i, k) <= k * (281474976710656 * 281474976710656),
        decreases k,
    {
        if k > 0 {
            self.lemma_score_bound(i, (k - 1) as nat);
            self.lemma_gap_bound(i, k - 1);
            assert((k - 1) * (281474976710656 * 281474976710656) + 281474976710656 * 281474976710656
                == k * (281474976710656 * 281474976710656)) by (nonlinear_arith);
        }
    }

    /// The column sums of all vectors.
    fn column_sums(&self) -> (sums: Vec<i64>)
        requires
            self.wf(),
        ensures
            sums.len() == self.dim(),
            forall|k: int| 0 <= k < self.dim() ==> #[trigger] sums[k] == col_sum(self.vectors@, self.dim(), k, self.n()),
    {
        let n = self.vertices.len();
        let dim = self.dimension;
        let mut sums: Vec<i64> = Vec::new();
        while sums.len() < dim
            invariant
                sums.len() <= dim,
                forall|k: int| 0 <= k < sums.len() ==> #[trigger] sums[k] == 0,
            decreases dim - sums.len(),
        {
            sums.push(0);
        }
        let mut j: usize = 0;
        while j < n
            invariant
                self.wf(),
                n == self.n(),
                dim == self.dim(),
                j <= n,
                sums.len() == dim,
                forall|k: int| 0 <= k < dim ==> #[trigger] sums[k] == col_sum(self.vectors@, self.dim(), k, j as nat),
            decreases n - j,
        {
            let mut k: usize = 0;
            while k < dim
                invariant
                    self.wf(),
                    n == self.n(),
                    dim == self.dim(),
                    j < n,
                    k <= dim,
                    sums.len() == dim,
                    forall|x: int| 0 <= x < k ==> #[trigger] sums[x] == col_sum(self.vectors@, self.dim(), x, (j + 1) as nat),
                    forall|x: int| k <= x < dim ==> #[trigger] sums[x] == col_sum(self.vectors@, self.dim(), x, j as nat),
                decreases dim - k,
            {
                proof {
                    lemma_index_in_range(j as int, k as int, n as int, dim as int);
                    self.lemma_col_sum_bound(k as int, (j + 1) as nat);
                    assert(32768 * (j + 1) <= 32768 * 4294967296) by (nonlinear_arith)
                        requires
                            j + 1 <= 4294967296,
                    ;
                }
                let v = self.vectors[j * dim + k];
                let cur = sums[k];
                sums.set(k, cur + v as i64);
                k = k + 1;
            }
            j = j + 1;
        }
        sums
    }

    /// Centroid score of vertex `i`, given the column sums.
    fn score_of(&self, sums: &Vec<i64>, i: usize) -> (r: u128)
        requires
            self.wf(),
            i < self.n(),
            sums.len() == self.dim(),
            forall|k: int| 0 <= k < self.dim() ==> #[trigger] sums[k] == col_sum(self.vectors@, self.dim(), k, self.n()),
        ensures
            r == self.centroid_score(i as int),
    {
        let n = self.vertices.len();
        let dim = self.dimension;
        let mut acc: u128 = 0;
        let mut k: usize = 0;
        while k < dim
            invariant
                self.wf(),
                n == self.n(),
                dim == self.dim(),
                i < n,
                k <= dim,
                sums.len() == dim,
                forall|x: int| 0 <= x < self.dim() ==> #[trigger] sums[x] == col_sum(self.vectors@, self.dim(), x, self.n()),
                acc == self.centroid_score_upto(i as int, k as nat),
            decreases dim - k,
        {
            proof {
                lemma_index_in_range(i as int, k as int, n as int, dim as int);
                self.lemma_gap_bound(i as int, k as int);
                self.lemma_score_bound(i as int, (k + 1) as nat);
                assert((k + 1) * (281474976710656 * 281474976710656) <= 2147483648 * (281474976710656 * 281474976710656))
                    by (nonlinear_arith)
                    requires
                        k + 1 <= 2147483648,
                ;
                self.lemma_col_sum_bound(k as int, self.n());
                let x = self.vectors@[i * self.dim() + k] as int;
                let nn = n as int;
                assert(-32768 * nn <= nn * x <= 32767 * nn) by (nonlinear_arith)
                    requires
                        0 <= nn,
                        -32768 <= x <= 32767,
                ;
            }
            let x = self.vectors[i * dim + k];
            let gap: i128 = (n as i128) * (x as i128) - (sums[k] as i128);
            let sq: u128 = (gap * gap) as u128;
            acc = acc + sq;
            k = k + 1;
        }
        acc
    }

    /// Finds the vertex whose vector is nearest to the centroid of all
    /// vectors, the lowest id on ties.
    pub fn find_medoid(&self) -> (m: usize)
        requires
            self.wf(),
            self.n() >= 1,
        ensures
            self.is_medoid(m as int),
    {
        let sums = self.column_sums();
        let n = self.vertices.len();
        let mut best: usize = 0;
        let mut best_score = self.score_of(&sums, 0);
        let mut i: usize = 1;
        while i < n
            invariant
                self.wf(),
                n == self.n(),
                1 <= i <= n,
                best < i,
                sums.len() == self.dim(),
                forall|k: int| 0 <= k < self.dim() ==> #[trigger] sums[k] == col_sum(self.vectors@, self.dim(), k, self.n()),
                best_score == self.centroid_score(best as int),
                forall|j: int| 0 <= j < i ==> self.centroid_score(best as int) <= #[trigger] self.centroid_score(j),
                forall|j: int| 0 <= j < best ==> self.centroid_score(best as int) < #[trigger] self.centroid_score(j),
            decreases n - i,
        {
            let sc = self.score_of(&sums, i);
            if sc < best_score {
                best = i;
                best_score = sc;
            }
            i = i + 1;
        }
        best
    }

    /// Builds a Vamana graph: random initialization, medoid, then a pass
    /// with relaxation one and a pass with relaxation `alpha_num / alpha_den`.
    /// The order of each pass is drawn from a generator seeded with `seed`.
    pub fn try_new(
        vectors: Vec<i16>,
        dimension: usize,
        row_ids: Vec<u64>,
        r: usize,
        alpha_num: u32,
        alpha_den: u32,
        l: usize,
        seed: u64,
    ) -> (res: Result<VamanaBuilder, ConfigError>)
        requires
            dimension <= MAX_DIM,
            row_ids.len() <= MAX_POINTS,
        ensures
            match res {
                Ok(g) => {
                    &&& build_error(
                        row_ids.len() as nat,
                        dimension as nat,
                        vectors.len() as nat,
                        r as nat,
                        alpha_num as nat,
                        alpha_den as nat,
                    ).is_none()
                    &&& g.wf()
                    &&& g.bounded(r as nat)
                    &&& r >= 1 ==> forall|i: int| 0 <= i < g.n() ==> (#[trigger] g.nbrs(i)).len() >= 1
                    &&& exists|g0: VamanaBuilder, g1: VamanaBuilder, m: usize|
                        #[trigger] is_build_trace(&g, vectors@, dimension, row_ids@, r as nat, alpha_num, alpha_den, l as nat, g0, g1, m)
                    &&& g.n() == row_ids.len()
                    &&& g.vectors@ == vectors@
                    &&& g.dimension == dimension
                    &&& forall|i: int| 0 <= i < g.n() ==> (#[trigger] g.vertices@[i]).row_id == row_ids@[i]
                },
                Err(e) => build_error(
                    row_ids.len() as nat,
                    dimension as nat,
                    vectors.len() as nat,
                    r as nat,
                    alpha_num as nat,
                    alpha_den as nat,
                ) == Some(e),
            },
    {
        let n = row_ids.len();
        if n == 0 {
            return Err(ConfigError::EmptyDataset);
        }
        if dimension == 0 {
            return Err(ConfigError::ZeroDimension);
        }
        assert((n as int) * (dimension as int) <= 4294967295 * 2147483647) by (nonlinear_arith)
            requires
                n <= 4294967295,
                dimension <= 2147483647,
        ;
        if (n as u64) * (dimension as u64) != vectors.len() as u64 {
            return Err(ConfigError::LengthMismatch);
        }
        if r >= n {
            return Err(ConfigError::DegreeTooLarge);
        }
        if alpha_den == 0 || alpha_num < alpha_den {
            return Err(ConfigError::AlphaBelowOne);
        }
        let mut rng = seeded_rng(seed);
        let ghost vectors_view = vectors@;
        let ghost rows_view = row_ids@;
        let mut graph = match VamanaBuilder::try_init(vectors, dimension, row_ids, r, &mut rng) {
            Ok(g) => g,
            Err(e) => {
                return Err(e);
            },
        };
        let ghost g0 = graph;
        let medoid = graph.find_medoid();
        graph.index_pass(medoid, 1, 1, r, l, &mut rng);
        let ghost g1 = graph;
        graph.index_pass(medoid, alpha_num, alpha_den, r, l, &mut rng);
        assert(is_build_trace(&graph, vectors_view, dimension, rows_view, r as nat, alpha_num, alpha_den, l as nat, g0, g1, medoid));
        Ok(graph)
    }
}

/// A medoid of a dataset whose vectors are all equal is vertex 0.
pub proof fn lemma_identical_vectors_medoid(g: &VamanaBuilder, m: int)
    requires
        g.wf(),
        forall|i: int, k: int| 0 <= i < g.n() && 0 <= k < g.dim()
            ==> #[trigger] g.vectors@[i * g.dim() + k] == g.vectors@[k],
        g.is_medoid(m),
    ensures
        m == 0,
{
    if m > 0 {
        assert forall|k: nat| k <= g.dim() implies #[trigger] g.centroid_score_upto(m, k) == g.centroid_score_upto(0, k) by {
            lemma_score_eq(g, m, k);
        }
        assert(g.centroid_score(0) == g.centroid_score(m));
    }
}

proof fn lemma_score_eq(g: &VamanaBuilder, m: int, k: nat)
    requires
        g.wf(),
        forall|i: int, k: int| 0 <= i < g.n() && 0 <= k < g.dim()
            ==> #[trigger] g.vectors@[i * g.dim() + k] == g.vectors@[k],
        0 <= m < g.n(),
        k <= g.dim(),
    ensures
        g.centroid_score_upto(m, k) == g.centroid_score_upto(0, k),
    decreases k,
{
    if k > 0 {
        lemma_score_eq(g, m, (k - 1) as nat);
        assert(g.vectors@[m * g.dim() + (k - 1)] == g.vectors@[k - 1]);
        assert(g.vectors@[0 * g.dim() + (k - 1)] == g.vectors@[k - 1]);
    }
}

} // verus!
