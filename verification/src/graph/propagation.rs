//! What propagation along paths of two edges is, and what it keeps.

use crate::graph::Edge;
use crate::graph::Edges;
use crate::graph::half_inserted;
use crate::graph::inserted;
use crate::idx::from_index;
use crate::idx::Idx;
use vstd::prelude::*;

verus! {

/// `x` allows nothing that `y` forbids: narrowing `x` by `y` changes nothing.
pub open spec fn refines<E: Edge>(x: E, y: E) -> bool {
    x.merge_spec(y) == x
}

/// Turning `x` round twice gives `x` back.
pub open spec fn involutive<E: Edge>(x: E) -> bool {
    x.converse_spec() matches Some(y) && y.converse_spec() == Some(x)
}

/// The two graphs agree on the pair `p`.
pub open spec fn same_at<E: Edge>(g: Edges<E>, h: Edges<E>, p: (usize, usize)) -> bool {
    g.contains_key(p) == h.contains_key(p) && (g.contains_key(p) ==> g[p] == h[p])
}

/// `h` keeps every edge of `g`, each with a relation that refines the one it
/// had in `g`.
pub open spec fn narrows<E: Edge>(g: Edges<E>, h: Edges<E>) -> bool {
    forall|p: (usize, usize)| #[trigger]
        g.contains_key(p) ==> h.contains_key(p) && refines(h[p], g[p])
}

/// Every edge has its converse on the reversed pair.
pub open spec fn symmetric<E: Edge>(g: Edges<E>) -> bool {
    forall|a: usize, b: usize| #[trigger]
        g.contains_key((a, b)) ==> g.contains_key((b, a)) && g[(a, b)].converse_spec() == Some(
            g[(b, a)],
        )
}

/// No edge leads from a node to itself.
pub open spec fn loop_free<E: Edge>(g: Edges<E>) -> bool {
    forall|a: usize| !#[trigger] g.contains_key((a, a))
}

/// Every edge joins two of the first `n` nodes.
pub open spec fn within<E: Edge>(g: Edges<E>, n: nat) -> bool {
    forall|a: usize, b: usize| #[trigger] g.contains_key((a, b)) ==> a < n && b < n
}

/// The callback may answer `r` when it is asked what holds from `a` to `c`,
/// given `x` from `a` to `b` and `y` from `b` to `c`.
pub open spec fn derives<I: Idx, E: Edge, F: Fn(I, E, I, E, I) -> Option<E>>(
    f: F,
    a: usize,
    x: E,
    b: usize,
    y: E,
    c: usize,
    r: Option<E>,
) -> bool {
    f.ensures((from_index::<I>(a), x, from_index::<I>(b), y, from_index::<I>(c)), r)
}

/// The callback can be asked about every triple.
pub open spec fn total<I: Idx, E: Edge, F: Fn(I, E, I, E, I) -> Option<E>>(f: F) -> bool {
    forall|a: I, x: E, b: I, y: E, c: I| #[trigger] f.requires((a, x, b, y, c))
}

/// What the callback answers, as a function of what it is asked: the nodes
/// by position.
pub type Rule<E> = spec_fn(usize, E, usize, E, usize) -> Option<E>;

/// The callback never answers otherwise than `rule` says.
pub open spec fn implements<I: Idx, E: Edge, F: Fn(I, E, I, E, I) -> Option<E>>(
    f: F,
    rule: Rule<E>,
) -> bool {
    forall|a: usize, x: E, b: usize, y: E, c: usize, r: Option<E>| #[trigger]
        derives::<I, E, F>(f, a, x, b, y, c, r) ==> r == rule(a, x, b, y, c)
}

/// The path from `a` over `b` to `c` has nothing left to say about the edge
/// from `a` to `c`: what the rule derives from the two edges is already
/// implied by an edge that is there.
pub open spec fn closed<E: Edge>(g: Edges<E>, rule: Rule<E>, a: usize, b: usize, c: usize) -> bool {
    g.contains_key((a, b)) && g.contains_key((b, c)) ==> (rule(a, g[(a, b)], b, g[(b, c)], c) matches Some(
        z,
    ) ==> g.contains_key((a, c)) && refines(g[(a, c)], z))
}

/// The graph is a fixpoint of propagation: every path of two edges is closed.
pub open spec fn saturated<E: Edge>(g: Edges<E>, rule: Rule<E>) -> bool {
    forall|a: usize, b: usize, c: usize| #[trigger] closed(g, rule, a, b, c)
}

/// The graph after the candidate `z` has been laid on the edge from `a` to
/// `c`. Where the edge is there and `z` does not narrow it, nothing changes.
/// Otherwise the edge holds the narrowed relation, or `z` where there was no
/// edge, and the converse of its new relation is laid on the reversed pair.
pub open spec fn propagated<E: Edge>(g: Edges<E>, a: usize, c: usize, z: E) -> Edges<E> {
    if g.contains_key((a, c)) && refines(g[(a, c)], z) {
        g
    } else {
        let v = if g.contains_key((a, c)) {
            g[(a, c)].merge_spec(z)
        } else {
            z
        };
        match v.converse_spec() {
            Some(w) => half_inserted(g.insert((a, c), v), c, a, w),
            None => g.insert((a, c), v),
        }
    }
}

/// `h` comes from `g` by one propagation: along some path of two edges of `g`
/// the callback derives a candidate, which is laid on the edge that closes
/// the path.
pub open spec fn step<I: Idx, E: Edge, F: Fn(I, E, I, E, I) -> Option<E>>(
    g: Edges<E>,
    h: Edges<E>,
    f: F,
) -> bool {
    exists|a: usize, b: usize, c: usize, z: E|
        g.contains_key((a, b)) && g.contains_key((b, c)) && #[trigger] derives::<I, E, F>(
            f,
            a,
            g[(a, b)],
            b,
            g[(b, c)],
            c,
            Some(z),
        ) && h == propagated(g, a, c, z)
}

/// `h` comes from `g` by `n` propagations, one after the other.
pub open spec fn reaches<I: Idx, E: Edge, F: Fn(I, E, I, E, I) -> Option<E>>(
    g: Edges<E>,
    h: Edges<E>,
    f: F,
    n: nat,
) -> bool
    decreases n,
{
    if n == 0 {
        h == g
    } else {
        exists|m: Edges<E>|
            reaches::<I, E, F>(g, m, f, (n - 1) as nat) && #[trigger] step::<I, E, F>(m, h, f)
    }
}

/// `h` comes from `g` by propagations alone.
pub open spec fn propagates<I: Idx, E: Edge, F: Fn(I, E, I, E, I) -> Option<E>>(
    g: Edges<E>,
    h: Edges<E>,
    f: F,
) -> bool {
    exists|n: nat| #[trigger] reaches::<I, E, F>(g, h, f, n)
}

/// `h` comes from `g` by propagations alone, and by no more than `bound` of
/// them.
pub open spec fn propagates_within<I: Idx, E: Edge, F: Fn(I, E, I, E, I) -> Option<E>>(
    g: Edges<E>,
    h: Edges<E>,
    f: F,
    bound: nat,
) -> bool {
    exists|n: nat| n <= bound && #[trigger] reaches::<I, E, F>(g, h, f, n)
}

/// What the rule derives for this path can be turned round and back, and it
/// derives nothing from a node to itself.
pub open spec fn sound_at<E: Edge>(rule: Rule<E>, a: usize, x: E, b: usize, y: E, c: usize) -> bool {
    rule(a, x, b, y, c) matches Some(z) ==> involutive(z) && a != c
}

/// The rule turns round with this path: for the path walked backwards it
/// derives the converse of what it derives for the path.
pub open spec fn turns_at<E: Edge>(rule: Rule<E>, a: usize, x: E, b: usize, y: E, c: usize) -> bool {
    involutive(x) && involutive(y) ==> rule(
        c,
        y.converse_spec().unwrap(),
        b,
        x.converse_spec().unwrap(),
        a,
    ) == match rule(a, x, b, y, c) {
        Some(z) => z.converse_spec(),
        None => None,
    }
}

/// The rule turns round with the edges, derives only relations that can be
/// turned round and back, and derives nothing from a node to itself.
pub open spec fn well_behaved<E: Edge>(rule: Rule<E>) -> bool {
    &&& forall|a: usize, x: E, b: usize, y: E, c: usize| #[trigger] sound_at(rule, a, x, b, y, c)
    &&& forall|a: usize, x: E, b: usize, y: E, c: usize| #[trigger] turns_at(rule, a, x, b, y, c)
}

/// How far the pair `(a, c)` is from the bottom: the rank of its relation, or
/// one more than any rank where there is no edge.
pub open spec fn cell_rank<E: Edge>(g: Edges<E>, a: int, c: int) -> nat {
    if g.contains_key((a as usize, c as usize)) {
        g[(a as usize, c as usize)].rank()
    } else {
        E::height() + 1
    }
}

/// The ranks of the pairs from `a` to the first `j` nodes, added up.
pub open spec fn row_rank<E: Edge>(g: Edges<E>, a: int, j: nat) -> nat
    decreases j,
{
    if j == 0 {
        0
    } else {
        row_rank(g, a, (j - 1) as nat) + cell_rank(g, a, j - 1)
    }
}

/// The ranks of the pairs from the first `i` nodes to the first `n` nodes,
/// added up.
pub open spec fn rows_rank<E: Edge>(g: Edges<E>, i: nat, n: nat) -> nat
    decreases i,
{
    if i == 0 {
        0
    } else {
        rows_rank(g, (i - 1) as nat, n) + row_rank(g, i - 1, n)
    }
}

/// The number of narrowings that a graph of `n` nodes can still take, at
/// most.
pub open spec fn measure<E: Edge>(g: Edges<E>, n: nat) -> nat {
    rows_rank(g, n, n)
}

pub proof fn lemma_refines_transitive<E: Edge>(x: E, y: E, z: E)
    requires
        refines(x, y),
        refines(y, z),
    ensures
        refines(x, z),
{
    E::lemma_merge(x, y, z);
}

pub proof fn lemma_refines_merge<E: Edge>(x: E, y: E)
    ensures
        refines(x.merge_spec(y), x),
        refines(x.merge_spec(y), y),
        refines(x, x),
{
    E::lemma_merge(x, y, x);
    E::lemma_merge(x, x, y);
    E::lemma_merge(x, y, y);
    E::lemma_merge(y, y, y);
}

pub proof fn lemma_refines_converse<E: Edge>(x: E, y: E)
    requires
        refines(x, y),
        x.converse_spec() is Some,
        y.converse_spec() is Some,
    ensures
        refines(x.converse_spec().unwrap(), y.converse_spec().unwrap()),
{
    E::lemma_converse_merge(x, y);
}

pub proof fn lemma_refines_rank<E: Edge>(x: E, y: E)
    requires
        refines(x, y),
    ensures
        x == y || x.rank() < y.rank(),
        x.rank() <= y.rank(),
        x.rank() <= E::height(),
{
    E::lemma_merge(x, y, x);
    E::lemma_rank(y, x);
    E::lemma_rank(x, y);
}

pub proof fn lemma_narrows_reflexive<E: Edge>(g: Edges<E>)
    ensures
        narrows(g, g),
{
    assert forall|p: (usize, usize)| #[trigger] g.contains_key(p) implies refines(g[p], g[p]) by {
        lemma_refines_merge(g[p], g[p]);
    }
}

pub proof fn lemma_narrows_transitive<E: Edge>(g: Edges<E>, h: Edges<E>, k: Edges<E>)
    requires
        narrows(g, h),
        narrows(h, k),
    ensures
        narrows(g, k),
{
    assert forall|p: (usize, usize)| #[trigger] g.contains_key(p) implies k.contains_key(p)
        && refines(k[p], g[p]) by {
        assert(h.contains_key(p));
        lemma_refines_transitive(k[p], h[p], g[p]);
    }
}

proof fn lemma_row_rank<E: Edge>(g: Edges<E>, h: Edges<E>, a: int, j: nat)
    requires
        forall|c: int| 0 <= c < j ==> cell_rank(h, a, c) <= cell_rank(g, a, c),
    ensures
        row_rank(h, a, j) <= row_rank(g, a, j),
        forall|c: int|
            0 <= c < j && cell_rank(h, a, c) < cell_rank(g, a, c) ==> row_rank(h, a, j) < row_rank(
                g,
                a,
                j,
            ),
    decreases j,
{
    if j > 0 {
        lemma_row_rank(g, h, a, (j - 1) as nat);
    }
}

proof fn lemma_rows_rank<E: Edge>(g: Edges<E>, h: Edges<E>, i: nat, n: nat)
    requires
        forall|a: int, c: int| 0 <= a < i && 0 <= c < n ==> cell_rank(h, a, c) <= cell_rank(g, a, c),
    ensures
        rows_rank(h, i, n) <= rows_rank(g, i, n),
        forall|a: int, c: int|
            0 <= a < i && 0 <= c < n && cell_rank(h, a, c) < cell_rank(g, a, c) ==> rows_rank(
                h,
                i,
                n,
            ) < rows_rank(g, i, n),
    decreases i,
{
    if i > 0 {
        lemma_rows_rank(g, h, (i - 1) as nat, n);
        lemma_row_rank(g, h, i - 1, n);
    }
}

/// A graph that narrows another has at most its measure, and less where some
/// pair has come nearer to the bottom.
pub proof fn lemma_measure<E: Edge>(g: Edges<E>, h: Edges<E>, n: nat)
    requires
        narrows(g, h),
    ensures
        measure(h, n) <= measure(g, n),
        forall|a: int, c: int|
            0 <= a < n && 0 <= c < n && cell_rank(h, a, c) < cell_rank(g, a, c) ==> measure(h, n)
                < measure(g, n),
{
    assert forall|a: int, c: int| cell_rank(h, a, c) <= cell_rank(g, a, c) by {
        let p = (a as usize, c as usize);
        if g.contains_key(p) {
            assert(h.contains_key(p));
            lemma_refines_rank(h[p], g[p]);
        } else if h.contains_key(p) {
            lemma_refines_merge(h[p], h[p]);
            lemma_refines_rank(h[p], h[p]);
        }
    }
    lemma_rows_rank(g, h, n, n);
}

proof fn lemma_row_bound<E: Edge>(g: Edges<E>, a: int, j: nat)
    ensures
        row_rank(g, a, j) <= j * (E::height() + 1),
    decreases j,
{
    if j > 0 {
        lemma_row_bound(g, a, (j - 1) as nat);
        let p = (a as usize, (j - 1) as usize);
        if g.contains_key(p) {
            E::lemma_rank(g[p], g[p]);
        }
        assert(j * (E::height() + 1) == (j - 1) * (E::height() + 1) + (E::height() + 1))
            by (nonlinear_arith);
    }
}

proof fn lemma_rows_bound<E: Edge>(g: Edges<E>, i: nat, n: nat)
    ensures
        rows_rank(g, i, n) <= i * (n * (E::height() + 1)),
    decreases i,
{
    if i > 0 {
        lemma_rows_bound(g, (i - 1) as nat, n);
        lemma_row_bound(g, i - 1, n);
        let w = n * (E::height() + 1);
        assert(i * w == (i - 1) * w + w) by (nonlinear_arith);
    }
}

/// The measure of a graph of `n` nodes is at most the number of its pairs
/// times one more than the height of the algebra.
pub proof fn lemma_measure_bound<E: Edge>(g: Edges<E>, n: nat)
    ensures
        measure(g, n) <= n * (n * (E::height() + 1)),
{
    lemma_rows_bound(g, n, n);
}

/// A propagation leaves every pair but the two that it is about as it was.
pub proof fn lemma_propagated_frame<E: Edge>(g: Edges<E>, a: usize, c: usize, z: E)
    ensures
        forall|p: (usize, usize)|
            p != (a, c) && p != (c, a) ==> #[trigger] same_at(g, propagated(g, a, c, z), p),
        propagated(g, a, c, z).contains_key((a, c)),
        propagated(g, a, c, z) == g <==> g.contains_key((a, c)) && refines(g[(a, c)], z),
        refines(propagated(g, a, c, z)[(a, c)], z),
{
    let h = propagated(g, a, c, z);
    if g.contains_key((a, c)) && refines(g[(a, c)], z) {
    } else {
        let v = if g.contains_key((a, c)) {
            g[(a, c)].merge_spec(z)
        } else {
            z
        };
        if g.contains_key((a, c)) {
            lemma_refines_merge(g[(a, c)], z);
        } else {
            lemma_refines_merge(z, z);
        }
        assert(refines(v, z));
        assert(h.contains_key((a, c)));
        if a == c && v.converse_spec() is Some {
            let w = v.converse_spec().unwrap();
            assert(h[(a, c)] == v.merge_spec(w));
            lemma_refines_merge(v, w);
            lemma_refines_transitive(v.merge_spec(w), v, z);
        } else {
            assert(h[(a, c)] == v);
        }
        if g.contains_key((a, c)) {
            // the edge was there and is changed: the two graphs differ
            lemma_refines_merge(v, v);
            lemma_refines_rank(h[(a, c)], v);
            E::lemma_rank(g[(a, c)], z);
            assert(h[(a, c)].rank() < g[(a, c)].rank());
        }
    }
}

/// A propagation narrows the graph.
pub proof fn lemma_propagated_narrows<E: Edge>(g: Edges<E>, a: usize, c: usize, z: E)
    ensures
        narrows(g, propagated(g, a, c, z)),
{
    let h = propagated(g, a, c, z);
    lemma_propagated_frame(g, a, c, z);
    assert forall|p: (usize, usize)| #[trigger] g.contains_key(p) implies h.contains_key(p)
        && refines(h[p], g[p]) by {
        if g.contains_key((a, c)) && refines(g[(a, c)], z) {
            lemma_refines_merge(g[p], g[p]);
        } else {
            let v = if g.contains_key((a, c)) {
                g[(a, c)].merge_spec(z)
            } else {
                z
            };
            if p == (a, c) {
                lemma_refines_merge(g[p], z);
                if a == c && v.converse_spec() is Some {
                    let w = v.converse_spec().unwrap();
                    lemma_refines_merge(v, w);
                    lemma_refines_transitive(v.merge_spec(w), v, g[p]);
                }
            } else if p == (c, a) {
                if v.converse_spec() is Some {
                    lemma_refines_merge(g[p], v.converse_spec().unwrap());
                } else {
                    lemma_refines_merge(g[p], g[p]);
                }
            } else {
                assert(same_at(g, h, p));
                lemma_refines_merge(g[p], g[p]);
            }
        }
    }
}

/// A propagation that changes the graph brings the pair that it is about
/// nearer to the bottom.
pub proof fn lemma_propagated_rank<E: Edge>(g: Edges<E>, a: usize, c: usize, z: E)
    requires
        propagated(g, a, c, z) != g,
    ensures
        cell_rank(propagated(g, a, c, z), a as int, c as int) < cell_rank(g, a as int, c as int),
{
    let h = propagated(g, a, c, z);
    lemma_propagated_frame(g, a, c, z);
    let v = if g.contains_key((a, c)) {
        g[(a, c)].merge_spec(z)
    } else {
        z
    };
    if a == c && v.converse_spec() is Some {
        let w = v.converse_spec().unwrap();
        lemma_refines_merge(v, w);
        lemma_refines_rank(v.merge_spec(w), v);
    } else {
        lemma_refines_merge(v, v);
        lemma_refines_rank(v, v);
    }
    if g.contains_key((a, c)) {
        E::lemma_rank(g[(a, c)], z);
    }
}

/// A propagation between two of the first `n` nodes stays within them.
pub proof fn lemma_propagated_within<E: Edge>(g: Edges<E>, a: usize, c: usize, z: E, n: nat)
    requires
        within(g, n),
        a < n,
        c < n,
    ensures
        within(propagated(g, a, c, z), n),
{
    let h = propagated(g, a, c, z);
    lemma_propagated_frame(g, a, c, z);
    assert forall|x: usize, y: usize| #[trigger] h.contains_key((x, y)) implies x < n && y < n by {
        if (x, y) != (a, c) && (x, y) != (c, a) {
            assert(same_at(g, h, (x, y)));
        }
    }
}

/// A propagation between two different nodes makes no loop.
pub proof fn lemma_propagated_loop_free<E: Edge>(g: Edges<E>, a: usize, c: usize, z: E)
    requires
        loop_free(g),
        a != c,
    ensures
        loop_free(propagated(g, a, c, z)),
{
    let h = propagated(g, a, c, z);
    lemma_propagated_frame(g, a, c, z);
    assert forall|x: usize| !#[trigger] h.contains_key((x, x)) by {
        assert(same_at(g, h, (x, x)));
    }
}

/// A propagation of a relation that can be turned round and back, between
/// two different nodes, keeps the graph symmetric.
pub proof fn lemma_propagated_symmetric<E: Edge>(g: Edges<E>, a: usize, c: usize, z: E)
    requires
        symmetric(g),
        involutive(z),
        a != c,
    ensures
        symmetric(propagated(g, a, c, z)),
{
    let h = propagated(g, a, c, z);
    lemma_propagated_frame(g, a, c, z);
    if h != g {
        let zz = z.converse_spec().unwrap();
        if g.contains_key((a, c)) {
            let x = g[(a, c)];
            assert(g.contains_key((c, a)));
            let y = g[(c, a)];
            assert(y.converse_spec() == Some(x));
            let v = x.merge_spec(z);
            E::lemma_converse_merge(x, z);
            let w = y.merge_spec(zz);
            assert(v.converse_spec() == Some(w));
            E::lemma_converse_merge(y, zz);
            assert(w.converse_spec() == Some(v));
            // the reversed pair ends up with the converse of the new relation
            E::lemma_merge(y, y, zz);
            E::lemma_merge(y, y, y);
            assert(y.merge_spec(w) == w);
            assert(h[(a, c)] == v);
            assert(h[(c, a)] == w);
        } else {
            assert(!g.contains_key((c, a)));
            assert(h[(a, c)] == z);
            assert(h[(c, a)] == zz);
        }
        assert forall|p: usize, q: usize| #[trigger] h.contains_key((p, q)) implies h.contains_key(
            (q, p),
        ) && h[(p, q)].converse_spec() == Some(h[(q, p)]) by {
            if (p, q) != (a, c) && (p, q) != (c, a) {
                assert(same_at(g, h, (p, q)));
                assert(same_at(g, h, (q, p)));
                assert(g.contains_key((p, q)));
            }
        }
    }
}

/// A closed path stays closed while its two edges stay as they are and the
/// graph is only narrowed.
pub proof fn lemma_closed_stable<E: Edge>(
    g: Edges<E>,
    h: Edges<E>,
    rule: Rule<E>,
    a: usize,
    b: usize,
    c: usize,
)
    requires
        closed(g, rule, a, b, c),
        narrows(g, h),
        same_at(g, h, (a, b)),
        same_at(g, h, (b, c)),
    ensures
        closed(h, rule, a, b, c),
{
    if h.contains_key((a, b)) && h.contains_key((b, c)) {
        if rule(a, h[(a, b)], b, h[(b, c)], c) is Some {
            let z = rule(a, h[(a, b)], b, h[(b, c)], c).unwrap();
            assert(g.contains_key((a, c)));
            lemma_refines_transitive(h[(a, c)], g[(a, c)], z);
        }
    }
}

/// One more propagation after `n` makes `n + 1`.
pub proof fn lemma_reaches_step<I: Idx, E: Edge, F: Fn(I, E, I, E, I) -> Option<E>>(
    g: Edges<E>,
    m: Edges<E>,
    f: F,
    n: nat,
    a: usize,
    b: usize,
    c: usize,
    z: E,
)
    requires
        reaches::<I, E, F>(g, m, f, n),
        m.contains_key((a, b)),
        m.contains_key((b, c)),
        derives::<I, E, F>(f, a, m[(a, b)], b, m[(b, c)], c, Some(z)),
    ensures
        reaches::<I, E, F>(g, propagated(m, a, c, z), f, n + 1),
{
    assert(step::<I, E, F>(m, propagated(m, a, c, z), f));
}

/// Propagations can be put one after the other.
pub proof fn lemma_reaches_transitive<I: Idx, E: Edge, F: Fn(I, E, I, E, I) -> Option<E>>(
    g: Edges<E>,
    m: Edges<E>,
    h: Edges<E>,
    f: F,
    i: nat,
    j: nat,
)
    requires
        reaches::<I, E, F>(g, m, f, i),
        reaches::<I, E, F>(m, h, f, j),
    ensures
        reaches::<I, E, F>(g, h, f, i + j),
    decreases j,
{
    if j > 0 {
        let k = choose|k: Edges<E>|
            reaches::<I, E, F>(m, k, f, (j - 1) as nat) && #[trigger] step::<I, E, F>(k, h, f);
        lemma_reaches_transitive::<I, E, F>(g, m, k, f, i, (j - 1) as nat);
        assert(reaches::<I, E, F>(g, k, f, (i + j - 1) as nat) && step::<I, E, F>(k, h, f));
    }
}

proof fn lemma_reaches_narrows<I: Idx, E: Edge, F: Fn(I, E, I, E, I) -> Option<E>>(
    g: Edges<E>,
    h: Edges<E>,
    f: F,
    n: nat,
)
    requires
        reaches::<I, E, F>(g, h, f, n),
    ensures
        narrows(g, h),
    decreases n,
{
    if n == 0 {
        lemma_narrows_reflexive(g);
    } else {
        let m = choose|m: Edges<E>|
            reaches::<I, E, F>(g, m, f, (n - 1) as nat) && #[trigger] step::<I, E, F>(m, h, f);
        lemma_reaches_narrows::<I, E, F>(g, m, f, (n - 1) as nat);
        let (a, b, c, z) = choose|a: usize, b: usize, c: usize, z: E|
            m.contains_key((a, b)) && m.contains_key((b, c)) && #[trigger] derives::<I, E, F>(
                f,
                a,
                m[(a, b)],
                b,
                m[(b, c)],
                c,
                Some(z),
            ) && h == propagated(m, a, c, z);
        lemma_propagated_narrows(m, a, c, z);
        lemma_narrows_transitive(g, m, h);
    }
}

proof fn lemma_reaches_saturated<I: Idx, E: Edge, F: Fn(I, E, I, E, I) -> Option<E>>(
    g: Edges<E>,
    h: Edges<E>,
    f: F,
    rule: Rule<E>,
    n: nat,
)
    requires
        reaches::<I, E, F>(g, h, f, n),
        implements::<I, E, F>(f, rule),
        saturated(g, rule),
    ensures
        h == g,
    decreases n,
{
    if n > 0 {
        let m = choose|m: Edges<E>|
            reaches::<I, E, F>(g, m, f, (n - 1) as nat) && #[trigger] step::<I, E, F>(m, h, f);
        lemma_reaches_saturated::<I, E, F>(g, m, f, rule, (n - 1) as nat);
        let (a, b, c, z) = choose|a: usize, b: usize, c: usize, z: E|
            m.contains_key((a, b)) && m.contains_key((b, c)) && #[trigger] derives::<I, E, F>(
                f,
                a,
                m[(a, b)],
                b,
                m[(b, c)],
                c,
                Some(z),
            ) && h == propagated(m, a, c, z);
        assert(closed(g, rule, a, b, c));
    }
}

/// Propagation only narrows: every edge that was there is still there, with
/// a relation that refines the one it had, so that no pair is ever widened.
pub proof fn lemma_propagates_narrows<I: Idx, E: Edge, F: Fn(I, E, I, E, I) -> Option<E>>(
    g: Edges<E>,
    h: Edges<E>,
    f: F,
)
    requires
        propagates::<I, E, F>(g, h, f),
    ensures
        narrows(g, h),
{
    let n = choose|n: nat| #[trigger] reaches::<I, E, F>(g, h, f, n);
    lemma_reaches_narrows::<I, E, F>(g, h, f, n);
}

/// Propagation changes nothing in a graph that is saturated already.
pub proof fn lemma_propagates_saturated<I: Idx, E: Edge, F: Fn(I, E, I, E, I) -> Option<E>>(
    g: Edges<E>,
    h: Edges<E>,
    f: F,
    rule: Rule<E>,
)
    requires
        propagates::<I, E, F>(g, h, f),
        implements::<I, E, F>(f, rule),
        saturated(g, rule),
    ensures
        h == g,
{
    let n = choose|n: nat| #[trigger] reaches::<I, E, F>(g, h, f, n);
    lemma_reaches_saturated::<I, E, F>(g, h, f, rule, n);
}

/// Laying a relation on a pair only narrows the graph: every edge that was
/// there is still there, with a relation that refines the one it had.
pub proof fn lemma_inserted_narrows<E: Edge>(g: Edges<E>, a: usize, b: usize, e: E)
    ensures
        narrows(g, inserted(g, a, b, e)),
{
    let h = half_inserted(g, a, b, e);
    assert forall|p: (usize, usize)| #[trigger] g.contains_key(p) implies h.contains_key(p)
        && refines(h[p], g[p]) by {
        lemma_refines_merge(g[p], e);
    }
    if e.converse_spec() is Some {
        let back = e.converse_spec().unwrap();
        let k = half_inserted(h, b, a, back);
        assert forall|p: (usize, usize)| #[trigger] h.contains_key(p) implies k.contains_key(p)
            && refines(k[p], h[p]) by {
            lemma_refines_merge(h[p], back);
        }
        lemma_narrows_transitive(g, h, k);
    }
}

/// Laying a relation that can be turned round and back on a pair of two
/// different nodes narrows the graph and keeps it symmetric and without
/// loops.
pub proof fn lemma_inserted<E: Edge>(g: Edges<E>, a: usize, b: usize, e: E)
    requires
        involutive(e),
        a != b,
    ensures
        narrows(g, inserted(g, a, b, e)),
        symmetric(g) ==> symmetric(inserted(g, a, b, e)),
        loop_free(g) ==> loop_free(inserted(g, a, b, e)),
        forall|n: nat| within(g, n) && a < n && b < n ==> #[trigger] within(inserted(g, a, b, e), n),
        forall|p: (usize, usize)|
            p != (a, b) && p != (b, a) ==> #[trigger] same_at(g, inserted(g, a, b, e), p),
        inserted(g, a, b, e).contains_key((a, b)),
        inserted(g, a, b, e).contains_key((b, a)),
{
    let h = inserted(g, a, b, e);
    let ee = e.converse_spec().unwrap();
    assert forall|p: (usize, usize)| #[trigger] g.contains_key(p) implies h.contains_key(p)
        && refines(h[p], g[p]) by {
        if p == (a, b) {
            lemma_refines_merge(g[p], e);
        } else if p == (b, a) {
            lemma_refines_merge(g[p], ee);
        } else {
            lemma_refines_merge(g[p], g[p]);
        }
    }
    if symmetric(g) {
        if g.contains_key((a, b)) {
            let x = g[(a, b)];
            assert(g.contains_key((b, a)));
            let y = g[(b, a)];
            assert(y.converse_spec() == Some(x));
            E::lemma_converse_merge(x, e);
            E::lemma_converse_merge(y, ee);
            assert(h[(a, b)] == x.merge_spec(e));
            assert(h[(b, a)] == y.merge_spec(ee));
        } else {
            assert(!g.contains_key((b, a)));
            assert(h[(a, b)] == e);
            assert(h[(b, a)] == ee);
        }
        assert forall|p: usize, q: usize| #[trigger] h.contains_key((p, q)) implies h.contains_key(
            (q, p),
        ) && h[(p, q)].converse_spec() == Some(h[(q, p)]) by {
            if (p, q) != (a, b) && (p, q) != (b, a) {
                assert(g.contains_key((p, q)));
            }
        }
    }
    if loop_free(g) {
        assert forall|x: usize| !#[trigger] h.contains_key((x, x)) by {
            assert(!g.contains_key((x, x)));
        }
    }
    assert forall|n: nat| within(g, n) && a < n && b < n implies #[trigger] within(h, n) by {
        assert forall|x: usize, y: usize| #[trigger] h.contains_key((x, y)) implies x < n && y
            < n by {
            if (x, y) != (a, b) && (x, y) != (b, a) {
                assert(g.contains_key((x, y)));
            }
        }
    }
}

} // verus!
