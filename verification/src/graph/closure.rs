//! Path consistency: the worklist algorithm that saturates a graph.

use crate::graph::Edge;
use crate::graph::Edges;
use crate::graph::Graph;
use crate::graph::propagation::closed;
use crate::graph::propagation::derives;
use crate::graph::propagation::implements;
use crate::graph::propagation::involutive;
use crate::graph::propagation::lemma_closed_stable;
use crate::graph::propagation::lemma_measure;
use crate::graph::propagation::lemma_narrows_reflexive;
use crate::graph::propagation::lemma_narrows_transitive;
use crate::graph::propagation::lemma_propagated_frame;
use crate::graph::propagation::lemma_propagated_loop_free;
use crate::graph::propagation::lemma_propagated_narrows;
use crate::graph::propagation::lemma_propagated_rank;
use crate::graph::propagation::lemma_propagated_symmetric;
use crate::graph::propagation::lemma_propagated_within;
use crate::graph::propagation::lemma_propagates_narrows;
use crate::graph::propagation::lemma_propagates_saturated;
use crate::graph::propagation::lemma_reaches_step;
use crate::graph::propagation::lemma_reaches_transitive;
use crate::graph::propagation::lemma_refines_converse;
use crate::graph::propagation::loop_free;
use crate::graph::propagation::measure;
use crate::graph::propagation::narrows;
use crate::graph::propagation::propagated;
use crate::graph::propagation::propagates;
use crate::graph::propagation::propagates_within;
use crate::graph::propagation::reaches;
use crate::graph::propagation::refines;
use crate::graph::propagation::Rule;
use crate::graph::propagation::same_at;
use crate::graph::propagation::saturated;
use crate::graph::propagation::sound_at;
use crate::graph::propagation::symmetric;
use crate::graph::propagation::total;
use crate::graph::propagation::turns_at;
use crate::graph::propagation::well_behaved;
use crate::graph::propagation::within;
use crate::idx::Idx;
use crate::int_map;
use vstd::prelude::*;

verus! {

/// The pair `p` waits in the worklist, in one order or the other.
pub open spec fn dirty(todo: Seq<(usize, usize)>, p: (usize, usize)) -> bool {
    todo.contains(p) || todo.contains((p.1, p.0))
}

/// Every pair of the worklist joins two of the first `n` nodes.
pub open spec fn in_range(todo: Seq<(usize, usize)>, n: nat) -> bool {
    forall|i: int| 0 <= i < todo.len() ==> (#[trigger] todo[i]).0 < n && todo[i].1 < n
}

/// What a worklist holds, it still holds after pairs have been added at its
/// end.
proof fn lemma_contains_extends(before: Seq<(usize, usize)>, after: Seq<(usize, usize)>)
    requires
        before.is_prefix_of(after),
    ensures
        forall|p: (usize, usize)| before.contains(p) ==> #[trigger] after.contains(p),
        forall|p: (usize, usize)| dirty(before, p) ==> #[trigger] dirty(after, p),
{
    assert forall|p: (usize, usize)| before.contains(p) implies #[trigger] after.contains(p) by {
        let i = choose|i: int| 0 <= i < before.len() && before[i] == p;
        assert(after[i] == p);
    }
}

/// The rule is well behaved and the graph is symmetric and without loops:
/// what propagation needs in order to end in a saturated graph.
pub open spec fn tame<E: Edge>(g: Edges<E>, rule: Rule<E>) -> bool {
    well_behaved(rule) && symmetric(g) && loop_free(g)
}

/// The pair `p` is one that a pass from `a` over `b` may change: it joins
/// `a` and a neighbour of `b`.
spec fn touched<E: Edge>(g: Edges<E>, a: usize, b: usize, p: (usize, usize)) -> bool {
    (p.0 == a && g.contains_key((b, p.1))) || (p.1 == a && g.contains_key((b, p.0)))
}

/// The path from `a` over `b` to `c` is closed, and so is the same path
/// walked from `c` to `a`.
spec fn examined<E: Edge>(g: Edges<E>, rule: Rule<E>, a: usize, b: usize, c: usize) -> bool {
    closed(g, rule, a, b, c) && closed(g, rule, c, b, a)
}

/// The pair of `a` and `c`, lower node first.
spec fn ordered(a: usize, c: usize) -> (usize, usize) {
    if a < c {
        (a, c)
    } else {
        (c, a)
    }
}

/// The graph after the callback's answer `r` has been laid on `(a, c)`.
spec fn next_graph<E: Edge>(g: Edges<E>, a: usize, c: usize, r: Option<E>) -> Edges<E> {
    match r {
        Some(z) => propagated(g, a, c, z),
        None => g,
    }
}

/// The worklist after the callback's answer `r` has been laid on `(a, c)`:
/// where the graph has changed, the pair is in it, once.
spec fn next_todo<E: Edge>(
    g: Edges<E>,
    todo: Seq<(usize, usize)>,
    a: usize,
    c: usize,
    r: Option<E>,
) -> Seq<(usize, usize)> {
    if next_graph(g, a, c, r) == g || todo.contains(ordered(a, c)) {
        todo
    } else {
        todo.push(ordered(a, c))
    }
}

/// What holds while the neighbours of `b` are walked for the edge from `a`
/// to `b`, whatever the callback answers.
spec fn half_inv<I: Idx, E: Edge, F: Fn(I, E, I, E, I) -> Option<E>>(
    start: Edges<E>,
    cur: Edges<E>,
    f: F,
    a: usize,
    b: usize,
    n: nat,
    todo0: Seq<(usize, usize)>,
    todo: Seq<(usize, usize)>,
    steps: nat,
) -> bool {
    &&& within(cur, n)
    &&& start.contains_key((a, b))
    &&& todo0.is_prefix_of(todo)
    &&& in_range(todo, n)
    &&& todo0.no_duplicates() ==> todo.no_duplicates()
    &&& reaches::<I, E, F>(start, cur, f, steps)
    &&& narrows(start, cur)
    &&& steps + measure(cur, n) <= measure(start, n)
    &&& (cur == start && todo == todo0) || measure(cur, n) < measure(start, n)
    &&& forall|p: (usize, usize)| #[trigger]
        same_at(start, cur, p) || (dirty(todo, p) && touched(start, a, b, p))
}

/// What holds of a tame graph while the neighbours of `b` are walked for the
/// edge from `a` to `b`, after the first `k` of them.
spec fn half_tame<E: Edge>(
    cur: Edges<E>,
    rule: Rule<E>,
    a: usize,
    b: usize,
    keys: Seq<usize>,
    k: int,
) -> bool {
    &&& symmetric(cur)
    &&& loop_free(cur)
    &&& forall|j: int| 0 <= j < k ==> #[trigger] examined(cur, rule, a, b, keys[j])
}

proof fn lemma_examine<E: Edge>(g: Edges<E>, rule: Rule<E>, a: usize, b: usize, c: usize)
    requires
        well_behaved(rule),
        symmetric(g),
        g.contains_key((a, b)),
        g.contains_key((b, c)),
        rule(a, g[(a, b)], b, g[(b, c)], c) matches Some(z) ==> g.contains_key((a, c)) && refines(
            g[(a, c)],
            z,
        ),
    ensures
        examined(g, rule, a, b, c),
{
    let x = g[(a, b)];
    let y = g[(b, c)];
    assert(g.contains_key((b, a)) && g.contains_key((c, b)));
    let xx = g[(b, a)];
    let yy = g[(c, b)];
    assert(x.converse_spec() == Some(xx) && xx.converse_spec() == Some(x));
    assert(y.converse_spec() == Some(yy) && yy.converse_spec() == Some(y));
    assert(involutive(x) && involutive(y));
    assert(turns_at(rule, a, x, b, y, c));
    assert(sound_at(rule, a, x, b, y, c));
    if rule(c, yy, b, xx, a) is Some {
        let w = rule(a, x, b, y, c).unwrap();
        assert(involutive(w));
        assert(g.contains_key((a, c)) && g.contains_key((c, a)));
        lemma_refines_converse(g[(a, c)], w);
    }
}

proof fn lemma_examined_stable<E: Edge>(
    g: Edges<E>,
    h: Edges<E>,
    rule: Rule<E>,
    a: usize,
    b: usize,
    c: usize,
)
    requires
        examined(g, rule, a, b, c),
        narrows(g, h),
        same_at(g, h, (a, b)),
        same_at(g, h, (b, c)),
        same_at(g, h, (c, b)),
        same_at(g, h, (b, a)),
    ensures
        examined(h, rule, a, b, c),
{
    lemma_closed_stable(g, h, rule, a, b, c);
    lemma_closed_stable(g, h, rule, c, b, a);
}

proof fn lemma_half_step<I: Idx, E: Edge, F: Fn(I, E, I, E, I) -> Option<E>>(
    start: Edges<E>,
    prev: Edges<E>,
    f: F,
    a: usize,
    b: usize,
    c: usize,
    n: nat,
    todo0: Seq<(usize, usize)>,
    todo: Seq<(usize, usize)>,
    steps: nat,
    r: Option<E>,
)
    requires
        half_inv::<I, E, F>(start, prev, f, a, b, n, todo0, todo, steps),
        a < n,
        b < n,
        c < n,
        start.contains_key((b, c)),
        prev.contains_key((a, b)),
        prev.contains_key((b, c)),
        derives::<I, E, F>(f, a, prev[(a, b)], b, prev[(b, c)], c, r),
    ensures
        half_inv::<I, E, F>(
            start,
            next_graph(prev, a, c, r),
            f,
            a,
            b,
            n,
            todo0,
            next_todo(prev, todo, a, c, r),
            if next_graph(prev, a, c, r) == prev {
                steps
            } else {
                steps + 1
            },
        ),
        narrows(prev, next_graph(prev, a, c, r)),
{
    let new = next_graph(prev, a, c, r);
    let todo2 = next_todo(prev, todo, a, c, r);
    if new == prev {
        lemma_narrows_reflexive(prev);
    } else {
        let z = r.unwrap();
        lemma_propagated_frame(prev, a, c, z);
        lemma_propagated_narrows(prev, a, c, z);
        lemma_propagated_within(prev, a, c, z, n);
        lemma_propagated_rank(prev, a, c, z);
        lemma_narrows_transitive(start, prev, new);
        lemma_measure(prev, new, n);
        lemma_reaches_step::<I, E, F>(start, prev, f, steps, a, b, c, z);
        lemma_contains_extends(todo, todo2);
        if !todo.contains(ordered(a, c)) {
            assert(todo2[todo2.len() - 1] == ordered(a, c));
            if todo.no_duplicates() {
                assert forall|i: int, j: int|
                    0 <= i < todo2.len() && 0 <= j < todo2.len() && i != j implies todo2[i]
                    != todo2[j] by {
                    if i < todo.len() {
                        assert(todo.contains(todo[i]));
                    }
                    if j < todo.len() {
                        assert(todo.contains(todo[j]));
                    }
                }
            }
        }
        assert(todo2.contains(ordered(a, c)));
        assert(dirty(todo2, (a, c)) && dirty(todo2, (c, a)));
        assert(todo0.is_prefix_of(todo2));
        assert forall|p: (usize, usize)| #[trigger]
            same_at(start, new, p) || (dirty(todo2, p) && touched(start, a, b, p)) by {
            if p != (a, c) && p != (c, a) {
                assert(same_at(prev, new, p));
                assert(same_at(start, prev, p) || (dirty(todo, p) && touched(start, a, b, p)));
            }
        }
    }
}

proof fn lemma_half_step_tame<E: Edge>(
    prev: Edges<E>,
    rule: Rule<E>,
    a: usize,
    b: usize,
    c: usize,
    keys: Seq<usize>,
    k: int,
    r: Option<E>,
)
    requires
        well_behaved(rule),
        half_tame(prev, rule, a, b, keys, k),
        0 <= k < keys.len(),
        keys[k] == c,
        prev.contains_key((a, b)),
        prev.contains_key((b, c)),
        r == rule(a, prev[(a, b)], b, prev[(b, c)], c),
    ensures
        half_tame(next_graph(prev, a, c, r), rule, a, b, keys, k + 1),
{
    let new = next_graph(prev, a, c, r);
    assert(sound_at(rule, a, prev[(a, b)], b, prev[(b, c)], c));
    if new == prev {
        if r is Some {
            lemma_propagated_frame(prev, a, c, r.unwrap());
        }
        lemma_examine(prev, rule, a, b, c);
        assert forall|j: int| 0 <= j < k + 1 implies #[trigger] examined(
            new,
            rule,
            a,
            b,
            keys[j],
        ) by {}
    } else {
        let z = r.unwrap();
        lemma_propagated_frame(prev, a, c, z);
        lemma_propagated_narrows(prev, a, c, z);
        assert(involutive(z) && a != c);
        lemma_propagated_symmetric(prev, a, c, z);
        lemma_propagated_loop_free(prev, a, c, z);
        assert(!prev.contains_key((a, a)) && !prev.contains_key((b, b)));
        assert(a != b && b != c);
        assert(prev.contains_key((b, a)) && prev.contains_key((c, b)));
        assert(same_at(prev, new, (a, b)) && same_at(prev, new, (b, c)));
        assert(same_at(prev, new, (b, a)) && same_at(prev, new, (c, b)));
        lemma_examine(new, rule, a, b, c);
        assert forall|j: int| 0 <= j < k + 1 implies #[trigger] examined(
            new,
            rule,
            a,
            b,
            keys[j],
        ) by {
            if j < k {
                let d = keys[j];
                assert(examined(prev, rule, a, b, d));
                assert(same_at(prev, new, (b, d)));
                assert(same_at(prev, new, (d, b)));
                lemma_examined_stable(prev, new, rule, a, b, d);
            }
        }
    }
}

proof fn lemma_half_done<I: Idx, E: Edge, F: Fn(I, E, I, E, I) -> Option<E>>(
    start: Edges<E>,
    cur: Edges<E>,
    f: F,
    rule: Rule<E>,
    a: usize,
    b: usize,
    n: nat,
    todo0: Seq<(usize, usize)>,
    todo: Seq<(usize, usize)>,
    keys: Seq<usize>,
    steps: nat,
)
    requires
        half_inv::<I, E, F>(start, cur, f, a, b, n, todo0, todo, steps),
        half_tame(cur, rule, a, b, keys, keys.len() as int),
        forall|y: usize| start.contains_key((b, y)) ==> keys.contains(y),
        tame(start, rule),
    ensures
        forall|c: usize| #[trigger] examined(cur, rule, a, b, c),
{
    assert forall|c: usize| #[trigger] examined(cur, rule, a, b, c) by {
        if cur.contains_key((b, c)) {
            assert(!start.contains_key((a, a)) && !start.contains_key((b, b)));
            assert(a != b);
            assert(same_at(start, cur, (b, c)) || (dirty(todo, (b, c)) && touched(
                start,
                a,
                b,
                (b, c),
            )));
            assert(!touched(start, a, b, (b, c)));
            assert(start.contains_key((b, c)));
            assert(keys.contains(c));
            let j = choose|j: int| 0 <= j < keys.len() && keys[j] == c;
            assert(examined(cur, rule, a, b, keys[j]));
        } else {
            if cur.contains_key((c, b)) {
                assert(cur.contains_key((b, c)));
            }
        }
    }
}

/// The edge from `a` to `b` has been propagated to every neighbour `c` of `b`
/// whose pair with `b` is not dirty.
spec fn settled<E: Edge>(
    g: Edges<E>,
    rule: Rule<E>,
    todo: Seq<(usize, usize)>,
    a: usize,
    b: usize,
) -> bool {
    forall|c: usize| dirty(todo, (b, c)) || #[trigger] examined(g, rule, a, b, c)
}

/// Every path of two edges is closed, or one of its edges is dirty.
spec fn pending<E: Edge>(g: Edges<E>, rule: Rule<E>, todo: Seq<(usize, usize)>) -> bool {
    forall|p: usize, q: usize, r: usize| #[trigger]
        closed(g, rule, p, q, r) || dirty(todo, (p, q)) || dirty(todo, (q, r))
}

/// What a pass over the edge between `a` and `b` leaves of a tame graph.
spec fn pass_tame<E: Edge>(
    g: Edges<E>,
    rule: Rule<E>,
    todo: Seq<(usize, usize)>,
    a: usize,
    b: usize,
) -> bool {
    &&& symmetric(g)
    &&& loop_free(g)
    &&& settled(g, rule, todo, a, b)
    &&& settled(g, rule, todo, b, a)
}

/// What holds of a tame graph while pairs are dirty.
spec fn loop_tame<E: Edge>(g: Edges<E>, rule: Rule<E>, todo: Seq<(usize, usize)>) -> bool {
    &&& symmetric(g)
    &&& loop_free(g)
    &&& pending(g, rule, todo)
}

proof fn lemma_settled_stable<E: Edge>(
    g: Edges<E>,
    h: Edges<E>,
    rule: Rule<E>,
    todo: Seq<(usize, usize)>,
    a: usize,
    b: usize,
)
    requires
        forall|c: usize| #[trigger] examined(g, rule, a, b, c),
        narrows(g, h),
        loop_free(g),
        forall|p: (usize, usize)| #[trigger]
            same_at(g, h, p) || (dirty(todo, p) && touched(g, b, a, p)),
    ensures
        settled(h, rule, todo, a, b),
{
    assert forall|c: usize| dirty(todo, (b, c)) || #[trigger] examined(h, rule, a, b, c) by {
        if !dirty(todo, (b, c)) {
            assert(!g.contains_key((a, a)) && !g.contains_key((b, b)));
            assert(same_at(g, h, (b, c)) || (dirty(todo, (b, c)) && touched(g, b, a, (b, c))));
            assert(same_at(g, h, (c, b)) || (dirty(todo, (c, b)) && touched(g, b, a, (c, b))));
            assert(same_at(g, h, (a, b)) || (dirty(todo, (a, b)) && touched(g, b, a, (a, b))));
            assert(same_at(g, h, (b, a)) || (dirty(todo, (b, a)) && touched(g, b, a, (b, a))));
            assert(examined(g, rule, a, b, c));
            lemma_examined_stable(g, h, rule, a, b, c);
        }
    }
}

proof fn lemma_pending_start<E: Edge>(g: Edges<E>, rule: Rule<E>, todo: Seq<(usize, usize)>)
    requires
        symmetric(g),
        loop_free(g),
        forall|a: usize, b: usize| a < b && #[trigger] g.contains_key((a, b)) ==> todo.contains((a, b)),
    ensures
        pending(g, rule, todo),
{
    assert forall|p: usize, q: usize, r: usize| #[trigger]
        closed(g, rule, p, q, r) || dirty(todo, (p, q)) || dirty(todo, (q, r)) by {
        if g.contains_key((p, q)) {
            assert(!g.contains_key((p, p)));
            if q < p {
                assert(g.contains_key((q, p)));
            }
        }
    }
}

proof fn lemma_pending_step<E: Edge>(
    g: Edges<E>,
    h: Edges<E>,
    rule: Rule<E>,
    a: usize,
    b: usize,
    todo: Seq<(usize, usize)>,
    rest: Seq<(usize, usize)>,
    todo2: Seq<(usize, usize)>,
)
    requires
        pending(g, rule, todo),
        todo.len() > 0,
        todo.last() == (a, b),
        rest == todo.drop_last(),
        rest.is_prefix_of(todo2),
        narrows(g, h),
        forall|p: (usize, usize)| #[trigger] same_at(g, h, p) || dirty(todo2, p),
        settled(h, rule, todo2, a, b),
        settled(h, rule, todo2, b, a),
    ensures
        pending(h, rule, todo2),
{
    lemma_contains_extends(rest, todo2);
    assert forall|x: (usize, usize)| todo.contains(x) implies rest.contains(x) || x == (a, b) by {
        let i = choose|i: int| 0 <= i < todo.len() && todo[i] == x;
        if i < todo.len() - 1 {
            assert(rest[i] == x);
        }
    }
    assert forall|p: usize, q: usize, r: usize| #[trigger]
        closed(h, rule, p, q, r) || dirty(todo2, (p, q)) || dirty(todo2, (q, r)) by {
        if !dirty(todo2, (p, q)) && !dirty(todo2, (q, r)) {
            if (p, q) == (a, b) {
                assert(examined(h, rule, a, b, r));
            } else if (p, q) == (b, a) {
                assert(examined(h, rule, b, a, r));
            } else if (q, r) == (b, a) {
                assert(!dirty(todo2, (b, p)));
                assert(examined(h, rule, a, b, p));
            } else if (q, r) == (a, b) {
                assert(!dirty(todo2, (a, p)));
                assert(examined(h, rule, b, a, p));
            } else {
                assert(!dirty(rest, (p, q)) && !dirty(rest, (q, r)));
                assert(!dirty(todo, (p, q)) && !dirty(todo, (q, r)));
                assert(closed(g, rule, p, q, r));
                assert(same_at(g, h, (p, q)) || dirty(todo2, (p, q)));
                assert(same_at(g, h, (q, r)) || dirty(todo2, (q, r)));
                lemma_closed_stable(g, h, rule, p, q, r);
            }
        }
    }
}

/// Whether the worklist holds the pair.
fn holds(todo: &Vec<(usize, usize)>, pair: (usize, usize)) -> (r: bool)
    ensures
        r == todo@.contains(pair),
{
    let mut i: usize = 0;
    while i < todo.len()
        invariant
            i <= todo@.len(),
            forall|j: int| 0 <= j < i ==> todo@[j] != pair,
        decreases todo@.len() - i,
    {
        if todo[i].0 == pair.0 && todo[i].1 == pair.1 {
            return true;
        }
        i = i + 1;
    }
    false
}

impl<I: Idx, E: Edge> Graph<I, E> {
    /// The relation on the edge between two positions, where there is one.
    fn edge_at(&self, a: usize, b: usize) -> (r: Option<E>)
        ensures
            r == (if self@.contains_key((a, b)) {
                Some(self@[(a, b)])
            } else {
                None
            }),
    {
        proof {
            I::lemma_conversions();
        }
        self.get_edge(I::from(a), I::from(b))
    }

    /// Stores `v` on the pair `(a, c)`, whatever was there.
    fn put(&mut self, a: usize, c: usize, v: E)
        requires
            a < old(self).node_count(),
        ensures
            final(self)@ == old(self)@.insert((a, c), v),
            final(self).node_count() == old(self).node_count(),
    {
        proof {
            I::lemma_conversions();
        }
        let ghost before = self@;
        match self.nodes.get_mut(I::from(a)) {
            Some(node) => {
                int_map::insert(&mut node.edges, c, v);
            },
            None => {},
        }
        assert(self@ =~= before.insert((a, c), v));
    }

    /// The pairs that are dirty at the start: every pair of nodes with an
    /// edge from the lower to the higher one.
    fn dirty_pairs(&self) -> (todo: Vec<(usize, usize)>)
        requires
            self.wf(),
        ensures
            in_range(todo@, self.node_count()),
            todo@.no_duplicates(),
            forall|a: usize, b: usize|
                a < b && #[trigger] self@.contains_key((a, b)) ==> todo@.contains((a, b)),
    {
        proof {
            I::lemma_conversions();
        }
        let mut todo: Vec<(usize, usize)> = Vec::new();
        let n: usize = self.nodes.len();
        let mut a: usize = 0;
        while a < n
            invariant
                self.wf(),
                n == self.node_count(),
                a <= n,
                in_range(todo@, n as nat),
                todo@.no_duplicates(),
                forall|i: int| 0 <= i < todo@.len() ==> (#[trigger] todo@[i]).0 < a,
                forall|x: usize, y: usize|
                    x < a && x < y && #[trigger] self@.contains_key((x, y)) ==> todo@.contains(
                        (x, y),
                    ),
            decreases n - a,
        {
            proof {
                I::lemma_conversions();
            }
            match self.nodes.get(I::from(a)) {
                Some(node) => {
                    let keys = int_map::keys(&node.edges);
                    assert(*node == self.nodes@[a as int]);
                    let mut k: usize = 0;
                    while k < keys.len()
                        invariant
                            self.wf(),
                            n == self.node_count(),
                            a < n,
                            k <= keys.len(),
                            keys@.to_set() == self.nodes@[a as int].edges@.dom(),
                            keys@.no_duplicates(),
                            in_range(todo@, n as nat),
                            todo@.no_duplicates(),
                            forall|i: int|
                                0 <= i < todo@.len() ==> (#[trigger] todo@[i]).0 < a || (todo@[i].0
                                    == a && exists|j: int| 0 <= j < k && keys@[j] == todo@[i].1),
                            forall|x: usize, y: usize|
                                x < a && x < y && #[trigger] self@.contains_key((x, y))
                                    ==> todo@.contains((x, y)),
                            forall|j: int|
                                0 <= j < k && a < keys@[j] ==> todo@.contains((a, #[trigger] keys@[j])),
                        decreases keys.len() - k,
                    {
                        let b: usize = keys[k];
                        let ghost prev = todo@;
                        assert(keys@.to_set().contains(b));
                        assert(self@.contains_key((a, b)));
                        if b > a {
                            todo.push((a, b));
                            assert(todo@[todo@.len() - 1] == (a, b));
                        }
                        proof {
                            lemma_contains_extends(prev, todo@);
                            assert forall|i: int| 0 <= i < todo@.len() implies (#[trigger] todo@[i]).0
                                < a || (todo@[i].0 == a && exists|j: int|
                                0 <= j < k + 1 && keys@[j] == todo@[i].1) by {
                                if i < prev.len() {
                                    assert(todo@[i] == prev[i]);
                                    if prev[i].0 == a {
                                        let j = choose|j: int| 0 <= j < k && keys@[j] == prev[i].1;
                                        assert(0 <= j < k + 1 && keys@[j] == todo@[i].1);
                                    }
                                } else {
                                    assert(keys@[k as int] == todo@[i].1);
                                }
                            }
                            assert forall|i: int, j: int|
                                0 <= i < todo@.len() && 0 <= j < todo@.len() && i != j implies todo@[i]
                                != todo@[j] by {
                                if i < prev.len() && j < prev.len() {
                                    assert(prev[i] != prev[j]);
                                } else if i < prev.len() {
                                    assert(todo@[i] == prev[i]);
                                    if prev[i].0 == a {
                                        let m = choose|m: int| 0 <= m < k && keys@[m] == prev[i].1;
                                        assert(keys@[m] != keys@[k as int]);
                                    }
                                } else if j < prev.len() {
                                    assert(todo@[j] == prev[j]);
                                    if prev[j].0 == a {
                                        let m = choose|m: int| 0 <= m < k && keys@[m] == prev[j].1;
                                        assert(keys@[m] != keys@[k as int]);
                                    }
                                }
                            }
                        }
                        k = k + 1;
                    }
                    assert forall|y: usize| a < y && #[trigger] self@.contains_key(
                        (a, y),
                    ) implies todo@.contains((a, y)) by {
                        assert(keys@.to_set().contains(y));
                        let j = choose|j: int| 0 <= j < keys@.len() && keys@[j] == y;
                        assert(todo@.contains((a, keys@[j])));
                    }
                },
                None => {},
            }
            a = a + 1;
        }
        todo
    }

    /// Walks the neighbours of `b` for the edge from `a` to `b`: asks the
    /// callback what each path from `a` over `b` to a neighbour `c` says of
    /// the edge from `a` to `c`, narrows that edge by the answer, lays the
    /// converse on the reversed pair and marks the pair dirty where the edge
    /// has changed.
    fn half_process_edge<F: Fn(I, E, I, E, I) -> Option<E>>(
        &mut self,
        a: usize,
        b: usize,
        f: &F,
        todo: &mut Vec<(usize, usize)>,
    ) -> (steps: Ghost<nat>)
        requires
            old(self).wf(),
            a < old(self).node_count(),
            b < old(self).node_count(),
            total::<I, E, F>(*f),
            in_range(old(todo)@, old(self).node_count()),
        ensures
            final(self).wf(),
            final(self).node_count() == old(self).node_count(),
            in_range(final(todo)@, old(self).node_count()),
            old(todo)@.is_prefix_of(final(todo)@),
            old(todo)@.no_duplicates() ==> final(todo)@.no_duplicates(),
            reaches::<I, E, F>(old(self)@, final(self)@, *f, steps@),
            narrows(old(self)@, final(self)@),
            steps@ + measure(final(self)@, old(self).node_count()) <= measure(
                old(self)@,
                old(self).node_count(),
            ),
            (final(self)@ == old(self)@ && final(todo)@ == old(todo)@) || measure(
                final(self)@,
                old(self).node_count(),
            ) < measure(old(self)@, old(self).node_count()),
            forall|p: (usize, usize)| #[trigger]
                same_at(old(self)@, final(self)@, p) || (dirty(final(todo)@, p) && touched(
                    old(self)@,
                    a,
                    b,
                    p,
                )),
            forall|rule: Rule<E>|
                implements::<I, E, F>(*f, rule) && #[trigger] tame(old(self)@, rule) ==> symmetric(
                    final(self)@,
                ) && loop_free(final(self)@) && forall|c: usize| #[trigger]
                    examined(final(self)@, rule, a, b, c),
    {
        let ghost start = self@;
        let ghost todo0 = todo@;
        let ghost n = self.node_count();
        proof {
            I::lemma_conversions();
            lemma_narrows_reflexive(start);
            self.nodes.lemma_len();
        }
        if self.edge_at(a, b).is_none() {
            proof {
                assert forall|rule: Rule<E>|
                    implements::<I, E, F>(*f, rule) && #[trigger] tame(
                        start,
                        rule,
                    ) implies forall|c: usize| #[trigger] examined(start, rule, a, b, c) by {
                    assert forall|c: usize| #[trigger] examined(start, rule, a, b, c) by {
                        if start.contains_key((b, a)) {
                            assert(start.contains_key((a, b)));
                        }
                    }
                }
            }
            return Ghost(0);
        }
        let keys = match self.nodes.get(I::from(b)) {
            Some(node) => int_map::keys(&node.edges),
            None => Vec::new(),
        };
        assert forall|y: usize| start.contains_key((b, y)) <==> keys@.contains(y) by {
            assert(keys@.to_set().contains(y) <==> keys@.contains(y));
        }
        let ghost mut steps: nat = 0;
        let mut k: usize = 0;
        while k < keys.len()
            invariant
                self.wf(),
                self.node_count() == n,
                n <= usize::MAX,
                a < n,
                b < n,
                k <= keys.len(),
                total::<I, E, F>(*f),
                forall|y: usize| start.contains_key((b, y)) <==> keys@.contains(y),
                half_inv::<I, E, F>(start, self@, *f, a, b, n, todo0, todo@, steps),
                forall|rule: Rule<E>|
                    implements::<I, E, F>(*f, rule) && #[trigger] tame(start, rule) ==> half_tame(
                        self@,
                        rule,
                        a,
                        b,
                        keys@,
                        k as int,
                    ),
            decreases keys.len() - k,
        {
            let c: usize = keys[k];
            let ghost prev = self@;
            let ghost prev_todo = todo@;
            proof {
                I::lemma_conversions();
                E::lemma_eq();
                assert(keys@.contains(c));
                assert(start.contains_key((b, c)));
                assert(prev.contains_key((a, b)) && prev.contains_key((b, c)));
            }
            let ab = self.edge_at(a, b);
            let bc = self.edge_at(b, c);
            match (ab, bc) {
                (Some(x), Some(y)) => {
                    let r = f(I::from(a), x, I::from(b), y, I::from(c));
                    assert(derives::<I, E, F>(*f, a, x, b, y, c, r));
                    let fresh: Option<E> = match r {
                        Some(z) => match self.edge_at(a, c) {
                            Some(w) => {
                                let m = w.merge(z);
                                if m == w {
                                    None
                                } else {
                                    Some(m)
                                }
                            },
                            None => Some(z),
                        },
                        None => None,
                    };
                    match fresh {
                        Some(v) => {
                            self.put(a, c, v);
                            match v.converse() {
                                Some(w) => {
                                    self.half_insert(I::from(c), I::from(a), w);
                                },
                                None => {},
                            }
                            let pair = if a < c {
                                (a, c)
                            } else {
                                (c, a)
                            };
                            if !holds(todo, pair) {
                                todo.push(pair);
                            }
                            proof {
                                lemma_propagated_frame(prev, a, c, r.unwrap());
                                assert(self@ == next_graph(prev, a, c, r));
                                assert(todo@ == next_todo(prev, prev_todo, a, c, r));
                            }
                        },
                        None => {
                            proof {
                                if r is Some {
                                    lemma_propagated_frame(prev, a, c, r.unwrap());
                                }
                                assert(self@ == next_graph(prev, a, c, r));
                                assert(todo@ == next_todo(prev, prev_todo, a, c, r));
                            }
                        },
                    }
                    proof {
                        lemma_half_step::<I, E, F>(
                            start,
                            prev,
                            *f,
                            a,
                            b,
                            c,
                            n,
                            todo0,
                            prev_todo,
                            steps,
                            r,
                        );
                        if self@ != prev {
                            steps = steps + 1;
                        }
                        assert forall|rule: Rule<E>|
                            implements::<I, E, F>(*f, rule) && #[trigger] tame(
                                start,
                                rule,
                            ) implies half_tame(self@, rule, a, b, keys@, k as int + 1) by {
                            lemma_half_step_tame(prev, rule, a, b, c, keys@, k as int, r);
                        }
                    }
                },
                _ => {},
            }
            k = k + 1;
        }
        proof {
            assert forall|rule: Rule<E>|
                implements::<I, E, F>(*f, rule) && #[trigger] tame(start, rule) implies symmetric(
                self@,
            ) && loop_free(self@) && forall|c: usize| #[trigger] examined(self@, rule, a, b, c) by {
                lemma_half_done::<I, E, F>(
                    start,
                    self@,
                    *f,
                    rule,
                    a,
                    b,
                    n,
                    todo0,
                    todo@,
                    keys@,
                    steps,
                );
            }
        }
        Ghost(steps)
    }

    /// Propagates the edge between `a` and `b` in both directions.
    fn process_edge<F: Fn(I, E, I, E, I) -> Option<E>>(
        &mut self,
        a: usize,
        b: usize,
        f: &F,
        todo: &mut Vec<(usize, usize)>,
    ) -> (steps: Ghost<nat>)
        requires
            old(self).wf(),
            a < old(self).node_count(),
            b < old(self).node_count(),
            total::<I, E, F>(*f),
            in_range(old(todo)@, old(self).node_count()),
        ensures
            final(self).wf(),
            final(self).node_count() == old(self).node_count(),
            in_range(final(todo)@, old(self).node_count()),
            old(todo)@.is_prefix_of(final(todo)@),
            old(todo)@.no_duplicates() ==> final(todo)@.no_duplicates(),
            reaches::<I, E, F>(old(self)@, final(self)@, *f, steps@),
            narrows(old(self)@, final(self)@),
            steps@ + measure(final(self)@, old(self).node_count()) <= measure(
                old(self)@,
                old(self).node_count(),
            ),
            (final(self)@ == old(self)@ && final(todo)@ == old(todo)@) || measure(
                final(self)@,
                old(self).node_count(),
            ) < measure(old(self)@, old(self).node_count()),
            forall|p: (usize, usize)| #[trigger]
                same_at(old(self)@, final(self)@, p) || dirty(final(todo)@, p),
            forall|rule: Rule<E>|
                implements::<I, E, F>(*f, rule) && #[trigger] tame(old(self)@, rule) ==> pass_tame(
                    final(self)@,
                    rule,
                    final(todo)@,
                    a,
                    b,
                ),
    {
        let ghost g0 = self@;
        let ghost n = self.node_count();
        let ghost todo0 = todo@;
        let Ghost(i) = self.half_process_edge(a, b, f, todo);
        let ghost g1 = self@;
        let ghost todo1 = todo@;
        let Ghost(j) = self.half_process_edge(b, a, f, todo);
        proof {
            let g2 = self@;
            let todo2 = todo@;
            lemma_reaches_transitive::<I, E, F>(g0, g1, g2, *f, i, j);
            lemma_narrows_transitive(g0, g1, g2);
            lemma_measure(g1, g2, n);
            lemma_contains_extends(todo1, todo2);
            assert forall|p: (usize, usize)| #[trigger]
                same_at(g0, g2, p) || dirty(todo2, p) by {
                assert(same_at(g0, g1, p) || (dirty(todo1, p) && touched(g0, a, b, p)));
                assert(same_at(g1, g2, p) || (dirty(todo2, p) && touched(g1, b, a, p)));
            }
            assert forall|rule: Rule<E>|
                implements::<I, E, F>(*f, rule) && #[trigger] tame(g0, rule) implies pass_tame(
                g2,
                rule,
                todo2,
                a,
                b,
            ) by {
                assert(tame(g1, rule));
                lemma_settled_stable(g1, g2, rule, todo2, a, b);
                assert forall|c: usize| dirty(todo2, (a, c)) || #[trigger] examined(
                    g2,
                    rule,
                    b,
                    a,
                    c,
                ) by {}
            }
        }
        Ghost(i + j)
    }

    /// Saturates the graph under composition along paths of two edges.
    ///
    /// Every pair of nodes that an edge joins is dirty at the start. While a
    /// pair is dirty, one is taken and its edge is propagated in both
    /// directions: for the edge from `a` to `b` and each edge from `b` to a
    /// node `c`, the callback `f` is asked what holds from `a` to `c`; its
    /// answer narrows the edge from `a` to `c`, or makes that edge, and where
    /// this changes the graph the converse is laid on the reversed pair and
    /// the pair becomes dirty.
    ///
    /// The graph that is left comes from the first by such propagations
    /// alone. Where the callback follows a well-behaved rule and the graph is
    /// symmetric and without loops, the graph that is left is saturated
    /// under that rule. A graph that is saturated already is left as it is.
    ///
    /// The loop ends: every propagation that changes the graph lowers its
    /// measure, and there are no more of them than the measure of the graph
    /// at the start.
    pub fn closure<F: Fn(I, E, I, E, I) -> Option<E>>(&mut self, f: F)
        requires
            old(self).wf(),
            total::<I, E, F>(f),
        ensures
            final(self).wf(),
            final(self).node_count() == old(self).node_count(),
            propagates::<I, E, F>(old(self)@, final(self)@, f),
            propagates_within::<I, E, F>(
                old(self)@,
                final(self)@,
                f,
                measure(old(self)@, old(self).node_count()),
            ),
            narrows(old(self)@, final(self)@),
            forall|rule: Rule<E>|
                implements::<I, E, F>(f, rule) && #[trigger] tame(old(self)@, rule) ==> tame(
                    final(self)@,
                    rule,
                ) && saturated(final(self)@, rule),
            forall|rule: Rule<E>|
                implements::<I, E, F>(f, rule) && #[trigger] saturated(old(self)@, rule)
                    ==> final(self)@ == old(self)@,
    {
        let ghost start = self@;
        let ghost n = self.node_count();
        let ghost mut steps: nat = 0;
        let mut todo = self.dirty_pairs();
        proof {
            assert forall|rule: Rule<E>|
                implements::<I, E, F>(f, rule) && #[trigger] tame(start, rule) implies loop_tame(
                start,
                rule,
                todo@,
            ) by {
                lemma_pending_start(start, rule, todo@);
            }
        }
        while todo.len() > 0
            invariant
                self.wf(),
                self.node_count() == n,
                total::<I, E, F>(f),
                in_range(todo@, n),
                todo@.no_duplicates(),
                reaches::<I, E, F>(start, self@, f, steps),
                steps + measure(self@, n) <= measure(start, n),
                forall|rule: Rule<E>|
                    implements::<I, E, F>(f, rule) && #[trigger] tame(start, rule) ==> loop_tame(
                        self@,
                        rule,
                        todo@,
                    ),
            decreases measure(self@, n), todo.len(),
        {
            let ghost g = self@;
            let ghost before = todo@;
            let pair = todo.pop();
            match pair {
                Some((a, b)) => {
                    assert(before[before.len() - 1] == (a, b));
                    let ghost rest = todo@;
                    let Ghost(i) = self.process_edge(a, b, &f, &mut todo);
                    proof {
                        lemma_reaches_transitive::<I, E, F>(start, g, self@, f, steps, i);
                        steps = steps + i;
                        assert forall|rule: Rule<E>|
                            implements::<I, E, F>(f, rule) && #[trigger] tame(
                                start,
                                rule,
                            ) implies loop_tame(self@, rule, todo@) by {
                            assert(loop_tame(g, rule, before));
                            assert(tame(g, rule));
                            assert(pass_tame(self@, rule, todo@, a, b));
                            lemma_pending_step(g, self@, rule, a, b, before, rest, todo@);
                        }
                    }
                },
                None => {},
            }
        }
        proof {
            assert(propagates::<I, E, F>(start, self@, f));
            lemma_propagates_narrows::<I, E, F>(start, self@, f);
            assert forall|rule: Rule<E>|
                implements::<I, E, F>(f, rule) && #[trigger] saturated(start, rule) implies self@
                == start by {
                lemma_propagates_saturated::<I, E, F>(start, self@, f, rule);
            }
            assert forall|rule: Rule<E>|
                implements::<I, E, F>(f, rule) && #[trigger] tame(start, rule) implies tame(
                self@,
                rule,
            ) && saturated(self@, rule) by {
                assert(loop_tame(self@, rule, todo@));
                assert forall|p: usize, q: usize, r: usize| #[trigger]
                    closed(self@, rule, p, q, r) by {
                    assert(!dirty(todo@, (p, q)) && !dirty(todo@, (q, r)));
                }
            }
        }
    }
}

} // verus!
