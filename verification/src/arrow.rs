//! The relation algebra: sets of five atomic relations with converse,
//! intersection and composition.

use crate::graph::Edge;
use vstd::prelude::*;
use vstd::std_specs::cmp::PartialEqSpecImpl;

verus! {

/// A set of atomic relations between two ports, one bit for each of
/// much-before, before, same, after and much-after, from bit 4 down to bit 0.
/// No bit set is a contradiction, all five set is no knowledge at all.
#[derive(Clone, Copy, Debug)]
pub struct Arrow(pub u8);

/// All five atomic relations.
pub const FULL: u8 = 0b11111;

impl PartialEq for Arrow {
    fn eq(&self, other: &Self) -> (r: bool) {
        self.0 == other.0
    }
}

impl Eq for Arrow {

}

impl PartialEqSpecImpl for Arrow {
    open spec fn obeys_eq_spec() -> bool {
        true
    }

    open spec fn eq_spec(&self, other: &Self) -> bool {
        self.0 == other.0
    }
}

/// The five low bits of `x` in reverse order: each atomic relation is replaced
/// by the one that holds in the other direction.
pub open spec fn turned(x: u8) -> u8 {
    ((x & 1) << 4) | ((x & 2) << 2) | (x & 4) | ((x & 8) >> 2) | ((x & 16) >> 4)
}

/// What one row `(a, b, c)` of the composition table adds to the composition
/// of `s` and `t`: `c` where `s` meets `a` and `t` meets the converse of `b`,
/// and the converse of `c` where `s` meets `b` and `t` meets the converse of
/// `a`.
pub open spec fn row(s: u8, t: u8, a: u8, b: u8, c: u8) -> u8 {
    (if s & a != 0 && t & turned(b) != 0 {
        c
    } else {
        0u8
    }) | (if s & b != 0 && t & turned(a) != 0 {
        turned(c)
    } else {
        0u8
    })
}

/// The relations that may hold from the first to the third of three nodes,
/// where `s` holds from the first to the second and `t` from the second to
/// the third: the union of what the fifteen rows of the table add.
pub open spec fn composed(s: u8, t: u8) -> u8 {
    row(s, t, 0b00001, 0b00001, 0b00000) | row(s, t, 0b00010, 0b00001, 0b00011) | row(
        s,
        t,
        0b00010,
        0b00010,
        0b11011,
    ) | row(s, t, 0b00100, 0b00001, 0b11100) | row(s, t, 0b00100, 0b00010, 0b11100) | row(
        s,
        t,
        0b00100,
        0b00100,
        0b11111,
    ) | row(s, t, 0b01000, 0b00001, 0b01000) | row(s, t, 0b01000, 0b00010, 0b01000) | row(
        s,
        t,
        0b01000,
        0b00100,
        0b00100,
    ) | row(s, t, 0b01000, 0b01000, 0b11111) | row(s, t, 0b10000, 0b00001, 0b01000) | row(
        s,
        t,
        0b10000,
        0b00010,
        0b01000,
    ) | row(s, t, 0b10000, 0b00100, 0b00100) | row(s, t, 0b10000, 0b01000, 0b00111) | row(
        s,
        t,
        0b10000,
        0b10000,
        0b00100,
    )
}

/// The number of bits set in `x`.
pub open spec fn ones(x: u8) -> nat {
    ((x & 1) + ((x >> 1) & 1) + ((x >> 2) & 1) + ((x >> 3) & 1) + ((x >> 4) & 1) + ((x >> 5) & 1)
        + ((x >> 6) & 1) + ((x >> 7) & 1)) as nat
}

/// The rows of the composition table.
pub open spec fn rows() -> Seq<(u8, u8, u8)> {
    seq![
        (0b00001u8, 0b00001u8, 0b00000u8),
        (0b00010u8, 0b00001u8, 0b00011u8),
        (0b00010u8, 0b00010u8, 0b11011u8),
        (0b00100u8, 0b00001u8, 0b11100u8),
        (0b00100u8, 0b00010u8, 0b11100u8),
        (0b00100u8, 0b00100u8, 0b11111u8),
        (0b01000u8, 0b00001u8, 0b01000u8),
        (0b01000u8, 0b00010u8, 0b01000u8),
        (0b01000u8, 0b00100u8, 0b00100u8),
        (0b01000u8, 0b01000u8, 0b11111u8),
        (0b10000u8, 0b00001u8, 0b01000u8),
        (0b10000u8, 0b00010u8, 0b01000u8),
        (0b10000u8, 0b00100u8, 0b00100u8),
        (0b10000u8, 0b01000u8, 0b00111u8),
        (0b10000u8, 0b10000u8, 0b00100u8),
    ]
}

/// What the first `n` rows of the table add to the composition of `s` and `t`.
pub open spec fn composed_upto(s: u8, t: u8, n: nat) -> u8
    decreases n,
{
    if n == 0 {
        0u8
    } else {
        composed_upto(s, t, (n - 1) as nat) | row(
            s,
            t,
            rows()[n - 1].0,
            rows()[n - 1].1,
            rows()[n - 1].2,
        )
    }
}

proof fn lemma_composed_upto(s: u8, t: u8)
    ensures
        composed_upto(s, t, 15) == composed(s, t),
{
    reveal_with_fuel(composed_upto, 16);
    let first = row(s, t, 0b00001, 0b00001, 0b00000);
    assert(0u8 | first == first) by (bit_vector);
}

/// `String::push`: the character is appended at the end.
#[verifier::external_body]
fn push_char(text: &mut String, c: char)
    ensures
        final(text)@ == old(text)@.push(c),
{
    text.push(c);
}

/// The mark of one atomic relation: `mark` where its bit is set in `x`, a
/// dash where it is not.
pub open spec fn mark_of(x: u8, bit: u8, mark: char) -> char {
    if x & bit != 0 {
        mark
    } else {
        '-'
    }
}

fn turn(x: u8) -> (r: u8)
    ensures
        r == turned(x),
{
    ((x & 1) << 4) | ((x & 2) << 2) | (x & 4) | ((x & 8) >> 2) | ((x & 16) >> 4)
}

impl Arrow {
    /// What `join` returns: nothing where either side is a contradiction or
    /// where the composition is all five relations, else the composition.
    pub open spec fn join_spec(self, other: Self) -> Option<Self> {
        if self.0 == 0 || other.0 == 0 {
            None
        } else if composed(self.0, other.0) == FULL {
            None
        } else {
            Some(Arrow(composed(self.0, other.0)))
        }
    }

    /// No bit above the five is set.
    pub open spec fn is_mask(self) -> bool {
        self.0 <= FULL
    }

    /// Exactly one atomic relation.
    pub open spec fn is_atom(self) -> bool {
        self.0 == 1 || self.0 == 2 || self.0 == 4 || self.0 == 8 || self.0 == 16
    }

    /// The number of atomic relations in the set.
    pub open spec fn cardinality(self) -> nat {
        ones(self.0)
    }

    /// The relation written out: one mark for each atomic relation from
    /// much-before to much-after, `<`, `<`, `*`, `>` and `>`, or a dash where
    /// the relation is not in the set.
    pub open spec fn text(self) -> Seq<char> {
        seq![
            mark_of(self.0, 0b10000, '<'),
            mark_of(self.0, 0b01000, '<'),
            mark_of(self.0, 0b00100, '*'),
            mark_of(self.0, 0b00010, '>'),
            mark_of(self.0, 0b00001, '>'),
        ]
    }

    /// Writes the relation out.
    pub fn to_text(self) -> (r: String)
        ensures
            r@ == self.text(),
    {
        let mut r = String::new();
        push_char(&mut r, if self.0 & 0b10000 != 0 {
            '<'
        } else {
            '-'
        });
        push_char(&mut r, if self.0 & 0b01000 != 0 {
            '<'
        } else {
            '-'
        });
        push_char(&mut r, if self.0 & 0b00100 != 0 {
            '*'
        } else {
            '-'
        });
        push_char(&mut r, if self.0 & 0b00010 != 0 {
            '>'
        } else {
            '-'
        });
        push_char(&mut r, if self.0 & 0b00001 != 0 {
            '>'
        } else {
            '-'
        });
        assert(r@ =~= self.text());
        r
    }

    pub fn from_bits(bits: u8) -> (r: Self)
        ensures
            r == Arrow(bits),
    {
        Arrow(bits)
    }

    /// Composes two relations along a path of two edges.
    pub fn join(self, other: Self) -> (r: Option<Self>)
        ensures
            r == self.join_spec(other),
    {
        if self.0 == 0 || other.0 == 0 {
            return None;
        }
        let table: [(u8, u8, u8); 15] = [
            (0b00001, 0b00001, 0b00000),
            (0b00010, 0b00001, 0b00011),
            (0b00010, 0b00010, 0b11011),
            (0b00100, 0b00001, 0b11100),
            (0b00100, 0b00010, 0b11100),
            (0b00100, 0b00100, 0b11111),
            (0b01000, 0b00001, 0b01000),
            (0b01000, 0b00010, 0b01000),
            (0b01000, 0b00100, 0b00100),
            (0b01000, 0b01000, 0b11111),
            (0b10000, 0b00001, 0b01000),
            (0b10000, 0b00010, 0b01000),
            (0b10000, 0b00100, 0b00100),
            (0b10000, 0b01000, 0b00111),
            (0b10000, 0b10000, 0b00100),
        ];
        assert(table@ =~= rows());
        let mut o: u8 = 0;
        let mut i: usize = 0;
        while i < 15
            invariant
                i <= 15,
                table@ == rows(),
                o == composed_upto(self.0, other.0, i as nat),
            decreases 15 - i,
        {
            let (a, b, c) = table[i];
            let mut add: u8 = 0;
            if (self.0 & a) != 0 && (other.0 & turn(b)) != 0 {
                add = c;
            }
            let mut back: u8 = 0;
            if (self.0 & b) != 0 && (other.0 & turn(a)) != 0 {
                back = turn(c);
            }
            o = o | (add | back);
            i = i + 1;
        }
        proof {
            lemma_composed_upto(self.0, other.0);
        }
        if o == 0b11111 {
            None
        } else {
            Some(Self::from_bits(o))
        }
    }
}

/// A relation that `join` hands out has no bit above the five.
pub proof fn lemma_join_is_mask(a: Arrow, b: Arrow)
    ensures
        a.join_spec(b) matches Some(c) ==> c.is_mask(),
{
    let (s, t) = (a.0, b.0);
    assert(composed(s, t) <= 31) by (bit_vector);
}

/// Composition turns round with its operands: on relations without a bit
/// above the five, the converse of `a.join(b)` is the converse of `b` joined
/// with the converse of `a`.
pub proof fn lemma_join_converse(a: Arrow, b: Arrow)
    requires
        a.is_mask(),
        b.is_mask(),
    ensures
        Arrow(turned(b.0)).join_spec(Arrow(turned(a.0))) == match a.join_spec(b) {
            Some(c) => Some(Arrow(turned(c.0))),
            None => None,
        },
{
    let (s, t) = (a.0, b.0);
    assert(s <= 31 && t <= 31 ==> composed(turned(t), turned(s)) == turned(composed(s, t)) && (s
        == 0 <==> turned(s) == 0) && (t == 0 <==> turned(t) == 0) && (composed(s, t) == 31 <==> turned(
        composed(s, t),
    ) == 31)) by (bit_vector);
}

/// Composition is consistent with inversion: where `a.join(b)` is `c`, a path
/// that takes `b` and then the converse of a relation outside `c` cannot end
/// in the converse of a relation of `a`.
pub proof fn lemma_join_round_trip(a: Arrow, b: Arrow)
    ensures
        a.join_spec(b) matches Some(c) ==> (match b.join_spec(Arrow(turned(c.0 ^ 31))) {
            Some(d) => Arrow(turned(d.0)),
            None => Arrow(turned(31)),
        }).merge_spec(a) == Arrow(0),
{
    let (s, t) = (a.0, b.0);
    assert(s != 0 && t != 0 && composed(s, t) != 31 ==> turned(composed(s, t) ^ 31) != 0 && turned(
        composed(t, turned(composed(s, t) ^ 31)),
    ) & s == 0) by (bit_vector);
}

/// The same among atomic relations: where two of them compose to a set that
/// lacks a third, a path that takes the second and then the converse of the
/// third cannot end in the converse of the first.
pub proof fn lemma_atomic_round_trip(alpha: Arrow, beta: Arrow, gamma: Arrow)
    requires
        alpha.is_atom(),
        beta.is_atom(),
        gamma.is_atom(),
        alpha.join_spec(beta) matches Some(c) && c.0 & gamma.0 == 0,
    ensures
        (match beta.join_spec(Arrow(turned(gamma.0))) {
            Some(d) => Arrow(turned(d.0)),
            None => Arrow(turned(31)),
        }).merge_spec(alpha) == Arrow(0),
{
    let (s, t, g) = (alpha.0, beta.0, gamma.0);
    assert((s == 1 || s == 2 || s == 4 || s == 8 || s == 16) && (t == 1 || t == 2 || t == 4 || t
        == 8 || t == 16) && (g == 1 || g == 2 || g == 4 || g == 8 || g == 16) && composed(s, t)
        != 31 && composed(s, t) & g == 0 ==> turned(g) != 0 && turned(composed(t, turned(g))) & s
        == 0) by (bit_vector);
}

/// Narrowing never adds an atomic relation: what is left has at most as many
/// as there were.
pub proof fn lemma_merge_shrinks(a: Arrow, b: Arrow)
    ensures
        a.merge_spec(b).cardinality() <= a.cardinality(),
        a.merge_spec(b).0 & a.0 == a.merge_spec(b).0,
{
    let (s, t) = (a.0, b.0);
    assert(ones(s & t) <= ones(s) && (s & t) & s == s & t) by (bit_vector);
}

impl Edge for Arrow {
    open spec fn converse_spec(self) -> Option<Self> {
        Some(Arrow(turned(self.0)))
    }

    open spec fn merge_spec(self, other: Self) -> Self {
        Arrow(self.0 & other.0)
    }

    open spec fn rank(self) -> nat {
        ones(self.0)
    }

    open spec fn height() -> nat {
        8
    }

    /// Reverses the direction of every atomic relation.
    fn converse(self) -> (r: Option<Self>) {
        Some(Arrow::from_bits(turn(self.0)))
    }

    /// Keeps the atomic relations that both sides allow.
    fn merge(self, other: Self) -> (r: Self) {
        Arrow::from_bits(self.0 & other.0)
    }

    proof fn lemma_eq() {
    }

    proof fn lemma_merge(x: Self, y: Self, z: Self) {
        let (a, b, c) = (x.0, y.0, z.0);
        assert(a & a == a && a & b == b & a && (a & b) & c == a & (b & c)) by (bit_vector);
    }

    proof fn lemma_converse_merge(x: Self, y: Self) {
        let (a, b) = (x.0, y.0);
        assert(turned(a & b) == turned(a) & turned(b)) by (bit_vector);
    }

    proof fn lemma_rank(x: Self, y: Self) {
        let (a, b) = (x.0, y.0);
        assert((a & b == a || ones(a & b) < ones(a)) && ones(a) <= 8) by (bit_vector);
    }
}

} // verus!
