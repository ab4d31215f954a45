//! The desugaring engine: rewrites a syntax tree, eliminating each sugared
//! construct that the configuration switches on, while allocating fresh
//! variable identifiers that cannot capture.

use vstd::prelude::*;

use crate::parser::{
    arity, lemma_wf_seq, views_of, lemma_views_of, wf_seq, Connective, Constant, Node, NodeType,
    Operator, Quantifier, Relation, SyntaxNode,
};
use crate::SetConfig;

verus! {

/// The set of variable identifiers occurring anywhere in a tree.
pub open spec fn ids_of(n: Node) -> Set<u32>
    decreases n,
{
    match n.tag {
        NodeType::Variable(v) => ids_of_seq(n.children).insert(v),
        _ => ids_of_seq(n.children),
    }
}

/// The set of variable identifiers occurring in a sequence of trees.
pub open spec fn ids_of_seq(s: Seq<Node>) -> Set<u32>
    decreases s,
{
    if s.len() == 0 {
        Set::empty()
    } else {
        ids_of(s[0]).union(ids_of_seq(s.drop_first()))
    }
}

/// Identifier sets of finite trees are finite.
pub broadcast proof fn lemma_ids_finite(n: Node)
    ensures
        (#[trigger] ids_of(n)).finite(),
    decreases n,
{
    lemma_ids_seq_finite(n.children);
}

/// Identifier sets of finite forests are finite.
pub broadcast proof fn lemma_ids_seq_finite(s: Seq<Node>)
    ensures
        (#[trigger] ids_of_seq(s)).finite(),
    decreases s,
{
    if s.len() > 0 {
        lemma_ids_finite(s[0]);
        lemma_ids_seq_finite(s.drop_first());
    }
}

/// `k` is the smallest identifier not in `used`.
pub open spec fn is_min_free(used: Set<u32>, k: u32) -> bool {
    !used.contains(k) && forall|j: u32| j < k ==> used.contains(j)
}

/// The smallest identifier not in `used`; `u32::MAX` if every identifier is
/// used (possible only for a set of every `u32`).
pub open spec fn fresh_id(used: Set<u32>) -> u32 {
    if exists|k: u32| is_min_free(used, k) {
        choose|k: u32| is_min_free(used, k)
    } else {
        u32::MAX
    }
}

/// At most one identifier is the smallest free one.
pub proof fn lemma_min_free_unique(used: Set<u32>, k1: u32, k2: u32)
    requires
        is_min_free(used, k1),
        is_min_free(used, k2),
    ensures
        k1 == k2,
{
    if k1 < k2 {
        assert(used.contains(k1));
    } else if k2 < k1 {
        assert(used.contains(k2));
    }
}

/// Tracks every variable identifier in use during one transformation call,
/// so that freshly allocated identifiers never collide: the explicit
/// allocator that the rewrite rules thread through the call tree.
pub struct IndexPool {
    used: Vec<u32>,
}

impl IndexPool {
    /// The identifiers in the pool, held as a strictly increasing vector.
    pub closed spec fn view(&self) -> Set<u32> {
        self.used@.to_set()
    }

    /// Strict order of the backing vector.
    pub closed spec fn wf(&self) -> bool {
        forall|i: int, j: int|
            0 <= i < j < self.used@.len() ==> self.used@[i] < self.used@[j]
    }

    /// An empty pool.
    pub fn new() -> (r: IndexPool)
        ensures
            r.wf(),
            r@ == Set::<u32>::empty(),
    {
        let r = IndexPool { used: Vec::new() };
        proof {
            assert(r@ =~= Set::<u32>::empty());
        }
        r
    }

    fn position_of(&self, k: u32) -> (r: usize)
        requires
            self.wf(),
        ensures
            r <= self.used@.len(),
            forall|i: int| 0 <= i < r ==> self.used@[i] < k,
            forall|i: int| r <= i < self.used@.len() ==> self.used@[i] >= k,
    {
        let mut i: usize = 0;
        while i < self.used.len() && self.used[i] < k
            invariant
                self.wf(),
                i <= self.used@.len(),
                forall|j: int| 0 <= j < i ==> self.used@[j] < k,
            decreases self.used@.len() - i,
        {
            i = i + 1;
        }
        proof {
            assert forall|j: int| i <= j < self.used@.len() implies self.used@[j] >= k by {
                if j > i {
                    assert(self.used@[i as int] < self.used@[j]);
                }
            }
        }
        i
    }

    /// Records `k` as used (no effect when already present).
    pub fn note(&mut self, k: u32)
        requires
            old(self).wf(),
        ensures
            final(self).wf(),
            final(self)@ == old(self)@.insert(k),
    {
        let p = self.position_of(k);
        if p < self.used.len() && self.used[p] == k {
            proof {
                assert(self.used@.contains(k));
                assert(self@.contains(k));
                assert(self@ =~= old(self)@.insert(k));
            }
            return;
        }
        let ghost before = self.used@;
        self.used.insert(p, k);
        proof {
            let after = self.used@;
            assert(after == before.insert(p as int, k));
            assert forall|i: int, j: int| 0 <= i < j < after.len() implies after[i] < after[j] by {
                if j < p {
                    assert(after[i] == before[i] && after[j] == before[j]);
                } else if i > p {
                    assert(after[i] == before[i - 1] && after[j] == before[j - 1]);
                } else if i < p && j == p {
                    assert(after[i] == before[i]);
                } else if i < p && j > p {
                    assert(after[i] == before[i] && after[j] == before[j - 1]);
                } else if i == p && j > p {
                    assert(after[j] == before[j - 1]);
                }
            }
            assert forall|x: u32| after.to_set().contains(x) <==> before.to_set().contains(x)
                || x == k by {
                if after.to_set().contains(x) {
                    let w = choose|w: int| 0 <= w < after.len() && after[w] == x;
                    if w < p {
                        assert(before[w] == x);
                        assert(before.to_set().contains(x));
                    } else if w > p {
                        assert(before[w - 1] == x);
                        assert(before.to_set().contains(x));
                    }
                }
                if before.to_set().contains(x) {
                    let w = choose|w: int| 0 <= w < before.len() && before[w] == x;
                    if w < p {
                        assert(after[w] == x);
                    } else {
                        assert(after[w + 1] == x);
                    }
                    assert(after.to_set().contains(x));
                }
                if x == k {
                    assert(after[p as int] == x);
                    assert(after.to_set().contains(x));
                }
            }
            assert(self@ =~= old(self)@.insert(k));
        }
    }

    /// Allocates the smallest identifier not yet in the pool, recording it.
    pub fn fresh(&mut self) -> (r: u32)
        requires
            old(self).wf(),
        ensures
            final(self).wf(),
            r == fresh_id(old(self)@),
            final(self)@ == old(self)@.insert(r),
            old(self)@.len() <= u32::MAX ==> is_min_free(old(self)@, r),
    {
        let mut i: usize = 0;
        while i < self.used.len() && i <= u32::MAX as usize && self.used[i] == i as u32
            invariant
                self.wf(),
                self == old(self),
                i <= self.used@.len(),
                forall|j: int| 0 <= j < i ==> self.used@[j] as int == j,
            decreases self.used@.len() - i,
        {
            i = i + 1;
        }
        proof {
            assert forall|j: u32| (j as usize) < i implies old(self)@.contains(j) by {
                assert(self.used@[j as int] as int == j as int);
                assert(self.used@.contains(j));
            }
        }
        if i <= u32::MAX as usize && (i == self.used.len() || !(self.used[i] == i as u32)) {
            let r = i as u32;
            proof {
                // No element equals r: those before index i are smaller,
                // and from index i on they exceed r.
                assert forall|w: int| 0 <= w < self.used@.len() implies self.used@[w] != r by {
                    if w < i as int {
                        assert(self.used@[w] as int == w);
                    } else if w == i as int {
                        assert(self.used@[w] != i as u32);
                    } else {
                        assert(self.used@[i as int] < self.used@[w]);
                        if i > 0 {
                            assert(self.used@[i - 1] as int == i - 1);
                            assert(self.used@[i - 1] < self.used@[i as int]);
                        }
                        assert(self.used@[i as int] >= r);
                        assert(self.used@[w] > r);
                    }
                }
                assert(!self.used@.contains(r)) by {
                    if self.used@.contains(r) {
                        let w = choose|w: int| 0 <= w < self.used@.len() && self.used@[w] == r;
                        assert(false);
                    }
                }
                assert(!old(self)@.contains(r));
                assert(is_min_free(old(self)@, r));
                let k = choose|k: u32| is_min_free(old(self)@, k);
                lemma_min_free_unique(old(self)@, k, r);
                assert(r == fresh_id(old(self)@));
            }
            self.note(r);
            r
        } else {
            // The scan ran past the whole identifier range: every identifier
            // is in the pool, and only the saturation value can come back.
            proof {
                assert(i > u32::MAX as usize);
                assert forall|k: u32| true implies old(self)@.contains(k) by {
                    assert((k as usize) < i);
                }
                assert forall|k: u32| !(#[trigger] is_min_free(old(self)@, k)) by {
                    assert(old(self)@.contains(k));
                }
                assert(fresh_id(old(self)@) == u32::MAX);
                // The pool then holds more identifiers than any `u32`.
                assert(old(self).used@.no_duplicates());
                old(self).used@.unique_seq_to_set();
                assert(old(self)@.len() > u32::MAX);
            }
            let r = u32::MAX;
            self.note(r);
            r
        }
    }
}

// ---------------------------------------------------------------------------
// Node constructors for the rewrite rules, at the model level.
// ---------------------------------------------------------------------------

pub open spec fn leaf(t: NodeType) -> Node {
    Node { tag: t, children: Seq::empty() }
}

pub open spec fn nvar(v: u32) -> Node {
    leaf(NodeType::Variable(v))
}

pub open spec fn empty_leaf() -> Node {
    leaf(NodeType::Constant(Constant::EmptySet))
}

pub open spec fn un(t: NodeType, a: Node) -> Node {
    Node { tag: t, children: seq![a] }
}

pub open spec fn bin(t: NodeType, a: Node, b: Node) -> Node {
    Node { tag: t, children: seq![a, b] }
}

pub open spec fn eln(a: Node, b: Node) -> Node {
    bin(NodeType::Relation(Relation::Element), a, b)
}

pub open spec fn eqn(a: Node, b: Node) -> Node {
    bin(NodeType::Relation(Relation::Equality), a, b)
}

pub open spec fn neg(a: Node) -> Node {
    un(NodeType::Connective(Connective::Negation), a)
}

pub open spec fn conj(a: Node, b: Node) -> Node {
    bin(NodeType::Connective(Connective::Conjunction), a, b)
}

pub open spec fn disj(a: Node, b: Node) -> Node {
    bin(NodeType::Connective(Connective::Disjunction), a, b)
}

pub open spec fn imp(a: Node, b: Node) -> Node {
    bin(NodeType::Connective(Connective::Implication), a, b)
}

pub open spec fn bic(a: Node, b: Node) -> Node {
    bin(NodeType::Connective(Connective::Biconditional), a, b)
}

pub open spec fn fa(v: u32, body: Node) -> Node {
    bin(NodeType::Quantifier(Quantifier::Universal), nvar(v), body)
}

pub open spec fn ex(v: u32, body: Node) -> Node {
    bin(NodeType::Quantifier(Quantifier::Existential), nvar(v), body)
}

// ---------------------------------------------------------------------------
// Switches, rule trigger classes, and the termination measure.
// ---------------------------------------------------------------------------

/// The switch of the configuration that governs this operator.
pub open spec fn op_switch(o: Operator, c: SetConfig) -> bool {
    match o {
        Operator::Singleton => c.singleton,
        Operator::PowerSet => c.power_set,
        Operator::BigUnion => c.big_union,
        Operator::BigIntersection => c.big_intersection,
        Operator::Union => c.union,
        Operator::Intersection => c.intersection,
        Operator::Difference => c.difference,
        Operator::PairSet => c.pair_set,
    }
}

/// The switch of the configuration that governs this constant.
pub open spec fn const_switch(k: Constant, c: SetConfig) -> bool {
    match k {
        Constant::EmptySet => c.empty_set,
        Constant::Omega => c.omega,
    }
}

/// A comprehension node of the expected shape: a membership-form child
/// (an element relation) and a predicate child.
pub open spec fn comp_shape(n: Node) -> bool {
    &&& n.tag == NodeType::Comprehension
    &&& n.children.len() == 2
    &&& n.children[0].tag == NodeType::Relation(Relation::Element)
    &&& n.children[0].children.len() == 2
}

/// A membership atom `x in B` whose right side decomposes in one step:
/// the two-operand operators and the big union and intersection.
pub open spec fn el_direct(b: Node, c: SetConfig) -> bool {
    match b.tag {
        NodeType::Operator(o) => match o {
            Operator::Union => c.union && b.children.len() == 2,
            Operator::Intersection => c.intersection && b.children.len() == 2,
            Operator::Difference => c.difference && b.children.len() == 2,
            Operator::PairSet => c.pair_set && b.children.len() == 2,
            Operator::BigUnion => c.big_union && b.children.len() == 1,
            Operator::BigIntersection => c.big_intersection && b.children.len() == 1,
            _ => false,
        },
        _ => false,
    }
}

/// A membership atom `x in B` whose right side is first named by an
/// equality: power sets, comprehensions and the constants.
pub open spec fn el_via_eq(b: Node, c: SetConfig) -> bool {
    match b.tag {
        NodeType::Operator(Operator::PowerSet) => c.power_set && b.children.len() == 1,
        NodeType::Comprehension => c.comprehension,
        NodeType::Constant(k) => const_switch(k, c),
        _ => false,
    }
}

/// A membership atom whose left side triggers the naming rule.
pub open spec fn el_left_trigger(a: Node, c: SetConfig) -> bool {
    match a.tag {
        NodeType::Operator(o) => o != Operator::Singleton && op_switch(o, c),
        NodeType::Comprehension => c.comprehension,
        NodeType::Constant(k) => const_switch(k, c),
        _ => false,
    }
}

/// A singleton operand due for rewriting into a comprehension.
pub open spec fn singleton_trigger(n: Node, c: SetConfig) -> bool {
    n.tag == NodeType::Operator(Operator::Singleton) && c.singleton && n.children.len() == 1
}

/// The termination weight of a node: rewrite rules strictly decrease the
/// summed weight of an atom's two sides, except for a bounded number of
/// equal-weight steps ordered by [`el_rank`].
pub open spec fn weight(n: Node) -> nat
    decreases n,
{
    match n.tag {
        NodeType::Variable(_) => 1 + weight_seq(n.children),
        NodeType::Constant(Constant::EmptySet) => 2 + weight_seq(n.children),
        NodeType::Constant(Constant::Omega) => 30 + weight_seq(n.children),
        NodeType::Operator(Operator::Singleton) => 12 + 3 * weight_seq(n.children),
        NodeType::Operator(Operator::PowerSet) => 3 + 2 * weight_seq(n.children),
        NodeType::Operator(Operator::BigIntersection) => 6 + weight_seq(n.children),
        _ => 2 + weight_seq(n.children),
    }
}

/// The summed weight of a sequence of nodes.
pub open spec fn weight_seq(s: Seq<Node>) -> nat
    decreases s,
{
    if s.len() == 0 {
        0
    } else {
        weight(s[0]) + weight_seq(s.drop_first())
    }
}

/// Every node weighs at least one.
pub broadcast proof fn lemma_weight_pos(n: Node)
    ensures
        #[trigger] weight(n) >= 1,
{
}

/// The secondary rank of a membership atom, ordering the equal-weight
/// rewrite steps: naming steps pass through an equality (rank 1) and end
/// in atoms of rank 0.
pub open spec fn el_rank(a: Node, b: Node, c: SetConfig) -> nat {
    if el_direct(b, c) {
        0
    } else if el_via_eq(b, c) {
        3
    } else if el_left_trigger(a, c) {
        3
    } else {
        0
    }
}

// ---------------------------------------------------------------------------
// The elimination engine, at the model level. `walk` traverses a formula;
// at each equality or membership atom the rules of the rewrite table fire,
// recursing over the operand structure until only primitive material (or
// material whose switch is off) remains. Fresh-variable allocation threads
// the used-identifier set through every step.
// ---------------------------------------------------------------------------

/// The singleton rewrite: `{x}` becomes the comprehension of the members
/// of the power set of `x` that are equal to `x`.
pub open spec fn compify(x: Node, used: Set<u32>) -> (Node, Set<u32>) {
    let v = fresh_id(used);
    (
        bin(
            NodeType::Comprehension,
            eln(nvar(v), un(NodeType::Operator(Operator::PowerSet), x)),
            eqn(nvar(v), x),
        ),
        used.insert(v),
    )
}

/// One full elimination traversal of a tree.
pub open spec fn walk(n: Node, c: SetConfig, used: Set<u32>) -> (Node, Set<u32>)
    decreases weight(n), 5nat,
    via walk_decreases
{
    if n.tag == NodeType::Relation(Relation::Element) && n.children.len() == 2 {
        atom_el(n.children[0], n.children[1], c, used)
    } else if n.tag == NodeType::Relation(Relation::Equality) && n.children.len() == 2 {
        atom_eq(n.children[0], n.children[1], c, used)
    } else if comp_shape(n) {
        let b = n.children[0].children[0];
        let (s2, u1) = walk(n.children[0].children[1], c, used);
        let (f2, u2) = walk(n.children[1], c, u1);
        (bin(NodeType::Comprehension, eln(b, s2), f2), u2)
    } else if singleton_trigger(n, c) {
        let (m, u1) = compify(n.children[0], used);
        walk(m, c, u1)
    } else {
        let (ch, u1) = walk_seq(n.children, c, used);
        (Node { tag: n.tag, children: ch }, u1)
    }
}

/// The elimination traversal of the children of a node, left to right.
pub open spec fn walk_seq(s: Seq<Node>, c: SetConfig, used: Set<u32>) -> (Seq<Node>, Set<u32>)
    decreases weight_seq(s), 6nat,
    via walk_seq_decreases
{
    if s.len() == 0 {
        (Seq::empty(), used)
    } else {
        let (h, u1) = walk(s[0], c, used);
        let (t, u2) = walk_seq(s.drop_first(), c, u1);
        (seq![h] + t, u2)
    }
}

/// A membership atom `a in b`, with every enabled construct eliminated.
pub open spec fn atom_el(a: Node, b: Node, c: SetConfig, used: Set<u32>) -> (Node, Set<u32>)
    decreases weight(a) + weight(b), el_rank(a, b, c),
    via atom_el_decreases
{
    if el_direct(b, c) {
        if b.tag == NodeType::Operator(Operator::Union) {
            let (l, u1) = atom_el(a, b.children[0], c, used);
            let (r, u2) = atom_el(a, b.children[1], c, u1);
            (disj(l, r), u2)
        } else if b.tag == NodeType::Operator(Operator::Intersection) {
            let (l, u1) = atom_el(a, b.children[0], c, used);
            let (r, u2) = atom_el(a, b.children[1], c, u1);
            (conj(l, r), u2)
        } else if b.tag == NodeType::Operator(Operator::Difference) {
            let (l, u1) = atom_el(a, b.children[0], c, used);
            let (r, u2) = atom_el(a, b.children[1], c, u1);
            (conj(l, neg(r)), u2)
        } else if b.tag == NodeType::Operator(Operator::PairSet) {
            let (l, u1) = atom_eq(a, b.children[0], c, used);
            let (r, u2) = atom_eq(a, b.children[1], c, u1);
            (disj(l, r), u2)
        } else if b.tag == NodeType::Operator(Operator::BigUnion) {
            let v = fresh_id(used);
            let (e1, u1) = atom_el(nvar(v), b.children[0], c, used.insert(v));
            let (e2, u2) = atom_el(a, nvar(v), c, u1);
            (ex(v, conj(e1, e2)), u2)
        } else {
            // big intersection: nonempty, and each of its members holds `a`
            let v = fresh_id(used);
            let (q, u1) = atom_eq(b.children[0], empty_leaf(), c, used.insert(v));
            let (e1, u2) = atom_el(nvar(v), b.children[0], c, u1);
            let (e2, u3) = atom_el(a, nvar(v), c, u2);
            (conj(neg(q), fa(v, imp(e1, e2))), u3)
        }
    } else if el_via_eq(b, c) {
        // name the right side: exists v (b = v and a in v)
        let v = fresh_id(used);
        let (e1, u1) = atom_eq(b, nvar(v), c, used.insert(v));
        let (e2, u2) = atom_el(a, nvar(v), c, u1);
        (ex(v, conj(e1, e2)), u2)
    } else if el_left_trigger(a, c) {
        // name the left side: exists v (a = v and v in b)
        let v = fresh_id(used);
        let (e1, u1) = atom_eq(a, nvar(v), c, used.insert(v));
        let (e2, u2) = atom_el(nvar(v), b, c, u1);
        (ex(v, conj(e1, e2)), u2)
    } else if singleton_trigger(a, c) {
        let (m, u1) = compify(a.children[0], used);
        atom_el(m, b, c, u1)
    } else if singleton_trigger(b, c) {
        let (m, u1) = compify(b.children[0], used);
        atom_el(a, m, c, u1)
    } else {
        let (ea, u1) = walk(a, c, used);
        let (eb, u2) = walk(b, c, u1);
        (eln(ea, eb), u2)
    }
}

/// An equality side that is a power set due for elimination.
pub open spec fn eq_pot_trigger(n: Node, c: SetConfig) -> bool {
    n.tag == NodeType::Operator(Operator::PowerSet) && c.power_set && n.children.len() == 1
}

/// An equality side rewritten by extensionality: the two-operand operators
/// and the big union and intersection.
pub open spec fn eq_ext_trigger(n: Node, c: SetConfig) -> bool {
    match n.tag {
        NodeType::Operator(o) => match o {
            Operator::BigIntersection => c.big_intersection,
            Operator::BigUnion => c.big_union,
            Operator::Intersection => c.intersection,
            Operator::Difference => c.difference,
            Operator::Union => c.union,
            Operator::PairSet => c.pair_set,
            _ => false,
        },
        _ => false,
    }
}

/// An equality atom `a = b`, with every enabled construct eliminated.
pub open spec fn atom_eq(a: Node, b: Node, c: SetConfig, used: Set<u32>) -> (Node, Set<u32>)
    decreases weight(a) + weight(b), 2nat,
    via atom_eq_decreases
{
    if eq_pot_trigger(a, c) {
        pot_rule(a.children[0], b, c, used)
    } else if eq_ext_trigger(a, c) {
        ext_rule(a, b, c, used)
    } else if comp_shape(a) && c.comprehension {
        comp_rule(a, b, c, used)
    } else if eq_pot_trigger(b, c) {
        pot_rule(b.children[0], a, c, used)
    } else if eq_ext_trigger(b, c) {
        ext_rule(a, b, c, used)
    } else if comp_shape(b) && c.comprehension {
        comp_rule(b, a, c, used)
    } else if a.tag == NodeType::Constant(Constant::EmptySet) && c.empty_set {
        empty_rule(b, c, used)
    } else if b.tag == NodeType::Constant(Constant::EmptySet) && c.empty_set {
        empty_rule(a, c, used)
    } else if a.tag == NodeType::Constant(Constant::Omega) && c.omega {
        omega_rule(b, c, used)
    } else if b.tag == NodeType::Constant(Constant::Omega) && c.omega {
        omega_rule(a, c, used)
    } else if singleton_trigger(a, c) {
        let (m, u1) = compify(a.children[0], used);
        atom_eq(m, b, c, u1)
    } else if singleton_trigger(b, c) {
        let (m, u1) = compify(b.children[0], used);
        atom_eq(a, m, c, u1)
    } else {
        let (ea, u1) = walk(a, c, used);
        let (eb, u2) = walk(b, c, u1);
        (eqn(ea, eb), u2)
    }
}

/// `Pot(x) = o` (either side): the members of `o` are the subsets of `x`.
pub open spec fn pot_rule(x: Node, o: Node, c: SetConfig, used: Set<u32>) -> (Node, Set<u32>)
    decreases 2 + 2 * weight(x) + weight(o), 4nat,
    via pot_rule_decreases
{
    let v = fresh_id(used);
    let u0 = used.insert(v);
    if c.subset {
        let w = fresh_id(u0);
        let u0b = u0.insert(w);
        let (e1, u1) = atom_el(nvar(v), o, c, u0b);
        let (e2, u2) = atom_el(nvar(w), x, c, u1);
        (fa(v, bic(e1, fa(w, imp(eln(nvar(w), nvar(v)), e2)))), u2)
    } else {
        let (e1, u1) = atom_el(nvar(v), o, c, u0);
        let (x2, u2) = walk(x, c, u1);
        (fa(v, bic(e1, bin(NodeType::Relation(Relation::Subset), nvar(v), x2))), u2)
    }
}

/// `a = b` with an operator side: extensionality over a fresh member.
pub open spec fn ext_rule(a: Node, b: Node, c: SetConfig, used: Set<u32>) -> (Node, Set<u32>)
    decreases weight(a) + weight(b), 1nat,
    when eq_ext_trigger(a, c) || eq_ext_trigger(b, c)
    via ext_rule_decreases
{
    let v = fresh_id(used);
    let (l, u1) = atom_el(nvar(v), a, c, used.insert(v));
    let (r, u2) = atom_el(nvar(v), b, c, u1);
    (fa(v, bic(l, r)), u2)
}

/// `m = o` with `m` a comprehension `{ y in s | phi }`: the members of `o`
/// are exactly the members of `s` satisfying the predicate.
pub open spec fn comp_rule(m: Node, o: Node, c: SetConfig, used: Set<u32>) -> (Node, Set<u32>)
    decreases weight(m) + weight(o), 1nat,
    when comp_shape(m)
    via comp_rule_decreases
{
    let y = m.children[0].children[0];
    let s = m.children[0].children[1];
    let phi = m.children[1];
    let (e1, u1) = atom_el(y, o, c, used);
    let (e2, u2) = atom_el(y, s, c, u1);
    let (f, u3) = walk(phi, c, u2);
    (
        Node {
            tag: NodeType::Quantifier(Quantifier::Universal),
            children: seq![y, bic(e1, conj(e2, f))],
        },
        u3,
    )
}

/// `x = empty set` (either side): nothing is a member of `x`.
pub open spec fn empty_rule(x: Node, c: SetConfig, used: Set<u32>) -> (Node, Set<u32>)
    decreases 1 + weight(x), 4nat,
    via empty_rule_decreases
{
    let v = fresh_id(used);
    let (e, u1) = atom_el(nvar(v), x, c, used.insert(v));
    (neg(ex(v, e)), u1)
}

/// `x = omega` (either side): `x` is inductive, holding the empty set and
/// the successor of each of its members.
pub open spec fn omega_rule(x: Node, c: SetConfig, used: Set<u32>) -> (Node, Set<u32>)
    decreases 29 + weight(x), 4nat,
    via omega_rule_decreases
{
    let v = fresh_id(used);
    let (a1, u1) = atom_el(empty_leaf(), x, c, used.insert(v));
    let (a2, u2) = atom_el(nvar(v), x, c, u1);
    let succ = bin(
        NodeType::Operator(Operator::Union),
        nvar(v),
        un(NodeType::Operator(Operator::Singleton), nvar(v)),
    );
    let (a3, u3) = atom_el(succ, x, c, u2);
    (conj(a1, fa(v, imp(a2, a3))), u3)
}

// ---------------------------------------------------------------------------
// Weight computations backing the termination measure of the engine.
// ---------------------------------------------------------------------------

/// Weight of a two-child sequence, childwise.
pub proof fn lemma_wseq2(s: Seq<Node>)
    requires
        s.len() == 2,
    ensures
        weight_seq(s) == weight(s[0]) + weight(s[1]),
{
    reveal_with_fuel(weight_seq, 3);
    assert(s.drop_first().len() == 1);
    assert(s.drop_first()[0] == s[1]);
    assert(s.drop_first().drop_first().len() == 0);
}

/// Weight of a one-child sequence.
pub proof fn lemma_wseq1(s: Seq<Node>)
    requires
        s.len() == 1,
    ensures
        weight_seq(s) == weight(s[0]),
{
    reveal_with_fuel(weight_seq, 2);
    assert(s.drop_first().len() == 0);
}

/// Weight of a freshly built variable leaf.
pub proof fn lemma_weight_var(v: u32)
    ensures
        weight(nvar(v)) == 1,
{
    assert(weight_seq(Seq::<Node>::empty()) == 0);
}

/// Weight of the empty-set leaf.
pub proof fn lemma_weight_empty()
    ensures
        weight(empty_leaf()) == 2,
{
    assert(weight_seq(Seq::<Node>::empty()) == 0);
}

/// Weight of the comprehension that replaces a singleton.
pub proof fn lemma_compify_weight(x: Node, used: Set<u32>)
    ensures
        weight(compify(x, used).0) == 11 + 3 * weight(x),
{
    let v = fresh_id(used);
    let p = un(NodeType::Operator(Operator::PowerSet), x);
    let e = eln(nvar(v), p);
    let q = eqn(nvar(v), x);
    let m = compify(x, used).0;
    lemma_weight_var(v);
    lemma_wseq1(p.children);
    assert(weight(p) == 3 + 2 * weight(x));
    lemma_wseq2(e.children);
    assert(weight(e) == 6 + 2 * weight(x));
    lemma_wseq2(q.children);
    assert(weight(q) == 3 + weight(x));
    lemma_wseq2(m.children);
    assert(m.children[0] == e && m.children[1] == q);
    assert(weight(m) == 2 + weight(e) + weight(q));
}

/// Weight of the successor expression of the omega rule.
pub proof fn lemma_weight_succ(v: u32)
    ensures
        weight(
            bin(
                NodeType::Operator(Operator::Union),
                nvar(v),
                un(NodeType::Operator(Operator::Singleton), nvar(v)),
            ),
        ) == 18,
{
    let s = un(NodeType::Operator(Operator::Singleton), nvar(v));
    let u = bin(NodeType::Operator(Operator::Union), nvar(v), s);
    lemma_weight_var(v);
    lemma_wseq1(s.children);
    assert(weight(s) == 15);
    lemma_wseq2(u.children);
}

#[via_fn]
proof fn walk_decreases(n: Node, c: SetConfig, used: Set<u32>) {
    broadcast use lemma_weight_pos;

    if n.children.len() == 2 {
        lemma_wseq2(n.children);
    }
    if comp_shape(n) {
        lemma_wseq2(n.children[0].children);
    }
    if singleton_trigger(n, c) {
        lemma_wseq1(n.children);
        lemma_compify_weight(n.children[0], used);
    }
}

#[via_fn]
proof fn walk_seq_decreases(s: Seq<Node>, c: SetConfig, used: Set<u32>) {
    if s.len() > 0 {
        lemma_weight_pos(s[0]);
    }
}

#[via_fn]
proof fn atom_el_decreases(a: Node, b: Node, c: SetConfig, used: Set<u32>) {
    broadcast use lemma_weight_pos;

    if a.children.len() == 1 {
        lemma_wseq1(a.children);
    }
    if b.children.len() == 1 {
        lemma_wseq1(b.children);
    }
    if b.children.len() == 2 {
        lemma_wseq2(b.children);
    }
    lemma_weight_var(fresh_id(used));
    lemma_weight_empty();
    if singleton_trigger(a, c) {
        lemma_compify_weight(a.children[0], used);
    }
    if singleton_trigger(b, c) {
        lemma_compify_weight(b.children[0], used);
    }
}

#[via_fn]
proof fn atom_eq_decreases(a: Node, b: Node, c: SetConfig, used: Set<u32>) {
    broadcast use lemma_weight_pos;

    if a.children.len() == 1 {
        lemma_wseq1(a.children);
    }
    if b.children.len() == 1 {
        lemma_wseq1(b.children);
    }
    if singleton_trigger(a, c) {
        lemma_compify_weight(a.children[0], used);
    }
    if singleton_trigger(b, c) {
        lemma_compify_weight(b.children[0], used);
    }
}

#[via_fn]
proof fn pot_rule_decreases(x: Node, o: Node, c: SetConfig, used: Set<u32>) {
    broadcast use lemma_weight_pos;

    lemma_weight_var(fresh_id(used));
    lemma_weight_var(fresh_id(used.insert(fresh_id(used))));
}

#[via_fn]
proof fn ext_rule_decreases(a: Node, b: Node, c: SetConfig, used: Set<u32>) {
    broadcast use lemma_weight_pos;

    lemma_weight_var(fresh_id(used));
    // A triggering side weighs at least two, whatever its arity.
    if a.children.len() == 1 {
        lemma_wseq1(a.children);
    }
    if b.children.len() == 1 {
        lemma_wseq1(b.children);
    }
}

#[via_fn]
proof fn comp_rule_decreases(m: Node, o: Node, c: SetConfig, used: Set<u32>) {
    broadcast use lemma_weight_pos;

    if comp_shape(m) {
        lemma_wseq2(m.children);
        lemma_wseq2(m.children[0].children);
    }
}

#[via_fn]
proof fn empty_rule_decreases(x: Node, c: SetConfig, used: Set<u32>) {
    lemma_weight_var(fresh_id(used));
}

#[via_fn]
proof fn omega_rule_decreases(x: Node, c: SetConfig, used: Set<u32>) {
    broadcast use lemma_weight_pos;

    let v = fresh_id(used);
    lemma_weight_var(v);
    lemma_weight_empty();
    lemma_weight_succ(v);
}

// ---------------------------------------------------------------------------
// The remaining passes at the model level: negated relations, subset
// elimination, and variable canonicalization.
// ---------------------------------------------------------------------------

/// Negated-relation elimination: rewrites each negated relation into the
/// negation of the plain one, bottom up.
pub open spec fn negrel(n: Node) -> Node
    decreases n,
{
    let ch = negrel_seq(n.children);
    match n.tag {
        NodeType::Relation(Relation::NotEqual) => neg(
            Node { tag: NodeType::Relation(Relation::Equality), children: ch },
        ),
        NodeType::Relation(Relation::NotElement) => neg(
            Node { tag: NodeType::Relation(Relation::Element), children: ch },
        ),
        NodeType::Relation(Relation::NotSubset) => neg(
            Node { tag: NodeType::Relation(Relation::Subset), children: ch },
        ),
        _ => Node { tag: n.tag, children: ch },
    }
}

/// Negated-relation elimination over children, left to right.
pub open spec fn negrel_seq(s: Seq<Node>) -> Seq<Node>
    decreases s,
{
    if s.len() == 0 {
        Seq::empty()
    } else {
        seq![negrel(s[0])] + negrel_seq(s.drop_first())
    }
}

/// Subset elimination: `A subset B` becomes `forall v (v in A -> v in B)`
/// for a fresh `v`, bottom up, threading the used-identifier set.
pub open spec fn subset_p(n: Node, used: Set<u32>) -> (Node, Set<u32>)
    decreases n,
{
    let (ch, u1) = subset_seq(n.children, used);
    if n.tag == NodeType::Relation(Relation::Subset) && ch.len() == 2 {
        let v = fresh_id(u1);
        (fa(v, imp(eln(nvar(v), ch[0]), eln(nvar(v), ch[1]))), u1.insert(v))
    } else {
        (Node { tag: n.tag, children: ch }, u1)
    }
}

/// Subset elimination over children, left to right.
pub open spec fn subset_seq(s: Seq<Node>, used: Set<u32>) -> (Seq<Node>, Set<u32>)
    decreases s,
{
    if s.len() == 0 {
        (Seq::empty(), used)
    } else {
        let (h, u1) = subset_p(s[0], used);
        let (t, u2) = subset_seq(s.drop_first(), u1);
        (seq![h] + t, u2)
    }
}

/// An identifier in the high range that encodes a letter-named variable:
/// the maximum representable value minus the letter's code point.
pub open spec fn letter_id(v: u32) -> bool {
    (v < u32::MAX - 55 && v > u32::MAX - 91) || (v < u32::MAX - 96 && v > u32::MAX - 123)
}

/// The least element of a set of identifiers.
pub open spec fn set_min(s: Set<u32>) -> u32 {
    choose|m: u32| s.contains(m) && forall|x: u32| s.contains(x) ==> m <= x
}

/// A finite nonempty set of identifiers has a least element.
pub proof fn lemma_set_min(s: Set<u32>)
    requires
        s.finite(),
        s.len() > 0,
    ensures
        s.contains(set_min(s)),
        forall|x: u32| s.contains(x) ==> set_min(s) <= x,
    decreases s.len(),
{
    let e = s.choose();
    assert(s.contains(e));
    let rest = s.remove(e);
    if rest.len() == 0 {
        assert forall|x: u32| s.contains(x) implies e <= x by {
            if x != e {
                assert(rest.contains(x));
                assert(rest.remove(x).len() < rest.len());
            }
        }
        assert(s.contains(e) && forall|x: u32| s.contains(x) ==> e <= x);
    } else {
        lemma_set_min(rest);
        let m0 = set_min(rest);
        let m = if e < m0 { e } else { m0 };
        assert(s.contains(m));
        assert forall|x: u32| s.contains(x) implies m <= x by {
            if x != e {
                assert(rest.contains(x));
            }
        }
    }
}

/// The ascending sequence of the elements of a finite identifier set.
pub open spec fn asc_seq(s: Set<u32>) -> Seq<u32>
    decreases s.len() when s.finite() via asc_seq_decreases
{
    if !s.finite() || s.len() == 0 {
        Seq::empty()
    } else {
        seq![set_min(s)] + asc_seq(s.remove(set_min(s)))
    }
}

#[via_fn]
proof fn asc_seq_decreases(s: Set<u32>) {
    if s.finite() && s.len() > 0 {
        lemma_set_min(s);
    }
}

/// Allocates `k` fresh identifiers, returned in descending order.
pub open spec fn fresh_batch(used: Set<u32>, k: nat) -> (Seq<u32>, Set<u32>)
    decreases k,
{
    if k == 0 {
        (Seq::empty(), used)
    } else {
        let v = fresh_id(used);
        let (rest, u2) = fresh_batch(used.insert(v), (k - 1) as nat);
        (rest.push(v), u2)
    }
}

/// The renaming that sends the i-th letter identifier (ascending) to the
/// i-th freshly allocated identifier (descending).
pub open spec fn canon_map(rel: Seq<u32>, news: Seq<u32>) -> Map<u32, u32>
    decreases rel.len(),
{
    if rel.len() == 0 || news.len() == 0 {
        Map::empty()
    } else {
        canon_map(rel.drop_first(), news.drop_first()).insert(rel[0], news[0])
    }
}

/// Renames every variable identifier in the map's domain.
pub open spec fn rename(n: Node, m: Map<u32, u32>) -> Node
    decreases n,
{
    let ch = rename_seq(n.children, m);
    match n.tag {
        NodeType::Variable(v) => Node {
            tag: NodeType::Variable(if m.dom().contains(v) { m[v] } else { v }),
            children: ch,
        },
        _ => Node { tag: n.tag, children: ch },
    }
}

/// Renaming over children, left to right.
pub open spec fn rename_seq(s: Seq<Node>, m: Map<u32, u32>) -> Seq<Node>
    decreases s,
{
    if s.len() == 0 {
        Seq::empty()
    } else {
        seq![rename(s[0], m)] + rename_seq(s.drop_first(), m)
    }
}

/// Variable canonicalization: maps each letter-named identifier to a fresh
/// low-range identifier and substitutes throughout; the used set becomes
/// the identifiers of the renamed tree.
pub open spec fn canon(n: Node, used: Set<u32>) -> (Node, Set<u32>) {
    let rel = asc_seq(used.filter(|v: u32| letter_id(v)));
    let (news, _) = fresh_batch(used, rel.len());
    let n2 = rename(n, canon_map(rel, news));
    (n2, ids_of(n2))
}

/// The whole transformation: variable canonicalization, negated-relation
/// elimination, subset elimination, then the elimination engine, each step
/// as its switches direct.
pub open spec fn transform_spec(n: Node, c: SetConfig) -> Node {
    let u0 = ids_of(n);
    let (n1, u1) = if c.variables { canon(n, u0) } else { (n, u0) };
    let n2 = if c.negated_relations { negrel(n1) } else { n1 };
    let (n3, u3) = if c.subset { subset_p(n2, u1) } else { (n2, u1) };
    walk(n3, c, u3).0
}

// ---------------------------------------------------------------------------
// Executable node construction and identifier collection.
// ---------------------------------------------------------------------------

/// Builds a childless node.
pub(crate) fn mk_leaf(t: NodeType) -> (r: SyntaxNode)
    ensures
        r@ == leaf(t),
{
    let r = SyntaxNode { entry: t, children: Vec::new() };
    proof {
        lemma_views_of(r.children@);
        assert(r@.children =~= Seq::<Node>::empty());
    }
    r
}

/// Builds a one-child node.
pub(crate) fn mk1(t: NodeType, a: SyntaxNode) -> (r: SyntaxNode)
    ensures
        r@ == un(t, a@),
{
    let mut children: Vec<SyntaxNode> = Vec::new();
    children.push(a);
    let r = SyntaxNode { entry: t, children };
    proof {
        lemma_views_of(r.children@);
        assert(r@.children =~= un(t, r.children@[0]@).children);
    }
    r
}

/// Builds a two-child node.
pub(crate) fn mk2(t: NodeType, a: SyntaxNode, b: SyntaxNode) -> (r: SyntaxNode)
    ensures
        r@ == bin(t, a@, b@),
{
    let ghost av = a@;
    let ghost bv = b@;
    let mut children: Vec<SyntaxNode> = Vec::new();
    children.push(a);
    children.push(b);
    let r = SyntaxNode { entry: t, children };
    proof {
        lemma_views_of(r.children@);
        assert(r@.children =~= bin(t, av, bv).children);
    }
    r
}

/// Identifier sets of concatenated forests combine by union.
pub proof fn lemma_ids_seq_app(a: Seq<Node>, b: Seq<Node>)
    ensures
        ids_of_seq(a + b) == ids_of_seq(a).union(ids_of_seq(b)),
    decreases a,
{
    if a.len() == 0 {
        assert(a + b =~= b);
        assert(ids_of_seq(a + b) =~= ids_of_seq(a).union(ids_of_seq(b)));
    } else {
        assert((a + b).drop_first() =~= a.drop_first() + b);
        assert((a + b)[0] == a[0]);
        lemma_ids_seq_app(a.drop_first(), b);
        assert(ids_of_seq(a + b) =~= ids_of_seq(a).union(ids_of_seq(b)));
    }
}

impl IndexPool {
    /// Records every identifier occurring in the tree.
    pub fn collect(&mut self, n: &SyntaxNode)
        requires
            old(self).wf(),
        ensures
            final(self).wf(),
            final(self)@ == old(self)@.union(ids_of(n@)),
        decreases *n,
    {
        let ghost s = n@.children;
        proof {
            lemma_views_of(n.children@);
        }
        if let NodeType::Variable(v) = n.entry {
            self.note(v);
        }
        let mut i: usize = 0;
        while i < n.children.len()
            invariant
                self.wf(),
                i <= n.children.len(),
                s == n@.children,
                s.len() == n.children@.len(),
                forall|j: int| 0 <= j < s.len() ==> s[j] == n.children@[j]@,
                self@ == (match n.entry {
                    NodeType::Variable(v) => old(self)@.insert(v),
                    _ => old(self)@,
                }).union(ids_of_seq(s.take(i as int))),
            decreases n.children@.len() - i,
        {
            proof {
                assert(ids_of_seq(s.take(0)) =~= Set::<u32>::empty());
            }
            let ghost before = self@;
            self.collect(&n.children[i]);
            proof {
                assert(s.take(i + 1) =~= s.take(i as int) + seq![s[i as int]]);
                lemma_ids_seq_app(s.take(i as int), seq![s[i as int]]);
                assert(ids_of_seq(seq![s[i as int]].drop_first()) =~= Set::<u32>::empty());
                assert(ids_of_seq(seq![s[i as int]]) =~= ids_of(s[i as int]));
                assert(self@ =~= (match n.entry {
                    NodeType::Variable(v) => old(self)@.insert(v),
                    _ => old(self)@,
                }).union(ids_of_seq(s.take(i + 1))));
            }
            i = i + 1;
        }
        proof {
            assert(ids_of_seq(s.take(0)) =~= Set::<u32>::empty());
            assert(s.take(s.len() as int) =~= s);
            match n.entry {
                NodeType::Variable(v) => {
                    assert(n@.tag == NodeType::Variable(v));
                    assert(self@ =~= old(self)@.union(ids_of(n@)));
                },
                _ => {
                    assert(self@ =~= old(self)@.union(ids_of(n@)));
                },
            }
        }
    }
}

// ---------------------------------------------------------------------------
// Executable passes: negated relations and subset elimination.
// ---------------------------------------------------------------------------

/// Negated-relation elimination over a tree.
fn negrel_nodes(n: &SyntaxNode) -> (r: SyntaxNode)
    ensures
        r@ == negrel(n@),
    decreases *n,
{
    let ghost s = n@.children;
    proof {
        lemma_views_of(n.children@);
    }
    let mut ch: Vec<SyntaxNode> = Vec::new();
    proof {
        lemma_views_of(ch@);
        assert(views_of(ch@) =~= negrel_seq(s).take(0));
    }
    let mut i: usize = 0;
    while i < n.children.len()
        invariant
            i <= n.children.len(),
            s == n@.children,
            s.len() == n.children@.len(),
            forall|j: int| 0 <= j < s.len() ==> s[j] == n.children@[j]@,
            views_of(ch@) == negrel_seq(s).take(i as int),
            ch@.len() == i,
        decreases n.children@.len() - i,
    {
        let c = negrel_nodes(&n.children[i]);
        let ghost prev = ch@;
        ch.push(c);
        proof {
            lemma_views_of(prev);
            lemma_views_of(ch@);
            lemma_negrel_seq(s);
            assert(views_of(ch@) =~= negrel_seq(s).take(i + 1));
        }
        i = i + 1;
    }
    proof {
        lemma_views_of(ch@);
        lemma_negrel_seq(s);
        assert(views_of(ch@) =~= negrel_seq(s));
    }
    let rebuilt = SyntaxNode { entry: n.entry, children: ch };
    match rebuilt.entry {
        NodeType::Relation(Relation::NotEqual) => {
            let inner = SyntaxNode { entry: NodeType::Relation(Relation::Equality), children: rebuilt.children };
            mk1(NodeType::Connective(Connective::Negation), inner)
        },
        NodeType::Relation(Relation::NotElement) => {
            let inner = SyntaxNode { entry: NodeType::Relation(Relation::Element), children: rebuilt.children };
            mk1(NodeType::Connective(Connective::Negation), inner)
        },
        NodeType::Relation(Relation::NotSubset) => {
            let inner = SyntaxNode { entry: NodeType::Relation(Relation::Subset), children: rebuilt.children };
            mk1(NodeType::Connective(Connective::Negation), inner)
        },
        _ => rebuilt,
    }
}

/// The elements of the rewritten forest, elementwise.
pub proof fn lemma_negrel_seq(s: Seq<Node>)
    ensures
        negrel_seq(s).len() == s.len(),
        forall|i: int| 0 <= i < s.len() ==> negrel_seq(s)[i] == negrel(s[i]),
    decreases s,
{
    if s.len() > 0 {
        lemma_negrel_seq(s.drop_first());
    }
}

/// Subset elimination over a tree, threading the allocator.
fn subset_nodes(n: &SyntaxNode, pool: &mut IndexPool) -> (r: SyntaxNode)
    requires
        old(pool).wf(),
    ensures
        final(pool).wf(),
        r@ == subset_p(n@, old(pool)@).0,
        final(pool)@ == subset_p(n@, old(pool)@).1,
    decreases *n,
{
    let ghost s = n@.children;
    let ghost u0 = pool@;
    proof {
        lemma_views_of(n.children@);
    }
    let mut ch: Vec<SyntaxNode> = Vec::new();
    proof {
        lemma_views_of(ch@);
        assert(s.skip(0) =~= s);
        assert(views_of(ch@) + subset_seq(s, u0).0 =~= subset_seq(s, u0).0);
    }
    let mut i: usize = 0;
    while i < n.children.len()
        invariant
            pool.wf(),
            i <= n.children.len(),
            s == n@.children,
            s.len() == n.children@.len(),
            forall|j: int| 0 <= j < s.len() ==> s[j] == n.children@[j]@,
            ch@.len() == i,
            views_of(ch@) + subset_seq(s.skip(i as int), pool@).0 == subset_seq(s, u0).0,
            subset_seq(s.skip(i as int), pool@).1 == subset_seq(s, u0).1,
        decreases n.children@.len() - i,
    {
        proof {
            lemma_views_of(ch@);
            assert(s.skip(0) =~= s);
        }
        let ghost ub = pool@;
        let c = subset_nodes(&n.children[i], pool);
        let ghost prev = ch@;
        ch.push(c);
        proof {
            lemma_views_of(prev);
            lemma_views_of(ch@);
            assert(views_of(ch@) =~= views_of(prev) + seq![c@]);
            assert(s.skip(i as int)[0] == s[i as int]);
            assert(s.skip(i as int).drop_first() =~= s.skip(i + 1));
            assert(c@ == subset_p(s[i as int], ub).0);
            assert(subset_seq(s.skip(i as int), ub).0 == seq![c@] + subset_seq(s.skip(i + 1), pool@).0);
            assert(views_of(ch@) + subset_seq(s.skip(i + 1), pool@).0 =~= subset_seq(s, u0).0);
        }
        i = i + 1;
    }
    proof {
        lemma_views_of(ch@);
        assert(s.skip(0) =~= s);
        assert(s.skip(s.len() as int) =~= Seq::<Node>::empty());
        assert(views_of(ch@) =~= subset_seq(s, u0).0);
    }
    let is_subset = match n.entry {
        NodeType::Relation(Relation::Subset) => true,
        _ => false,
    };
    if is_subset && ch.len() == 2 {
        let b = ch.pop().unwrap();
        let a = ch.pop().unwrap();
        proof {
            lemma_views_of(ch@);
        }
        let v = pool.fresh();
        let ante = mk2(NodeType::Relation(Relation::Element), mk_leaf(NodeType::Variable(v)), a);
        let cons = mk2(NodeType::Relation(Relation::Element), mk_leaf(NodeType::Variable(v)), b);
        let im = mk2(NodeType::Connective(Connective::Implication), ante, cons);
        let r = mk2(NodeType::Quantifier(Quantifier::Universal), mk_leaf(NodeType::Variable(v)), im);
        proof {
            assert(subset_seq(s, u0).0[0] == a@ && subset_seq(s, u0).0[1] == b@);
        }
        r
    } else {
        let r = SyntaxNode { entry: n.entry, children: ch };
        proof {
            lemma_views_of(r.children@);
            assert(r@.children =~= subset_seq(s, u0).0);
        }
        r
    }
}

// ---------------------------------------------------------------------------
// Executable dispatch tests and child extraction for the engine.
// ---------------------------------------------------------------------------

/// Splits a two-element child vector into its elements.
fn take2(v: Vec<SyntaxNode>) -> (p: (SyntaxNode, SyntaxNode))
    requires
        v@.len() == 2,
    ensures
        p.0@ == v@[0]@,
        p.1@ == v@[1]@,
{
    let mut v = v;
    let b = v.remove(1);
    let a = v.remove(0);
    (a, b)
}

/// Extracts the only element of a one-element child vector.
fn take1(v: Vec<SyntaxNode>) -> (r: SyntaxNode)
    requires
        v@.len() == 1,
    ensures
        r@ == v@[0]@,
{
    let mut v = v;
    v.remove(0)
}

fn chk_comp_shape(n: &SyntaxNode) -> (r: bool)
    ensures
        r == comp_shape(n@),
{
    proof {
        lemma_views_of(n.children@);
    }
    if !(matches!(n.entry, NodeType::Comprehension) && n.children.len() == 2) {
        return false;
    }
    proof {
        lemma_views_of(n.children[0].children@);
    }
    matches!(n.children[0].entry, NodeType::Relation(Relation::Element))
        && n.children[0].children.len() == 2
}

fn chk_el_direct(b: &SyntaxNode, c: &SetConfig) -> (r: bool)
    ensures
        r == el_direct(b@, *c),
{
    proof {
        lemma_views_of(b.children@);
    }
    match b.entry {
        NodeType::Operator(Operator::Union) => c.union && b.children.len() == 2,
        NodeType::Operator(Operator::Intersection) => c.intersection && b.children.len() == 2,
        NodeType::Operator(Operator::Difference) => c.difference && b.children.len() == 2,
        NodeType::Operator(Operator::PairSet) => c.pair_set && b.children.len() == 2,
        NodeType::Operator(Operator::BigUnion) => c.big_union && b.children.len() == 1,
        NodeType::Operator(Operator::BigIntersection) => c.big_intersection && b.children.len() == 1,
        _ => false,
    }
}

fn chk_el_via_eq(b: &SyntaxNode, c: &SetConfig) -> (r: bool)
    ensures
        r == el_via_eq(b@, *c),
{
    proof {
        lemma_views_of(b.children@);
    }
    match b.entry {
        NodeType::Operator(Operator::PowerSet) => c.power_set && b.children.len() == 1,
        NodeType::Comprehension => c.comprehension,
        NodeType::Constant(Constant::EmptySet) => c.empty_set,
        NodeType::Constant(Constant::Omega) => c.omega,
        _ => false,
    }
}

fn chk_el_left(a: &SyntaxNode, c: &SetConfig) -> (r: bool)
    ensures
        r == el_left_trigger(a@, *c),
{
    match a.entry {
        NodeType::Operator(Operator::Singleton) => false,
        NodeType::Operator(Operator::PowerSet) => c.power_set,
        NodeType::Operator(Operator::BigUnion) => c.big_union,
        NodeType::Operator(Operator::BigIntersection) => c.big_intersection,
        NodeType::Operator(Operator::Union) => c.union,
        NodeType::Operator(Operator::Intersection) => c.intersection,
        NodeType::Operator(Operator::Difference) => c.difference,
        NodeType::Operator(Operator::PairSet) => c.pair_set,
        NodeType::Comprehension => c.comprehension,
        NodeType::Constant(Constant::EmptySet) => c.empty_set,
        NodeType::Constant(Constant::Omega) => c.omega,
        _ => false,
    }
}

fn chk_singleton(n: &SyntaxNode, c: &SetConfig) -> (r: bool)
    ensures
        r == singleton_trigger(n@, *c),
{
    proof {
        lemma_views_of(n.children@);
    }
    matches!(n.entry, NodeType::Operator(Operator::Singleton)) && c.singleton
        && n.children.len() == 1
}

fn chk_eq_pot(n: &SyntaxNode, c: &SetConfig) -> (r: bool)
    ensures
        r == eq_pot_trigger(n@, *c),
{
    proof {
        lemma_views_of(n.children@);
    }
    matches!(n.entry, NodeType::Operator(Operator::PowerSet)) && c.power_set
        && n.children.len() == 1
}

fn chk_eq_ext(n: &SyntaxNode, c: &SetConfig) -> (r: bool)
    ensures
        r == eq_ext_trigger(n@, *c),
{
    match n.entry {
        NodeType::Operator(Operator::BigIntersection) => c.big_intersection,
        NodeType::Operator(Operator::BigUnion) => c.big_union,
        NodeType::Operator(Operator::Intersection) => c.intersection,
        NodeType::Operator(Operator::Difference) => c.difference,
        NodeType::Operator(Operator::Union) => c.union,
        NodeType::Operator(Operator::PairSet) => c.pair_set,
        _ => false,
    }
}

/// The executable singleton rewrite.
fn compify_node(x: SyntaxNode, pool: &mut IndexPool) -> (r: SyntaxNode)
    requires
        old(pool).wf(),
    ensures
        final(pool).wf(),
        r@ == compify(x@, old(pool)@).0,
        final(pool)@ == compify(x@, old(pool)@).1,
{
    let v = pool.fresh();
    let p = mk1(NodeType::Operator(Operator::PowerSet), x.clone());
    let e = mk2(NodeType::Relation(Relation::Element), mk_leaf(NodeType::Variable(v)), p);
    let q = mk2(NodeType::Relation(Relation::Equality), mk_leaf(NodeType::Variable(v)), x);
    mk2(NodeType::Comprehension, e, q)
}

/// A child's weight is at most the forest's.
pub proof fn lemma_wseq_ge(s: Seq<Node>, i: int)
    requires
        0 <= i < s.len(),
    ensures
        weight_seq(s) >= weight(s[i]),
    decreases s,
{
    if i > 0 {
        lemma_wseq_ge(s.drop_first(), i - 1);
    } else {
        broadcast use lemma_weight_pos;

    }
}

// ---------------------------------------------------------------------------
// The executable elimination engine, mirroring `walk`, `atom_el`, `atom_eq`
// and the rule functions step for step.
// ---------------------------------------------------------------------------

/// One full elimination traversal of a tree.
fn walk_nodes(n: SyntaxNode, c: SetConfig, pool: &mut IndexPool) -> (r: SyntaxNode)
    requires
        old(pool).wf(),
    ensures
        final(pool).wf(),
        r@ == walk(n@, c, old(pool)@).0,
        final(pool)@ == walk(n@, c, old(pool)@).1,
    decreases weight(n@), 5nat,
{
    let ghost nv = n@;
    let ghost u0 = pool@;
    proof {
        lemma_views_of(n.children@);
    }
    let is_el = matches!(n.entry, NodeType::Relation(Relation::Element));
    let is_eq = matches!(n.entry, NodeType::Relation(Relation::Equality));
    if (is_el || is_eq) && n.children.len() == 2 {
        proof {
            lemma_wseq2(nv.children);
        }
        let (a, b) = take2(n.children);
        if is_el {
            atom_el_nodes(a, b, c, pool)
        } else {
            atom_eq_nodes(a, b, c, pool)
        }
    } else if chk_comp_shape(&n) {
        proof {
            lemma_wseq2(nv.children);
            lemma_wseq2(nv.children[0].children);
            broadcast use lemma_weight_pos;

            lemma_views_of(n.children[0].children@);
        }
        let (spec0, phi) = take2(n.children);
        proof {
            lemma_views_of(spec0.children@);
            assert(spec0@ == nv.children[0]);
        }
        let (bvar, s_expr) = take2(spec0.children);
        proof {
            assert(s_expr@ == nv.children[0].children[1]);
            assert(phi@ == nv.children[1]);
        }
        let s2 = walk_nodes(s_expr, c, pool);
        let f2 = walk_nodes(phi, c, pool);
        mk2(
            NodeType::Comprehension,
            mk2(NodeType::Relation(Relation::Element), bvar, s2),
            f2,
        )
    } else if chk_singleton(&n, &c) {
        proof {
            lemma_wseq1(nv.children);
            lemma_compify_weight(nv.children[0], u0);
        }
        let x = take1(n.children);
        let m = compify_node(x, pool);
        walk_nodes(m, c, pool)
    } else {
        let ghost s = nv.children;
        let entry = n.entry;
        proof {
            assert(weight(nv) > weight_seq(s));
        }
        let ch = walk_children(n.children, c, pool);
        proof {
            lemma_views_of(ch@);
        }
        let r = SyntaxNode { entry, children: ch };
        proof {
            lemma_views_of(r.children@);
            assert(r@.children == views_of(ch@));
        }
        r
    }
}

/// Elimination over a child vector, mirroring `walk_seq`.
fn walk_children(rest: Vec<SyntaxNode>, c: SetConfig, pool: &mut IndexPool) -> (r: Vec<SyntaxNode>)
    requires
        old(pool).wf(),
    ensures
        final(pool).wf(),
        views_of(r@) == walk_seq(views_of(rest@), c, old(pool)@).0,
        final(pool)@ == walk_seq(views_of(rest@), c, old(pool)@).1,
    decreases weight_seq(views_of(rest@)), 6nat,
{
    let ghost s = views_of(rest@);
    let ghost u0 = pool@;
    proof {
        lemma_views_of(rest@);
        broadcast use lemma_weight_pos;

    }
    if rest.len() == 0 {
        let r: Vec<SyntaxNode> = Vec::new();
        proof {
            lemma_views_of(r@);
            assert(views_of(r@) =~= walk_seq(s, c, u0).0);
        }
        r
    } else {
        let mut rest = rest;
        let ghost restv = rest@;
        let head = rest.remove(0);
        proof {
            assert(head == restv[0]);
            assert(head@ == s[0]);
            lemma_views_of(rest@);
            assert(views_of(rest@) =~= s.drop_first());
            lemma_wseq_ge(s, 0);
        }
        let h2 = walk_nodes(head, c, pool);
        let mut tl = walk_children(rest, c, pool);
        let ghost tlv = tl@;
        tl.insert(0, h2);
        proof {
            lemma_views_of(tlv);
            lemma_views_of(tl@);
            assert(views_of(tl@) =~= seq![h2@] + views_of(tlv));
            assert(views_of(tl@) =~= walk_seq(s, c, u0).0);
        }
        tl
    }
}

/// A membership atom, executable.
fn atom_el_nodes(a: SyntaxNode, b: SyntaxNode, c: SetConfig, pool: &mut IndexPool) -> (r: SyntaxNode)
    requires
        old(pool).wf(),
    ensures
        final(pool).wf(),
        r@ == atom_el(a@, b@, c, old(pool)@).0,
        final(pool)@ == atom_el(a@, b@, c, old(pool)@).1,
    decreases weight(a@) + weight(b@), el_rank(a@, b@, c),
{
    let ghost av = a@;
    let ghost bv = b@;
    let ghost u0 = pool@;
    proof {
        broadcast use lemma_weight_pos;

        lemma_views_of(a.children@);
        lemma_views_of(b.children@);
        if av.children.len() == 1 {
            lemma_wseq1(av.children);
        }
        if av.children.len() == 2 {
            lemma_wseq2(av.children);
        }
        if bv.children.len() == 1 {
            lemma_wseq1(bv.children);
        }
        if bv.children.len() == 2 {
            lemma_wseq2(bv.children);
        }
        lemma_weight_var(fresh_id(u0));
        lemma_weight_empty();
    }
    if chk_el_direct(&b, &c) {
        let op = match b.entry {
            NodeType::Operator(o) => o,
            _ => Operator::Union,
        };
        match op {
            Operator::Union => {
                let (cc, dd) = take2(b.children);
                let l = atom_el_nodes(a.clone(), cc, c, pool);
                let r = atom_el_nodes(a, dd, c, pool);
                mk2(NodeType::Connective(Connective::Disjunction), l, r)
            },
            Operator::Intersection => {
                let (cc, dd) = take2(b.children);
                let l = atom_el_nodes(a.clone(), cc, c, pool);
                let r = atom_el_nodes(a, dd, c, pool);
                mk2(NodeType::Connective(Connective::Conjunction), l, r)
            },
            Operator::Difference => {
                let (cc, dd) = take2(b.children);
                let l = atom_el_nodes(a.clone(), cc, c, pool);
                let r = atom_el_nodes(a, dd, c, pool);
                mk2(
                    NodeType::Connective(Connective::Conjunction),
                    l,
                    mk1(NodeType::Connective(Connective::Negation), r),
                )
            },
            Operator::PairSet => {
                let (cc, dd) = take2(b.children);
                let l = atom_eq_nodes(a.clone(), cc, c, pool);
                let r = atom_eq_nodes(a, dd, c, pool);
                mk2(NodeType::Connective(Connective::Disjunction), l, r)
            },
            Operator::BigUnion => {
                let ss = take1(b.children);
                let v = pool.fresh();
                let e1 = atom_el_nodes(mk_leaf(NodeType::Variable(v)), ss, c, pool);
                let e2 = atom_el_nodes(a, mk_leaf(NodeType::Variable(v)), c, pool);
                mk2(
                    NodeType::Quantifier(Quantifier::Existential),
                    mk_leaf(NodeType::Variable(v)),
                    mk2(NodeType::Connective(Connective::Conjunction), e1, e2),
                )
            },
            _ => {
                let ss = take1(b.children);
                let v = pool.fresh();
                let q = atom_eq_nodes(
                    ss.clone(),
                    mk_leaf(NodeType::Constant(Constant::EmptySet)),
                    c,
                    pool,
                );
                let e1 = atom_el_nodes(mk_leaf(NodeType::Variable(v)), ss, c, pool);
                let e2 = atom_el_nodes(a, mk_leaf(NodeType::Variable(v)), c, pool);
                mk2(
                    NodeType::Connective(Connective::Conjunction),
                    mk1(NodeType::Connective(Connective::Negation), q),
                    mk2(
                        NodeType::Quantifier(Quantifier::Universal),
                        mk_leaf(NodeType::Variable(v)),
                        mk2(NodeType::Connective(Connective::Implication), e1, e2),
                    ),
                )
            },
        }
    } else if chk_el_via_eq(&b, &c) {
        let v = pool.fresh();
        let e1 = atom_eq_nodes(b, mk_leaf(NodeType::Variable(v)), c, pool);
        let e2 = atom_el_nodes(a, mk_leaf(NodeType::Variable(v)), c, pool);
        mk2(
            NodeType::Quantifier(Quantifier::Existential),
            mk_leaf(NodeType::Variable(v)),
            mk2(NodeType::Connective(Connective::Conjunction), e1, e2),
        )
    } else if chk_el_left(&a, &c) {
        let v = pool.fresh();
        let e1 = atom_eq_nodes(a, mk_leaf(NodeType::Variable(v)), c, pool);
        let e2 = atom_el_nodes(mk_leaf(NodeType::Variable(v)), b, c, pool);
        mk2(
            NodeType::Quantifier(Quantifier::Existential),
            mk_leaf(NodeType::Variable(v)),
            mk2(NodeType::Connective(Connective::Conjunction), e1, e2),
        )
    } else if chk_singleton(&a, &c) {
        proof {
            lemma_compify_weight(av.children[0], u0);
        }
        let x = take1(a.children);
        let m = compify_node(x, pool);
        atom_el_nodes(m, b, c, pool)
    } else if chk_singleton(&b, &c) {
        proof {
            lemma_compify_weight(bv.children[0], u0);
        }
        let x = take1(b.children);
        let m = compify_node(x, pool);
        atom_el_nodes(a, m, c, pool)
    } else {
        let ea = walk_nodes(a, c, pool);
        let eb = walk_nodes(b, c, pool);
        mk2(NodeType::Relation(Relation::Element), ea, eb)
    }
}

/// An equality atom, executable.
fn atom_eq_nodes(a: SyntaxNode, b: SyntaxNode, c: SetConfig, pool: &mut IndexPool) -> (r: SyntaxNode)
    requires
        old(pool).wf(),
    ensures
        final(pool).wf(),
        r@ == atom_eq(a@, b@, c, old(pool)@).0,
        final(pool)@ == atom_eq(a@, b@, c, old(pool)@).1,
    decreases weight(a@) + weight(b@), 2nat,
{
    let ghost av = a@;
    let ghost bv = b@;
    let ghost u0 = pool@;
    proof {
        broadcast use lemma_weight_pos;

        lemma_views_of(a.children@);
        lemma_views_of(b.children@);
        if av.children.len() == 1 {
            lemma_wseq1(av.children);
        }
        if bv.children.len() == 1 {
            lemma_wseq1(bv.children);
        }
    }
    if chk_eq_pot(&a, &c) {
        let x = take1(a.children);
        rule_pot(x, b, c, pool)
    } else if chk_eq_ext(&a, &c) {
        rule_ext(a, b, c, pool)
    } else if chk_comp_shape(&a) && c.comprehension {
        rule_comp(a, b, c, pool)
    } else if chk_eq_pot(&b, &c) {
        let x = take1(b.children);
        rule_pot(x, a, c, pool)
    } else if chk_eq_ext(&b, &c) {
        rule_ext(a, b, c, pool)
    } else if chk_comp_shape(&b) && c.comprehension {
        rule_comp(b, a, c, pool)
    } else if matches!(a.entry, NodeType::Constant(Constant::EmptySet)) && c.empty_set {
        rule_empty(b, c, pool)
    } else if matches!(b.entry, NodeType::Constant(Constant::EmptySet)) && c.empty_set {
        rule_empty(a, c, pool)
    } else if matches!(a.entry, NodeType::Constant(Constant::Omega)) && c.omega {
        rule_omega(b, c, pool)
    } else if matches!(b.entry, NodeType::Constant(Constant::Omega)) && c.omega {
        rule_omega(a, c, pool)
    } else if chk_singleton(&a, &c) {
        proof {
            lemma_compify_weight(av.children[0], u0);
        }
        let x = take1(a.children);
        let m = compify_node(x, pool);
        atom_eq_nodes(m, b, c, pool)
    } else if chk_singleton(&b, &c) {
        proof {
            lemma_compify_weight(bv.children[0], u0);
        }
        let x = take1(b.children);
        let m = compify_node(x, pool);
        atom_eq_nodes(a, m, c, pool)
    } else {
        let ea = walk_nodes(a, c, pool);
        let eb = walk_nodes(b, c, pool);
        mk2(NodeType::Relation(Relation::Equality), ea, eb)
    }
}

/// The power-set rule, executable.
fn rule_pot(x: SyntaxNode, o: SyntaxNode, c: SetConfig, pool: &mut IndexPool) -> (r: SyntaxNode)
    requires
        old(pool).wf(),
    ensures
        final(pool).wf(),
        r@ == pot_rule(x@, o@, c, old(pool)@).0,
        final(pool)@ == pot_rule(x@, o@, c, old(pool)@).1,
    decreases 2 + 2 * weight(x@) + weight(o@), 4nat,
{
    let ghost u0 = pool@;
    let v = pool.fresh();
    proof {
        broadcast use lemma_weight_pos;

        lemma_weight_var(v);
        lemma_weight_var(fresh_id(u0.insert(v)));
    }
    if c.subset {
        let w = pool.fresh();
        let e1 = atom_el_nodes(mk_leaf(NodeType::Variable(v)), o, c, pool);
        let e2 = atom_el_nodes(mk_leaf(NodeType::Variable(w)), x, c, pool);
        mk2(
            NodeType::Quantifier(Quantifier::Universal),
            mk_leaf(NodeType::Variable(v)),
            mk2(
                NodeType::Connective(Connective::Biconditional),
                e1,
                mk2(
                    NodeType::Quantifier(Quantifier::Universal),
                    mk_leaf(NodeType::Variable(w)),
                    mk2(
                        NodeType::Connective(Connective::Implication),
                        mk2(
                            NodeType::Relation(Relation::Element),
                            mk_leaf(NodeType::Variable(w)),
                            mk_leaf(NodeType::Variable(v)),
                        ),
                        e2,
                    ),
                ),
            ),
        )
    } else {
        let e1 = atom_el_nodes(mk_leaf(NodeType::Variable(v)), o, c, pool);
        let x2 = walk_nodes(x, c, pool);
        mk2(
            NodeType::Quantifier(Quantifier::Universal),
            mk_leaf(NodeType::Variable(v)),
            mk2(
                NodeType::Connective(Connective::Biconditional),
                e1,
                mk2(NodeType::Relation(Relation::Subset), mk_leaf(NodeType::Variable(v)), x2),
            ),
        )
    }
}

/// The extensionality rule, executable.
fn rule_ext(a: SyntaxNode, b: SyntaxNode, c: SetConfig, pool: &mut IndexPool) -> (r: SyntaxNode)
    requires
        old(pool).wf(),
        eq_ext_trigger(a@, c) || eq_ext_trigger(b@, c),
    ensures
        final(pool).wf(),
        r@ == ext_rule(a@, b@, c, old(pool)@).0,
        final(pool)@ == ext_rule(a@, b@, c, old(pool)@).1,
    decreases weight(a@) + weight(b@), 1nat,
{
    let ghost u0 = pool@;
    proof {
        broadcast use lemma_weight_pos;

        lemma_views_of(a.children@);
        lemma_views_of(b.children@);
        if a@.children.len() == 1 {
            lemma_wseq1(a@.children);
        }
        if b@.children.len() == 1 {
            lemma_wseq1(b@.children);
        }
        lemma_weight_var(fresh_id(u0));
    }
    let v = pool.fresh();
    let l = atom_el_nodes(mk_leaf(NodeType::Variable(v)), a, c, pool);
    let r = atom_el_nodes(mk_leaf(NodeType::Variable(v)), b, c, pool);
    mk2(
        NodeType::Quantifier(Quantifier::Universal),
        mk_leaf(NodeType::Variable(v)),
        mk2(NodeType::Connective(Connective::Biconditional), l, r),
    )
}

/// The comprehension rule, executable.
fn rule_comp(m: SyntaxNode, o: SyntaxNode, c: SetConfig, pool: &mut IndexPool) -> (r: SyntaxNode)
    requires
        old(pool).wf(),
        comp_shape(m@),
    ensures
        final(pool).wf(),
        r@ == comp_rule(m@, o@, c, old(pool)@).0,
        final(pool)@ == comp_rule(m@, o@, c, old(pool)@).1,
    decreases weight(m@) + weight(o@), 1nat,
{
    let ghost mv = m@;
    proof {
        broadcast use lemma_weight_pos;

        lemma_views_of(m.children@);
        lemma_views_of(m.children[0].children@);
        lemma_wseq2(mv.children);
        lemma_wseq2(mv.children[0].children);
    }
    let (spec0, phi) = take2(m.children);
    proof {
        lemma_views_of(spec0.children@);
        assert(spec0@ == mv.children[0]);
    }
    let (y, s) = take2(spec0.children);
    proof {
        assert(y@ == mv.children[0].children[0]);
        assert(s@ == mv.children[0].children[1]);
        assert(phi@ == mv.children[1]);
    }
    let e1 = atom_el_nodes(y.clone(), o, c, pool);
    let e2 = atom_el_nodes(y.clone(), s, c, pool);
    let f = walk_nodes(phi, c, pool);
    mk2(
        NodeType::Quantifier(Quantifier::Universal),
        y,
        mk2(
            NodeType::Connective(Connective::Biconditional),
            e1,
            mk2(NodeType::Connective(Connective::Conjunction), e2, f),
        ),
    )
}

/// The empty-set rule, executable.
fn rule_empty(x: SyntaxNode, c: SetConfig, pool: &mut IndexPool) -> (r: SyntaxNode)
    requires
        old(pool).wf(),
    ensures
        final(pool).wf(),
        r@ == empty_rule(x@, c, old(pool)@).0,
        final(pool)@ == empty_rule(x@, c, old(pool)@).1,
    decreases 1 + weight(x@), 4nat,
{
    let ghost u0 = pool@;
    let v = pool.fresh();
    proof {
        lemma_weight_var(v);
    }
    let e = atom_el_nodes(mk_leaf(NodeType::Variable(v)), x, c, pool);
    mk1(
        NodeType::Connective(Connective::Negation),
        mk2(NodeType::Quantifier(Quantifier::Existential), mk_leaf(NodeType::Variable(v)), e),
    )
}

/// The omega rule, executable.
fn rule_omega(x: SyntaxNode, c: SetConfig, pool: &mut IndexPool) -> (r: SyntaxNode)
    requires
        old(pool).wf(),
    ensures
        final(pool).wf(),
        r@ == omega_rule(x@, c, old(pool)@).0,
        final(pool)@ == omega_rule(x@, c, old(pool)@).1,
    decreases 29 + weight(x@), 4nat,
{
    let ghost u0 = pool@;
    let v = pool.fresh();
    proof {
        broadcast use lemma_weight_pos;

        lemma_weight_var(v);
        lemma_weight_empty();
        lemma_weight_succ(v);
    }
    let a1 = atom_el_nodes(mk_leaf(NodeType::Constant(Constant::EmptySet)), x.clone(), c, pool);
    let a2 = atom_el_nodes(mk_leaf(NodeType::Variable(v)), x.clone(), c, pool);
    let succ = mk2(
        NodeType::Operator(Operator::Union),
        mk_leaf(NodeType::Variable(v)),
        mk1(NodeType::Operator(Operator::Singleton), mk_leaf(NodeType::Variable(v))),
    );
    let a3 = atom_el_nodes(succ, x, c, pool);
    mk2(
        NodeType::Connective(Connective::Conjunction),
        a1,
        mk2(
            NodeType::Quantifier(Quantifier::Universal),
            mk_leaf(NodeType::Variable(v)),
            mk2(NodeType::Connective(Connective::Implication), a2, a3),
        ),
    )
}

// ---------------------------------------------------------------------------
// Executable variable canonicalization and the whole transformation.
// ---------------------------------------------------------------------------

/// Letter test, executable.
fn is_letter(v: u32) -> (r: bool)
    ensures
        r == letter_id(v),
{
    (v < u32::MAX - 55 && v > u32::MAX - 91) || (v < u32::MAX - 96 && v > u32::MAX - 123)
}

/// A strictly increasing sequence with the elements of `st` is its
/// ascending enumeration.
pub proof fn lemma_asc_of_sorted(q: Seq<u32>, st: Set<u32>)
    requires
        forall|a: int, b: int| 0 <= a < b < q.len() ==> q[a] < q[b],
        q.to_set() == st,
    ensures
        q == asc_seq(st),
    decreases q.len(),
{
    broadcast use vstd::seq_lib::seq_to_set_is_finite;

    assert(st.finite());
    if q.len() == 0 {
        assert(st =~= Set::<u32>::empty());
        assert(asc_seq(st) == Seq::<u32>::empty());
    } else {
        assert(q.to_set().contains(q[0]));
        assert(st.len() > 0) by {
            assert(st.contains(q[0]));
            if st.len() == 0 {
                assert(st.remove(q[0]).len() < st.len());
            }
        }
        // q[0] is the least element of st
        assert forall|x: u32| st.contains(x) implies q[0] <= x by {
            let w = choose|w: int| 0 <= w < q.len() && q[w] == x;
            if w > 0 {
                assert(q[0] < q[w]);
            }
        }
        lemma_set_min(st);
        let m = set_min(st);
        assert(m <= q[0] && q[0] <= m);
        assert(m == q[0]);
        let qt = q.drop_first();
        assert forall|x: u32| qt.to_set().contains(x) implies st.remove(m).contains(x) by {
            let w = choose|w: int| 0 <= w < qt.len() && qt[w] == x;
            assert(q[w + 1] == x);
            assert(q[0] < q[w + 1]);
        }
        assert forall|x: u32| st.remove(m).contains(x) implies qt.to_set().contains(x) by {
            let w = choose|w: int| 0 <= w < q.len() && q[w] == x;
            assert(w != 0);
            assert(qt[w - 1] == x);
        }
        assert(qt.to_set() =~= st.remove(m));
        lemma_asc_of_sorted(qt, st.remove(m));
        assert(q =~= seq![q[0]] + qt);
    }
}

impl IndexPool {
    /// The letter identifiers in the pool, in ascending order.
    fn letters(&self) -> (r: Vec<u32>)
        requires
            self.wf(),
        ensures
            r@ == asc_seq(self@.filter(|v: u32| letter_id(v))),
            r@.no_duplicates(),
    {
        let mut r: Vec<u32> = Vec::new();
        let mut i: usize = 0;
        while i < self.used.len()
            invariant
                self.wf(),
                i <= self.used@.len(),
                forall|a: int, b: int| 0 <= a < b < r@.len() ==> r@[a] < r@[b],
                r@.to_set() == self.used@.take(i as int).to_set().filter(|v: u32| letter_id(v)),
            decreases self.used@.len() - i,
        {
            let ghost pre = r@;
            let v = self.used[i];
            if is_letter(v) {
                proof {
                    assert forall|k: int| 0 <= k < pre.len() implies pre[k] < v by {
                        assert(pre.to_set().contains(pre[k]));
                        let w = choose|w: int|
                            0 <= w < self.used@.take(i as int).len() && self.used@.take(
                                i as int,
                            )[w] == pre[k];
                        assert(self.used@[w] == pre[k]);
                        assert(w < i);
                    }
                }
                r.push(v);
            }
            proof {
                Seq::<u32>::lemma_to_set_insert_commutes(self.used@.take(i as int), v);
                assert(self.used@.take(i + 1) =~= self.used@.take(i as int) + seq![v]);
                assert(self.used@.take(i + 1).to_set() =~= self.used@.take(
                    i as int,
                ).to_set().insert(v));
                if letter_id(v) {
                    Seq::<u32>::lemma_to_set_insert_commutes(pre, v);
                    assert(r@ =~= pre + seq![v]);
                    assert(r@.to_set() =~= pre.to_set().insert(v));
                    assert(r@.to_set() =~= self.used@.take(i + 1).to_set().filter(
                        |x: u32| letter_id(x),
                    ));
                } else {
                    assert(r@.to_set() =~= self.used@.take(i + 1).to_set().filter(
                        |x: u32| letter_id(x),
                    ));
                }
            }
            i = i + 1;
        }
        proof {
            assert(self.used@.take(self.used@.len() as int) =~= self.used@);
            assert(r@.to_set() =~= self@.filter(|v: u32| letter_id(v)));
            lemma_asc_of_sorted(r@, self@.filter(|v: u32| letter_id(v)));
            assert forall|a: int, b: int|
                0 <= a < b < r@.len() implies r@[a] != r@[b] by {}
        }
        r
    }

    /// Allocates `k` fresh identifiers, returned in descending order.
    fn batch(&mut self, k: usize) -> (r: Vec<u32>)
        requires
            old(self).wf(),
        ensures
            final(self).wf(),
            r@ == fresh_batch(old(self)@, k as nat).0,
            final(self)@ == fresh_batch(old(self)@, k as nat).1,
        decreases k,
    {
        if k == 0 {
            let r: Vec<u32> = Vec::new();
            proof {
                assert(r@ =~= fresh_batch(self@, 0).0);
            }
            r
        } else {
            let v = self.fresh();
            let mut rest = self.batch(k - 1);
            rest.push(v);
            rest
        }
    }
}

/// The lookup agrees with the canonical renaming map.
pub proof fn lemma_canon_map(rel: Seq<u32>, news: Seq<u32>, v: u32)
    requires
        rel.len() == news.len(),
        rel.no_duplicates(),
    ensures
        canon_map(rel, news).dom().contains(v) <==> rel.contains(v),
        rel.contains(v) ==> canon_map(rel, news)[v] == news[rel.index_of(v)],
    decreases rel.len(),
{
    if rel.len() > 0 {
        assert(rel.drop_first().no_duplicates());
        lemma_canon_map(rel.drop_first(), news.drop_first(), v);
        if rel[0] == v {
            assert(rel.contains(v));
            let i0 = rel.index_of(v);
            assert(rel[i0] == v);
            if i0 != 0 {
                assert(rel[0] == rel[i0]);
                assert(false);
            }
        } else {
            if rel.contains(v) {
                let w = choose|w: int| 0 <= w < rel.len() && rel[w] == v;
                assert(rel.drop_first()[w - 1] == v);
                assert(rel.drop_first().contains(v));
                let i0 = rel.index_of(v);
                let i1 = rel.drop_first().index_of(v);
                assert(rel[i0] == v && i0 != 0);
                assert(rel.drop_first()[i1] == v);
                assert(rel[i1 + 1] == v);
                if i1 + 1 != i0 {
                    assert(rel[i1 + 1] == rel[i0]);
                    assert(false);
                }
            } else {
                if rel.drop_first().contains(v) {
                    let w = choose|w: int|
                        0 <= w < rel.drop_first().len() && rel.drop_first()[w] == v;
                    assert(rel[w + 1] == v);
                }
            }
        }
    }
}

/// Looks a variable up in the renaming, first match first.
fn lookup(rel: &Vec<u32>, news: &Vec<u32>, v: u32) -> (r: u32)
    requires
        rel@.len() == news@.len(),
        rel@.no_duplicates(),
    ensures
        r == (if canon_map(rel@, news@).dom().contains(v) {
            canon_map(rel@, news@)[v]
        } else {
            v
        }),
{
    let mut i: usize = 0;
    while i < rel.len()
        invariant
            rel@.len() == news@.len(),
            rel@.no_duplicates(),
            i <= rel@.len(),
            forall|j: int| 0 <= j < i ==> rel@[j] != v,
        decreases rel@.len() - i,
    {
        if rel[i] == v {
            proof {
                lemma_canon_map(rel@, news@, v);
                assert(rel@.contains(v));
                let i0 = rel@.index_of(v);
                assert(rel@[i0] == v);
                if i0 != i {
                    assert(rel@[i0] == rel@[i as int]);
                    assert(false);
                }
            }
            return news[i];
        }
        i = i + 1;
    }
    proof {
        lemma_canon_map(rel@, news@, v);
        if rel@.contains(v) {
            let w = choose|w: int| 0 <= w < rel@.len() && rel@[w] == v;
        }
    }
    v
}

/// Renames every variable in the map's domain, executable.
fn rename_nodes(n: &SyntaxNode, rel: &Vec<u32>, news: &Vec<u32>) -> (r: SyntaxNode)
    requires
        rel@.len() == news@.len(),
        rel@.no_duplicates(),
    ensures
        r@ == rename(n@, canon_map(rel@, news@)),
    decreases *n,
{
    let ghost s = n@.children;
    proof {
        lemma_views_of(n.children@);
    }
    let mut ch: Vec<SyntaxNode> = Vec::new();
    proof {
        lemma_views_of(ch@);
        lemma_rename_seq(s, canon_map(rel@, news@));
        assert(views_of(ch@) =~= rename_seq(s, canon_map(rel@, news@)).take(0));
    }
    let mut i: usize = 0;
    while i < n.children.len()
        invariant
            rel@.len() == news@.len(),
            rel@.no_duplicates(),
            i <= n.children.len(),
            s == n@.children,
            s.len() == n.children@.len(),
            forall|j: int| 0 <= j < s.len() ==> s[j] == n.children@[j]@,
            views_of(ch@) == rename_seq(s, canon_map(rel@, news@)).take(i as int),
            ch@.len() == i,
        decreases n.children@.len() - i,
    {
        let c = rename_nodes(&n.children[i], rel, news);
        let ghost prev = ch@;
        ch.push(c);
        proof {
            lemma_views_of(prev);
            lemma_views_of(ch@);
            lemma_rename_seq(s, canon_map(rel@, news@));
            assert(views_of(ch@) =~= rename_seq(s, canon_map(rel@, news@)).take(i + 1));
        }
        i = i + 1;
    }
    proof {
        lemma_views_of(ch@);
        lemma_rename_seq(s, canon_map(rel@, news@));
        assert(views_of(ch@) =~= rename_seq(s, canon_map(rel@, news@)));
    }
    let entry = match n.entry {
        NodeType::Variable(v) => NodeType::Variable(lookup(rel, news, v)),
        e => e,
    };
    let r = SyntaxNode { entry, children: ch };
    proof {
        lemma_views_of(r.children@);
        assert(r@.children =~= rename_seq(s, canon_map(rel@, news@)));
    }
    r
}

/// The renamed forest, elementwise.
pub proof fn lemma_rename_seq(s: Seq<Node>, m: Map<u32, u32>)
    ensures
        rename_seq(s, m).len() == s.len(),
        forall|i: int| 0 <= i < s.len() ==> rename_seq(s, m)[i] == rename(s[i], m),
    decreases s,
{
    if s.len() > 0 {
        lemma_rename_seq(s.drop_first(), m);
    }
}

/// A batch of `k` fresh identifiers has `k` entries.
pub proof fn lemma_fresh_batch_len(used: Set<u32>, k: nat)
    ensures
        fresh_batch(used, k).0.len() == k,
    decreases k,
{
    if k > 0 {
        lemma_fresh_batch_len(used.insert(fresh_id(used)), (k - 1) as nat);
    }
}

impl SyntaxNode {
    /// Rewrites the tree, eliminating every construct whose switch the
    /// configuration enables, with capture-free fresh variables: first
    /// variable canonicalization, then negated relations, then subset,
    /// then the elimination engine over constants, operators and
    /// comprehensions.
    pub fn transform(self, config: SetConfig) -> (r: SyntaxNode)
        ensures
            r@ == transform_spec(self@, config),
    {
        let mut pool = IndexPool::new();
        pool.collect(&self);
        proof {
            assert(pool@ =~= ids_of(self@));
        }
        let t1 = if config.variables {
            let ghost u_init = pool@;
            let rel = pool.letters();
            proof {
                let pf = u_init.filter(|v: u32| letter_id(v));
                let idf = ids_of(self@).filter(|v: u32| letter_id(v));
                assert forall|x: u32| #[trigger] pf.contains(x) == idf.contains(x) by {
                    assert(u_init.contains(x) == ids_of(self@).contains(x));
                }
                assert(pf =~= idf);
                assert(rel@ == asc_seq(idf));
                lemma_fresh_batch_len(pool@, rel@.len());
            }
            let news = pool.batch(rel.len());
            let t = rename_nodes(&self, &rel, &news);
            proof {
                assert(news@ == fresh_batch(ids_of(self@), rel@.len()).0);
                assert(t@ == canon(self@, ids_of(self@)).0);
            }
            let mut repool = IndexPool::new();
            repool.collect(&t);
            pool = repool;
            proof {
                assert(pool@ =~= ids_of(t@));
                assert(pool@ == canon(self@, ids_of(self@)).1);
            }
            t
        } else {
            self
        };
        let t2 = if config.negated_relations {
            negrel_nodes(&t1)
        } else {
            t1
        };
        let t3 = if config.subset {
            subset_nodes(&t2, &mut pool)
        } else {
            t2
        };
        walk_nodes(t3, config, &mut pool)
    }
}

// ---------------------------------------------------------------------------
// The arity invariant: every pipeline stage yields trees whose child counts
// match their tags' arities.
// ---------------------------------------------------------------------------


/// A childless node with a zero-arity tag is well formed.
pub broadcast proof fn lemma_wf_leaf(t: NodeType)
    ensures
        arity(t) == 0 ==> #[trigger] leaf(t).wf(),
{
}

/// A variable leaf is well formed.
pub broadcast proof fn lemma_wf_nvar(v: u32)
    ensures
        #[trigger] nvar(v).wf(),
{
}

/// A one-child node with a one-arity tag over a well-formed child is well
/// formed.
pub broadcast proof fn lemma_wf_un(t: NodeType, a: Node)
    ensures
        a.wf() && arity(t) == 1 ==> #[trigger] un(t, a).wf(),
{
    if a.wf() && arity(t) == 1 {
        lemma_wf_seq(un(t, a).children);
        assert(un(t, a).children[0] == a);
        assert forall|i: int| 0 <= i < un(t, a).children.len() implies (#[trigger] un(
            t,
            a,
        ).children[i]).wf() by {
            assert(un(t, a).children[i] == a);
        }
    }
}

/// A two-child node with a two-arity tag over well-formed children is well
/// formed.
pub broadcast proof fn lemma_wf_bin(t: NodeType, a: Node, b: Node)
    ensures
        a.wf() && b.wf() && arity(t) == 2 ==> #[trigger] bin(t, a, b).wf(),
{
    if a.wf() && b.wf() && arity(t) == 2 {
        lemma_wf_seq(bin(t, a, b).children);
        assert forall|i: int| 0 <= i < bin(t, a, b).children.len() implies (#[trigger] bin(
            t,
            a,
            b,
        ).children[i]).wf() by {
            if i == 0 {
                assert(bin(t, a, b).children[i] == a);
            } else {
                assert(bin(t, a, b).children[i] == b);
            }
        }
    }
}

/// Renaming keeps the arity invariant.
pub proof fn lemma_rename_wf(n: Node, m: Map<u32, u32>)
    requires
        n.wf(),
    ensures
        rename(n, m).wf(),
    decreases n,
{
    broadcast use lemma_wf_seq, lemma_wf_leaf, lemma_wf_nvar, lemma_wf_un, lemma_wf_bin;

    lemma_rename_seq(n.children, m);
    let r = rename(n, m);
    assert(n.children.len() == arity(n.tag));
    assert(r.children.len() == n.children.len());
    assert(arity(r.tag) == arity(n.tag));
    assert forall|i: int| 0 <= i < r.children.len() implies #[trigger] r.children[i].wf() by {
        assert(wf_seq(n.children));
        lemma_wf_seq(n.children);
        assert(n.children[i].wf());
        lemma_rename_wf(n.children[i], m);
        assert(r.children[i] == rename(n.children[i], m));
    }
    lemma_wf_seq(r.children);
}

/// Negated-relation elimination keeps the arity invariant.
pub proof fn lemma_negrel_wf(n: Node)
    requires
        n.wf(),
    ensures
        negrel(n).wf(),
    decreases n,
{
    broadcast use lemma_wf_seq, lemma_wf_leaf, lemma_wf_nvar, lemma_wf_un, lemma_wf_bin;

    lemma_wf_seq(n.children);
    lemma_negrel_seq(n.children);
    let ch = negrel_seq(n.children);
    assert(ch.len() == n.children.len());
    assert forall|i: int| 0 <= i < ch.len() implies #[trigger] ch[i].wf() by {
        assert(n.children[i].wf());
        lemma_negrel_wf(n.children[i]);
    }
    lemma_wf_seq(ch);
    assert(Node { tag: n.tag, children: ch }.wf());
    if n.tag == NodeType::Relation(Relation::NotEqual) {
        assert(Node { tag: NodeType::Relation(Relation::Equality), children: ch }.wf());
    }
    if n.tag == NodeType::Relation(Relation::NotElement) {
        assert(Node { tag: NodeType::Relation(Relation::Element), children: ch }.wf());
    }
    if n.tag == NodeType::Relation(Relation::NotSubset) {
        assert(Node { tag: NodeType::Relation(Relation::Subset), children: ch }.wf());
    }
}

/// Subset elimination keeps the arity invariant.
pub proof fn lemma_subset_wf(n: Node, used: Set<u32>)
    requires
        n.wf(),
    ensures
        subset_p(n, used).0.wf(),
    decreases n,
{
    broadcast use lemma_wf_seq, lemma_wf_leaf, lemma_wf_nvar, lemma_wf_un, lemma_wf_bin;

    lemma_wf_seq(n.children);
    lemma_subset_seq_wf(n.children, used);
    let (ch, u1) = subset_seq(n.children, used);
    if n.tag == NodeType::Relation(Relation::Subset) && ch.len() == 2 {
        assert(ch[0].wf() && ch[1].wf());
    } else {
        lemma_wf_seq(ch);
        assert(Node { tag: n.tag, children: ch }.wf());
    }
}

/// Subset elimination over a forest keeps each element's arity invariant.
pub proof fn lemma_subset_seq_wf(s: Seq<Node>, used: Set<u32>)
    requires
        forall|i: int| 0 <= i < s.len() ==> (#[trigger] s[i]).wf(),
    ensures
        subset_seq(s, used).0.len() == s.len(),
        forall|i: int| 0 <= i < s.len() ==> (#[trigger] subset_seq(s, used).0[i]).wf(),
    decreases s,
{
    broadcast use lemma_wf_seq, lemma_wf_leaf, lemma_wf_nvar, lemma_wf_un, lemma_wf_bin;

    if s.len() > 0 {
        assert(s[0].wf());
        lemma_subset_wf(s[0], used);
        assert(forall|i: int|
            0 <= i < s.drop_first().len() ==> (#[trigger] s.drop_first()[i]).wf());
        lemma_subset_seq_wf(s.drop_first(), subset_p(s[0], used).1);
        assert forall|i: int|
            0 <= i < s.len() implies (#[trigger] subset_seq(s, used).0[i]).wf() by {
            if i > 0 {
                assert(subset_seq(s, used).0[i] == subset_seq(
                    s.drop_first(),
                    subset_p(s[0], used).1,
                ).0[i - 1]);
            }
        }
    }
}

/// The elimination engine keeps the arity invariant.
pub proof fn lemma_walk_wf(n: Node, c: SetConfig, used: Set<u32>)
    requires
        n.wf(),
    ensures
        walk(n, c, used).0.wf(),
    decreases weight(n), 5nat,
{
    broadcast use lemma_wf_seq, lemma_wf_leaf, lemma_wf_nvar, lemma_wf_un, lemma_wf_bin;

    lemma_wf_seq(n.children);
    if n.children.len() == 2 {
        lemma_wseq2(n.children);
    }
    if comp_shape(n) {
        lemma_wf_seq(n.children[0].children);
        lemma_wseq2(n.children[0].children);
    }
    if n.tag == NodeType::Relation(Relation::Element) && n.children.len() == 2 {
        lemma_atom_el_wf(n.children[0], n.children[1], c, used);
    } else if n.tag == NodeType::Relation(Relation::Equality) && n.children.len() == 2 {
        lemma_atom_eq_wf(n.children[0], n.children[1], c, used);
    } else if comp_shape(n) {
        let (s2, u1) = walk(n.children[0].children[1], c, used);
        lemma_walk_wf(n.children[0].children[1], c, used);
        lemma_walk_wf(n.children[1], c, u1);
    } else if singleton_trigger(n, c) {
        let (m, u1) = compify(n.children[0], used);
        lemma_compify_weight(n.children[0], used);
        lemma_wseq1(n.children);
        lemma_compify_wf(n.children[0], used);
        lemma_walk_wf(m, c, u1);
    } else {
        lemma_walk_seq_wf(n.children, c, used);
        let ch = walk_seq(n.children, c, used).0;
        lemma_wf_seq(ch);
        assert(Node { tag: n.tag, children: ch }.wf());
    }
}

/// The engine over a forest keeps each element's arity invariant.
pub proof fn lemma_walk_seq_wf(s: Seq<Node>, c: SetConfig, used: Set<u32>)
    requires
        forall|i: int| 0 <= i < s.len() ==> (#[trigger] s[i]).wf(),
    ensures
        walk_seq(s, c, used).0.len() == s.len(),
        forall|i: int| 0 <= i < s.len() ==> (#[trigger] walk_seq(s, c, used).0[i]).wf(),
    decreases weight_seq(s), 6nat,
{
    broadcast use lemma_wf_seq, lemma_wf_leaf, lemma_wf_nvar, lemma_wf_un, lemma_wf_bin;

    broadcast use lemma_weight_pos;

    if s.len() > 0 {
        lemma_walk_wf(s[0], c, used);
        lemma_walk_seq_wf(s.drop_first(), c, walk(s[0], c, used).1);
        assert forall|i: int|
            0 <= i < s.len() implies (#[trigger] walk_seq(s, c, used).0[i]).wf() by {
            if i > 0 {
                assert(walk_seq(s, c, used).0[i] == walk_seq(
                    s.drop_first(),
                    c,
                    walk(s[0], c, used).1,
                ).0[i - 1]);
            }
        }
    }
}

/// Membership atoms keep the arity invariant.
pub proof fn lemma_atom_el_wf(a: Node, b: Node, c: SetConfig, used: Set<u32>)
    requires
        a.wf(),
        b.wf(),
    ensures
        atom_el(a, b, c, used).0.wf(),
    decreases weight(a) + weight(b), el_rank(a, b, c),
{
    broadcast use lemma_wf_seq, lemma_wf_leaf, lemma_wf_nvar, lemma_wf_un, lemma_wf_bin;

    broadcast use lemma_weight_pos;

    if a.children.len() == 1 {
        lemma_wseq1(a.children);
    }
    if b.children.len() == 1 {
        lemma_wseq1(b.children);
    }
    if b.children.len() == 2 {
        lemma_wseq2(b.children);
    }
    lemma_wf_seq(a.children);
    lemma_wf_seq(b.children);
    lemma_weight_var(fresh_id(used));
    lemma_weight_empty();
    if el_direct(b, c) {
        if b.tag == NodeType::Operator(Operator::Union) || b.tag == NodeType::Operator(
            Operator::Intersection,
        ) || b.tag == NodeType::Operator(Operator::Difference) {
            let (l, u1) = atom_el(a, b.children[0], c, used);
            lemma_atom_el_wf(a, b.children[0], c, used);
            lemma_atom_el_wf(a, b.children[1], c, u1);
        } else if b.tag == NodeType::Operator(Operator::PairSet) {
            let (l, u1) = atom_eq(a, b.children[0], c, used);
            lemma_atom_eq_wf(a, b.children[0], c, used);
            lemma_atom_eq_wf(a, b.children[1], c, u1);
        } else if b.tag == NodeType::Operator(Operator::BigUnion) {
            let v = fresh_id(used);
            let (e1, u1) = atom_el(nvar(v), b.children[0], c, used.insert(v));
            lemma_atom_el_wf(nvar(v), b.children[0], c, used.insert(v));
            lemma_atom_el_wf(a, nvar(v), c, u1);
        } else {
            let v = fresh_id(used);
            let (q, u1) = atom_eq(b.children[0], empty_leaf(), c, used.insert(v));
            lemma_atom_eq_wf(b.children[0], empty_leaf(), c, used.insert(v));
            let (e1, u2) = atom_el(nvar(v), b.children[0], c, u1);
            lemma_atom_el_wf(nvar(v), b.children[0], c, u1);
            lemma_atom_el_wf(a, nvar(v), c, u2);
        }
    } else if el_via_eq(b, c) {
        let v = fresh_id(used);
        let (e1, u1) = atom_eq(b, nvar(v), c, used.insert(v));
        lemma_atom_eq_wf(b, nvar(v), c, used.insert(v));
        lemma_atom_el_wf(a, nvar(v), c, u1);
    } else if el_left_trigger(a, c) {
        let v = fresh_id(used);
        let (e1, u1) = atom_eq(a, nvar(v), c, used.insert(v));
        lemma_atom_eq_wf(a, nvar(v), c, used.insert(v));
        lemma_atom_el_wf(nvar(v), b, c, u1);
    } else if singleton_trigger(a, c) {
        let (m, u1) = compify(a.children[0], used);
        lemma_compify_weight(a.children[0], used);
        lemma_compify_wf(a.children[0], used);
        lemma_atom_el_wf(m, b, c, u1);
    } else if singleton_trigger(b, c) {
        let (m, u1) = compify(b.children[0], used);
        lemma_compify_weight(b.children[0], used);
        lemma_compify_wf(b.children[0], used);
        lemma_atom_el_wf(a, m, c, u1);
    } else {
        let (ea, u1) = walk(a, c, used);
        lemma_walk_wf(a, c, used);
        lemma_walk_wf(b, c, u1);
    }
}

/// The singleton rewrite keeps the arity invariant.
pub proof fn lemma_compify_wf(x: Node, used: Set<u32>)
    requires
        x.wf(),
    ensures
        compify(x, used).0.wf(),
{
    broadcast use lemma_wf_seq, lemma_wf_leaf, lemma_wf_nvar, lemma_wf_un, lemma_wf_bin;

}

/// Equality atoms keep the arity invariant.
pub proof fn lemma_atom_eq_wf(a: Node, b: Node, c: SetConfig, used: Set<u32>)
    requires
        a.wf(),
        b.wf(),
    ensures
        atom_eq(a, b, c, used).0.wf(),
    decreases weight(a) + weight(b), 2nat,
{
    broadcast use lemma_wf_seq, lemma_wf_leaf, lemma_wf_nvar, lemma_wf_un, lemma_wf_bin;

    broadcast use lemma_weight_pos;

    if a.children.len() == 1 {
        lemma_wseq1(a.children);
    }
    if b.children.len() == 1 {
        lemma_wseq1(b.children);
    }
    lemma_wf_seq(a.children);
    lemma_wf_seq(b.children);
    if eq_pot_trigger(a, c) {
        lemma_pot_rule_wf(a.children[0], b, c, used);
    } else if eq_ext_trigger(a, c) {
        lemma_ext_rule_wf(a, b, c, used);
    } else if comp_shape(a) && c.comprehension {
        lemma_comp_rule_wf(a, b, c, used);
    } else if eq_pot_trigger(b, c) {
        lemma_pot_rule_wf(b.children[0], a, c, used);
    } else if eq_ext_trigger(b, c) {
        lemma_ext_rule_wf(a, b, c, used);
    } else if comp_shape(b) && c.comprehension {
        lemma_comp_rule_wf(b, a, c, used);
    } else if a.tag == NodeType::Constant(Constant::EmptySet) && c.empty_set {
        lemma_empty_rule_wf(b, c, used);
    } else if b.tag == NodeType::Constant(Constant::EmptySet) && c.empty_set {
        lemma_empty_rule_wf(a, c, used);
    } else if a.tag == NodeType::Constant(Constant::Omega) && c.omega {
        lemma_omega_rule_wf(b, c, used);
    } else if b.tag == NodeType::Constant(Constant::Omega) && c.omega {
        lemma_omega_rule_wf(a, c, used);
    } else if singleton_trigger(a, c) {
        let (m, u1) = compify(a.children[0], used);
        lemma_compify_weight(a.children[0], used);
        lemma_compify_wf(a.children[0], used);
        lemma_atom_eq_wf(m, b, c, u1);
    } else if singleton_trigger(b, c) {
        let (m, u1) = compify(b.children[0], used);
        lemma_compify_weight(b.children[0], used);
        lemma_compify_wf(b.children[0], used);
        lemma_atom_eq_wf(a, m, c, u1);
    } else {
        let (ea, u1) = walk(a, c, used);
        lemma_walk_wf(a, c, used);
        lemma_walk_wf(b, c, u1);
    }
}

/// The power-set rule keeps the arity invariant.
pub proof fn lemma_pot_rule_wf(x: Node, o: Node, c: SetConfig, used: Set<u32>)
    requires
        x.wf(),
        o.wf(),
    ensures
        pot_rule(x, o, c, used).0.wf(),
    decreases 2 + 2 * weight(x) + weight(o), 4nat,
{
    broadcast use lemma_wf_seq, lemma_wf_leaf, lemma_wf_nvar, lemma_wf_un, lemma_wf_bin;

    broadcast use lemma_weight_pos;

    let v = fresh_id(used);
    let u0 = used.insert(v);
    lemma_weight_var(v);
    lemma_weight_var(fresh_id(u0));
    if c.subset {
        let w = fresh_id(u0);
        let u0b = u0.insert(w);
        let (e1, u1) = atom_el(nvar(v), o, c, u0b);
        lemma_atom_el_wf(nvar(v), o, c, u0b);
        lemma_atom_el_wf(nvar(w), x, c, u1);
    } else {
        let (e1, u1) = atom_el(nvar(v), o, c, u0);
        lemma_atom_el_wf(nvar(v), o, c, u0);
        lemma_walk_wf(x, c, u1);
    }
}

/// The extensionality rule keeps the arity invariant.
pub proof fn lemma_ext_rule_wf(a: Node, b: Node, c: SetConfig, used: Set<u32>)
    requires
        a.wf(),
        b.wf(),
        eq_ext_trigger(a, c) || eq_ext_trigger(b, c),
    ensures
        ext_rule(a, b, c, used).0.wf(),
    decreases weight(a) + weight(b), 1nat,
{
    broadcast use lemma_wf_seq, lemma_wf_leaf, lemma_wf_nvar, lemma_wf_un, lemma_wf_bin;

    broadcast use lemma_weight_pos;

    if a.children.len() == 1 {
        lemma_wseq1(a.children);
    }
    if b.children.len() == 1 {
        lemma_wseq1(b.children);
    }
    let v = fresh_id(used);
    lemma_weight_var(v);
    let (l, u1) = atom_el(nvar(v), a, c, used.insert(v));
    lemma_atom_el_wf(nvar(v), a, c, used.insert(v));
    lemma_atom_el_wf(nvar(v), b, c, u1);
}

/// The comprehension rule keeps the arity invariant.
#[verifier::rlimit(60)]
pub proof fn lemma_comp_rule_wf(m: Node, o: Node, c: SetConfig, used: Set<u32>)
    requires
        m.wf(),
        o.wf(),
        comp_shape(m),
    ensures
        comp_rule(m, o, c, used).0.wf(),
    decreases weight(m) + weight(o), 1nat,
{
    broadcast use lemma_wf_seq, lemma_wf_leaf, lemma_wf_nvar, lemma_wf_un, lemma_wf_bin;

    broadcast use lemma_weight_pos;

    lemma_wseq2(m.children);
    lemma_wseq2(m.children[0].children);
    lemma_wf_seq(m.children);
    lemma_wf_seq(m.children[0].children);
    let y = m.children[0].children[0];
    let s = m.children[0].children[1];
    let phi = m.children[1];
    let (e1, u1) = atom_el(y, o, c, used);
    lemma_atom_el_wf(y, o, c, used);
    let (e2, u2) = atom_el(y, s, c, u1);
    lemma_atom_el_wf(y, s, c, u1);
    lemma_walk_wf(phi, c, u2);
    let (f, u3) = walk(phi, c, u2);
    let r = comp_rule(m, o, c, used).0;
    assert(r.children == seq![y, bic(e1, conj(e2, f))]);
    lemma_wf_seq(r.children);
    assert forall|i: int| 0 <= i < r.children.len() implies (#[trigger] r.children[i]).wf() by {
        if i == 0 {
            assert(r.children[i] == y);
        } else {
            assert(r.children[i] == bic(e1, conj(e2, f)));
        }
    }
}

/// The empty-set rule keeps the arity invariant.
pub proof fn lemma_empty_rule_wf(x: Node, c: SetConfig, used: Set<u32>)
    requires
        x.wf(),
    ensures
        empty_rule(x, c, used).0.wf(),
    decreases 1 + weight(x), 4nat,
{
    broadcast use lemma_wf_seq, lemma_wf_leaf, lemma_wf_nvar, lemma_wf_un, lemma_wf_bin;

    let v = fresh_id(used);
    lemma_weight_var(v);
    lemma_atom_el_wf(nvar(v), x, c, used.insert(v));
}

/// The omega rule keeps the arity invariant.
pub proof fn lemma_omega_rule_wf(x: Node, c: SetConfig, used: Set<u32>)
    requires
        x.wf(),
    ensures
        omega_rule(x, c, used).0.wf(),
    decreases 29 + weight(x), 4nat,
{
    broadcast use lemma_wf_seq, lemma_wf_leaf, lemma_wf_nvar, lemma_wf_un, lemma_wf_bin;

    broadcast use lemma_weight_pos;

    let v = fresh_id(used);
    lemma_weight_var(v);
    lemma_weight_empty();
    lemma_weight_succ(v);
    let (a1, u1) = atom_el(empty_leaf(), x, c, used.insert(v));
    lemma_atom_el_wf(empty_leaf(), x, c, used.insert(v));
    let (a2, u2) = atom_el(nvar(v), x, c, u1);
    lemma_atom_el_wf(nvar(v), x, c, u1);
    let succ = bin(
        NodeType::Operator(Operator::Union),
        nvar(v),
        un(NodeType::Operator(Operator::Singleton), nvar(v)),
    );
    lemma_atom_el_wf(succ, x, c, u2);
}

/// The arity invariant: for every well-formed input tree, the tree the
/// whole transformation produces is well formed again, at every switch
/// setting; child counts match each tag's fixed arity throughout.
pub proof fn lemma_transform_wf(n: Node, c: SetConfig)
    requires
        n.wf(),
    ensures
        transform_spec(n, c).wf(),
{
    broadcast use lemma_wf_seq, lemma_wf_leaf, lemma_wf_nvar, lemma_wf_un, lemma_wf_bin;

    let u0 = ids_of(n);
    let (n1, u1) = if c.variables {
        canon(n, u0)
    } else {
        (n, u0)
    };
    if c.variables {
        let rel = asc_seq(u0.filter(|v: u32| letter_id(v)));
        let (news, _) = fresh_batch(u0, rel.len());
        lemma_rename_wf(n, canon_map(rel, news));
    }
    let n2 = if c.negated_relations {
        negrel(n1)
    } else {
        n1
    };
    if c.negated_relations {
        lemma_negrel_wf(n1);
    }
    let (n3, u3) = if c.subset {
        subset_p(n2, u1)
    } else {
        (n2, u1)
    };
    if c.subset {
        lemma_subset_wf(n2, u1);
    }
    lemma_walk_wf(n3, c, u3);
}

// ---------------------------------------------------------------------------
// Capture-freedom of fresh-variable allocation.
// ---------------------------------------------------------------------------

/// The identifiers below a bound form a set of that cardinality.
pub proof fn lemma_below_len(b: u32)
    ensures
        Set::new(|k: u32| k < b).finite(),
        Set::new(|k: u32| k < b).len() == b,
    decreases b,
{
    if b == 0 {
        assert(Set::new(|k: u32| k < b) =~= Set::<u32>::empty());
    } else {
        lemma_below_len((b - 1) as u32);
        assert(Set::new(|k: u32| k < b) =~= Set::new(|k: u32| k < (b - 1) as u32).insert(
            (b - 1) as u32,
        ));
    }
}

/// A used set smaller than the identifier space leaves a least identifier
/// free.
pub proof fn lemma_min_free_exists(used: Set<u32>)
    requires
        used.finite(),
        used.len() < u32::MAX,
    ensures
        is_min_free(used, fresh_id(used)),
{
    let b = (used.len() + 1) as u32;
    let w = Set::new(|k: u32| k < b);
    lemma_below_len(b);
    let free = w.difference(used);
    assert(free.finite()) by {
        vstd::set_lib::lemma_len_subset(free, w);
    }
    assert(free.len() > 0) by {
        if free.len() == 0 {
            assert(free =~= Set::<u32>::empty());
            assert forall|x: u32| w.contains(x) implies used.contains(x) by {
                if !used.contains(x) {
                    assert(free.contains(x));
                }
            }
            vstd::set_lib::lemma_len_subset(w, used);
        }
    }
    lemma_set_min(free);
    let m = set_min(free);
    assert forall|k: u32| k < m implies used.contains(k) by {
        assert(m < b);
        assert(w.contains(k));
        if !used.contains(k) {
            assert(free.contains(k));
        }
    }
    assert(is_min_free(used, m));
    lemma_min_free_unique(used, fresh_id(used), m);
}

/// Capture-freedom: an identifier freshly allocated against a used set
/// covering a tree's identifiers occurs nowhere in that tree. Every rewrite
/// rule draws its bound variables this way, against a pool covering the
/// whole tree under transformation, so no introduced binder can capture a
/// variable of the subtree it is inserted into.
pub proof fn lemma_fresh_capture_free(t: Node, used: Set<u32>)
    requires
        ids_of(t).subset_of(used),
        used.finite(),
        used.len() < u32::MAX,
    ensures
        !ids_of(t).contains(fresh_id(used)),
        !used.contains(fresh_id(used)),
{
    lemma_min_free_exists(used);
}


} // verus!
