//! The mathematical form of operand expressions.
use vstd::prelude::*;
use crate::expression::{is_combination, tier, BinOp, BinaryOperation, MonOp, Operand};

verus! {

broadcast use vstd::std_specs::vec::group_vec_axioms, vstd::seq::group_seq_axioms;

/// The mathematical form of an operand expression.
pub enum Tree {
    Var(Seq<char>),
    Num(u32),
    Unary(MonOp, Box<Tree>),
    Chain(Box<Tree>, Seq<(BinOp, Tree)>),
}

/// The tree that an operand denotes.
pub open spec fn tree_of(op: Operand) -> Tree
    decreases op,
{
    match op {
        Operand::Var(name) => Tree::Var(name@),
        Operand::Num(v) => Tree::Num(v),
        Operand::Unary(u) => Tree::Unary(u.operator, Box::new(tree_of(u.operand))),
        Operand::Expr(b) => Tree::Chain(Box::new(tree_of(b.first)), steps_of(b.rest@)),
    }
}

/// The trees of the steps of a chain.
pub open spec fn steps_of(rest: Seq<BinaryOperation>) -> Seq<(BinOp, Tree)>
    decreases rest,
{
    if rest.len() == 0 {
        Seq::empty()
    } else {
        steps_of(rest.drop_last()).push((rest.last().operator, tree_of(rest.last().operand)))
    }
}

impl View for Operand {
    type V = Tree;

    open spec fn view(&self) -> Tree {
        tree_of(*self)
    }
}

/// The tree that joining `lhs` and `rhs` with `op` builds: a chain whose last
/// step shares the tier of `op` grows by one step, anything else becomes the
/// first operand of a new one-step chain.
pub open spec fn combine_tree(lhs: Tree, op: BinOp, rhs: Tree) -> Tree {
    match lhs {
        Tree::Chain(first, steps) => if steps.len() > 0 && tier(steps.last().0) == tier(op) {
            Tree::Chain(first, steps.push((op, rhs)))
        } else {
            Tree::Chain(Box::new(lhs), seq![(op, rhs)])
        },
        _ => Tree::Chain(Box::new(lhs), seq![(op, rhs)]),
    }
}

/// A chain has as many step trees as steps, and the last step tree carries
/// the last operator.
pub proof fn lemma_steps_of(rest: Seq<BinaryOperation>)
    ensures
        steps_of(rest).len() == rest.len(),
        rest.len() > 0 ==> steps_of(rest).last().0 == rest.last().operator,
    decreases rest.len(),
{
    if rest.len() > 0 {
        lemma_steps_of(rest.drop_last());
    }
}

/// The tree of a combination is `combine_tree` of the trees.
pub proof fn lemma_combination_tree(lhs: Operand, op: BinOp, rhs: Operand, r: Operand)
    requires
        is_combination(lhs, op, rhs, r),
    ensures
        tree_of(r) == combine_tree(tree_of(lhs), op, tree_of(rhs)),
{
    let step = BinaryOperation { operator: op, operand: rhs };
    let rb = r->Expr_0;
    assert(rb.rest@.last() == step);
    assert(steps_of(rb.rest@) == steps_of(rb.rest@.drop_last()).push((op, tree_of(rhs))));
    assert(steps_of(Seq::<BinaryOperation>::empty()) == Seq::<(BinOp, Tree)>::empty());
    if lhs is Expr {
        let lb = lhs->Expr_0;
        lemma_steps_of(lb.rest@);
        if crate::expression::extends_chain(lhs, op) {
            assert(rb.rest@.drop_last() =~= lb.rest@);
        } else {
            assert(rb.rest@.drop_last() =~= Seq::<BinaryOperation>::empty());
            assert(steps_of(rb.rest@) =~= seq![(op, tree_of(rhs))]);
            assert(tree_of(rb.first) == tree_of(lhs));
        }
    } else {
        assert(rb.rest@.drop_last() =~= Seq::<BinaryOperation>::empty());
        assert(steps_of(rb.rest@) =~= seq![(op, tree_of(rhs))]);
    }
}

/// Every chain in the tree keeps all its steps in one precedence tier.
pub open spec fn well_tiered(t: Tree) -> bool
    decreases t,
{
    match t {
        Tree::Var(_) => true,
        Tree::Num(_) => true,
        Tree::Unary(_, x) => well_tiered(*x),
        Tree::Chain(first, steps) => {
            &&& well_tiered(*first)
            &&& steps_well_tiered(steps)
            &&& forall|i: int| 0 <= i < steps.len() ==> tier(#[trigger] steps[i].0) == tier(steps[0].0)
        },
    }
}

/// Every step operand is itself well tiered.
pub open spec fn steps_well_tiered(steps: Seq<(BinOp, Tree)>) -> bool
    decreases steps,
{
    if steps.len() == 0 {
        true
    } else {
        steps_well_tiered(steps.drop_last()) && well_tiered(steps.last().1)
    }
}

/// Joining well-tiered trees gives a well-tiered tree.
pub proof fn lemma_combine_well_tiered(lhs: Tree, op: BinOp, rhs: Tree)
    requires
        well_tiered(lhs),
        well_tiered(rhs),
    ensures
        well_tiered(combine_tree(lhs, op, rhs)),
{
    let single = seq![(op, rhs)];
    assert(single.drop_last() =~= Seq::<(BinOp, Tree)>::empty());
    assert(steps_well_tiered(Seq::<(BinOp, Tree)>::empty()));
    assert(single.last() == (op, rhs));
    assert(steps_well_tiered(single));
    match lhs {
        Tree::Chain(first, steps) => {
            if steps.len() > 0 && tier(steps.last().0) == tier(op) {
                let grown = steps.push((op, rhs));
                assert(grown.drop_last() =~= steps);
                assert(grown.last() == (op, rhs));
                assert(tier(steps[steps.len() - 1].0) == tier(steps[0].0));
                assert forall|i: int| 0 <= i < grown.len() implies tier(#[trigger] grown[i].0) == tier(grown[0].0) by {
                    if i < steps.len() {
                        assert(grown[i] == steps[i]);
                    }
                }
                assert(steps_well_tiered(grown));
                assert(combine_tree(lhs, op, rhs) == Tree::Chain(first, grown));
            } else {
                assert(combine_tree(lhs, op, rhs) == Tree::Chain(Box::new(lhs), single));
                assert(well_tiered(Tree::Chain(Box::new(lhs), single)));
            }
        },
        _ => {},
    }
}

} // verus!
