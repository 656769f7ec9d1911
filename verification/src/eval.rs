//! The evaluator: reduces a token sequence to a single integer with an
//! operand stack.
//!
//! Arithmetic is two's-complement 32-bit: addition, subtraction,
//! multiplication and division wrap around on overflow (the one division
//! that overflows is `i32::MIN / -1`).  Division truncates toward zero.

use crate::token::Node;
use vstd::prelude::*;
use vstd::wrapping::i32_specs;

verus! {

/// Why an evaluation failed.
#[derive(Debug, PartialEq, Eq, Structural, Clone, Copy)]
pub enum EvalError {
    /// An operator was reached with fewer than two operands on the stack.
    StackUnderflow,
    /// A division's right-hand operand was zero.
    DivideByZero,
    /// After all tokens, the stack did not hold exactly one value.
    MalformedResult,
}

/// Truncating (toward zero) integer division, the semantics of Rust's `/`.
pub open spec fn div_trunc(j: int, i: int) -> int
    recommends
        i != 0,
{
    if j >= 0 && i > 0 {
        j / i
    } else if j < 0 && i < 0 {
        (-j) / (-i)
    } else if j < 0 {
        -((-j) / i)
    } else {
        -(j / (-i))
    }
}

/// Truncating division of two `i32`s, wrapped into `i32` range
/// (`i32::MIN / -1` wraps to `i32::MIN`).
pub open spec fn div32(j: i32, i: i32) -> i32
    recommends
        i != 0,
{
    i32_specs::signed_crop(div_trunc(j as int, i as int))
}

/// One evaluation step: what one token does to the operand stack.
///
/// The right operand `i` is the value popped first (the top of the stack),
/// the left operand `j` the value popped second.
pub open spec fn spec_step(stack: Seq<i32>, node: Node) -> Result<Seq<i32>, EvalError> {
    match node {
        Node::Val(v) => Ok(stack.push(v)),
        _ => {
            if stack.len() < 2 {
                Err(EvalError::StackUnderflow)
            } else {
                let i = stack[stack.len() - 1];
                let j = stack[stack.len() - 2];
                let rest = stack.take(stack.len() - 2);
                match node {
                    Node::Plus => Ok(rest.push(i32_specs::wrapping_add(j, i))),
                    Node::Minus => Ok(rest.push(i32_specs::wrapping_sub(j, i))),
                    Node::Mul => Ok(rest.push(i32_specs::wrapping_mul(j, i))),
                    Node::Div => if i == 0 {
                        Err(EvalError::DivideByZero)
                    } else {
                        Ok(rest.push(div32(j, i)))
                    },
                    Node::Val(_) => arbitrary(),
                }
            }
        },
    }
}

/// Runs the evaluator over `nodes`, starting from `stack`; fail-fast:
/// the first failing step decides the result.
pub open spec fn spec_run(nodes: Seq<Node>, stack: Seq<i32>) -> Result<Seq<i32>, EvalError>
    decreases nodes.len(),
{
    if nodes.len() == 0 {
        Ok(stack)
    } else {
        match spec_step(stack, nodes[0]) {
            Ok(stack2) => spec_run(nodes.drop_first(), stack2),
            Err(e) => Err(e),
        }
    }
}

/// The whole evaluation: run from an empty stack; succeed only if exactly
/// one value remains, which is the result.
pub open spec fn spec_execute(nodes: Seq<Node>) -> Result<i32, EvalError> {
    match spec_run(nodes, Seq::<i32>::empty()) {
        Ok(stack) => if stack.len() == 1 {
            Ok(stack[0])
        } else {
            Err(EvalError::MalformedResult)
        },
        Err(e) => Err(e),
    }
}

/// Spec-level `/` is Euclidean; on a negative divisor it rounds the
/// quotient so that the remainder stays non-negative, which is exactly
/// the negation of dividing by the divisor's magnitude.
proof fn lemma_div_neg_divisor(a: int, b: int)
    requires
        0 <= a,
        b < 0,
    ensures
        a / b == -(a / (-b)),
{
    let c = -b;
    let q = a / c;
    let r = a % c;
    vstd::arithmetic::div_mod::lemma_fundamental_div_mod(a, c);
    vstd::arithmetic::div_mod::lemma_mod_bound(a, c);
    assert(a / b == -q) by (nonlinear_arith)
        requires
            a == c * q + r,
            0 <= r < c,
            b == -c,
            c > 0,
    ;
}

/// `signed_crop` is the identity on values already in `i32` range.
proof fn lemma_signed_crop_id(x: int)
    requires
        i32::MIN <= x <= i32::MAX,
    ensures
        i32_specs::signed_crop(x) == x,
{
    if x >= 0 {
        vstd::arithmetic::div_mod::lemma_small_mod(x as nat, 0x1_0000_0000nat);
    } else {
        vstd::arithmetic::div_mod::lemma_mod_add_multiples_vanish(x, 0x1_0000_0000);
        vstd::arithmetic::div_mod::lemma_small_mod((x + 0x1_0000_0000) as nat, 0x1_0000_0000nat);
    }
}

/// Truncating division of `i32` values stays in `i32` range, except for
/// `i32::MIN / -1`.
proof fn lemma_div_trunc_bounds(j: int, i: int)
    requires
        i32::MIN <= j <= i32::MAX,
        i32::MIN <= i <= i32::MAX,
        i != 0,
        !(j == i32::MIN && i == -1),
    ensures
        i32::MIN <= div_trunc(j, i) <= i32::MAX,
{
    if j >= 0 && i > 0 {
        vstd::arithmetic::div_mod::lemma_div_pos_is_pos(j, i);
        vstd::arithmetic::div_mod::lemma_div_nonincreasing(j, i);
    } else if j < 0 && i < 0 {
        vstd::arithmetic::div_mod::lemma_div_pos_is_pos(-j, -i);
        vstd::arithmetic::div_mod::lemma_div_nonincreasing(-j, -i);
        if j == i32::MIN {
            vstd::arithmetic::div_mod::lemma_div_is_ordered_by_denominator(-j, 2, -i);
            assert(0x8000_0000int / 2int == 0x4000_0000int) by (nonlinear_arith);
        }
    } else if j < 0 {
        vstd::arithmetic::div_mod::lemma_div_pos_is_pos(-j, i);
        vstd::arithmetic::div_mod::lemma_div_nonincreasing(-j, i);
    } else {
        vstd::arithmetic::div_mod::lemma_div_pos_is_pos(j, -i);
        vstd::arithmetic::div_mod::lemma_div_nonincreasing(j, -i);
    }
}

/// Truncating `i32` division; `i32::MIN / -1` wraps to `i32::MIN`.
fn div_i32(j: i32, i: i32) -> (r: i32)
    requires
        i != 0,
    ensures
        r == div32(j, i),
{
    if j == i32::MIN && i == -1 {
        proof {
            assert(-(j as int) == 0x8000_0000 && -(i as int) == 1);
            assert(0x8000_0000int / 1int == 0x8000_0000int) by (nonlinear_arith);
            assert(div_trunc(j as int, i as int) == 0x8000_0000);
            vstd::arithmetic::div_mod::lemma_small_mod(0x8000_0000nat, 0x1_0000_0000nat);
            assert(i32_specs::signed_crop(0x8000_0000) == i32::MIN);
        }
        i32::MIN
    } else {
        let r = j / i;
        proof {
            lemma_div_trunc_bounds(j as int, i as int);
            lemma_signed_crop_id(div_trunc(j as int, i as int));
            if j >= 0 && i > 0 {
                assert(r == (j as int) / (i as int));
            } else if j < 0 && i < 0 {
                lemma_div_neg_divisor(-(j as int), i as int);
                assert(r == (-(j as int)) / (-(i as int)));
            } else if j < 0 {
                assert(r == -((-(j as int)) / (i as int)));
            } else {
                lemma_div_neg_divisor(j as int, i as int);
                assert(r == -((j as int) / (-(i as int))));
            }
        }
        r
    }
}

/// The mathematical result of applying one binary operator to the left
/// operand `a` and the right operand `b`.
pub open spec fn exact_op(op: Node, a: int, b: int) -> int
    recommends
        !(op matches Node::Val(_)),
        op matches Node::Div ==> b != 0,
{
    match op {
        Node::Plus => a + b,
        Node::Minus => a - b,
        Node::Mul => a * b,
        Node::Div => div_trunc(a, b),
        Node::Val(_) => arbitrary(),
    }
}

/// Two values followed by one operator evaluate to `a op b`: the
/// first-pushed value is the left operand and the second-pushed value is
/// the right operand.  Stated for results that fit in 32 bits and, for
/// division, a non-zero right operand.
pub proof fn lemma_execute_binop(a: i32, b: i32, op: Node)
    requires
        !(op matches Node::Val(_)),
        op matches Node::Div ==> b != 0,
        i32::MIN <= exact_op(op, a as int, b as int) <= i32::MAX,
    ensures
        spec_execute(seq![Node::Val(a), Node::Val(b), op]) == Ok::<i32, EvalError>(
            exact_op(op, a as int, b as int) as i32,
        ),
{
    let nodes = seq![Node::Val(a), Node::Val(b), op];
    let s0 = Seq::<i32>::empty();
    let s1 = s0.push(a);
    let s2 = s1.push(b);
    assert(spec_step(s0, nodes[0]) == Ok::<Seq<i32>, EvalError>(s1));
    assert(nodes.drop_first() =~= seq![Node::Val(b), op]);
    assert(spec_step(s1, Node::Val(b)) == Ok::<Seq<i32>, EvalError>(s2));
    assert(seq![Node::Val(b), op].drop_first() =~= seq![op]);
    assert(s2.len() == 2 && s2[0] == a && s2[1] == b);
    assert(s2.take(0) =~= Seq::<i32>::empty());
    lemma_signed_crop_id(exact_op(op, a as int, b as int));
    let r = exact_op(op, a as int, b as int) as i32;
    assert(spec_step(s2, op) == Ok::<Seq<i32>, EvalError>(Seq::<i32>::empty().push(r)));
    assert(seq![op].drop_first() =~= Seq::<Node>::empty());
    let s3 = Seq::<i32>::empty().push(r);
    assert(spec_run(nodes, s0) == spec_run(seq![Node::Val(b), op], s1));
    assert(spec_run(seq![Node::Val(b), op], s1) == spec_run(seq![op], s2));
    assert(spec_run(seq![op], s2) == spec_run(Seq::<Node>::empty(), s3));
    assert(spec_run(Seq::<Node>::empty(), s3) == Ok::<Seq<i32>, EvalError>(s3));
    assert(s3.len() == 1 && s3[0] == r);
}

/// Evaluates a token sequence left to right with one operand stack.
///
/// `Val(v)` pushes `v`; each operator pops the right operand, then the left,
/// and pushes the combination, wrapping on 32-bit overflow.  Fails with
/// `StackUnderflow` when an operator finds fewer than two operands, with
/// `DivideByZero` when a division's right operand is zero, and with
/// `MalformedResult` when the final stack does not hold exactly one value.
pub fn execute(nodes: Vec<Node>) -> (r: Result<i32, EvalError>)
    ensures
        r == spec_execute(nodes@),
{
    let mut stack: Vec<i32> = Vec::new();
    let mut idx: usize = 0;
    proof {
        assert(nodes@.skip(0) =~= nodes@);
    }
    while idx < nodes.len()
        invariant
            idx <= nodes@.len(),
            spec_run(nodes@, Seq::<i32>::empty()) == spec_run(nodes@.skip(idx as int), stack@),
        decreases nodes@.len() - idx,
    {
        let node = nodes[idx];
        proof {
            assert(nodes@.skip(idx as int).len() > 0);
            assert(nodes@.skip(idx as int)[0] == node);
            assert(nodes@.skip(idx as int).drop_first() =~= nodes@.skip(idx as int + 1));
        }
        match node {
            Node::Val(v) => {
                stack.push(v);
            },
            _ => {
                if stack.len() < 2 {
                    return Err(EvalError::StackUnderflow);
                }
                let ghost old_stack = stack@;
                let i = stack.pop().unwrap();
                let j = stack.pop().unwrap();
                proof {
                    assert(stack@ =~= old_stack.take(old_stack.len() - 2));
                }
                let v = match node {
                    Node::Plus => j.wrapping_add(i),
                    Node::Minus => j.wrapping_sub(i),
                    Node::Mul => j.wrapping_mul(i),
                    Node::Div => {
                        if i == 0 {
                            return Err(EvalError::DivideByZero);
                        }
                        div_i32(j, i)
                    },
                    Node::Val(_) => {
                        proof {
                            assert(false);
                        }
                        0
                    },
                };
                stack.push(v);
            },
        }
        idx += 1;
    }
    proof {
        assert(nodes@.skip(idx as int) =~= Seq::<Node>::empty());
    }
    if stack.len() == 1 {
        Ok(stack[0])
    } else {
        Err(EvalError::MalformedResult)
    }
}

} // verus!

