//! The precedence reducer: consumes a token stack front-to-back and, with
//! an output queue and an operator stack, reorders it by operator
//! precedence (shunting-yard) into an evaluation-ready sequence.

use vstd::prelude::*;

use crate::expr::Expression;
use crate::stack::Stack;
use crate::token::Operator;
use crate::token::Token;
use crate::token::spec_precedence;

verus! {

/// One shunting-yard reduction over the remaining `input` (consumption
/// order), the pending operator stack `ops` (top last) and the output
/// emitted so far:
/// - an operand moves to the output;
/// - an operator first releases every pending operator of
///   greater-or-equal precedence to the output, then goes pending;
/// - a left parenthesis goes pending and stops releases;
/// - a right parenthesis releases pending operators down to the matching
///   left parenthesis and discards the pair (with no pending left
///   parenthesis it only empties the pending stack);
/// - exhausted input releases everything still pending to the output.
pub open spec fn shunt(input: Seq<Token>, ops: Seq<Token>, out: Seq<Token>) -> Seq<Token>
    decreases input.len(), ops.len(),
{
    if input.len() == 0 {
        out + ops.reverse()
    } else {
        match input[0] {
            Token::Operand(_) => shunt(input.drop_first(), ops, out.push(input[0])),
            Token::Operator(o1) => {
                if ops.len() > 0 && (ops.last() matches Token::Operator(o2) && spec_precedence(o2)
                    >= spec_precedence(o1)) {
                    shunt(input, ops.drop_last(), out.push(ops.last()))
                } else {
                    shunt(input.drop_first(), ops.push(input[0]), out)
                }
            },
            Token::ParenL => shunt(input.drop_first(), ops.push(input[0]), out),
            Token::ParenR => {
                if ops.len() == 0 {
                    shunt(input.drop_first(), ops, out)
                } else if ops.last() is ParenL {
                    shunt(input.drop_first(), ops.drop_last(), out)
                } else {
                    shunt(input, ops.drop_last(), out.push(ops.last()))
                }
            },
        }
    }
}

/// Whether the reducer's release condition holds: the pending stack's top
/// is an operator whose precedence is at least `p`.
pub open spec fn release_holds(ops: Seq<Token>, p: u8) -> bool {
    ops.len() > 0 && (ops.last() matches Token::Operator(o2) && spec_precedence(o2) >= p)
}

/// The reduction triple: the input token stack to be consumed, the output
/// queue of tokens in final order, and the stack of pending operators.
pub struct UnwindStack {
    pub input_stack: Stack,
    pub output_queue: Stack,
    pub operator_stack: Stack,
}

impl UnwindStack {
    /// Takes the expression's token sequence (which must be populated and
    /// non-empty) and builds the triple: the input stack holds the tokens
    /// with the first on top, so that they are consumed front-to-back; the
    /// output queue and the operator stack start empty.
    pub fn new(expression: &mut Expression) -> (u: UnwindStack)
        requires
            old(expression).structurized matches Some(ts) && ts@.len() >= 1,
        ensures
            final(expression).structurized is None,
            final(expression).raw == old(expression).raw,
            (old(expression).structurized matches Some(ts) && u.input_stack@ == ts@.reverse()),
            u.output_queue@ == Seq::<Token>::empty(),
            u.operator_stack@ == Seq::<Token>::empty(),
    {
        let mut src = Stack::from(expression);
        let ghost ts = src@;
        let mut input = Stack::empty();
        while !src.is_empty()
            invariant
                src@.len() <= ts.len(),
                input@.len() + src@.len() == ts.len(),
                forall|i: int| 0 <= i < src@.len() ==> src@[i] == ts[i],
                forall|i: int| 0 <= i < input@.len() ==> input@[i] == ts[ts.len() - 1 - i],
            decreases src@.len(),
        {
            let ghost k = src@.len() as int;
            match src.pop() {
                Some(t) => {
                    input.push(t);
                    proof {
                        assert(t == ts[k - 1]);
                    }
                },
                None => {
                    proof {
                        assert(false);
                    }
                },
            }
        }
        proof {
            assert(input@ =~= ts.reverse());
        }
        UnwindStack { input_stack: input, output_queue: Stack::empty(), operator_stack: Stack::empty() }
    }

    /// Consumes the whole input stack, front-to-back, applying the
    /// shunting-yard reduction: the output queue ends up holding exactly
    /// what `shunt` says of the starting state, the input and the pending
    /// operator stack end empty, and the call always succeeds.
    pub fn calculate(&mut self) -> (r: Result<(), crate::token::Error>)
        ensures
            r is Ok,
            final(self).output_queue@ == shunt(
                old(self).input_stack@.reverse(),
                old(self).operator_stack@,
                old(self).output_queue@,
            ),
            final(self).input_stack@ == Seq::<Token>::empty(),
            final(self).operator_stack@ == Seq::<Token>::empty(),
    {
        let ghost goal = shunt(
            old(self).input_stack@.reverse(),
            old(self).operator_stack@,
            old(self).output_queue@,
        );
        while !self.input_stack.is_empty()
            invariant
                goal == shunt(
                    self.input_stack@.reverse(),
                    self.operator_stack@,
                    self.output_queue@,
                ),
            decreases self.input_stack@.len(),
        {
            let ghost cons = self.input_stack@.reverse();
            let t = match self.input_stack.pop() {
                Some(t) => t,
                None => {
                    proof {
                        assert(false);
                    }
                    Token::ParenL
                },
            };
            proof {
                assert(cons[0] == t);
                assert(self.input_stack@.reverse() =~= cons.drop_first());
            }
            match t {
                Token::Operand(_) => {
                    let ghost pre_out = self.output_queue@;
                    self.output_queue.push(t);
                    proof {
                        assert(shunt(cons, self.operator_stack@, pre_out) == shunt(
                            cons.drop_first(),
                            self.operator_stack@,
                            pre_out.push(t),
                        ));
                    }
                },
                Token::Operator(o1) => {
                    let p1 = o1.precedence();
                    let mut done = false;
                    while !done
                        invariant
                            p1 == spec_precedence(o1),
                            cons.len() > 0,
                            cons[0] == Token::Operator(o1),
                            goal == shunt(cons, self.operator_stack@, self.output_queue@),
                            self.input_stack@.reverse() =~= cons.drop_first(),
                            done ==> !release_holds(self.operator_stack@, p1),
                        decreases self.operator_stack@.len(), if done {
                            0int
                        } else {
                            1int
                        },
                    {
                        let release = match self.operator_stack.peek() {
                            Some(Token::Operator(o2)) => o2.precedence() >= p1,
                            _ => false,
                        };
                        if release {
                            let ghost pre_ops = self.operator_stack@;
                            let ghost pre_out = self.output_queue@;
                            match self.operator_stack.pop() {
                                Some(x) => {
                                    self.output_queue.push(x);
                                    proof {
                                        assert(shunt(cons, pre_ops, pre_out) == shunt(
                                            cons,
                                            pre_ops.drop_last(),
                                            pre_out.push(pre_ops.last()),
                                        ));
                                    }
                                },
                                None => {
                                    proof {
                                        assert(false);
                                    }
                                },
                            }
                        } else {
                            done = true;
                        }
                    }
                    let ghost pre_ops = self.operator_stack@;
                    self.operator_stack.push(t);
                    proof {
                        assert(shunt(cons, pre_ops, self.output_queue@) == shunt(
                            cons.drop_first(),
                            pre_ops.push(t),
                            self.output_queue@,
                        ));
                    }
                },
                Token::ParenL => {
                    let ghost pre_ops = self.operator_stack@;
                    self.operator_stack.push(t);
                    proof {
                        assert(shunt(cons, pre_ops, self.output_queue@) == shunt(
                            cons.drop_first(),
                            pre_ops.push(t),
                            self.output_queue@,
                        ));
                    }
                },
                Token::ParenR => {
                    let mut done = false;
                    while !done
                        invariant
                            cons.len() > 0,
                            cons[0] == Token::ParenR,
                            self.input_stack@.reverse() =~= cons.drop_first(),
                            !done ==> goal == shunt(
                                cons,
                                self.operator_stack@,
                                self.output_queue@,
                            ),
                            done ==> goal == shunt(
                                cons.drop_first(),
                                self.operator_stack@,
                                self.output_queue@,
                            ),
                        decreases self.operator_stack@.len(), if done {
                            0int
                        } else {
                            1int
                        },
                    {
                        let ghost pre_ops = self.operator_stack@;
                        let ghost pre_out = self.output_queue@;
                        match self.operator_stack.peek() {
                            None => {
                                proof {
                                    assert(shunt(cons, pre_ops, pre_out) == shunt(
                                        cons.drop_first(),
                                        pre_ops,
                                        pre_out,
                                    ));
                                }
                                done = true;
                            },
                            Some(Token::ParenL) => {
                                self.operator_stack.pop();
                                proof {
                                    assert(shunt(cons, pre_ops, pre_out) == shunt(
                                        cons.drop_first(),
                                        pre_ops.drop_last(),
                                        pre_out,
                                    ));
                                }
                                done = true;
                            },
                            Some(_) => {
                                match self.operator_stack.pop() {
                                    Some(x) => {
                                        self.output_queue.push(x);
                                        proof {
                                            assert(shunt(cons, pre_ops, pre_out) == shunt(
                                                cons,
                                                pre_ops.drop_last(),
                                                pre_out.push(pre_ops.last()),
                                            ));
                                        }
                                    },
                                    None => {
                                        proof {
                                            assert(false);
                                        }
                                    },
                                }
                            },
                        }
                    }
                },
            }
        }
        proof {
            assert(self.input_stack@.reverse() =~= Seq::<Token>::empty());
        }
        while !self.operator_stack.is_empty()
            invariant
                self.input_stack@.len() == 0,
                goal == shunt(Seq::<Token>::empty(), self.operator_stack@, self.output_queue@),
            decreases self.operator_stack@.len(),
        {
            let ghost pre_ops = self.operator_stack@;
            let ghost pre_out = self.output_queue@;
            match self.operator_stack.pop() {
                Some(x) => {
                    self.output_queue.push(x);
                    proof {
                        assert(pre_out + pre_ops.reverse() =~= pre_out.push(pre_ops.last())
                            + pre_ops.drop_last().reverse());
                    }
                },
                None => {
                    proof {
                        assert(false);
                    }
                },
            }
        }
        proof {
            assert(self.output_queue@ + Seq::<Token>::empty().reverse() =~= self.output_queue@);
        }
        Ok(())
    }
}

} // verus!
