//! The token stack: a LIFO sequence of tokens with constant-time push and
//! pop and non-destructive reads of the two topmost values. Its view is the
//! sequence of held tokens, bottom first, top last.

use vstd::prelude::*;

use crate::expr::Expression;
use crate::token::Token;

verus! {

/// A stack of tokens. An empty stack has length zero; popping it reports
/// absence instead of failing.
#[derive(Debug)]
pub struct Stack {
    items: Vec<Token>,
}

impl View for Stack {
    type V = Seq<Token>;

    closed spec fn view(&self) -> Seq<Token> {
        self.items@
    }
}

impl Stack {
    /// A stack holding the single given value.
    pub fn new(value: Token) -> (s: Stack)
        ensures
            s@ =~= seq![value],
    {
        let mut items: Vec<Token> = Vec::new();
        items.push(value);
        Stack { items }
    }

    /// A stack holding nothing.
    pub fn empty() -> (s: Stack)
        ensures
            s@ =~= Seq::<Token>::empty(),
    {
        Stack { items: Vec::new() }
    }

    /// Takes the expression's token sequence (which must be populated and
    /// non-empty) and builds a stack from it in original order, so that the
    /// last token ends up on top. The expression's sequence is left unset.
    pub fn from(tokens: &mut Expression) -> (s: Stack)
        requires
            old(tokens).structurized matches Some(ts) && ts@.len() >= 1,
        ensures
            final(tokens).structurized is None,
            final(tokens).raw == old(tokens).raw,
            (old(tokens).structurized matches Some(ts) && s@ == ts@),
    {
        let mut taken: Option<Vec<Token>> = None;
        core::mem::swap(&mut taken, &mut tokens.structurized);
        match taken {
            Some(ts) => Stack { items: ts },
            None => {
                proof {
                    assert(false);
                }
                Stack { items: Vec::new() }
            },
        }
    }

    /// Pushes a value on top.
    pub fn push(&mut self, value: Token)
        ensures
            final(self)@ == old(self)@.push(value),
    {
        self.items.push(value);
    }

    /// Removes and returns the top value, or reports absence on an empty
    /// stack, which it leaves unchanged.
    pub fn pop(&mut self) -> (r: Option<Token>)
        ensures
            old(self)@.len() == 0 ==> r is None && final(self)@ == old(self)@,
            old(self)@.len() > 0 ==> (r matches Some(t) && t == old(self)@.last() && final(self)@
                == old(self)@.drop_last()),
    {
        self.items.pop()
    }

    /// Reads the top value without removing it.
    pub fn peek(&self) -> (r: Option<Token>)
        ensures
            self@.len() == 0 ==> r is None,
            self@.len() > 0 ==> (r matches Some(t) && t == self@.last()),
    {
        if self.items.len() == 0 {
            None
        } else {
            Some(self.items[self.items.len() - 1].clone())
        }
    }

    /// Reads the value directly below the top, where the stack holds at
    /// least two.
    pub fn next(&self) -> (r: Option<Token>)
        ensures
            self@.len() < 2 ==> r is None,
            self@.len() >= 2 ==> (r matches Some(t) && t == self@[self@.len() - 2]),
    {
        if self.items.len() < 2 {
            None
        } else {
            Some(self.items[self.items.len() - 2].clone())
        }
    }

    /// The number of held values.
    pub fn len(&self) -> (n: usize)
        ensures
            n == self@.len(),
    {
        self.items.len()
    }

    /// Whether the stack holds nothing.
    pub fn is_empty(&self) -> (b: bool)
        ensures
            b == (self@.len() == 0),
    {
        self.items.len() == 0
    }

    /// A copy of the held values, bottom first: the computing half of the
    /// diagnostic listing (the printing half lives outside the library).
    pub fn to_vec(&self) -> (v: Vec<Token>)
        ensures
            v@ == self@,
    {
        let mut v: Vec<Token> = Vec::new();
        let mut i: usize = 0;
        while i < self.items.len()
            invariant
                i <= self.items@.len(),
                v@ =~= self.items@.subrange(0, i as int),
            decreases self.items@.len() - i,
        {
            v.push(self.items[i].clone());
            proof {
                assert(v@ =~= self.items@.subrange(0, i + 1));
            }
            i = i + 1;
        }
        proof {
            assert(self.items@.subrange(0, self.items@.len() as int) =~= self.items@);
        }
        v
    }
}

/// The values that `n` successive pops return, in order of return.
pub open spec fn pop_values(s: Seq<Token>, n: nat) -> Seq<Token>
    decreases n,
{
    if n == 0 || s.len() == 0 {
        Seq::empty()
    } else {
        seq![s.last()] + pop_values(s.drop_last(), (n - 1) as nat)
    }
}

/// The stack contents left after `n` successive pops.
pub open spec fn pop_rest(s: Seq<Token>, n: nat) -> Seq<Token>
    decreases n,
{
    if n == 0 || s.len() == 0 {
        s
    } else {
        pop_rest(s.drop_last(), (n - 1) as nat)
    }
}

/// Pushing values onto a stack holding `init` makes its contents
/// `init + vals` (by `push`'s contract); popping as many times as values
/// were pushed then returns exactly those values in reverse order and
/// leaves `init` behind — in particular, from an initially empty stack the
/// length returns to zero. Popping an empty stack returns an absent result
/// and changes nothing (`pop`'s contract states this directly).
pub proof fn lemma_push_pop_reverse(init: Seq<Token>, vals: Seq<Token>)
    ensures
        pop_values(init + vals, vals.len()) == vals.reverse(),
        pop_rest(init + vals, vals.len()) == init,
    decreases vals.len(),
{
    if vals.len() == 0 {
        assert(init + vals =~= init);
        assert(pop_values(init + vals, 0) =~= vals.reverse());
    } else {
        lemma_push_pop_reverse(init, vals.drop_last());
        assert((init + vals).drop_last() =~= init + vals.drop_last());
        assert((init + vals).len() > 0);
        assert((init + vals).last() == vals.last());
        assert(pop_values(init + vals, vals.len()) == seq![vals.last()] + pop_values(
            init + vals.drop_last(),
            (vals.len() - 1) as nat,
        ));
        assert(seq![vals.last()] + vals.drop_last().reverse() =~= vals.reverse());
    }
}

} // verus!
