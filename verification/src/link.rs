//! A weighted candidate continuation. Weights only ever grow, and they grow
//! by saturating addition, so no amount of training can make one overflow.

use vstd::prelude::*;

use crate::token::{Token, TokenView};

verus! {

/// Addition that stops at `usize::MAX` instead of wrapping.
pub open spec fn sat_add(a: nat, b: nat) -> nat {
    if a + b <= usize::MAX as nat {
        a + b
    } else {
        usize::MAX as nat
    }
}

/// Multiplication that stops at `usize::MAX` instead of wrapping.
pub open spec fn sat_mul(a: nat, b: nat) -> nat {
    if a * b <= usize::MAX as nat {
        a * b
    } else {
        usize::MAX as nat
    }
}

/// A candidate next token and its weight.
pub struct Link {
    pub token: Token,
    pub count: usize,
}

/// The mathematical value of a `Link`.
pub struct LinkView {
    pub token: TokenView,
    pub count: nat,
}

impl View for Link {
    type V = LinkView;

    open spec fn view(&self) -> LinkView {
        LinkView { token: self.token@, count: self.count as nat }
    }
}

impl Link {
    /// A fresh link carries weight one.
    pub fn new(token: Token) -> (r: Link)
        ensures
            r@ == (LinkView { token: token@, count: 1 }),
    {
        Link { token, count: 1 }
    }

    /// Folds another observation of the same token into this link.
    pub fn merge(&mut self, other: &Link)
        requires
            old(self).token@ == other.token@,
        ensures
            final(self)@.token == old(self)@.token,
            final(self)@.count == sat_add(old(self)@.count, other@.count),
    {
        self.count = self.count.saturating_add(other.count);
    }

    /// Raises the weight by `count`, saturating.
    pub fn expand(&mut self, count: usize)
        ensures
            final(self)@.token == old(self)@.token,
            final(self)@.count == sat_add(old(self)@.count, count as nat),
    {
        self.count = self.count.saturating_add(count);
    }
}

impl Clone for Link {
    fn clone(&self) -> (r: Self)
        ensures
            r@ == self@,
    {
        Link { token: self.token.clone(), count: self.count }
    }
}

} // verus!
