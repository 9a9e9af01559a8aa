//! The set of principals that sanctioned the current invocation.
//! Checking a proof of authorization is an external concern; this
//! context only answers whether the invocation carries one from a
//! given principal.

use vstd::prelude::*;

use crate::bytes::bytes_eq;
use crate::values::Address;

verus! {

/// What the current invocation carries: the identities that authorized
/// it.
pub struct AuthContext {
    approvals: Vec<Address>,
}

impl View for AuthContext {
    type V = Seq<Seq<u8>>;

    closed spec fn view(&self) -> Seq<Seq<u8>> {
        self.approvals@.map_values(|a: Address| a@)
    }
}

impl AuthContext {
    /// A context with no authorizations at all.
    pub fn new() -> (c: AuthContext)
        ensures
            c@ == Seq::<Seq<u8>>::empty(),
    {
        let c = AuthContext { approvals: Vec::new() };
        proof {
            assert(c@ =~= Seq::<Seq<u8>>::empty());
        }
        c
    }

    /// Records that `principal` authorized this invocation.
    pub fn approve(&mut self, principal: Address)
        ensures
            final(self)@ == old(self)@.push(principal@),
    {
        let ghost p = principal@;
        let ghost before = self@;
        self.approvals.push(principal);
        proof {
            assert(self@ =~= before.push(p));
        }
    }

    /// True when this invocation carries an authorization from
    /// `principal`.
    pub fn is_granted(&self, principal: &Address) -> (r: bool)
        ensures
            r == self@.contains(principal@),
    {
        let mut i: usize = 0;
        while i < self.approvals.len()
            invariant
                i <= self@.len(),
                self@.len() == self.approvals@.len(),
                forall|t: int| 0 <= t < i ==> self@[t] != principal@,
            decreases self@.len() - i,
        {
            if bytes_eq(&self.approvals[i].bytes, &principal.bytes) {
                proof {
                    assert(self@[i as int] == principal@);
                }
                return true;
            }
            i = i + 1;
        }
        proof {
            if self@.contains(principal@) {
                let t = choose|t: int| 0 <= t < self@.len() && self@[t] == principal@;
                assert(self@[t] != principal@);
            }
        }
        false
    }
}

} // verus!
