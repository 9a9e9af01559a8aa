//! The persistent store: a durable mapping from addresses to byte
//! strings, with get/set/has/remove, plus the typed layer that
//! addresses it through keys alone.

use vstd::prelude::*;

use crate::bytes::{bytes_eq, copy_range};
use crate::keys::{DataKey, address_of, key_addr, key_wf};

verus! {

/// A key-to-bytes store. A write is visible to every later read of
/// the same handle; each call touches one address atomically.
pub struct Store {
    entries: Vec<(Vec<u8>, Vec<u8>)>,
}

/// The mapping an entry log stands for: later writes win.
spec fn map_of(s: Seq<(Vec<u8>, Vec<u8>)>) -> Map<Seq<u8>, Seq<u8>>
    decreases s.len(),
{
    if s.len() == 0 {
        Map::empty()
    } else {
        map_of(s.drop_last()).insert(s.last().0@, s.last().1@)
    }
}

impl View for Store {
    type V = Map<Seq<u8>, Seq<u8>>;

    closed spec fn view(&self) -> Map<Seq<u8>, Seq<u8>> {
        map_of(self.entries@)
    }
}

impl Store {
    /// A fresh store holding nothing.
    pub fn new() -> (s: Store)
        ensures
            s@ == Map::<Seq<u8>, Seq<u8>>::empty(),
    {
        Store { entries: Vec::new() }
    }

    /// Writes `value` under `addr`; the write is durable on return.
    pub fn set(&mut self, addr: Vec<u8>, value: Vec<u8>)
        ensures
            final(self)@ == old(self)@.insert(addr@, value@),
    {
        let ghost a = addr@;
        let ghost v = value@;
        let ghost before = self.entries@;
        self.entries.push((addr, value));
        proof {
            assert(self.entries@.drop_last() =~= before);
            assert(self.entries@.last().0@ == a);
            assert(self.entries@.last().1@ == v);
        }
    }

    /// Reads the bytes under `addr`; an absent address yields `None`,
    /// never a fault.
    pub fn get(&self, addr: &Vec<u8>) -> (r: Option<Vec<u8>>)
        ensures
            r matches Some(v) ==> self@.contains_key(addr@) && v@ == self@[addr@],
            r is None ==> !self@.contains_key(addr@),
    {
        let mut i = self.entries.len();
        proof {
            assert(self.entries@.take(i as int) =~= self.entries@);
        }
        while i > 0
            invariant
                i <= self.entries@.len(),
                map_of(self.entries@).contains_key(addr@) == map_of(
                    self.entries@.take(i as int),
                ).contains_key(addr@),
                map_of(self.entries@).contains_key(addr@) ==> map_of(self.entries@)[addr@]
                    == map_of(self.entries@.take(i as int))[addr@],
            decreases i,
        {
            proof {
                assert(self.entries@.take(i as int).drop_last() =~= self.entries@.take(
                    i as int - 1,
                ));
                assert(self.entries@.take(i as int).last() == self.entries@[i as int - 1]);
            }
            if bytes_eq(&self.entries[i - 1].0, addr) {
                let v = copy_range(&self.entries[i - 1].1, 0, self.entries[i - 1].1.len());
                proof {
                    assert(v@ =~= self.entries@[i as int - 1].1@);
                }
                return Some(v);
            }
            i = i - 1;
        }
        proof {
            assert(self.entries@.take(0) =~= Seq::<(Vec<u8>, Vec<u8>)>::empty());
        }
        None
    }

    /// True when `addr` holds a value.
    pub fn has(&self, addr: &Vec<u8>) -> (r: bool)
        ensures
            r == self@.contains_key(addr@),
    {
        match self.get(addr) {
            Some(_) => true,
            None => false,
        }
    }

    /// Removes whatever `addr` holds.
    pub fn remove(&mut self, addr: &Vec<u8>)
        ensures
            final(self)@ == old(self)@.remove(addr@),
    {
        let ghost whole = self.entries@;
        let mut kept: Vec<(Vec<u8>, Vec<u8>)> = Vec::new();
        let mut i: usize = 0;
        proof {
            assert(whole.take(0) =~= Seq::<(Vec<u8>, Vec<u8>)>::empty());
            assert(map_of(kept@) =~= map_of(whole.take(0)).remove(addr@));
        }
        while i < self.entries.len()
            invariant
                self.entries@ == whole,
                i <= whole.len(),
                map_of(kept@) == map_of(whole.take(i as int)).remove(addr@),
            decreases whole.len() - i,
        {
            let ghost kept_before = kept@;
            let e0 = copy_range(&self.entries[i].0, 0, self.entries[i].0.len());
            let e1 = copy_range(&self.entries[i].1, 0, self.entries[i].1.len());
            let ghost g0 = e0@;
            let ghost g1 = e1@;
            let keep = !bytes_eq(&e0, addr);
            if keep {
                kept.push((e0, e1));
            }
            proof {
                let t1 = whole.take(i as int + 1);
                assert(t1.drop_last() =~= whole.take(i as int));
                assert(t1.last() == whole[i as int]);
                assert(g0 =~= whole[i as int].0@);
                assert(g1 =~= whole[i as int].1@);
                assert(map_of(t1) == map_of(whole.take(i as int)).insert(g0, g1));
                if keep {
                    assert(kept@.drop_last() =~= kept_before);
                    assert(kept@.last().0@ == g0);
                    assert(kept@.last().1@ == g1);
                    assert(map_of(kept@) == map_of(kept_before).insert(g0, g1));
                    assert(g0 != addr@);
                    assert(map_of(kept@) =~= map_of(t1).remove(addr@));
                } else {
                    assert(g0 == addr@);
                    assert(map_of(kept@) =~= map_of(t1).remove(addr@));
                }
            }
            i = i + 1;
        }
        proof {
            assert(whole.take(whole.len() as int) =~= whole);
        }
        self.entries = kept;
    }

    /// Reads the bytes under a typed key.
    pub fn get_key(&self, k: &DataKey) -> (r: Option<Vec<u8>>)
        requires
            key_wf(k@),
        ensures
            r matches Some(v) ==> self@.contains_key(key_addr(k@)) && v@ == self@[key_addr(k@)],
            r is None ==> !self@.contains_key(key_addr(k@)),
    {
        let addr = address_of(k);
        self.get(&addr)
    }

    /// Writes `value` under a typed key.
    pub fn set_key(&mut self, k: &DataKey, value: Vec<u8>)
        requires
            key_wf(k@),
        ensures
            final(self)@ == old(self)@.insert(key_addr(k@), value@),
    {
        let addr = address_of(k);
        self.set(addr, value);
    }

    /// True when a typed key holds a value.
    pub fn has_key(&self, k: &DataKey) -> (r: bool)
        requires
            key_wf(k@),
        ensures
            r == self@.contains_key(key_addr(k@)),
    {
        let addr = address_of(k);
        self.has(&addr)
    }

    /// Removes whatever a typed key holds.
    pub fn remove_key(&mut self, k: &DataKey)
        requires
            key_wf(k@),
        ensures
            final(self)@ == old(self)@.remove(key_addr(k@)),
    {
        let addr = address_of(k);
        self.remove(&addr);
    }
}

} // verus!
