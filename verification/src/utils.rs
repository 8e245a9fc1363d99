use vstd::prelude::*;

use std::sync::Arc;

verus! {

/// Walks through a shared list of items, handing out a clone of each in turn.
pub struct ArcIter<T> {
    current: usize,
    items: Arc<Vec<T>>,
}

impl<T> ArcIter<T> {
    /// The position of the next item to hand out.
    pub closed spec fn position(&self) -> nat {
        self.current as nat
    }

    /// The items walked through.
    pub closed spec fn item_seq(&self) -> Seq<T> {
        self.items@
    }

    #[verifier::type_invariant]
    spec fn within(&self) -> bool {
        self.current <= self.items@.len()
    }

    /// The items still to hand out, in order.
    pub closed spec fn remaining(&self) -> Seq<T> {
        self.items@.skip(self.current as int)
    }

    /// Starts a walk at the first item.
    pub fn new(items: Arc<Vec<T>>) -> (res: Self)
        ensures
            res.position() == 0,
            res.item_seq() == items@,
            res.remaining() == items@,
    {
        let res = Self { current: 0, items };
        assert(res.items@.skip(0) =~= res.items@);
        res
    }

    /// Hands out a clone of the next item and moves on, or `None` once every
    /// item was handed out.
    pub fn next(&mut self) -> (res: Option<T>) where T: Clone
        ensures
            final(self).item_seq() == old(self).item_seq(),
            old(self).position() < old(self).item_seq().len() ==> {
                &&& res is Some
                &&& cloned(old(self).item_seq()[old(self).position() as int], res->0)
                &&& final(self).position() == old(self).position() + 1
            },
            old(self).position() >= old(self).item_seq().len() ==> {
                &&& res is None
                &&& final(self).position() == old(self).position()
            },
            old(self).remaining().len() > 0 ==> {
                &&& res is Some
                &&& cloned(old(self).remaining()[0], res->0)
                &&& final(self).remaining() == old(self).remaining().drop_first()
            },
            old(self).remaining().len() == 0 ==> res is None && final(self).remaining().len() == 0,
    {
        proof {
            use_type_invariant(&*self);
        }
        let items: &Vec<T> = &self.items;
        if self.current < items.len() {
            let next = items[self.current].clone();
            self.current = self.current + 1;
            Some(next)
        } else {
            None
        }
    }
}

} // verus!
