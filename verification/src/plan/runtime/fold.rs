//! Global fold accumulator and the return cell that holds it until the result is taken.

use vstd::prelude::*;
use crate::plan::representation::id::MonoidId;
use crate::plan::representation::registry::{value_views, Registry, Value, ValueM};

verus! {

/// The fold accumulator, updated as rows become ready.
pub struct FoldAcc {
    monoid: MonoidId,
    acc: Value,
}

impl FoldAcc {
    pub closed spec fn spec_monoid(&self) -> MonoidId {
        self.monoid
    }

    pub closed spec fn spec_acc(&self) -> ValueM {
        self.acc@
    }

    /// The accumulator is a list and these are its items.
    pub closed spec fn spec_items(&self) -> Seq<ValueM> {
        match self.acc {
            Value::List(xs) => value_views(xs@),
            _ => Seq::empty(),
        }
    }

    pub closed spec fn spec_is_list(&self) -> bool {
        self.acc is List
    }

    /// Starts from the identity of `monoid`.
    pub fn new(registry: &Registry, monoid: MonoidId) -> (r: FoldAcc)
        requires
            monoid.0 < registry.spec_monoid_count(),
        ensures
            r.spec_monoid() == monoid,
            r.spec_acc() == registry.spec_identity(monoid.0 as int),
            registry.spec_identity(monoid.0 as int) == ValueM::List(Seq::empty()) ==> r.spec_is_list() && r.spec_items() == Seq::<ValueM>::empty(),
    {
        let acc = registry.monoid_identity(monoid);
        proof {
            if acc is List {
                crate::plan::representation::registry::lemma_list_view(acc->List_0);
            }
        }
        FoldAcc { monoid, acc }
    }

    /// Appends `item` with the monoid.
    pub fn append(&mut self, registry: &Registry, item: Value)
        requires
            old(self).spec_monoid().0 < registry.spec_monoid_count(),
            registry.monoid_ready(old(self).spec_monoid().0 as int),
        ensures
            final(self).spec_monoid() == old(self).spec_monoid(),
            registry.spec_is_list(old(self).spec_monoid().0 as int) && old(self).spec_is_list() ==> {
                &&& final(self).spec_is_list()
                &&& final(self).spec_items() == old(self).spec_items().push(item@)
            },
    {
        let mut prev = Value::Unit;
        std::mem::swap(&mut prev, &mut self.acc);
        assert(registry.spec_append_accepts(self.monoid.0 as int, prev, item));
        let next = registry.monoid_append(self.monoid, prev, item);
        proof {
            if next is List {
                crate::plan::representation::registry::lemma_list_view(next->List_0);
            }
        }
        self.acc = next;
    }

    /// The accumulated value.
    pub fn finish(self) -> (r: Value)
        ensures
            r@ == self.spec_acc(),
            self.spec_is_list() ==> r@ == ValueM::List(self.spec_items()),
    {
        proof {
            if self.acc is List {
                crate::plan::representation::registry::lemma_list_view(self.acc->List_0);
            }
        }
        self.acc
    }
}

/// The live fold until the result is taken.
pub struct ReturnCell {
    fold: Option<FoldAcc>,
}

impl ReturnCell {
    pub closed spec fn spec_fold(&self) -> Option<FoldAcc> {
        self.fold
    }

    pub fn from_fold(fold: FoldAcc) -> (r: ReturnCell)
        ensures
            r.spec_fold() == Some(fold),
    {
        ReturnCell { fold: Some(fold) }
    }

    /// Appends `item` to the live fold.
    pub fn append(&mut self, registry: &Registry, item: Value)
        requires
            old(self).spec_fold() matches Some(f) && f.spec_monoid().0 < registry.spec_monoid_count()
                && registry.monoid_ready(f.spec_monoid().0 as int),
        ensures
            final(self).spec_fold() matches Some(f) && {
                let g = old(self).spec_fold().unwrap();
                &&& f.spec_monoid() == g.spec_monoid()
                &&& registry.spec_is_list(g.spec_monoid().0 as int) && g.spec_is_list() ==> {
                    &&& f.spec_is_list()
                    &&& f.spec_items() == g.spec_items().push(item@)
                }
            },
    {
        let mut fold = self.fold.take().unwrap();
        fold.append(registry, item);
        self.fold = Some(fold);
    }

    /// The folded value; the cell is empty afterwards.
    pub fn take(&mut self) -> (r: Value)
        requires
            old(self).spec_fold() is Some,
        ensures
            final(self).spec_fold() is None,
            r@ == old(self).spec_fold().unwrap().spec_acc(),
            old(self).spec_fold().unwrap().spec_is_list() ==> r@ == ValueM::List(old(self).spec_fold().unwrap().spec_items()),
    {
        self.fold.take().unwrap().finish()
    }
}

} // verus!
