//! The symbols that training has met.
use crate::symbol::Symbol;
use vstd::prelude::*;

verus! {

/// The set of distinct symbols seen so far.
pub struct KnownStates<T> {
    symbols: Vec<T>,
}

impl<T> View for KnownStates<T> {
    type V = Set<T>;

    /// The symbols as a set.
    open spec fn view(&self) -> Set<T> {
        self.symbols().to_set()
    }
}

impl<T> KnownStates<T> {
    /// The symbols in the order in which the set keeps them.
    pub closed spec fn symbols(&self) -> Seq<T> {
        self.symbols@
    }

    /// No symbol is kept twice.
    pub open spec fn wf(&self) -> bool {
        self.symbols().no_duplicates()
    }
}

impl<T: Symbol> KnownStates<T> {
    /// The empty set.
    pub fn new() -> (known: Self)
        ensures
            known.wf(),
            known.symbols() == Seq::<T>::empty(),
            known@ == Set::<T>::empty(),
    {
        let known = KnownStates { symbols: Vec::new() };
        assert(known@ =~= Set::<T>::empty());
        known
    }

    /// The number of symbols.
    pub fn len(&self) -> (n: usize)
        ensures
            n == self.symbols().len(),
            self.wf() ==> n == self@.len(),
    {
        proof {
            if self.wf() {
                self.symbols@.unique_seq_to_set();
            }
        }
        self.symbols.len()
    }

    /// Whether no symbol has been seen.
    pub fn is_empty(&self) -> (b: bool)
        ensures
            b == (self.symbols().len() == 0),
            b == (self@ == Set::<T>::empty()),
    {
        proof {
            if self.symbols@.len() == 0 {
                assert(self@ =~= Set::<T>::empty());
            } else {
                assert(self.symbols@.contains(self.symbols@[0]));
                assert(self@.contains(self.symbols@[0]));
            }
        }
        self.symbols.len() == 0
    }

    /// The symbol that the set keeps as number `index`, counted from zero,
    /// if there are that many.
    pub fn symbol(&self, index: usize) -> (r: Option<T>)
        ensures
            r == (if index < self.symbols().len() {
                Some(self.symbols()[index as int])
            } else {
                None
            }),
    {
        if index < self.symbols.len() {
            Some(self.symbols[index])
        } else {
            None
        }
    }

    /// The symbol at `index`, which is below the number of symbols.
    pub(crate) fn at(&self, index: usize) -> (symbol: T)
        requires
            index < self.symbols().len(),
        ensures
            symbol == self.symbols()[index as int],
    {
        self.symbols[index]
    }

    /// Whether `symbol` has been seen.
    pub fn contains(&self, symbol: &T) -> (b: bool)
        ensures
            b == self@.contains(*symbol),
    {
        let mut i: usize = 0;
        while i < self.symbols.len()
            invariant
                i <= self.symbols.len(),
                forall|k: int| 0 <= k < i ==> self.symbols@[k] != *symbol,
            decreases self.symbols.len() - i,
        {
            if self.symbols[i].same(symbol) {
                assert(self.symbols@.contains(*symbol));
                return true;
            }
            i += 1;
        }
        false
    }

    /// Adds `symbol` to the set.
    pub(crate) fn insert(&mut self, symbol: T)
        requires
            old(self).wf(),
        ensures
            final(self).wf(),
            final(self)@ == old(self)@.insert(symbol),
    {
        if !self.contains(&symbol) {
            proof {
                self.symbols@.lemma_push_to_set_commute(symbol);
                assert forall|i: int, j: int|
                    0 <= i < self.symbols@.len() + 1 && 0 <= j < self.symbols@.len() + 1 && i
                        != j implies self.symbols@.push(symbol)[i] != self.symbols@.push(symbol)[j] by {
                    if i < self.symbols@.len() {
                        assert(self.symbols@.contains(self.symbols@[i]));
                    }
                    if j < self.symbols@.len() {
                        assert(self.symbols@.contains(self.symbols@[j]));
                    }
                }
            }
            self.symbols.push(symbol);
        } else {
            assert(self@ =~= self@.insert(symbol));
        }
    }
}

} // verus!
