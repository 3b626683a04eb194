//! The frequency table: for each context that training has met, the
//! distribution of the symbols that followed it.
use crate::assoc::{
    as_map, distinct_keys, has_key, index_of, lemma_absent, lemma_empty, lemma_entry,
    lemma_index, lemma_len, lemma_push, lemma_update,
};
use crate::context::{copied, equals_range};
use crate::distribution::{topped_up, total_of, Distribution};
use crate::known::KnownStates;
use crate::symbol::Symbol;
use crate::training::{recorded, smoothed};
use vstd::prelude::*;

verus! {

/// The weights that each walk of `walks` stands for.
pub open spec fn weights_of<T>(walks: Map<Seq<T>, Seq<(T, u64)>>) -> Map<Seq<T>, Map<T, u64>> {
    Map::new(|c: Seq<T>| walks.contains_key(c), |c: Seq<T>| as_map(walks[c]))
}

/// One context with its followers.
struct Row<T> {
    context: Vec<T>,
    followers: Distribution<T>,
}

/// A mapping from contexts to distributions. A context is kept once.
pub struct FrequencyTable<T> {
    rows: Vec<Row<T>>,
}

impl<T> View for FrequencyTable<T> {
    type V = Map<Seq<T>, Map<T, u64>>;

    /// For each context the weight of each of its followers.
    open spec fn view(&self) -> Map<Seq<T>, Map<T, u64>> {
        weights_of(self.walks())
    }
}

impl<T> FrequencyTable<T> {
    /// The contexts in the order in which the table keeps them, each with
    /// the entries of its distribution in the order of their walk.
    pub closed spec fn rows(&self) -> Seq<(Seq<T>, Seq<(T, u64)>)> {
        Seq::new(
            self.rows@.len(),
            |i: int| (self.rows@[i].context@, self.rows@[i].followers.entries()),
        )
    }

    /// For each context the entries of its distribution, in the order in
    /// which a draw walks them.
    pub open spec fn walks(&self) -> Map<Seq<T>, Seq<(T, u64)>> {
        as_map(self.rows())
    }

    /// No context is kept twice, no distribution lists a symbol twice, and
    /// every distribution has a weight above zero.
    pub open spec fn wf(&self) -> bool {
        &&& distinct_keys(self.rows())
        &&& forall|i: int|
            0 <= i < self.rows().len() ==> distinct_keys((#[trigger] self.rows()[i]).1)
        &&& forall|i: int| 0 <= i < self.rows().len() ==> total_of((#[trigger] self.rows()[i]).1) > 0
    }
}

/// Replacing or adding one walk replaces or adds its weights.
proof fn lemma_weights_insert<T>(
    walks: Map<Seq<T>, Seq<(T, u64)>>,
    context: Seq<T>,
    entries: Seq<(T, u64)>,
)
    ensures
        weights_of(walks.insert(context, entries)) == weights_of(walks).insert(
            context,
            as_map(entries),
        ),
{
    assert(weights_of(walks.insert(context, entries)) =~= weights_of(walks).insert(
        context,
        as_map(entries),
    ));
}

impl<T: Symbol> FrequencyTable<T> {
    /// A table without contexts.
    pub fn new() -> (table: Self)
        ensures
            table.wf(),
            table.rows() == Seq::<(Seq<T>, Seq<(T, u64)>)>::empty(),
            table@ == Map::<Seq<T>, Map<T, u64>>::empty(),
    {
        let table = FrequencyTable { rows: Vec::new() };
        proof {
            lemma_empty::<Seq<T>, Seq<(T, u64)>>();
            assert(table.rows() =~= Seq::<(Seq<T>, Seq<(T, u64)>)>::empty());
            assert(table@ =~= Map::<Seq<T>, Map<T, u64>>::empty());
        }
        table
    }

    /// The number of contexts.
    pub fn len(&self) -> (n: usize)
        ensures
            n == self.rows().len(),
            self.wf() ==> n == self@.len(),
    {
        proof {
            if self.wf() {
                lemma_len(self.rows());
                assert(self@.dom() =~= self.walks().dom());
            }
        }
        self.rows.len()
    }

    /// Whether the table has no context.
    pub fn is_empty(&self) -> (b: bool)
        ensures
            b == (self.rows().len() == 0),
            b == (self@ == Map::<Seq<T>, Map<T, u64>>::empty()),
    {
        proof {
            if self.rows().len() == 0 {
                assert(self@ =~= Map::<Seq<T>, Map<T, u64>>::empty());
            } else {
                assert(has_key(self.rows(), self.rows()[0].0));
                assert(self@.contains_key(self.rows()[0].0));
            }
        }
        self.rows.len() == 0
    }

    /// The context that the table keeps as number `index`, counted from
    /// zero, if there are that many.
    pub fn context(&self, index: usize) -> (r: Option<&Vec<T>>)
        ensures
            match r {
                Some(context) => index < self.rows().len() && context@ == self.rows()[index as int].0,
                None => index >= self.rows().len(),
            },
    {
        if index < self.rows.len() {
            Some(&self.rows[index].context)
        } else {
            None
        }
    }

    /// The row whose context is `seq` from `start` up to, and without, `end`.
    fn find(&self, seq: &[T], start: usize, end: usize) -> (r: Option<usize>)
        requires
            start <= end <= seq@.len(),
        ensures
            match r {
                Some(i) => i < self.rows().len() && self.rows()[i as int].0 == seq@.subrange(
                    start as int,
                    end as int,
                ),
                None => !has_key(self.rows(), seq@.subrange(start as int, end as int)),
            },
    {
        let mut i: usize = 0;
        while i < self.rows.len()
            invariant
                i <= self.rows.len(),
                start <= end <= seq@.len(),
                forall|k: int|
                    0 <= k < i ==> self.rows()[k].0 != seq@.subrange(start as int, end as int),
            decreases self.rows.len() - i,
        {
            if equals_range(&self.rows[i].context, seq, start, end) {
                return Some(i);
            }
            i += 1;
        }
        proof {
            lemma_absent(self.rows(), seq@.subrange(start as int, end as int));
        }
        None
    }

    /// Whether `context` is a key.
    pub fn contains_key(&self, context: &[T]) -> (b: bool)
        ensures
            b == self@.contains_key(context@),
    {
        assert(context@.subrange(0, context@.len() as int) =~= context@);
        match self.find(context, 0, context.len()) {
            Some(_) => {
                assert(has_key(self.rows(), context@));
                true
            },
            None => false,
        }
    }

    /// The distribution of the followers of `context`, if it is a key.
    pub fn get(&self, context: &[T]) -> (r: Option<&Distribution<T>>)
        requires
            self.wf(),
        ensures
            match r {
                Some(followers) => {
                    &&& self@.contains_key(context@)
                    &&& followers@ == self@[context@]
                    &&& followers.entries() == self.walks()[context@]
                    &&& followers.wf()
                    &&& followers.total() > 0
                },
                None => !self@.contains_key(context@),
            },
    {
        assert(context@.subrange(0, context@.len() as int) =~= context@);
        self.lookup(context, 0, context.len())
    }

    /// The distribution of the followers of the context that is `seq` from
    /// `start` up to, and without, `end`, if that is a key.
    pub(crate) fn lookup(&self, seq: &[T], start: usize, end: usize) -> (r: Option<
        &Distribution<T>,
    >)
        requires
            self.wf(),
            start <= end <= seq@.len(),
        ensures
            match r {
                Some(followers) => {
                    &&& self@.contains_key(seq@.subrange(start as int, end as int))
                    &&& followers@ == self@[seq@.subrange(start as int, end as int)]
                    &&& followers.entries() == self.walks()[seq@.subrange(
                        start as int,
                        end as int,
                    )]
                    &&& followers.wf()
                    &&& followers.total() > 0
                },
                None => !self@.contains_key(seq@.subrange(start as int, end as int)),
            },
    {
        match self.find(seq, start, end) {
            Some(i) => {
                proof {
                    lemma_entry(self.rows(), i as int);
                }
                Some(&self.rows[i].followers)
            },
            None => None,
        }
    }

    /// Records that `symbol` was seen to follow the context that is `seq`
    /// from `start` up to, and without, `end`.
    pub(crate) fn record(&mut self, seq: &[T], start: usize, end: usize, symbol: T)
        requires
            old(self).wf(),
            start <= end <= seq@.len(),
        ensures
            final(self).wf(),
            final(self)@ == recorded(old(self)@, seq@.subrange(start as int, end as int), symbol),
    {
        let ghost context = seq@.subrange(start as int, end as int);
        let ghost before = self.rows();
        match self.find(seq, start, end) {
            Some(i) => {
                proof {
                    lemma_entry(before, i as int);
                }
                self.rows[i].followers.reinforce(symbol);
                proof {
                    let entries = self.rows@[i as int].followers.entries();
                    assert(self.rows() =~= before.update(i as int, (context, entries)));
                    lemma_update(before, i as int, entries);
                    lemma_weights_insert(as_map(before), context, entries);
                }
            },
            None => {
                let mut followers = Distribution::new();
                followers.reinforce(symbol);
                let row = Row { context: copied(seq, start, end), followers };
                proof {
                    let entries = row.followers.entries();
                    lemma_push(before, context, entries);
                    lemma_weights_insert(as_map(before), context, entries);
                }
                self.rows.push(row);
                proof {
                    assert(self.rows() =~= before.push(
                        (context, self.rows@[before.len() as int].followers.entries()),
                    ));
                }
            },
        }
    }

    /// Gives every context a weight of `prior` for each symbol of `known`
    /// that it does not list.
    pub(crate) fn smooth(&mut self, known: &KnownStates<T>, prior: u64)
        requires
            old(self).wf(),
        ensures
            final(self).wf(),
            final(self)@ == smoothed(old(self)@, known@, prior),
    {
        let ghost before = self.rows();
        let mut r: usize = 0;
        while r < self.rows.len()
            invariant
                r <= self.rows.len(),
                self.rows().len() == before.len(),
                self.wf(),
                forall|i: int| 0 <= i < before.len() ==> (#[trigger] self.rows()[i]).0 == before[i].0,
                forall|i: int|
                    0 <= i < r ==> as_map((#[trigger] self.rows()[i]).1) == topped_up(
                        as_map(before[i].1),
                        known@,
                        prior,
                    ),
                forall|i: int| r <= i < before.len() ==> (#[trigger] self.rows()[i]).1 == before[i].1,
            decreases self.rows.len() - r,
        {
            let ghost at_row = self.rows();
            let mut k: usize = 0;
            while k < known.len()
                invariant
                    r < self.rows.len(),
                    self.rows().len() == before.len(),
                    self.wf(),
                    k <= known.symbols().len(),
                    forall|i: int|
                        0 <= i < before.len() ==> (#[trigger] self.rows()[i]).0 == before[i].0,
                    forall|i: int|
                        0 <= i < before.len() && i != r ==> (#[trigger] self.rows()[i]) == at_row[i],
                    as_map(self.rows()[r as int].1) == topped_up(
                        as_map(before[r as int].1),
                        known.symbols().take(k as int).to_set(),
                        prior,
                    ),
                decreases known.symbols().len() - k,
            {
                let symbol = known.at(k);
                let ghost earlier = self.rows();
                self.rows[r].followers.fill(symbol, prior);
                proof {
                    let entries = self.rows@[r as int].followers.entries();
                    assert(self.rows() =~= earlier.update(r as int, (earlier[r as int].0, entries)));
                    lemma_update(earlier, r as int, entries);
                    let seen = known.symbols().take(k as int);
                    assert(known.symbols().take(k + 1) =~= seen.push(symbol));
                    seen.lemma_push_to_set_commute(symbol);
                    assert(as_map(entries) =~= topped_up(
                        as_map(before[r as int].1),
                        seen.push(symbol).to_set(),
                        prior,
                    ));
                }
                k += 1;
            }
            proof {
                assert(known.symbols().take(known.symbols().len() as int) =~= known.symbols());
            }
            r += 1;
        }
        proof {
            let after = self.rows();
            assert forall|c: Seq<T>| has_key(after, c) <==> has_key(before, c) by {
                if has_key(after, c) {
                    let i = index_of(after, c);
                    assert(before[i].0 == c);
                }
                if has_key(before, c) {
                    let i = index_of(before, c);
                    assert(after[i].0 == c);
                }
            }
            assert forall|c: Seq<T>| has_key(before, c) implies self@[c] == smoothed(
                old(self)@,
                known@,
                prior,
            )[c] by {
                let i = index_of(before, c);
                lemma_index(before, c);
                assert(after[i].0 == c);
                lemma_entry(after, i);
                lemma_entry(before, i);
            }
            assert(self@ =~= smoothed(old(self)@, known@, prior));
        }
    }
}

} // verus!
