//! The followers of one context: each symbol with its weight.
use crate::assoc::{
    as_map, distinct_keys, has_key, index_of, lemma_absent, lemma_empty, lemma_entry,
    lemma_index, lemma_len, lemma_push, lemma_update,
};
use crate::symbol::Symbol;
use crate::weight::{lemma_raised_grows, observe, raised};
use vstd::prelude::*;
use vstd::set_lib::{lemma_int_range, set_int_range};

verus! {

/// The sum of the weights of `entries`.
pub open spec fn total_of<T>(entries: Seq<(T, u64)>) -> nat
    decreases entries.len(),
{
    if entries.len() == 0 {
        0
    } else {
        total_of(entries.drop_last()) + entries.last().1 as nat
    }
}

/// The roll falls on entry `i` of the wheel: the entries before it weigh no
/// more than `roll`, and together with entry `i` they weigh more.
pub open spec fn selects<T>(entries: Seq<(T, u64)>, i: int, roll: nat) -> bool {
    &&& 0 <= i < entries.len()
    &&& total_of(entries.take(i)) <= roll < total_of(entries.take(i + 1))
}

/// The symbol on which `roll` falls when the entries are laid side by side,
/// each as wide as its weight; none when `roll` is not below their total.
pub open spec fn chosen<T>(entries: Seq<(T, u64)>, roll: nat) -> Option<T> {
    if exists|i: int| selects(entries, i, roll) {
        Some(entries[choose|i: int| selects(entries, i, roll)].0)
    } else {
        None
    }
}

/// Some roll below the total of `entries` chooses `next`.
pub open spec fn may_choose<T>(entries: Seq<(T, u64)>, next: Option<T>) -> bool {
    exists|roll: nat| roll < total_of(entries) && #[trigger] chosen(entries, roll) == next
}

/// The weight that `weights` holds for `symbol`, zero where it holds none.
pub open spec fn weight_of<T>(weights: Map<T, u64>, symbol: T) -> u64 {
    if weights.contains_key(symbol) {
        weights[symbol]
    } else {
        0
    }
}

/// `weights` with `prior` for every symbol of `known` that had no weight.
pub open spec fn topped_up<T>(weights: Map<T, u64>, known: Set<T>, prior: u64) -> Map<T, u64> {
    Map::new(
        |s: T| weights.contains_key(s) || known.contains(s),
        |s: T|
            if weights.contains_key(s) {
                weights[s]
            } else {
                prior
            },
    )
}

/// The entries up to `i + 1` weigh what those up to `i` weigh, and entry `i`.
pub proof fn lemma_total_step<T>(entries: Seq<(T, u64)>, i: int)
    requires
        0 <= i < entries.len(),
    ensures
        total_of(entries.take(i + 1)) == total_of(entries.take(i)) + entries[i].1,
{
    assert(entries.take(i + 1).drop_last() =~= entries.take(i));
}

/// A longer run of entries weighs no less than a shorter one.
pub proof fn lemma_total_monotone<T>(entries: Seq<(T, u64)>, i: int, j: int)
    requires
        0 <= i <= j <= entries.len(),
    ensures
        total_of(entries.take(i)) <= total_of(entries.take(j)),
        total_of(entries.take(entries.len() as int)) == total_of(entries),
    decreases j - i,
{
    assert(entries.take(entries.len() as int) =~= entries);
    if i < j {
        lemma_total_monotone(entries, i, j - 1);
        lemma_total_step(entries, j - 1);
    }
}

/// The total is at least the weight of any one entry.
pub proof fn lemma_total_covers<T>(entries: Seq<(T, u64)>, i: int)
    requires
        0 <= i < entries.len(),
    ensures
        total_of(entries) >= entries[i].1,
{
    lemma_total_monotone(entries, i + 1, entries.len() as int);
    lemma_total_step(entries, i);
}

/// A roll falls on one entry at most.
pub proof fn lemma_selects_one<T>(entries: Seq<(T, u64)>, i: int, j: int, roll: nat)
    requires
        selects(entries, i, roll),
        selects(entries, j, roll),
    ensures
        i == j,
{
    if i < j {
        lemma_total_monotone(entries, i + 1, j);
    } else if j < i {
        lemma_total_monotone(entries, j + 1, i);
    }
}

/// A roll that falls on entry `i` chooses its symbol; a roll that is not
/// below the total chooses none.
pub proof fn lemma_chosen<T>(entries: Seq<(T, u64)>, roll: nat)
    ensures
        forall|i: int| selects(entries, i, roll) ==> chosen(entries, roll) == Some(entries[i].0),
        roll >= total_of(entries) <==> chosen(entries, roll) is None,
{
    assert forall|i: int| selects(entries, i, roll) implies chosen(entries, roll) == Some(
        entries[i].0,
    ) by {
        let j = choose|j: int| selects(entries, j, roll);
        lemma_selects_one(entries, i, j, roll);
    }
    if roll >= total_of(entries) {
        assert forall|i: int| !selects(entries, i, roll) by {
            if 0 <= i < entries.len() {
                lemma_total_monotone(entries, i + 1, entries.len() as int);
            }
        }
    } else {
        lemma_total_monotone(entries, 0, entries.len() as int);
        lemma_roll_falls(entries, entries.len() as int, roll);
    }
}

/// A roll below the weight of the first `n` entries falls on one of them.
proof fn lemma_roll_falls<T>(entries: Seq<(T, u64)>, n: int, roll: nat)
    requires
        0 <= n <= entries.len(),
        roll < total_of(entries.take(n)),
    ensures
        exists|i: int| 0 <= i < n && selects(entries, i, roll),
    decreases n,
{
    if n == 0 {
        assert(entries.take(0).len() == 0);
    } else {
        lemma_total_step(entries, n - 1);
        if roll < total_of(entries.take(n - 1)) {
            lemma_roll_falls(entries, n - 1, roll);
        } else {
            assert(selects(entries, n - 1, roll));
        }
    }
}

/// Every symbol has its share of the wheel: the rolls that choose the
/// symbol of entry `i` are those from the weight of the entries before it
/// up to, and without, that weight and its own.
pub proof fn lemma_share<T>(entries: Seq<(T, u64)>, i: int, roll: nat)
    requires
        distinct_keys(entries),
        0 <= i < entries.len(),
    ensures
        chosen(entries, roll) == Some(entries[i].0) <==> total_of(entries.take(i)) <= roll
            < total_of(entries.take(i)) + entries[i].1,
{
    lemma_total_step(entries, i);
    lemma_chosen(entries, roll);
    if selects(entries, i, roll) {
        assert(chosen(entries, roll) == Some(entries[i].0));
    }
    if chosen(entries, roll) == Some(entries[i].0) {
        let j = choose|j: int| selects(entries, j, roll);
        assert(selects(entries, j, roll));
        if j < i {
            assert(entries[j].0 != entries[i].0);
        } else if i < j {
            assert(entries[i].0 != entries[j].0);
        }
        assert(selects(entries, i, roll));
    }
}

/// Sampling is proportional: of the rolls below the total, exactly as many
/// choose a symbol as its weight says.
pub proof fn lemma_rolls_for_symbol<T>(entries: Seq<(T, u64)>, symbol: T)
    requires
        distinct_keys(entries),
        has_key(entries, symbol),
    ensures
        Set::new(|roll: int| 0 <= roll && chosen(entries, roll as nat) == Some(symbol)).finite(),
        Set::new(|roll: int| 0 <= roll && chosen(entries, roll as nat) == Some(symbol)).len()
            == as_map(entries)[symbol],
{
    let i = index_of(entries, symbol);
    lemma_index(entries, symbol);
    let low = total_of(entries.take(i)) as int;
    let high = low + entries[i].1;
    let rolls = Set::new(|roll: int| 0 <= roll && chosen(entries, roll as nat) == Some(symbol));
    assert forall|roll: int| rolls.contains(roll) <==> set_int_range(low, high).contains(
        roll,
    ) by {
        if 0 <= roll {
            lemma_share(entries, i, roll as nat);
        }
    }
    assert(rolls =~= set_int_range(low, high));
    lemma_int_range(low, high);
}

/// What may follow one context: symbols, each with a weight. No symbol is
/// listed twice. The entries stand in a fixed order, in which a draw walks
/// them; the share of a symbol in the draws does not depend on it.
pub struct Distribution<T> {
    entries: Vec<(T, u64)>,
}

impl<T> View for Distribution<T> {
    type V = Map<T, u64>;

    /// The weight of each listed symbol.
    open spec fn view(&self) -> Map<T, u64> {
        as_map(self.entries())
    }
}

impl<T> Distribution<T> {
    /// The symbols and their weights, in the order in which a draw walks
    /// them.
    pub closed spec fn entries(&self) -> Seq<(T, u64)> {
        self.entries@
    }

    /// No symbol is listed twice.
    pub open spec fn wf(&self) -> bool {
        distinct_keys(self.entries())
    }

    /// The sum of all weights.
    pub open spec fn total(&self) -> nat {
        total_of(self.entries())
    }
}

impl<T: Symbol> Distribution<T> {
    /// A distribution that lists no symbol.
    pub fn new() -> (d: Self)
        ensures
            d.wf(),
            d.entries() == Seq::<(T, u64)>::empty(),
            d@ == Map::<T, u64>::empty(),
    {
        proof {
            lemma_empty::<T, u64>();
        }
        Distribution { entries: Vec::new() }
    }

    /// The number of symbols listed.
    pub fn len(&self) -> (n: usize)
        ensures
            n == self.entries().len(),
            self.wf() ==> n == self@.len(),
    {
        proof {
            if self.wf() {
                lemma_len(self.entries());
            }
        }
        self.entries.len()
    }

    /// Whether no symbol is listed.
    pub fn is_empty(&self) -> (b: bool)
        ensures
            b == (self.entries().len() == 0),
            b == (self@ == Map::<T, u64>::empty()),
    {
        proof {
            if self.entries@.len() == 0 {
                assert(self@ =~= Map::<T, u64>::empty());
            } else {
                assert(has_key(self.entries(), self.entries@[0].0));
                assert(self@.contains_key(self.entries@[0].0));
            }
        }
        self.entries.len() == 0
    }

    /// The symbol and weight at `index` of the walk, if there are that many.
    pub fn entry(&self, index: usize) -> (r: Option<(T, u64)>)
        ensures
            r == (if index < self.entries().len() {
                Some(self.entries()[index as int])
            } else {
                None
            }),
    {
        if index < self.entries.len() {
            Some(self.entries[index])
        } else {
            None
        }
    }

    /// Where `symbol` is listed.
    fn position(&self, symbol: &T) -> (r: Option<usize>)
        ensures
            match r {
                Some(i) => i < self.entries().len() && self.entries()[i as int].0 == *symbol,
                None => !has_key(self.entries(), *symbol),
            },
    {
        let mut i: usize = 0;
        while i < self.entries.len()
            invariant
                i <= self.entries.len(),
                forall|k: int| 0 <= k < i ==> self.entries@[k].0 != *symbol,
            decreases self.entries.len() - i,
        {
            if self.entries[i].0.same(symbol) {
                return Some(i);
            }
            i += 1;
        }
        proof {
            lemma_absent(self.entries(), *symbol);
        }
        None
    }

    /// Whether `symbol` is listed.
    pub fn contains_key(&self, symbol: &T) -> (b: bool)
        ensures
            b == self@.contains_key(*symbol),
    {
        match self.position(symbol) {
            Some(_) => {
                assert(has_key(self.entries(), *symbol));
                true
            },
            None => false,
        }
    }

    /// The weight of `symbol`, if it is listed.
    pub fn get(&self, symbol: &T) -> (r: Option<&u64>)
        requires
            self.wf(),
        ensures
            match r {
                Some(weight) => self@.contains_key(*symbol) && *weight == self@[*symbol],
                None => !self@.contains_key(*symbol),
            },
    {
        match self.position(symbol) {
            Some(i) => {
                proof {
                    lemma_entry(self.entries(), i as int);
                }
                Some(&self.entries[i].1)
            },
            None => None,
        }
    }

    /// The sum of all weights.
    pub fn total_weight(&self) -> (t: u128)
        ensures
            t == self.total(),
    {
        let mut sum: u128 = 0;
        let mut i: usize = 0;
        while i < self.entries.len()
            invariant
                i <= self.entries.len(),
                sum == total_of(self.entries@.take(i as int)),
                sum <= i * u64::MAX,
            decreases self.entries.len() - i,
        {
            proof {
                lemma_total_step(self.entries@, i as int);
                assert(i * u64::MAX + u64::MAX == (i + 1) * u64::MAX) by (nonlinear_arith);
                assert((i + 1) * u64::MAX <= u64::MAX * u64::MAX) by (nonlinear_arith)
                    requires
                        i + 1 <= u64::MAX,
                ;
            }
            sum = sum + self.entries[i].1 as u128;
            i += 1;
        }
        proof {
            lemma_total_monotone(self.entries@, 0, self.entries@.len() as int);
        }
        sum
    }

    /// The symbol on which `roll` falls: the walk goes through the entries,
    /// takes each weight off what is left of the roll, and stops at the
    /// first entry whose weight is more than what is left. None when `roll`
    /// is not below the total.
    pub fn pick(&self, roll: u128) -> (r: Option<T>)
        ensures
            r == chosen(self.entries(), roll as nat),
            r is None <==> roll >= self.total(),
    {
        let mut left: u128 = roll;
        let mut i: usize = 0;
        while i < self.entries.len()
            invariant
                i <= self.entries.len(),
                left + total_of(self.entries@.take(i as int)) == roll,
            decreases self.entries.len() - i,
        {
            let weight = self.entries[i].1 as u128;
            proof {
                lemma_total_step(self.entries@, i as int);
            }
            if left < weight {
                proof {
                    assert(selects(self.entries@, i as int, roll as nat));
                    lemma_chosen(self.entries@, roll as nat);
                }
                return Some(self.entries[i].0);
            }
            left = left - weight;
            i += 1;
        }
        proof {
            lemma_total_monotone(self.entries@, 0, self.entries@.len() as int);
            lemma_chosen(self.entries@, roll as nat);
        }
        None
    }

    /// Records one more observation of `symbol`: its weight is raised, from
    /// zero if it was not listed.
    pub(crate) fn reinforce(&mut self, symbol: T)
        requires
            old(self).wf(),
        ensures
            final(self).wf(),
            final(self)@ == old(self)@.insert(symbol, raised(weight_of(old(self)@, symbol), 1)),
            final(self).total() > 0,
    {
        match self.position(&symbol) {
            Some(i) => {
                let weight = observe(self.entries[i].1);
                proof {
                    lemma_entry(self.entries@, i as int);
                    lemma_update(self.entries@, i as int, weight);
                    lemma_raised_grows(self.entries@[i as int].1, 1);
                    lemma_total_covers(self.entries@.update(i as int, (symbol, weight)), i as int);
                }
                self.entries[i] = (symbol, weight);
            },
            None => {
                let weight = observe(0);
                proof {
                    lemma_push(self.entries@, symbol, weight);
                    lemma_raised_grows(0, 1);
                    lemma_total_covers(self.entries@.push((symbol, weight)), self.entries@.len() as int);
                }
                self.entries.push((symbol, weight));
            },
        }
    }

    /// Lists `symbol` with weight `prior` unless it is listed already.
    pub(crate) fn fill(&mut self, symbol: T, prior: u64)
        requires
            old(self).wf(),
        ensures
            final(self).wf(),
            final(self)@ == (if old(self)@.contains_key(symbol) {
                old(self)@
            } else {
                old(self)@.insert(symbol, prior)
            }),
            final(self).total() >= old(self).total(),
    {
        match self.position(&symbol) {
            Some(_) => {
                assert(has_key(self.entries(), symbol));
            },
            None => {
                proof {
                    lemma_push(self.entries@, symbol, prior);
                    assert(self.entries@.push((symbol, prior)).drop_last() =~= self.entries@);
                }
                self.entries.push((symbol, prior));
            },
        }
    }
}

} // verus!
