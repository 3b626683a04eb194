//! The model: a frequency table, the symbols it knows, and the order that
//! bounds its contexts, with training, smoothing, lookup and sampling.
use crate::assoc::{as_map, distinct_keys, lemma_entry, lemma_index};
use crate::context::{backoff, best_context, lemma_backoff_longest, lemma_backoff_none, suffix};
use crate::distribution::{
    chosen, lemma_rolls_for_symbol, lemma_total_step, may_choose, selects, total_of,
    Distribution,
};
use crate::error::TrainingError;
use crate::known::KnownStates;
use crate::symbol::Symbol;
use crate::table::FrequencyTable;
use crate::training::{
    accumulate, contexts_bounded, count_of, follows, followers_known, lemma_accumulate_nothing,
    lemma_accumulate_same, lemma_accumulate_step, lemma_trained_contexts_bounded,
    lemma_smoothed_in_order, lemma_trained_followers_known, lemma_training_commutes, occurrences,
    occurrences_from, smoothed, trained, weight_in, weight_known,
};
use vstd::prelude::*;

verus! {

/// What a model holds, as plain mathematics.
#[verifier::reject_recursive_types(T)]
pub struct ModelView<T> {
    /// For each context the weight of each symbol that followed it.
    pub frequencies: Map<Seq<T>, Map<T, u64>>,
    /// Every symbol that training has met.
    pub known_states: Set<T>,
    /// The largest number of symbols in a context.
    pub order: nat,
}

/// The model after training on `seq`. A sequence of fewer than two symbols
/// changes nothing.
pub open spec fn learned<T>(model: ModelView<T>, seq: Seq<T>) -> ModelView<T> {
    if seq.len() < 2 {
        model
    } else {
        ModelView {
            frequencies: trained(model.frequencies, model.order, seq),
            known_states: model.known_states.union(seq.to_set()),
            order: model.order,
        }
    }
}

/// The model after training on each sequence of `batch` in turn.
pub open spec fn learned_all<T>(model: ModelView<T>, batch: Seq<Seq<T>>) -> ModelView<T>
    decreases batch.len(),
{
    if batch.len() == 0 {
        model
    } else {
        learned(learned_all(model, batch.drop_last()), batch.last())
    }
}

/// The order in which two sequences are added does not show in the model.
pub proof fn lemma_learning_commutes<T>(model: ModelView<T>, first: Seq<T>, second: Seq<T>)
    ensures
        learned(learned(model, first), second) == learned(learned(model, second), first),
{
    if first.len() >= 2 && second.len() >= 2 {
        lemma_training_commutes(model.frequencies, model.order, first, second);
        assert(model.known_states.union(first.to_set()).union(second.to_set())
            =~= model.known_states.union(second.to_set()).union(first.to_set()));
    }
}

/// The sequences of a batch as plain sequences.
pub open spec fn sequences_of<T>(batch: Seq<Vec<T>>) -> Seq<Seq<T>> {
    Seq::new(batch.len(), |i: int| batch[i]@)
}

/// The counts of the transitions of `seq` that lie at index `from` or
/// later, for a model of the given order.
spec fn tail_counts<T>(seq: Seq<T>, order: nat, from: int) -> spec_fn(Seq<T>, T) -> nat {
    |c: Seq<T>, s: T|
        if c.len() <= order {
            occurrences_from(seq, c, s, from)
        } else {
            0
        }
}

/// The counts while index `at` is being worked on: the transitions behind
/// `at`, and of those at `at` the ones whose context begins before `start`.
spec fn step_counts<T>(seq: Seq<T>, order: nat, at: int, start: int) -> spec_fn(Seq<T>, T) -> nat {
    |c: Seq<T>, s: T|
        tail_counts(seq, order, at + 1)(c, s) + if follows(seq, c, s, at) && c.len() <= order && at
            - c.len() < start {
            1nat
        } else {
            0nat
        }
}

/// The symbols of `seq` from `from` on are its symbol at `from` and those
/// from `from + 1` on.
proof fn lemma_tail_symbols<T>(seq: Seq<T>, from: int)
    requires
        0 <= from < seq.len(),
    ensures
        seq.subrange(from, seq.len() as int).to_set() == seq.subrange(
            from + 1,
            seq.len() as int,
        ).to_set().insert(seq[from]),
{
    let whole = seq.subrange(from, seq.len() as int);
    let rest = seq.subrange(from + 1, seq.len() as int);
    assert forall|x: T| whole.to_set().contains(x) <==> rest.to_set().insert(seq[from]).contains(
        x,
    ) by {
        if whole.contains(x) {
            let i = choose|i: int| 0 <= i < whole.len() && whole[i] == x;
            if i > 0 {
                assert(rest[i - 1] == x);
            }
        }
        if rest.contains(x) {
            let i = choose|i: int| 0 <= i < rest.len() && rest[i] == x;
            assert(whole[i + 1] == x);
        }
        if x == seq[from] {
            assert(whole[0] == x);
        }
    }
    assert(whole.to_set() =~= rest.to_set().insert(seq[from]));
}

/// A variable-order Markov chain over symbols of type `T`.
pub struct MultiMarkovModel<T> {
    frequencies: FrequencyTable<T>,
    known_states: KnownStates<T>,
    order: usize,
}

impl<T> View for MultiMarkovModel<T> {
    type V = ModelView<T>;

    open spec fn view(&self) -> ModelView<T> {
        ModelView {
            frequencies: self.table()@,
            known_states: self.known()@,
            order: self.limit(),
        }
    }
}

impl<T> MultiMarkovModel<T> {
    /// The frequency table.
    pub closed spec fn table(&self) -> FrequencyTable<T> {
        self.frequencies
    }

    /// The set of known symbols.
    pub closed spec fn known(&self) -> KnownStates<T> {
        self.known_states
    }

    /// The order.
    pub closed spec fn limit(&self) -> nat {
        self.order as nat
    }

    /// The model is in order: its two collections are, the order is at
    /// least one, every context has between one and `order` symbols, and
    /// every symbol that follows a context is a known one.
    pub open spec fn wf(&self) -> bool {
        &&& self.table().wf()
        &&& self.known().wf()
        &&& 1 <= self.limit() <= usize::MAX
        &&& contexts_bounded(self@.frequencies, self@.order)
        &&& followers_known(self@.frequencies, self@.known_states)
    }

    /// No context is longer than the order, and none is empty.
    pub proof fn lemma_contexts_within_order(self, context: Seq<T>)
        requires
            self.wf(),
            self@.frequencies.contains_key(context),
        ensures
            1 <= context.len() <= self@.order,
    {
    }

    /// The entries, in the order of their walk, of the distribution from
    /// which a draw after `seq` is made; none when no suffix of `seq` is a
    /// known context.
    pub open spec fn walk_for(&self, seq: Seq<T>) -> Option<Seq<(T, u64)>> {
        match best_context(self@.frequencies, self@.order, seq) {
            Some(context) => Some(self.table().walks()[context]),
            None => None,
        }
    }

    /// The symbol that follows `seq` when the roll is `roll`.
    pub open spec fn drawn(&self, seq: Seq<T>, roll: nat) -> Option<T> {
        match self.walk_for(seq) {
            Some(entries) => chosen(entries, roll),
            None => None,
        }
    }

    /// The walk of a context lists each symbol once, and stands for the
    /// weights that the table holds for the context.
    pub proof fn lemma_walk(self, context: Seq<T>)
        requires
            self.wf(),
            self@.frequencies.contains_key(context),
        ensures
            distinct_keys(self.table().walks()[context]),
            as_map(self.table().walks()[context]) == self@.frequencies[context],
            total_of(self.table().walks()[context]) > 0,
    {
        lemma_index(self.table().rows(), context);
    }

    /// Sampling is proportional: where a context fits `seq`, the rolls that
    /// draw a symbol are exactly as many as the weight of the symbol after
    /// that context, in whatever order the entries are walked.
    pub proof fn lemma_draws_in_proportion(self, seq: Seq<T>, symbol: T)
        requires
            self.wf(),
            best_context(self@.frequencies, self@.order, seq) is Some,
            self@.frequencies[best_context(self@.frequencies, self@.order, seq)->0].contains_key(
                symbol,
            ),
        ensures
            Set::new(|roll: int| 0 <= roll && self.drawn(seq, roll as nat) == Some(symbol)).finite(),
            Set::new(|roll: int| 0 <= roll && self.drawn(seq, roll as nat) == Some(symbol)).len()
                == self@.frequencies[best_context(self@.frequencies, self@.order, seq)->0][symbol],
    {
        let context = best_context(self@.frequencies, self@.order, seq)->0;
        let longest: nat = if self@.order <= seq.len() {
            self@.order
        } else {
            seq.len()
        };
        lemma_backoff_longest(self@.frequencies, seq, longest);
        self.lemma_walk(context);
        let entries = self.table().walks()[context];
        lemma_rolls_for_symbol(entries, symbol);
        assert(Set::new(|roll: int| 0 <= roll && self.drawn(seq, roll as nat) == Some(symbol))
            =~= Set::new(|roll: int| 0 <= roll && chosen(entries, roll as nat) == Some(symbol)));
    }
}

/// Draws a whole number below `bound` from the generator that `rand` keeps
/// for the current thread: `rand::thread_rng` hands out the generator, and
/// `rand::Rng::gen_range` samples the half-open range from zero to `bound`.
/// The range must not be empty, or `gen_range` panics; what it returns lies
/// in the range. Which number comes is left open.
#[verifier::external_body]
fn roll_below(bound: u128) -> (roll: u128)
    requires
        bound > 0,
    ensures
        roll < bound,
{
    rand::Rng::gen_range(&mut rand::thread_rng(), 0..bound)
}

impl<T: Symbol> MultiMarkovModel<T> {
    /// The order of a model made by `new`.
    pub const DEFAULT_ORDER: usize = 3;

    /// The usual prior for `add_priors`: five thousandths of one
    /// observation.
    pub const DEFAULT_PRIOR: u64 = 5_000;

    /// An empty model of the default order.
    pub fn new() -> (model: Self)
        ensures
            model.wf(),
            model@.frequencies == Map::<Seq<T>, Map<T, u64>>::empty(),
            model@.known_states == Set::<T>::empty(),
            model@.order == 3,
    {
        Self::with_order(Self::DEFAULT_ORDER)
    }

    /// An empty model whose contexts have up to `order` symbols.
    pub fn with_order(order: usize) -> (model: Self)
        requires
            order >= 1,
        ensures
            model.wf(),
            model@.frequencies == Map::<Seq<T>, Map<T, u64>>::empty(),
            model@.known_states == Set::<T>::empty(),
            model@.order == order,
    {
        MultiMarkovModel { frequencies: FrequencyTable::new(), known_states: KnownStates::new(), order }
    }

    /// The largest number of symbols in a context. It is fixed when the
    /// model is made.
    pub fn order(&self) -> (order: usize)
        ensures
            order == self@.order,
    {
        self.order
    }

    /// The frequency table, to read.
    pub fn frequencies(&self) -> (table: &FrequencyTable<T>)
        ensures
            *table == self.table(),
            table@ == self@.frequencies,
    {
        &self.frequencies
    }

    /// The known symbols, to read.
    pub fn known_states(&self) -> (known: &KnownStates<T>)
        ensures
            *known == self.known(),
            known@ == self@.known_states,
    {
        &self.known_states
    }

    /// Trains the model on `seq`, which has at least two symbols: for every
    /// index from the last down to the second, and every context of one to
    /// `order` symbols that ends just before it, the symbol at the index
    /// gains one observation after that context. Every symbol of `seq`
    /// becomes a known one.
    fn learn(&mut self, seq: &[T])
        requires
            old(self).wf(),
            seq@.len() >= 2,
        ensures
            final(self).wf(),
            final(self)@ == learned(old(self)@, seq@),
    {
        let ghost before = self@;
        let ghost order = self@.order;
        let n = seq.len();
        let mut i: usize = n - 1;
        proof {
            assert forall|c: Seq<T>, s: T| #[trigger]
                count_of(tail_counts(seq@, order, n as int), c, s) == 0 by {}
            lemma_accumulate_nothing(before.frequencies, tail_counts(seq@, order, n as int));
            assert(seq@.subrange(n as int, n as int).to_set() =~= Set::<T>::empty());
            assert(before.known_states.union(Set::<T>::empty()) =~= before.known_states);
        }
        while i > 0
            invariant
                i < n == seq@.len(),
                self.table().wf(),
                self.known().wf(),
                self@.order == order,
                1 <= order <= usize::MAX,
                self@.frequencies == accumulate(
                    before.frequencies,
                    tail_counts(seq@, order, i + 1),
                ),
                self@.known_states == before.known_states.union(
                    seq@.subrange(i + 1, n as int).to_set(),
                ),
            decreases i,
        {
            self.known_states.insert(seq[i]);
            proof {
                lemma_tail_symbols(seq@, i as int);
                assert(self@.known_states =~= before.known_states.union(
                    seq@.subrange(i as int, n as int).to_set(),
                ));
            }
            let first: usize = if i > self.order {
                i - self.order
            } else {
                0
            };
            proof {
                assert forall|c: Seq<T>, s: T| #[trigger]
                    count_of(tail_counts(seq@, order, i + 1), c, s) == count_of(
                        step_counts(seq@, order, i as int, first as int),
                        c,
                        s,
                    ) by {}
                lemma_accumulate_same(
                    before.frequencies,
                    tail_counts(seq@, order, i + 1),
                    step_counts(seq@, order, i as int, first as int),
                );
            }
            let mut j: usize = first;
            while j < i
                invariant
                    first <= j <= i < n == seq@.len(),
                    i - first <= order,
                    self.table().wf(),
                    self.known().wf(),
                    self@.order == order,
                    self@.known_states == before.known_states.union(
                        seq@.subrange(i as int, n as int).to_set(),
                    ),
                    self@.frequencies == accumulate(
                        before.frequencies,
                        step_counts(seq@, order, i as int, j as int),
                    ),
                decreases i - j,
            {
                proof {
                    let context = seq@.subrange(j as int, i as int);
                    let earlier = step_counts(seq@, order, i as int, j as int);
                    let later = step_counts(seq@, order, i as int, j + 1);
                    assert(follows(seq@, context, seq@[i as int], i as int));
                    assert forall|c: Seq<T>, s: T|
                        c != context || s != seq@[i as int] implies #[trigger] count_of(later, c, s)
                        == count_of(earlier, c, s) by {
                        if follows(seq@, c, s, i as int) && c.len() == i - j {
                            assert(c =~= context);
                        }
                    }
                    lemma_accumulate_step(
                        before.frequencies,
                        earlier,
                        later,
                        context,
                        seq@[i as int],
                    );
                }
                self.frequencies.record(seq, j, i, seq[i]);
                j += 1;
            }
            proof {
                assert forall|c: Seq<T>, s: T| #[trigger]
                    count_of(step_counts(seq@, order, i as int, i as int), c, s) == count_of(
                        tail_counts(seq@, order, i as int),
                        c,
                        s,
                    ) by {}
                lemma_accumulate_same(
                    before.frequencies,
                    step_counts(seq@, order, i as int, i as int),
                    tail_counts(seq@, order, i as int),
                );
            }
            i -= 1;
        }
        self.known_states.insert(seq[0]);
        proof {
            lemma_tail_symbols(seq@, 0);
            assert(seq@.subrange(0, n as int) =~= seq@);
            assert(self@.known_states =~= before.known_states.union(seq@.to_set()));
            assert forall|c: Seq<T>, s: T| #[trigger]
                count_of(tail_counts(seq@, order, 1), c, s) == count_of(
                    |c: Seq<T>, s: T| occurrences(seq@, order, c, s),
                    c,
                    s,
                ) by {
                assert(!follows(seq@, c, s, 0));
            }
            lemma_accumulate_same(
                before.frequencies,
                tail_counts(seq@, order, 1),
                |c: Seq<T>, s: T| occurrences(seq@, order, c, s),
            );
            lemma_trained_contexts_bounded(before.frequencies, order, seq@);
            lemma_trained_followers_known(before.frequencies, before.known_states, order, seq@);
        }
    }

    /// Adds to the model all the transitions found in one sequence. Training
    /// is additive: nothing that the model holds is taken away. A sequence
    /// of fewer than two symbols holds no transition: it is refused and the
    /// model stays as it is.
    pub fn add_sequence(&mut self, sequence: Vec<T>) -> (result: Result<(), TrainingError>)
        requires
            old(self).wf(),
        ensures
            final(self).wf(),
            sequence@.len() < 2 ==> result == Err::<(), TrainingError>(
                TrainingError::SequenceTooShort,
            ) && *final(self) == *old(self),
            sequence@.len() >= 2 ==> result == Ok::<(), TrainingError>(()),
            final(self)@ == learned(old(self)@, sequence@),
    {
        if sequence.len() < 2 {
            return Err(TrainingError::SequenceTooShort);
        }
        self.learn(sequence.as_slice());
        Ok(())
    }

    /// Trains the model on each sequence of the batch in turn. A sequence of
    /// fewer than two symbols is passed over and the rest is still used;
    /// only a batch without sequences is refused.
    pub fn add_sequences(&mut self, sequences: Vec<Vec<T>>) -> (result: Result<(), TrainingError>)
        requires
            old(self).wf(),
        ensures
            final(self).wf(),
            sequences@.len() == 0 ==> result == Err::<(), TrainingError>(
                TrainingError::EmptyBatch,
            ) && *final(self) == *old(self),
            sequences@.len() > 0 ==> result == Ok::<(), TrainingError>(()),
            final(self)@ == learned_all(old(self)@, sequences_of(sequences@)),
    {
        if sequences.len() < 1 {
            return Err(TrainingError::EmptyBatch);
        }
        let ghost batch = sequences_of(sequences@);
        let mut i: usize = 0;
        while i < sequences.len()
            invariant
                i <= sequences.len(),
                batch == sequences_of(sequences@),
                self.wf(),
                self@ == learned_all(old(self)@, batch.take(i as int)),
            decreases sequences.len() - i,
        {
            proof {
                assert(batch.take(i + 1).drop_last() =~= batch.take(i as int));
                assert(batch.take(i + 1).last() == sequences@[i as int]@);
            }
            if sequences[i].len() >= 2 {
                self.learn(sequences[i].as_slice());
            }
            i += 1;
        }
        proof {
            assert(batch.take(sequences@.len() as int) =~= batch);
        }
        Ok(())
    }

    /// Smooths the model: every context that the table holds gets the
    /// weight `prior` for each known symbol that it does not list. Weights
    /// that are there stay as they are, and no context is added.
    pub fn add_priors(&mut self, prior: u64)
        requires
            old(self).wf(),
        ensures
            final(self).wf(),
            final(self)@ == (ModelView {
                frequencies: smoothed(old(self)@.frequencies, old(self)@.known_states, prior),
                ..old(self)@
            }),
    {
        proof {
            lemma_smoothed_in_order(
                self@.frequencies,
                self@.known_states,
                self@.order,
                prior,
            );
        }
        self.frequencies.smooth(&self.known_states, prior);
    }

    /// The distribution for the most specific context that fits `seq`: of
    /// the suffixes of `seq` with at most `order` symbols, the longest that
    /// is a key of the table. None when no suffix is a key.
    pub fn best_model(&self, current_sequence: &Vec<T>) -> (found: Option<&Distribution<T>>)
        requires
            self.wf(),
        ensures
            match found {
                Some(followers) => {
                    &&& best_context(self@.frequencies, self@.order, current_sequence@) matches Some(
                        context,
                    )
                    &&& self@.frequencies.contains_key(context)
                    &&& followers@ == self@.frequencies[context]
                    &&& Some(followers.entries()) == self.walk_for(current_sequence@)
                    &&& followers.wf()
                    &&& followers.total() > 0
                },
                None => {
                    &&& best_context(self@.frequencies, self@.order, current_sequence@) is None
                    &&& self.walk_for(current_sequence@) is None
                },
            },
            found is None <==> forall|k: int|
                1 <= k <= self@.order && k <= current_sequence@.len()
                    ==> !self@.frequencies.contains_key(#[trigger] suffix(current_sequence@, k)),
    {
        proof {
            lemma_backoff_none(
                self@.frequencies,
                current_sequence@,
                if self@.order <= current_sequence@.len() {
                    self@.order
                } else {
                    current_sequence@.len()
                },
            );
        }
        let n = current_sequence.len();
        let most: usize = if self.order <= n {
            self.order
        } else {
            n
        };
        let mut k: usize = most;
        while k > 0
            invariant
                k <= most <= n == current_sequence@.len(),
                self.wf(),
                best_context(self@.frequencies, self@.order, current_sequence@) == backoff(
                    self@.frequencies,
                    current_sequence@,
                    k as nat,
                ),
            decreases k,
        {
            match self.frequencies.lookup(current_sequence.as_slice(), n - k, n) {
                Some(followers) => {
                    return Some(followers);
                },
                None => {},
            }
            k -= 1;
        }
        None
    }

    /// The symbol that follows `current_sequence` when the roll is `roll`:
    /// the distribution is that of `best_model`, and the roll falls on one
    /// of its entries as `Distribution::pick` says. None when no context
    /// fits, or when `roll` is not below the total weight.
    pub fn next_for_roll(&self, current_sequence: &Vec<T>, roll: u128) -> (next: Option<T>)
        requires
            self.wf(),
        ensures
            next == self.drawn(current_sequence@, roll as nat),
    {
        match self.best_model(current_sequence) {
            Some(followers) => followers.pick(roll),
            None => None,
        }
    }

    /// Draws a symbol to follow `current_sequence`, each follower of the
    /// best context with a chance in proportion to its weight. None exactly
    /// when no context fits. The model stays as it is.
    pub fn random_next(&mut self, current_sequence: &Vec<T>) -> (next: Option<T>)
        requires
            old(self).wf(),
        ensures
            *final(self) == *old(self),
            match old(self).walk_for(current_sequence@) {
                Some(entries) => may_choose(entries, next),
                None => next is None,
            },
            next is Some <==> best_context(
                old(self)@.frequencies,
                old(self)@.order,
                current_sequence@,
            ) is Some,
            next matches Some(symbol) ==> old(self)@.known_states.contains(symbol) && weight_in(
                old(self)@.frequencies,
                best_context(old(self)@.frequencies, old(self)@.order, current_sequence@)->0,
                symbol,
            ) > 0,
    {
        match self.best_model(current_sequence) {
            Some(followers) => {
                let roll = roll_below(followers.total_weight());
                let next = followers.pick(roll);
                proof {
                    let entries = followers.entries();
                    let context = best_context(
                        self@.frequencies,
                        self@.order,
                        current_sequence@,
                    )->0;
                    assert(roll < total_of(entries) && next == chosen(entries, roll as nat));
                    lemma_chosen_listed(entries, roll as nat);
                    assert(weight_known(self@.frequencies, context, next->0));
                    assert(may_choose(entries, next));
                }
                next
            },
            None => None,
        }
    }
}

/// A chosen symbol is listed, with a weight above zero.
pub proof fn lemma_chosen_listed<T>(entries: Seq<(T, u64)>, roll: nat)
    requires
        distinct_keys(entries),
        chosen(entries, roll) is Some,
    ensures
        as_map(entries).contains_key(chosen(entries, roll)->0),
        as_map(entries)[chosen(entries, roll)->0] > 0,
{
    let i = choose|i: int| selects(entries, i, roll);
    assert(selects(entries, i, roll));
    lemma_total_step(entries, i);
    lemma_entry(entries, i);
}

} // verus!
