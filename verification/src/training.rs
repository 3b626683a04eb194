//! What training does to a frequency table, said without the loops that do
//! it: every pair of a context and a symbol gains one observation for each
//! place of the sequence at which the symbol follows the context.
use crate::distribution::weight_of;
use crate::weight::{lemma_raised_twice, raised};
use vstd::prelude::*;

verus! {

/// At index `at` of `seq` stands `symbol`, and just before it stands
/// `context`. A context is never empty.
pub open spec fn follows<T>(seq: Seq<T>, context: Seq<T>, symbol: T, at: int) -> bool {
    &&& 1 <= context.len() <= at < seq.len()
    &&& seq.subrange(at - context.len(), at) == context
    &&& seq[at] == symbol
}

/// The number of indices from `from` on at which `symbol` follows `context`
/// in `seq`.
pub open spec fn occurrences_from<T>(seq: Seq<T>, context: Seq<T>, symbol: T, from: int) -> nat
    decreases seq.len() - from,
{
    if from >= seq.len() {
        0
    } else {
        occurrences_from(seq, context, symbol, from + 1) + if follows(seq, context, symbol, from) {
            1nat
        } else {
            0nat
        }
    }
}

/// The number of times that a model of the given order sees `symbol` follow
/// `context` in `seq`: contexts longer than the order are not looked at.
pub open spec fn occurrences<T>(seq: Seq<T>, order: nat, context: Seq<T>, symbol: T) -> nat {
    if context.len() <= order {
        occurrences_from(seq, context, symbol, 0)
    } else {
        0
    }
}

/// `table` has a weight for `symbol` after `context`.
pub open spec fn weight_known<T>(table: Map<Seq<T>, Map<T, u64>>, context: Seq<T>, symbol: T) -> bool {
    table.contains_key(context) && table[context].contains_key(symbol)
}

/// The weight of `symbol` after `context`, zero where the table has none.
pub open spec fn weight_in<T>(table: Map<Seq<T>, Map<T, u64>>, context: Seq<T>, symbol: T) -> u64 {
    if table.contains_key(context) {
        weight_of(table[context], symbol)
    } else {
        0
    }
}

/// What `counts` says for the pair.
pub open spec fn count_of<T>(counts: spec_fn(Seq<T>, T) -> nat, context: Seq<T>, symbol: T) -> nat {
    counts(context, symbol)
}

/// `counts` is not zero for the pair.
pub open spec fn counted<T>(counts: spec_fn(Seq<T>, T) -> nat, context: Seq<T>, symbol: T) -> bool {
    counts(context, symbol) > 0
}

/// `table` after each pair of a context and a symbol has been observed as
/// often as `counts` says. Pairs that were in the table stay; a pair with a
/// count above zero is there afterwards, its weight raised by that many
/// observations.
pub open spec fn accumulate<T>(
    table: Map<Seq<T>, Map<T, u64>>,
    counts: spec_fn(Seq<T>, T) -> nat,
) -> Map<Seq<T>, Map<T, u64>> {
    Map::new(
        |c: Seq<T>| table.contains_key(c) || exists|s: T| counted(counts, c, s),
        |c: Seq<T>|
            Map::new(
                |s: T| weight_known(table, c, s) || counted(counts, c, s),
                |s: T| raised(weight_in(table, c, s), counts(c, s)),
            ),
    )
}

/// `table` after a model of the given order was trained on `seq`.
pub open spec fn trained<T>(table: Map<Seq<T>, Map<T, u64>>, order: nat, seq: Seq<T>) -> Map<
    Seq<T>,
    Map<T, u64>,
> {
    accumulate(table, |c: Seq<T>, s: T| occurrences(seq, order, c, s))
}

/// The followers that `table` holds for `context`, none where it is no key.
pub open spec fn followers_in<T>(table: Map<Seq<T>, Map<T, u64>>, context: Seq<T>) -> Map<T, u64> {
    if table.contains_key(context) {
        table[context]
    } else {
        Map::empty()
    }
}

/// `table` after one observation of `symbol` following `context`.
pub open spec fn recorded<T>(table: Map<Seq<T>, Map<T, u64>>, context: Seq<T>, symbol: T) -> Map<
    Seq<T>,
    Map<T, u64>,
> {
    table.insert(
        context,
        followers_in(table, context).insert(symbol, raised(weight_in(table, context, symbol), 1)),
    )
}

/// `table` after smoothing: the contexts stay, and each lists every known
/// symbol, with `prior` where it had no weight.
pub open spec fn smoothed<T>(table: Map<Seq<T>, Map<T, u64>>, known: Set<T>, prior: u64) -> Map<
    Seq<T>,
    Map<T, u64>,
> {
    Map::new(
        |c: Seq<T>| table.contains_key(c),
        |c: Seq<T>| crate::distribution::topped_up(table[c], known, prior),
    )
}

/// Every context of `table` has between one and `order` symbols.
pub open spec fn contexts_bounded<T>(table: Map<Seq<T>, Map<T, u64>>, order: nat) -> bool {
    forall|c: Seq<T>| #[trigger] table.contains_key(c) ==> 1 <= c.len() <= order
}

/// Every symbol that `table` lists after some context is in `known`.
pub open spec fn followers_known<T>(table: Map<Seq<T>, Map<T, u64>>, known: Set<T>) -> bool {
    forall|c: Seq<T>, s: T| #[trigger] weight_known(table, c, s) ==> known.contains(s)
}

/// What the accumulated table holds for one pair.
pub proof fn lemma_accumulated_pair<T>(
    table: Map<Seq<T>, Map<T, u64>>,
    counts: spec_fn(Seq<T>, T) -> nat,
    context: Seq<T>,
    symbol: T,
)
    ensures
        weight_known(accumulate(table, counts), context, symbol) <==> weight_known(
            table,
            context,
            symbol,
        ) || counts(context, symbol) > 0,
        weight_in(accumulate(table, counts), context, symbol) == raised(
            weight_in(table, context, symbol),
            counts(context, symbol),
        ),
{
    if counts(context, symbol) > 0 {
        assert(counted(counts, context, symbol));
    }
}

/// Counts that agree on every pair accumulate to the same table.
pub proof fn lemma_accumulate_same<T>(
    table: Map<Seq<T>, Map<T, u64>>,
    first: spec_fn(Seq<T>, T) -> nat,
    second: spec_fn(Seq<T>, T) -> nat,
)
    requires
        forall|c: Seq<T>, s: T| #[trigger] count_of(first, c, s) == count_of(second, c, s),
    ensures
        accumulate(table, first) == accumulate(table, second),
{
    let one = accumulate(table, first);
    let other = accumulate(table, second);
    assert forall|c: Seq<T>| one.contains_key(c) <==> other.contains_key(c) by {
        if exists|s: T| counted(first, c, s) {
            let s = choose|s: T| counted(first, c, s);
            assert(count_of(first, c, s) == count_of(second, c, s));
            assert(counted(second, c, s));
        }
        if exists|s: T| counted(second, c, s) {
            let s = choose|s: T| counted(second, c, s);
            assert(count_of(first, c, s) == count_of(second, c, s));
            assert(counted(first, c, s));
        }
    }
    assert forall|c: Seq<T>| one.contains_key(c) implies one[c] =~= other[c] by {
        assert forall|s: T| one[c].contains_key(s) <==> other[c].contains_key(s) by {
            assert(count_of(first, c, s) == count_of(second, c, s));
        }
        assert forall|s: T| one[c].contains_key(s) implies one[c][s] == other[c][s] by {
            assert(count_of(first, c, s) == count_of(second, c, s));
        }
    }
    assert(one =~= other);
}

/// Observing nothing leaves the table as it is.
pub proof fn lemma_accumulate_nothing<T>(
    table: Map<Seq<T>, Map<T, u64>>,
    counts: spec_fn(Seq<T>, T) -> nat,
)
    requires
        forall|c: Seq<T>, s: T| #[trigger] count_of(counts, c, s) == 0,
    ensures
        accumulate(table, counts) == table,
{
    let after = accumulate(table, counts);
    assert forall|c: Seq<T>| after.contains_key(c) implies table.contains_key(c) by {
        if exists|s: T| counted(counts, c, s) {
            let s = choose|s: T| counted(counts, c, s);
            assert(count_of(counts, c, s) == 0);
        }
    }
    assert forall|c: Seq<T>| table.contains_key(c) implies after[c] =~= table[c] by {
        assert forall|s: T| after[c].contains_key(s) <==> table[c].contains_key(s) by {
            assert(count_of(counts, c, s) == 0);
        }
        assert forall|s: T| table[c].contains_key(s) implies after[c][s] == table[c][s] by {
            assert(count_of(counts, c, s) == 0);
        }
    }
    assert(after =~= table);
}

/// Accumulating twice is accumulating the sum of the counts.
pub proof fn lemma_accumulate_twice<T>(
    table: Map<Seq<T>, Map<T, u64>>,
    first: spec_fn(Seq<T>, T) -> nat,
    second: spec_fn(Seq<T>, T) -> nat,
)
    ensures
        accumulate(accumulate(table, first), second) == accumulate(
            table,
            |c: Seq<T>, s: T| first(c, s) + second(c, s),
        ),
{
    let both = |c: Seq<T>, s: T| first(c, s) + second(c, s);
    let once = accumulate(table, first);
    let twice = accumulate(once, second);
    let sum = accumulate(table, both);
    assert forall|c: Seq<T>| twice.contains_key(c) <==> sum.contains_key(c) by {
        if exists|s: T| counted(first, c, s) {
            let s = choose|s: T| counted(first, c, s);
            assert(counted(both, c, s));
        }
        if exists|s: T| counted(second, c, s) {
            let s = choose|s: T| counted(second, c, s);
            assert(counted(both, c, s));
        }
        if exists|s: T| counted(both, c, s) {
            let s = choose|s: T| counted(both, c, s);
            if first(c, s) > 0 {
                assert(counted(first, c, s));
            } else {
                assert(counted(second, c, s));
            }
        }
    }
    assert forall|c: Seq<T>| twice.contains_key(c) implies twice[c] =~= sum[c] by {
        assert forall|s: T| twice[c].contains_key(s) <==> sum[c].contains_key(s) by {
            lemma_accumulated_pair(table, first, c, s);
        }
        assert forall|s: T| twice[c].contains_key(s) implies twice[c][s] == sum[c][s] by {
            lemma_accumulated_pair(table, first, c, s);
            lemma_raised_twice(weight_in(table, c, s), first(c, s), second(c, s));
        }
    }
    assert(twice =~= sum);
}

/// One observation is an accumulation that counts one pair once.
pub proof fn lemma_recorded<T>(table: Map<Seq<T>, Map<T, u64>>, context: Seq<T>, symbol: T)
    ensures
        recorded(table, context, symbol) == accumulate(
            table,
            |c: Seq<T>, s: T|
                if c == context && s == symbol {
                    1nat
                } else {
                    0nat
                },
        ),
{
    let once = |c: Seq<T>, s: T|
        if c == context && s == symbol {
            1nat
        } else {
            0nat
        };
    let after = accumulate(table, once);
    let step = recorded(table, context, symbol);
    assert forall|c: Seq<T>| after.contains_key(c) <==> step.contains_key(c) by {
        if exists|s: T| counted(once, c, s) {
            let s = choose|s: T| counted(once, c, s);
            assert(c == context);
        }
        if c == context {
            assert(counted(once, c, symbol));
        }
    }
    assert forall|c: Seq<T>| after.contains_key(c) implies after[c] =~= step[c] by {
        assert forall|s: T| after[c].contains_key(s) <==> step[c].contains_key(s) by {}
        assert forall|s: T| after[c].contains_key(s) implies after[c][s] == step[c][s] by {}
    }
    assert(after =~= step);
}

/// One more observation of a pair takes the table from one count to the
/// next: `later` counts the pair once more than `earlier` and agrees with
/// it elsewhere.
pub proof fn lemma_accumulate_step<T>(
    table: Map<Seq<T>, Map<T, u64>>,
    earlier: spec_fn(Seq<T>, T) -> nat,
    later: spec_fn(Seq<T>, T) -> nat,
    context: Seq<T>,
    symbol: T,
)
    requires
        later(context, symbol) == earlier(context, symbol) + 1,
        forall|c: Seq<T>, s: T|
            c != context || s != symbol ==> #[trigger] count_of(later, c, s) == count_of(
                earlier,
                c,
                s,
            ),
    ensures
        accumulate(table, later) == recorded(accumulate(table, earlier), context, symbol),
{
    let once = |c: Seq<T>, s: T|
        if c == context && s == symbol {
            1nat
        } else {
            0nat
        };
    lemma_recorded(accumulate(table, earlier), context, symbol);
    lemma_accumulate_twice(table, earlier, once);
    let sum = |c: Seq<T>, s: T| earlier(c, s) + once(c, s);
    assert forall|c: Seq<T>, s: T| #[trigger] count_of(later, c, s) == count_of(sum, c, s) by {
        if c != context || s != symbol {
            assert(count_of(later, c, s) == count_of(earlier, c, s));
        }
    }
    lemma_accumulate_same(table, later, sum);
}

/// Training is additive: after two sequences each pair has gained the
/// observations of both.
pub proof fn lemma_training_adds<T>(
    table: Map<Seq<T>, Map<T, u64>>,
    order: nat,
    first: Seq<T>,
    second: Seq<T>,
)
    ensures
        trained(trained(table, order, first), order, second) == accumulate(
            table,
            |c: Seq<T>, s: T| occurrences(first, order, c, s) + occurrences(second, order, c, s),
        ),
{
    let of_first = |c: Seq<T>, s: T| occurrences(first, order, c, s);
    let of_second = |c: Seq<T>, s: T| occurrences(second, order, c, s);
    lemma_accumulate_twice(table, of_first, of_second);
    lemma_accumulate_same(
        table,
        |c: Seq<T>, s: T| of_first(c, s) + of_second(c, s),
        |c: Seq<T>, s: T| occurrences(first, order, c, s) + occurrences(second, order, c, s),
    );
}

/// The order in which two sequences are added does not show in the table.
pub proof fn lemma_training_commutes<T>(
    table: Map<Seq<T>, Map<T, u64>>,
    order: nat,
    first: Seq<T>,
    second: Seq<T>,
)
    ensures
        trained(trained(table, order, first), order, second) == trained(
            trained(table, order, second),
            order,
            first,
        ),
{
    lemma_training_adds(table, order, first, second);
    lemma_training_adds(table, order, second, first);
    lemma_accumulate_same(
        table,
        |c: Seq<T>, s: T| occurrences(first, order, c, s) + occurrences(second, order, c, s),
        |c: Seq<T>, s: T| occurrences(second, order, c, s) + occurrences(first, order, c, s),
    );
}

/// Smoothing keeps the contexts as they are and lists known symbols only.
pub proof fn lemma_smoothed_in_order<T>(
    table: Map<Seq<T>, Map<T, u64>>,
    known: Set<T>,
    order: nat,
    prior: u64,
)
    requires
        contexts_bounded(table, order),
        followers_known(table, known),
    ensures
        smoothed(table, known, prior).dom() == table.dom(),
        contexts_bounded(smoothed(table, known, prior), order),
        followers_known(smoothed(table, known, prior), known),
{
    let after = smoothed(table, known, prior);
    assert(after.dom() =~= table.dom());
    assert forall|c: Seq<T>| #[trigger] after.contains_key(c) implies 1 <= c.len() <= order by {
        assert(table.contains_key(c));
    }
    assert forall|c: Seq<T>, s: T| #[trigger] weight_known(after, c, s) implies known.contains(
        s,
    ) by {
        if !known.contains(s) {
            assert(weight_known(table, c, s));
        }
    }
}

/// Smoothing fills gaps once: a second smoothing with the same known
/// symbols finds nothing to fill, whatever its prior.
pub proof fn lemma_smoothed_once<T>(
    table: Map<Seq<T>, Map<T, u64>>,
    known: Set<T>,
    first: u64,
    second: u64,
)
    ensures
        smoothed(smoothed(table, known, first), known, second) == smoothed(table, known, first),
{
    let once = smoothed(table, known, first);
    let twice = smoothed(once, known, second);
    assert forall|c: Seq<T>| twice.contains_key(c) implies twice[c] =~= once[c] by {}
    assert(twice =~= once);
}

/// Smoothing leaves every weight that was there as it was.
pub proof fn lemma_smoothed_keeps<T>(
    table: Map<Seq<T>, Map<T, u64>>,
    known: Set<T>,
    prior: u64,
    context: Seq<T>,
    symbol: T,
)
    requires
        weight_known(table, context, symbol),
    ensures
        weight_known(smoothed(table, known, prior), context, symbol),
        smoothed(table, known, prior)[context][symbol] == table[context][symbol],
{
}

/// Smoothing gives the prior to every known symbol that a context did not
/// list.
pub proof fn lemma_smoothed_fills<T>(
    table: Map<Seq<T>, Map<T, u64>>,
    known: Set<T>,
    prior: u64,
    context: Seq<T>,
    symbol: T,
)
    requires
        table.contains_key(context),
        !table[context].contains_key(symbol),
        known.contains(symbol),
    ensures
        weight_known(smoothed(table, known, prior), context, symbol),
        smoothed(table, known, prior)[context][symbol] == prior,
{
}

/// A pair that occurs from some index on occurs at an index.
pub proof fn lemma_occurs_somewhere<T>(seq: Seq<T>, context: Seq<T>, symbol: T, from: int)
    requires
        occurrences_from(seq, context, symbol, from) > 0,
    ensures
        exists|at: int| from <= at && follows(seq, context, symbol, at),
    decreases seq.len() - from,
{
    if from < seq.len() {
        if follows(seq, context, symbol, from) {
        } else {
            lemma_occurs_somewhere(seq, context, symbol, from + 1);
        }
    }
}

/// Training keeps contexts within the order: whatever the sequence, no key
/// of the table comes to be longer than `order`, and none is empty.
pub proof fn lemma_trained_contexts_bounded<T>(
    table: Map<Seq<T>, Map<T, u64>>,
    order: nat,
    seq: Seq<T>,
)
    requires
        contexts_bounded(table, order),
    ensures
        contexts_bounded(trained(table, order, seq), order),
{
    let counts = |c: Seq<T>, s: T| occurrences(seq, order, c, s);
    assert forall|c: Seq<T>| #[trigger] trained(table, order, seq).contains_key(c) implies 1
        <= c.len() <= order by {
        if !table.contains_key(c) {
            let s = choose|s: T| counted(counts, c, s);
            assert(counted(counts, c, s));
            lemma_occurs_somewhere(seq, c, s, 0);
        }
    }
}

/// Training lists only symbols of the sequence.
pub proof fn lemma_trained_followers_known<T>(
    table: Map<Seq<T>, Map<T, u64>>,
    known: Set<T>,
    order: nat,
    seq: Seq<T>,
)
    requires
        followers_known(table, known),
    ensures
        followers_known(trained(table, order, seq), known.union(seq.to_set())),
{
    let counts = |c: Seq<T>, s: T| occurrences(seq, order, c, s);
    let after = trained(table, order, seq);
    assert forall|c: Seq<T>, s: T| #[trigger] weight_known(after, c, s) implies known.union(
        seq.to_set(),
    ).contains(s) by {
        lemma_accumulated_pair(table, counts, c, s);
        if weight_known(table, c, s) {
        } else {
            lemma_occurs_somewhere(seq, c, s, 0);
            let at = choose|at: int| 0 <= at && follows(seq, c, s, at);
            assert(seq.contains(seq[at]));
        }
    }
}

} // verus!
