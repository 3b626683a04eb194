//! Contexts: runs of consecutive symbols, read out of a longer sequence.
use crate::symbol::Symbol;
use vstd::prelude::*;

verus! {

/// The last `length` symbols of `seq`.
pub open spec fn suffix<T>(seq: Seq<T>, length: int) -> Seq<T> {
    seq.subrange(seq.len() - length, seq.len() as int)
}

/// The longest suffix of `seq` of at most `longest` symbols that is a key of
/// `table`; none when no suffix of one to `longest` symbols is a key.
pub open spec fn backoff<T, V>(table: Map<Seq<T>, V>, seq: Seq<T>, longest: nat) -> Option<Seq<T>>
    decreases longest,
{
    if longest == 0 {
        None
    } else if table.contains_key(suffix(seq, longest as int)) {
        Some(suffix(seq, longest as int))
    } else {
        backoff(table, seq, (longest - 1) as nat)
    }
}

/// The context that a model of the given order uses for `seq`: the longest
/// suffix of at most `order` symbols that the table knows.
pub open spec fn best_context<T, V>(table: Map<Seq<T>, V>, order: nat, seq: Seq<T>) -> Option<
    Seq<T>,
> {
    backoff(
        table,
        seq,
        if order <= seq.len() {
            order
        } else {
            seq.len()
        },
    )
}

/// Backing off finds nothing exactly when no suffix of one to `longest`
/// symbols is a key of the table.
pub proof fn lemma_backoff_none<T, V>(table: Map<Seq<T>, V>, seq: Seq<T>, longest: nat)
    ensures
        backoff(table, seq, longest) is None <==> forall|k: int|
            1 <= k <= longest ==> !table.contains_key(#[trigger] suffix(seq, k)),
    decreases longest,
{
    if longest > 0 {
        lemma_backoff_none(table, seq, (longest - 1) as nat);
        if backoff(table, seq, longest) is None {
            assert forall|k: int| 1 <= k <= longest implies !table.contains_key(
                #[trigger] suffix(seq, k),
            ) by {
                if k < longest {
                    assert(1 <= k <= longest - 1);
                }
            }
        } else if !table.contains_key(suffix(seq, longest as int)) {
            assert(backoff(table, seq, (longest - 1) as nat) is Some);
        }
    }
}

/// What backing off finds is a key of the table and a suffix of `seq`, and
/// no longer suffix within the limit is a key: the longest context wins.
pub proof fn lemma_backoff_longest<T, V>(table: Map<Seq<T>, V>, seq: Seq<T>, longest: nat)
    requires
        backoff(table, seq, longest) is Some,
    ensures
        exists|k: int|
            {
                &&& 1 <= k <= longest
                &&& backoff(table, seq, longest) == Some(#[trigger] suffix(seq, k))
                &&& table.contains_key(suffix(seq, k))
                &&& forall|j: int| k < j <= longest ==> !table.contains_key(#[trigger] suffix(seq, j))
            },
    decreases longest,
{
    if table.contains_key(suffix(seq, longest as int)) {
        let k = longest as int;
        assert(backoff(table, seq, longest) == Some(suffix(seq, k)));
    } else {
        lemma_backoff_longest(table, seq, (longest - 1) as nat);
        let k = choose|k: int|
            {
                &&& 1 <= k <= longest - 1
                &&& backoff(table, seq, (longest - 1) as nat) == Some(#[trigger] suffix(seq, k))
                &&& table.contains_key(suffix(seq, k))
                &&& forall|j: int|
                    k < j <= longest - 1 ==> !table.contains_key(#[trigger] suffix(seq, j))
            };
        assert(backoff(table, seq, longest) == Some(suffix(seq, k)));
        assert forall|j: int| k < j <= longest implies !table.contains_key(
            #[trigger] suffix(seq, j),
        ) by {
            if j < longest {
                assert(k < j <= longest - 1);
            }
        }
    }
}

/// Whether `context` holds the symbols of `seq` from `start` up to, and
/// without, `end`.
pub fn equals_range<T: Symbol>(context: &Vec<T>, seq: &[T], start: usize, end: usize) -> (b: bool)
    requires
        start <= end <= seq@.len(),
    ensures
        b == (context@ == seq@.subrange(start as int, end as int)),
{
    if context.len() != end - start {
        return false;
    }
    let mut k: usize = 0;
    while k < context.len()
        invariant
            k <= context.len(),
            context.len() == end - start,
            start <= end <= seq@.len(),
            forall|j: int| 0 <= j < k ==> context@[j] == seq@[start + j],
        decreases context.len() - k,
    {
        if !context[k].same(&seq[start + k]) {
            assert(seq@.subrange(start as int, end as int)[k as int] == seq@[start + k]);
            return false;
        }
        k += 1;
    }
    assert(context@ =~= seq@.subrange(start as int, end as int));
    true
}

/// A vector of its own with the symbols of `seq` from `start` up to, and
/// without, `end`.
pub fn copied<T: Symbol>(seq: &[T], start: usize, end: usize) -> (context: Vec<T>)
    requires
        start <= end <= seq@.len(),
    ensures
        context@ == seq@.subrange(start as int, end as int),
{
    let mut context: Vec<T> = Vec::new();
    let mut k: usize = start;
    while k < end
        invariant
            start <= k <= end <= seq@.len(),
            context@ == seq@.subrange(start as int, k as int),
        decreases end - k,
    {
        context.push(seq[k]);
        assert(context@ =~= seq@.subrange(start as int, k + 1));
        k += 1;
    }
    context
}

} // verus!
