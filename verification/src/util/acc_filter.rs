//! A hybrid of filter and fold: a function is applied to an accumulator and
//! to each item in turn, and at each step may yield a value.

use vstd::prelude::*;

verus! {

/// `accs` and `outs` record a run of `fun` over `items`: it starts with no
/// accumulator, and at each item `fun` turns the accumulator at hand into the
/// next one and yields a value or none.
pub open spec fn folds<T, F: Fn(Option<T>, T) -> (Option<T>, Option<T>)>(
    fun: F,
    items: Seq<T>,
    accs: Seq<Option<T>>,
    outs: Seq<Option<T>>,
) -> bool {
    &&& accs.len() == items.len() + 1
    &&& outs.len() == items.len()
    &&& accs[0] is None
    &&& forall|i: int|
        0 <= i < items.len() ==> fun.ensures((accs[i], items[i]), (accs[i + 1], #[trigger] outs[i]))
}

/// The values that were yielded, in order.
pub open spec fn yielded<T>(outs: Seq<Option<T>>) -> Seq<T>
    decreases outs.len(),
{
    if outs.len() == 0 {
        Seq::empty()
    } else {
        let before = yielded(outs.drop_last());
        match outs.last() {
            Some(value) => before.push(value),
            None => before,
        }
    }
}

/// `values`, followed by the accumulator where there is one.
pub open spec fn with_last<T>(values: Seq<T>, acc: Option<T>) -> Seq<T> {
    match acc {
        Some(value) => values.push(value),
        None => values,
    }
}

/// `result` is what some run of `fun` over `items` yields: the values
/// yielded at the items, then the last accumulator.
pub open spec fn filtered<T, F: Fn(Option<T>, T) -> (Option<T>, Option<T>)>(
    fun: F,
    items: Seq<T>,
    result: Seq<T>,
) -> bool {
    exists|accs: Seq<Option<T>>, outs: Seq<Option<T>>| #[trigger]
        folds(fun, items, accs, outs) && result == with_last(yielded(outs), accs.last())
}

/// The accumulating filter over a sequence of items.
///
/// The function takes the accumulator and the next item, and returns the
/// new accumulator and the value to yield, if any. When the items run out,
/// the accumulator is yielded last. So between none and one more than the
/// number of items are yielded.
#[verifier::reject_recursive_types(T)]
pub struct AccFilter<T, F: Fn(Option<T>, T) -> (Option<T>, Option<T>)> {
    items: Vec<T>,
    fun: F,
}

impl<T, F: Fn(Option<T>, T) -> (Option<T>, Option<T>)> AccFilter<T, F> {
    /// The items that the filter runs over.
    pub closed spec fn items(self) -> Seq<T> {
        self.items@
    }

    /// The function that the filter applies.
    pub closed spec fn fun(self) -> F {
        self.fun
    }

    pub fn new(items: Vec<T>, fun: F) -> (r: Self)
        ensures
            r.items() == items@,
            r.fun() == fun,
    {
        AccFilter { items, fun }
    }

    /// Runs the filter and returns what it yields.
    pub fn collect(self) -> (r: Vec<T>)
        requires
            forall|acc: Option<T>, item: T| self.fun().requires((acc, item)),
        ensures
            filtered(self.fun(), self.items(), r@),
    {
        let ghost given = self.items@;
        let AccFilter { items, fun } = self;
        let mut items = items;
        assert(items@ == given);
        assert(fun == self.fun());
        Self::acc_filter_vec_mut(&mut items, fun);
        items
    }

    /// Runs the filter over a vector in place: afterwards the vector holds
    /// what the filter yields.
    pub fn acc_filter_vec_mut(vec: &mut Vec<T>, fun: F)
        requires
            forall|acc: Option<T>, item: T| fun.requires((acc, item)),
        ensures
            filtered(fun, old(vec)@, final(vec)@),
    {
        let mut input: Vec<T> = Vec::new();
        core::mem::swap(vec, &mut input);
        let ghost items = input@;
        let ghost mut accs: Seq<Option<T>> = seq![None];
        let ghost mut outs: Seq<Option<T>> = Seq::empty();
        let mut acc: Option<T> = None;
        for item in it: input
            invariant
                it.seq() == items,
                folds(fun, items.take(it.index() as int), accs, outs),
                accs.last() == acc,
                vec@ == yielded(outs),
                forall|acc: Option<T>, item: T| fun.requires((acc, item)),
        {
            let ghost taken = items.take(it.index() as int);
            let ghost before_accs = accs;
            let ghost before_outs = outs;
            let (next, out) = fun(acc, item);
            proof {
                accs = accs.push(next);
                outs = outs.push(out);
                let longer = items.take(it.index() + 1);
                assert(outs.drop_last() =~= before_outs);
                assert forall|i: int| 0 <= i < longer.len() implies fun.ensures(
                    (accs[i], longer[i]),
                    (accs[i + 1], #[trigger] outs[i]),
                ) by {
                    if i < taken.len() {
                        assert(fun.ensures(
                            (before_accs[i], taken[i]),
                            (before_accs[i + 1], before_outs[i]),
                        ));
                    }
                }
            }
            acc = next;
            match out {
                Some(value) => {
                    vec.push(value);
                },
                None => {},
            }
        }
        proof {
            assert(items.take(items.len() as int) =~= items);
        }
        match acc {
            Some(value) => {
                vec.push(value);
            },
            None => {},
        }
        proof {
            assert(folds(fun, items, accs, outs) && vec@ == with_last(yielded(outs), accs.last()));
        }
    }
}

} // verus!
