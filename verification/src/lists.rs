//! Facts about lists that are filtered and mapped.
use vstd::prelude::*;

verus! {

/// What a list gives begins with what its first item gives.
pub proof fn lemma_filter_map_first<A, B>(list: Seq<A>, f: spec_fn(A) -> Option<B>)
    requires
        list.len() > 0,
    ensures
        list.filter_map(f) == match f(list[0]) {
            Some(item) => seq![item] + list.drop_first().filter_map(f),
            None => list.drop_first().filter_map(f),
        },
    decreases list.len(),
{
    reveal_with_fuel(Seq::filter_map, 2);
    if list.len() == 1 {
        assert(list.drop_last() =~= Seq::<A>::empty());
        assert(list.drop_first() =~= Seq::<A>::empty());
        assert(list.last() == list[0]);
        match f(list[0]) {
            Some(item) => {
                assert(list.filter_map(f) =~= seq![item] + list.drop_first().filter_map(f));
            },
            None => {
                assert(list.filter_map(f) =~= list.drop_first().filter_map(f));
            },
        }
    } else {
        let fewer = list.drop_last();
        lemma_filter_map_first(fewer, f);
        assert(list.drop_first().drop_last() =~= fewer.drop_first());
        assert(list.drop_first().last() == list.last());
        assert(fewer[0] == list[0]);
        match f(list[0]) {
            Some(item) => {
                assert(list.filter_map(f) =~= seq![item] + list.drop_first().filter_map(f));
            },
            None => {
                assert(list.filter_map(f) =~= list.drop_first().filter_map(f));
            },
        }
    }
}

/// An empty list gives nothing.
pub proof fn lemma_filter_map_empty<A, B>(list: Seq<A>, f: spec_fn(A) -> Option<B>)
    requires
        list.len() == 0,
    ensures
        list.filter_map(f) == Seq::<B>::empty(),
{
    reveal(Seq::filter_map);
}

/// What an item of a list gives is among what the list gives.
pub proof fn lemma_filter_map_holds<A, B>(list: Seq<A>, f: spec_fn(A) -> Option<B>, item: A)
    requires
        list.contains(item),
        f(item) is Some,
    ensures
        list.filter_map(f).contains(f(item)->0),
    decreases list.len(),
{
    let fewer = list.drop_last();
    let found = f(item)->0;
    let i = choose|i: int| 0 <= i < list.len() && list[i] == item;
    let after = list.filter_map(f);
    if i < fewer.len() {
        assert(fewer[i] == item);
        lemma_filter_map_holds(fewer, f, item);
        let before = fewer.filter_map(f);
        let k = choose|k: int| 0 <= k < before.len() && before[k] == found;
        assert(after[k] == found);
    } else {
        assert(after.last() == found);
        assert(after[after.len() - 1] == found);
    }
}

} // verus!
