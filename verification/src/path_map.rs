//! A map from Cygwin paths to native paths.
use vstd::prelude::*;
use crate::bytes::{copy, equal, pair_views};
use crate::known_paths::no_path_twice;

verus! {

/// The map that a list of mappings gives; the last mapping of a path counts.
pub open spec fn as_map(mappings: Seq<(Seq<u8>, Seq<u8>)>) -> Map<Seq<u8>, Seq<u8>>
    decreases mappings.len(),
{
    if mappings.len() == 0 {
        Map::empty()
    } else {
        as_map(mappings.drop_last()).insert(mappings.last().0, mappings.last().1)
    }
}

/// A path is in the map where one of the mappings is of that path.
pub proof fn lemma_as_map(mappings: Seq<(Seq<u8>, Seq<u8>)>)
    ensures
        forall|path: Seq<u8>| #[trigger]
            as_map(mappings).contains_key(path) ==> exists|i: int|
                0 <= i < mappings.len() && (#[trigger] mappings[i]).0 == path,
        forall|i: int|
            0 <= i < mappings.len() ==> as_map(mappings).contains_key((#[trigger] mappings[i]).0),
        no_path_twice(mappings) ==> forall|i: int|
            0 <= i < mappings.len() ==> as_map(mappings)[(#[trigger] mappings[i]).0]
                == mappings[i].1,
    decreases mappings.len(),
{
    if mappings.len() > 0 {
        let fewer = mappings.drop_last();
        lemma_as_map(fewer);
        assert forall|path: Seq<u8>| #[trigger]
            as_map(mappings).contains_key(path) implies exists|i: int|
            0 <= i < mappings.len() && (#[trigger] mappings[i]).0 == path by {
            if path == mappings.last().0 {
                assert(mappings[mappings.len() - 1].0 == path);
            } else {
                assert(as_map(fewer).contains_key(path));
                let i = choose|i: int| 0 <= i < fewer.len() && (#[trigger] fewer[i]).0 == path;
                assert(mappings[i].0 == path);
            }
        }
        assert forall|i: int| 0 <= i < mappings.len() implies as_map(mappings).contains_key(
            (#[trigger] mappings[i]).0,
        ) by {
            if i < fewer.len() {
                assert(fewer[i] == mappings[i]);
            }
        }
        if no_path_twice(mappings) {
            assert(no_path_twice(fewer)) by {
                assert forall|i: int, j: int| 0 <= i < j < fewer.len() implies (
                #[trigger] fewer[i]).0 != (#[trigger] fewer[j]).0 by {
                    assert(fewer[i] == mappings[i] && fewer[j] == mappings[j]);
                }
            }
            assert forall|i: int| 0 <= i < mappings.len() implies as_map(mappings)[(
            #[trigger] mappings[i]).0] == mappings[i].1 by {
                if i < fewer.len() {
                    assert(fewer[i] == mappings[i]);
                    assert(mappings[i].0 != mappings[mappings.len() - 1].0);
                }
            }
        }
    }
}

/// Cygwin paths, each with its native form.
pub struct PathMap {
    entries: Vec<(Vec<u8>, Vec<u8>)>,
}

impl View for PathMap {
    type V = Map<Seq<u8>, Seq<u8>>;

    closed spec fn view(&self) -> Map<Seq<u8>, Seq<u8>> {
        as_map(pair_views(self.entries@))
    }
}

impl PathMap {
    /// No path stands in the map twice.
    pub closed spec fn wf(&self) -> bool {
        no_path_twice(pair_views(self.entries@))
    }

    /// The mappings in the order in which their paths came.
    pub closed spec fn in_order(&self) -> Seq<(Seq<u8>, Seq<u8>)> {
        pair_views(self.entries@)
    }

    /// What the list of mappings has to do with the map.
    pub proof fn lemma_in_order(&self)
        ensures
            self@ == as_map(self.in_order()),
            self.wf() == no_path_twice(self.in_order()),
    {
    }

    /// A map of no paths.
    pub fn new() -> (r: Self)
        ensures
            r.wf(),
            r@ == Map::<Seq<u8>, Seq<u8>>::empty(),
    {
        PathMap { entries: Vec::new() }
    }

    /// Where the mapping of a path stands, or the number of mappings.
    fn position(&self, path: &[u8]) -> (at: usize)
        requires
            self.wf(),
        ensures
            at <= self.entries@.len(),
            at < self.entries@.len() ==> self.entries@[at as int].0@ == path@
                && self@.contains_key(path@) && self@[path@] == self.entries@[at as int].1@,
            at == self.entries@.len() ==> !self@.contains_key(path@) && forall|i: int|
                0 <= i < self.entries@.len() ==> (#[trigger] pair_views(self.entries@)[i]).0
                    != path@,
    {
        let ghost all = pair_views(self.entries@);
        proof {
            lemma_as_map(all);
        }
        let mut i: usize = 0;
        while i < self.entries.len()
            invariant
                i <= self.entries@.len(),
                all == pair_views(self.entries@),
                self@ == as_map(all),
                forall|p: Seq<u8>| #[trigger]
                    as_map(all).contains_key(p) ==> exists|j: int|
                        0 <= j < all.len() && (#[trigger] all[j]).0 == p,
                forall|j: int|
                    0 <= j < all.len() ==> as_map(all).contains_key((#[trigger] all[j]).0),
                forall|j: int|
                    0 <= j < all.len() ==> as_map(all)[(#[trigger] all[j]).0] == all[j].1,
                forall|j: int| 0 <= j < i ==> (#[trigger] all[j]).0 != path@,
            decreases self.entries@.len() - i,
        {
            assert(all[i as int] == (self.entries@[i as int].0@, self.entries@[i as int].1@));
            if equal(self.entries[i].0.as_slice(), path) {
                return i;
            }
            i += 1;
        }
        i
    }

    /// The native form of a path, where there is one.
    pub fn get(&self, path: &[u8]) -> (r: Option<&Vec<u8>>)
        requires
            self.wf(),
        ensures
            match r {
                Some(native) => self@.contains_key(path@) && native@ == self@[path@],
                None => !self@.contains_key(path@),
            },
    {
        let at: usize = self.position(path);
        if at < self.entries.len() {
            Some(&self.entries[at].1)
        } else {
            None
        }
    }

    /// Whether a path has a native form.
    pub fn contains_key(&self, path: &[u8]) -> (r: bool)
        requires
            self.wf(),
        ensures
            r == self@.contains_key(path@),
    {
        self.position(path) < self.entries.len()
    }

    /// Gives a path its native form, in place of the one that it may have had.
    pub fn insert(&mut self, path: Vec<u8>, native: Vec<u8>)
        requires
            old(self).wf(),
        ensures
            final(self).wf(),
            final(self)@ == old(self)@.insert(path@, native@),
    {
        let ghost before = pair_views(self.entries@);
        let ghost pair = (path@, native@);
        proof {
            lemma_as_map(before);
        }
        let at: usize = self.position(path.as_slice());
        if at < self.entries.len() {
            assert(before[at as int].0 == path@);
            self.entries[at] = (path, native);
            proof {
                let after = pair_views(self.entries@);
                assert(after =~= before.update(at as int, pair));
                assert forall|i: int, j: int| 0 <= i < j < after.len() implies (
                #[trigger] after[i]).0 != (#[trigger] after[j]).0 by {
                    assert(before[i].0 != before[j].0);
                }
                lemma_as_map(after);
                assert forall|p: Seq<u8>| #[trigger]
                    as_map(after).contains_key(p) == as_map(before).insert(
                        pair.0,
                        pair.1,
                    ).contains_key(p) by {
                    if as_map(after).contains_key(p) {
                        let i = choose|i: int| 0 <= i < after.len() && (#[trigger] after[i]).0 == p;
                        assert(before[i].0 == p);
                    }
                    if as_map(before).contains_key(p) {
                        let i = choose|i: int|
                            0 <= i < before.len() && (#[trigger] before[i]).0 == p;
                        assert(after[i].0 == p);
                    }
                }
                assert forall|p: Seq<u8>| #[trigger]
                    as_map(after).contains_key(p) implies as_map(after)[p] == as_map(
                    before,
                ).insert(pair.0, pair.1)[p] by {
                    let i = choose|i: int| 0 <= i < after.len() && (#[trigger] after[i]).0 == p;
                    assert(before[i].0 == p);
                    if p == pair.0 {
                        if i < at {
                            assert(before[i].0 != before[at as int].0);
                        } else if at < i {
                            assert(before[at as int].0 != before[i].0);
                        }
                    }
                }
                assert(as_map(after) =~= as_map(before).insert(pair.0, pair.1));
            }
        } else {
            self.entries.push((path, native));
            proof {
                let after = pair_views(self.entries@);
                assert(after =~= before.push(pair));
                assert forall|i: int, j: int| 0 <= i < j < after.len() implies (
                #[trigger] after[i]).0 != (#[trigger] after[j]).0 by {
                    assert(before[i].0 != path@);
                    if j < before.len() {
                        assert(before[i].0 != before[j].0);
                    }
                }
                assert(after.drop_last() =~= before);
            }
        }
    }

    /// A copy of the mappings, in the order in which their paths came.
    pub fn entries(&self) -> (r: Vec<(Vec<u8>, Vec<u8>)>)
        ensures
            pair_views(r@) == self.in_order(),
    {
        let mut r: Vec<(Vec<u8>, Vec<u8>)> = Vec::new();
        let mut i: usize = 0;
        while i < self.entries.len()
            invariant
                i <= self.entries@.len(),
                pair_views(r@) == pair_views(self.entries@).take(i as int),
            decreases self.entries@.len() - i,
        {
            let ghost before = pair_views(r@);
            let pair: (Vec<u8>, Vec<u8>) = (copy(&self.entries[i].0), copy(&self.entries[i].1));
            let ghost both = (pair.0@, pair.1@);
            r.push(pair);
            assert(pair_views(r@) =~= before.push(both));
            assert(pair_views(self.entries@).take(i + 1) =~= pair_views(self.entries@).take(
                i as int,
            ).push(both));
            i += 1;
        }
        assert(pair_views(self.entries@).take(i as int) =~= pair_views(self.entries@));
        r
    }
}

} // verus!
