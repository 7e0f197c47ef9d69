//! Bundles: the components that one insertion gives to an entity.

use vstd::prelude::*;
use crate::archetype::{lemma_position, lower_bound, position, strictly_sorted};
use crate::component::ComponentId;

verus! {

/// A set of component values, at most one per component type.
pub struct Bundle {
    pub(crate) ids: Vec<ComponentId>,
    pub(crate) values: Vec<u64>,
}

impl Bundle {
    /// The value that the bundle holds for each of its component types.
    pub closed spec fn view(&self) -> Map<ComponentId, u64> {
        Map::new(
            |c: ComponentId| self.ids@.contains(c),
            |c: ComponentId| self.values@[position(self.ids@, c)],
        )
    }

    /// The component types are in increasing order, each with its value.
    pub open(crate) spec fn wf(&self) -> bool {
        &&& strictly_sorted(self.ids@)
        &&& self.values@.len() == self.ids@.len()
    }

    /// The entry at place `i` is the value of the bundle for its type.
    pub(crate) proof fn lemma_entry(&self, i: int)
        requires
            self.wf(),
            0 <= i < self.ids@.len(),
        ensures
            self@.contains_key(self.ids@[i]),
            self@[self.ids@[i]] == self.values@[i],
    {
        lemma_position(self.ids@, self.ids@[i], i);
    }

    /// What the view holds is what the lists hold.
    pub(crate) proof fn lemma_view(&self, c: ComponentId)
        ensures
            self@.contains_key(c) <==> self.ids@.contains(c),
    {
    }

    /// A bundle without components.
    pub fn new() -> (bundle: Bundle)
        ensures
            bundle.wf(),
            bundle@ == Map::<ComponentId, u64>::empty(),
    {
        let bundle = Bundle { ids: Vec::new(), values: Vec::new() };
        assert(bundle@ =~= Map::<ComponentId, u64>::empty());
        bundle
    }

    /// The number of components in the bundle.
    pub fn len(&self) -> (n: usize)
        requires
            self.wf(),
        ensures
            n == self@.dom().len(),
            self@.dom().finite(),
    {
        proof {
            self.ids@.unique_seq_to_set();
            assert(self.ids@.no_duplicates()) by {
                assert forall|i: int, j: int|
                    0 <= i < self.ids@.len() && 0 <= j < self.ids@.len() && i != j
                        implies self.ids@[i]
                    != self.ids@[j] by {
                    if i < j {
                        assert(self.ids@[i] < self.ids@[j]);
                    } else {
                        assert(self.ids@[j] < self.ids@[i]);
                    }
                }
            }
            assert(self@.dom() =~= self.ids@.to_set());
        }
        self.ids.len()
    }

    /// Sets the value for a component type, replacing the one that the
    /// bundle held for it.
    pub fn insert(&mut self, id: ComponentId, value: u64)
        requires
            old(self).wf(),
        ensures
            final(self).wf(),
            final(self)@ == old(self)@.insert(id, value),
    {
        let p: usize = lower_bound(&self.ids, id);
        if p < self.ids.len() && self.ids[p] == id {
            self.values[p] = value;
            proof {
                assert forall|c: ComponentId| self@.contains_key(c)
                    implies #[trigger] self@[c] == old(self)@.insert(id, value)[c] by {
                    let k = position(self.ids@, c);
                    lemma_position(self.ids@, id, p as int);
                }
                assert(self@ =~= old(self)@.insert(id, value));
            }
        } else {
            self.ids.insert(p, id);
            self.values.insert(p, value);
            proof {
                let before = old(self).ids@;
                let after = self.ids@;
                assert forall|i: int, j: int| 0 <= i < j < after.len()
                    implies after[i] < after[j] by {
                    if j < p {
                        assert(before[i] < before[j]);
                    } else if j == p {
                    } else if i < p {
                        assert(before[i] < id);
                        assert(before[j - 1] >= id);
                    } else if i == p {
                        assert(before[j - 1] >= id);
                    } else {
                        assert(before[i - 1] < before[j - 1]);
                    }
                }
                assert forall|c: ComponentId|
                    self@.contains_key(c) <==> #[trigger] old(self)@.insert(id, value).contains_key(
                        c,
                    ) by {
                    if after.contains(c) {
                        let k = choose|k: int| 0 <= k < after.len() && after[k] == c;
                        if k < p {
                            assert(before[k] == c);
                        } else if k > p {
                            assert(before[k - 1] == c);
                        }
                    }
                    if before.contains(c) {
                        let k = choose|k: int| 0 <= k < before.len() && before[k] == c;
                        if k < p {
                            assert(after[k] == c);
                        } else {
                            assert(after[k + 1] == c);
                        }
                    }
                    if c == id {
                        assert(after[p as int] == c);
                    }
                }
                assert forall|c: ComponentId| self@.contains_key(c)
                    implies #[trigger] self@[c] == old(self)@.insert(id, value)[c] by {
                    if c == id {
                        lemma_position(after, c, p as int);
                    } else {
                        let k = choose|k: int| 0 <= k < before.len() && before[k] == c;
                        lemma_position(before, c, k);
                        if k < p {
                            lemma_position(after, c, k);
                        } else {
                            lemma_position(after, c, k + 1);
                        }
                    }
                }
                assert(self@ =~= old(self)@.insert(id, value));
            }
        }
    }

    /// The bundle with one more component.
    pub fn with(self, id: ComponentId, value: u64) -> (bundle: Bundle)
        requires
            self.wf(),
        ensures
            bundle.wf(),
            bundle@ == self@.insert(id, value),
    {
        let mut bundle = self;
        bundle.insert(id, value);
        bundle
    }

    /// The value that the bundle holds for a component type.
    pub fn get(&self, id: ComponentId) -> (r: Option<u64>)
        requires
            self.wf(),
        ensures
            r == (if self@.contains_key(id) {
                Some(self@[id])
            } else {
                None
            }),
    {
        let p: usize = lower_bound(&self.ids, id);
        if p < self.ids.len() && self.ids[p] == id {
            proof {
                lemma_position(self.ids@, id, p as int);
            }
            Some(self.values[p])
        } else {
            None
        }
    }
}

} // verus!
