//! Read and write footprints over dense indices, and the checks that decide
//! whether two footprints may be used at the same time.

use vstd::prelude::*;

verus! {

/// A set of indices, stored as one flag per index.
pub struct IndexSet {
    bits: Vec<bool>,
}

impl IndexSet {
    pub closed spec fn view(&self) -> Set<usize> {
        Set::new(|i: usize| i < self.bits@.len() && self.bits@[i as int])
    }

    pub fn new() -> (s: IndexSet)
        ensures
            s@ == Set::<usize>::empty(),
    {
        let s = IndexSet { bits: Vec::new() };
        assert(s@ =~= Set::<usize>::empty());
        s
    }

    /// A second set with the same indices.
    pub fn copy(&self) -> (r: IndexSet)
        ensures
            r@ == self@,
    {
        let mut bits: Vec<bool> = Vec::new();
        let mut i: usize = 0;
        while i < self.bits.len()
            invariant
                i <= self.bits@.len(),
                bits@ == self.bits@.subrange(0, i as int),
            decreases self.bits@.len() - i,
        {
            bits.push(self.bits[i]);
            assert(bits@ =~= self.bits@.subrange(0, i + 1));
            i += 1;
        }
        assert(bits@ =~= self.bits@);
        let r = IndexSet { bits };
        assert(r@ =~= self@);
        r
    }

    pub fn contains(&self, index: usize) -> (r: bool)
        ensures
            r == self@.contains(index),
    {
        index < self.bits.len() && self.bits[index]
    }

    pub fn insert(&mut self, index: usize)
        ensures
            final(self)@ == old(self)@.insert(index),
    {
        while self.bits.len() <= index
            invariant
                self@ == old(self)@,
            decreases index + 1 - self.bits.len(),
        {
            let ghost before = self@;
            self.bits.push(false);
            assert(self@ =~= before);
        }
        self.bits[index] = true;
        assert(self@ =~= old(self)@.insert(index));
    }

    pub fn clear(&mut self)
        ensures
            final(self)@ == Set::<usize>::empty(),
    {
        self.bits = Vec::new();
        assert(self@ =~= Set::<usize>::empty());
    }

/// The smallest index in the set.
    pub fn first_member(&self) -> (r: Option<usize>)
        ensures
            r.is_none() <==> self@ == Set::<usize>::empty(),
            r matches Some(i) ==> self@.contains(i),
    {
        let mut i: usize = 0;
        while i < self.bits.len()
            invariant
                i <= self.bits.len(),
                forall|j: int| 0 <= j < i ==> !self.bits@[j],
            decreases self.bits.len() - i,
        {
            if self.bits[i] {
                assert(self@.contains(i));
                return Some(i);
            }
            i += 1;
        }
        assert(self@ =~= Set::<usize>::empty());
        None
    }

    pub fn is_empty(&self) -> (r: bool)
        ensures
            r == (self@ == Set::<usize>::empty()),
    {
        self.first_member().is_none()
    }

    /// Adds every index of `other`.
    pub fn extend(&mut self, other: &IndexSet)
        ensures
            final(self)@ == old(self)@.union(other@),
    {
        let mut i: usize = 0;
        while i < other.bits.len()
            invariant
                i <= other.bits.len(),
                forall|k: usize|
                    #[trigger] self@.contains(k) <==> old(self)@.contains(k) || (k < i
                        && other@.contains(k)),
            decreases other.bits.len() - i,
        {
            let ghost before = self@;
            if other.bits[i] {
                self.insert(i);
            }
            assert forall|k: usize| #[trigger]
                self@.contains(k) <==> old(self)@.contains(k) || (k < i + 1 && other@.contains(
                    k,
                )) by {
                assert(before.contains(k) <==> old(self)@.contains(k) || (k < i && other@.contains(
                    k,
                )));
            }
            i += 1;
        }
        assert forall|k: usize|
            self@.contains(k) <==> #[trigger] old(self)@.union(other@).contains(k) by {
            assert(self@.contains(k) <==> old(self)@.contains(k) || (k < i && other@.contains(k)));
        }
        assert(self@ =~= old(self)@.union(other@));
    }

    /// The smallest index that lies in both sets.
    pub fn first_common(&self, other: &IndexSet) -> (r: Option<usize>)
        ensures
            r.is_none() <==> self@.disjoint(other@),
            r matches Some(i) ==> self@.contains(i) && other@.contains(i) && forall|k: usize|
                k < i ==> !(self@.contains(k) && other@.contains(k)),
    {
        let mut i: usize = 0;
        while i < self.bits.len() && i < other.bits.len()
            invariant
                forall|k: usize| k < i ==> !(self@.contains(k) && other@.contains(k)),
            decreases self.bits.len() - i,
        {
            if self.bits[i] && other.bits[i] {
                assert(self@.contains(i) && other@.contains(i));
                return Some(i);
            }
            i += 1;
        }
        None
    }

    pub fn is_disjoint(&self, other: &IndexSet) -> (r: bool)
        ensures
            r == self@.disjoint(other@),
    {
        self.first_common(other).is_none()
    }
}

/// The indices a system reads and the indices it writes.
pub struct Access {
    reads_all: bool,
    reads_and_writes: IndexSet,
    writes: IndexSet,
}

/// The mathematical content of an [`Access`].
pub struct AccessView {
    pub reads_all: bool,
    /// Every index that is read or written.
    pub reads_and_writes: Set<usize>,
    pub writes: Set<usize>,
}

impl AccessView {
    pub open spec fn empty() -> AccessView {
        AccessView { reads_all: false, reads_and_writes: Set::empty(), writes: Set::empty() }
    }

    pub open spec fn has_read(self, index: usize) -> bool {
        self.reads_all || self.reads_and_writes.contains(index)
    }

    pub open spec fn has_write(self, index: usize) -> bool {
        self.writes.contains(index)
    }

    pub open spec fn add_read(self, index: usize) -> AccessView {
        AccessView { reads_and_writes: self.reads_and_writes.insert(index), ..self }
    }

    pub open spec fn add_write(self, index: usize) -> AccessView {
        AccessView {
            reads_and_writes: self.reads_and_writes.insert(index),
            writes: self.writes.insert(index),
            ..self
        }
    }

    pub open spec fn extend(self, other: AccessView) -> AccessView {
        AccessView {
            reads_all: self.reads_all || other.reads_all,
            reads_and_writes: self.reads_and_writes.union(other.reads_and_writes),
            writes: self.writes.union(other.writes),
        }
    }

    /// No index written through one footprint is read or written through the other.
    pub open spec fn is_compatible(self, other: AccessView) -> bool {
        forall|index: usize| !#[trigger] self.conflicts_at(other, index)
    }

    /// Whatever `earlier` reads this footprint reads, and whatever
    /// `earlier` writes this footprint writes.
    pub open spec fn covers(self, earlier: AccessView) -> bool {
        &&& forall|index: usize| earlier.has_read(index) ==> #[trigger] self.has_read(index)
        &&& forall|index: usize| earlier.has_write(index) ==> #[trigger] self.has_write(index)
    }

    /// An index on which the two footprints collide.
    pub open spec fn conflicts_at(self, other: AccessView, index: usize) -> bool {
        (self.has_write(index) && (other.has_read(index) || other.has_write(index))) || (
        other.has_write(index) && (self.has_read(index) || self.has_write(index)))
    }
}

impl Access {
    pub closed spec fn view(&self) -> AccessView {
        AccessView {
            reads_all: self.reads_all,
            reads_and_writes: self.reads_and_writes@,
            writes: self.writes@,
        }
    }

    pub fn new() -> (access: Access)
        ensures
            access@ == AccessView::empty(),
    {
        Access { reads_all: false, reads_and_writes: IndexSet::new(), writes: IndexSet::new() }
    }

    /// A second footprint with the same content.
    pub fn copy(&self) -> (r: Access)
        ensures
            r@ == self@,
    {
        Access {
            reads_all: self.reads_all,
            reads_and_writes: self.reads_and_writes.copy(),
            writes: self.writes.copy(),
        }
    }

    pub fn add_read(&mut self, index: usize)
        ensures
            final(self)@ == old(self)@.add_read(index),
    {
        self.reads_and_writes.insert(index);
    }

    pub fn add_write(&mut self, index: usize)
        ensures
            final(self)@ == old(self)@.add_write(index),
    {
        self.reads_and_writes.insert(index);
        self.writes.insert(index);
    }

    pub fn has_read(&self, index: usize) -> (r: bool)
        ensures
            r == self@.has_read(index),
    {
        self.reads_all || self.reads_and_writes.contains(index)
    }

    pub fn has_write(&self, index: usize) -> (r: bool)
        ensures
            r == self@.has_write(index),
    {
        self.writes.contains(index)
    }

    /// Declares that every index is read.
    pub fn read_all(&mut self)
        ensures
            final(self)@ == (AccessView { reads_all: true, ..old(self)@ }),
    {
        self.reads_all = true;
    }

    pub fn reads_all(&self) -> (r: bool)
        ensures
            r == self@.reads_all,
    {
        self.reads_all
    }

    pub fn clear(&mut self)
        ensures
            final(self)@ == AccessView::empty(),
    {
        self.reads_all = false;
        self.reads_and_writes.clear();
        self.writes.clear();
    }

    /// Adds the whole footprint of `other`.
    pub fn extend(&mut self, other: &Access)
        ensures
            final(self)@ == old(self)@.extend(other@),
    {
        self.reads_all = self.reads_all || other.reads_all;
        self.reads_and_writes.extend(&other.reads_and_writes);
        self.writes.extend(&other.writes);
    }

    /// The smallest index on which the two footprints collide because one of
    /// them reads everything, if there is one.
    fn reads_all_conflict(&self, other: &Access) -> (r: Option<usize>)
        ensures
            r matches Some(i) ==> self@.conflicts_at(other@, i),
            r.is_none() ==> (self@.reads_all ==> other@.writes == Set::<usize>::empty()),
            r.is_none() ==> (other@.reads_all ==> self@.writes == Set::<usize>::empty()),
    {
        if self.reads_all {
            let everything = other.writes.first_member();
            if everything.is_some() {
                return everything;
            }
        }
        if other.reads_all {
            let everything = self.writes.first_member();
            if everything.is_some() {
                return everything;
            }
        }
        None
    }

    /// An index on which the two footprints collide, if there is one.
    pub fn get_conflict(&self, other: &Access) -> (r: Option<usize>)
        ensures
            r.is_none() <==> self@.is_compatible(other@),
            r matches Some(i) ==> self@.conflicts_at(other@, i),
    {
        let by_reads_all = self.reads_all_conflict(other);
        if by_reads_all.is_some() {
            assert(self@.conflicts_at(other@, by_reads_all.unwrap()));
            return by_reads_all;
        }
        let first = self.writes.first_common(&other.reads_and_writes);
        if first.is_some() {
            assert(self@.conflicts_at(other@, first.unwrap()));
            return first;
        }
        let second = self.reads_and_writes.first_common(&other.writes);
        if second.is_some() {
            assert(self@.conflicts_at(other@, second.unwrap()));
            return second;
        }
        let third = self.writes.first_common(&other.writes);
        if third.is_some() {
            assert(self@.conflicts_at(other@, third.unwrap()));
            return third;
        }
        assert forall|index: usize| !#[trigger] self@.conflicts_at(other@, index) by {
            assert(!(self.writes@.contains(index) && other.reads_and_writes@.contains(index)));
            assert(!(self.reads_and_writes@.contains(index) && other.writes@.contains(index)));
            assert(!(self.writes@.contains(index) && other.writes@.contains(index)));
            if self@.reads_all {
                assert(!other.writes@.contains(index));
            }
            if other@.reads_all {
                assert(!self.writes@.contains(index));
            }
        }
        None
    }

    /// True iff nothing written through one footprint is read or written through the other.
    pub fn is_compatible(&self, other: &Access) -> (r: bool)
        ensures
            r == self@.is_compatible(other@),
    {
        self.get_conflict(other).is_none()
    }
}

/// A footprint over component types together with the component types
/// that an entity must hold, or must not hold, to be touched at all.
pub struct FilteredAccess {
    access: Access,
    with: IndexSet,
    without: IndexSet,
}

/// The mathematical content of a [`FilteredAccess`].
pub struct FilteredAccessView {
    pub access: AccessView,
    pub with: Set<usize>,
    pub without: Set<usize>,
}

impl FilteredAccessView {
    pub open spec fn empty() -> FilteredAccessView {
        FilteredAccessView { access: AccessView::empty(), with: Set::empty(),
            without: Set::empty() }
    }

    /// No entity can be touched through both: one asks for a component
    /// type that the other excludes.
    pub open spec fn is_disjoint(self, other: FilteredAccessView) -> bool {
        !self.with.disjoint(other.without) || !self.without.disjoint(other.with)
    }

    /// The two may be used at the same time: their footprints do not
    /// collide, or no entity can be touched through both.
    pub open spec fn is_compatible(self, other: FilteredAccessView) -> bool {
        self.access.is_compatible(other.access) || self.is_disjoint(other)
    }
}

impl FilteredAccess {
    pub closed spec fn view(&self) -> FilteredAccessView {
        FilteredAccessView { access: self.access@, with: self.with@, without: self.without@ }
    }

    pub fn new() -> (access: FilteredAccess)
        ensures
            access@ == FilteredAccessView::empty(),
    {
        FilteredAccess { access: Access::new(), with: IndexSet::new(), without: IndexSet::new() }
    }

    /// A second footprint with the same content.
    pub fn copy(&self) -> (r: FilteredAccess)
        ensures
            r@ == self@,
    {
        FilteredAccess {
            access: self.access.copy(),
            with: self.with.copy(),
            without: self.without.copy(),
        }
    }

    /// The footprint, without the filters.
    pub fn access(&self) -> (access: &Access)
        ensures
            access@ == self@.access,
    {
        &self.access
    }

    /// Declares a read of a component type that the entity must hold.
    pub fn add_read(&mut self, index: usize)
        ensures
            final(self)@ == (FilteredAccessView {
                access: old(self)@.access.add_read(index),
                with: old(self)@.with.insert(index),
                ..old(self)@
            }),
    {
        self.access.add_read(index);
        self.with.insert(index);
    }

    /// Declares a write of a component type that the entity must hold.
    pub fn add_write(&mut self, index: usize)
        ensures
            final(self)@ == (FilteredAccessView {
                access: old(self)@.access.add_write(index),
                with: old(self)@.with.insert(index),
                ..old(self)@
            }),
    {
        self.access.add_write(index);
        self.with.insert(index);
    }

    /// Declares a read of a component type that the entity may lack.
    pub fn add_optional_read(&mut self, index: usize)
        ensures
            final(self)@ == (FilteredAccessView {
                access: old(self)@.access.add_read(index),
                ..old(self)@
            }),
    {
        self.access.add_read(index);
    }

    /// Declares a write of a component type that the entity may lack.
    pub fn add_optional_write(&mut self, index: usize)
        ensures
            final(self)@ == (FilteredAccessView {
                access: old(self)@.access.add_write(index),
                ..old(self)@
            }),
    {
        self.access.add_write(index);
    }

    /// Declares that the entity must hold a component type.
    pub fn add_with(&mut self, index: usize)
        ensures
            final(self)@ == (FilteredAccessView { with: old(self)@.with.insert(index),
                ..old(self)@ }),
    {
        self.with.insert(index);
    }

    /// Declares that the entity must not hold a component type.
    pub fn add_without(&mut self, index: usize)
        ensures
            final(self)@ == (FilteredAccessView {
                without: old(self)@.without.insert(index),
                ..old(self)@
            }),
    {
        self.without.insert(index);
    }

    /// True iff the two may be used at the same time.
    pub fn is_compatible(&self, other: &FilteredAccess) -> (r: bool)
        ensures
            r == self@.is_compatible(other@),
    {
        if self.access.is_compatible(&other.access) {
            true
        } else {
            !self.with.is_disjoint(&other.without) || !self.without.is_disjoint(&other.with)
        }
    }
}

/// The footprints of all parameters of one system.
pub struct FilteredAccessSet {
    combined_access: Access,
    filtered_accesses: Vec<FilteredAccess>,
}

/// The mathematical content of a [`FilteredAccessSet`].
pub struct FilteredAccessSetView {
    /// The union of the footprints, without their filters.
    pub combined_access: AccessView,
    /// The footprints, in the order in which they were added.
    pub filtered_accesses: Seq<FilteredAccessView>,
}

impl FilteredAccessSetView {
    pub open spec fn empty() -> FilteredAccessSetView {
        FilteredAccessSetView { combined_access: AccessView::empty(),
            filtered_accesses: Seq::empty() }
    }

    /// Whether `access` may be used together with everything in the set.
    pub open spec fn admits(self, access: FilteredAccessView) -> bool {
        access.access.is_compatible(self.combined_access) || forall|i: int|
            0 <= i < self.filtered_accesses.len() ==> (
            #[trigger] self.filtered_accesses[i]).is_compatible(access)
    }

    pub open spec fn add(self, access: FilteredAccessView) -> FilteredAccessSetView {
        FilteredAccessSetView {
            combined_access: self.combined_access.extend(access.access),
            filtered_accesses: self.filtered_accesses.push(access),
        }
    }
}

impl FilteredAccessSet {
    pub closed spec fn view(&self) -> FilteredAccessSetView {
        FilteredAccessSetView {
            combined_access: self.combined_access@,
            filtered_accesses: Seq::new(
                self.filtered_accesses@.len(),
                |i: int| self.filtered_accesses@[i]@,
            ),
        }
    }

    pub fn new() -> (set: FilteredAccessSet)
        ensures
            set@ == FilteredAccessSetView::empty(),
    {
        let set = FilteredAccessSet { combined_access: Access::new(),
            filtered_accesses: Vec::new() };
        assert(set@.filtered_accesses =~= Seq::<FilteredAccessView>::empty());
        set
    }

    /// The union of the footprints, without their filters.
    pub fn combined_access(&self) -> (access: &Access)
        ensures
            access@ == self@.combined_access,
    {
        &self.combined_access
    }

    /// A component type on which `access` collides with a footprint of
    /// the set, if `access` may not be used together with the set.
    pub fn get_conflict(&self, access: &FilteredAccess) -> (r: Option<usize>)
        ensures
            r.is_none() <==> self@.admits(access@),
            r matches Some(index) ==> exists|i: int|
                0 <= i < self@.filtered_accesses.len() && !self@.filtered_accesses[i].is_compatible(
                    access@,
                ) && #[trigger] self@.filtered_accesses[i].access.conflicts_at(access@.access,
                    index),
    {
        if access.access.is_compatible(&self.combined_access) {
            return None;
        }
        let mut i: usize = 0;
        while i < self.filtered_accesses.len()
            invariant
                i <= self.filtered_accesses@.len(),
                !access@.access.is_compatible(self@.combined_access),
                forall|j: int| 0 <= j < i
                    ==> (#[trigger] self@.filtered_accesses[j]).is_compatible(access@),
            decreases self.filtered_accesses@.len() - i,
        {
            let current = &self.filtered_accesses[i];
            assert(current@ == self@.filtered_accesses[i as int]);
            if !current.is_compatible(access) {
                let conflict = current.access.get_conflict(&access.access);
                assert(conflict.is_some());
                return conflict;
            }
            i += 1;
        }
        None
    }

    /// Adds a footprint to the set.
    pub fn add(&mut self, access: FilteredAccess)
        ensures
            final(self)@ == old(self)@.add(access@),
    {
        self.combined_access.extend(&access.access);
        self.filtered_accesses.push(access);
        assert(self@.filtered_accesses =~= old(self)@.filtered_accesses.push(access@));
    }
}

} // verus!
