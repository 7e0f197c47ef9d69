//! Archetypes: groups of entities that hold exactly the same component
//! types, stored column by column.

use vstd::prelude::*;
use crate::component::{ComponentId, StorageType, Stored};
use crate::entity::Entity;

verus! {

/// Index of an archetype, in order of creation.
pub type ArchetypeId = usize;

/// Identifier of one component type inside one archetype.
pub type ArchetypeComponentId = usize;

/// Every element is smaller than the ones after it.
pub open spec fn strictly_sorted(s: Seq<usize>) -> bool {
    forall|i: int, j: int| 0 <= i < j < s.len() ==> s[i] < s[j]
}

/// The sequence after its element at `i` was replaced by the last one and
/// the last one dropped.
pub open spec fn swap_removed<T>(s: Seq<T>, i: int) -> Seq<T> {
    s.update(i, s.last()).drop_last()
}

/// The place of `c` in `s`.
pub open spec fn position(s: Seq<usize>, c: usize) -> int {
    choose|k: int| 0 <= k < s.len() && s[k] == c
}

/// In a sequence without repetition an element has one place only.
pub proof fn lemma_position(s: Seq<usize>, c: usize, k: int)
    requires
        strictly_sorted(s),
        0 <= k < s.len(),
        s[k] == c,
    ensures
        position(s, c) == k,
        s.contains(c),
{
    let p = position(s, c);
    assert(0 <= p < s.len() && s[p] == c);
    if p < k {
        assert(s[p] < s[k]);
    }
    if k < p {
        assert(s[k] < s[p]);
    }
}

/// An element of a sequence has a place in it.
pub proof fn lemma_position_of_member(s: Seq<usize>, c: usize)
    requires
        s.contains(c),
    ensures
        0 <= position(s, c) < s.len(),
        s[position(s, c)] == c,
{
    let k = choose|k: int| 0 <= k < s.len() && s[k] == c;
}

/// Two strictly sorted sequences with the same elements are equal.
pub proof fn lemma_sorted_same_members(a: Seq<usize>, b: Seq<usize>)
    requires
        strictly_sorted(a),
        strictly_sorted(b),
        forall|c: usize| a.contains(c) <==> b.contains(c),
    ensures
        a == b,
    decreases a.len(),
{
    if a.len() == 0 {
        if b.len() > 0 {
            assert(b.contains(b[0]));
            assert(a.contains(b[0]));
        }
        assert(a =~= b);
    } else {
        assert(a.contains(a.last()));
        assert(b.contains(a.last()));
        assert(b.len() > 0);
        assert(b.contains(b.last()));
        assert(a.contains(b.last()));
        let ia = choose|k: int| 0 <= k < a.len() && a[k] == b.last();
        let ib = choose|k: int| 0 <= k < b.len() && b[k] == a.last();
        assert(a.last() == b.last()) by {
            if ia < a.len() - 1 {
                assert(a[ia] < a[a.len() - 1]);
            }
            if ib < b.len() - 1 {
                assert(b[ib] < b[b.len() - 1]);
            }
        }
        let a0 = a.drop_last();
        let b0 = b.drop_last();
        assert forall|c: usize| a0.contains(c) <==> b0.contains(c) by {
            if a0.contains(c) {
                let k = choose|k: int| 0 <= k < a0.len() && a0[k] == c;
                assert(a[k] == c && a[k] < a[a.len() - 1]);
                assert(a.contains(c));
                let m = choose|m: int| 0 <= m < b.len() && b[m] == c;
                assert(m < b.len() - 1);
                assert(b0[m] == c);
            }
            if b0.contains(c) {
                let k = choose|k: int| 0 <= k < b0.len() && b0[k] == c;
                assert(b[k] == c && b[k] < b[b.len() - 1]);
                assert(b.contains(c));
                let m = choose|m: int| 0 <= m < a.len() && a[m] == c;
                assert(m < a.len() - 1);
                assert(a0[m] == c);
            }
        }
        lemma_sorted_same_members(a0, b0);
        assert(a =~= a0.push(a.last()));
        assert(b =~= b0.push(b.last()));
    }
}

/// Copies a list of identifiers.
pub(crate) fn copy_ids(v: &Vec<usize>) -> (r: Vec<usize>)
    ensures
        r@ == v@,
{
    let mut r: Vec<usize> = Vec::new();
    let mut i: usize = 0;
    while i < v.len()
        invariant
            i <= v@.len(),
            r@ == v@.subrange(0, i as int),
        decreases v@.len() - i,
    {
        r.push(v[i]);
        assert(r@ =~= v@.subrange(0, i + 1));
        i += 1;
    }
    assert(r@ =~= v@);
    r
}

/// True iff the two lists hold the same identifiers in the same order.
pub(crate) fn same_ids(a: &Vec<usize>, b: &Vec<usize>) -> (r: bool)
    ensures
        r == (a@ == b@),
{
    if a.len() != b.len() {
        return false;
    }
    let mut i: usize = 0;
    while i < a.len()
        invariant
            i <= a@.len(),
            a@.len() == b@.len(),
            forall|j: int| 0 <= j < i ==> a@[j] == b@[j],
        decreases a@.len() - i,
    {
        if a[i] != b[i] {
            return false;
        }
        i += 1;
    }
    assert(a@ =~= b@);
    true
}

/// The first place of a sorted list whose element is not below `c`.
pub(crate) fn lower_bound(v: &Vec<usize>, c: usize) -> (p: usize)
    requires
        strictly_sorted(v@),
    ensures
        p <= v@.len(),
        forall|j: int| 0 <= j < p ==> v@[j] < c,
        forall|j: int| p <= j < v@.len() ==> v@[j] >= c,
        v@.contains(c) <==> (p < v@.len() && v@[p as int] == c),
{
    let mut p: usize = 0;
    while p < v.len() && v[p] < c
        invariant
            p <= v@.len(),
            forall|j: int| 0 <= j < p ==> v@[j] < c,
        decreases v@.len() - p,
    {
        p += 1;
    }
    proof {
        assert forall|j: int| p <= j < v@.len() implies v@[j] >= c by {
            if p < j {
                assert(v@[p as int] < v@[j]);
            }
        }
        if v@.contains(c) {
            let k = choose|k: int| 0 <= k < v@.len() && v@[k] == c;
            if k > p {
                assert(v@[p as int] < v@[k]);
            }
        }
    }
    p
}

/// Adds `c` to a sorted list, unless it is there already.
pub(crate) fn insert_sorted(v: &mut Vec<usize>, c: usize)
    requires
        strictly_sorted(old(v)@),
    ensures
        strictly_sorted(final(v)@),
        forall|x: usize| final(v)@.contains(x) <==> old(v)@.contains(x) || x == c,
        old(v)@.contains(c) ==> final(v)@ == old(v)@,
{
    let p: usize = lower_bound(v, c);
    if p < v.len() && v[p] == c {
        return ;
    }
    v.insert(p, c);
    proof {
        let before = old(v)@;
        let after = v@;
        assert(after == before.insert(p as int, c));
        assert forall|i: int, j: int| 0 <= i < j < after.len() implies after[i] < after[j] by {
            if j < p {
                assert(before[i] < before[j]);
            } else if j == p {
            } else if i < p {
                assert(before[i] < c);
                assert(before[j - 1] >= c);
            } else if i == p {
                assert(before[j - 1] >= c);
            } else {
                assert(before[i - 1] < before[j - 1]);
            }
        }
        assert forall|x: usize| after.contains(x) <==> before.contains(x) || x == c by {
            if after.contains(x) {
                let k = choose|k: int| 0 <= k < after.len() && after[k] == x;
                if k < p {
                    assert(before[k] == x);
                } else if k > p {
                    assert(before[k - 1] == x);
                }
            }
            if before.contains(x) {
                let k = choose|k: int| 0 <= k < before.len() && before[k] == x;
                if k < p {
                    assert(after[k] == x);
                } else {
                    assert(after[k + 1] == x);
                }
            }
            if x == c {
                assert(after[p as int] == c);
            }
        }
    }
}

/// Takes `c` out of a sorted list, if it is there.
pub(crate) fn remove_sorted(v: &mut Vec<usize>, c: usize)
    requires
        strictly_sorted(old(v)@),
    ensures
        strictly_sorted(final(v)@),
        forall|x: usize| final(v)@.contains(x) <==> old(v)@.contains(x) && x != c,
        !old(v)@.contains(c) ==> final(v)@ == old(v)@,
{
    let p: usize = lower_bound(v, c);
    if p >= v.len() || v[p] != c {
        return ;
    }
    v.remove(p);
    proof {
        let before = old(v)@;
        let after = v@;
        assert(after == before.remove(p as int));
        assert forall|i: int, j: int| 0 <= i < j < after.len() implies after[i] < after[j] by {
            let bi = if i < p { i } else { i + 1 };
            let bj = if j < p { j } else { j + 1 };
            assert(before[bi] < before[bj]);
        }
        assert forall|x: usize| after.contains(x) <==> before.contains(x) && x != c by {
            if after.contains(x) {
                let k = choose|k: int| 0 <= k < after.len() && after[k] == x;
                let bk = if k < p { k } else { k + 1 };
                assert(before[bk] == x);
                if bk < p {
                    assert(before[bk] < before[p as int]);
                } else {
                    assert(before[p as int] < before[bk]);
                }
            }
            if before.contains(x) && x != c {
                let k = choose|k: int| 0 <= k < before.len() && before[k] == x;
                if k < p {
                    assert(after[k] == x);
                } else {
                    assert(after[k - 1] == x);
                }
            }
        }
    }
}

/// One group of entities with the same component types.
pub struct Archetype {
    pub(crate) id: ArchetypeId,
    pub(crate) components: Vec<ComponentId>,
    pub(crate) storages: Vec<StorageType>,
    pub(crate) archetype_component_ids: Vec<ArchetypeComponentId>,
    pub(crate) columns: Vec<Vec<Stored>>,
    pub(crate) entities: Vec<Entity>,
}

impl Archetype {
    /// The component types of the archetype, in increasing order.
    pub open(crate) spec fn component_ids(&self) -> Seq<ComponentId> {
        self.components@
    }

    /// The entities of the archetype, row by row.
    pub open(crate) spec fn rows(&self) -> Seq<Entity> {
        self.entities@
    }

    /// For each component type its identifier inside this archetype.
    pub open(crate) spec fn component_access_ids(&self) -> Seq<ArchetypeComponentId> {
        self.archetype_component_ids@
    }

    /// The identifier of the archetype.
    pub open(crate) spec fn spec_id(&self) -> ArchetypeId {
        self.id
    }

    /// The component types are in increasing order, and every column of a
    /// table-stored type has one cell per entity.
    pub open(crate) spec fn wf(&self) -> bool {
        &&& strictly_sorted(self.components@)
        &&& self.storages@.len() == self.components@.len()
        &&& self.archetype_component_ids@.len() == self.components@.len()
        &&& self.columns@.len() == self.components@.len()
        &&& forall|k: int|
            0 <= k < self.components@.len() ==> (#[trigger] self.columns@[k])@.len() == (
            if self.storages@[k] == StorageType::Table {
                self.entities@.len()
            } else {
                0
            })
    }

    /// The cells of row `row`, one per component type; none for types kept
    /// outside the archetype.
    pub open(crate) spec fn row_cells(&self, row: int) -> Seq<Option<Stored>> {
        Seq::new(
            self.components@.len(),
            |k: int|
                if self.storages@[k] == StorageType::Table {
                    Some(self.columns@[k]@[row])
                } else {
                    None
                },
        )
    }

    /// Whether `cells` can be stored as a row of this archetype.
    pub open(crate) spec fn accepts(&self, cells: Seq<Option<Stored>>) -> bool {
        &&& cells.len() == self.components@.len()
        &&& forall|k: int|
            0 <= k < cells.len() ==> ((#[trigger] cells[k]).is_some() <==> self.storages@[k]
                == StorageType::Table)
    }

    /// An archetype without entities.
    pub(crate) fn new(
        id: ArchetypeId,
        components: Vec<ComponentId>,
        storages: Vec<StorageType>,
        first_access_id: ArchetypeComponentId,
    ) -> (archetype: Archetype)
        requires
            strictly_sorted(components@),
            storages@.len() == components@.len(),
            first_access_id + components@.len() <= usize::MAX,
        ensures
            archetype.wf(),
            archetype.id == id,
            archetype.components@ == components@,
            archetype.storages@ == storages@,
            archetype.entities@.len() == 0,
            archetype.archetype_component_ids@.len() == components@.len(),
            forall|k: int|
                0 <= k < components@.len() ==> #[trigger] archetype.archetype_component_ids@[k]
                    == first_access_id + k,
    {
        let mut columns: Vec<Vec<Stored>> = Vec::new();
        let mut access_ids: Vec<ArchetypeComponentId> = Vec::new();
        let mut k: usize = 0;
        while k < components.len()
            invariant
                k <= components@.len(),
                first_access_id + components@.len() <= usize::MAX,
                columns@.len() == k,
                access_ids@.len() == k,
                forall|j: int| 0 <= j < k ==> (#[trigger] columns@[j])@.len() == 0,
                forall|j: int| 0 <= j < k ==> #[trigger] access_ids@[j] == first_access_id + j,
            decreases components@.len() - k,
        {
            columns.push(Vec::new());
            access_ids.push(first_access_id + k);
            k += 1;
        }
        Archetype {
            id,
            components,
            storages,
            archetype_component_ids: access_ids,
            columns,
            entities: Vec::new(),
        }
    }

    /// The identifier of the archetype.
    pub fn id(&self) -> (id: ArchetypeId)
        ensures
            id == self.spec_id(),
    {
        self.id
    }

    /// The number of entities in the archetype.
    pub fn len(&self) -> (n: usize)
        ensures
            n == self.rows().len(),
    {
        self.entities.len()
    }

    /// True iff the archetype has no entities.
    pub fn is_empty(&self) -> (r: bool)
        ensures
            r == (self.rows().len() == 0),
    {
        self.entities.len() == 0
    }

    /// The place of a component type among those of the archetype.
    pub fn index_of(&self, component_id: ComponentId) -> (r: Option<usize>)
        ensures
            r.is_some() <==> self.component_ids().contains(component_id),
            r matches Some(k) ==> k < self.component_ids().len() && self.component_ids()[k as int]
                == component_id,
    {
        let mut k: usize = 0;
        while k < self.components.len()
            invariant
                k <= self.components@.len(),
                forall|j: int| 0 <= j < k ==> self.components@[j] != component_id,
            decreases self.components@.len() - k,
        {
            if self.components[k] == component_id {
                return Some(k);
            }
            k += 1;
        }
        None
    }

    /// True iff the entities of the archetype hold the component type.
    pub fn contains(&self, component_id: ComponentId) -> (r: bool)
        ensures
            r == self.component_ids().contains(component_id),
    {
        self.index_of(component_id).is_some()
    }

    /// The identifier that access tracking uses for a component type of
    /// this archetype.
    pub fn get_archetype_component_id(&self, component_id: ComponentId) -> (r: Option<
        ArchetypeComponentId,
    >)
        requires
            self.component_access_ids().len() == self.component_ids().len(),
        ensures
            r.is_some() <==> self.component_ids().contains(component_id),
            r matches Some(id) ==> exists|k: int|
                0 <= k < self.component_ids().len() && self.component_ids()[k] == component_id
                    && self.component_access_ids()[k] == id,
    {
        match self.index_of(component_id) {
            Some(k) => Some(self.archetype_component_ids[k]),
            None => None,
        }
    }

    /// Takes row `row` out, moving the last row into its place.
    pub(crate) fn swap_remove(&mut self, row: usize) -> (cells: Vec<Option<Stored>>)
        requires
            old(self).wf(),
            row < old(self).entities@.len(),
        ensures
            final(self).wf(),
            final(self).id == old(self).id,
            final(self).components@ == old(self).components@,
            final(self).storages@ == old(self).storages@,
            final(self).archetype_component_ids@ == old(self).archetype_component_ids@,
            final(self).entities@ == swap_removed(old(self).entities@, row as int),
            cells@ == old(self).row_cells(row as int),
            forall|k: int|
                0 <= k < old(self).components@.len() && old(self).storages@[k]
                    == StorageType::Table ==> (#[trigger] final(self).columns@[k])@ == swap_removed(
                    old(self).columns@[k]@,
                    row as int,
                ),
    {
        let mut cells: Vec<Option<Stored>> = Vec::new();
        let mut k: usize = 0;
        while k < self.columns.len()
            invariant
                old(self).wf(),
                row < old(self).entities@.len(),
                k <= self.columns@.len(),
                self.id == old(self).id,
                self.components@ == old(self).components@,
                self.storages@ == old(self).storages@,
                self.archetype_component_ids@ == old(self).archetype_component_ids@,
                self.entities@ == old(self).entities@,
                self.columns@.len() == old(self).columns@.len(),
                cells@.len() == k,
                forall|j: int| 0 <= j < k
                    ==> #[trigger] cells@[j] == old(self).row_cells(row as int)[j],
                forall|j: int|
                    0 <= j < k && old(self).storages@[j] == StorageType::Table ==> (
                    #[trigger] self.columns@[j])@
                        == swap_removed(old(self).columns@[j]@, row as int),
                forall|j: int|
                    0 <= j < k && old(self).storages@[j] != StorageType::Table ==> (
                    #[trigger] self.columns@[j])@.len() == 0,
                forall|j: int|
                    k <= j < self.columns@.len()
                        ==> #[trigger] self.columns@[j] == old(self).columns@[j],
            decreases self.columns@.len() - k,
        {
            match self.storages[k] {
                StorageType::Table => {
                    assert(old(self).columns@[k as int]@.len() == old(self).entities@.len());
                    let cell = self.columns[k].swap_remove(row);
                    cells.push(Some(cell));
                },
                StorageType::SparseSet => {
                    assert(old(self).columns@[k as int]@.len() == 0);
                    cells.push(None);
                },
            }
            k += 1;
        }
        self.entities.swap_remove(row);
        assert(cells@ =~= old(self).row_cells(row as int));
        cells
    }

    /// Appends a row for `entity`.
    pub(crate) fn push(&mut self, entity: Entity, cells: &Vec<Option<Stored>>)
        requires
            old(self).wf(),
            old(self).accepts(cells@),
        ensures
            final(self).wf(),
            final(self).id == old(self).id,
            final(self).components@ == old(self).components@,
            final(self).storages@ == old(self).storages@,
            final(self).archetype_component_ids@ == old(self).archetype_component_ids@,
            final(self).entities@ == old(self).entities@.push(entity),
            final(self).row_cells(old(self).entities@.len() as int) == cells@,
            forall|k: int|
                0 <= k < old(self).components@.len() && old(self).storages@[k]
                    == StorageType::Table
                        ==> (#[trigger] final(self).columns@[k])@
                            == old(self).columns@[k]@.push(cells@[k].unwrap()),
    {
        let mut k: usize = 0;
        while k < self.columns.len()
            invariant
                old(self).wf(),
                old(self).accepts(cells@),
                k <= self.columns@.len(),
                self.id == old(self).id,
                self.components@ == old(self).components@,
                self.storages@ == old(self).storages@,
                self.archetype_component_ids@ == old(self).archetype_component_ids@,
                self.entities@ == old(self).entities@,
                self.columns@.len() == old(self).columns@.len(),
                forall|j: int|
                    0 <= j < k && old(self).storages@[j] == StorageType::Table ==> (
                    #[trigger] self.columns@[j])@ == old(self).columns@[j]@.push(
                        cells@[j].unwrap(),
                    ),
                forall|j: int|
                    0 <= j < k && old(self).storages@[j] != StorageType::Table ==> (
                    #[trigger] self.columns@[j])@.len() == 0,
                forall|j: int|
                    k <= j < self.columns@.len()
                        ==> #[trigger] self.columns@[j] == old(self).columns@[j],
            decreases self.columns@.len() - k,
        {
            match cells[k] {
                Some(cell) => {
                    assert(old(self).storages@[k as int] == StorageType::Table);
                    self.columns[k].push(cell);
                },
                None => {
                    assert(old(self).storages@[k as int] != StorageType::Table);
                    assert(old(self).columns@[k as int]@.len() == 0);
                },
            }
            k += 1;
        }
        self.entities.push(entity);
        assert(self.row_cells(old(self).entities@.len() as int) =~= cells@);
    }

    /// Overwrites one cell of a table column.
    pub(crate) fn set_cell(&mut self, k: usize, row: usize, cell: Stored)
        requires
            old(self).wf(),
            k < old(self).components@.len(),
            old(self).storages@[k as int] == StorageType::Table,
            row < old(self).entities@.len(),
        ensures
            final(self).wf(),
            final(self).id == old(self).id,
            final(self).components@ == old(self).components@,
            final(self).storages@ == old(self).storages@,
            final(self).archetype_component_ids@ == old(self).archetype_component_ids@,
            final(self).entities@ == old(self).entities@,
            final(self).columns@.len() == old(self).columns@.len(),
            final(self).columns@[k as int]@
                == old(self).columns@[k as int]@.update(row as int, cell),
            forall|j: int|
                0 <= j < old(self).columns@.len() && j != k ==> #[trigger] final(self).columns@[j]
                    == old(self).columns@[j],
    {
        assert(old(self).columns@[k as int]@.len() == old(self).entities@.len());
        self.columns[k][row] = cell;
    }

    /// Rebases the counters of every cell against `global`.
    pub(crate) fn check_counters(&mut self, global: u32)
        requires
            old(self).wf(),
        ensures
            final(self).wf(),
            final(self).id == old(self).id,
            final(self).components@ == old(self).components@,
            final(self).storages@ == old(self).storages@,
            final(self).archetype_component_ids@ == old(self).archetype_component_ids@,
            final(self).entities@ == old(self).entities@,
            final(self).columns@.len() == old(self).columns@.len(),
            forall|k: int|
                0 <= k < old(self).columns@.len()
                    ==> (#[trigger] final(self).columns@[k])@.len() == old(self).columns@[k]@.len(),
            forall|k: int, r: int|
                0 <= k < old(self).columns@.len() && 0 <= r < old(self).columns@[k]@.len()
                    ==> #[trigger] final(self).columns@[k]@[r] == old(self).columns@[k]@[r].rebased(
                    global,
                ),
    {
        let mut k: usize = 0;
        while k < self.columns.len()
            invariant
                k <= self.columns@.len(),
                self.id == old(self).id,
                self.components@ == old(self).components@,
                self.storages@ == old(self).storages@,
                self.archetype_component_ids@ == old(self).archetype_component_ids@,
                self.entities@ == old(self).entities@,
                self.columns@.len() == old(self).columns@.len(),
                forall|j: int|
                    0 <= j < self.columns@.len()
                        ==> (#[trigger] self.columns@[j])@.len() == old(self).columns@[j]@.len(),
                forall|j: int, r: int|
                    0 <= j < k && 0 <= r < old(self).columns@[j]@.len()
                        ==> #[trigger] self.columns@[j]@[r]
                            == old(self).columns@[j]@[r].rebased(global),
                forall|j: int| k <= j < self.columns@.len()
                    ==> #[trigger] self.columns@[j] == old(self).columns@[j],
            decreases self.columns@.len() - k,
        {
            let mut r: usize = 0;
            while r < self.columns[k].len()
                invariant
                    k < self.columns@.len(),
                    r <= self.columns@[k as int]@.len(),
                    self.id == old(self).id,
                    self.components@ == old(self).components@,
                    self.storages@ == old(self).storages@,
                    self.archetype_component_ids@ == old(self).archetype_component_ids@,
                    self.entities@ == old(self).entities@,
                    self.columns@.len() == old(self).columns@.len(),
                    forall|j: int|
                        0 <= j < self.columns@.len()
                            ==> (#[trigger] self.columns@[j])@.len()
                                == old(self).columns@[j]@.len(),
                    forall|j: int, x: int|
                        0 <= j < k && 0 <= x < old(self).columns@[j]@.len()
                            ==> #[trigger] self.columns@[j]@[x]
                                == old(self).columns@[j]@[x].rebased(
                            global,
                        ),
                    forall|j: int| k < j < self.columns@.len()
                        ==> #[trigger] self.columns@[j] == old(self).columns@[j],
                    forall|x: int|
                        0 <= x < r ==> #[trigger] self.columns@[k as int]@[x]
                            == old(self).columns@[k as int]@[x].rebased(global),
                    forall|x: int|
                        r <= x < self.columns@[k as int]@.len()
                            ==> #[trigger] self.columns@[k as int]@[x]
                            == old(self).columns@[k as int]@[x],
                decreases self.columns@[k as int]@.len() - r,
            {
                self.columns[k][r].check_counters(global);
                r += 1;
            }
            k += 1;
        }
    }
}

} // verus!
