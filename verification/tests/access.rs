use bevy_ecs::query::access::{Access, FilteredAccess, FilteredAccessSet, IndexSet};

#[test]
fn index_set_holds_what_was_inserted() {
    let mut set = IndexSet::new();
    assert!(set.is_empty());
    assert_eq!(set.first_member(), None);
    set.insert(70);
    set.insert(3);
    assert!(set.contains(3));
    assert!(set.contains(70));
    assert!(!set.contains(4));
    assert!(!set.contains(1000));
    assert_eq!(set.first_member(), Some(3));
    let mut other = IndexSet::new();
    other.insert(4);
    assert!(set.is_disjoint(&other));
    other.insert(70);
    assert!(!set.is_disjoint(&other));
    assert_eq!(set.first_common(&other), Some(70));
    set.extend(&other);
    assert!(set.contains(4));
    let copy = set.copy();
    set.clear();
    assert!(set.is_empty());
    assert!(copy.contains(3) && copy.contains(4) && copy.contains(70));
}

#[test]
fn reads_are_compatible_and_writes_collide() {
    let mut first = Access::new();
    first.add_read(1);
    first.add_read(2);
    let mut second = Access::new();
    second.add_read(2);
    second.add_read(3);
    assert!(first.is_compatible(&second));
    assert_eq!(first.get_conflict(&second), None);
    second.add_write(1);
    assert!(!first.is_compatible(&second));
    assert!(!second.is_compatible(&first));
    assert_eq!(first.get_conflict(&second), Some(1));
    assert!(second.has_read(1) && second.has_write(1));
    assert!(first.has_read(1) && !first.has_write(1));
    let mut third = Access::new();
    third.add_write(7);
    assert!(third.is_compatible(&first));
    let mut fourth = Access::new();
    fourth.add_write(7);
    assert!(!third.is_compatible(&fourth));
    assert_eq!(third.get_conflict(&fourth), Some(7));
}

#[test]
fn reading_everything_collides_with_every_write() {
    let mut everything = Access::new();
    everything.read_all();
    assert!(everything.reads_all());
    assert!(everything.has_read(12345));
    let mut reader = Access::new();
    reader.add_read(4);
    assert!(everything.is_compatible(&reader));
    let mut writer = Access::new();
    writer.add_write(4);
    assert!(!everything.is_compatible(&writer));
    assert!(!writer.is_compatible(&everything));
    everything.clear();
    assert!(!everything.reads_all());
    assert!(everything.is_compatible(&writer));
}

#[test]
fn extending_takes_the_union() {
    let mut first = Access::new();
    first.add_read(1);
    let mut second = Access::new();
    second.add_write(2);
    first.extend(&second);
    assert!(first.has_read(1));
    assert!(first.has_read(2));
    assert!(first.has_write(2));
    assert!(!first.has_write(1));
    let copy = first.copy();
    assert!(copy.has_write(2) && copy.has_read(1));
}

#[test]
fn disjoint_filters_make_colliding_footprints_compatible() {
    let mut first = FilteredAccess::new();
    first.add_write(1);
    first.add_with(2);
    let mut second = FilteredAccess::new();
    second.add_write(1);
    assert!(!first.is_compatible(&second));
    second.add_without(2);
    assert!(first.is_compatible(&second));
    assert!(second.is_compatible(&first));
    assert!(first.access().has_write(1));
}

#[test]
fn an_access_set_reports_a_conflict_with_what_it_holds() {
    let mut set = FilteredAccessSet::new();
    let mut first = FilteredAccess::new();
    first.add_read(1);
    first.add_write(2);
    set.add(first);
    let mut reader = FilteredAccess::new();
    reader.add_read(1);
    assert_eq!(set.get_conflict(&reader), None);
    let mut writer = FilteredAccess::new();
    writer.add_optional_write(1);
    assert_eq!(set.get_conflict(&writer), Some(1));
    let mut excluded = FilteredAccess::new();
    excluded.add_write(2);
    excluded.add_without(1);
    assert_eq!(set.get_conflict(&excluded), None);
    assert!(set.combined_access().has_write(2));
}
