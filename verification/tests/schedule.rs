use bevy_ecs::query::access::Access;
use bevy_ecs::schedule::parallel_groups;

fn access(reads: &[usize], writes: &[usize]) -> Access {
    let mut access = Access::new();
    for read in reads {
        access.add_read(*read);
    }
    for write in writes {
        access.add_write(*write);
    }
    access
}

#[test]
fn systems_are_grouped_in_order() {
    let accesses = vec![
        access(&[0], &[1]),
        access(&[0], &[2]),
        access(&[1], &[]),
        access(&[3], &[]),
        access(&[], &[3]),
        access(&[], &[3]),
        access(&[4], &[]),
    ];
    let borrowed: Vec<&Access> = accesses.iter().collect();
    assert_eq!(parallel_groups(&borrowed), vec![vec![0, 1], vec![2, 3], vec![4], vec![5, 6]]);
}

#[test]
fn no_systems_make_no_groups() {
    let borrowed: Vec<&Access> = Vec::new();
    assert_eq!(parallel_groups(&borrowed), Vec::<Vec<usize>>::new());
    let only = access(&[], &[0]);
    assert_eq!(parallel_groups(&vec![&only]), vec![vec![0]]);
}

#[test]
fn readers_share_a_group() {
    let accesses = vec![access(&[0, 1], &[]), access(&[1], &[]), access(&[0], &[])];
    let borrowed: Vec<&Access> = accesses.iter().collect();
    assert_eq!(parallel_groups(&borrowed), vec![vec![0, 1, 2]]);
}
