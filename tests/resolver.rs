use doom_engine::resolver::{resolve, DependencyError, SystemDescriptor};

fn desc(kind: u64, deps: Vec<u64>) -> SystemDescriptor {
    SystemDescriptor { kind, deps }
}

#[test]
fn chain_resolves_in_dependency_order() {
    let s = vec![desc(3, vec![1, 2]), desc(2, vec![1]), desc(1, vec![])];
    assert_eq!(resolve(&s), Ok(vec![2, 1, 0]));
}

#[test]
fn independent_systems_keep_registration_order() {
    let s = vec![desc(5, vec![]), desc(4, vec![]), desc(6, vec![5])];
    assert_eq!(resolve(&s), Ok(vec![0, 1, 2]));
    let t = vec![desc(1, vec![2]), desc(2, vec![]), desc(3, vec![])];
    assert_eq!(resolve(&t), Ok(vec![1, 0, 2]));
}

#[test]
fn two_cycle_is_reported_with_both_members() {
    let s = vec![desc(24, vec![25]), desc(25, vec![24])];
    match resolve(&s) {
        Err(DependencyError::CyclicDependency(c)) => {
            let mut c = c;
            c.sort();
            assert_eq!(c, vec![24, 25]);
        }
        other => panic!("unexpected {:?}", other),
    }
}

#[test]
fn self_dependency_is_a_cycle() {
    let s = vec![desc(7, vec![7])];
    assert_eq!(resolve(&s), Err(DependencyError::CyclicDependency(vec![7])));
}

#[test]
fn cycle_below_acyclic_part_names_only_the_cycle() {
    let s = vec![
        desc(1, vec![]),
        desc(2, vec![1, 3]),
        desc(3, vec![4]),
        desc(4, vec![3]),
    ];
    match resolve(&s) {
        Err(DependencyError::CyclicDependency(c)) => {
            let mut c = c;
            c.sort();
            assert_eq!(c, vec![3, 4]);
        }
        other => panic!("unexpected {:?}", other),
    }
}

#[test]
fn unknown_dependency_is_missing() {
    let s = vec![desc(1, vec![]), desc(2, vec![9])];
    assert_eq!(
        resolve(&s),
        Err(DependencyError::MissingDependency { system: 2, missing: 9 })
    );
}

#[test]
fn repeated_kind_is_a_duplicate() {
    let s = vec![desc(1, vec![]), desc(1, vec![])];
    assert_eq!(resolve(&s), Err(DependencyError::DuplicateSystem(1)));
}

#[test]
fn empty_registration_gives_empty_order() {
    let s: Vec<SystemDescriptor> = Vec::new();
    assert_eq!(resolve(&s), Ok(vec![]));
}
