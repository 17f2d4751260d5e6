use nstack::annotation::Annotation;
use nstack::annotation::Cardinality;
use nstack::annotation::MaxAndCardinality;
use nstack::NStack;

#[test]
fn max_key_tie_breaks_leftmost() {
    let mut nt = NStack::<u64, MaxAndCardinality<u64>>::new();
    nt.push(3);
    nt.push(1);
    nt.push(3);
    nt.push(2);

    let zero_path = nt.nth(0).expect("Some(_)").path.clone();
    let max_branch = nt.max_key().expect("Should have a max");
    assert_eq!(*max_branch.leaf(), 3);
    // the branch points at the first occurrence of 3, index 0
    assert_eq!(max_branch.path, zero_path);
}

#[test]
fn max_key_empty_aborts() {
    let nt = NStack::<u64, MaxAndCardinality<u64>>::new();
    assert!(nt.max_key().is_none());
}

#[test]
fn max_key_mut_replaces_first_maximum() {
    let mut nt = NStack::<u64, MaxAndCardinality<u64>>::new();
    nt.push(3);
    nt.push(1);
    nt.push(3);
    nt.push(2);

    let prev = nt.max_key_mut(7).expect("Some(_)");
    assert_eq!(prev, 3);
    assert_eq!(*nt.nth(0).unwrap().leaf(), 7);
    assert_eq!(*nt.nth(2).unwrap().leaf(), 3);
}

#[test]
fn max_key_mut_empty_gives_value_back() {
    let mut nt = NStack::<u64, MaxAndCardinality<u64>>::new();
    assert_eq!(nt.max_key_mut(7), Err(7));
}

#[test]
fn nth_mut_out_of_range_gives_value_back() {
    let mut nt = NStack::<u64, Cardinality>::new();
    nt.push(0);
    assert_eq!(nt.nth_mut(1, 9), Err(9));
    assert_eq!(*nt.nth(0).unwrap().leaf(), 0);
}

#[test]
fn nth_empty_aborts() {
    let nt = NStack::<u64, Cardinality>::new();
    assert!(nt.nth(0).is_none());
}

#[test]
fn mutation_keeps_count() {
    let n: u64 = 37;
    let mut nt = NStack::<u64, Cardinality>::new();
    for i in 0..n {
        nt.push(i);
    }
    for i in 0..n {
        let v = *nt.nth(i).unwrap().leaf();
        nt.nth_mut(i, v + 1).unwrap();
    }
    assert_eq!(Cardinality::from_child(&nt).value(), n);
}

#[test]
fn count_decrements_on_pop() {
    let n: u64 = 21;
    let mut nt = NStack::<u64, Cardinality>::new();
    for i in 0..n {
        nt.push(i);
    }
    for i in 0..n {
        nt.pop().unwrap();
        assert_eq!(Cardinality::from_child(&nt).value(), n - i - 1);
    }
}

#[test]
fn height_never_shrinks_on_pop() {
    // five pushes grow the tree one level; popping everything and pushing
    // again keeps the extra level, so the branch is one segment longer
    // than in a fresh one-element tree
    let mut grown = NStack::<u64, Cardinality>::new();
    for i in 0..5 {
        grown.push(i);
    }
    for _ in 0..5 {
        grown.pop().unwrap();
    }
    grown.push(0);

    let mut fresh = NStack::<u64, Cardinality>::new();
    fresh.push(0);

    assert_eq!(fresh.nth(0).unwrap().depth(), 1);
    assert_eq!(grown.nth(0).unwrap().depth(), 2);
}

#[test]
fn cardinality_from_u64() {
    let c = Cardinality::from(11u64);
    assert_eq!(c.value(), 11);
}

#[test]
fn nth_map_mutates_in_place() {
    let mut nt = NStack::<u64, Cardinality>::new();
    for i in 0..9 {
        nt.push(i);
    }
    assert!(nt.nth_map(2, |v| v * 10));
    assert_eq!(*nt.nth(2).unwrap().leaf(), 20);
    assert_eq!(Cardinality::from_child(&nt).value(), 9);
    assert!(!nt.nth_map(9, |v| v));
}
