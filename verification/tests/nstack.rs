use nstack::annotation::Annotation;
use nstack::annotation::Cardinality;
use nstack::annotation::Keyed;
use nstack::annotation::MaxAndCardinality;
use nstack::NStack;

#[test]
fn trivial() {
    let mut nt = NStack::<u32, ()>::new();
    assert_eq!(nt.pop(), None);
}

#[test]
fn push_pop() {
    let mut nt = NStack::<u32, ()>::new();
    nt.push(8);
    assert_eq!(nt.pop(), Some(8));
}

#[test]
fn double() {
    let mut nt = NStack::<u32, ()>::new();
    nt.push(0);
    nt.push(1);
    assert_eq!(nt.pop(), Some(1));
    assert_eq!(nt.pop(), Some(0));
}

#[test]
fn multiple() {
    let n = 1024;

    let mut nt = NStack::<u32, Cardinality>::new();

    for i in 0..n {
        nt.push(i);
        assert_eq!(Cardinality::from_child(&nt).value(), (i + 1) as u64);
    }

    for i in 0..n {
        assert_eq!(nt.pop(), Some(n - i - 1));
    }

    assert_eq!(nt.pop(), None);
}

#[test]
fn nth() {
    let n = 1024;

    let mut nstack = NStack::<_, Cardinality>::new();

    for i in 0..n {
        nstack.push(i);
    }

    for i in 0..n {
        assert_eq!(*nstack.nth(i).expect("Some(_)").leaf(), i);
    }

    assert!(nstack.nth(n).is_none());
}

#[test]
fn nth_mut() {
    let n = 1024;

    let mut nstack = NStack::<_, Cardinality>::new();

    for i in 0..n {
        nstack.push(i);
    }

    for i in 0..n {
        let v = *nstack.nth(i).expect("Some(_)").leaf();
        nstack.nth_mut(i, v + 1).expect("Some(_)");
    }

    for i in 0..n {
        assert_eq!(*nstack.nth(i).expect("Some(_)").leaf(), i + 1);
    }
}

#[test]
fn branch_lengths() {
    let n = 256;

    let mut nt = NStack::<_, MaxAndCardinality<u64>>::new();

    for i in 0..n {
        nt.push(i);
    }

    let length_zero = nt.nth(0).expect("Some(_)").depth();

    for i in 1..n {
        assert_eq!(length_zero, nt.nth(i).expect("Some(_)").depth())
    }

    let max_branch = nt.max_key().expect("Should have a max");
    assert_eq!(*max_branch.leaf(), n - 1);
}

#[test]
fn keyed_blanket_impl() {
    let k: u64 = 42;
    assert_eq!(*k.key(), 42);
}
