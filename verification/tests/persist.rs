use nstack::annotation::Cardinality;
use nstack::store::Store;
use nstack::NStack;

fn persist() {
    let n: u64 = 1024;

    let mut stack = NStack::<u64, Cardinality>::new();
    for i in 0..n {
        stack.push(i);
    }

    let mut store = Store::new();
    let stored = store.put(stack);

    // walk the reloaded read-only view
    {
        let restored = store.get(stored).unwrap();
        for i in 0..n {
            assert_eq!(*restored.nth(i).unwrap().leaf(), i);
        }
        assert!(restored.nth(n).is_none());
    }

    // take the snapshot back out and empty it
    let mut taken = store.take(stored).unwrap();
    for i in 0..n {
        assert_eq!(taken.pop().unwrap(), n - i - 1);
    }
    assert_eq!(taken.pop(), None);
}

#[test]
fn persist_a() {
    persist()
}

#[test]
fn persist_b() {
    persist()
}

#[test]
fn persist_c() {
    persist()
}

#[test]
fn persist_d() {
    persist()
}
