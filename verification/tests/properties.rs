use vec_linked_list::VecLinkedList;

fn forward<T: Clone>(v: &VecLinkedList<T>) -> Vec<T> {
    let mut out = Vec::new();
    let mut it = v.iter();
    while let Some(x) = it.next() {
        out.push(x.clone());
    }
    out
}

#[test]
fn ring_closure_forward_and_backward() {
    let mut v = VecLinkedList::new();
    let h0 = v.push(10);
    v.push(20);
    v.push(30);
    v.push(40);
    let n = v.len() as isize;
    assert_eq!(v.offset(h0, n), h0);
    assert_eq!(v.offset(h0, -n), h0);
    let mut cur = h0;
    for _ in 0..v.len() {
        cur = v.get_next_node(cur);
    }
    assert_eq!(cur, h0);
    let mut cur = h0;
    for _ in 0..v.len() {
        cur = v.get_prev_node(cur);
    }
    assert_eq!(cur, h0);
}

#[test]
fn round_trip_push_then_iterate() {
    let vals = vec![3, 1, 4, 1, 5, 9, 2, 6];
    let v = VecLinkedList::from_vec(vals.clone());
    assert_eq!(v.len(), vals.len());
    assert_eq!(forward(&v), vals);
}

#[test]
fn insert_then_traverse() {
    let mut v = VecLinkedList::from_vec(vec![1, 2, 3]);
    let h = v.head().unwrap();
    let fresh = v.insert(h, 99);
    assert_eq!(v.offset(h, 1), fresh);
    assert_eq!(v.get(v.offset(h, 1)), Some(&99));
    assert_eq!(forward(&v), vec![1, 99, 2, 3]);
}

#[test]
fn remove_preserves_remainder_order() {
    let vals = vec!['a', 'b', 'c', 'd', 'e'];
    for k in 0..vals.len() {
        let mut v = VecLinkedList::from_vec(vals.clone());
        let handle = v.offset(v.head().unwrap(), k as isize);
        let removed = v.remove(handle);
        assert_eq!(removed, vals[k]);
        let mut expected = vals.clone();
        expected.remove(k);
        assert_eq!(v.len(), vals.len() - 1);
        assert_eq!(forward(&v), expected);
    }
}

#[test]
fn slot_reuse_after_drain() {
    let mut v = VecLinkedList::new();
    let mut handles = Vec::new();
    for i in 0..5 {
        handles.push(v.push(i));
    }
    for h in handles {
        v.remove(h);
    }
    assert_eq!(v.len(), 0);
    // all freed slots are reused: no handle beyond the high-water mark
    for i in 0..4 {
        let h = v.push(i);
        assert!(h < 5);
    }
    assert_eq!(forward(&v), vec![0, 1, 2, 3]);
}

#[test]
fn destructive_iterator_drains_fully() {
    let vals = vec![7, 8, 9, 10];
    let v = VecLinkedList::from_vec(vals.clone());
    let mut it = v.into_iter();
    let mut out = Vec::new();
    while let Some(x) = it.next() {
        out.push(x);
    }
    assert_eq!(out, vals);
    assert_eq!(it.next(), None);
}

#[test]
fn mid_list_edit_by_position() {
    let mut v = VecLinkedList::from_vec("Marcus".chars().collect());
    let at2 = v.offset(v.head().unwrap(), 2);
    assert_eq!(v.remove(at2), 'r');
    assert_eq!(forward(&v), vec!['M', 'a', 'c', 'u', 's']);
    let at3 = v.offset(v.head().unwrap(), 3);
    v.insert(at3, 'H');
    assert_eq!(forward(&v), vec!['M', 'a', 'c', 'u', 'H', 's']);
}

#[test]
fn get_and_get_mut_probe_liveness() {
    let mut v = VecLinkedList::new();
    let a = v.push(String::from("x"));
    let b = v.push(String::from("y"));
    assert_eq!(v.get(a), Some(&String::from("x")));
    assert_eq!(v.get(1000), None);
    v.remove(b);
    assert_eq!(v.get(b), None);
    assert_eq!(v.get_mut(b), None);
    *v.get_mut(a).unwrap() = String::from("z");
    assert_eq!(v.get(a), Some(&String::from("z")));
}

#[test]
fn head_tail_and_set_head() {
    let mut v = VecLinkedList::from_vec(vec![1, 2, 3, 4]);
    let h = v.head().unwrap();
    let t = v.tail().unwrap();
    assert_eq!(v.get(h), Some(&1));
    assert_eq!(v.get(t), Some(&4));
    assert_eq!(v.offset(h, -1), t);
    let third = v.offset(h, 2);
    v.set_head(third);
    assert_eq!(forward(&v), vec![3, 4, 1, 2]);
    assert_eq!(v.head().unwrap(), third);
}

#[test]
fn empty_list_behaviour() {
    let v: VecLinkedList<i32> = VecLinkedList::new();
    assert_eq!(v.len(), 0);
    assert_eq!(v.head(), None);
    assert_eq!(v.tail(), None);
    assert_eq!(v.get(0), None);
    let mut it = v.iter();
    assert_eq!(it.next(), None);
    let w: VecLinkedList<i32> = VecLinkedList::with_capacity(16);
    assert_eq!(w.len(), 0);
    let mut dr = w.into_iter();
    assert_eq!(dr.next(), None);
}

#[test]
fn iterators_with_start_wrap_around() {
    let v = VecLinkedList::from_vec(vec![1, 2, 3, 4]);
    let start = v.offset(v.head().unwrap(), 2);
    let mut seen = Vec::new();
    let mut it = v.iter_with_start(start);
    while let Some(x) = it.next() {
        seen.push(*x);
    }
    assert_eq!(seen, vec![3, 4, 1, 2]);
    let mut drained = Vec::new();
    let mut di = v.into_iter_with_start(start);
    while let Some(x) = di.next() {
        drained.push(x);
    }
    assert_eq!(drained, vec![3, 4, 1, 2]);
}

#[test]
fn single_node_is_its_own_neighbour() {
    let mut v = VecLinkedList::new();
    let h = v.push(42);
    assert_eq!(v.get_next_node(h), h);
    assert_eq!(v.get_prev_node(h), h);
    assert_eq!(v.head(), Some(h));
    assert_eq!(v.tail(), Some(h));
    assert_eq!(v.remove(h), 42);
    assert_eq!(v.len(), 0);
    assert_eq!(v.head(), None);
}

#[test]
fn push_after_drain_reuses_even_when_empty() {
    let mut v = VecLinkedList::new();
    let a = v.push(1);
    v.remove(a);
    let b = v.push(2);
    assert!(b < 1 + 1);
    assert_eq!(forward(&v), vec![2]);
    assert_eq!(v.head(), Some(b));
}
