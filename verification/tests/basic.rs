use vec_linked_list::VecLinkedList;

#[test]
fn test1() {
    let mut v = VecLinkedList::new();
    v.push("Hei1");
    v.push("Hei2");
    let node = v.push("Hei3");
    v.push("Hei4");
    let removed = v.remove(node);
    assert_eq!(removed, "Hei3");
    assert_eq!(v.len(), 3);
    let mut it = v.iter();
    assert_eq!(it.next(), Some(&"Hei1"));
    assert_eq!(it.next(), Some(&"Hei2"));
    assert_eq!(it.next(), Some(&"Hei4"));
    assert_eq!(it.next(), None);
}

#[test]
fn test2() {
    let chars: Vec<char> = "Marcus".chars().collect();
    let mut v = VecLinkedList::from_vec(chars);
    v.remove(2);
    let forward: Vec<char> = {
        let mut out = Vec::new();
        let mut it = v.iter();
        while let Some(c) = it.next() {
            out.push(*c);
        }
        out
    };
    assert_eq!(forward, vec!['M', 'a', 'c', 'u', 's']);
    v.insert(3, 'H');
    let mut drained = Vec::new();
    let mut it = v.into_iter_with_start(3);
    while let Some(c) = it.next() {
        drained.push(c);
    }
    assert_eq!(drained, vec!['c', 'H', 'u', 's', 'M', 'a']);
}
