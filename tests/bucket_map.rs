use axfs_ramfs::hashmap::{HashKey, HashMap};

fn collect(m: &HashMap<u64, u32>) -> Vec<(u64, u32)> {
    let mut it = m.iter();
    let mut out = Vec::new();
    while let Some((k, v)) = it.next() {
        out.push((*k, *v));
    }
    out
}

#[test]
fn insert_and_replace() {
    let mut m: HashMap<u64, u32> = HashMap::new(12345);
    m.insert(1, 10);
    m.insert(2, 20);
    m.insert(1, 11);
    let mut all = collect(&m);
    all.sort();
    assert_eq!(all, vec![(1, 11), (2, 20)]);
}

#[test]
fn many_keys_all_iterated() {
    let mut m: HashMap<u64, u32> = HashMap::new(7);
    for i in 0..200u64 {
        m.insert(i, i as u32 * 2);
    }
    let mut all = collect(&m);
    all.sort();
    assert_eq!(all.len(), 200);
    for (i, (k, v)) in all.iter().enumerate() {
        assert_eq!(*k, i as u64);
        assert_eq!(*v, i as u32 * 2);
    }
}

#[test]
fn string_keys() {
    let mut m: HashMap<String, u8> = HashMap::new(99);
    m.insert("a".to_string(), 1);
    m.insert("b".to_string(), 2);
    m.insert("a".to_string(), 3);
    let mut it = m.iter();
    let mut got = Vec::new();
    while let Some((k, v)) = it.next() {
        got.push((k.clone(), *v));
    }
    got.sort();
    assert_eq!(got, vec![("a".to_string(), 3), ("b".to_string(), 2)]);
}

#[test]
fn key_encodings() {
    assert_eq!(0x0102u64.key_bytes(), vec![2, 1, 0, 0, 0, 0, 0, 0]);
    assert_eq!("hi".to_string().key_bytes(), b"hi".to_vec());
}

#[test]
fn empty_map_iterates_nothing() {
    let m: HashMap<u64, u32> = HashMap::new(0);
    assert!(collect(&m).is_empty());
}
