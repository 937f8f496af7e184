use topfew::counter::Counter;

fn keys(names: &[&str]) -> Vec<Vec<u8>> {
    names.iter().map(|n| n.as_bytes().to_vec()).collect()
}

fn tally_all(stream: &[Vec<u8>]) -> Counter {
    let mut c = Counter::new(None);
    for k in stream {
        c.add(k, 1);
    }
    c
}

#[test]
fn counter_exact_counts() {
    let stream = keys(&["a", "b", "a", "c", "a", "b"]);
    let c = tally_all(&stream);
    assert_eq!(c.count(&b"a".to_vec()), 3);
    assert_eq!(c.count(&b"b".to_vec()), 2);
    assert_eq!(c.count(&b"c".to_vec()), 1);
    assert_eq!(c.count(&b"d".to_vec()), 0);
}

#[test]
fn counter_add_delta() {
    let mut c = Counter::new(None);
    c.add(&b"k".to_vec(), 5);
    c.add(&b"k".to_vec(), 7);
    assert_eq!(c.count(&b"k".to_vec()), 12);
}

#[test]
fn merge_is_partition_independent() {
    let stream = keys(&["x", "y", "x", "z", "x", "y", "w", "x"]);
    let whole = tally_all(&stream);
    for cut in 0..=stream.len() {
        let left = tally_all(&stream[..cut]);
        let right = tally_all(&stream[cut..]);
        let merged = left.merge(right);
        for name in ["x", "y", "z", "w", "absent"] {
            let key = name.as_bytes().to_vec();
            assert_eq!(merged.count(&key), whole.count(&key), "cut {}", cut);
        }
    }
}

#[test]
fn top_orders_by_count_then_key_descending() {
    let mut acc = Counter::new(Some(3));
    acc.add(&b"low".to_vec(), 1);
    acc.add(&b"alpha".to_vec(), 5);
    acc.add(&b"beta".to_vec(), 5);
    acc.add(&b"high".to_vec(), 9);
    let top = acc.top();
    assert_eq!(top.len(), 3);
    assert_eq!(top[0].count, 9);
    assert_eq!(top[0].key, b"high".to_vec());
    // Equal counts break ties by descending key.
    assert_eq!(top[1].count, 5);
    assert_eq!(top[1].key, b"beta".to_vec());
    assert_eq!(top[2].count, 5);
    assert_eq!(top[2].key, b"alpha".to_vec());
}

#[test]
fn top_never_exceeds_num() {
    let mut acc = Counter::new(Some(2));
    for name in ["a", "b", "c", "d", "e", "f", "g"] {
        acc.add(&name.as_bytes().to_vec(), 1);
    }
    assert!(acc.top().len() <= 2);
}
