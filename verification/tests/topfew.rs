use topfew::key_finder::KeyFinder;
use topfew::top_few_from_stream;

#[test]
fn end_to_end_ranks_exactly() {
    let input = b"a\na\nb\na\nc\nb\na\nb\n";
    let kf = KeyFinder::new(Some(vec![1])).unwrap();
    let top = top_few_from_stream(input, &kf, 2, 4);
    assert_eq!(top.len(), 2);
    assert_eq!(top[0].count, 4);
    assert_eq!(top[0].key, b"a".to_vec());
    assert_eq!(top[1].count, 3);
    assert_eq!(top[1].key, b"b".to_vec());
}

#[test]
fn empty_input_yields_empty_result() {
    let kf = KeyFinder::new(Some(vec![1])).unwrap();
    let top = top_few_from_stream(b"", &kf, 10, 8);
    assert!(top.is_empty());
}

#[test]
fn num_larger_than_distinct_returns_all_ranked() {
    let input = b"only\ntwo\nonly\n";
    let kf = KeyFinder::new(None).unwrap();
    let top = top_few_from_stream(input, &kf, 10, 2);
    assert_eq!(top.len(), 2);
    assert_eq!(top[0].count, 2);
    assert_eq!(top[0].key, b"only".to_vec());
    assert_eq!(top[1].count, 1);
    assert_eq!(top[1].key, b"two".to_vec());
}

#[test]
fn result_is_parallelism_independent() {
    let input = b"one two\nthree four\none five\nsix seven\none eight\nthree nine\n";
    let kf = KeyFinder::new(Some(vec![1])).unwrap();
    let reference = top_few_from_stream(input, &kf, 3, 1);
    for parallelism in [0, 2, 3, 7, 64] {
        let got = top_few_from_stream(input, &kf, 3, parallelism);
        assert_eq!(got.len(), reference.len());
        for (a, b) in got.iter().zip(reference.iter()) {
            assert_eq!(a.count, b.count);
            assert_eq!(a.key, b.key);
        }
    }
    assert_eq!(reference[0].count, 3);
    assert_eq!(reference[0].key, b"one".to_vec());
    assert_eq!(reference[1].count, 2);
    assert_eq!(reference[1].key, b"three".to_vec());
    assert_eq!(reference[2].count, 1);
    assert_eq!(reference[2].key, b"six".to_vec());
}

#[test]
fn lines_failing_extraction_are_skipped() {
    let input = b"a b\nmissing\na b\n";
    let kf = KeyFinder::new(Some(vec![2])).unwrap();
    let top = top_few_from_stream(input, &kf, 5, 1);
    assert_eq!(top.len(), 1);
    assert_eq!(top[0].count, 2);
    assert_eq!(top[0].key, b"b".to_vec());
}
