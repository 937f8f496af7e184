use topfew::chunks::Chunker;

fn expected_lines(b: &[u8]) -> Vec<Vec<u8>> {
    if b.is_empty() {
        return Vec::new();
    }
    let mut v: Vec<Vec<u8>> = b.split(|c| *c == b'\n').map(|s| s.to_vec()).collect();
    if b.ends_with(b"\n") {
        v.pop();
    }
    v
}

fn collect_lines(b: &[u8], chunk_size: usize) -> Vec<Vec<u8>> {
    let mut all = Vec::new();
    let mut chunker = Chunker::new(b, chunk_size);
    while let Some(mut chunk) = chunker.next() {
        while let Some(line) = chunk.next() {
            all.push(line);
        }
    }
    all
}

#[test]
fn test_chunks() {
    let inputs: Vec<Vec<u8>> = vec![
        b"".to_vec(),
        b"\n".to_vec(),
        b"a".to_vec(),
        b"a\n".to_vec(),
        b"one\ntwo\nthree".to_vec(),
        b"one\ntwo\nthree\n".to_vec(),
        b"\n\nmiddle\n\n".to_vec(),
        b"a line that is much longer than any single chunk\nshort\nx\n".to_vec(),
        b"aa\nbb\ncc\ndd\nee\nff\ngg\nhh\nii\njj\n".to_vec(),
    ];
    for input in &inputs {
        let want = expected_lines(input);
        for chunk_size in 1..=300usize {
            let got = collect_lines(input, chunk_size);
            assert_eq!(got, want, "chunk_size {}", chunk_size);
        }
    }
}

#[test]
fn boundary_invariance() {
    let input = b"alpha\nbeta\ngamma\ndelta\nepsilon\n";
    let whole = collect_lines(input, input.len());
    for chunk_size in 1..input.len() {
        assert_eq!(collect_lines(input, chunk_size), whole);
    }
}

#[test]
fn zero_chunk_size_is_clamped() {
    let input = b"first\nsecond\n";
    assert_eq!(collect_lines(input, 0), expected_lines(input));
}

#[test]
fn empty_buffer_yields_no_chunks() {
    let mut chunker = Chunker::new(b"", 4);
    assert!(chunker.next().is_none());
}
