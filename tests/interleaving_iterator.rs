use hps_decode::InterleavingIterator;

fn collect_all<T: Copy>(mut it: InterleavingIterator<T>) -> Vec<T> {
    let mut out = Vec::new();
    while let Some(x) = it.next() {
        out.push(x);
    }
    out
}

#[test]
fn interleaves_correctly() {
    let letters = ["A", "B", "C"];
    let numbers = ["1", "2", "3"];
    let notes = ["do", "re", "mi"];

    let interleaved = collect_all(InterleavingIterator::new(vec![
        letters.to_vec(),
        numbers.to_vec(),
        notes.to_vec(),
    ]));

    assert_eq!(
        interleaved,
        vec!["A", "1", "do", "B", "2", "re", "C", "3", "mi"]
    );
}

#[test]
fn interleaves_correctly_with_one_inner_iterator() {
    let letters = ["A", "B", "C"];
    let interleaved = collect_all(InterleavingIterator::new(vec![letters.to_vec()]));
    assert_eq!(interleaved, vec!["A", "B", "C"]);
}

#[test]
fn stops_at_the_first_exhausted_collection() {
    let long = [1, 2, 3];
    let short = [10];
    let interleaved = collect_all(InterleavingIterator::new(vec![long.to_vec(), short.to_vec()]));
    assert_eq!(interleaved, vec![1, 10, 2]);
}
