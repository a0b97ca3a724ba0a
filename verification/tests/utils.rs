use entropy::utils::{count_symbols, sort_desc, sorted_counts};

#[test]
fn count_symbols_first_occurrence_order() {
    let counts = count_symbols(b"banana");
    assert_eq!(counts, vec![(b'b', 1), (b'a', 3), (b'n', 2)]);
    assert_eq!(count_symbols(b""), Vec::<(u8, usize)>::new());
}

#[test]
fn sorted_counts_descending_with_stable_ties() {
    let counts = sorted_counts(b"AAAAAAAAAABBBBCCCCCCCDDEEE");
    assert_eq!(
        counts,
        vec![(b'A', 10), (b'C', 7), (b'B', 4), (b'E', 3), (b'D', 2)]
    );
    // Equal counts keep first-occurrence order: B before D, both twice.
    let tied = sorted_counts(b"BDBD");
    assert_eq!(tied, vec![(b'B', 2), (b'D', 2)]);
}

#[test]
fn sort_desc_is_stable() {
    let unsorted = vec![(b'x', 1), (b'y', 2), (b'z', 1)];
    let sorted = sort_desc(unsorted);
    assert_eq!(sorted, vec![(b'y', 2), (b'x', 1), (b'z', 1)]);
}
