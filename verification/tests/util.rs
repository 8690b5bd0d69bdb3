#[test]
fn mirror() {
    let mirrored = wfeusk::util::mirror(&[1, 2, 3, 4, 5, 6, 7]);
    assert_eq!(mirrored, [1, 2, 3, 4, 5, 6, 7, 6, 5, 4, 3, 2, 1]);

    let mirrored = wfeusk::util::mirror(&[1, 2, 1, 99, 1, 1]);
    assert_eq!(mirrored, [1, 2, 1, 99, 1, 1, 1, 99, 1, 2, 1]);
}

#[test]
fn mirror_empty() {
    let empty: [Option<char>; 0] = [];
    let mirrored: Vec<Option<char>> = wfeusk::util::mirror(&empty);
    assert_eq!(mirrored, []);
}

#[test]
fn mirror_is_palindrome() {
    for items in [vec!['a'], vec!['a', 'b'], vec!['x', 'y', 'z', 'w']] {
        let m = wfeusk::util::mirror(&items);
        assert_eq!(m.len(), 2 * items.len() - 1);
        let mut rev = m.clone();
        rev.reverse();
        assert_eq!(rev, m);
    }
}
