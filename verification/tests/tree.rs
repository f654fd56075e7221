use suffix_tree::tree::{CharData, ExactMatcher, Matrix, RangeTable, SuffixMatcher};

fn batch(items: &[(i64, &str)]) -> Vec<(i64, String)> {
    items.iter().map(|i| (i.0, i.1.to_string())).collect()
}

fn sorted_matrix(items: &[(i64, &str)]) -> Matrix {
    let mapped = batch(items);
    let mut matrix = Matrix::new(&mapped);
    matrix.sort_in_place();
    matrix
}

const APPLES: [(i64, &str); 8] = [
    (1, "apple.com"),
    (2, "apple.cob"),
    (3, "apple.cbm"),
    (4, "apple.cam"),
    (5, "apple.czm"),
    (6, "appld.com"),
    (7, "dauppld.com"),
    (8, "cn.apple.com"),
];

#[test]
fn test_matrix_sorted() {
    let data = vec![
        (1, "apple.com"),
        (2, "apple.cob"),
        (3, "apple.cbm"),
        (4, "apple.cam"),
        (5, "apple.czm"),
        (6, "appld.com"),
    ];

    let mapped: Vec<(i64, String)> = data.iter().map(|i| (i.0, i.1.to_string())).collect();
    let mut matrix = Matrix::new(&mapped);
    matrix.sort_in_place();

    assert_eq!(matrix.id_line().first(), Some(&2i64));
    assert_eq!(*matrix.id_line(), vec![2, 4, 3, 6, 1, 5]);
    assert_eq!(matrix.sorted_ranges(0).len(), 1);
    assert_eq!(
        matrix.sorted_ranges(0).get(&(0..6)),
        Some(&vec![0..1, 1..6])
    );
    assert_eq!(matrix.sorted_ranges(1).get(&(0..1)), Some(&vec![0..1]));
    assert_eq!(
        matrix.sorted_ranges(1).get(&(1..6)),
        Some(&vec![1..2, 2..3, 3..5, 5..6])
    );
}

#[test]
fn test_matrix_build_tree() {
    let data = vec![
        (1, "apple.com"),
        (2, "apple.cob"),
        (3, "apple.cbm"),
        (4, "apple.cam"),
        (5, "apple.czm"),
        (6, "appld.com"),
        (7, "dauppld.com"),
        (8, "cn.apple.com"),
    ];
    let mapped: Vec<(i64, String)> = data.iter().map(|i| (i.0, i.1.to_string())).collect();

    let mut matrix = Matrix::new(&mapped);
    matrix.sort_in_place();

    let tree = matrix.build_tree();
    let matcher = SuffixMatcher::new(tree);

    assert_eq!(Some(8), matcher.find("cn.apple.com"));
    assert_eq!(Some(1), matcher.find("weather.apple.com"));
}

#[test]
fn new_lays_out_strings_backwards() {
    let mapped = batch(&[(10, "ab"), (20, "c")]);
    let matrix = Matrix::new(&mapped);
    assert_eq!(*matrix.id_line(), vec![10, 20]);
    let lines = matrix.lines();
    assert_eq!(lines.len(), 3);
    assert_eq!(lines[0], vec![CharData::Char(b'b'), CharData::Char(b'c')]);
    assert_eq!(lines[1], vec![CharData::Char(b'a'), CharData::End]);
    assert_eq!(lines[2], vec![CharData::End, CharData::Blank]);
    for line in 0..=3 {
        assert_eq!(matrix.sorted_ranges(line).len(), 0);
    }
}

#[test]
fn sort_orders_columns_by_reversed_string() {
    // Read backwards: "b", "a", "ba"; an end marker ranks below every byte.
    let matrix = sorted_matrix(&[(1, "b"), (2, "a"), (3, "ab")]);
    assert_eq!(*matrix.id_line(), vec![2, 1, 3]);
    let lines = matrix.lines();
    assert_eq!(lines[0], vec![CharData::Char(b'a'), CharData::Char(b'b'), CharData::Char(b'b')]);
    assert_eq!(lines[1], vec![CharData::End, CharData::End, CharData::Char(b'a')]);
    assert_eq!(lines[2], vec![CharData::Blank, CharData::Blank, CharData::End]);
}

#[test]
fn sort_keeps_every_column() {
    let matrix = sorted_matrix(&APPLES);
    let mut ids = matrix.id_line().clone();
    ids.sort();
    assert_eq!(ids, vec![1, 2, 3, 4, 5, 6, 7, 8]);
}

#[test]
fn sort_records_groups_of_each_line() {
    // Backwards: "ba", "b", "ca".
    let matrix = sorted_matrix(&[(1, "ab"), (2, "b"), (3, "ac")]);
    assert_eq!(*matrix.id_line(), vec![2, 1, 3]);
    assert_eq!(matrix.sorted_ranges(0).len(), 1);
    assert_eq!(matrix.sorted_ranges(0).get(&(0..3)), Some(&vec![0..2, 2..3]));
    // The group "b" splits into the end of "b" and the byte 'a' of "ba"; a
    // group that starts with end markers is led by an empty range.
    assert_eq!(matrix.sorted_ranges(1).get(&(0..2)), Some(&vec![0..0, 0..1, 1..2]));
    assert_eq!(matrix.sorted_ranges(1).get(&(2..3)), Some(&vec![2..3]));
    assert_eq!(matrix.sorted_ranges(1).len(), 2);
    // Single columns that end here get no entry; the empty range keeps one.
    assert_eq!(matrix.sorted_ranges(2).get(&(0..0)), Some(&vec![0..0]));
    assert_eq!(matrix.sorted_ranges(2).get(&(1..2)), None);
    assert_eq!(matrix.sorted_ranges(2).get(&(2..3)), None);
    assert_eq!(matrix.sorted_ranges(2).len(), 1);
    assert_eq!(matrix.sorted_ranges(3).len(), 0);
}

#[test]
fn suffix_lookup_picks_longest_suffix() {
    let matrix = sorted_matrix(&APPLES);
    let matcher = SuffixMatcher::new(matrix.build_tree());
    assert_eq!(matcher.find("apple.com"), Some(1));
    assert_eq!(matcher.find("www.cn.apple.com"), Some(8));
    assert_eq!(matcher.find("x.appld.com"), Some(6));
    assert_eq!(matcher.find("xdauppld.com"), Some(7));
    assert_eq!(matcher.find("apple.czm"), Some(5));
    assert_eq!(matcher.find("ppld.com"), None);
    assert_eq!(matcher.find("com"), None);
    assert_eq!(matcher.find("apple.org"), None);
    assert_eq!(matcher.find(""), None);
}

#[test]
fn suffix_lookup_finds_every_string_of_the_batch() {
    let matrix = sorted_matrix(&APPLES);
    let matcher = SuffixMatcher::new(matrix.build_tree());
    for (id, text) in APPLES.iter() {
        assert_eq!(matcher.find(text), Some(*id));
    }
}

#[test]
fn exact_lookup_needs_the_whole_string() {
    let matrix = sorted_matrix(&APPLES);
    let matcher = ExactMatcher::new(matrix.build_tree());
    for (id, text) in APPLES.iter() {
        assert_eq!(matcher.find(text), Some(*id));
    }
    assert_eq!(matcher.find("weather.apple.com"), None);
    assert_eq!(matcher.find("pple.com"), None);
    assert_eq!(matcher.find("apple.co"), None);
    assert_eq!(matcher.find(""), None);
}

#[test]
fn lookups_on_a_single_string() {
    let matrix = sorted_matrix(&[(42, "a")]);
    let suffix = SuffixMatcher::new(matrix.build_tree());
    assert_eq!(suffix.find("a"), Some(42));
    assert_eq!(suffix.find("ba"), Some(42));
    assert_eq!(suffix.find("ab"), None);
    let matrix = sorted_matrix(&[(42, "a")]);
    let exact = ExactMatcher::new(matrix.build_tree());
    assert_eq!(exact.find("a"), Some(42));
    assert_eq!(exact.find("ba"), None);
}

#[test]
fn duplicate_strings_give_the_last_columns_id() {
    let matrix = sorted_matrix(&[(1, "x.org"), (2, "x.org"), (3, "org")]);
    let matcher = SuffixMatcher::new(matrix.build_tree());
    // The heap sort leaves the copy with id 2 last, and the trie keeps the
    // id of the last column holding the string.
    assert_eq!(matcher.find("www.x.org"), Some(2));
    assert_eq!(matcher.find("y.org"), Some(3));
}

#[test]
fn nested_strings_each_keep_their_id() {
    // "b.c" is a suffix of "ab.c", which ends where "b.c" continues.
    let matrix = sorted_matrix(&[(1, "c"), (2, "b.c"), (3, "ab.c")]);
    let matcher = SuffixMatcher::new(matrix.build_tree());
    assert_eq!(matcher.find("c"), Some(1));
    assert_eq!(matcher.find("xb.c"), Some(2));
    assert_eq!(matcher.find("zab.c"), Some(3));
    assert_eq!(matcher.find(".c"), Some(1));
    let matrix = sorted_matrix(&[(1, "c"), (2, "b.c"), (3, "ab.c")]);
    let exact = ExactMatcher::new(matrix.build_tree());
    assert_eq!(exact.find(".c"), None);
    assert_eq!(exact.find("b.c"), Some(2));
}

#[test]
fn many_children_under_one_node() {
    // Eight strings that differ only in their last byte: the root has a
    // child per byte, found through the count of lower bits.
    let items: Vec<(i64, String)> =
        "aeimquy~".bytes().enumerate().map(|(i, b)| (i as i64 + 1, format!("k{}", b as char))).collect();
    let mut matrix = Matrix::new(&items);
    matrix.sort_in_place();
    let matcher = ExactMatcher::new(matrix.build_tree());
    for (id, text) in items.iter() {
        assert_eq!(matcher.find(text), Some(*id));
    }
    assert_eq!(matcher.find("kb"), None);
}

#[test]
fn char_data_order() {
    assert!(CharData::Blank.precedes(&CharData::End));
    assert!(CharData::End.precedes(&CharData::Char(0)));
    assert!(CharData::Char(3).precedes(&CharData::Char(4)));
    assert!(!CharData::Char(4).precedes(&CharData::Char(4)));
    assert!(CharData::Char(9).follows(&CharData::End));
    assert!(!CharData::Blank.follows(&CharData::Blank));
}

#[test]
fn range_table_insert_and_get() {
    let mut table = RangeTable::new();
    assert_eq!(table.len(), 0);
    assert_eq!(table.get(&(0..3)), None);
    table.insert(0..3, vec![0..1, 1..3]);
    table.insert(0..2, vec![0..2]);
    table.insert(4..5, vec![4..5]);
    assert_eq!(table.len(), 3);
    assert_eq!(table.get(&(0..3)), Some(&vec![0..1, 1..3]));
    assert_eq!(table.get(&(0..2)), Some(&vec![0..2]));
    assert_eq!(table.get(&(0..4)), None);
    table.insert(0..3, vec![0..3]);
    assert_eq!(table.len(), 3);
    assert_eq!(table.get(&(0..3)), Some(&vec![0..3]));
    assert_eq!(*table.keys(), vec![0..3, 0..2, 4..5]);
}

#[test]
fn exact_match_is_also_suffix_match() {
    let suffix = SuffixMatcher::new(sorted_matrix(&APPLES).build_tree());
    let exact = ExactMatcher::new(sorted_matrix(&APPLES).build_tree());
    for query in ["apple.com", "cn.apple.com", "apple.cam", "dauppld.com", "x.apple.com", "b"] {
        if let Some(id) = exact.find(query) {
            assert_eq!(suffix.find(query), Some(id));
        }
    }
    assert_eq!(exact.find("cn.apple.com"), Some(8));
    assert_eq!(suffix.find("cn.apple.com"), Some(8));
}

#[test]
fn sorting_twice_changes_nothing() {
    let mut matrix = sorted_matrix(&APPLES);
    let ids = matrix.id_line().clone();
    let lines = matrix.lines().clone();
    let height = lines.len();
    let mut tables = Vec::new();
    for line in 0..=height {
        let table = matrix.sorted_ranges(line);
        let mut entries: Vec<_> = table.keys().iter().map(|k| (k.clone(), table.get(k).cloned())).collect();
        entries.sort_by_key(|e| (e.0.start, e.0.end));
        tables.push(entries);
    }
    matrix.sort_in_place();
    assert_eq!(*matrix.id_line(), ids);
    assert_eq!(*matrix.lines(), lines);
    for line in 0..=height {
        let table = matrix.sorted_ranges(line);
        let mut entries: Vec<_> = table.keys().iter().map(|k| (k.clone(), table.get(k).cloned())).collect();
        entries.sort_by_key(|e| (e.0.start, e.0.end));
        assert_eq!(entries, tables[line]);
    }
}

#[test]
fn tree_of_an_unsorted_matrix_is_a_lone_root() {
    let mapped = batch(&[(5, "ab"), (6, "b")]);
    let matrix = Matrix::new(&mapped);
    let nodes = matrix.build_tree();
    assert_eq!(nodes.len(), 1);
    let exact = ExactMatcher::new(nodes);
    assert_eq!(exact.find(""), Some(5));
    assert_eq!(exact.find("ab"), None);
    let suffix = SuffixMatcher::new(Matrix::new(&mapped).build_tree());
    assert_eq!(suffix.find("ab"), None);
    assert_eq!(suffix.find(""), None);
}

#[test]
fn empty_batch_has_one_table_and_no_lines() {
    let matrix = Matrix::new(&[]);
    assert_eq!(matrix.id_line().len(), 0);
    assert_eq!(matrix.lines().len(), 0);
    assert_eq!(matrix.sorted_ranges(0).len(), 0);
}

#[test]
fn input_order_does_not_change_the_sorted_matrix() {
    let forward = sorted_matrix(&APPLES);
    let mut reversed_items = APPLES.to_vec();
    reversed_items.reverse();
    let backward = sorted_matrix(&reversed_items);
    assert_eq!(*forward.lines(), *backward.lines());
    assert_eq!(*forward.id_line(), *backward.id_line());
    let height = forward.lines().len();
    for line in 0..=height {
        let a = forward.sorted_ranges(line);
        let b = backward.sorted_ranges(line);
        assert_eq!(a.len(), b.len());
        for key in a.keys() {
            assert_eq!(a.get(key), b.get(key));
        }
    }
}

fn node_text(table: u128, start: usize, end: usize, payload: Option<i64>) -> String {
    format!("Node {{ table: {}, range_start: {}, range_end: {}, payload: {:?} }}", table, start, end, payload)
}

#[test]
fn tree_layout_of_nested_strings() {
    // "b" ends "ab": the root has one child, 'b', which holds id 2 and has
    // one child, 'a', holding id 1.
    let nodes = sorted_matrix(&[(1, "ab"), (2, "b")]).build_tree();
    assert_eq!(nodes.len(), 3);
    assert_eq!(format!("{:?}", nodes[0]), node_text(1u128 << 98, 1, 2, None));
    assert_eq!(format!("{:?}", nodes[1]), node_text(1u128 << 97, 2, 3, Some(2)));
    assert_eq!(format!("{:?}", nodes[2]), node_text(0, 0, 0, Some(1)));
}

#[test]
fn tree_layout_orders_children_by_byte() {
    let nodes = sorted_matrix(&[(1, "b"), (2, "a")]).build_tree();
    assert_eq!(nodes.len(), 3);
    assert_eq!(format!("{:?}", nodes[0]), node_text((1u128 << 97) | (1u128 << 98), 1, 3, None));
    assert_eq!(format!("{:?}", nodes[1]), node_text(0, 0, 0, Some(2)));
    assert_eq!(format!("{:?}", nodes[2]), node_text(0, 0, 0, Some(1)));
}

#[test]
fn tree_has_one_node_per_distinct_suffix() {
    // Suffixes: m, om, com, .com, e.com, ..., apple.com, and so on.
    let mut suffixes = std::collections::BTreeSet::new();
    for (_, text) in APPLES.iter() {
        for j in 0..text.len() {
            suffixes.insert(&text[j..]);
        }
    }
    let nodes = sorted_matrix(&APPLES).build_tree();
    assert_eq!(nodes.len(), 1 + suffixes.len());
}

#[test]
fn permuted_batch_builds_the_same_tree() {
    let mut reversed_items = APPLES.to_vec();
    reversed_items.reverse();
    let a = sorted_matrix(&APPLES).build_tree();
    let b = sorted_matrix(&reversed_items).build_tree();
    assert_eq!(format!("{:?}", a), format!("{:?}", b));
}

#[test]
fn prepending_to_a_query_keeps_a_match() {
    let matcher = SuffixMatcher::new(sorted_matrix(&APPLES).build_tree());
    assert_eq!(matcher.find("apple.com"), Some(1));
    assert_eq!(matcher.find("n.apple.com"), Some(1));
    assert_eq!(matcher.find("cn.apple.com"), Some(8));
    assert_eq!(matcher.find("www.cn.apple.com"), Some(8));
}

#[test]
fn non_ascii_bytes_after_a_dead_end_are_never_reached() {
    // The walk stops at "x" (no string ends in "x.com"), before the bytes
    // of "é".
    let matcher = SuffixMatcher::new(sorted_matrix(&APPLES).build_tree());
    assert_eq!(matcher.find("é.x.com"), None);
}

#[test]
fn two_builds_agree_on_exact_and_suffix_hits() {
    let items = [(1, "x.org"), (2, "x.org"), (3, "org"), (4, "a.x.org")];
    let exact = ExactMatcher::new(sorted_matrix(&items).build_tree());
    let suffix = SuffixMatcher::new(sorted_matrix(&items).build_tree());
    for query in ["x.org", "org", "a.x.org", "b.org"] {
        if let Some(id) = exact.find(query) {
            assert_eq!(suffix.find(query), Some(id));
        }
    }
    // Here the heap sort leaves the copy with id 1 last.
    assert_eq!(exact.find("x.org"), Some(1));
}
