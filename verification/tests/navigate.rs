use bdb_rs::database::{find_child, find_in_leaf, Database};
use bdb_rs::entry::Entry;
use bdb_rs::error::Error;
use bdb_rs::page::Page;
use bdb_rs::walk::Walk;

fn put_u16(page: &mut [u8], at: usize, value: u16) {
    page[at..at + 2].copy_from_slice(&value.to_le_bytes());
}

fn put_u32(page: &mut [u8], at: usize, value: u32) {
    page[at..at + 4].copy_from_slice(&value.to_le_bytes());
}

fn meta_page(root: u32) -> Vec<u8> {
    let mut page = vec![0u8; 4096];
    put_u32(&mut page, 12, 0x0005_3162);
    put_u32(&mut page, 20, 4096);
    page[25] = 9;
    put_u32(&mut page, 88, root);
    page
}

fn keydata(payload: &[u8]) -> Vec<u8> {
    let mut entry = Vec::new();
    entry.extend_from_slice(&((payload.len() + 3) as u16).to_le_bytes());
    entry.push(1);
    entry.extend_from_slice(payload);
    entry
}

fn routing(separator: &[u8], child: u32) -> Vec<u8> {
    let mut entry = Vec::new();
    entry.extend_from_slice(&(separator.len() as u16).to_le_bytes());
    entry.push(1);
    entry.push(0);
    entry.extend_from_slice(&child.to_le_bytes());
    entry.extend_from_slice(&0u32.to_le_bytes());
    entry.extend_from_slice(separator);
    entry
}

fn tree_page(pgno: u32, next: u32, level: u8, ty: u8, entries: &[Vec<u8>]) -> Vec<u8> {
    let mut page = vec![0u8; 4096];
    put_u32(&mut page, 8, pgno);
    put_u32(&mut page, 16, next);
    put_u16(&mut page, 20, entries.len() as u16);
    page[24] = level;
    page[25] = ty;
    let mut end = 4096;
    for (i, entry) in entries.iter().enumerate() {
        let start = end - entry.len();
        page[start..end].copy_from_slice(entry);
        put_u16(&mut page, 26 + 2 * i, start as u16);
        end = start;
    }
    put_u16(&mut page, 22, end as u16);
    page
}

fn leaf_page(pgno: u32, next: u32, pairs: &[(&[u8], &[u8])]) -> Vec<u8> {
    let mut entries = Vec::new();
    for (key, value) in pairs {
        entries.push(keydata(key));
        entries.push(keydata(value));
    }
    tree_page(pgno, next, 1, 5, &entries)
}

fn routing_page(pgno: u32, level: u8, children: &[(&[u8], u32)]) -> Vec<u8> {
    let entries: Vec<Vec<u8>> = children.iter().map(|(sep, child)| routing(sep, *child)).collect();
    tree_page(pgno, 0, level, 3, &entries)
}

fn file_of(pages: &[Vec<u8>]) -> Vec<u8> {
    pages.concat()
}

fn open(pages: &[Vec<u8>]) -> Database {
    Database::from_bytes(file_of(pages)).unwrap()
}

fn two_pair_file() -> Vec<Vec<u8>> {
    vec![meta_page(1), leaf_page(1, 0, &[(b"aa", b"1"), (b"bb", b"2")])]
}

/// Page 0 names the root 1, which leads through the routing page 2 to the
/// leaves 3, 4 and 5, chained in this order.
fn three_leaf_file() -> Vec<Vec<u8>> {
    vec![
        meta_page(1),
        routing_page(1, 3, &[(b"", 2)]),
        routing_page(2, 2, &[(b"", 3), (b"c", 4), (b"e", 5)]),
        leaf_page(3, 4, &[(b"a", b"1"), (b"b", b"2")]),
        leaf_page(4, 5, &[(b"c", b"3"), (b"d", b"4")]),
        leaf_page(5, 0, &[(b"e", b"5"), (b"f", b"6")]),
    ]
}

fn owned(pairs: &[(&[u8], &[u8])]) -> Vec<(Vec<u8>, Vec<u8>)> {
    pairs.iter().map(|(k, v)| (k.to_vec(), v.to_vec())).collect()
}

#[test]
fn scan_of_one_leaf_yields_its_pairs_in_order() {
    let db = open(&two_pair_file());
    let pairs = db.scan().unwrap();
    let expected: Vec<(&[u8], &[u8])> = vec![(b"aa", b"1"), (b"bb", b"2")];
    assert_eq!(pairs, expected);
}

#[test]
fn get_finds_a_stored_key() {
    let db = open(&two_pair_file());
    assert_eq!(db.get(b"bb"), Ok(Some(&b"2"[..])));
    assert_eq!(db.get(b"aa"), Ok(Some(&b"1"[..])));
}

#[test]
fn get_of_an_absent_key_is_none() {
    let db = open(&two_pair_file());
    assert_eq!(db.get(b"cc"), Ok(None));
}

#[test]
fn file_that_ends_inside_a_page_is_truncated() {
    let mut file = file_of(&two_pair_file());
    file.pop();
    assert!(matches!(Database::from_bytes(file), Err(Error::TruncatedPage)));
    let mut file = file_of(&two_pair_file());
    file.push(0);
    assert!(matches!(Database::from_bytes(file), Err(Error::TruncatedPage)));
}

#[test]
fn file_shorter_than_a_page_is_truncated() {
    assert!(matches!(Database::from_bytes(Vec::new()), Err(Error::TruncatedPage)));
    assert!(matches!(Database::from_bytes(vec![0u8; 512]), Err(Error::TruncatedPage)));
    assert!(matches!(Database::from_bytes(vec![0u8; 4095]), Err(Error::TruncatedPage)));
}

#[test]
fn file_of_whole_pages_opens() {
    let db = Database::from_bytes(vec![0u8; 4096]).unwrap();
    assert_eq!(db.page_count(), 1);
    let db = open(&three_leaf_file());
    assert_eq!(db.page_count(), 6);
    db.close();
}

#[test]
fn page_by_number_is_none_behind_the_last_page() {
    let db = open(&two_pair_file());
    assert!(db.page(0).unwrap().unwrap().is_metadata());
    assert!(db.page(1).unwrap().unwrap().is_leaf());
    assert!(matches!(db.page(2), Ok(None)));
    assert!(matches!(db.page(usize::MAX), Ok(None)));
}

#[test]
fn page_by_number_reports_an_unknown_page_type() {
    let mut pages = two_pair_file();
    pages[1][25] = 4;
    let db = open(&pages);
    assert!(matches!(db.page(1), Err(Error::UnknownPageType)));
    assert!(db.page(0).is_ok());
}

#[test]
fn raw_pages_cut_the_file_into_pages() {
    let pages = three_leaf_file();
    let db = open(&pages);
    let raw = db.raw_pages();
    assert_eq!(raw.len(), 6);
    for (i, page) in pages.iter().enumerate() {
        assert_eq!(raw[i], &page[..]);
    }
}

#[test]
fn pages_decode_every_page() {
    let pages = three_leaf_file();
    let db = open(&pages);
    let decoded = db.pages().unwrap();
    assert_eq!(decoded.len(), 6);
    assert!(decoded[0].is_metadata());
    assert!(decoded[1].is_internal());
    assert!(decoded[2].is_internal());
    assert!(decoded[5].is_leaf());
    for (i, page) in pages.iter().enumerate() {
        assert_eq!(decoded[i].data(), &page[..]);
    }
}

#[test]
fn pages_fail_with_the_first_bad_page() {
    let mut pages = three_leaf_file();
    pages[4][25] = 0;
    let db = open(&pages);
    assert!(matches!(db.pages(), Err(Error::UnknownPageType)));
}

#[test]
fn root_is_that_of_the_first_metadata_page() {
    let db = open(&[leaf_page(0, 0, &[]), meta_page(7), meta_page(9)]);
    assert_eq!(db.root(), Ok(7));
}

#[test]
fn root_needs_a_metadata_page() {
    let db = open(&[leaf_page(0, 0, &[(b"a", b"1")])]);
    assert_eq!(db.root(), Err(Error::NoRootPage));
    assert_eq!(db.get(b"a"), Err(Error::NoRootPage));
}

#[test]
fn root_search_fails_on_a_bad_page_before_the_metadata_page() {
    let mut bad = leaf_page(0, 0, &[]);
    bad[25] = 1;
    let db = open(&[bad.clone(), meta_page(1)]);
    assert_eq!(db.root(), Err(Error::UnknownPageType));
    let db = open(&[meta_page(1), bad]);
    assert_eq!(db.root(), Ok(1));
}

#[test]
fn scan_follows_the_leaf_chain() {
    let db = open(&three_leaf_file());
    let pairs = db.scan().unwrap();
    let expected: Vec<(&[u8], &[u8])> = vec![
        (b"a", b"1"),
        (b"b", b"2"),
        (b"c", b"3"),
        (b"d", b"4"),
        (b"e", b"5"),
        (b"f", b"6"),
    ];
    assert_eq!(pairs, expected);
}

#[test]
fn scan_passes_over_empty_leaves() {
    let db = open(&[
        meta_page(1),
        leaf_page(1, 2, &[]),
        leaf_page(2, 3, &[(b"k", b"v")]),
        leaf_page(3, 0, &[]),
    ]);
    let expected: Vec<(&[u8], &[u8])> = vec![(b"k", b"v")];
    assert_eq!(db.scan().unwrap(), expected);
}

#[test]
fn get_agrees_with_a_search_through_the_scan() {
    let db = open(&three_leaf_file());
    let pairs = db.scan().unwrap();
    assert_eq!(pairs.len(), 6);
    for (key, _) in pairs.iter() {
        let by_filter = pairs.iter().find(|(k, _)| k == key).map(|(_, v)| *v);
        assert_eq!(db.get(key), Ok(by_filter));
    }
    assert_eq!(db.get(b"d"), Ok(Some(&b"4"[..])));
    assert_eq!(db.get(b"e"), Ok(Some(&b"5"[..])));
}

#[test]
fn get_of_keys_outside_and_between_is_none() {
    let db = open(&three_leaf_file());
    assert_eq!(db.get(b""), Ok(None));
    assert_eq!(db.get(b"A"), Ok(None));
    assert_eq!(db.get(b"zz"), Ok(None));
    assert_eq!(db.get(b"bb"), Ok(None));
    assert_eq!(db.get(b"dz"), Ok(None));
    assert_eq!(db.get(b"f\0"), Ok(None));
}

#[test]
fn scan_is_strictly_ascending() {
    let db = open(&three_leaf_file());
    let pairs = db.scan().unwrap();
    for window in pairs.windows(2) {
        assert!(window[0].0 < window[1].0);
    }
}

#[test]
fn scan_twice_is_the_same() {
    let db = open(&three_leaf_file());
    let first = owned(&db.scan().unwrap());
    let second = owned(&db.scan().unwrap());
    assert_eq!(first, second);
    let broken = open(&[meta_page(5)]);
    assert_eq!(broken.scan(), broken.scan());
}

#[test]
fn get_with_a_root_outside_the_file_fails() {
    let db = open(&[meta_page(2), leaf_page(1, 0, &[(b"a", b"1")])]);
    assert_eq!(db.get(b"a"), Err(Error::TraversalError));
    assert_eq!(db.scan(), Err(Error::TraversalError));
}

#[test]
fn get_below_all_separators_fails() {
    let db = open(&[
        meta_page(1),
        routing_page(1, 2, &[(b"m", 2)]),
        leaf_page(2, 0, &[(b"n", b"1")]),
    ]);
    assert_eq!(db.get(b"a"), Err(Error::TraversalError));
    assert_eq!(db.get(b"m"), Ok(None));
    assert_eq!(db.get(b"n"), Ok(Some(&b"1"[..])));
}

#[test]
fn get_on_a_routing_page_without_entries_fails() {
    let db = open(&[meta_page(1), routing_page(1, 2, &[])]);
    assert_eq!(db.get(b"a"), Err(Error::TraversalError));
    assert_eq!(db.scan(), Err(Error::TraversalError));
}

#[test]
fn get_in_a_cycle_of_routing_pages_fails() {
    let db = open(&[
        meta_page(1),
        routing_page(1, 2, &[(b"", 2)]),
        routing_page(2, 2, &[(b"", 1)]),
    ]);
    assert_eq!(db.get(b"a"), Err(Error::TraversalError));
    assert_eq!(db.scan(), Err(Error::TraversalError));
}

#[test]
fn get_reaches_a_leaf_on_the_deepest_path_that_a_file_can_hold() {
    let db = open(&[
        meta_page(3),
        leaf_page(1, 0, &[(b"k", b"v")]),
        routing_page(2, 2, &[(b"", 1)]),
        routing_page(3, 3, &[(b"", 2)]),
    ]);
    assert_eq!(db.get(b"k"), Ok(Some(&b"v"[..])));
    let expected: Vec<(&[u8], &[u8])> = vec![(b"k", b"v")];
    assert_eq!(db.scan().unwrap(), expected);
}

#[test]
fn scan_in_a_cycle_of_siblings_fails() {
    let db = open(&[
        meta_page(1),
        leaf_page(1, 2, &[(b"a", b"1")]),
        leaf_page(2, 1, &[(b"b", b"2")]),
    ]);
    assert_eq!(db.scan(), Err(Error::TraversalError));
    assert_eq!(db.get(b"a"), Ok(Some(&b"1"[..])));
}

#[test]
fn scan_may_come_to_a_page_from_above_and_from_the_left() {
    let db = open(&[
        meta_page(1),
        tree_page(1, 4, 3, 3, &[routing(b"", 2)]),
        tree_page(2, 1, 2, 3, &[routing(b"", 3)]),
        leaf_page(3, 2, &[(b"a", b"1")]),
        leaf_page(4, 0, &[(b"z", b"9")]),
    ]);
    let expected: Vec<(&[u8], &[u8])> = vec![(b"a", b"1"), (b"z", b"9")];
    assert_eq!(db.scan().unwrap(), expected);
}

#[test]
fn scan_with_a_sibling_outside_the_file_fails() {
    let db = open(&[meta_page(1), leaf_page(1, 9, &[(b"a", b"1")])]);
    assert_eq!(db.scan(), Err(Error::TraversalError));
}

#[test]
fn metadata_page_as_root_holds_no_key() {
    let db = open(&[meta_page(0), leaf_page(1, 0, &[(b"a", b"1")])]);
    assert_eq!(db.get(b"a"), Ok(None));
    assert_eq!(db.scan(), Err(Error::TraversalError));
}

#[test]
fn key_without_value_is_passed_over() {
    let entries = vec![keydata(b"a"), keydata(b"1"), keydata(b"b")];
    let db = open(&[
        meta_page(1),
        tree_page(1, 2, 1, 5, &entries),
        leaf_page(2, 0, &[(b"c", b"3")]),
    ]);
    let expected: Vec<(&[u8], &[u8])> = vec![(b"a", b"1"), (b"c", b"3")];
    assert_eq!(db.scan().unwrap(), expected);
    assert_eq!(db.get(b"a"), Ok(Some(&b"1"[..])));
    assert_eq!(db.get(b"b"), Ok(None));
}

#[test]
fn unknown_page_type_on_the_way_fails() {
    let mut pages = three_leaf_file();
    pages[4][25] = 7;
    let db = open(&pages);
    assert_eq!(db.get(b"a"), Ok(Some(&b"1"[..])));
    assert_eq!(db.get(b"c"), Err(Error::UnknownPageType));
    assert_eq!(db.scan(), Err(Error::UnknownPageType));
}

#[test]
fn bad_entry_in_a_leaf_fails() {
    let entries = vec![keydata(b"a"), keydata(b"1"), vec![4, 0, 2, b'b'], keydata(b"2")];
    let db = open(&[meta_page(1), tree_page(1, 0, 1, 5, &entries)]);
    assert_eq!(db.get(b"a"), Err(Error::InvalidEntry));
    assert_eq!(db.get(b"b"), Err(Error::InvalidEntry));
    assert_eq!(db.get(b"A"), Ok(None));
    assert_eq!(db.scan(), Err(Error::InvalidEntry));
}

#[test]
fn bad_offset_in_a_leaf_fails() {
    let mut leaf = leaf_page(1, 0, &[(b"a", b"1"), (b"b", b"2")]);
    put_u16(&mut leaf, 26 + 4, 4095);
    let db = open(&[meta_page(1), leaf]);
    assert_eq!(db.get(b"b"), Err(Error::OffsetOutOfRange));
    assert_eq!(db.scan(), Err(Error::OffsetOutOfRange));
}

#[test]
fn bad_entry_on_a_routing_page_fails() {
    let entries = vec![routing(b"", 2), vec![0u8; 5]];
    let db = open(&[
        meta_page(1),
        tree_page(1, 0, 2, 3, &entries),
        leaf_page(2, 0, &[(b"a", b"1")]),
    ]);
    assert_eq!(db.get(b"a"), Err(Error::InvalidEntry));
    let expected: Vec<(&[u8], &[u8])> = vec![(b"a", b"1")];
    assert_eq!(db.scan().unwrap(), expected);
}

#[test]
fn last_of_equal_keys_in_a_leaf_wins() {
    let db = open(&[meta_page(1), leaf_page(1, 0, &[(b"aa", b"1"), (b"aa", b"2"), (b"ab", b"3")])]);
    assert_eq!(db.get(b"aa"), Ok(Some(&b"2"[..])));
}

#[test]
fn leaf_search_ends_at_the_first_greater_key() {
    let db = open(&[meta_page(1), leaf_page(1, 0, &[(b"bb", b"1"), (b"aa", b"2")])]);
    assert_eq!(db.get(b"aa"), Ok(None));
    assert_eq!(db.get(b"bb"), Ok(Some(&b"1"[..])));
    let db = open(&[meta_page(1), leaf_page(1, 0, &[(b"aa", b"1"), (b"cc", b"2"), (b"bb", b"3")])]);
    assert_eq!(db.get(b"bb"), Ok(None));
}

#[test]
fn routing_takes_the_last_separator_that_does_not_exceed_the_key() {
    let page = routing_page(1, 2, &[(b"", 2), (b"c", 3), (b"e", 4)]);
    let page = Page::new(&page).unwrap();
    assert_eq!(find_child(&page, b""), Ok(Some(2)));
    assert_eq!(find_child(&page, b"b"), Ok(Some(2)));
    assert_eq!(find_child(&page, b"c"), Ok(Some(3)));
    assert_eq!(find_child(&page, b"dzz"), Ok(Some(3)));
    assert_eq!(find_child(&page, b"e"), Ok(Some(4)));
    assert_eq!(find_child(&page, b"zebra"), Ok(Some(4)));
    let unsorted = routing_page(1, 2, &[(b"", 2), (b"x", 3), (b"c", 4)]);
    let unsorted = Page::new(&unsorted).unwrap();
    assert_eq!(find_child(&unsorted, b"d"), Ok(Some(4)));
    assert_eq!(find_child(&unsorted, b"y"), Ok(Some(4)));
    assert_eq!(find_child(&unsorted, b"a"), Ok(Some(2)));
}

#[test]
fn routing_finds_no_child_for_a_key_below_all_separators() {
    let page = routing_page(1, 2, &[(b"m", 2), (b"p", 3)]);
    let page = Page::new(&page).unwrap();
    assert_eq!(find_child(&page, b"a"), Ok(None));
    assert_eq!(find_child(&page, b"m"), Ok(Some(2)));
}

#[test]
fn leaf_lookup_returns_the_entry_behind_the_key() {
    let page = leaf_page(1, 0, &[(b"k1", b"v1"), (b"k2", b"v2")]);
    let page = Page::new(&page).unwrap();
    assert_eq!(find_in_leaf(&page, b"k2"), Ok(Some(&b"v2"[..])));
    assert_eq!(find_in_leaf(&page, b"k1"), Ok(Some(&b"v1"[..])));
    assert_eq!(find_in_leaf(&page, b"k"), Ok(None));
    assert_eq!(find_in_leaf(&page, b"v1"), Ok(None));
}

#[test]
fn page_below_the_leaf_level_routes_like_one_above() {
    let db = open(&[
        meta_page(1),
        routing_page(1, 0, &[(b"", 2)]),
        leaf_page(2, 0, &[(b"a", b"1")]),
    ]);
    assert!(!db.page(1).unwrap().unwrap().is_internal());
    assert_eq!(db.get(b"a"), Ok(Some(&b"1"[..])));
    let expected: Vec<(&[u8], &[u8])> = vec![(b"a", b"1")];
    assert_eq!(db.scan().unwrap(), expected);
}

#[test]
fn scan_starts_at_page_zero_whatever_it_is() {
    let db = open(&[leaf_page(0, 0, &[(b"x", b"y")]), meta_page(0)]);
    let expected: Vec<(&[u8], &[u8])> = vec![(b"x", b"y")];
    assert_eq!(db.scan().unwrap(), expected);
    assert_eq!(db.get(b"x"), Ok(Some(&b"y"[..])));
}

#[test]
fn walk_yields_one_pair_for_each_step() {
    let db = open(&three_leaf_file());
    let mut walk = db.walk();
    let mut seen = Vec::new();
    while let Some((key, value)) = walk.next().unwrap() {
        assert!(matches!(key, Entry::KeyData { .. }));
        seen.push((key.data().to_vec(), value.data().to_vec()));
    }
    assert_eq!(
        seen,
        owned(&[
            (b"a", b"1"),
            (b"b", b"2"),
            (b"c", b"3"),
            (b"d", b"4"),
            (b"e", b"5"),
            (b"f", b"6"),
        ])
    );
    assert!(matches!(walk.next(), Ok(None)));
    assert!(matches!(walk.next(), Ok(None)));
}

#[test]
fn walk_moves_down_to_the_leftmost_leaf() {
    let db = open(&three_leaf_file());
    let mut walk = Walk::new(&db);
    assert!(walk.current_page().unwrap().is_metadata());
    assert_eq!(walk.move_to_leaf(), Ok(()));
    let leaf = walk.current_page().unwrap();
    assert!(leaf.is_leaf());
    assert_eq!(leaf.data(), &three_leaf_file()[3][..]);
    assert_eq!(walk.move_to_leaf(), Ok(()));
    assert_eq!(walk.current_page().unwrap().data(), &three_leaf_file()[3][..]);
}

#[test]
fn walk_stays_where_it_was_when_it_fails() {
    let db = open(&[meta_page(4)]);
    let mut walk = db.walk();
    assert_eq!(walk.move_to_leaf(), Err(Error::TraversalError));
    assert!(walk.current_page().unwrap().is_metadata());
    assert!(matches!(walk.next(), Err(Error::TraversalError)));
    assert!(walk.current_page().unwrap().is_metadata());
}

#[test]
fn walk_yields_routing_entries_of_a_sibling_that_is_no_leaf() {
    let db = open(&[
        meta_page(1),
        leaf_page(1, 2, &[(b"a", b"1")]),
        routing_page(2, 2, &[(b"", 3), (b"m", 3)]),
        leaf_page(3, 0, &[(b"z", b"9")]),
    ]);
    let mut walk = db.walk();
    assert!(matches!(walk.next(), Ok(Some((Entry::KeyData { .. }, Entry::KeyData { .. })))));
    assert!(matches!(
        walk.next(),
        Ok(Some((Entry::Internal { pgno: 3, .. }, Entry::Internal { data: b"m", .. })))
    ));
    let (key, value) = walk.next().unwrap().unwrap();
    assert_eq!((key.data(), value.data()), (&b"z"[..], &b"9"[..]));
    assert!(matches!(walk.next(), Ok(None)));
}

/// A tree of three levels over the keys `k000`, `k002`, ... with eight pairs
/// in each leaf and five children on each routing page below the root.
fn generated_file(pairs: usize) -> (Vec<Vec<u8>>, Vec<(Vec<u8>, Vec<u8>)>) {
    let all: Vec<(Vec<u8>, Vec<u8>)> = (0..pairs)
        .map(|i| (format!("k{:03}", 2 * i).into_bytes(), format!("value {}", i).into_bytes()))
        .collect();
    let leaves: Vec<&[(Vec<u8>, Vec<u8>)]> = all.chunks(8).collect();
    let groups: Vec<&[&[(Vec<u8>, Vec<u8>)]]> = leaves.chunks(5).collect();
    let first_leaf = 2 + groups.len();
    let mut pages = vec![meta_page(1)];
    let mut root = Vec::new();
    let mut leaf_number = first_leaf;
    let mut middle = Vec::new();
    for (g, group) in groups.iter().enumerate() {
        let own = 2 + g;
        let first_key: &[u8] = if g == 0 { b"" } else { &group[0][0].0 };
        root.push(routing(first_key, own as u32));
        let mut children = Vec::new();
        for (c, leaf) in group.iter().enumerate() {
            let separator: &[u8] = if c == 0 { first_key } else { &leaf[0].0 };
            children.push(routing(separator, (leaf_number + c) as u32));
        }
        leaf_number += group.len();
        middle.push(tree_page(own as u32, 0, 2, 3, &children));
    }
    pages.push(tree_page(1, 0, 3, 3, &root));
    pages.extend(middle);
    for (l, leaf) in leaves.iter().enumerate() {
        let number = first_leaf + l;
        let next = if l + 1 < leaves.len() { number + 1 } else { 0 };
        let borrowed: Vec<(&[u8], &[u8])> = leaf.iter().map(|(k, v)| (&k[..], &v[..])).collect();
        pages.push(leaf_page(number as u32, next as u32, &borrowed));
    }
    (pages, all)
}

#[test]
fn generated_tree_is_scanned_in_order() {
    let (pages, all) = generated_file(200);
    let db = open(&pages);
    assert_eq!(db.page_count(), 2 + 5 + 25);
    assert_eq!(owned(&db.scan().unwrap()), all);
    for window in all.windows(2) {
        assert!(window[0].0 < window[1].0);
    }
}

#[test]
fn generated_tree_is_looked_up_as_it_is_scanned() {
    let (pages, _) = generated_file(200);
    let db = open(&pages);
    let scanned = db.scan().unwrap();
    for i in 0..400 {
        let key = format!("k{:03}", i).into_bytes();
        let by_filter = scanned.iter().find(|(k, _)| *k == &key[..]).map(|(_, v)| *v);
        assert_eq!(by_filter.is_some(), i % 2 == 0);
        assert_eq!(db.get(&key), Ok(by_filter));
    }
    assert_eq!(db.get(b"a"), Ok(None));
    assert_eq!(db.get(b"k"), Ok(None));
    assert_eq!(db.get(b"k4"), Ok(None));
    assert_eq!(db.get(b"l"), Ok(None));
    assert_eq!(db.get(b"k150"), Ok(Some(&b"value 75"[..])));
}
