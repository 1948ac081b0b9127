use bdb_rs::bytes::{bytes_eq, bytes_le};
use bdb_rs::entry::Entry;
use bdb_rs::error::Error;
use bdb_rs::page::{Page, PageHeader};

fn blank_page() -> Vec<u8> {
    vec![0u8; 4096]
}

fn set_u16(page: &mut [u8], at: usize, value: u16) {
    page[at..at + 2].copy_from_slice(&value.to_le_bytes());
}

fn set_u32(page: &mut [u8], at: usize, value: u32) {
    page[at..at + 4].copy_from_slice(&value.to_le_bytes());
}

fn patterned_page() -> Vec<u8> {
    let mut page = blank_page();
    for (i, byte) in page.iter_mut().enumerate() {
        *byte = ((i * 7 + 3) % 251) as u8;
    }
    page
}

fn leaf_with_entries(entries: &[&[u8]]) -> Vec<u8> {
    let mut page = blank_page();
    set_u16(&mut page, 20, entries.len() as u16);
    page[24] = 1;
    page[25] = 5;
    let mut end = 4096;
    for (i, entry) in entries.iter().enumerate() {
        let start = end - entry.len();
        page[start..end].copy_from_slice(entry);
        set_u16(&mut page, 26 + 2 * i, start as u16);
        end = start;
    }
    page
}

#[test]
fn order_puts_a_prefix_first() {
    assert!(bytes_le(b"ab", b"abc"));
    assert!(!bytes_le(b"abc", b"ab"));
}

#[test]
fn order_is_decided_by_the_first_differing_byte() {
    assert!(bytes_le(b"abz", b"ac"));
    assert!(!bytes_le(b"ac", b"abz"));
    assert!(bytes_le(&[0x7f], &[0x80]));
    assert!(!bytes_le(&[0xff], &[0x00, 0x01]));
}

#[test]
fn order_holds_between_equal_strings_and_from_the_empty_one() {
    assert!(bytes_le(b"same", b"same"));
    assert!(bytes_le(b"", b""));
    assert!(bytes_le(b"", b"a"));
    assert!(!bytes_le(b"a", b""));
}

#[test]
fn equality_compares_length_and_bytes() {
    assert!(bytes_eq(b"key", b"key"));
    assert!(bytes_eq(b"", b""));
    assert!(!bytes_eq(b"key", b"kez"));
    assert!(!bytes_eq(b"key", b"keys"));
}

#[test]
fn keydata_payload_runs_from_byte_three_to_the_length() {
    let bytes = [6u8, 0, 1, b'a', b'b', b'c', b'x', b'y'];
    match Entry::new_keydata(&bytes) {
        Ok(Entry::KeyData { length, data }) => {
            assert_eq!(length, 6);
            assert_eq!(data, b"abc");
        }
        other => panic!("unexpected {:?}", other),
    }
}

#[test]
fn keydata_of_length_three_has_an_empty_payload() {
    let bytes = [3u8, 0, 1];
    match Entry::new_keydata(&bytes) {
        Ok(Entry::KeyData { length, data }) => {
            assert_eq!(length, 3);
            assert!(data.is_empty());
        }
        other => panic!("unexpected {:?}", other),
    }
}

#[test]
fn keydata_needs_three_bytes() {
    assert!(matches!(Entry::new_keydata(&[3, 0]), Err(Error::InvalidEntry)));
    assert!(matches!(Entry::new_keydata(&[]), Err(Error::InvalidEntry)));
}

#[test]
fn keydata_needs_type_byte_one() {
    assert!(matches!(Entry::new_keydata(&[4, 0, 2, b'a']), Err(Error::InvalidEntry)));
    assert!(matches!(Entry::new_keydata(&[4, 0, 0, b'a']), Err(Error::InvalidEntry)));
}

#[test]
fn keydata_length_has_to_fit_the_bytes() {
    assert!(matches!(Entry::new_keydata(&[5, 0, 1, b'a']), Err(Error::InvalidEntry)));
    assert!(matches!(Entry::new_keydata(&[2, 0, 1, b'a']), Err(Error::InvalidEntry)));
    assert!(matches!(Entry::new_keydata(&[0, 1, 1, b'a']), Err(Error::InvalidEntry)));
}

#[test]
fn internal_entry_fields_are_decoded() {
    let mut bytes = vec![2u8, 0, 7, 0xee];
    bytes.extend_from_slice(&0x0102_0304u32.to_le_bytes());
    bytes.extend_from_slice(&99u32.to_le_bytes());
    bytes.extend_from_slice(b"kqrest");
    match Entry::new_internal(&bytes) {
        Ok(Entry::Internal { length, ty, pgno, nrecs, data }) => {
            assert_eq!(length, 2);
            assert_eq!(ty, 7);
            assert_eq!(pgno, 0x0102_0304);
            assert_eq!(nrecs, 99);
            assert_eq!(data, b"kq");
        }
        other => panic!("unexpected {:?}", other),
    }
}

#[test]
fn internal_entry_needs_twelve_bytes() {
    assert!(matches!(Entry::new_internal(&[0u8; 11]), Err(Error::InvalidEntry)));
    assert!(matches!(Entry::new_internal(&[0u8; 12]), Ok(Entry::Internal { length: 0, .. })));
}

#[test]
fn internal_entry_length_has_to_fit_the_bytes() {
    let mut bytes = vec![0u8; 14];
    bytes[0] = 3;
    assert!(matches!(Entry::new_internal(&bytes), Err(Error::InvalidEntry)));
    bytes[0] = 0xff;
    bytes[1] = 0xff;
    assert!(matches!(Entry::new_internal(&bytes), Err(Error::InvalidEntry)));
}

#[test]
fn entry_data_is_the_payload_of_either_kind() {
    let key = [5u8, 0, 1, b'h', b'i'];
    assert_eq!(Entry::new_keydata(&key).unwrap().data(), b"hi");
    let mut routing = vec![1u8, 0, 1, 0, 9, 0, 0, 0, 0, 0, 0, 0];
    routing.push(b'z');
    assert_eq!(Entry::new_internal(&routing).unwrap().data(), b"z");
}

#[test]
fn page_has_to_be_one_page_long() {
    assert!(matches!(Page::new(&vec![0u8; 4095]), Err(Error::TruncatedPage)));
    assert!(matches!(Page::new(&vec![0u8; 4097]), Err(Error::TruncatedPage)));
    assert!(matches!(Page::new(&[]), Err(Error::TruncatedPage)));
}

#[test]
fn page_without_magic_needs_a_known_type() {
    let mut page = blank_page();
    for ty in [0u8, 1, 2, 4, 6, 8, 10, 255] {
        page[25] = ty;
        assert!(matches!(Page::new(&page), Err(Error::UnknownPageType)));
    }
    for ty in [3u8, 5, 9] {
        page[25] = ty;
        assert!(Page::new(&page).is_ok());
    }
}

#[test]
fn magic_makes_a_metadata_page_whatever_its_type() {
    let mut page = blank_page();
    set_u32(&mut page, 12, 0x0005_3162);
    page[25] = 77;
    let decoded = Page::new(&page).unwrap();
    assert!(decoded.is_metadata());
    assert!(decoded.header().is_metadata());
    assert!(!decoded.header().is_b_tree());
    assert!(!decoded.is_leaf());
    assert!(!decoded.is_internal());
    assert_eq!(decoded.next_page_number(), None);
    assert_eq!(decoded.entry_count(), 0);
}

#[test]
fn metadata_fields_stand_at_their_offsets() {
    let mut page = patterned_page();
    set_u32(&mut page, 12, 0x0005_3162);
    let decoded = Page::new(&page).unwrap();
    match decoded.header() {
        PageHeader::Metadata {
            lsn,
            pgno,
            magic,
            version,
            pagesize,
            ec,
            ty,
            mf,
            free,
            last_pgno,
            nparts,
            key_count,
            record_count,
            flags,
            uid,
            minkey,
            re_len,
            re_pad,
            root,
            crypto_magic,
            iv,
            chksum,
        } => {
            assert_eq!(lsn.to_le_bytes(), page[0..8]);
            assert_eq!(pgno.to_le_bytes(), page[8..12]);
            assert_eq!(*magic, 0x0005_3162);
            assert_eq!(magic.to_le_bytes(), page[12..16]);
            assert_eq!(version.to_le_bytes(), page[16..20]);
            assert_eq!(pagesize.to_le_bytes(), page[20..24]);
            assert_eq!(*ec, page[24]);
            assert_eq!(*ty, page[25]);
            assert_eq!(*mf, page[26]);
            assert_eq!(free.to_le_bytes(), page[28..32]);
            assert_eq!(last_pgno.to_le_bytes(), page[32..36]);
            assert_eq!(nparts.to_le_bytes(), page[36..40]);
            assert_eq!(key_count.to_le_bytes(), page[40..44]);
            assert_eq!(record_count.to_le_bytes(), page[44..48]);
            assert_eq!(flags.to_le_bytes(), page[48..52]);
            assert_eq!(*uid, &page[52..72]);
            assert_eq!(minkey.to_le_bytes(), page[76..80]);
            assert_eq!(re_len.to_le_bytes(), page[80..84]);
            assert_eq!(re_pad.to_le_bytes(), page[84..88]);
            assert_eq!(root.to_le_bytes(), page[88..92]);
            assert_eq!(crypto_magic.to_le_bytes(), page[460..464]);
            assert_eq!(iv.to_le_bytes(), page[476..492]);
            assert_eq!(*chksum, &page[492..512]);
        }
        other => panic!("unexpected {:?}", other),
    }
}

#[test]
fn metadata_root_is_read_least_significant_byte_first() {
    let mut page = blank_page();
    set_u32(&mut page, 12, 0x0005_3162);
    page[88] = 0x01;
    page[89] = 0x02;
    let decoded = Page::new(&page).unwrap();
    assert!(matches!(decoded.header(), PageHeader::Metadata { root: 0x0201, lsn: 0, .. }));
}

#[test]
fn tree_header_fields_stand_at_their_offsets() {
    let mut page = patterned_page();
    page[25] = 3;
    let decoded = Page::new(&page).unwrap();
    match decoded.header() {
        PageHeader::BTree { lsn, pgno, prev_pgno, next_pgno, entries, hf_offset, level, ty } => {
            assert_eq!(lsn.to_le_bytes(), page[0..8]);
            assert_eq!(pgno.to_le_bytes(), page[8..12]);
            assert_eq!(prev_pgno.to_le_bytes(), page[12..16]);
            assert_eq!(next_pgno.to_le_bytes(), page[16..20]);
            assert_eq!(entries.to_le_bytes(), page[20..22]);
            assert_eq!(hf_offset.to_le_bytes(), page[22..24]);
            assert_eq!(*level, page[24]);
            assert_eq!(*ty, 3);
        }
        other => panic!("unexpected {:?}", other),
    }
    assert!(decoded.header().is_b_tree());
    assert_eq!(decoded.data(), &page[..]);
}

#[test]
fn tree_header_values_are_exact() {
    let mut page = blank_page();
    page[0..8].copy_from_slice(&[1, 0, 0, 0, 0, 0, 0, 1]);
    set_u32(&mut page, 8, 7);
    set_u32(&mut page, 12, 6);
    set_u32(&mut page, 16, 8);
    set_u16(&mut page, 20, 0x0102);
    set_u16(&mut page, 22, 4000);
    page[24] = 2;
    page[25] = 3;
    let decoded = Page::new(&page).unwrap();
    assert!(matches!(
        decoded.header(),
        PageHeader::BTree {
            lsn: 0x0100_0000_0000_0001,
            pgno: 7,
            prev_pgno: 6,
            next_pgno: 8,
            entries: 258,
            hf_offset: 4000,
            level: 2,
            ty: 3,
        }
    ));
    assert_eq!(decoded.entry_count(), 258);
    assert_eq!(decoded.next_page_number(), Some(8));
}

#[test]
fn levels_tell_leaves_from_routing_pages() {
    let mut page = blank_page();
    page[25] = 5;
    page[24] = 1;
    let leaf = Page::new(&page).unwrap();
    assert!(leaf.is_leaf() && !leaf.is_internal() && !leaf.is_metadata());
    page[24] = 2;
    let above = Page::new(&page).unwrap();
    assert!(!above.is_leaf() && above.is_internal() && !above.is_metadata());
    page[24] = 0;
    let below = Page::new(&page).unwrap();
    assert!(!below.is_leaf() && !below.is_internal() && !below.is_metadata());
}

#[test]
fn next_page_zero_means_no_sibling() {
    let mut page = blank_page();
    page[24] = 1;
    page[25] = 5;
    assert_eq!(Page::new(&page).unwrap().next_page_number(), None);
    set_u32(&mut page, 16, 0x0001_0000);
    assert_eq!(Page::new(&page).unwrap().next_page_number(), Some(65536));
}

#[test]
fn entries_are_packed_from_the_end_of_the_page() {
    let page = leaf_with_entries(&[&[5, 0, 1, b'a', b'a'], &[4, 0, 1, b'1']]);
    let decoded = Page::new(&page).unwrap();
    assert_eq!(&page[26..30], &[0xfb, 0x0f, 0xf7, 0x0f]);
    assert_eq!(decoded.get_entry(0).unwrap().unwrap().data(), b"aa");
    assert_eq!(decoded.get_entry(1).unwrap().unwrap().data(), b"1");
    assert!(matches!(decoded.get_entry(2), Ok(None)));
    assert!(matches!(decoded.get_entry(usize::MAX), Ok(None)));
}

#[test]
fn entry_extent_may_be_longer_than_the_entry() {
    let mut page = leaf_with_entries(&[]);
    set_u16(&mut page, 20, 1);
    set_u16(&mut page, 26, 4000);
    page[4000..4005].copy_from_slice(&[5, 0, 1, b'o', b'k']);
    let decoded = Page::new(&page).unwrap();
    assert_eq!(decoded.get_entry(0).unwrap().unwrap().data(), b"ok");
}

#[test]
fn metadata_page_has_no_entries() {
    let mut page = blank_page();
    set_u32(&mut page, 12, 0x0005_3162);
    set_u16(&mut page, 20, 4);
    let decoded = Page::new(&page).unwrap();
    assert!(matches!(decoded.get_entry(0), Ok(None)));
    assert!(decoded.entries().unwrap().is_empty());
}

#[test]
fn routing_page_entries_are_internal() {
    let mut entry = vec![1u8, 0, 1, 0];
    entry.extend_from_slice(&5u32.to_le_bytes());
    entry.extend_from_slice(&0u32.to_le_bytes());
    entry.push(b'm');
    let mut page = leaf_with_entries(&[&entry]);
    page[24] = 2;
    page[25] = 3;
    let decoded = Page::new(&page).unwrap();
    assert!(matches!(
        decoded.get_entry(0),
        Ok(Some(Entry::Internal { length: 1, ty: 1, pgno: 5, nrecs: 0, data: b"m" }))
    ));
}

#[test]
fn offset_behind_the_end_of_the_entry_before_is_out_of_range() {
    let mut page = leaf_with_entries(&[&[4, 0, 1, b'a'], &[4, 0, 1, b'b']]);
    set_u16(&mut page, 28, 4093);
    let decoded = Page::new(&page).unwrap();
    assert!(decoded.get_entry(0).is_ok());
    assert!(matches!(decoded.get_entry(1), Err(Error::OffsetOutOfRange)));
}

#[test]
fn offset_behind_the_page_is_out_of_range() {
    let mut page = leaf_with_entries(&[&[4, 0, 1, b'a'], &[4, 0, 1, b'b']]);
    set_u16(&mut page, 26, 4097);
    let decoded = Page::new(&page).unwrap();
    assert!(matches!(decoded.get_entry(0), Err(Error::OffsetOutOfRange)));
    set_u16(&mut page, 26, 5000);
    set_u16(&mut page, 28, 4090);
    let decoded = Page::new(&page).unwrap();
    assert!(matches!(decoded.get_entry(1), Err(Error::OffsetOutOfRange)));
}

#[test]
fn offset_at_the_end_of_the_page_gives_an_empty_extent() {
    let mut page = leaf_with_entries(&[]);
    set_u16(&mut page, 20, 1);
    set_u16(&mut page, 26, 4096);
    let decoded = Page::new(&page).unwrap();
    assert!(matches!(decoded.get_entry(0), Err(Error::InvalidEntry)));
}

#[test]
fn slot_behind_the_page_is_out_of_range() {
    let mut page = leaf_with_entries(&[]);
    set_u16(&mut page, 20, 3000);
    let decoded = Page::new(&page).unwrap();
    assert!(matches!(decoded.get_entry(2035), Err(Error::OffsetOutOfRange)));
    assert!(!matches!(decoded.get_entry(2034), Err(Error::OffsetOutOfRange)));
    assert!(matches!(decoded.get_entry(2999), Err(Error::OffsetOutOfRange)));
    assert!(matches!(decoded.get_entry(3000), Ok(None)));
}

#[test]
fn all_entries_come_in_index_order() {
    let page = leaf_with_entries(&[
        &[4, 0, 1, b'a'],
        &[4, 0, 1, b'1'],
        &[4, 0, 1, b'b'],
        &[4, 0, 1, b'2'],
    ]);
    let decoded = Page::new(&page).unwrap();
    let entries = decoded.entries().unwrap();
    let payloads: Vec<&[u8]> = entries.iter().map(|e| e.data()).collect();
    assert_eq!(payloads, vec![b"a", b"1", b"b", b"2"]);
}

#[test]
fn all_entries_fail_with_the_first_bad_entry() {
    let mut page = leaf_with_entries(&[
        &[4, 0, 1, b'a'],
        &[4, 0, 9, b'1'],
        &[4, 0, 1, b'b'],
    ]);
    set_u16(&mut page, 30, 4095);
    let decoded = Page::new(&page).unwrap();
    assert!(matches!(decoded.entries(), Err(Error::InvalidEntry)));
    assert!(decoded.get_entry(0).is_ok());
    assert!(matches!(decoded.get_entry(2), Err(Error::OffsetOutOfRange)));
}

#[test]
fn order_is_that_of_byte_slices() {
    let alphabet = [0u8, 1, 127, 128, 255];
    let mut strings: Vec<Vec<u8>> = vec![Vec::new()];
    for a in alphabet {
        strings.push(vec![a]);
        for b in alphabet {
            strings.push(vec![a, b]);
            for c in alphabet {
                strings.push(vec![a, b, c]);
            }
        }
    }
    for x in &strings {
        for y in &strings {
            assert_eq!(bytes_le(x, y), x <= y);
            assert_eq!(bytes_eq(x, y), x == y);
        }
    }
}

#[test]
fn entry_fields_encode_back_to_their_bytes() {
    let mut bytes = vec![0x03u8, 0x00, 0x2a, 0x99, 0x78, 0x56, 0x34, 0x12, 0xef, 0xcd, 0xab, 0x89];
    bytes.extend_from_slice(b"key and more");
    match Entry::new_internal(&bytes) {
        Ok(Entry::Internal { length, ty, pgno, nrecs, data }) => {
            assert_eq!(length.to_le_bytes(), bytes[0..2]);
            assert_eq!(ty, bytes[2]);
            assert_eq!(pgno, 0x1234_5678);
            assert_eq!(pgno.to_le_bytes(), bytes[4..8]);
            assert_eq!(nrecs, 0x89ab_cdef);
            assert_eq!(nrecs.to_le_bytes(), bytes[8..12]);
            assert_eq!(data, &bytes[12..15]);
        }
        other => panic!("unexpected {:?}", other),
    }
    let leaf = [0x07u8, 0x00, 0x01, b'd', b'a', b't', b'a', b'!'];
    match Entry::new_keydata(&leaf) {
        Ok(Entry::KeyData { length, data }) => {
            assert_eq!(length.to_le_bytes(), leaf[0..2]);
            assert_eq!(data, &leaf[3..7]);
        }
        other => panic!("unexpected {:?}", other),
    }
}
