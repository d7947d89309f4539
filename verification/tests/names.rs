use ledgers::files::{has_extension, render_u64, segment_file_name, stem_as_u64};
use ledgers::placement::{check_unplaced, nodes_prefix, segment_key, StoreError};
use ledgers::segment::Segments;

#[test]
fn list_files_as_u64() {
    let mut names: Vec<Vec<u8>> = Vec::new();
    for i in (9..15).rev() {
        names.push(format!("{}.log", i).into_bytes());
        names.push(format!("{}.index", i).into_bytes());
    }

    let ids: Vec<u64> = ledgers::files::list_files_as_u64(&names, b"index");

    assert_eq!(ids, vec![9, 10, 11, 12, 13, 14]);
}

#[test]
fn listing_passes_over_other_files() {
    let names: Vec<Vec<u8>> = vec![
        b"12.index".to_vec(),
        b"x12.index".to_vec(),
        b".index".to_vec(),
        b"index".to_vec(),
        b"5.index.bak".to_vec(),
        b"7.8.index".to_vec(),
        b"3.index".to_vec(),
        b"3.index".to_vec(),
        b"18446744073709551615.index".to_vec(),
        b"18446744073709551616.index".to_vec(),
        b"4.indexes".to_vec(),
        b"6.inde".to_vec(),
    ];

    assert_eq!(
        ledgers::files::list_files_as_u64(&names, b"index"),
        vec![3, 3, 12, 18446744073709551615]
    );
    assert_eq!(ledgers::files::list_files_as_u64(&names, b"bak"), Vec::<u64>::new());
    assert_eq!(Segments::open(&names).len(), 3);
}

#[test]
fn stem_is_what_precedes_the_last_dot() {
    assert_eq!(stem_as_u64(b"123.index"), Some(123));
    assert_eq!(stem_as_u64(b"123"), Some(123));
    assert_eq!(stem_as_u64(b"007.log"), Some(7));
    assert_eq!(stem_as_u64(b"0.log"), Some(0));
    assert_eq!(stem_as_u64(b"1.2.log"), None);
    assert_eq!(stem_as_u64(b".log"), None);
    assert_eq!(stem_as_u64(b""), None);
    assert_eq!(stem_as_u64(b"+5.log"), None);
    assert_eq!(stem_as_u64(b"12a.log"), None);
    assert_eq!(stem_as_u64(b"18446744073709551615.log"), Some(u64::MAX));
    assert_eq!(stem_as_u64(b"18446744073709551616.log"), None);
    assert_eq!(stem_as_u64(b"99999999999999999999999.log"), None);
}

#[test]
fn extension_is_what_follows_the_last_dot() {
    assert!(has_extension(b"1.index", b"index"));
    assert!(!has_extension(b"1.index", b"log"));
    assert!(!has_extension(b"1.index", b"inde"));
    assert!(!has_extension(b"index", b"index"));
    assert!(has_extension(b"a.b.index", b"index"));
    assert!(has_extension(b"a.", b""));
    assert!(!has_extension(b"a", b""));
}

#[test]
fn segment_file_names_read_back() {
    assert_eq!(render_u64(0), b"0".to_vec());
    assert_eq!(render_u64(7), b"7".to_vec());
    assert_eq!(render_u64(10), b"10".to_vec());
    assert_eq!(render_u64(1234567890), b"1234567890".to_vec());
    assert_eq!(render_u64(u64::MAX), b"18446744073709551615".to_vec());
    assert_eq!(segment_file_name(123, b"index"), b"123.index".to_vec());
    assert_eq!(segment_file_name(0, b"log"), b"0.log".to_vec());
    for id in [0u64, 1, 9, 10, 99, 100, 5000, u64::MAX] {
        let name = segment_file_name(id, b"index");
        assert_eq!(stem_as_u64(&name), Some(id));
        assert!(has_extension(&name, b"index"));
    }
    assert_eq!(ledgers::files::index_extension_bytes(), b"index".to_vec());
    assert_eq!(ledgers::files::log_extension_bytes(), b"log".to_vec());
}

#[test]
fn placement_keys() {
    assert_eq!(nodes_prefix(), b"/ledgers/nodes/".to_vec());
    assert_eq!(
        segment_key(b"abc", 0, 0),
        b"/ledgers/abc/partitions/0/segments/0".to_vec()
    );
    assert_eq!(
        segment_key(b"0f8fad5b-d9cb-469f-a165-70867728950e", 12, 5000),
        b"/ledgers/0f8fad5b-d9cb-469f-a165-70867728950e/partitions/12/segments/5000".to_vec()
    );
    assert_eq!(check_unplaced(None), Ok(()));
    assert_eq!(check_unplaced(Some(&b"node".to_vec())), Err(StoreError::Conflict));
}
