use crush::names::name_order;
use crush::names::NameOrder;
use crush::path::split_first;
use crush::select::holds;
use crush::select::LOCAL_RETRIES;
use crush::select::MAX_FAILURES;
use crush::table::straw;
use crush::table::TABLE_SIZE;
use crush::LnTable;

fn counting_table() -> LnTable {
    LnTable::new((0..65536u64).map(|i| i * 1000).collect()).unwrap()
}

#[test]
fn names_compare_byte_by_byte() {
    assert_eq!(name_order("a", "b"), NameOrder::Before);
    assert_eq!(name_order("b", "a"), NameOrder::After);
    assert_eq!(name_order("abc", "abc"), NameOrder::Same);
    assert_eq!(name_order("", ""), NameOrder::Same);
    assert_eq!(name_order("", "a"), NameOrder::Before);
    assert_eq!(name_order("a", ""), NameOrder::After);
    assert_eq!(name_order("ab", "abc"), NameOrder::Before);
    assert_eq!(name_order("abc", "ab"), NameOrder::After);
    assert_eq!(name_order("osd.10", "osd.9"), NameOrder::Before);
    assert_eq!(name_order("Z", "a"), NameOrder::Before);
    assert_eq!(name_order("z", "é"), NameOrder::Before);
    assert_eq!(name_order("é", "✓"), NameOrder::Before);
}

#[test]
fn names_compare_as_strings_do() {
    let names = ["", "a", "ab", "b", "osd.1", "osd.10", "osd.2", "é", "ü", "✓", "a✓", "~"];
    for a in names {
        for b in names {
            let expected = match a.cmp(b) {
                std::cmp::Ordering::Less => NameOrder::Before,
                std::cmp::Ordering::Equal => NameOrder::Same,
                std::cmp::Ordering::Greater => NameOrder::After,
            };
            assert_eq!(name_order(a, b), expected);
        }
    }
}

#[test]
fn a_path_splits_at_its_first_slash() {
    assert_eq!(split_first("row/rack/host"), ("row", "rack/host"));
    assert_eq!(split_first("row"), ("row", ""));
    assert_eq!(split_first("row/"), ("row", ""));
    assert_eq!(split_first("/row"), ("", "row"));
    assert_eq!(split_first("/"), ("", ""));
    assert_eq!(split_first("//"), ("", "/"));
    assert_eq!(split_first(""), ("", ""));
    assert_eq!(split_first("é✓/ü/x"), ("é✓", "ü/x"));
}

#[test]
fn a_table_has_one_entry_for_each_index() {
    assert_eq!(TABLE_SIZE, 65536);
    assert!(LnTable::new(Vec::new()).is_none());
    assert!(LnTable::new(vec![0; 65535]).is_none());
    assert!(LnTable::new(vec![0; 65537]).is_none());
    let table = counting_table();
    assert_eq!(table.entry(0), 0);
    assert_eq!(table.entry(1), 1000);
    assert_eq!(table.entry(4660), 4_660_000);
    assert_eq!(table.entry(65535), 65_535_000);
}

#[test]
fn a_straw_is_the_entry_divided_by_the_weight() {
    let table = counting_table();
    assert_eq!(straw(&table, 5, 1), Some(5000));
    assert_eq!(straw(&table, 5, 2), Some(2500));
    assert_eq!(straw(&table, 5, 3), Some(1666));
    assert_eq!(straw(&table, 5, 5001), Some(0));
    assert_eq!(straw(&table, 0, 7), Some(0));
    assert_eq!(straw(&table, 65535, 1000), Some(65535));
    assert_eq!(straw(&table, 5, u64::MAX), Some(0));
}

#[test]
fn a_straw_depends_on_the_low_bits_of_the_hash() {
    let table = counting_table();
    assert_eq!(straw(&table, 0x1_0005, 1), Some(5000));
    assert_eq!(straw(&table, 0xdead_beef_0001_0005, 1), Some(5000));
    assert_eq!(straw(&table, 0x1234_5678_9abc_def0, 10), Some(0xdef0 * 100));
    assert_eq!(straw(&table, u64::MAX, 1), Some(65_535_000));
}

#[test]
fn nothing_without_weight_draws_a_straw() {
    let table = counting_table();
    assert_eq!(straw(&table, 5, 0), None);
    assert_eq!(straw(&table, 0, 0), None);
}

#[test]
fn a_list_holds_what_was_put_in_it() {
    let paths = vec![String::from("a/b"), String::from("a/c"), String::from("")];
    assert!(holds(&paths, &String::from("a/b")));
    assert!(holds(&paths, &String::from("a/c")));
    assert!(holds(&paths, &String::new()));
    assert!(!holds(&paths, &String::from("a")));
    assert!(!holds(&paths, &String::from("a/b/")));
    assert!(!holds(&Vec::new(), &String::from("a/b")));
}

#[test]
fn the_bounds_on_retries() {
    assert_eq!(LOCAL_RETRIES, 3);
    assert_eq!(MAX_FAILURES, 65536);
}
