use codecs::entropy::{conditional_count, count, count_iter, ConditionalCountTable, CountTable};

#[test]
fn count_table_test() {
    let content = [0, 1, 3, 1, 0, 255, 12, 12, 12, 1];

    let count_table = count(&content);

    for byte in 0..=255u8 {
        if count_table.counter(byte) != 0 {
            println!("{}: {}", byte, count_table.counter(byte));
        }
    }
    println!("sum {}", count_table.sum());
    assert_eq!(count_table.sum(), 10);
    assert_eq!(count_table.counter(0), 2);
    assert_eq!(count_table.counter(1), 3);
    assert_eq!(count_table.counter(3), 1);
    assert_eq!(count_table.counter(12), 3);
    assert_eq!(count_table.counter(255), 1);
    assert_eq!(count_table.counter(2), 0);
}

#[test]
fn conditional_count_table_test() {
    let content = [0, 1, 3, 1, 0, 255, 12, 12, 12, 1];

    let count_table = conditional_count(&content);

    for first in 0..=255u8 {
        let row = count_table.row(first);
        for second in 0..=255u8 {
            if row.counter(second) != 0 {
                println!("({}, {}): {}", first, second, row.counter(second));
            }
        }
        if row.sum() != 0 {
            println!("sum {}", row.sum());
        }
    }
    assert_eq!(count_table.sum(), 10);
    // A zero byte precedes the first entry.
    assert_eq!(count_table.row(0).counter(0), 1);
    assert_eq!(count_table.row(0).counter(1), 1);
    assert_eq!(count_table.row(0).counter(255), 1);
    assert_eq!(count_table.row(0).sum(), 3);
    assert_eq!(count_table.row(12).counter(12), 2);
    assert_eq!(count_table.row(12).counter(1), 1);
    assert_eq!(count_table.row(12).sum(), 3);
    assert_eq!(count_table.row(1).counter(3), 1);
    assert_eq!(count_table.row(1).counter(0), 1);
    assert_eq!(count_table.row(1).sum(), 2);
    assert_eq!(count_table.row(7).sum(), 0);
}

#[test]
fn count_iter_agrees_with_count() {
    let content = [5u8, 5, 9, 200, 5, 0];
    let from_slice = count(&content);
    let from_iter = count_iter(content.iter().copied());
    assert_eq!(from_iter.sum(), 6);
    for byte in 0..=255u8 {
        assert_eq!(from_slice.counter(byte), from_iter.counter(byte));
    }
    assert_eq!(from_iter.counter(5), 3);
}

#[test]
fn zeroed_tables_are_empty() {
    let table = CountTable::zeroed();
    assert_eq!(table.sum(), 0);
    let conditional = ConditionalCountTable::zeroed();
    assert_eq!(conditional.sum(), 0);
    for byte in 0..=255u8 {
        assert_eq!(table.counter(byte), 0);
        assert_eq!(conditional.row(byte).sum(), 0);
    }
}

#[test]
fn counting_nothing_gives_empty_tables() {
    assert_eq!(count(&[]).sum(), 0);
    assert_eq!(conditional_count(&[]).sum(), 0);
}
