//! Tests of the output-building and output-comparing helpers.

use toy_payments::test_support::{assert_unsorted_eq, create_csv, split_to_dict};

#[test]
fn create_csv_creates_single_row() {
    let rows = vec![["1", "2", "3", "4", "5"]];
    let sut = create_csv(rows);
    let expected = String::from("client,available,held,total,locked\n1,2,3,4,5\n");
    assert_eq!(sut, expected);
}

#[test]
fn create_csv_creates_multiple_rows() {
    let rows = vec![["1", "2", "3", "4", "5"], ["1", "2", "3", "4", "5"]];
    let sut = create_csv(rows);
    let expected = String::from("client,available,held,total,locked\n1,2,3,4,5\n1,2,3,4,5\n");
    assert_eq!(sut, expected);
}

#[test]
fn csvs_are_split_into_dicts() {
    let csv = String::from("client,available,held,total,locked\n1,2,3,4,5\n2,2,3,4,5\n");
    let sut = split_to_dict(&csv);
    let row1 = &sut.iter().find(|p| p.0 == "1").unwrap().1;
    let row2 = &sut.iter().find(|p| p.0 == "2").unwrap().1;
    assert_eq!(*row1, String::from("1,2,3,4,5"));
    assert_eq!(*row2, String::from("2,2,3,4,5"));
}

#[test]
fn two_unsorted_csvs_will_assert_eq() {
    let csv1 =
        String::from("client,available,held,total,locked\n1,2,3,4,5\n2,2,3,4,5\n3,2,3,4,5\n");
    let csv2 =
        String::from("client,available,held,total,locked\n2,2,3,4,5\n3,2,3,4,5\n1,2,3,4,5\n");
    assert!(assert_unsorted_eq(&csv1, &csv2));
}

#[test]
#[should_panic]
fn two_unequal_len_csvs_will_assert_false() {
    let csv1 = String::from("client,available,held,total,locked\n1,2,3,4,5\n2,2,3,4,5");
    let csv2 =
        String::from("client,available,held,total,locked\n2,2,3,4,5\n3,2,3,4,5\n1,2,3,4,5\n");
    assert!(assert_unsorted_eq(&csv1, &csv2));
}

#[test]
#[should_panic]
fn two_unequal_csvs_will_assert_false() {
    let csv1 =
        String::from("client,available,held,total,locked\n1,3,3,4,5\n2,2,3,4,5\n3,2,3,4,5\n");
    let csv2 =
        String::from("client,available,held,total,locked\n2,2,3,4,5\n3,2,3,4,5\n1,2,3,4,5\n");
    assert!(assert_unsorted_eq(&csv1, &csv2));
}
