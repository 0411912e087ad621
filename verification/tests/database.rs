use evlite::database::{Row, Table};

#[test]
fn row_tests() {
    let row = Row::new(&"insert 1 evie jindo".to_string());
    assert_eq!(row.id, 1);
    assert_eq!(row.dog_name, "evie");
    assert_eq!(row.breed, "jindo");
}

#[test]
fn table_tests() {
    let mut table = Table::new();
    assert_eq!(table.row_count(), 0);
    table.insert_row(&Row::new(&"insert 1 evie jindo".to_string()));
    assert_eq!(table.row_count(), 1);
}

#[test]
fn row_parse_reads_the_three_fields_after_the_first_word() {
    let row = Row::parse(&"  add\t-42   rex \u{3000}akita  extra".to_string()).unwrap();
    assert_eq!(row.id, -42);
    assert_eq!(row.dog_name, "rex");
    assert_eq!(row.breed, "akita");
}

#[test]
fn row_parse_refuses_a_missing_word() {
    assert!(Row::parse(&"".to_string()).is_none());
    assert!(Row::parse(&"insert".to_string()).is_none());
    assert!(Row::parse(&"insert 1".to_string()).is_none());
    assert!(Row::parse(&"insert 1 evie".to_string()).is_none());
    assert!(Row::parse(&"insert 1 evie   ".to_string()).is_none());
}

#[test]
fn row_parse_refuses_an_id_that_is_no_i32() {
    assert!(Row::parse(&"insert one evie jindo".to_string()).is_none());
    assert!(Row::parse(&"insert 2147483648 evie jindo".to_string()).is_none());
    assert!(Row::parse(&"insert 1.5 evie jindo".to_string()).is_none());
    assert_eq!(Row::parse(&"insert 2147483647 evie jindo".to_string()).unwrap().id, i32::MAX);
}

#[test]
fn row_clone_keeps_the_fields() {
    let row = Row::new(&"insert 7 momo shiba".to_string());
    let copy = row.clone();
    assert_eq!(copy.id, 7);
    assert_eq!(copy.dog_name, "momo");
    assert_eq!(copy.breed, "shiba");
}

#[test]
fn table_keeps_rows_in_the_order_of_insertion() {
    let mut table = Table::new();
    table.insert_row(&Row::new(&"insert 3 evie jindo".to_string()));
    table.insert_row(&Row::new(&"insert 1 rex akita".to_string()));
    assert_eq!(table.row_count(), 2);
    assert_eq!(table.row(0).id, 3);
    assert_eq!(table.row(0).dog_name, "evie");
    assert_eq!(table.row(1).id, 1);
    assert_eq!(table.row(1).breed, "akita");
    let copy = table.clone();
    assert_eq!(copy.row_count(), 2);
    assert_eq!(copy.row(1).dog_name, "rex");
}
