use evlite::statement::{can_prepare, prepare_statement, StatementType};

#[test]
fn statement_tests() {
    let select = prepare_statement("select *".to_string());
    assert_eq!(select.statement_type, StatementType::Select);
    assert!(select.row.is_none());
    let insert = prepare_statement("insert 1 evie jindo".to_string());
    assert_eq!(insert.statement_type, StatementType::Insert);
    assert!(!insert.row.is_none());
}

#[test]
fn statement_kind_goes_by_the_first_letters() {
    assert_eq!(
        StatementType::get_statement_type(&"selection".to_string()),
        StatementType::Select
    );
    assert_eq!(
        StatementType::get_statement_type(&"insert".to_string()),
        StatementType::Insert
    );
    assert_eq!(
        StatementType::get_statement_type(&" select".to_string()),
        StatementType::Unrecognized
    );
    assert_eq!(
        StatementType::get_statement_type(&"Insert 1 a b".to_string()),
        StatementType::Unrecognized
    );
    assert_eq!(
        StatementType::get_statement_type(&"selec".to_string()),
        StatementType::Unrecognized
    );
    assert_eq!(
        StatementType::get_statement_type(&"".to_string()),
        StatementType::Unrecognized
    );
}

#[test]
fn prepared_statement_keeps_its_text_and_reads_the_row() {
    let insert = prepare_statement("insert 12 evie jindo".to_string());
    assert_eq!(insert.statement_str, "insert 12 evie jindo");
    let row = insert.row.unwrap();
    assert_eq!(row.id, 12);
    assert_eq!(row.dog_name, "evie");
    assert_eq!(row.breed, "jindo");
    let other = prepare_statement("delete 12".to_string());
    assert_eq!(other.statement_type, StatementType::Unrecognized);
    assert_eq!(other.statement_str, "delete 12");
    assert!(other.row.is_none());
}

#[test]
fn can_prepare_refuses_an_insert_without_a_row() {
    assert!(can_prepare(&"select *".to_string()));
    assert!(can_prepare(&"anything".to_string()));
    assert!(can_prepare(&"insert 1 evie jindo".to_string()));
    assert!(!can_prepare(&"insert".to_string()));
    assert!(!can_prepare(&"insert x evie jindo".to_string()));
}
