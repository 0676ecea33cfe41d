use dm::columns::column::Column;
use dm::columns::column_trait::ColumnTrait;
use dm::columns::datetime_column::DateTimeColumn;
use dm::columns::float_column::FloatColumn;
use dm::columns::int_column::IntColumn;
use dm::columns::string_column::StringColumn;
use dm::error::TableError;
use dm::methods::aggregation::{aggregate_rows, AggregationType};
use dm::methods::pivot::pivot;
use dm::row::Row;
use dm::table::Table;

fn record(pairs: &[(&str, &str)]) -> Row {
    let mut row = Row::new();
    for (name, value) in pairs {
        row.insert(name, value.to_string());
    }
    row
}

fn people() -> Table {
    let mut table = Table::new();
    table.add_column(Column::Text(StringColumn::new("name"))).unwrap();
    table.add_column(Column::Int(IntColumn::new("age"))).unwrap();
    table.add_column(Column::Float(FloatColumn::new("height"))).unwrap();
    table.add_column(Column::DateTime(DateTimeColumn::new("seen"))).unwrap();
    table
}

fn cells(table: &Table) -> Vec<Vec<String>> {
    (0..table.len())
        .map(|i| table.columns.iter().map(|c| c.get_as_string(i).unwrap()).collect())
        .collect()
}

fn strings(rows: &[&[&str]]) -> Vec<Vec<String>> {
    rows.iter().map(|r| r.iter().map(|s| s.to_string()).collect()).collect()
}

fn lengths(table: &Table) -> Vec<usize> {
    table.columns.iter().map(|c| c.len()).collect()
}

#[test]
fn a_new_table_has_no_columns_and_no_rows() {
    let table = Table::new();
    assert_eq!(table.column_names(), Vec::<&str>::new());
    assert_eq!(table.len(), 0);
    assert_eq!(table.get_rows().len(), 0);
    assert_eq!(table.get_column_index("x"), None);
}

#[test]
fn a_table_without_columns_stays_without_rows() {
    let mut table = Table::new();
    assert_eq!(push(&mut table, &[("x", "1")]), Ok(()));
    assert_eq!(table.push_row(&Row::new(), &shortest), Ok(()));
    assert_eq!(table.len(), 0);
}

#[test]
fn columns_keep_the_order_in_which_they_were_added() {
    let table = people();
    assert_eq!(table.column_names(), vec!["name", "age", "height", "seen"]);
    assert_eq!(table.get_column_index("name"), Some(0));
    assert_eq!(table.get_column_index("age"), Some(1));
    assert_eq!(table.get_column_index("height"), Some(2));
    assert_eq!(table.get_column_index("seen"), Some(3));
    assert_eq!(table.get_column_index("Name"), None);
    assert_eq!(table.get_column_index(""), None);
}

#[test]
fn adding_a_column_twice_is_a_duplicate_column_error() {
    let mut table = people();
    assert_eq!(
        table.add_column(Column::Int(IntColumn::new("name"))),
        Err(TableError::DuplicateColumn)
    );
    assert_eq!(table.add_string_column("age"), Err(TableError::DuplicateColumn));
    assert_eq!(table.add_float_column("height"), Err(TableError::DuplicateColumn));
    assert_eq!(table.column_names(), vec!["name", "age", "height", "seen"]);
    assert!(matches!(table.columns[0], Column::Text(_)));
}

#[test]
fn add_string_and_float_columns_make_empty_columns() {
    let mut table = Table::new();
    assert_eq!(table.add_string_column("label"), Ok(()));
    assert_eq!(table.add_float_column("value"), Ok(()));
    assert_eq!(table.column_names(), vec!["label", "value"]);
    assert!(matches!(table.columns[0], Column::Text(_)));
    assert!(matches!(table.columns[1], Column::Float(_)));
    assert_eq!(table.len(), 0);
    push(&mut table, &[("label", "a"), ("value", "1.5")]).unwrap();
    assert_eq!(cells(&table), strings(&[&["a", "1.5"]]));
}

#[test]
fn a_column_with_values_can_be_added_to_a_table_of_that_length() {
    let mut table = Table::new();
    let mut ids = IntColumn::new("id");
    ids.push(1);
    ids.push(2);
    let mut names = StringColumn::new("name");
    names.push("a");
    names.push("b");
    table.add_column(Column::Int(ids)).unwrap();
    table.add_column(Column::Text(names)).unwrap();
    assert_eq!(table.len(), 2);
    assert_eq!(cells(&table), strings(&[&["1", "a"], &["2", "b"]]));
}

#[test]
fn push_row_parses_each_value_into_its_column() {
    let mut table = people();
    let row = record(&[("name", "Ann"), ("age", "+031"), ("height", "1.70"), ("seen", "170")]);
    table.push_row(&row, &shortest).unwrap();
    assert_eq!(table.len(), 1);
    assert_eq!(cells(&table), strings(&[&["Ann", "31", "1.7", "170"]]));
}

#[test]
fn push_row_fills_missing_values_with_defaults() {
    let mut table = people();
    push(&mut table, &[("name", "Bob")]).unwrap();
    table.push_row(&Row::new(), &shortest).unwrap();
    push(&mut table, &[("age", "5"), ("unknown", "ignored")]).unwrap();
    assert_eq!(
        cells(&table),
        strings(&[&["Bob", "0", "0", "0"], &["", "0", "0", "0"], &["", "5", "0", "0"]])
    );
    assert_eq!(table.columns[2].get_as_string(0).unwrap().parse::<f64>().unwrap(), 0.0);
}

#[test]
fn push_row_that_fails_leaves_every_column_as_it_was() {
    let mut table = people();
    push(&mut table, &[("name", "Ann"), ("age", "31")]).unwrap();
    assert_eq!(
        push(&mut table, &[("name", "Bob"), ("age", "old"), ("height", "1.8")]),
        Err(TableError::ParseError)
    );
    assert_eq!(
        push(&mut table, &[("name", "Cy"), ("age", "3"), ("height", "tall")]),
        Err(TableError::ParseError)
    );
    assert_eq!(
        push(&mut table, &[("name", "Di"), ("seen", "1.5")]),
        Err(TableError::ParseError)
    );
    assert_eq!(lengths(&table), vec![1, 1, 1, 1]);
    assert_eq!(cells(&table), strings(&[&["Ann", "31", "0", "0"]]));
}

#[test]
fn every_column_is_as_long_as_the_number_of_rows_appended() {
    let mut table = people();
    let mut appended = 0;
    for i in 0..25 {
        let age = if i % 5 == 0 { "x".to_string() } else { i.to_string() };
        let mut row = Row::new();
        row.insert("name", format!("p{}", i));
        if i % 2 == 0 {
            row.insert("age", age);
        }
        if i % 3 == 0 {
            row.insert("height", "1.5".to_string());
        }
        if table.push_row(&row, &shortest).is_ok() {
            appended += 1;
        }
        assert_eq!(lengths(&table), vec![appended; 4]);
        assert_eq!(table.len(), appended);
    }
    assert_eq!(appended, 22);
}

#[test]
fn push_row_strict_wants_a_value_for_every_column() {
    let mut table = people();
    assert_eq!(
        table.push_row_strict(&record(&[("name", "Ann"), ("age", "31")]), &shortest),
        Err(TableError::MissingColumn)
    );
    assert_eq!(table.push_row_strict(&Row::new(), &shortest), Err(TableError::MissingColumn));
    assert_eq!(table.len(), 0);
    let unreadable = record(&[("name", "Ann"), ("age", "x"), ("height", "1.7"), ("seen", "1")]);
    assert_eq!(table.push_row_strict(&unreadable, &shortest), Err(TableError::ParseError));
    assert_eq!(table.len(), 0);
    assert_eq!(
        table.push_row_strict(&record(&[
            ("name", "Ann"),
            ("age", "31"),
            ("height", "1.7"),
            ("seen", "1"),
            ("extra", "e")
        ]), &shortest),
        Ok(())
    );
    assert_eq!(cells(&table), strings(&[&["Ann", "31", "1.7", "1"]]));
    assert_eq!(
        table.push_row_strict(&record(&[("age", "x")]), &shortest),
        Err(TableError::MissingColumn)
    );
}

#[test]
fn push_values_takes_the_values_in_column_order() {
    let mut table = people();
    let row: Vec<String> = ["Ann", "031", "1.7", "-5"].iter().map(|s| s.to_string()).collect();
    assert_eq!(table.push_values(&row, &shortest), Ok(()));
    let bad: Vec<String> = ["Bob", "3", "x", "1"].iter().map(|s| s.to_string()).collect();
    assert_eq!(table.push_values(&bad, &shortest), Err(TableError::ParseError));
    assert_eq!(cells(&table), strings(&[&["Ann", "31", "1.7", "-5"]]));
}

#[test]
fn get_rows_gives_each_row_as_a_record() {
    let mut table = people();
    push(&mut table, &[("name", "Ann"), ("age", "31"), ("height", "1.7")]).unwrap();
    push(&mut table, &[("name", "Bob"), ("age", "40"), ("seen", "9")]).unwrap();

    let rows = table.get_rows();

    assert_eq!(rows.len(), 2);
    assert_eq!(rows[0].get("name").unwrap(), "Ann");
    assert_eq!(rows[0].get("age").unwrap(), "31");
    assert_eq!(rows[0].get("height").unwrap(), "1.7");
    assert_eq!(rows[0].get("seen").unwrap(), "0");
    assert_eq!(rows[1].get("name").unwrap(), "Bob");
    assert_eq!(rows[1].get("seen").unwrap(), "9");
    assert_eq!(rows[1].get("missing"), None);
    assert!(rows[1].contains_key("height"));
    assert!(!rows[1].contains_key("weight"));
    assert_eq!(table.get_row(1).get("age").unwrap(), "40");
}

#[test]
fn get_rows_reads_the_table_as_it_is_now() {
    let mut table = people();
    push(&mut table, &[("name", "Ann")]).unwrap();
    assert_eq!(table.get_rows().len(), 1);
    push(&mut table, &[("name", "Bob")]).unwrap();
    let again = table.get_rows();
    assert_eq!(again.len(), 2);
    assert_eq!(again[1].get("name").unwrap(), "Bob");
}

#[test]
fn a_copy_reads_like_the_table_it_was_made_of() {
    let mut table = people();
    push(&mut table, &[("name", "Ann"), ("age", "31")]).unwrap();
    push(&mut table, &[("name", "Bob"), ("age", "31")]).unwrap();

    let copy = table.duplicate();

    assert_eq!(copy.column_names(), table.column_names());
    assert_eq!(copy.len(), table.len());
    assert_eq!(cells(&copy), cells(&table));
    assert_eq!(copy.get_column_index("age"), table.get_column_index("age"));
    let a = copy.create_index("age").unwrap();
    let b = table.create_index("age").unwrap();
    assert_eq!(a.len(), b.len());
    assert_eq!(a.key(0), b.key(0));
    assert_eq!(a.bucket(0), b.bucket(0));
    assert_eq!(cells(&table.clone()), cells(&table));
}

#[test]
fn changing_a_copy_leaves_the_table_alone() {
    let mut table = people();
    push(&mut table, &[("name", "Ann"), ("age", "31")]).unwrap();
    let before = cells(&table);

    let mut copy = table.duplicate();
    push(&mut copy, &[("name", "Bob")]).unwrap();
    copy.add_column(Column::Text({
        let mut c = StringColumn::new("note");
        c.push("x");
        c.push("y");
        c
    }))
    .unwrap();

    assert_eq!(copy.len(), 2);
    assert_eq!(copy.column_names().len(), 5);
    assert_eq!(table.len(), 1);
    assert_eq!(table.column_names(), vec!["name", "age", "height", "seen"]);
    assert_eq!(cells(&table), before);

    push(&mut table, &[("name", "Cy")]).unwrap();
    assert_eq!(copy.columns[0].get_as_string(1), Ok("Bob".to_string()));
}

#[test]
fn resolve_columns_finds_positions_or_fails() {
    let table = people();
    assert_eq!(table.resolve_columns(&["seen", "name"]), Ok(vec![3, 0]));
    assert_eq!(table.resolve_columns(&[]), Ok(vec![]));
    assert_eq!(table.resolve_columns(&["name", "nope"]), Err(TableError::ColumnNotFound));
}

#[test]
fn key_of_row_reads_the_key_columns() {
    let mut table = people();
    push(&mut table, &[("name", "Ann"), ("age", "31")]).unwrap();
    assert_eq!(table.key_of_row(&vec![1, 0], 0), vec!["31".to_string(), "Ann".to_string()]);
    assert_eq!(table.key_of_row(&vec![], 0), Vec::<String>::new());
}

#[test]
fn a_table_shows_as_markdown() {
    let mut table = people();
    push(&mut table, &[("name", "Ann"), ("age", "31"), ("height", "1.7")]).unwrap();
    push(&mut table, &[("name", "Bob"), ("seen", "-9")]).unwrap();
    assert_eq!(
        table.to_markdown(),
        "| name | age | height | seen |\n\
         | --- | --- | --- | --- |\n\
         | Ann | 31 | 1.7 | 0 |\n\
         | Bob | 0 | 0 | -9 |\n"
    );
}

#[test]
fn an_empty_table_shows_as_two_bars() {
    assert_eq!(Table::new().to_markdown(), "|\n|\n");
    let mut table = Table::new();
    table.add_string_column("only").unwrap();
    assert_eq!(table.to_markdown(), "| only |\n| --- |\n");
}

fn push(table: &mut Table, pairs: &[(&str, &str)]) -> Result<(), TableError> {
    table.push_row(&record(pairs), &shortest)
}

fn shortest(literal: &str) -> String {
    literal.parse::<f64>().unwrap().to_string()
}

#[test]
fn push_row_stores_numbers_in_normal_form() {
    let mut table = people();
    let row = record(&[("name", "1.50"), ("age", "007"), ("height", "1.70"), ("seen", "+5")]);
    assert_eq!(table.push_row(&row, &shortest), Ok(()));
    assert_eq!(push(&mut table, &[("name", "Bob")]), Ok(()));
    assert_eq!(push(&mut table, &[("height", "2e0")]), Ok(()));
    assert_eq!(
        cells(&table),
        strings(&[&["1.50", "7", "1.7", "5"], &["Bob", "0", "0", "0"], &["", "0", "2", "0"]])
    );
    assert_eq!(table.create_index("height").unwrap().len(), 3);
}

#[test]
fn push_row_fails_before_or_after_the_normal_form_is_made() {
    let mut table = people();
    let never = |_: &str| -> String { panic!("called on what is no literal") };
    assert_eq!(
        table.push_row(&record(&[("height", "tall")]), &never),
        Err(TableError::ParseError)
    );
    assert_eq!(
        push(&mut table, &[("age", "x"), ("height", "1.5")]),
        Err(TableError::ParseError)
    );
    let broken = |_: &str| "?".to_string();
    assert_eq!(table.push_row(&Row::new(), &broken), Err(TableError::ParseError));
    assert_eq!(table.len(), 0);
    assert_eq!(lengths(&table), vec![0, 0, 0, 0]);
}

#[test]
fn numbers_in_normal_form_group_by_their_value() {
    let mut table = Table::new();
    table.add_float_column("x").unwrap();
    for literal in ["1", "1.0", "1e0", "2", "0.5", ".5", "2.00"] {
        push(&mut table, &[("x", literal)]).unwrap();
    }
    let index = table.create_index("x").unwrap();
    assert_eq!(index.len(), 3);
    assert_eq!(index.bucket(0), &vec![0, 1, 2]);
    assert_eq!(index.bucket(1), &vec![3, 6]);
    assert_eq!(index.bucket(2), &vec![4, 5]);
}

#[test]
fn a_copy_of_a_table_keeps_the_types_of_its_columns() {
    let mut table = people();
    push(&mut table, &[("name", "Ann"), ("seen", "5")]).unwrap();
    for copy in [table.duplicate(), table.clone()] {
        assert!(matches!(copy.columns[0], Column::Text(_)));
        assert!(matches!(copy.columns[1], Column::Int(_)));
        assert!(matches!(copy.columns[2], Column::Float(_)));
        assert!(matches!(copy.columns[3], Column::DateTime(_)));
        assert_eq!(cells(&copy), cells(&table));
    }
}

#[test]
fn a_taken_name_is_a_duplicate_column_whatever_the_column_holds() {
    let mut table = people();
    push(&mut table, &[("name", "Ann")]).unwrap();
    let mut longer = IntColumn::new("age");
    longer.push(1);
    longer.push(2);
    longer.push(3);
    assert_eq!(table.add_column(Column::Int(longer)), Err(TableError::DuplicateColumn));
    assert_eq!(table.add_string_column("name"), Err(TableError::DuplicateColumn));
    assert_eq!(table.add_float_column("height"), Err(TableError::DuplicateColumn));
    assert_eq!(table.column_names(), vec!["name", "age", "height", "seen"]);
    assert_eq!(lengths(&table), vec![1, 1, 1, 1]);
    assert_eq!(cells(&table), strings(&[&["Ann", "0", "0", "0"]]));
}

#[test]
fn counting_needs_no_sum() {
    let mut table = people();
    push(&mut table, &[("name", "Ann")]).unwrap();
    push(&mut table, &[("name", "Bob")]).unwrap();
    let never = |_: &Vec<String>| -> String { panic!("a count is no sum") };
    let count = AggregationType::Count;
    assert_eq!(aggregate_rows(&table, &[0, 1], 0, count, &never), Ok("2".to_string()));
    let pivoted = pivot(&table, &["name"], &["age"], "height", count, &never, &shortest).unwrap();
    assert_eq!(pivoted.column_names(), vec!["name", "0_Count"]);
    assert_eq!(cells(&pivoted), strings(&[&["Ann", "1"], &["Bob", "1"]]));
}
