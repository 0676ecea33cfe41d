use dm::cell_value::CellValue;
use dm::columns::column::Column;
use dm::columns::column_trait::{default_value, literal_accepted, ColumnTrait, ColumnType};
use dm::columns::datetime_column::DateTimeColumn;
use dm::columns::float_column::FloatColumn;
use dm::columns::int_column::IntColumn;
use dm::columns::string_column::StringColumn;
use dm::error::TableError;

#[test]
fn int_column_holds_what_is_pushed() {
    let mut column = IntColumn::new("age");
    assert_eq!(column.name(), "age");
    assert_eq!(column.len(), 0);
    column.push(42);
    column.push(-7);
    column.push(i64::MIN);
    assert_eq!(column.len(), 3);
    assert_eq!(column.get(0), 42);
    assert_eq!(column.get(1), -7);
    assert_eq!(column.get(2), i64::MIN);
    assert_eq!(column.get_as_string(0), Ok("42".to_string()));
    assert_eq!(column.get_as_string(1), Ok("-7".to_string()));
    assert_eq!(column.get_as_string(2), Ok("-9223372036854775808".to_string()));
    assert!(matches!(column.get_type(), ColumnType::Int));
}

#[test]
fn int_column_reads_back_the_canonical_form_of_a_literal() {
    let mut column = IntColumn::new("n");
    let cases =
        [("0", "0"), ("17", "17"), ("+17", "17"), ("-17", "-17"), ("0017", "17"), ("-0", "0")];
    for (literal, canonical) in cases {
        assert_eq!(column.push_str(literal, &shortest), Ok(()));
        let last = column.len() - 1;
        assert_eq!(column.get_as_string(last), Ok(canonical.to_string()));
        assert_eq!(column.get(last), literal.parse::<i64>().unwrap());
    }
    assert_eq!(column.len(), 6);
}

#[test]
fn int_column_rejects_what_is_no_integer() {
    let mut column = IntColumn::new("n");
    column.push(1);
    for bad in ["", "abc", "1.5", "1e3", " 1", "--1", "9223372036854775808"] {
        assert_eq!(column.push_str(bad, &shortest), Err(TableError::ParseError));
        assert_eq!(column.len(), 1);
    }
    assert_eq!(column.get(0), 1);
}

#[test]
fn datetime_column_is_read_as_an_integer() {
    let mut column = DateTimeColumn::new("at");
    column.push(1_700_000_000);
    assert_eq!(column.push_str("-86400", &shortest), Ok(()));
    assert_eq!(column.push_str("+0060", &shortest), Ok(()));
    assert_eq!(column.push_str("yesterday", &shortest), Err(TableError::ParseError));
    assert_eq!(column.name(), "at");
    assert_eq!(column.len(), 3);
    assert_eq!(column.get(0), 1_700_000_000);
    assert_eq!(column.get(1), -86400);
    assert_eq!(column.get_as_string(0), Ok("1700000000".to_string()));
    assert_eq!(column.get_as_string(1), Ok("-86400".to_string()));
    assert_eq!(column.get_as_string(2), Ok("60".to_string()));
    assert!(matches!(column.get_type(), ColumnType::Int));
}

#[test]
fn string_column_stores_text_verbatim() {
    let mut column = StringColumn::new("city");
    column.push("Oslo");
    assert_eq!(column.push_str("", &shortest), Ok(()));
    assert_eq!(column.push_str("  spaced  ", &shortest), Ok(()));
    assert_eq!(column.push_str("Ålesund|42", &shortest), Ok(()));
    assert_eq!(column.len(), 4);
    assert_eq!(column.get(0), "Oslo");
    assert_eq!(column.get(1), "");
    assert_eq!(column.get_as_string(2), Ok("  spaced  ".to_string()));
    assert_eq!(column.get_as_string(3), Ok("Ålesund|42".to_string()));
    assert!(matches!(column.get_type(), ColumnType::String));
}

#[test]
fn float_column_holds_numbers_in_normal_form() {
    let mut column = FloatColumn::new("price");
    assert_eq!(column.push("1.50", &shortest), Ok(()));
    assert_eq!(column.push_str("-2e3", &shortest), Ok(()));
    assert_eq!(column.push_str("inf", &shortest), Ok(()));
    assert_eq!(column.push_str("NaN", &shortest), Ok(()));
    assert_eq!(column.push_str("12 apples", &shortest), Err(TableError::ParseError));
    assert_eq!(column.push_str("", &shortest), Err(TableError::ParseError));
    assert_eq!(column.len(), 4);
    assert_eq!(column.get(0), "1.5");
    assert_eq!(column.get(0).parse::<f64>().unwrap(), 1.5);
    assert_eq!(column.get_as_string(1), Ok("-2000".to_string()));
    assert_eq!(column.get_as_string(2), Ok("inf".to_string()));
    assert_eq!(column.get_as_string(3), Ok("NaN".to_string()));
    assert_eq!(column.get(1).parse::<f64>().unwrap(), -2000.0);
    assert!(matches!(column.get_type(), ColumnType::Float));
}

#[test]
fn a_shortest_float_literal_reads_back_as_itself() {
    let mut column = FloatColumn::new("x");
    for value in [0.0_f64, 10.0, 0.1, -2.5, 1e21, 1.0e-7, f64::MAX, f64::MIN_POSITIVE] {
        let literal = value.to_string();
        assert_eq!(column.push_str(&literal, &shortest), Ok(()));
        let last = column.len() - 1;
        assert_eq!(column.get_as_string(last), Ok(literal));
        assert_eq!(column.get(last).parse::<f64>().unwrap(), value);
    }
}

#[test]
fn reading_past_the_end_is_an_index_error() {
    let mut ints = IntColumn::new("a");
    ints.push(1);
    assert_eq!(ints.get_as_string(1), Err(TableError::IndexError));
    assert_eq!(ints.get_as_string(usize::MAX), Err(TableError::IndexError));
    assert_eq!(StringColumn::new("b").get_as_string(0), Err(TableError::IndexError));
    assert_eq!(FloatColumn::new("c").get_as_string(0), Err(TableError::IndexError));
    assert_eq!(DateTimeColumn::new("d").get_as_string(0), Err(TableError::IndexError));
    assert_eq!(Column::Int(ints).get_as_string(5), Err(TableError::IndexError));
}

#[test]
fn a_duplicate_has_the_same_contents_and_its_own_storage() {
    let mut first = IntColumn::new("n");
    first.push(1);
    first.push(2);
    let mut copy = first.duplicate();
    assert_eq!(copy.name(), "n");
    assert_eq!(copy.len(), 2);
    assert_eq!(copy.get(0), 1);
    assert_eq!(copy.get(1), 2);
    copy.push(3);
    assert_eq!(copy.len(), 3);
    assert_eq!(first.len(), 2);

    let mut texts = StringColumn::new("t");
    texts.push("a");
    let mut other = texts.clone();
    other.push("b");
    assert_eq!(texts.len(), 1);
    assert_eq!(other.len(), 2);
    assert_eq!(other.get(0), "a");

    let mut floats = FloatColumn::new("f");
    floats.push("2.5", &shortest).unwrap();
    let twin = floats.duplicate();
    floats.push("3.5", &shortest).unwrap();
    assert_eq!(twin.len(), 1);
    assert_eq!(twin.get(0), "2.5");

    let mut times = DateTimeColumn::new("d");
    times.push(5);
    let later = times.clone();
    times.push(6);
    assert_eq!(later.len(), 1);
    assert_eq!(later.get(0), 5);
}

#[test]
fn a_column_of_any_type_answers_through_the_same_operations() {
    let mut columns = vec![
        Column::Int(IntColumn::new("i")),
        Column::Float(FloatColumn::new("f")),
        Column::Text(StringColumn::new("t")),
        Column::DateTime(DateTimeColumn::new("d")),
    ];
    let names: Vec<&str> = columns.iter().map(|c| c.name()).collect();
    assert_eq!(names, vec!["i", "f", "t", "d"]);
    for column in columns.iter_mut() {
        assert_eq!(column.push_str("007", &shortest), Ok(()));
        assert_eq!(column.len(), 1);
    }
    assert_eq!(columns[0].get_as_string(0), Ok("7".to_string()));
    assert_eq!(columns[1].get_as_string(0), Ok("7".to_string()));
    assert_eq!(columns[2].get_as_string(0), Ok("007".to_string()));
    assert_eq!(columns[3].get_as_string(0), Ok("7".to_string()));
    assert_eq!(columns[0].push_str("x", &shortest), Err(TableError::ParseError));
    assert_eq!(columns[1].push_str("x", &shortest), Err(TableError::ParseError));
    assert_eq!(columns[2].push_str("x", &shortest), Ok(()));
    assert_eq!(columns[3].push_str("x", &shortest), Err(TableError::ParseError));
    assert!(matches!(columns[0].get_type(), ColumnType::Int));
    assert!(matches!(columns[1].get_type(), ColumnType::Float));
    assert!(matches!(columns[2].get_type(), ColumnType::String));
    assert!(matches!(columns[3].get_type(), ColumnType::Int));
    let copy = columns[2].clone();
    columns[2].push_str("y", &shortest).unwrap();
    assert_eq!(copy.len(), 2);
    assert_eq!(columns[2].len(), 3);
    assert_eq!(copy.duplicate().get_as_string(1), Ok("x".to_string()));
}

#[test]
fn defaults_are_literals_of_their_type() {
    assert_eq!(default_value(ColumnType::String), "");
    assert_eq!(default_value(ColumnType::Int), "0");
    assert_eq!(default_value(ColumnType::Float), "0.0");
    for kind in [ColumnType::String, ColumnType::Int, ColumnType::Float] {
        assert!(literal_accepted(kind, default_value(kind)));
    }
    assert!(literal_accepted(ColumnType::String, "anything"));
    assert!(!literal_accepted(ColumnType::Int, "1.0"));
    assert!(literal_accepted(ColumnType::Float, "1.0"));
    assert!(!literal_accepted(ColumnType::Float, "one"));
}

#[test]
fn cell_values_have_a_text_form() {
    assert_eq!(CellValue::Int(-12).as_string(&shortest), "-12");
    assert_eq!(CellValue::Float("2.50".to_string()).as_string(&shortest), "2.5");
    assert_eq!(CellValue::Float("1e2".to_string()).as_string(&shortest), "100");
    assert_eq!(CellValue::Text("hello".to_string()).as_string(&shortest), "hello");
    assert_eq!(CellValue::DateTime(1_700_000_000).as_string(&shortest), "1700000000");
    assert_eq!(CellValue::Int(i64::MAX).as_string(&shortest), i64::MAX.to_string());
    assert_eq!(CellValue::DateTime(i64::MIN).as_string(&shortest), i64::MIN.to_string());
}

fn shortest(literal: &str) -> String {
    literal.parse::<f64>().unwrap().to_string()
}

#[test]
fn float_column_reads_back_the_normal_form_of_a_literal() {
    let mut column = FloatColumn::new("x");
    let cases = [
        ("0.0", "0"),
        ("10", "10"),
        ("10.50", "10.5"),
        ("+1e3", "1000"),
        ("-0.0", "-0"),
        (".5", "0.5"),
        ("0.1000000000000000055511151231257827", "0.1"),
        ("INF", "inf"),
        ("nan", "NaN"),
    ];
    for (literal, normal) in cases {
        assert_eq!(column.push(literal, &shortest), Ok(()));
        let last = column.len() - 1;
        assert_eq!(column.get_as_string(last), Ok(normal.to_string()));
        assert_eq!(column.push(normal, &shortest), Ok(()));
        assert_eq!(column.get_as_string(last + 1), Ok(normal.to_string()));
    }
    assert_eq!(column.len(), 18);
}

#[test]
fn float_column_rejects_what_is_no_number_before_it_is_normalised() {
    let mut column = FloatColumn::new("x");
    let never = |_: &str| -> String { panic!("called on what is no literal") };
    assert_eq!(column.push("ten", &never), Err(TableError::ParseError));
    assert_eq!(column.push("", &never), Err(TableError::ParseError));
    let broken = |_: &str| "?".to_string();
    assert_eq!(column.push("10", &broken), Err(TableError::ParseError));
    assert_eq!(column.len(), 0);
}

#[test]
fn a_copy_of_a_column_is_of_the_same_type() {
    let mut times = DateTimeColumn::new("at");
    times.push(7);
    let columns = vec![
        Column::Int(IntColumn::new("i")),
        Column::Float(FloatColumn::new("f")),
        Column::Text(StringColumn::new("t")),
        Column::DateTime(times),
    ];
    for column in &columns {
        for copy in [column.duplicate(), column.clone()] {
            let same = match (column, &copy) {
                (Column::Int(_), Column::Int(_)) => true,
                (Column::Float(_), Column::Float(_)) => true,
                (Column::Text(_), Column::Text(_)) => true,
                (Column::DateTime(_), Column::DateTime(_)) => true,
                _ => false,
            };
            assert!(same);
            assert_eq!(copy.name(), column.name());
            assert_eq!(copy.len(), column.len());
        }
    }
}
