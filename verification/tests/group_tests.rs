use dm::columns::column::Column;
use dm::columns::column_trait::ColumnTrait;
use dm::columns::int_column::IntColumn;
use dm::columns::string_column::StringColumn;
use dm::error::TableError;
use dm::group_index::{keys_equal, GroupIndex};
use dm::grouping::key_to_text;
use dm::methods::group_by::group_by;
use dm::row::Row;
use dm::table::Table;

fn push(table: &mut Table, pairs: &[(&str, &str)]) -> Result<(), TableError> {
    table.push_row(&record(pairs), &shortest)
}

fn shortest(literal: &str) -> String {
    literal.parse::<f64>().unwrap().to_string()
}

fn key(parts: &[&str]) -> Vec<String> {
    parts.iter().map(|s| s.to_string()).collect()
}

fn record(pairs: &[(&str, &str)]) -> Row {
    let mut row = Row::new();
    for (name, value) in pairs {
        row.insert(name, value.to_string());
    }
    row
}

fn orders() -> Table {
    let mut table = Table::new();
    table.add_column(Column::Text(StringColumn::new("region"))).unwrap();
    table.add_column(Column::Text(StringColumn::new("product"))).unwrap();
    table.add_column(Column::Int(IntColumn::new("units"))).unwrap();
    for (region, product, units) in [
        ("North", "A", "1"),
        ("South", "B", "2"),
        ("North", "B", "3"),
        ("East", "A", "1"),
        ("North", "A", "5"),
        ("South", "B", "01"),
    ] {
        push(&mut table, &[("region", region), ("product", product), ("units", units)])
            .unwrap();
    }
    table
}

#[test]
fn group_by_lists_keys_in_order_of_first_appearance() {
    let index = group_by(&orders(), "region").unwrap();
    assert_eq!(index.len(), 3);
    assert_eq!(index.key(0), &key(&["North"]));
    assert_eq!(index.key(1), &key(&["South"]));
    assert_eq!(index.key(2), &key(&["East"]));
    assert_eq!(index.bucket(0), &vec![0, 2, 4]);
    assert_eq!(index.bucket(1), &vec![1, 5]);
    assert_eq!(index.bucket(2), &vec![3]);
}

#[test]
fn every_row_is_in_exactly_one_bucket_under_its_own_key() {
    let table = orders();
    for column in ["region", "product", "units"] {
        let index = group_by(&table, column).unwrap();
        let c = table.get_column_index(column).unwrap();
        for row in 0..table.len() {
            let own = vec![table.columns[c].get_as_string(row).unwrap()];
            let mut holding = 0;
            for g in 0..index.len() {
                let times = index.bucket(g).iter().filter(|r| **r == row).count();
                if times > 0 {
                    assert_eq!(times, 1);
                    assert_eq!(index.key(g), &own);
                    holding += 1;
                }
            }
            assert_eq!(holding, 1);
            assert!(index.get(&own).unwrap().contains(&row));
        }
    }
}

#[test]
fn group_by_keys_are_the_text_forms_of_the_values() {
    let index = group_by(&orders(), "units").unwrap();
    assert_eq!(index.len(), 4);
    assert_eq!(index.get(&key(&["1"])), Some(&vec![0, 3, 5]));
    assert_eq!(index.get(&key(&["2"])), Some(&vec![1]));
    assert_eq!(index.get(&key(&["01"])), None);
}

#[test]
fn group_by_fails_on_a_missing_column() {
    assert_eq!(group_by(&orders(), "colour").err(), Some(TableError::ColumnNotFound));
    assert_eq!(orders().create_index("colour").err(), Some(TableError::ColumnNotFound));
    assert_eq!(
        orders().create_multi_index(&["region", "colour"]).err(),
        Some(TableError::ColumnNotFound)
    );
}

#[test]
fn group_by_of_a_table_without_rows_has_no_keys() {
    let mut table = Table::new();
    table.add_string_column("region").unwrap();
    let index = group_by(&table, "region").unwrap();
    assert_eq!(index.len(), 0);
    assert_eq!(index.get(&key(&["North"])), None);
}

#[test]
fn create_index_is_group_by() {
    let table = orders();
    let a = table.create_index("product").unwrap();
    let b = group_by(&table, "product").unwrap();
    assert_eq!(a.len(), 2);
    assert_eq!(b.len(), 2);
    for g in 0..2 {
        assert_eq!(a.key(g), b.key(g));
        assert_eq!(a.bucket(g), b.bucket(g));
    }
    assert_eq!(a.bucket(0), &vec![0, 3, 4]);
    assert_eq!(a.bucket(1), &vec![1, 2, 5]);
}

#[test]
fn create_multi_index_keys_hold_one_text_for_each_column() {
    let index = orders().create_multi_index(&["region", "product"]).unwrap();
    assert_eq!(index.len(), 4);
    assert_eq!(index.key(0), &key(&["North", "A"]));
    assert_eq!(index.key(1), &key(&["South", "B"]));
    assert_eq!(index.key(2), &key(&["North", "B"]));
    assert_eq!(index.key(3), &key(&["East", "A"]));
    assert_eq!(index.get(&key(&["North", "A"])), Some(&vec![0, 4]));
    assert_eq!(index.get(&key(&["South", "B"])), Some(&vec![1, 5]));
    assert_eq!(index.get(&key(&["A", "North"])), None);
    assert_eq!(index.get(&key(&["North"])), None);

    let swapped = orders().create_multi_index(&["product", "region"]).unwrap();
    assert_eq!(swapped.get(&key(&["A", "North"])), Some(&vec![0, 4]));
}

#[test]
fn create_multi_index_over_no_column_has_one_empty_key() {
    let index = orders().create_multi_index(&[]).unwrap();
    assert_eq!(index.len(), 1);
    assert_eq!(index.key(0), &Vec::<String>::new());
    assert_eq!(index.bucket(0), &vec![0, 1, 2, 3, 4, 5]);
}

#[test]
fn composite_keys_do_not_collide_on_the_separator() {
    let mut table = Table::new();
    table.add_string_column("a").unwrap();
    table.add_string_column("b").unwrap();
    push(&mut table, &[("a", "A|B"), ("b", "C")]).unwrap();
    push(&mut table, &[("a", "A"), ("b", "B|C")]).unwrap();
    let index = table.create_multi_index(&["a", "b"]).unwrap();
    assert_eq!(index.len(), 2);
    assert_eq!(index.get(&key(&["A|B", "C"])), Some(&vec![0]));
    assert_eq!(index.get(&key(&["A", "B|C"])), Some(&vec![1]));
    assert_eq!(key_to_text(index.key(0)), key_to_text(index.key(1)));
}

#[test]
fn group_index_collects_rows_under_their_keys() {
    let mut index = GroupIndex::new();
    assert_eq!(index.len(), 0);
    index.add_row(key(&["x"]), 7);
    index.add_row(key(&["y"]), 3);
    index.add_row(key(&["x"]), 1);
    index.add_row(key(&["x"]), 7);
    assert_eq!(index.len(), 2);
    assert_eq!(index.position(&key(&["x"])), Some(0));
    assert_eq!(index.position(&key(&["y"])), Some(1));
    assert_eq!(index.position(&key(&["z"])), None);
    assert_eq!(index.get(&key(&["x"])), Some(&vec![7, 1, 7]));
    assert_eq!(index.get(&key(&["y"])), Some(&vec![3]));
    assert_eq!(index.get(&key(&["z"])), None);
    assert_eq!(index.key(1), &key(&["y"]));
    assert_eq!(index.bucket(1), &vec![3]);
}

#[test]
fn keys_are_equal_text_by_text() {
    assert!(keys_equal(&key(&[]), &key(&[])));
    assert!(keys_equal(&key(&["a", "b"]), &key(&["a", "b"])));
    assert!(!keys_equal(&key(&["a", "b"]), &key(&["b", "a"])));
    assert!(!keys_equal(&key(&["a"]), &key(&["a", ""])));
    assert!(!keys_equal(&key(&["ab"]), &key(&["a", "b"])));
    assert!(!keys_equal(&key(&["é"]), &key(&["e"])));
}

#[test]
fn the_text_form_of_a_key_joins_its_texts_with_bars() {
    assert_eq!(key_to_text(&key(&[])), "");
    assert_eq!(key_to_text(&key(&["North"])), "North");
    assert_eq!(key_to_text(&key(&["North", "A"])), "North|A");
    assert_eq!(key_to_text(&key(&["", "", ""])), "||");
    assert_eq!(key_to_text(&key(&["a|b", "c"])), "a|b|c");
}

#[test]
fn keys_with_the_same_hash_are_kept_apart() {
    let mut index = GroupIndex::new();
    index.add_row(key(&["Aa"]), 0);
    index.add_row(key(&["BB"]), 1);
    index.add_row(key(&["Aa"]), 2);
    index.add_row(key(&["AaAa", "x"]), 3);
    index.add_row(key(&["BBBB", "x"]), 4);
    index.add_row(key(&["AaBB", "x"]), 5);
    index.add_row(key(&["BBBB", "x"]), 6);
    assert_eq!(index.len(), 5);
    assert_eq!(index.get(&key(&["Aa"])), Some(&vec![0, 2]));
    assert_eq!(index.get(&key(&["BB"])), Some(&vec![1]));
    assert_eq!(index.get(&key(&["AaAa", "x"])), Some(&vec![3]));
    assert_eq!(index.get(&key(&["BBBB", "x"])), Some(&vec![4, 6]));
    assert_eq!(index.get(&key(&["AaBB", "x"])), Some(&vec![5]));
    assert_eq!(index.get(&key(&["BBAa", "x"])), None);
    assert_eq!(index.position(&key(&["BB"])), Some(1));
    assert_eq!(index.position(&key(&["C#"])), None);
}

#[test]
fn a_large_table_is_grouped_by_its_keys() {
    let mut table = Table::new();
    table.add_string_column("k").unwrap();
    let rows = 3000;
    let distinct = 700;
    for i in 0..rows {
        push(&mut table, &[("k", &format!("key-{}", (i * 7919) % distinct))]).unwrap();
    }
    let index = group_by(&table, "k").unwrap();
    assert_eq!(index.len(), distinct);
    let mut seen = 0;
    for g in 0..index.len() {
        let bucket = index.bucket(g);
        seen += bucket.len();
        for r in bucket {
            assert_eq!(index.key(g), &key(&[&format!("key-{}", (r * 7919) % distinct)]));
        }
    }
    assert_eq!(seen, rows);
}
