use dm::columns::column::Column;
use dm::columns::column_trait::ColumnTrait;
use dm::columns::float_column::FloatColumn;
use dm::columns::int_column::IntColumn;
use dm::columns::string_column::StringColumn;
use dm::error::TableError;
use dm::methods::aggregation::{aggregate, aggregate_rows, AggregationType};
use dm::methods::group_by::group_by;
use dm::methods::pivot::pivot;
use dm::row::Row;
use dm::table::Table;

fn push(table: &mut Table, pairs: &[(&str, &str)]) -> Result<(), TableError> {
    table.push_row(&record(pairs), &shortest)
}

fn shortest(literal: &str) -> String {
    literal.parse::<f64>().unwrap().to_string()
}

fn float_sum(addends: &Vec<String>) -> String {
    let mut total = 0.0_f64;
    for text in addends {
        total += text.parse::<f64>().unwrap();
    }
    total.to_string()
}

fn record(pairs: &[(&str, &str)]) -> Row {
    let mut row = Row::new();
    for (name, value) in pairs {
        row.insert(name, value.to_string());
    }
    row
}

fn sales(rows: &[(&str, &str, &str)]) -> Table {
    let mut table = Table::new();
    table.add_column(Column::Text(StringColumn::new("region"))).unwrap();
    table.add_column(Column::Text(StringColumn::new("product"))).unwrap();
    table.add_column(Column::Float(FloatColumn::new("sales"))).unwrap();
    for (region, product, amount) in rows {
        push(&mut table, &[("region", region), ("product", product), ("sales", amount)])
            .unwrap();
    }
    table
}

fn sample() -> Table {
    sales(&[("North", "A", "10"), ("North", "A", "20"), ("South", "B", "5"), ("South", "B", "10")])
}

fn pivot_on(
    table: &Table,
    rows: &[&str],
    columns: &[&str],
    value: &str,
    agg: AggregationType,
) -> Result<Table, TableError> {
    pivot(table, rows, columns, value, agg, &float_sum, &shortest)
}

fn by_region_and_product(table: &Table, agg: AggregationType) -> Result<Table, TableError> {
    pivot_on(table, &["region"], &["product"], "sales", agg)
}

fn cells(table: &Table) -> Vec<Vec<String>> {
    (0..table.len())
        .map(|i| table.columns.iter().map(|c| c.get_as_string(i).unwrap()).collect())
        .collect()
}

fn strings(rows: &[&[&str]]) -> Vec<Vec<String>> {
    rows.iter().map(|r| r.iter().map(|s| s.to_string()).collect()).collect()
}

fn number(table: &Table, column: &str, row: usize) -> f64 {
    let c = table.get_column_index(column).unwrap();
    table.columns[c].get_as_string(row).unwrap().parse::<f64>().unwrap()
}

#[test]
fn pivot_sums_each_cell() {
    let pivoted = by_region_and_product(&sample(), AggregationType::Sum).unwrap();

    assert_eq!(pivoted.column_names(), vec!["region", "A_Sum", "B_Sum"]);
    assert_eq!(pivoted.len(), 2);
    assert_eq!(cells(&pivoted), strings(&[&["North", "30", "0"], &["South", "0", "15"]]));
    assert_eq!(number(&pivoted, "A_Sum", 0), 30.0);
    assert_eq!(number(&pivoted, "B_Sum", 0), 0.0);
    assert_eq!(number(&pivoted, "A_Sum", 1), 0.0);
    assert_eq!(number(&pivoted, "B_Sum", 1), 15.0);
    assert!(matches!(pivoted.columns[0], Column::Text(_)));
    assert!(matches!(pivoted.columns[1], Column::Float(_)));
    assert!(matches!(pivoted.columns[2], Column::Float(_)));
}

#[test]
fn pivot_counts_each_cell() {
    let pivoted = by_region_and_product(&sample(), AggregationType::Count).unwrap();

    assert_eq!(pivoted.column_names(), vec!["region", "A_Count", "B_Count"]);
    assert_eq!(cells(&pivoted), strings(&[&["North", "2", "0"], &["South", "0", "2"]]));
    assert_eq!(number(&pivoted, "A_Count", 0), 2.0);
}

#[test]
fn pivot_sorts_rows_and_columns_by_key() {
    let table = sales(&[
        ("West", "pear", "1"),
        ("East", "fig", "2"),
        ("West", "apple", "4"),
        ("North", "fig", "8"),
        ("East", "pear", "16"),
        ("East", "fig", "32"),
    ]);

    let pivoted = by_region_and_product(&table, AggregationType::Sum).unwrap();

    assert_eq!(pivoted.column_names(), vec!["region", "apple_Sum", "fig_Sum", "pear_Sum"]);
    assert_eq!(
        cells(&pivoted),
        strings(&[&["East", "0", "34", "16"], &["North", "0", "8", "0"], &["West", "4", "0", "1"]])
    );
}

#[test]
fn pivot_on_several_group_columns_joins_key_texts_with_a_bar() {
    let mut table = Table::new();
    table.add_column(Column::Text(StringColumn::new("year"))).unwrap();
    table.add_column(Column::Text(StringColumn::new("region"))).unwrap();
    table.add_column(Column::Text(StringColumn::new("product"))).unwrap();
    table.add_column(Column::Text(StringColumn::new("size"))).unwrap();
    table.add_column(Column::Int(IntColumn::new("units"))).unwrap();
    for (year, region, product, size, units) in [
        ("2024", "North", "A", "big", "3"),
        ("2023", "South", "A", "small", "4"),
        ("2024", "North", "A", "big", "5"),
        ("2023", "North", "B", "big", "6"),
    ] {
        push(&mut table, &[
                ("year", year),
                ("region", region),
                ("product", product),
                ("size", size),
                ("units", units),
            ])
            .unwrap();
    }

    let pivoted = pivot(
        &table,
        &["year", "region"],
        &["product", "size"],
        "units",
        AggregationType::Sum,
        &float_sum,
        &shortest,
    )
    .unwrap();

    assert_eq!(
        pivoted.column_names(),
        vec!["year", "region", "A|big_Sum", "A|small_Sum", "B|big_Sum"]
    );
    assert_eq!(
        cells(&pivoted),
        strings(&[
            &["2023", "North", "0", "0", "6"],
            &["2023", "South", "0", "4", "0"],
            &["2024", "North", "8", "0", "0"],
        ])
    );
}

#[test]
fn pivot_keeps_a_bar_inside_a_value_in_its_row() {
    let table = sales(&[("A|B", "x", "1"), ("A", "x", "2")]);

    let pivoted = by_region_and_product(&table, AggregationType::Sum).unwrap();

    assert_eq!(cells(&pivoted), strings(&[&["A", "2"], &["A|B", "1"]]));
}

#[test]
fn pivot_of_a_table_without_rows_has_the_group_columns_only() {
    let pivoted = by_region_and_product(&sales(&[]), AggregationType::Sum).unwrap();
    assert_eq!(pivoted.column_names(), vec!["region"]);
    assert_eq!(pivoted.len(), 0);
}

#[test]
fn pivot_fails_when_a_column_is_missing() {
    let table = sample();
    let agg = AggregationType::Sum;
    let missing = Some(TableError::ColumnNotFound);
    assert_eq!(pivot_on(&table, &["region"], &["product"], "price", agg).err(), missing);
    assert_eq!(pivot_on(&table, &["area"], &["product"], "sales", agg).err(), missing);
    assert_eq!(pivot_on(&table, &["region"], &["item"], "sales", agg).err(), missing);
}

#[test]
fn pivot_fails_when_two_result_columns_share_a_name() {
    let table = sample();
    let agg = AggregationType::Sum;
    assert_eq!(
        pivot_on(&table, &["region", "region"], &["product"], "sales", agg).err(),
        Some(TableError::DuplicateColumn)
    );
    let clash = sales(&[("North", "A", "1")]);
    let mut other = Table::new();
    other.add_column(Column::Text(StringColumn::new("A_Sum"))).unwrap();
    other.add_column(Column::Text(StringColumn::new("product"))).unwrap();
    other.add_column(Column::Float(FloatColumn::new("sales"))).unwrap();
    push(&mut other, &[("A_Sum", "x"), ("product", "A"), ("sales", "1")]).unwrap();
    assert_eq!(
        pivot_on(&other, &["A_Sum"], &["product"], "sales", AggregationType::Sum).err(),
        Some(TableError::DuplicateColumn)
    );
    assert!(by_region_and_product(&clash, AggregationType::Sum).is_ok());
}

#[test]
fn pivot_sum_fails_on_a_value_that_is_no_number() {
    let mut table = Table::new();
    table.add_column(Column::Text(StringColumn::new("region"))).unwrap();
    table.add_column(Column::Text(StringColumn::new("product"))).unwrap();
    table.add_column(Column::Text(StringColumn::new("sales"))).unwrap();
    push(&mut table, &[("region", "North"), ("product", "A"), ("sales", "10")]).unwrap();
    push(&mut table, &[("region", "North"), ("product", "A"), ("sales", "ten")]).unwrap();

    assert_eq!(
        by_region_and_product(&table, AggregationType::Sum).err(),
        Some(TableError::NonNumericValue)
    );
    let counted = by_region_and_product(&table, AggregationType::Count).unwrap();
    assert_eq!(cells(&counted), strings(&[&["North", "2"]]));
}

#[test]
fn pivot_fails_when_the_sum_is_no_number() {
    let broken = |_: &Vec<String>| "many".to_string();
    let agg = AggregationType::Sum;
    assert_eq!(
        pivot(&sample(), &["region"], &["product"], "sales", agg, &broken, &shortest).err(),
        Some(TableError::ParseError)
    );
}

#[test]
fn aggregate_rows_counts_and_sums() {
    let table = sample();
    let rows = [0usize, 1, 3];
    let count = AggregationType::Count;
    let sum = AggregationType::Sum;
    assert_eq!(aggregate_rows(&table, &rows, 2, count, &float_sum), Ok("3".to_string()));
    assert_eq!(aggregate_rows(&table, &rows, 2, sum, &float_sum), Ok("40".to_string()));
    assert_eq!(aggregate_rows(&table, &[], 2, sum, &float_sum), Ok("0".to_string()));
    assert_eq!(aggregate_rows(&table, &[], 2, count, &float_sum), Ok("0".to_string()));
}

#[test]
fn aggregate_rows_hands_the_addends_to_the_sum_in_order() {
    let table = sample();
    let listing = |xs: &Vec<String>| xs.join("+");
    assert_eq!(
        aggregate_rows(&table, &[3, 0, 2], 2, AggregationType::Sum, &listing),
        Ok("10+10+5".to_string())
    );
}

#[test]
fn aggregate_rows_reports_bad_positions_and_values() {
    let table = sample();
    assert_eq!(
        aggregate_rows(&table, &[0, 4], 2, AggregationType::Sum, &float_sum),
        Err(TableError::IndexError)
    );
    assert_eq!(
        aggregate_rows(&table, &[0, 1], 0, AggregationType::Sum, &float_sum),
        Err(TableError::NonNumericValue)
    );
    assert_eq!(
        aggregate_rows(&table, &[7, 0], 0, AggregationType::Sum, &float_sum),
        Err(TableError::IndexError)
    );
    assert_eq!(
        aggregate_rows(&table, &[0, 9], 0, AggregationType::Count, &float_sum),
        Ok("2".to_string())
    );
}

#[test]
fn aggregate_reduces_every_group() {
    let table = sample();
    let groups = group_by(&table, "region").unwrap();
    assert_eq!(
        aggregate(&table, &groups, "sales", AggregationType::Sum, &float_sum),
        Ok(vec!["30".to_string(), "15".to_string()])
    );
    assert_eq!(
        aggregate(&table, &groups, "sales", AggregationType::Count, &float_sum),
        Ok(vec!["2".to_string(), "2".to_string()])
    );
    assert_eq!(
        aggregate(&table, &groups, "price", AggregationType::Count, &float_sum),
        Err(TableError::ColumnNotFound)
    );
    assert_eq!(
        aggregate(&table, &groups, "product", AggregationType::Sum, &float_sum),
        Err(TableError::NonNumericValue)
    );
}

#[test]
fn aggregation_type_names() {
    assert_eq!(AggregationType::Sum.name(), "Sum");
    assert_eq!(AggregationType::Count.name(), "Count");
}

#[test]
fn the_sum_of_no_row_is_zero_and_needs_no_arithmetic() {
    let table = sample();
    let never_empty = |xs: &Vec<String>| {
        assert!(!xs.is_empty());
        float_sum(xs)
    };
    let agg = AggregationType::Sum;
    assert_eq!(
        aggregate_rows(&table, &[], 2, AggregationType::Sum, &never_empty),
        Ok("0".to_string())
    );
    assert_eq!(
        aggregate_rows(&table, &[1], 2, AggregationType::Sum, &never_empty),
        Ok("20".to_string())
    );
    let pivoted =
        pivot(&table, &["region"], &["product"], "sales", agg, &never_empty, &shortest);
    assert_eq!(cells(&pivoted.unwrap()), strings(&[&["North", "30", "0"], &["South", "0", "15"]]));
}

#[test]
fn pivot_agrees_with_sums_made_row_by_row() {
    let regions = ["North", "South", "East", "West", "N|W", ""];
    let products = ["A", "B", "C", "a", "AB"];
    let mut state: u32 = 2024;
    let mut next = move |bound: u32| {
        state = state.wrapping_mul(1664525).wrapping_add(1013904223);
        (state >> 16) % bound
    };
    for round in 0..10 {
        let mut rows: Vec<(String, String, u32)> = Vec::new();
        for _ in 0..(5 + round * 7) {
            let region = regions[next(regions.len() as u32) as usize].to_string();
            let product = products[next(products.len() as u32) as usize].to_string();
            rows.push((region, product, next(100)));
        }
        let mut table = Table::new();
        table.add_column(Column::Text(StringColumn::new("region"))).unwrap();
        table.add_column(Column::Text(StringColumn::new("product"))).unwrap();
        table.add_column(Column::Int(IntColumn::new("sales"))).unwrap();
        for (region, product, sales) in &rows {
            push(&mut table, &[
                    ("region", region),
                    ("product", product),
                    ("sales", &sales.to_string()),
                ])
                .unwrap();
        }

        let mut row_keys: Vec<&String> = rows.iter().map(|r| &r.0).collect();
        row_keys.sort();
        row_keys.dedup();
        let mut col_keys: Vec<&String> = rows.iter().map(|r| &r.1).collect();
        col_keys.sort();
        col_keys.dedup();

        for agg in [AggregationType::Sum, AggregationType::Count] {
            let pivoted = by_region_and_product(&table, agg).unwrap();
            let mut names = vec!["region".to_string()];
            for ck in &col_keys {
                names.push(format!("{}_{}", ck, agg.name()));
            }
            assert_eq!(pivoted.column_names(), names);
            let mut expected: Vec<Vec<String>> = Vec::new();
            for rk in &row_keys {
                let mut line = vec![rk.to_string()];
                for ck in &col_keys {
                    let cell: Vec<u32> = rows
                        .iter()
                        .filter(|r| &&r.0 == rk && &&r.1 == ck)
                        .map(|r| r.2)
                        .collect();
                    let number = match agg {
                        AggregationType::Sum => cell.iter().sum::<u32>(),
                        AggregationType::Count => cell.len() as u32,
                    };
                    line.push(number.to_string());
                }
                expected.push(line);
            }
            assert_eq!(cells(&pivoted), expected);
        }
    }
}

#[test]
fn pivot_holds_each_number_in_normal_form() {
    let table = sample();
    let one_decimal = |xs: &Vec<String>| {
        let total: f64 = xs.iter().map(|x| x.parse::<f64>().unwrap()).sum();
        format!("{:.1}", total)
    };
    let agg = AggregationType::Sum;
    let normal = pivot(&table, &["region"], &["product"], "sales", agg, &one_decimal, &shortest);
    assert_eq!(cells(&normal.unwrap()), strings(&[&["North", "30", "0"], &["South", "0", "15"]]));
    let padded = |literal: &str| format!("{:.2}", literal.parse::<f64>().unwrap());
    let count = AggregationType::Count;
    let counted = pivot(&table, &["region"], &["product"], "sales", count, &float_sum, &padded);
    assert_eq!(
        cells(&counted.unwrap()),
        strings(&[&["North", "2.00", "0.00"], &["South", "0.00", "2.00"]])
    );
    let broken = |_: &str| "?".to_string();
    let failed = pivot(&table, &["region"], &["product"], "sales", count, &float_sum, &broken);
    assert_eq!(failed.err(), Some(TableError::ParseError));
}
