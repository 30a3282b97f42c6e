use sales_regression::cleaning::{clean_data, clean_record, complete, filled};
use sales_regression::record::Record;
use sales_regression::schema::{required, Field};

fn record(pairs: &[(&str, &str)]) -> Record {
    let mut r = Record::new();
    for (k, v) in pairs {
        r.insert(k.to_string(), v.to_string());
    }
    r
}

fn full_row(publisher: &str, units: &str) -> Vec<(&'static str, String)> {
    vec![
        ("Publishing Year", "2001".to_string()),
        ("Book_average_rating", "4.1".to_string()),
        ("gross sales", "1200.5".to_string()),
        ("sale price", "9.99".to_string()),
        ("sales rank", "3".to_string()),
        ("Publisher", publisher.to_string()),
        ("units sold", units.to_string()),
    ]
}

fn from_row(row: &[(&'static str, String)]) -> Record {
    let mut r = Record::new();
    for (k, v) in row {
        r.insert(k.to_string(), v.clone());
    }
    r
}

#[test]
fn required_fields_are_the_seven() {
    let names: Vec<&str> = required().into_iter().map(|f| f.as_str()).collect();
    assert_eq!(
        names,
        vec![
            "Publishing Year",
            "Book_average_rating",
            "gross sales",
            "sale price",
            "sales rank",
            "Publisher",
            "units sold",
        ]
    );
}

#[test]
fn clean_record_trims_names_and_values() {
    let r = record(&[(" Publisher ", "  Penguin Books\t"), ("units sold", " 12 ")]);
    let c = clean_record(&r);
    assert_eq!(c, record(&[("Publisher", "Penguin Books"), ("units sold", "12")]));
}

#[test]
fn clean_record_lets_the_later_of_two_equal_names_win() {
    let r = record(&[("a", "1"), ("b", "2"), (" a", " 3 ")]);
    let c = clean_record(&r);
    assert_eq!(c, record(&[("a", "3"), ("b", "2")]));
    assert_eq!(c.key_at(0), "a");
}

#[test]
fn filled_wants_a_value_that_is_not_empty() {
    let r = record(&[("Publisher", "P"), ("units sold", "")]);
    assert!(filled(&r, Field::Publisher));
    assert!(!filled(&r, Field::UnitsSold));
    assert!(!filled(&r, Field::SalesRank));
}

#[test]
fn complete_wants_all_seven() {
    let row = full_row("P", "5");
    assert!(complete(&from_row(&row)));
    for skip in 0..row.len() {
        let mut partial = row.clone();
        partial.remove(skip);
        assert!(!complete(&from_row(&partial)), "without {}", row[skip].0);
        let mut blank = row.clone();
        blank[skip].1 = String::new();
        assert!(!complete(&from_row(&blank)), "blank {}", row[skip].0);
    }
}

#[test]
fn complete_ignores_the_derived_column() {
    let mut r = from_row(&full_row("P", "5"));
    assert!(complete(&r));
    r.insert("Publisher_rating".to_string(), "".to_string());
    assert!(complete(&r));
}

#[test]
fn clean_data_keeps_complete_rows_in_order() {
    let a = from_row(&full_row("A", "1"));
    let mut b = full_row("B", "2");
    b[4].1 = "".to_string();
    let c = from_row(&full_row("C", "3"));
    let mut d = full_row("D", "4");
    d.remove(0);
    let e = from_row(&full_row("E", "5"));
    let cleaned = clean_data(vec![a.clone(), from_row(&b), c.clone(), from_row(&d), e.clone()]);
    assert_eq!(cleaned, vec![a, c, e]);
}

#[test]
fn clean_data_drops_rows_that_are_blank_after_trimming() {
    let mut blank = full_row("A", "1");
    blank[5].1 = " \t ".to_string();
    let kept = from_row(&full_row(" B ", " 2"));
    let cleaned = clean_data(vec![from_row(&blank), kept]);
    assert_eq!(cleaned.len(), 1);
    assert_eq!(cleaned[0].get("Publisher"), Some(&"B".to_string()));
    assert_eq!(cleaned[0].get("units sold"), Some(&"2".to_string()));
}

#[test]
fn clean_data_finds_required_names_under_padding() {
    let mut r = Record::new();
    for (k, v) in full_row("A", "1") {
        r.insert(format!("  {} ", k), format!(" {}  ", v));
    }
    assert!(!complete(&r));
    let cleaned = clean_data(vec![r]);
    assert_eq!(cleaned, vec![from_row(&full_row("A", "1"))]);
}

#[test]
fn clean_data_leaves_no_padding() {
    let mut r = Record::new();
    for (k, v) in full_row("A", "1") {
        r.insert(format!("\u{a0}{}\n", k), format!("\t{} ", v));
    }
    r.insert(" extra ".to_string(), "  ".to_string());
    let cleaned = clean_data(vec![r]);
    assert_eq!(cleaned.len(), 1);
    let row = &cleaned[0];
    assert_eq!(row.len(), 8);
    for i in 0..row.len() {
        assert_eq!(row.key_at(i).trim(), row.key_at(i));
        assert_eq!(row.value_at(i).trim(), row.value_at(i));
    }
    assert_eq!(row.get("extra"), Some(&String::new()));
}

#[test]
fn clean_data_keeps_text_that_is_no_number() {
    let row = from_row(&full_row("A", "many"));
    let cleaned = clean_data(vec![row.clone()]);
    assert_eq!(cleaned, vec![row]);
}

#[test]
fn clean_data_of_nothing_is_nothing() {
    assert_eq!(clean_data(Vec::new()), Vec::<Record>::new());
    assert_eq!(clean_data(vec![Record::new()]), Vec::<Record>::new());
}

#[test]
fn cleaning_twice_changes_nothing() {
    let mut r = Record::new();
    for (k, v) in full_row(" A", "1 ") {
        r.insert(format!(" {}", k), v);
    }
    let once = clean_data(vec![r, Record::new()]);
    let twice = clean_data(once.clone());
    assert_eq!(once, twice);
}
