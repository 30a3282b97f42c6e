use rand::rngs::StdRng;
use rand::SeedableRng;
use sales_regression::cleaning::clean_data;
use sales_regression::extract::{extract_features_and_target, shuffled_features_and_target};
use sales_regression::publishers::{add_publisher_rating, group_ratings, PublisherRating};
use sales_regression::record::Record;
use sales_regression::schema::{features, required, target, DataError, Field};
use sales_regression::shape::uniform_width;

fn row(year: &str, rating: &str, gross: &str, price: &str, publisher_rating: &str, units: &str) -> Record {
    let mut r = Record::new();
    for (k, v) in [
        ("units sold", units),
        ("Publisher_rating", publisher_rating),
        ("sale price", price),
        ("gross sales", gross),
        ("Book_average_rating", rating),
        ("Publishing Year", year),
        ("Publisher", "P"),
    ] {
        r.insert(k.to_string(), v.to_string());
    }
    r
}

fn numbered(i: usize) -> Record {
    row(
        &format!("{}", 1900 + i),
        &format!("{}.5", i % 5),
        &format!("{}e2", i),
        &format!(".{}", i),
        &format!("{}.", i),
        &format!("{}", i),
    )
}

fn strings(values: &[&str]) -> Vec<String> {
    values.iter().map(|v| v.to_string()).collect()
}

#[test]
fn feature_columns_stand_in_their_fixed_order() {
    let names: Vec<&str> = features().into_iter().map(|f| f.as_str()).collect();
    assert_eq!(
        names,
        vec![
            "Publishing Year",
            "Book_average_rating",
            "gross sales",
            "sale price",
            "Publisher_rating"
        ]
    );
    assert_eq!(target(), Field::UnitsSold);
    assert_eq!(target().as_str(), "units sold");
    assert_eq!(Field::SalesRank.as_str(), "sales rank");
    assert_eq!(Field::Publisher.as_str(), "Publisher");
    assert_eq!(required().len(), 7);
}

#[test]
fn extraction_projects_in_column_order() {
    let data = vec![
        row("2001", "4.5", "100.0", "9.99", "4.25", "10"),
        row("1999", "3", "2e3", ".5", "3.", "-7"),
    ];
    let (features, target) = extract_features_and_target(&data).unwrap();
    assert_eq!(
        features,
        vec![
            strings(&["2001", "4.5", "100.0", "9.99", "4.25"]),
            strings(&["1999", "3", "2e3", ".5", "3."]),
        ]
    );
    assert_eq!(target, strings(&["10", "-7"]));
}

#[test]
fn extracted_text_converts_to_numbers() {
    let data: Vec<Record> = (0..20).map(numbered).collect();
    let (features, target) = extract_features_and_target(&data).unwrap();
    assert_eq!(features.len(), 20);
    assert_eq!(target.len(), 20);
    for (i, f) in features.iter().enumerate() {
        assert_eq!(f.len(), 5);
        let values: Vec<f64> = f.iter().map(|v| v.parse::<f64>().unwrap()).collect();
        assert_eq!(values[0], 1900.0 + i as f64);
        assert_eq!(values[2], 100.0 * i as f64);
        assert_eq!(values[4], i as f64);
        assert_eq!(target[i].parse::<f64>().unwrap(), i as f64);
    }
}

#[test]
fn extraction_of_nothing_is_empty() {
    assert_eq!(extract_features_and_target(&Vec::new()), Ok((Vec::new(), Vec::new())));
}

#[test]
fn extraction_reports_text_that_is_no_number() {
    let data = vec![
        row("2001", "4.5", "100.0", "9.99", "4.25", "10"),
        row("2002", "4.5", "a lot", "9.99", "4.25", "10"),
    ];
    assert_eq!(
        extract_features_and_target(&data),
        Err(DataError::InvalidNumber { record: 1, field: Field::GrossSales })
    );
}

#[test]
fn extraction_reports_the_first_bad_column_of_the_first_bad_row() {
    let data = vec![
        row("2001", "4.5", "100.0", "9.99", "4.25", "10"),
        row("2002", "4.5", "1", "cheap", "good", "10"),
        row("then", "4.5", "1", "1", "1", "10"),
    ];
    assert_eq!(
        extract_features_and_target(&data),
        Err(DataError::InvalidNumber { record: 1, field: Field::SalePrice })
    );
}

#[test]
fn extraction_looks_at_all_features_before_any_target() {
    let data = vec![
        row("2001", "4.5", "100.0", "9.99", "4.25", "ten"),
        row("2002", "4.5", "1", "1", "fine", "10"),
    ];
    assert_eq!(
        extract_features_and_target(&data),
        Err(DataError::InvalidNumber { record: 1, field: Field::PublisherRating })
    );
}

#[test]
fn extraction_reports_a_bad_target() {
    let data = vec![
        row("2001", "4.5", "100.0", "9.99", "4.25", "10"),
        row("2002", "4.5", "1", "1", "1", ""),
    ];
    assert_eq!(
        extract_features_and_target(&data),
        Err(DataError::InvalidNumber { record: 1, field: Field::UnitsSold })
    );
}

#[test]
fn extraction_needs_the_publisher_rating() {
    let mut r = Record::new();
    for (k, v) in [
        ("Publishing Year", "2001"),
        ("Book_average_rating", "4"),
        ("gross sales", "1"),
        ("sale price", "1"),
        ("units sold", "1"),
    ] {
        r.insert(k.to_string(), v.to_string());
    }
    assert_eq!(
        extract_features_and_target(&vec![r]),
        Err(DataError::MissingField { record: 0, field: Field::PublisherRating })
    );
}

#[test]
fn sales_rank_and_publisher_are_not_extracted() {
    let mut r = row("2001", "4.5", "100.0", "9.99", "4.25", "10");
    r.insert("sales rank".to_string(), "first".to_string());
    assert!(extract_features_and_target(&vec![r]).is_ok());
}

#[test]
fn shuffling_keeps_every_row_with_its_target() {
    let data: Vec<Record> = (0..50).map(numbered).collect();
    let mut rng = StdRng::seed_from_u64(11);
    let (features, target) = shuffled_features_and_target(&data, &mut rng).unwrap();
    assert_eq!(features.len(), 50);
    assert_eq!(target.len(), 50);
    let mut seen = vec![false; 50];
    for (f, t) in features.iter().zip(&target) {
        let i: usize = t.parse().unwrap();
        assert!(!seen[i]);
        seen[i] = true;
        let (expected, _) = extract_features_and_target(&vec![numbered(i)]).unwrap();
        assert_eq!(f, &expected[0]);
    }
    assert!(seen.iter().all(|s| *s));
}

#[test]
fn shuffling_changes_the_order() {
    let data: Vec<Record> = (0..100).map(numbered).collect();
    let (_, plain) = extract_features_and_target(&data).unwrap();
    let mut rng = StdRng::seed_from_u64(2024);
    let (_, shuffled) = shuffled_features_and_target(&data, &mut rng).unwrap();
    assert_ne!(shuffled, plain);
    let mut sorted = shuffled.clone();
    sorted.sort_by_key(|t| t.parse::<usize>().unwrap());
    assert_eq!(sorted, plain);
}

#[test]
fn the_same_seed_gives_the_same_order() {
    let data: Vec<Record> = (0..30).map(numbered).collect();
    let first = shuffled_features_and_target(&data, &mut StdRng::seed_from_u64(5)).unwrap();
    let again = shuffled_features_and_target(&data, &mut StdRng::seed_from_u64(5)).unwrap();
    let other = shuffled_features_and_target(&data, &mut StdRng::seed_from_u64(6)).unwrap();
    assert_eq!(first, again);
    assert_ne!(first, other);
}

#[test]
fn shuffling_reports_faults_by_the_order_given() {
    let mut data: Vec<Record> = (0..40).map(numbered).collect();
    data[17].insert("sale price".to_string(), "n/a".to_string());
    data[31].insert("Publishing Year".to_string(), "MMXX".to_string());
    for seed in 0..10 {
        assert_eq!(
            shuffled_features_and_target(&data, &mut StdRng::seed_from_u64(seed)),
            Err(DataError::InvalidNumber { record: 17, field: Field::SalePrice })
        );
    }
}

#[test]
fn shuffling_nothing_or_one_row() {
    let mut rng = StdRng::seed_from_u64(1);
    assert_eq!(shuffled_features_and_target(&Vec::new(), &mut rng), Ok((Vec::new(), Vec::new())));
    let one = vec![numbered(3)];
    assert_eq!(
        shuffled_features_and_target(&one, &mut rng),
        extract_features_and_target(&one)
    );
}

#[test]
fn uniform_width_of_tables() {
    assert_eq!(uniform_width(&Vec::<Vec<u8>>::new()), None);
    assert_eq!(uniform_width(&vec![Vec::<u8>::new()]), Some(0));
    assert_eq!(uniform_width(&vec![vec![1, 2, 3]]), Some(3));
    assert_eq!(uniform_width(&vec![vec![1.0, 2.0], vec![3.0, 4.0], vec![5.0, 6.0]]), Some(2));
    assert_eq!(uniform_width(&vec![vec![1, 2], vec![3]]), None);
    assert_eq!(uniform_width(&vec![vec![1], vec![2, 3]]), None);
    assert_eq!(uniform_width(&vec![vec![1, 2], vec![3, 4], vec![]]), None);
}

#[test]
fn two_publishers_five_records_end_to_end() {
    let mut raw = Vec::new();
    let lines = [
        (" 2001 ", "4.0", "100.0", "10.0", "3", "North", "10"),
        ("2005", "3.0", "250.5", "5.5", "1", "South ", "45"),
        ("1998", " 5.0", "80.0", "8.0", "7", "North", "10"),
        ("2010", "4.5", "", "12.0", "2", "South", "3"),
        ("2012", "2.0", "60.25", "3.25", "9", "South", "20"),
        ("1987", "3.5", "990.0", "30.0", "4", " North", "33"),
    ];
    for (year, rating, gross, price, rank, publisher, units) in lines {
        let mut r = Record::new();
        for (k, v) in [
            ("Publishing Year", year),
            ("Book_average_rating ", rating),
            ("gross sales", gross),
            (" sale price", price),
            ("sales rank", rank),
            ("Publisher", publisher),
            ("units sold", units),
        ] {
            r.insert(k.to_string(), v.to_string());
        }
        raw.push(r);
    }
    let cleaned = clean_data(raw);
    assert_eq!(cleaned.len(), 5);

    let groups = group_ratings(&cleaned).unwrap();
    assert_eq!(groups.len(), 2);
    let mut ratings = Vec::new();
    for g in &groups {
        let sum: f64 = g.ratings.iter().map(|r| r.parse::<f64>().unwrap()).sum();
        let average = sum / g.ratings.len() as f64;
        ratings.push(PublisherRating { publisher: g.publisher.clone(), rating: average.to_string() });
    }
    assert_eq!(ratings[0], PublisherRating { publisher: "North".into(), rating: "4.166666666666667".into() });
    assert_eq!(ratings[1], PublisherRating { publisher: "South".into(), rating: "2.5".into() });

    let enriched = add_publisher_rating(&cleaned, &ratings).unwrap();
    assert_eq!(enriched.len(), 5);
    assert_eq!(enriched[0].get("Publisher_rating"), Some(&"4.166666666666667".to_string()));
    assert_eq!(enriched[1].get("Publisher_rating"), Some(&"2.5".to_string()));

    let mut rng = StdRng::seed_from_u64(42);
    let (features, target) = shuffled_features_and_target(&enriched, &mut rng).unwrap();
    assert_eq!(features.len(), cleaned.len());
    assert_eq!(target.len(), cleaned.len());
    assert_eq!(uniform_width(&features), Some(5));
    for (f, t) in features.iter().zip(&target) {
        for value in f {
            assert!(value.parse::<f64>().unwrap().is_finite());
        }
        assert!(t.parse::<f64>().unwrap().is_finite());
        let north = f[4] == "4.166666666666667";
        assert!(north || f[4] == "2.5");
    }
    let mut units: Vec<f64> = target.iter().map(|t| t.parse().unwrap()).collect();
    units.sort_by(|a, b| a.partial_cmp(b).unwrap());
    assert_eq!(units, vec![10.0, 10.0, 20.0, 33.0, 45.0]);
}
