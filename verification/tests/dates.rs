use netflixgraph::dates::{count_year_additions, date_column, tally_years};

#[test]
fn test_count_year_additions() {
    let dates: Vec<Option<String>> = vec![
        Some("September 25, 2021".to_string()),
        Some("September 24, 2021".to_string()),
        Some("September 23, 2021".to_string()),
        Some("Invalid Date".to_string()),
    ];
    let (counts, missing) = count_year_additions(&dates);

    // is the year correctly counted?
    assert_eq!(counts, vec![(2021, 3)]);

    // are invalid dates counted as missing, not as a year?
    assert_eq!(missing, 1);
    assert!(!counts.iter().any(|&(year, _)| year == 2020));
}

#[test]
fn test_parse_exact_year() {
    let dates: Vec<Option<String>> = vec![Some("January 1, 1999".to_string())];
    let (counts, missing) = count_year_additions(&dates);
    assert_eq!(counts, vec![(1999, 1)]);
    assert_eq!(missing, 0);
}

#[test]
fn test_absent_dates_are_missing() {
    let dates: Vec<Option<String>> = vec![None, Some("not a date".to_string()), None];
    let (counts, missing) = count_year_additions(&dates);
    assert!(counts.is_empty());
    assert_eq!(missing, 3);
}

#[test]
fn test_tally_years_counts_each_year_once() {
    let years: Vec<Option<i32>> = vec![Some(2020), Some(2020), None, Some(2019), Some(2020)];
    let (counts, missing) = tally_years(&years);
    assert_eq!(counts, vec![(2020, 3), (2019, 1)]);
    assert_eq!(missing, 1);
}

#[test]
fn test_date_column_takes_seventh_field() {
    let fields: Vec<String> = vec![
        "data1".to_string(),
        "data2".to_string(),
        "data3".to_string(),
        "data4".to_string(),
        "data5".to_string(),
        "data6".to_string(),
        "2021-09-01".to_string(),
    ];
    assert_eq!(date_column(&fields), "2021-09-01");

    let short: Vec<String> = vec!["data1".to_string()];
    assert_eq!(date_column(&short), "");
}
