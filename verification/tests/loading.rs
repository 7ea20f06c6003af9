use movie_catalog::csv_input::load;
use movie_catalog::loader::{load_rows, validate_row};
use movie_catalog::numbers::{parse_int_in_range, parse_rating_tenths, u32_to_decimal};
use movie_catalog::record::SkipReason;
use movie_catalog::trim;

fn row(fields: &[&str]) -> Vec<Vec<u8>> {
    fields.iter().map(|f| f.as_bytes().to_vec()).collect()
}

fn sample_csv() -> Vec<u8> {
    let text = "Title,Year,Languages,Rating\n\
                The Shawshank Redemption,1994,[English],9.3\n\
                The Godfather,1972,[English;Italian],9.2\n\
                The Dark Knight,2008,[English;Mandarin],9.0\n\
                12 Angry Men,1957,[English],8.9\n\
                Schindler's List,1993,[English;German;Polish],8.9\n";
    text.as_bytes().to_vec()
}

#[test]
fn test_read_csv_valid_file() {
    let result = load(&sample_csv());
    assert!(result.is_ok());
    let (movies, skips) = result.unwrap();
    assert_eq!(movies.len(), 5);
    assert!(skips.is_empty());
}

#[test]
fn load_parses_fields_not_raw_text() {
    // a quoted title holding the delimiter: the CSV reader must
    // unquote it, so a loader that echoed raw text would fail here
    let text = "Title,Year,Languages,Rating\n\"Movie, The\",1994,[English],9.3\n";
    let (movies, _) = load(&text.as_bytes().to_vec()).unwrap();
    assert_eq!(movies.len(), 1);
    assert_eq!(movies[0].title, b"Movie, The".to_vec());
    assert_eq!(movies[0].year, 1994);
    assert_eq!(movies[0].languages, vec![b"English".to_vec()]);
    assert_eq!(movies[0].rating_tenths, 93);
}

#[test]
fn row_with_year_1850_skipped() {
    let rows = vec![
        row(&["Old One", "1850", "[English]", "7.0"]),
        row(&["Keeper", "1950", "[English]", "7.0"]),
    ];
    let (movies, skips) = load_rows(&rows);
    assert_eq!(movies.len(), 1);
    assert_eq!(movies[0].title, b"Keeper".to_vec());
    assert_eq!(skips.len(), 1);
    assert_eq!(skips[0].reason, SkipReason::InvalidYear);
    assert_eq!(skips[0].line, 2);
}

#[test]
fn row_without_brackets_skipped() {
    let rows = vec![row(&["Some Movie", "1990", "English;French", "8.0"])];
    let (movies, skips) = load_rows(&rows);
    assert!(movies.is_empty());
    assert_eq!(skips.len(), 1);
    assert_eq!(skips[0].reason, SkipReason::InvalidLanguageFormat);
}

#[test]
fn row_with_unreadable_rating_kept_as_zero() {
    let rows = vec![row(&["Some Movie", "1990", "[English]", "abc"])];
    let (movies, skips) = load_rows(&rows);
    assert_eq!(movies.len(), 1);
    assert_eq!(movies[0].rating_tenths, 0);
    assert!(skips.is_empty());
}

#[test]
fn missing_title_or_year_skipped() {
    assert_eq!(
        validate_row(&row(&["", "1990", "[English]", "8.0"])).unwrap_err(),
        SkipReason::MissingTitleOrYear
    );
    assert_eq!(
        validate_row(&row(&["A Movie", "  ", "[English]", "8.0"])).unwrap_err(),
        SkipReason::MissingTitleOrYear
    );
    // a short row reads its missing fields as empty
    assert_eq!(
        validate_row(&row(&["A Movie"])).unwrap_err(),
        SkipReason::MissingTitleOrYear
    );
}

#[test]
fn too_many_languages_skipped() {
    assert_eq!(
        validate_row(&row(&["M", "1990", "[a;b;c;d;e;f]", "8.0"])).unwrap_err(),
        SkipReason::TooManyLanguages
    );
    // five languages are still fine
    let rec = validate_row(&row(&["M", "1990", "[a;b;c;d;e]", "8.0"])).unwrap();
    assert_eq!(rec.languages.len(), 5);
}

#[test]
fn overlong_language_skipped() {
    let long21 = "x".repeat(21);
    let ok20 = "x".repeat(20);
    assert_eq!(
        validate_row(&row(&["M", "1990", &format!("[{}]", long21), "8.0"])).unwrap_err(),
        SkipReason::LanguageTooLong
    );
    let rec = validate_row(&row(&["M", "1990", &format!("[{}]", ok20), "8.0"])).unwrap();
    assert_eq!(rec.languages[0].len(), 20);
}

#[test]
fn year_bounds_are_inclusive() {
    assert_eq!(validate_row(&row(&["M", "1900", "[a]", "8.0"])).unwrap().year, 1900);
    assert_eq!(validate_row(&row(&["M", "2021", "[a]", "8.0"])).unwrap().year, 2021);
    assert_eq!(
        validate_row(&row(&["M", "1899", "[a]", "8.0"])).unwrap_err(),
        SkipReason::InvalidYear
    );
    assert_eq!(
        validate_row(&row(&["M", "2022", "[a]", "8.0"])).unwrap_err(),
        SkipReason::InvalidYear
    );
    assert_eq!(
        validate_row(&row(&["M", "19x0", "[a]", "8.0"])).unwrap_err(),
        SkipReason::InvalidYear
    );
}

#[test]
fn language_tokens_are_trimmed_and_empty_dropped() {
    let rec = validate_row(&row(&["M", "1990", "[ English ; ;French]", "8.0"])).unwrap();
    assert_eq!(rec.languages, vec![b"English".to_vec(), b"French".to_vec()]);
    // empty brackets leave an empty language list
    let rec = validate_row(&row(&["M", "1990", "[]", "8.0"])).unwrap();
    assert!(rec.languages.is_empty());
}

#[test]
fn rating_literals_parse_in_tenths() {
    assert_eq!(parse_rating_tenths(&b"9.3".to_vec()), 93);
    assert_eq!(parse_rating_tenths(&b"10.0".to_vec()), 100);
    assert_eq!(parse_rating_tenths(&b"10".to_vec()), 100);
    assert_eq!(parse_rating_tenths(&b"1".to_vec()), 10);
    assert_eq!(parse_rating_tenths(&b"+9.3".to_vec()), 93);
    assert_eq!(parse_rating_tenths(&b"9.30".to_vec()), 93);
    // out of [1.0, 10.0]: defaults to zero
    assert_eq!(parse_rating_tenths(&b"0.9".to_vec()), 0);
    assert_eq!(parse_rating_tenths(&b"10.1".to_vec()), 0);
    assert_eq!(parse_rating_tenths(&b"11".to_vec()), 0);
    // not a tenths literal: defaults to zero
    assert_eq!(parse_rating_tenths(&b"abc".to_vec()), 0);
    assert_eq!(parse_rating_tenths(&b"9.25".to_vec()), 0);
    assert_eq!(parse_rating_tenths(&b"-5".to_vec()), 0);
    assert_eq!(parse_rating_tenths(&b"".to_vec()), 0);
    assert_eq!(parse_rating_tenths(&b"9.".to_vec()), 0);
    assert_eq!(parse_rating_tenths(&b".5".to_vec()), 0);
}

#[test]
fn bounded_integer_parsing() {
    assert_eq!(parse_int_in_range(&b"1994".to_vec(), 1900, 2021), Some(1994));
    assert_eq!(parse_int_in_range(&b"+2000".to_vec(), 1900, 2021), Some(2000));
    assert_eq!(parse_int_in_range(&b"0001994".to_vec(), 1900, 2021), Some(1994));
    assert_eq!(parse_int_in_range(&b"1850".to_vec(), 1900, 2021), None);
    assert_eq!(parse_int_in_range(&b"-1994".to_vec(), 1900, 2021), None);
    assert_eq!(parse_int_in_range(&b"99999999999999999999".to_vec(), 1900, 2021), None);
    assert_eq!(parse_int_in_range(&b"20 21".to_vec(), 1900, 2021), None);
    assert_eq!(parse_int_in_range(&b"".to_vec(), 1900, 2021), None);
    assert_eq!(parse_int_in_range(&b"+".to_vec(), 1900, 2021), None);
}

#[test]
fn fields_are_trimmed_before_validation() {
    let rec = validate_row(&row(&["  A Movie  ", " 1994 ", " [English] ", " 9.3 "])).unwrap();
    assert_eq!(rec.title, b"A Movie".to_vec());
    assert_eq!(rec.year, 1994);
    assert_eq!(rec.rating_tenths, 93);
}

#[test]
fn trim_removes_ascii_whitespace() {
    assert_eq!(trim(&b"  a b \t\r\n".to_vec()), b"a b".to_vec());
    assert_eq!(trim(&b"".to_vec()), b"".to_vec());
    assert_eq!(trim(&b" \t ".to_vec()), b"".to_vec());
    assert_eq!(trim(&b"abc".to_vec()), b"abc".to_vec());
}

#[test]
fn decimal_rendering() {
    assert_eq!(u32_to_decimal(0), b"0".to_vec());
    assert_eq!(u32_to_decimal(7), b"7".to_vec());
    assert_eq!(u32_to_decimal(83465), b"83465".to_vec());
    assert_eq!(u32_to_decimal(100000), b"100000".to_vec());
}

#[test]
fn skip_notices_number_source_lines() {
    // the header is line 1, so data rows are lines 2, 3, 4
    let rows = vec![
        row(&["Good", "1990", "[a]", "8.0"]),
        row(&["", "1990", "[a]", "8.0"]),
        row(&["Bad Year", "999", "[a]", "8.0"]),
    ];
    let (movies, skips) = load_rows(&rows);
    assert_eq!(movies.len(), 1);
    assert_eq!(skips.len(), 2);
    assert_eq!((skips[0].line, skips[0].reason), (3, SkipReason::MissingTitleOrYear));
    assert_eq!((skips[1].line, skips[1].reason), (4, SkipReason::InvalidYear));
}

#[test]
fn load_fails_only_as_a_whole() {
    // a row with a different field count than the header is a reader
    // error: the load returns no partial collection
    let text = "Title,Year,Languages,Rating\nA,1994,[English],9.3\nB,1994\n";
    assert!(load(&text.as_bytes().to_vec()).is_err());
}
