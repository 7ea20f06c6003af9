use movie_catalog::loader::load_rows;
use movie_catalog::menu::{menu_choice, MenuChoice};
use movie_catalog::organize::{
    dir_name, fresh_dir_name, group_titles_by_year, select_largest, select_smallest, FileEntry,
};
use movie_catalog::queries::{best_per_year, filter_by_language, filter_by_year};
use movie_catalog::record::Record;

fn movie(title: &str, year: i32, languages: &[&str], rating_tenths: u32) -> Record {
    Record {
        title: title.as_bytes().to_vec(),
        year,
        languages: languages.iter().map(|l| l.as_bytes().to_vec()).collect(),
        rating_tenths,
    }
}

fn sample_movies() -> Vec<Record> {
    vec![
        movie("The Shawshank Redemption", 1994, &["English"], 93),
        movie("The Godfather", 1972, &["English", "Italian"], 92),
        movie("The Dark Knight", 2008, &["English", "Mandarin"], 90),
        movie("12 Angry Men", 1957, &["English"], 89),
        movie("Schindler's List", 1993, &["English", "German", "Polish"], 89),
    ]
}

#[test]
fn test_show_movies_by_year_found() {
    let movies = sample_movies();
    let year = 1994;
    let exists = movies
        .iter()
        .any(|m| m.year == year && m.title == b"The Shawshank Redemption".to_vec());
    assert!(exists);
}

#[test]
fn test_show_movies_by_year_not_found() {
    let movies = sample_movies();
    let year = 2020;
    let exists = movies.iter().any(|m| m.year == year);
    assert!(!exists);
}

#[test]
fn test_show_highest_rated_movies() {
    let movies = sample_movies();
    let report = best_per_year(&movies);
    let rating_of = |year: i32| {
        report
            .iter()
            .find(|e| e.year == year)
            .map(|e| e.rating_tenths)
    };
    assert_eq!(rating_of(1994), Some(93));
    assert_eq!(rating_of(1972), Some(92));
    assert_eq!(rating_of(2008), Some(90));
    assert_eq!(rating_of(1957), Some(89));
    assert_eq!(rating_of(1993), Some(89));
}

#[test]
fn test_show_movies_by_language_found() {
    let movies = sample_movies();
    let language = b"English".to_vec();
    let exists = movies.iter().any(|m| m.languages.contains(&language));
    assert!(exists);
}

#[test]
fn test_show_movies_by_language_not_found() {
    let movies = sample_movies();
    let language = b"Japanese".to_vec();
    let exists = movies.iter().any(|m| m.languages.contains(&language));
    assert!(!exists);
}

#[test]
fn filter_by_year_preserves_order_and_signals_empty() {
    let mut movies = sample_movies();
    movies.push(movie("Pulp Fiction", 1994, &["English"], 89));
    let titles = filter_by_year(&movies, 1994).unwrap();
    assert_eq!(
        titles,
        vec![b"The Shawshank Redemption".to_vec(), b"Pulp Fiction".to_vec()]
    );
    // an absent year gives an explicit "none found", not an empty list
    assert_eq!(filter_by_year(&movies, 2020), None);
}

#[test]
fn filter_by_language_is_case_sensitive() {
    let movies = sample_movies();
    // every stored token reads "English"; the lowercase query matches
    // nothing
    assert!(filter_by_language(&movies, &b"english".to_vec()).is_none());
    let pairs = filter_by_language(&movies, &b"English".to_vec()).unwrap();
    assert_eq!(pairs.len(), 5);
    assert_eq!(pairs[0].year, 1994);
    assert_eq!(pairs[0].title, b"The Shawshank Redemption".to_vec());
}

#[test]
fn filter_by_language_matches_whole_tokens() {
    let movies = sample_movies();
    let pairs = filter_by_language(&movies, &b"Italian".to_vec()).unwrap();
    assert_eq!(pairs.len(), 1);
    assert_eq!(pairs[0].title, b"The Godfather".to_vec());
    // a substring of a token is not a match
    assert!(filter_by_language(&movies, &b"Engl".to_vec()).is_none());
}

#[test]
fn best_per_year_prefers_higher_rating() {
    let rows: Vec<Vec<Vec<u8>>> = vec![
        vec![
            b"Shawshank Redemption".to_vec(),
            b"1994".to_vec(),
            b"[English]".to_vec(),
            b"9.3".to_vec(),
        ],
        vec![
            b"Se7en".to_vec(),
            b"1994".to_vec(),
            b"[English]".to_vec(),
            b"8.6".to_vec(),
        ],
    ];
    let (movies, skips) = load_rows(&rows);
    assert!(skips.is_empty());
    let report = best_per_year(&movies);
    assert_eq!(report.len(), 1);
    assert_eq!(report[0].year, 1994);
    assert_eq!(report[0].rating_tenths, 93);
    assert_eq!(report[0].title, b"Shawshank Redemption".to_vec());
}

#[test]
fn best_per_year_sorted_one_entry_per_year_first_tie_wins() {
    let movies = vec![
        movie("B", 2001, &["English"], 80),
        movie("A", 1999, &["English"], 70),
        movie("C", 1999, &["English"], 70),
        movie("D", 2001, &["English"], 90),
    ];
    let report = best_per_year(&movies);
    assert_eq!(report.len(), 2);
    // ascending years, one entry each
    assert_eq!(report[0].year, 1999);
    assert_eq!(report[1].year, 2001);
    // the tie at 1999 goes to the record seen first
    assert_eq!(report[0].title, b"A".to_vec());
    assert_eq!(report[0].rating_tenths, 70);
    // the strictly better record displaces the earlier one
    assert_eq!(report[1].title, b"D".to_vec());
    assert_eq!(report[1].rating_tenths, 90);
}

#[test]
fn menu_choices_parse_one_line() {
    assert_eq!(menu_choice(&b"1".to_vec()), MenuChoice::ShowByYear);
    assert_eq!(menu_choice(&b"2".to_vec()), MenuChoice::BestPerYear);
    assert_eq!(menu_choice(&b"3".to_vec()), MenuChoice::ShowByLanguage);
    assert_eq!(menu_choice(&b" 4 \n".to_vec()), MenuChoice::Quit);
    assert_eq!(menu_choice(&b"0".to_vec()), MenuChoice::Invalid);
    assert_eq!(menu_choice(&b"5".to_vec()), MenuChoice::Invalid);
    assert_eq!(menu_choice(&b"abc".to_vec()), MenuChoice::Invalid);
    assert_eq!(menu_choice(&b"".to_vec()), MenuChoice::Invalid);
}

fn entry(name: &str, size: u64) -> FileEntry {
    FileEntry { name: name.as_bytes().to_vec(), size }
}

#[test]
fn select_largest_and_smallest_csv() {
    let entries = vec![
        entry("movies_1.csv", 10),
        entry("movies_2.csv", 30),
        entry("data.csv", 99),
        entry("movies_3.txt", 50),
        entry("movies_4.csv", 10),
    ];
    // only movies_*.csv names compete; ties go to the first seen
    assert_eq!(select_largest(&entries), Some(1));
    assert_eq!(select_smallest(&entries), Some(0));
    let none = vec![entry("data.csv", 1), entry("movies_.txt", 2)];
    assert_eq!(select_largest(&none), None);
    assert_eq!(select_smallest(&none), None);
}

#[test]
fn group_titles_by_year_first_seen_order() {
    let rows: Vec<Vec<Vec<u8>>> = vec![
        vec![b"A".to_vec(), b"2020".to_vec()],
        vec![b"B".to_vec(), b"2021".to_vec()],
        vec![b"C".to_vec(), b"2020".to_vec()],
        vec![b"D".to_vec(), b"".to_vec()],
        vec![b"E".to_vec()],
    ];
    let groups = group_titles_by_year(&rows);
    assert_eq!(groups.len(), 2);
    assert_eq!(groups[0].year, b"2020".to_vec());
    assert_eq!(groups[0].titles, vec![b"A".to_vec(), b"C".to_vec()]);
    assert_eq!(groups[1].year, b"2021".to_vec());
    assert_eq!(groups[1].titles, vec![b"B".to_vec()]);
}

#[test]
fn directory_names_carry_owner_and_suffix() {
    let owner = b"clinicke".to_vec();
    assert_eq!(dir_name(&owner, 83465), b"clinicke.movies.83465".to_vec());
    assert_eq!(dir_name(&owner, 0), b"clinicke.movies.0".to_vec());
    let fresh = fresh_dir_name(&owner);
    let prefix = b"clinicke.movies.";
    assert!(fresh.len() > prefix.len());
    assert_eq!(&fresh[..prefix.len()], prefix);
    let suffix = std::str::from_utf8(&fresh[prefix.len()..]).unwrap();
    let n: u32 = suffix.parse().unwrap();
    assert!(n <= 99999);
}
