use bumpalo::Bump;
use geolymp::counts::CountVector;
use geolymp::pretty::colour_of;
use geolymp::search::{SearchStep, Searcher};

const RESET: &str = "\x1b[0m";

#[test]
fn colours_run_from_red_to_violet() {
    assert_eq!(colour_of(0), "\x1b[38;2;255;0;0m");
    assert_eq!(colour_of(1), "\x1b[38;2;255;165;0m");
    assert_eq!(colour_of(2), "\x1b[38;2;255;255;0m");
    assert_eq!(colour_of(3), "\x1b[38;2;0;128;0m");
    assert_eq!(colour_of(4), "\x1b[38;2;0;0;255m");
    assert_eq!(colour_of(5), "\x1b[38;2;75;0;130m");
    assert_eq!(colour_of(6), "\x1b[38;2;238;130;238m");
    assert_eq!(colour_of(7), "");
}

#[test]
fn start_node_paints_only_a_reset() {
    let start: SearchStep = SearchStep::start(CountVector::zero(), 0);
    assert_eq!(start.to_pretty_string(), RESET);
}

#[test]
fn every_letter_is_painted_in_the_colour_of_its_suffix() {
    let arena = Bump::new();
    let searcher = Searcher::new(3, 1000, &arena);
    let leaf = searcher.search_with_base(&[0, 1, 2, 3, 4, 5, 6]).unwrap();
    assert_eq!(leaf.to_string_with_charset("GEOLYMP"), "MP");
    let indigo = "\x1b[38;2;75;0;130m";
    let expected = format!("{indigo}M{RESET}{indigo}P{RESET}{RESET}");
    assert_eq!(leaf.to_pretty_string(), expected);
}

#[test]
fn suffixes_are_painted_from_the_start_node_on() {
    let arena = Bump::new();
    let searcher = Searcher::new(4, 1000, &arena);
    let leaf = searcher.search_with_base(&[0, 1, 2, 3, 4, 5, 6]).unwrap();
    let plain = leaf.to_string_with_charset("GEOLYMP");
    let pretty = leaf.to_pretty_string();
    let mut stripped = String::new();
    let mut rest = pretty.as_str();
    while let Some(at) = rest.find('\x1b') {
        stripped.push_str(&rest[..at]);
        let end = rest[at..].find('m').unwrap();
        rest = &rest[at + end + 1..];
    }
    stripped.push_str(rest);
    assert_eq!(stripped, plain);
    assert!(pretty.ends_with(&format!("{RESET}{RESET}")));
}
