use strata::repo::repo_name;
use strata::serve::{data_file, data_file_name, log_filter, serving_line};
use strata::sort::{sort_texts, stable_order};
use strata::text::{parse_i64, trim_text, words_of};

#[test]
fn data_files() {
    assert_eq!(data_file("repos.json"), Some("application/json".to_string()));
    assert_eq!(data_file("x.msgpack"), Some("application/octet-stream".to_string()));
    assert_eq!(data_file("x"), Some("application/octet-stream".to_string()));
    assert_eq!(data_file(".json"), Some("application/json".to_string()));
    assert_eq!(data_file("x.JSON"), Some("application/octet-stream".to_string()));
    assert_eq!(data_file(""), Some("application/octet-stream".to_string()));
}

#[test]
fn requests_that_leave_the_directory() {
    assert_eq!(data_file("../secret"), None);
    assert_eq!(data_file("a/b"), None);
    assert_eq!(data_file(".."), None);
    assert_eq!(data_file("a..b"), None);
    assert_eq!(data_file("/etc"), None);
}

#[test]
fn the_data_file_of_a_repository_is_served() {
    for url in ["https://h/my.lib.git", "git@h:o/x", "/p/q/"] {
        let file = data_file_name(&repo_name(url));
        assert_eq!(data_file(&file), Some("application/octet-stream".to_string()));
    }
    assert_eq!(data_file_name("x"), "x.msgpack");
    assert_eq!(data_file(&data_file_name("x.")), None);
}

#[test]
fn log_filters() {
    assert_eq!(log_filter(0), "strata=warn");
    assert_eq!(log_filter(1), "strata=info");
    assert_eq!(log_filter(2), "strata=debug");
    assert_eq!(log_filter(3), "strata=trace");
    assert_eq!(log_filter(255), "strata=trace");
}

#[test]
fn where_the_server_is() {
    assert_eq!(serving_line(8080), "Serving at http://localhost:8080");
    assert_eq!(serving_line(0), "Serving at http://localhost:0");
    assert_eq!(serving_line(65535), "Serving at http://localhost:65535");
}

#[test]
fn stable_sorting() {
    assert_eq!(stable_order(&vec![3, 1, 2, 1, 3]), vec![1, 3, 2, 0, 4]);
    assert_eq!(stable_order(&vec![]), Vec::<usize>::new());
    let v: Vec<String> = ["b", "a", "B", "", "ab", "é", "z"].iter().map(|s| s.to_string()).collect();
    let mut expected = v.clone();
    expected.sort();
    assert_eq!(sort_texts(v), expected);
}

#[test]
fn white_space_and_numbers() {
    for s in ["", " ", " a b ", "\t\u{a0}x\u{2003}", "\u{200b}x"] {
        assert_eq!(trim_text(s), s.trim());
        assert_eq!(words_of(s), s.split_whitespace().collect::<Vec<_>>());
    }
    for s in ["0", "-0", "+5", "-9223372036854775808", "9223372036854775808", "", "-", "1_0", "٣"] {
        assert_eq!(parse_i64(s), s.parse::<i64>().ok());
    }
}
