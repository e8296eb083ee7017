use quadtree::grep::{search, search_case_insensitive, Config};

#[test]
fn case_sensitive() {
    let query = "duct";
    let contents = "\
Rust:
safe, fast, productive.
Pick three.
Duct tape.";

    assert_eq!(vec!["safe, fast, productive."], search(query, contents));
}

#[test]
fn case_insensitive() {
    let query = "rUsT";
    let contents = "\
Rust:
safe, fast, productive.
Pick three.
Trust me.";

    assert_eq!(
        vec!["Rust:", "Trust me."],
        search_case_insensitive(query, contents)
    );
}

#[test]
fn search_empty_and_trailing_newline() {
    assert_eq!(search("x", ""), Vec::<&str>::new());
    assert_eq!(search("a", "a\n"), vec!["a"]);
    assert_eq!(search("", "one\ntwo"), vec!["one", "two"]);
}

#[test]
fn search_strips_carriage_return_before_newline() {
    // Carriage-return-newline endings lose the carriage return, as the
    // standard library's line splitting does; a bare trailing carriage
    // return stays part of its line.
    assert_eq!(search("", "a\r\nb"), vec!["a", "b"]);
    assert_eq!(search("a", "a\r\nab\r\n"), vec!["a", "ab"]);
    assert_eq!(search("", "a\r"), vec!["a\r"]);
}

#[test]
fn config_holds_parts() {
    let c = Config {
        query: String::from("needle"),
        file_path: String::from("hay.txt"),
        ignore_case: true,
    };
    assert_eq!(c.query, "needle");
    assert_eq!(c.file_path, "hay.txt");
    assert!(c.ignore_case);
}
