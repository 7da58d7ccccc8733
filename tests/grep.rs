use editdist::grep::{
    kmp_found, kmp_search, kmp_search_case_insensitive, search, search_case_insensitive, Config,
};
use editdist::kmp::return_failure_function_table;

fn lines_of(contents: &str) -> Vec<String> {
    contents.lines().map(String::from).collect()
}

#[test]
fn case_sensitive() {
    let query = "duct";
    let contents = "\
Rust:
safe, fast, productive.
Pick three.
Duct tape.";

    assert_eq!(vec!["safe, fast, productive."], search(query, &lines_of(contents)))
}

#[test]
fn kmp_case_sensitive() {
    let query = "duct";
    let contents = "\
Rust:
safe, fast, productive.
Pick three.
Duct tape.";

    assert_eq!(vec!["safe, fast, productive."], kmp_search(query, &lines_of(contents)))
}

#[test]
fn case_insensitive() {
    let query = "rUsT";
    let contents = "\
Rust:
safe, fast, productive.
Pick three.
Trust me.";

    assert_eq!(
        vec!["Rust:", "Trust me."],
        search_case_insensitive(query, &lines_of(contents))
    );
}

#[test]
fn kmp_case_insensitive() {
    let query = "rUsT";
    let contents = "\
Rust:
safe, fast, productive.
Pick three.
Trust me.";

    assert_eq!(
        vec!["Rust:", "Trust me."],
        kmp_search_case_insensitive(query, &lines_of(contents))
    );
}

#[test]
fn kmp_found_on_one_line() {
    let table = return_failure_function_table("fast");
    assert!(kmp_found("fast", "safe, fast, productive.", &table));
    assert!(!kmp_found("fast", "Pick three.", &table));
}

#[test]
fn empty_query_keeps_every_line() {
    let lines = lines_of("a\nb\n\nc");
    assert_eq!(search("", &lines), lines);
    assert_eq!(kmp_search("", &lines), lines);
}

#[test]
fn no_lines_no_result() {
    let lines: Vec<String> = Vec::new();
    assert!(search("x", &lines).is_empty());
    assert!(search_case_insensitive("x", &lines).is_empty());
}

#[test]
fn exact_search_respects_case() {
    let lines = lines_of("Rust:\nTrust me.");
    assert_eq!(search("rUsT", &lines), Vec::<String>::new());
    assert_eq!(kmp_search("rust", &lines), vec!["Trust me."]);
}

#[test]
fn config_needs_query() {
    let args = vec![String::from("minigrep")];
    assert_eq!(Config::new(&args, false, false).unwrap_err(), "Did not get a query string !");
}

#[test]
fn config_needs_file_name() {
    let args = vec![String::from("minigrep"), String::from("duct")];
    assert_eq!(Config::new(&args, false, false).unwrap_err(), "Did not get a file name");
}

#[test]
fn config_reads_arguments_and_switches() {
    let args = vec![
        String::from("minigrep"),
        String::from("duct"),
        String::from("poem.txt"),
    ];
    let c = Config::new(&args, true, true).unwrap();
    assert_eq!(c.query, "duct");
    assert_eq!(c.filename, "poem.txt");
    assert!(!c.case_sensitive);
    assert!(c.use_kmp);
}
