use goback::cli::{decimal_string, list_table, parse_arg_list, parse_count, NO_HISTORY};
use goback::color::{cyan, dim, green, muted};

fn strings(v: &[&str]) -> Vec<String> {
    v.iter().map(|s| s.to_string()).collect()
}

#[test]
fn list_two_of_five() {
    let history = strings(&["e", "d", "c", "b", "a"]);
    let table = list_table(&history, 2);
    assert!(table.fits());
    let out = table.render();
    let lines: Vec<&str> = out.lines().collect();
    assert_eq!(lines.len(), 2 * 2 + 3);
    assert!(lines[1].contains(&green("#")));
    assert!(lines[1].contains(&green("Branch")));
    assert!(lines[1].contains(&green("Status")));
    assert!(lines[3].contains(&green("current")));
    assert!(lines[3].contains(" e "));
    assert!(!lines[5].contains("current"));
    assert!(lines[5].contains(" d "));
    assert_eq!(out.matches("current").count(), 1);
    assert!(!out.contains(" c "));
}

#[test]
fn list_count_beyond_history_shows_all() {
    let history = strings(&["main", "dev"]);
    let out = list_table(&history, 10).render();
    assert_eq!(out.lines().count(), 2 * 2 + 3);
    assert!(out.contains(&green("1")));
}

#[test]
fn no_history_message() {
    assert_eq!(NO_HISTORY, "No branch history found");
}

#[test]
fn parse_count_values() {
    assert_eq!(parse_count("42"), Some(42));
    assert_eq!(parse_count("+7"), Some(7));
    assert_eq!(parse_count("0"), Some(0));
    assert_eq!(parse_count(""), None);
    assert_eq!(parse_count("+"), None);
    assert_eq!(parse_count("-1"), None);
    assert_eq!(parse_count("4x"), None);
    assert_eq!(parse_count("18446744073709551615"), Some(usize::MAX));
    assert_eq!(parse_count("18446744073709551616"), None);
}

#[test]
fn parse_args_defaults() {
    let a = parse_arg_list(&Vec::new()).unwrap();
    assert_eq!((a.n, a.print_only, a.list, a.list_count), (1, false, false, 10));
}

#[test]
fn parse_args_steps_and_print() {
    let a = parse_arg_list(&strings(&["2", "-p"])).unwrap();
    assert_eq!((a.n, a.print_only, a.list), (2, true, false));
    let b = parse_arg_list(&strings(&["--print", "junk", "3"])).unwrap();
    assert_eq!((b.n, b.print_only), (3, true));
}

#[test]
fn parse_args_list_takes_following_count() {
    let a = parse_arg_list(&strings(&["--list", "5"])).unwrap();
    assert_eq!((a.list, a.list_count, a.n), (true, 5, 1));
    let b = parse_arg_list(&strings(&["-l", "5", "3"])).unwrap();
    assert_eq!((b.list_count, b.n), (5, 3));
    let c = parse_arg_list(&strings(&["4", "-l"])).unwrap();
    assert_eq!((c.list, c.list_count, c.n), (true, 10, 4));
}

#[test]
fn parse_args_help_wins() {
    assert!(parse_arg_list(&strings(&["2", "--help"])).is_none());
    assert!(parse_arg_list(&strings(&["-h", "-l"])).is_none());
}

#[test]
fn decimal_digits() {
    assert_eq!(decimal_string(0), "0");
    assert_eq!(decimal_string(7), "7");
    assert_eq!(decimal_string(1234), "1234");
}

#[test]
fn colour_escapes() {
    assert_eq!(dim("x"), "\x1b[38;2;68;68;68mx\x1b[0m");
    assert_eq!(muted("x"), "\x1b[38;2;120;120;120mx\x1b[0m");
    assert_eq!(cyan("x"), "\x1b[38;2;86;182;194mx\x1b[0m");
    assert_eq!(green("ok"), "\x1b[38;2;106;153;85mok\x1b[0m");
}
