use archive_engine::single_instance::{parse_payload, payload};

fn strings(v: &[&str]) -> Vec<String> {
    v.iter().map(|s| s.to_string()).collect()
}

#[test]
fn payload_puts_each_path_on_its_line() {
    assert_eq!(payload(&strings(&["C:\\a.txt", "/home/b c.txt"])), "C:\\a.txt\n/home/b c.txt\n");
    assert_eq!(payload(&[]), "");
}

#[test]
fn received_lines_are_trimmed_and_blank_ones_dropped() {
    assert_eq!(parse_payload("  one.txt \r\n\n\t\ntwo.txt"), strings(&["one.txt", "two.txt"]));
    assert!(parse_payload("").is_empty());
    assert!(parse_payload("\n\n  \n").is_empty());
}

#[test]
fn handed_off_paths_read_back_unchanged() {
    let paths = strings(&["/x/report.pdf", "D:\\photos\\cat 1.jpg", "rel/path"]);
    assert_eq!(parse_payload(&payload(&paths)), paths);
}
