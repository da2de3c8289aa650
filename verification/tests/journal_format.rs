use echojournal::journal::{collect_journal_directory, JournalFile};
use echojournal::journal::{collect_journal_entries, is_markdown_file_name, parse_journal_text, sort_entries, RawEntry};

fn entry(date: &str, time: &str, text: &str, tag: &str) -> RawEntry {
    RawEntry { date: date.to_string(), time: time.to_string(), text: text.to_string(), tag: tag.to_string() }
}

fn fields(e: &RawEntry) -> (String, String, String, String) {
    (e.date.clone(), e.time.clone(), e.text.clone(), e.tag.clone())
}

fn all_fields(v: &[RawEntry]) -> Vec<(String, String, String, String)> {
    v.iter().map(fields).collect()
}

#[test]
fn parses_days_and_entries() {
    let content = "### 2024-05-01\n- **09:15**: Standup went well #Career\n- **21:00**: Evening run #Wellness\n\n### 2024-05-02\n- **08:00**: Wrote some Rust #Coding\n";
    let got = parse_journal_text(content);
    assert_eq!(
        all_fields(&got),
        all_fields(&[
            entry("2024-05-01", "09:15", "Standup went well", "Career"),
            entry("2024-05-01", "21:00", "Evening run", "Wellness"),
            entry("2024-05-02", "08:00", "Wrote some Rust", "Coding"),
        ])
    );
}

#[test]
fn entry_without_tag_is_uncategorized() {
    let got = parse_journal_text("### 2024-05-01\n- **10:00**: Just a thought\n");
    assert_eq!(all_fields(&got), all_fields(&[entry("2024-05-01", "10:00", "Just a thought", "Uncategorized")]));
}

#[test]
fn tag_is_after_the_last_hash() {
    let got = parse_journal_text("### 2024-05-01\n- **10:00**: C# and F# #Coding\n");
    assert_eq!(all_fields(&got), all_fields(&[entry("2024-05-01", "10:00", "C# and F#", "Coding")]));
}

#[test]
fn text_stops_at_a_second_time_marker() {
    let got = parse_journal_text("### 2024-05-01\n- **10:00**: one**: two #T\n");
    assert_eq!(all_fields(&got), all_fields(&[entry("2024-05-01", "10:00", "one", "Uncategorized")]));
}

#[test]
fn other_lines_are_ignored() {
    let content = "# May 2024\n### 2024-05-01\nSome prose.\n- **11:00** no colon here\n* **12:00**: wrong bullet\n- **13:00**: kept #Growth\n";
    let got = parse_journal_text(content);
    assert_eq!(all_fields(&got), all_fields(&[entry("2024-05-01", "13:00", "kept", "Growth")]));
}

#[test]
fn windows_line_endings_and_spaces_are_trimmed() {
    let got = parse_journal_text("###  2024-05-03 \r\n- **  07:30 **:   Coffee   #  Personal \r\n");
    assert_eq!(all_fields(&got), all_fields(&[entry("2024-05-03", "07:30", "Coffee", "Personal")]));
}

#[test]
fn empty_and_blank_files_have_no_entries() {
    assert!(parse_journal_text("").is_empty());
    assert!(parse_journal_text("   \n\n### \n").is_empty());
}

#[test]
fn entries_are_sorted_by_date_then_time() {
    let a = "### 2024-05-02\n- **08:00**: b #X\n### 2024-05-01\n- **22:00**: a2 #X\n".to_string();
    let b = "### 2024-05-01\n- **07:00**: a1 #Y\n".to_string();
    let got = collect_journal_entries(&vec![a, b]);
    assert_eq!(
        all_fields(&got),
        all_fields(&[
            entry("2024-05-01", "07:00", "a1", "Y"),
            entry("2024-05-01", "22:00", "a2", "X"),
            entry("2024-05-02", "08:00", "b", "X"),
        ])
    );
}

#[test]
fn equal_date_and_time_keep_their_order() {
    let v = vec![
        entry("2024-01-01", "10:00", "first", "A"),
        entry("2023-12-31", "23:00", "earlier", "A"),
        entry("2024-01-01", "10:00", "second", "B"),
    ];
    let got = sort_entries(&v);
    assert_eq!(
        all_fields(&got),
        all_fields(&[
            entry("2023-12-31", "23:00", "earlier", "A"),
            entry("2024-01-01", "10:00", "first", "A"),
            entry("2024-01-01", "10:00", "second", "B"),
        ])
    );
}

#[test]
fn string_order_is_by_code_point() {
    let v = vec![entry("b", "", "1", ""), entry("a", "", "2", ""), entry("B", "", "3", ""), entry("ab", "", "4", "")];
    let got = sort_entries(&v);
    let dates: Vec<String> = got.iter().map(|e| e.date.clone()).collect();
    assert_eq!(dates, vec!["B", "a", "ab", "b"]);
}

#[test]
fn markdown_file_names() {
    assert!(is_markdown_file_name("2024-05.md"));
    assert!(is_markdown_file_name("a.b.md"));
    assert!(!is_markdown_file_name(".md"));
    assert!(!is_markdown_file_name("notes.MD"));
    assert!(!is_markdown_file_name("notes.mdx"));
    assert!(!is_markdown_file_name("md"));
    assert!(!is_markdown_file_name("notes.txt"));
}

#[test]
fn written_entry_reads_back() {
    let line = format!("### {}\n- **{}**: {} #{}\n", "2024-06-01", "18:45", "Finished the book", "Personal");
    let got = parse_journal_text(&line);
    assert_eq!(all_fields(&got), all_fields(&[entry("2024-06-01", "18:45", "Finished the book", "Personal")]));
}

#[test]
fn journal_written_day_by_day_reads_back() {
    let days = vec![
        ("2024-07-01", vec![("08:00", "Morning pages", "Personal"), ("12:30", "Lunch with Sam", "Social")]),
        ("2024-07-02", vec![]),
        ("2024-07-03", vec![("23:59", "Shipped v1.0 **finally**", "Career")]),
    ];
    let mut text = String::new();
    let mut expected = Vec::new();
    for (date, entries) in &days {
        text.push_str(&format!("### {}\n", date));
        for (time, body, tag) in entries {
            text.push_str(&format!("- **{}**: {} #{}\n", time, body, tag));
            expected.push(entry(date, time, body, tag));
        }
    }
    assert_eq!(all_fields(&parse_journal_text(&text)), all_fields(&expected));
}

#[test]
fn only_markdown_files_are_read() {
    let md = JournalFile { name: "2024-05.md".to_string(), content: "### 2024-05-01\n- **09:00**: a #X\n".to_string() };
    let txt = JournalFile { name: "notes.txt".to_string(), content: "### 2024-05-01\n- **08:00**: hidden #X\n".to_string() };
    let with_other = collect_journal_directory(&vec![
        JournalFile { name: txt.name.clone(), content: txt.content.clone() },
        JournalFile { name: md.name.clone(), content: md.content.clone() },
    ]);
    let alone = collect_journal_directory(&vec![md]);
    assert_eq!(all_fields(&with_other), all_fields(&alone));
    assert_eq!(all_fields(&alone), all_fields(&[entry("2024-05-01", "09:00", "a", "X")]));
}
