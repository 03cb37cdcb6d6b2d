use worklog::store::confirmation_message;
use worklog::store::get_tasks_from;
use worklog::store::greet;
use worklog::store::header_line;
use worklog::store::make_task;
use worklog::store::parse_log;
use worklog::store::record_text;
use worklog::task::Task;
use worklog::timestamp::Timestamp;

fn ts(year: u32, month: u32, day: u32, hour: u32, minute: u32, second: u32) -> Timestamp {
    Timestamp { year, month, day, hour, minute, second }
}

fn task(id: &str, created_at: Timestamp, description: &str) -> Task {
    Task { id: id.to_string(), created_at, task_description: description.to_string() }
}

#[test]
fn empty_store_returns_no_records() {
    let records = get_tasks_from(None);
    assert_eq!(records.len(), 0);
}

#[test]
fn empty_file_returns_no_records() {
    let records = get_tasks_from(Some(""));
    assert_eq!(records.len(), 0);
}

#[test]
fn header_line_names_the_fields() {
    assert_eq!(header_line(), "id,created_at,task_description");
}

#[test]
fn record_writes_header_once() {
    let t1 = task("a", ts(2024, 5, 6, 7, 8, 9), "first");
    let t2 = task("b", ts(2024, 5, 6, 7, 8, 10), "second");
    let mut contents = record_text(false, &t1);
    contents.push_str(&record_text(true, &t2));
    let lines: Vec<&str> = contents.lines().collect();
    assert_eq!(lines.len(), 3);
    let headers = lines.iter().filter(|l| **l == "id,created_at,task_description").count();
    assert_eq!(headers, 1);
    assert_eq!(lines[0], "id,created_at,task_description");
}

#[test]
fn encoded_line_has_expected_shape() {
    let t = task("a1", ts(2024, 5, 6, 7, 8, 9), "Fix login bug");
    let contents = record_text(false, &t);
    assert_eq!(
        contents,
        "id,created_at,task_description\na1,\"2024-05-06 07:08:09\",\"Fix login bug\"\n"
    );
}

#[test]
fn quotes_are_doubled_on_write() {
    let t = task("a1", ts(2024, 5, 6, 7, 8, 9), "say \"hi\"");
    let contents = record_text(true, &t);
    assert_eq!(contents, "a1,\"2024-05-06 07:08:09\",\"say \"\"hi\"\"\"\n");
}

#[test]
fn round_trip_single_record() {
    let fb = ts(2000, 1, 1, 0, 0, 0);
    let t = task("a1", ts(2024, 5, 6, 7, 8, 9), "Fix login bug");
    let contents = record_text(false, &t);
    let records = parse_log(&contents, &fb);
    assert_eq!(records.len(), 1);
    assert_eq!(records[0].id, "a1");
    assert_eq!(records[0].task_description, "Fix login bug");
    assert_eq!(records[0].created_at, ts(2024, 5, 6, 7, 8, 9));
}

#[test]
fn round_trip_description_with_commas() {
    let fb = ts(2000, 1, 1, 0, 0, 0);
    let t = task("a1", ts(2024, 5, 6, 7, 8, 9), "fix a, b, and c");
    let contents = record_text(false, &t);
    let records = parse_log(&contents, &fb);
    assert_eq!(records.len(), 1);
    assert_eq!(records[0].task_description, "fix a, b, and c");
}

#[test]
fn quoted_description_is_altered_on_read() {
    // The reader strips every boundary quote and leaves doubled inner
    // quotes doubled, so a description holding quote characters does not
    // come back verbatim.
    let fb = ts(2000, 1, 1, 0, 0, 0);
    let t = task("a1", ts(2024, 5, 6, 7, 8, 9), "say \"hi\"");
    let contents = record_text(false, &t);
    let records = parse_log(&contents, &fb);
    assert_eq!(records.len(), 1);
    assert_eq!(records[0].task_description, "say \"\"hi");
}

#[test]
fn list_orders_newest_first() {
    let fb = ts(2000, 1, 1, 0, 0, 0);
    let t1 = task("a", ts(2023, 1, 1, 0, 0, 1), "one");
    let t2 = task("b", ts(2023, 6, 15, 12, 30, 0), "two");
    let t3 = task("c", ts(2024, 2, 29, 23, 59, 59), "three");
    let mut contents = record_text(false, &t1);
    contents.push_str(&record_text(true, &t2));
    contents.push_str(&record_text(true, &t3));
    let records = parse_log(&contents, &fb);
    assert_eq!(records.len(), 3);
    assert_eq!(records[0].task_description, "three");
    assert_eq!(records[1].task_description, "two");
    assert_eq!(records[2].task_description, "one");
}

#[test]
fn equal_instants_keep_write_order() {
    let fb = ts(2000, 1, 1, 0, 0, 0);
    let when = ts(2024, 5, 6, 7, 8, 9);
    let t1 = task("a", when, "first written");
    let t2 = task("b", when, "second written");
    let mut contents = record_text(false, &t1);
    contents.push_str(&record_text(true, &t2));
    let records = parse_log(&contents, &fb);
    assert_eq!(records.len(), 2);
    assert_eq!(records[0].task_description, "first written");
    assert_eq!(records[1].task_description, "second written");
}

#[test]
fn short_rows_are_skipped() {
    let fb = ts(2000, 1, 1, 0, 0, 0);
    let contents = "id,created_at,task_description\n\
                    a,\"2024-05-06 07:08:09\",\"good one\"\n\
                    too-short-line\n\
                    b,\"2024-05-06 07:08:10\",\"good two\"\n";
    let records = parse_log(contents, &fb);
    assert_eq!(records.len(), 2);
    assert_eq!(records[0].task_description, "good two");
    assert_eq!(records[1].task_description, "good one");
}

#[test]
fn blank_rows_are_skipped() {
    let fb = ts(2000, 1, 1, 0, 0, 0);
    let contents = "id,created_at,task_description\n\
                    a,\"2024-05-06 07:08:09\",\"kept\"\n\
                    \n\
                    \t  \n";
    let records = parse_log(contents, &fb);
    assert_eq!(records.len(), 1);
    assert_eq!(records[0].task_description, "kept");
}

#[test]
fn bad_timestamp_gets_fallback() {
    let fb = ts(2001, 2, 3, 4, 5, 6);
    let contents = "id,created_at,task_description\n\
                    a,\"not a time\",\"odd row\"\n";
    let records = parse_log(contents, &fb);
    assert_eq!(records.len(), 1);
    assert_eq!(records[0].created_at, fb);
    assert_eq!(records[0].task_description, "odd row");
}

#[test]
fn impossible_date_gets_fallback() {
    let fb = ts(2001, 2, 3, 4, 5, 6);
    let contents = "id,created_at,task_description\n\
                    a,\"2023-02-29 10:00:00\",\"not a leap year\"\n";
    let records = parse_log(contents, &fb);
    assert_eq!(records.len(), 1);
    assert_eq!(records[0].created_at, fb);
}

#[test]
fn confirmation_embeds_the_text() {
    let message = confirmation_message("Fix login bug");
    assert!(message.contains("Fix login bug"));
    assert_eq!(message, "Task saved successfully: Fix login bug");
}

#[test]
fn greet_embeds_the_name() {
    assert_eq!(greet("Ada"), "Hello, Ada! You've been greeted from Rust!");
}

#[test]
fn make_task_gives_fresh_id_and_current_time() {
    let before = chrono::Local::now();
    let t = make_task("x".to_string());
    let after = chrono::Local::now();
    assert_eq!(t.task_description, "x");
    assert_eq!(t.id.len(), 36);
    assert!(t.id.chars().all(|c| c == '-' || c.is_ascii_hexdigit()));
    let made = chrono::NaiveDate::from_ymd_opt(
        t.created_at.year as i32,
        t.created_at.month,
        t.created_at.day,
    )
    .unwrap()
    .and_hms_opt(t.created_at.hour, t.created_at.minute, t.created_at.second)
    .unwrap();
    let low = before.naive_local() - chrono::Duration::seconds(1);
    let high = after.naive_local() + chrono::Duration::seconds(1);
    assert!(made >= low && made <= high);
}

#[test]
fn two_ids_differ() {
    let a = make_task("x".to_string());
    let b = make_task("x".to_string());
    assert_ne!(a.id, b.id);
}

#[test]
fn record_then_list_two() {
    let fb = ts(2000, 1, 1, 0, 0, 0);
    let t1 = task("a", ts(2024, 5, 6, 7, 8, 9), "A");
    let t2 = task("b", ts(2024, 5, 6, 7, 8, 10), "B");
    let mut contents = record_text(false, &t1);
    contents.push_str(&record_text(true, &t2));
    let records = parse_log(&contents, &fb);
    assert_eq!(records.len(), 2);
    assert_eq!(records[0].task_description, "B");
    assert_eq!(records[1].task_description, "A");
}

#[test]
fn list_via_store_reader() {
    let t1 = task("a", ts(2024, 5, 6, 7, 8, 9), "A");
    let contents = record_text(false, &t1);
    let records = get_tasks_from(Some(&contents));
    assert_eq!(records.len(), 1);
    assert_eq!(records[0].task_description, "A");
}

#[test]
fn crlf_line_endings_read_fine() {
    let fb = ts(2000, 1, 1, 0, 0, 0);
    let contents =
        "id,created_at,task_description\r\na,\"2024-05-06 07:08:09\",\"windows file\"\r\n";
    let records = parse_log(contents, &fb);
    assert_eq!(records.len(), 1);
    assert_eq!(records[0].task_description, "windows file");
    assert_eq!(records[0].created_at, ts(2024, 5, 6, 7, 8, 9));
}

#[test]
fn file_without_final_newline_still_reads() {
    let fb = ts(2000, 1, 1, 0, 0, 0);
    let contents = "id,created_at,task_description\na,\"2024-05-06 07:08:09\",\"kept\"";
    let records = parse_log(contents, &fb);
    assert_eq!(records.len(), 1);
    assert_eq!(records[0].task_description, "kept");
}
