use ush::freq::{
    display_value, duration_bucket, encode_json_line, encode_wide_header, encode_wide_row, group_targets, shell_quote,
    sort_order, status_sort_key, status_text,
};
use ush::time::Duration;

#[test]
fn test_encode_json() {
    let targets = vec!["a".to_string(), "b".to_string()];
    let have = encode_json_line("100", &"hello".to_string(), &targets);
    let want = "{\"freq\":100,\"value\":\"hello\",\"targets\":[\"a\",\"b\"]}\n";
    assert_eq!(have, want);
}

#[test]
fn test_encode_wide() {
    let mut have = encode_wide_header();
    have.push_str(&encode_wide_row(0, 2, "100.00", "hello"));
    let want = "count    targets  freq %   value\n1        2        100.00   \"hello\"\n";
    assert_eq!(have, want);
}

#[test]
fn encode_json_line_escapes_values() {
    let have = encode_json_line("33.33", &"a\"b\n".to_string(), &[]);
    assert_eq!(have, "{\"freq\":33.33,\"value\":\"a\\\"b\\n\",\"targets\":[]}\n");
}

#[test]
fn wide_rows_cut_long_values() {
    let long = "x".repeat(60);
    let row = encode_wide_row(9, 1, "1.00", &long);
    let want = format!("10       1        1.00   \"{}[...]\"\n", "x".repeat(50));
    assert_eq!(row, want);
    assert_eq!(display_value("short"), "\"short\"");
}

#[test]
fn group_targets_by_key() {
    let entries: Vec<(String, String)> = [("8ms", "a"), ("2ms", "c"), ("8ms", "b")]
        .iter()
        .map(|(k, t)| (k.to_string(), t.to_string()))
        .collect();
    let groups = group_targets(&entries);
    assert_eq!(groups.len(), 2);
    assert_eq!(groups[0].value, "8ms");
    assert_eq!(groups[0].targets, vec!["a", "b"]);
    assert_eq!(groups[1].value, "2ms");
    assert_eq!(groups[1].targets, vec!["c"]);
    assert!(group_targets(&[]).is_empty());
}

#[test]
fn duration_buckets_round_up_to_bucket_end() {
    let five = Duration::from_millis(5);
    assert_eq!(duration_bucket(Duration::from_millis(8), five), "10ms");
    assert_eq!(duration_bucket(Duration::from_millis(6), five), "10ms");
    assert_eq!(duration_bucket(Duration::from_millis(2), five), "5ms");
    assert_eq!(duration_bucket(Duration::from_millis(5), five), "10ms");
    assert_eq!(duration_bucket(Duration::from_millis(8), Duration::zero()), "8ms");
}

#[test]
fn sort_order_is_stable() {
    assert_eq!(sort_order(&[3, 1, 2, 1]), vec![1, 3, 2, 0]);
    assert_eq!(sort_order(&[]), Vec::<usize>::new());
    assert_eq!(sort_order(&[-5, 255, 1]), vec![0, 2, 1]);
}

#[test]
fn shell_quote_escapes() {
    assert_eq!(shell_quote("a b"), "\"a b\"");
    assert_eq!(shell_quote("\u{7}\u{8}\u{c}\u{b}\t\r\n\"\\"), "\"\\a\\b\\f\\v\\t\\r\\n\\\"\\\\\"");
    assert_eq!(shell_quote("\u{1}\u{ff}"), "\"\\x01\\xff\"");
    assert_eq!(shell_quote("€"), "\"\\u20ac\"");
}

#[test]
fn status_text_is_decimal() {
    assert_eq!(status_text(255), "255");
    assert_eq!(status_text(-1), "-1");
}

#[test]
fn encode_json_line_uses_serde_json_escapes() {
    let have = encode_json_line("1", &"\u{8}\u{c}\u{1}\u{7f}é".to_string(), &["t\"1".to_string()]);
    assert_eq!(have, "{\"freq\":1,\"value\":\"\\b\\f\\u0001\u{7f}é\",\"targets\":[\"t\\\"1\"]}\n");
}

#[test]
fn status_sort_key_reads_i32() {
    assert_eq!(status_sort_key("255"), 255);
    assert_eq!(status_sort_key("-1"), -1);
    assert_eq!(status_sort_key("+7"), 7);
    assert_eq!(status_sort_key("-2147483648"), i32::MIN);
    assert_eq!(status_sort_key("2147483648"), 0);
    assert_eq!(status_sort_key("-"), 0);
    assert_eq!(status_sort_key("-+1"), 0);
    assert_eq!(status_sort_key("x"), 0);
    assert_eq!(status_sort_key(""), 0);
}
