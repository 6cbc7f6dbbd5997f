use koth::codec::{encode, parse};
use koth::http::{handle, line_to_words};
use koth::king::{trim_str, valid_king};
use koth::score::Scoreboard;
use std::collections::HashMap;

#[test]
fn tick_awards_points_to_valid_king() {
    let mut sb = Scoreboard::new();
    let persist = sb.tick("alice\n", 3);
    assert!(!persist);
    assert_eq!(sb.get("alice"), Some(3));
    assert_eq!(sb.total(), 3);
    assert_eq!(sb.len(), 1);
}

#[test]
fn tick_total_grows_by_exactly_the_points() {
    let mut sb = Scoreboard::new();
    sb.tick("alice\n", 3);
    let before = sb.total();
    sb.tick("alice\n", 4);
    assert_eq!(sb.total(), before + 4);
    assert_eq!(sb.get("alice"), Some(7));
}

#[test]
fn tick_ignores_absent_king() {
    let mut sb = Scoreboard::new();
    let persist = sb.tick("", 5);
    assert!(!persist);
    assert_eq!(sb.len(), 0);
    assert_eq!(sb.total(), 0);
}

#[test]
fn tick_ignores_blank_king_file() {
    let mut sb = Scoreboard::new();
    let persist = sb.tick("   \n\t  ", 5);
    assert!(!persist);
    assert_eq!(sb.len(), 0);
}

#[test]
fn tick_ignores_multi_line_king_file() {
    let mut sb = Scoreboard::new();
    sb.tick("alice\n", 3);
    let persist = sb.tick("alice\nbob\n", 5);
    assert!(!persist);
    assert_eq!(sb.get("alice"), Some(3));
    assert_eq!(sb.get("bob"), None);
    assert_eq!(sb.total(), 3);
}

#[test]
fn persistence_triggers_exactly_on_multiples_of_ten() {
    let mut sb = Scoreboard::new();
    assert!(!sb.tick("alice\n", 3));
    assert!(!sb.tick("bob\n", 4));
    // total becomes 10 here
    assert!(sb.tick("bob\n", 3));
    // total 17: no trigger
    assert!(!sb.tick("alice\n", 7));
    // no mutation: no trigger even though the total stays 20 afterwards
    assert!(sb.tick("alice\n", 3));
    assert!(!sb.tick("\n", 0));
}

#[test]
fn snapshot_of_one_entry_is_flat_json() {
    let mut sb = Scoreboard::new();
    sb.tick("alice\n", 10);
    assert_eq!(encode(&sb), "{\"alice\":10}");
}

#[test]
fn snapshot_of_empty_board_is_empty_object() {
    let sb = Scoreboard::new();
    assert_eq!(encode(&sb), "{}");
    let back = parse("{}").expect("empty object reads back");
    assert_eq!(back.len(), 0);
}

#[test]
fn snapshot_round_trip_keeps_every_entry() {
    let mut sb = Scoreboard::new();
    sb.tick("alice\n", 3);
    sb.tick("bob\n", 7);
    sb.tick("carol\n", 5);
    let text = encode(&sb);
    let back = parse(&text).expect("snapshot reads back");
    assert_eq!(back.len(), 3);
    assert_eq!(back.get("alice"), Some(3));
    assert_eq!(back.get("bob"), Some(7));
    assert_eq!(back.get("carol"), Some(5));
    assert_eq!(encode(&back), text);
}

#[test]
fn snapshot_round_trip_escapes_quotes_and_backslashes() {
    let mut sb = Scoreboard::new();
    sb.tick("a\"b\\c\n", 2);
    let text = encode(&sb);
    assert_eq!(text, "{\"a\\\"b\\\\c\":2}");
    let back = parse(&text).expect("escaped name reads back");
    assert_eq!(back.get("a\"b\\c"), Some(2));
}

#[test]
fn parse_rejects_structurally_invalid_documents() {
    assert!(parse("").is_none());
    assert!(parse("{").is_none());
    assert!(parse("[]").is_none());
    assert!(parse("null").is_none());
    assert!(parse("{\"a\":}").is_none());
    assert!(parse("{\"a\":1,}").is_none());
    assert!(parse("{\"a\":1").is_none());
    assert!(parse("{\"a\"1}").is_none());
    assert!(parse("{\"a\":-1}").is_none());
    assert!(parse("{\"a\":1}x").is_none());
}

#[test]
fn parse_rejects_duplicate_names() {
    assert!(parse("{\"a\":1,\"a\":2}").is_none());
}

#[test]
fn parse_rejects_scores_out_of_range() {
    assert!(parse("{\"a\":4294967296}").is_none());
    assert!(parse("{\"a\":4294967295,\"b\":1}").is_none());
    let ok = parse("{\"a\":4294967295}").expect("largest score reads back");
    assert_eq!(ok.get("a"), Some(4294967295));
}

#[test]
fn snapshot_matches_other_json_readers() {
    let mut sb = Scoreboard::new();
    sb.tick("alice\n", 10);
    let text = encode(&sb);
    let map: HashMap<String, u32> = serde_json::from_str(&text).expect("valid JSON");
    assert_eq!(map.len(), 1);
    assert_eq!(map.get("alice"), Some(&10));
    let mut other = HashMap::new();
    other.insert("alice".to_string(), 10u32);
    let theirs = serde_json::to_string(&other).expect("serializes");
    let back = parse(&theirs).expect("their encoding reads back");
    assert_eq!(back.get("alice"), Some(10));
}

#[test]
fn data_path_serves_the_data_file_bytes() {
    let resp = handle("GET /data HTTP/1.1", "{\"alice\":10}", "alice\n");
    assert_eq!(resp, "HTTP/1.1 200 OK\r\n\r\n{\"alice\":10}");
}

#[test]
fn data_path_serves_empty_body_when_file_absent() {
    let resp = handle("GET /data HTTP/1.1", "", "alice\n");
    assert_eq!(resp, "HTTP/1.1 200 OK\r\n\r\n");
}

#[test]
fn other_paths_serve_the_trimmed_king() {
    let resp = handle("GET / HTTP/1.1", "{\"alice\":10}", "  alice \n");
    assert_eq!(resp, "HTTP/1.1 200 OK\r\n\r\nalice");
    let resp = handle("GET /anything HTTP/1.1", "{}", "bob\n");
    assert_eq!(resp, "HTTP/1.1 200 OK\r\n\r\nbob");
}

#[test]
fn non_get_method_is_refused() {
    let resp = handle("POST /data HTTP/1.1", "{}", "alice\n");
    assert_eq!(resp, "HTTP/1.1 420 NOPE\r\n\r\n");
}

#[test]
fn malformed_request_lines_are_bad_requests() {
    assert_eq!(handle("GET /data", "{}", ""), "HTTP/1.1 400 BAD REQUEST\r\n\r\n");
    assert_eq!(
        handle("GET /data HTTP/1.1 extra", "{}", ""),
        "HTTP/1.1 400 BAD REQUEST\r\n\r\n"
    );
    assert_eq!(handle("", "{}", ""), "HTTP/1.1 400 BAD REQUEST\r\n\r\n");
}

#[test]
fn request_lines_split_on_whitespace_runs() {
    let words = line_to_words("GET   /data\tHTTP/1.1");
    assert_eq!(words, vec!["GET", "/data", "HTTP/1.1"]);
    let words = line_to_words("  a  b ");
    assert_eq!(words, vec!["a", "b"]);
    let words = line_to_words("   ");
    assert!(words.is_empty());
}

#[test]
fn trimming_strips_surrounding_whitespace_only() {
    assert_eq!(trim_str("  alice \n"), "alice");
    assert_eq!(trim_str("a b"), "a b");
    assert_eq!(trim_str("\t\r\n "), "");
    assert_eq!(trim_str(""), "");
}

#[test]
fn king_validity_requires_one_non_empty_line() {
    assert!(valid_king("alice"));
    assert!(!valid_king(""));
    assert!(!valid_king("a\nb"));
}

#[test]
fn leader_prefers_high_scores_then_early_names() {
    let mut sb = Scoreboard::new();
    sb.tick("bob\n", 5);
    sb.tick("alice\n", 5);
    let (name, score) = sb.leader().expect("non-empty board has a leader");
    assert_eq!(name, "alice");
    assert_eq!(score, 5);
    sb.tick("carol\n", 7);
    let (name, score) = sb.leader().expect("non-empty board has a leader");
    assert_eq!(name, "carol");
    assert_eq!(score, 7);
    assert!(Scoreboard::new().leader().is_none());
}

#[test]
fn standings_sort_by_score_then_name() {
    let mut sb = Scoreboard::new();
    sb.tick("alice\n", 5);
    sb.tick("bob\n", 7);
    sb.tick("carol\n", 5);
    let ranked = sb.standings();
    let names: Vec<String> = ranked.iter().map(|e| e.0.clone()).collect();
    let scores: Vec<u32> = ranked.iter().map(|e| e.1).collect();
    assert_eq!(names, vec!["bob", "alice", "carol"]);
    assert_eq!(scores, vec![7, 5, 5]);
}

#[test]
fn ten_ticks_of_one_point_persist_a_round_total() {
    let mut sb = Scoreboard::new();
    let mut persisted = Vec::new();
    for _ in 0..10 {
        persisted.push(sb.tick("alice\n", 1));
    }
    assert_eq!(persisted[..9], vec![false; 9][..]);
    assert!(persisted[9]);
    assert_eq!(sb.get("alice"), Some(10));
    assert_eq!(sb.len(), 1);
    assert_eq!(sb.total(), 10);
    assert_eq!(encode(&sb), "{\"alice\":10}");
}
