use hl::etf2l::{highlander_results, is_match_body, match_time, next_page, player_id};

#[test]
fn the_player_id_is_read_from_its_response() {
    assert_eq!(player_id(r#"{"player": {"id": 123456, "name": "Flashy"}, "status": {"code": 200}}"#), Some(123456));
    assert_eq!(player_id(r#"{"player": {"id": "123456"}}"#), None, "an id must be a number");
    assert_eq!(player_id(r#"{"id": 5}"#), None);
    assert_eq!(player_id("not json"), None);
}

#[test]
fn a_results_page_gives_its_highlander_results_in_order() {
    let body = r#"{"data": [
        {"result": 30, "competition": {"type": "Highlander"}},
        {"result": 31, "competition": {"type": "6v6"}},
        {"competition": {"type": "Highlander"}},
        {"result": 29, "competition": {"type": "Highlander"}},
        {"result": 28.5, "competition": {"type": "Highlander"}}
    ], "last_page": 3}"#;
    let (ids, last) = highlander_results(body).unwrap();
    assert_eq!(ids, vec![30, 29]);
    assert_eq!(last, Some(3));
    assert_eq!(next_page(1, last), Some(2));
    let (ids, last) = highlander_results("{}").unwrap();
    assert!(ids.is_empty());
    assert_eq!(last, None);
    assert_eq!(next_page(1, last), None, "a page naming no last page is the last");
    assert!(highlander_results("[").is_none());
}

#[test]
fn a_stored_match_gives_its_time() {
    assert_eq!(match_time(r#"{"match": {"id": 9, "time": 1700000000}}"#), Some(1_700_000_000));
    assert_eq!(match_time(r#"{"match": {"id": 9}}"#), None);
    assert_eq!(match_time(""), None);
}

#[test]
fn a_match_body_must_hold_a_match() {
    assert!(is_match_body(r#"{"match": {"id": 9}}"#));
    assert!(is_match_body(r#"{"match": null}"#), "any match member counts");
    assert!(!is_match_body(r#"{"status": 404}"#));
    assert!(!is_match_body("<html>"));
}
