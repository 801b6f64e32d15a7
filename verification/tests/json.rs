use phpm::json::json_quote_exec;

#[test]
fn json_quote_matches_serde_json() {
    for s in ["plain", "q\"uote", "back\\slash", "nl\ncr\rtab\t", "\u{8}\u{c}\u{1}\u{1f}\u{7f}", "é ü"] {
        assert_eq!(json_quote_exec(s), serde_json::to_string(s).unwrap());
    }
}
