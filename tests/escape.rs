use open_urls_together::escape::{escape_for_shell, CHAIN_CHAR, ESCAPE_CHAR};

#[test]
fn chaining_character_gets_escape_prefix() {
    assert_eq!(escape_for_shell("a&b"), "a^&b");
}

#[test]
fn escape_character_is_doubled() {
    assert_eq!(escape_for_shell("a^b"), "a^^b");
}

#[test]
fn escape_character_is_doubled_before_chaining_is_escaped() {
    assert_eq!(escape_for_shell("a^&b"), "a^^^&b");
}

#[test]
fn plain_url_is_unchanged() {
    assert_eq!(
        escape_for_shell("https://www.sciencedaily.com/news"),
        "https://www.sciencedaily.com/news"
    );
    assert_eq!(
        escape_for_shell("https://stockcharts.com/h-sc/ui?s=$SPX"),
        "https://stockcharts.com/h-sc/ui?s=$SPX"
    );
}

#[test]
fn empty_url_stays_empty() {
    assert_eq!(escape_for_shell(""), "");
}

#[test]
fn runs_of_special_characters() {
    assert_eq!(escape_for_shell("^^"), "^^^^");
    assert_eq!(escape_for_shell("&&"), "^&^&");
    assert_eq!(escape_for_shell("&^"), "^&^^");
    assert_eq!(escape_for_shell("^"), "^^");
    assert_eq!(escape_for_shell("&"), "^&");
}

#[test]
fn several_query_parameters() {
    assert_eq!(
        escape_for_shell("https://x.org/q?a=1&b=2&c=^3"),
        "https://x.org/q?a=1^&b=2^&c=^^3"
    );
}

#[test]
fn non_ascii_characters_are_kept() {
    assert_eq!(escape_for_shell("https://é.hu/á&ő"), "https://é.hu/á^&ő");
}

#[test]
fn escaping_equals_two_replacements_in_order() {
    let samples = ["", "a", "a^&b", "&^&^", "x^^&&y", "https://b.com&c=1"];
    for s in samples {
        let expected = s.replace("^", "^^").replace("&", "^&");
        assert_eq!(escape_for_shell(s), expected);
    }
}

#[test]
fn shell_characters() {
    assert_eq!(ESCAPE_CHAR, '^');
    assert_eq!(CHAIN_CHAR, '&');
}
