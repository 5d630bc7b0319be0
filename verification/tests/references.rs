//! Byte classes, and the recognition of literal references.

use external_agent_migration::bytes::{
    is_ascii_letter, is_ascii_letter_or_digit, is_reference_suffix_byte, is_uri_payload_start_byte,
    is_uri_scheme_byte, is_whitespace, is_word_byte,
};
use external_agent_migration::markdown::{
    find_last_pair, find_line_start, is_inline_markdown_destination_prefix, is_markdown_escaped,
    is_markdown_link_destination_match, is_reference_markdown_destination_prefix,
};
use external_agent_migration::reference::{is_literal_reference_match, is_retargetable_match};
use external_agent_migration::uri::{
    find_token_start, is_relative_uri_component_match, is_uri_reference_match, is_uri_scheme,
};

/// The place of the first `needle` in `text`.
fn place(text: &str, needle: &str) -> (usize, usize) {
    let start = text.find(needle).unwrap();
    (start, start + needle.len())
}

fn literal(text: &str, needle: &str) -> bool {
    let (start, end) = place(text, needle);
    is_literal_reference_match(text.as_bytes(), start, end)
}

fn retargetable(text: &str, needle: &str) -> bool {
    let (start, end) = place(text, needle);
    is_retargetable_match(text.as_bytes(), start, end)
}

fn in_destination(text: &str, needle: &str) -> bool {
    let (start, _) = place(text, needle);
    is_markdown_link_destination_match(text.as_bytes(), start)
}

#[test]
fn byte_classes_agree_with_std() {
    for byte in 0..=255u8 {
        let alphanumeric = byte.is_ascii_alphanumeric();
        assert_eq!(is_ascii_letter(byte), byte.is_ascii_alphabetic());
        assert_eq!(is_ascii_letter_or_digit(byte), alphanumeric);
        assert_eq!(is_whitespace(byte), byte.is_ascii_whitespace());
        assert_eq!(is_word_byte(byte), alphanumeric || byte == b'_');
        assert_eq!(
            is_reference_suffix_byte(byte),
            alphanumeric || b"_-".contains(&byte)
        );
        assert_eq!(
            is_uri_scheme_byte(byte),
            alphanumeric || b"+-.".contains(&byte)
        );
        assert_eq!(
            is_uri_payload_start_byte(byte),
            alphanumeric || b"_-/.~%:@?#[+".contains(&byte)
        );
    }
}

#[test]
fn uri_schemes_begin_with_a_letter() {
    assert!(is_uri_scheme(b"https"));
    assert!(is_uri_scheme(b"a+b-c.1"));
    assert!(!is_uri_scheme(b""));
    assert!(!is_uri_scheme(b"1a"));
    assert!(!is_uri_scheme(b"+a"));
    assert!(!is_uri_scheme(b"a_b"));
}

#[test]
fn tokens_and_lines_begin_after_whitespace_and_line_feeds() {
    assert_eq!(find_token_start(b"ab cd", 5), 3);
    assert_eq!(find_token_start(b"ab cd", 3), 3);
    assert_eq!(find_token_start(b"ab cd", 2), 0);
    assert_eq!(find_token_start(b"a\x0cb", 3), 2);
    assert_eq!(find_token_start(b"a\x0bb", 3), 0);
    assert_eq!(find_line_start(b"ab c\nd e", 8), 5);
    assert_eq!(find_line_start(b"ab c\nd e", 5), 5);
    assert_eq!(find_line_start(b"ab c\nd e", 4), 0);
}

#[test]
fn relative_uri_components_are_queries_and_fragments() {
    let in_query = |text: &str| {
        let (start, end) = place(text, "agent");
        is_relative_uri_component_match(text.as_bytes(), start, end)
    };
    assert!(in_query("?x=agent"));
    assert!(in_query("page#agent"));
    assert!(in_query("agent?x"));
    assert!(in_query("agent#x"));
    assert!(!in_query("agent?"));
    assert!(!in_query("agent? x"));
    assert!(!in_query("agent?\""));
    assert!(!in_query("? agent"));
    assert!(!in_query("agent"));
}

#[test]
fn uri_references_hold_schemes_and_all_after_them() {
    let in_uri = |text: &str| {
        let (start, end) = place(text, "agent");
        is_uri_reference_match(text.as_bytes(), start, end)
    };
    assert!(in_uri("agent:x"));
    assert!(in_uri("agent://x"));
    assert!(!in_uri("agent: x"));
    assert!(!in_uri("agent:"));
    assert!(in_uri("urn:agent"));
    assert!(in_uri("(urn:x(agent"));
    assert!(!in_uri("urn: agent"));
    assert!(!in_uri("1:agent"));
    assert!(!in_uri(":agent"));
    assert!(in_uri("1:b:agent"));
}

#[test]
fn a_scheme_run_that_begins_with_a_digit_is_no_scheme() {
    let text = "1ab:agent";
    let (start, end) = place(text, "agent");
    assert!(!is_uri_reference_match(text.as_bytes(), start, end));
    let text = "_ab:agent";
    let (start, end) = place(text, "agent");
    assert!(is_uri_reference_match(text.as_bytes(), start, end));
}

#[test]
fn escapes_are_odd_runs_of_backslashes() {
    assert!(is_markdown_escaped(br"\x", 1));
    assert!(!is_markdown_escaped(br"\\x", 2));
    assert!(is_markdown_escaped(br"\\\x", 3));
    assert!(!is_markdown_escaped(b"x", 0));
    assert!(is_markdown_escaped(br"a\", 2));
}

#[test]
fn inline_destinations_end_at_whitespace_or_the_closing_parenthesis() {
    assert!(is_inline_markdown_destination_prefix(b""));
    assert!(is_inline_markdown_destination_prefix(b"foo(bar"));
    assert!(is_inline_markdown_destination_prefix(b"(a b"));
    assert!(is_inline_markdown_destination_prefix(br"foo\)"));
    assert!(is_inline_markdown_destination_prefix(br"foo\ bar"));
    assert!(is_inline_markdown_destination_prefix(b"(a)b"));
    assert!(!is_inline_markdown_destination_prefix(b"foo)"));
    assert!(!is_inline_markdown_destination_prefix(b"foo bar"));
    assert!(!is_inline_markdown_destination_prefix(b"(a) b"));
    assert!(!is_inline_markdown_destination_prefix(br"foo\\)"));
    assert!(!is_inline_markdown_destination_prefix(br"\(a)"));
}

#[test]
fn reference_destinations_end_at_whitespace_or_the_closing_angle_bracket() {
    assert!(is_reference_markdown_destination_prefix(b""));
    assert!(is_reference_markdown_destination_prefix(b"   "));
    assert!(is_reference_markdown_destination_prefix(b"  foo"));
    assert!(is_reference_markdown_destination_prefix(b" <a b"));
    assert!(is_reference_markdown_destination_prefix(br"<a\>"));
    assert!(is_reference_markdown_destination_prefix(br"a\ b"));
    assert!(is_reference_markdown_destination_prefix(b"a>b"));
    assert!(!is_reference_markdown_destination_prefix(b" a b"));
    assert!(!is_reference_markdown_destination_prefix(b"<a>"));
    assert!(!is_reference_markdown_destination_prefix(b"foo "));
}

#[test]
fn last_pairs_are_found_from_the_end() {
    assert_eq!(find_last_pair(b"](](", b']', b'('), Some(2));
    assert_eq!(find_last_pair(b"a](b", b']', b'('), Some(1));
    assert_eq!(find_last_pair(b"]a(", b']', b'('), None);
    assert_eq!(find_last_pair(b"]", b']', b'('), None);
    assert_eq!(find_last_pair(b"", b']', b'('), None);
}

#[test]
fn link_destinations_need_an_opening_bracket_on_the_same_line() {
    assert!(in_destination("[a](agent", "agent"));
    assert!(in_destination("[a]: agent", "agent"));
    assert!(in_destination("[a]: <b agent", "agent"));
    assert!(!in_destination("a](agent", "agent"));
    assert!(!in_destination("[a\n](agent", "agent"));
    assert!(!in_destination("[a](b agent", "agent"));
    assert!(!in_destination("[a]: b agent", "agent"));
    assert!(!in_destination("agent](b)", "agent"));
    assert!(in_destination("[a](b(c agent", "agent"));
    assert!(in_destination("[a](b\\ agent", "agent"));
    assert!(in_destination("[a]: b\\ agent", "agent"));
    assert!(!in_destination("[a]: <b c> agent", "agent"));
    // The inline destination has ended, but the reference destination has not.
    assert!(in_destination("[a](b)]:agent", "agent"));
}

#[test]
fn paths_and_dotted_names_are_literal() {
    assert!(literal("/agent", "agent"));
    assert!(literal("\\agent", "agent"));
    assert!(literal(".agent", "agent"));
    assert!(literal("agent/x", "agent"));
    assert!(literal("agent\\x", "agent"));
    assert!(literal("agent.x", "agent"));
    assert!(literal("agent.-", "agent"));
    assert!(!literal("agent. x", "agent"));
    assert!(!literal("agent.", "agent"));
    assert!(!literal("agent", "agent"));
}

#[test]
fn parts_of_paths_and_dotted_names_are_literal_throughout() {
    assert!(is_literal_reference_match(b"/opt/my-agent1-dir/x", 8, 14));
    assert!(literal("/opt/my-agent-dir", "agent"));
    assert!(literal("C:\\my-agent-dir", "agent"));
    assert!(literal("plugin.my-agent-ext.config", "agent"));
    assert!(literal("my-agent-dir/x", "agent"));
    assert!(literal("my-agent-dir\\x", "agent"));
    assert!(literal("my-agent-ext.config", "agent"));
    assert!(!literal("my-agent-dir", "agent"));
    assert!(!literal("my-agent-like. Next", "agent"));
    assert!(!literal("agent-like...", "agent"));
    assert!(!literal("a/b my-agent", "agent"));
    assert!(!literal("a/b,my-agent", "agent"));
    assert!(!literal("agent-like a/b", "agent"));
    assert!(!literal("[agent](a/b)", "agent"));
}

#[test]
fn dots_that_begin_no_part_join_nothing() {
    assert!(!is_literal_reference_match(b"etc.-agent1", 5, 11));
    assert!(!literal("etc..-agent", "agent"));
    assert!(!literal("etc...-agent", "agent"));
    assert!(literal("etc.x-agent", "agent"));
    assert!(literal(".my-agent", "agent"));
    assert!(literal("a/-agent", "agent"));
    // A dot right before the match counts, whatever the match begins with.
    assert!(literal("etc.-agent", "-agent"));
}

#[test]
fn path_parts_hold_signs_and_other_scripts_but_no_punctuation() {
    assert!(literal("node_modules/@agent", "agent"));
    assert!(literal("a/x+agent", "agent"));
    assert!(literal("a/x~agent", "agent"));
    assert!(literal("a/x%agent", "agent"));
    assert!(literal("/opt/caf\u{e9}-agent", "agent"));
    assert!(literal("/opt/\u{8cc7}\u{6599}agent", "agent"));
    assert!(literal("/opt/\u{1f600}agent", "agent"));
    assert!(literal("agent@2/x", "agent"));
    assert!(literal("agent\u{e9}/x", "agent"));
    assert!(!literal("a/b\u{2014}agent", "agent"));
    assert!(!literal("\u{201c}a/b\u{201d}agent", "agent"));
    assert!(!literal("a/b\u{a0}agent", "agent"));
    assert!(!literal("a/b\u{3002}agent", "agent"));
    assert!(!literal("a/b\u{ff0c}agent", "agent"));
    assert!(!literal("agent\u{2014}a/b", "agent"));
    assert!(!literal("agent\u{a0}a/b", "agent"));
    assert!(!literal("\"a/b\"agent", "agent"));
    assert!(!literal("(a/b)agent", "agent"));
    assert!(!literal("a/b,agent", "agent"));
}

#[test]
fn words_are_bounded_by_ascii_word_bytes_only() {
    assert!(retargetable("an agent!", "agent"));
    assert!(!retargetable("anagent", "agent"));
    assert!(!retargetable("agent_x", "agent"));
    assert!(!retargetable("agents", "agent"));
    assert!(!retargetable("1agent", "agent"));
    assert!(retargetable("\u{e9}agent\u{e9}", "agent"));
    assert!(retargetable("-agent-", "agent"));
}
