//! Replacing one term, and what holds of every replacement.

use external_agent_migration::replace::{
    replace_case_insensitive_with_boundaries, replace_with_boundaries,
    try_replace_case_insensitive_with_boundaries,
};
use external_agent_migration::text::{find_from, text_range, to_lowercase};
use external_agent_migration::RewriteProfile;

fn try_any_case(input: &str, needle: &str) -> Option<String> {
    try_replace_case_insensitive_with_boundaries(input, needle, "X")
}

#[test]
fn searching_finds_the_first_occurrence_from_a_place() {
    assert_eq!(find_from(b"abcabc", b"bc", 0), Some(1));
    assert_eq!(find_from(b"abcabc", b"bc", 2), Some(4));
    assert_eq!(find_from(b"abcabc", b"bc", 5), None);
    assert_eq!(find_from(b"ab", b"abc", 0), None);
    assert_eq!(find_from(b"ab", b"", 2), Some(2));
    assert_eq!(find_from(b"", b"a", 0), None);
}

#[test]
fn lowercasing_touches_ascii_letters_only() {
    assert_eq!(to_lowercase(b"AbZ@[`{1"), b"abz@[`{1".to_vec());
    assert_eq!(to_lowercase("\u{c9}A".as_bytes()), "\u{c9}a".as_bytes().to_vec());
}

#[test]
fn ranges_of_text_are_cut_by_bytes() {
    assert_eq!(text_range("a\u{e9}b", 0, 3), "a\u{e9}");
    assert_eq!(text_range("a\u{e9}b", 1, 3), "\u{e9}");
    assert_eq!(text_range("a\u{e9}b", 4, 4), "");
}

#[test]
fn empty_terms_change_nothing() {
    assert_eq!(replace_with_boundaries("a b", "", "X"), "a b");
    assert_eq!(replace_case_insensitive_with_boundaries("a b", "", "X"), "a b");
    assert_eq!(try_any_case("a b", ""), Some("a b".to_string()));
}

#[test]
fn case_counts_only_where_asked_for() {
    assert_eq!(
        replace_with_boundaries("Source source SOURCE", "Source", "X"),
        "X source SOURCE"
    );
    assert_eq!(
        replace_case_insensitive_with_boundaries("Source source SOURCE", "sOurce", "X"),
        "X X X"
    );
}

#[test]
fn case_folding_is_ascii_only() {
    assert_eq!(
        replace_case_insensitive_with_boundaries("X\u{c9} X\u{e9}", "x\u{e9}", "Y"),
        "X\u{c9} Y"
    );
}

#[test]
fn text_around_a_replacement_is_kept_byte_by_byte() {
    assert_eq!(
        replace_with_boundaries("\u{2014}Source\u{2014} (Source), Sourced", "Source", "Codex"),
        "\u{2014}Codex\u{2014} (Codex), Sourced"
    );
    assert_eq!(
        replace_case_insensitive_with_boundaries("\u{1f600}a\u{1f600}A", "a", ""),
        "\u{1f600}\u{1f600}"
    );
}

#[test]
fn non_ascii_terms_are_replaced_in_their_case() {
    assert_eq!(
        replace_with_boundaries("\u{e9} \u{e9}", "\u{e9}", "X"),
        "X X"
    );
}

#[test]
fn occurrences_that_stay_are_passed_over_whole_when_case_counts() {
    assert_eq!(replace_with_boundaries("xa a a", "a a", "X"), "xa a a");
    assert_eq!(try_any_case("xa a a", "a a"), Some("xa X".to_string()));
}

#[test]
fn overlapping_occurrences_are_read_from_the_left_when_case_counts() {
    assert_eq!(replace_with_boundaries("a a a", "a a", "X"), "X a");
}

#[test]
fn overlapping_retargeted_occurrences_in_any_case_are_refused() {
    assert_eq!(try_any_case("a a a", "a a"), None);
    assert_eq!(try_any_case("a a, a a", "a a"), Some("X, X".to_string()));
    // Overlapping occurrences inside words are not retargeted.
    assert_eq!(try_any_case("aaa aa", "aa"), Some("aaa X".to_string()));
}

#[test]
fn occurrences_in_any_case_that_begin_outside_ascii_are_refused() {
    assert_eq!(try_any_case("caf\u{e9}", "\u{e9}"), None);
    assert_eq!(try_any_case("cafe", "\u{e9}"), Some("cafe".to_string()));
}

#[test]
fn profiles_refuse_what_their_terms_refuse() {
    let profile = RewriteProfile::new("DOC.md", &["a a"]);
    assert_eq!(profile.try_rewrite("a a a"), None);
    assert_eq!(profile.try_rewrite("a a"), Some("Codex".to_string()));
    assert_eq!(RewriteProfile::new("a a", &[]).try_rewrite("a a a"), None);
    assert_eq!(
        RewriteProfile::new("a a", &[]).try_rewrite("A A."),
        Some("AGENTS.md.".to_string())
    );
}

#[test]
fn profiles_give_back_what_they_were_made_from() {
    let profile = RewriteProfile::new("DOC.md", &["one", "two"]);
    assert_eq!(profile.doc_file_name(), "DOC.md");
    assert_eq!(profile.term_variants(), &["one", "two"]);
    assert!(profile.case_sensitive_term_variants().is_empty());

    let changed = profile
        .with_case_sensitive_term_variants(&["Three"])
        .with_case_sensitive_term_variants(&["Four"]);
    assert_eq!(changed.doc_file_name(), "DOC.md");
    assert_eq!(changed.term_variants(), &["one", "two"]);
    assert_eq!(changed.case_sensitive_term_variants(), &["Four"]);
}

#[test]
fn a_profile_without_terms_changes_nothing() {
    let text = "DOC.md and Source";
    assert_eq!(RewriteProfile::new("", &[]).rewrite(text), text);
    assert_eq!(RewriteProfile::new("", &[""]).rewrite(text), text);
}

#[test]
fn terms_apply_in_order() {
    let text = "first second";
    assert_eq!(
        RewriteProfile::new("", &["first", "codex second"]).rewrite(text),
        "Codex"
    );
    assert_eq!(
        RewriteProfile::new("", &["codex second", "first"]).rewrite(text),
        "Codex second"
    );
}

#[test]
fn the_documentation_name_comes_before_the_terms() {
    assert_eq!(
        RewriteProfile::new("DOC.md", &["agents.md", "doc"]).rewrite("doc.MD, Doc"),
        "Codex, Codex"
    );
}

#[test]
fn case_sensitive_terms_come_last() {
    let profile = RewriteProfile::new("", &["source"])
        .with_case_sensitive_term_variants(&["Codex agent"]);
    assert_eq!(profile.rewrite("SOURCE agent"), "Codex");
    assert_eq!(profile.rewrite("source AGENT"), "Codex AGENT");
}

#[test]
fn the_case_of_a_term_is_irrelevant() {
    let text = "One oNe [x](one) One/two";
    assert_eq!(
        RewriteProfile::new("", &["one"]).rewrite(text),
        "Codex Codex [x](one) One/two"
    );
    assert_eq!(
        RewriteProfile::new("", &["ONE"]).rewrite(text),
        RewriteProfile::new("", &["one"]).rewrite(text)
    );
}

#[test]
fn lines_are_rewritten_apart() {
    let profile = RewriteProfile::new("DOC.md", &["agent"])
        .with_case_sensitive_term_variants(&["Source"]);
    let lines = [
        "[a](b agent\n",
        "see [a\n",
        "](agent) DOC.md\n",
        "urn:Source agent?\n",
        "agent: Source",
    ];
    let mut whole = String::new();
    let mut rewritten = String::new();
    for line in lines {
        whole.push_str(line);
        rewritten.push_str(&profile.rewrite(line));
    }
    assert_eq!(profile.rewrite(&whole), rewritten);
    assert_eq!(
        rewritten,
        "[a](b Codex\nsee [a\n](Codex) AGENTS.md\nurn:Source Codex?\nCodex: Codex"
    );
}

#[test]
fn a_line_feed_at_the_end_makes_no_difference() {
    let profile = RewriteProfile::new("DOC.md", &["agent"])
        .with_case_sensitive_term_variants(&["Source"]);
    for text in ["", "agent", "DOC.md", "Source.", "x agent?", "[a](agent", "my-agent", "agent:"] {
        let mut ended = text.to_string();
        ended.push('\n');
        let mut expected = profile.rewrite(text);
        expected.push('\n');
        assert_eq!(profile.rewrite(&ended), expected);
    }
    assert_eq!(profile.rewrite("my-agent\n"), "my-Codex\n");
}

#[test]
fn names_inside_path_parts_stay() {
    let profile = RewriteProfile::new("DOC.md", &["agent"]);
    let text = "/opt/my-agent-dir/x, plugin.my-agent-ext.config, my-agent-dir/x, my-agent.toml";
    assert_eq!(profile.rewrite(text), text);
    assert_eq!(
        profile.rewrite("A my-agent-like tool. See /opt/x, my-agent-like."),
        "A my-Codex-like tool. See /opt/x, my-Codex-like."
    );
}

#[test]
fn the_two_replacements_agree_in_lower_case() {
    let text = "agent a/agent agents, (agent) [x](agent) agent.";
    assert_eq!(
        replace_with_boundaries(text, "agent", "X"),
        "X a/agent agents, (X) [x](agent) X."
    );
    assert_eq!(
        replace_case_insensitive_with_boundaries(text, "agent", "X"),
        replace_with_boundaries(text, "agent", "X")
    );
}

#[test]
fn texts_without_retargetable_occurrences_stay() {
    let profile = RewriteProfile::new("DOC.md", &["agent"])
        .with_case_sensitive_term_variants(&["Source"]);
    let text = "agents ./DOC.md agent.rs x#agent [l](Source) source urn:agent";
    assert_eq!(profile.rewrite(text), text);
}

#[test]
fn prose_between_spaces_and_punctuation_changes() {
    let profile = RewriteProfile::new("DOC.md", &["agent"]);
    assert_eq!(
        profile.rewrite("agent, agent; (see) agent! agent. agent? agent: agent"),
        "Codex, Codex; (see) Codex! Codex. Codex? Codex: Codex"
    );
}

#[test]
fn terms_that_never_overlap_themselves_rewrite_every_text() {
    let profile = RewriteProfile::new("DOC.md", &["agent code", "agent"]);
    for text in ["", "agent code agent code", "agentagent agent", "\u{e9}agent code\u{e9}"] {
        assert!(profile.try_rewrite(text).is_some());
    }
    assert_eq!(profile.rewrite("agent code agent code"), "Codex Codex");
}
