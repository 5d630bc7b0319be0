//! Rewriting whole texts with a profile.

use external_agent_migration::RewriteProfile;

fn profile() -> RewriteProfile {
    RewriteProfile::new("SOURCE.md", &["source agent"])
        .with_case_sensitive_term_variants(&["Source"])
}

fn kepler_profile() -> RewriteProfile {
    RewriteProfile::new(
        "KEPLER.md",
        &[
            "kepler code",
            "kepler-code",
            "kepler_code",
            "keplercode",
            "kepler",
        ],
    )
}

#[test]
fn rewrites_terms_only_at_word_boundaries() {
    assert_eq!(
        profile().rewrite("SOURCE.md Source source agent source_agent"),
        "AGENTS.md Codex Codex source_agent"
    );
}

#[test]
fn preserves_source_specific_filesystem_references() {
    assert_eq!(
        profile().rewrite(
            "Read ./SOURCE.md, C:\\repo\\SOURCE.md, ~/.Source/config, and .Source before using Source."
        ),
        "Read ./SOURCE.md, C:\\repo\\SOURCE.md, ~/.Source/config, and .Source before using Codex."
    );
}

#[test]
fn preserves_source_specific_urls_and_dotted_identifiers() {
    assert_eq!(
        profile().rewrite(
            "See https://Source.dev/docs, docs.Source.dev, and plugin.Source.config. Source."
        ),
        "See https://Source.dev/docs, docs.Source.dev, and plugin.Source.config. Codex."
    );
}

#[test]
fn rewrites_standalone_doc_name_but_not_path_qualified_doc_name() {
    assert_eq!(
        profile().rewrite("SOURCE.md lives beside ../SOURCE.md and $HOME/SOURCE.md."),
        "AGENTS.md lives beside ../SOURCE.md and $HOME/SOURCE.md."
    );
}

#[test]
fn preserves_claude_skill_paths_while_retargeting_prose() {
    let input = "Session transcripts live in ~/.kepler/projects/<slug>/.\n\
        See also .kepler/commands/example.md and C:\\Users\\me\\.kepler\\plans\\today.md.\n\
        Use Kepler Code UI and read KEPLER.md.";
    let expected = "Session transcripts live in ~/.kepler/projects/<slug>/.\n\
        See also .kepler/commands/example.md and C:\\Users\\me\\.kepler\\plans\\today.md.\n\
        Use Codex UI and read AGENTS.md.";

    assert_eq!(kepler_profile().rewrite(input), expected);
}

#[test]
fn preserves_source_specific_terms_anywhere_inside_urls() {
    let input = "See https://example.test/?agent=kepler#kepler, \
        <https://example.test/search?q=Kepler>, and kepler://session?id=kepler. \
        Use Kepler.";
    let expected = "See https://example.test/?agent=kepler#kepler, \
        <https://example.test/search?q=Kepler>, and kepler://session?id=kepler. \
        Use Codex.";

    assert_eq!(kepler_profile().rewrite(input), expected);
}

#[test]
fn preserves_query_url_variants() {
    assert_eq!(
        kepler_profile().rewrite("https://example.test/?agent=kepler"),
        "https://example.test/?agent=kepler"
    );
    assert_eq!(
        kepler_profile().rewrite("https://[::1]/docs(foo)?agent=Kepler"),
        "https://[::1]/docs(foo)?agent=Kepler"
    );
}

#[test]
fn preserves_relative_uri_query_and_fragment_references() {
    let input = "?agent=kepler foo#kepler kepler?agent=1 kepler#section \
        //example.test/?agent=Kepler#kepler";

    assert_eq!(kepler_profile().rewrite(input), input);
}

#[test]
fn preserves_quoted_paths_and_dotted_identifiers() {
    let input = r#"Read "/opt/Kepler Code/config", 'C:\Program Files\Kepler Code\config', \\server\Kepler\config, and plugin.Kepler.config. Use Kepler Code."#;
    let expected = r#"Read "/opt/Kepler Code/config", 'C:\Program Files\Kepler Code\config', \\server\Kepler\config, and plugin.Kepler.config. Use Codex."#;

    assert_eq!(kepler_profile().rewrite(input), expected);
}

#[test]
fn preserves_non_hierarchical_uri_references_without_hiding_prose_labels() {
    let input = "kepler:session, \
        urn:kepler:session, \
        mailto:kepler@example.com. \
        Kepler: use the UI.";
    let expected = "kepler:session, \
        urn:kepler:session, \
        mailto:kepler@example.com. \
        Codex: use the UI.";

    assert_eq!(kepler_profile().rewrite(input), expected);
}

#[test]
fn preserves_markdown_link_destinations_but_retargets_link_text_and_titles() {
    let input = "[relative](kepler) [fragment](#kepler) [query](?agent=kepler) \
        [Kepler](https://example.test/ \"Kepler\")";
    let expected = "[relative](kepler) [fragment](#kepler) [query](?agent=kepler) \
        [Codex](https://example.test/ \"Codex\")";

    assert_eq!(kepler_profile().rewrite(input), expected);
}

#[test]
fn preserves_markdown_reference_destinations_but_retargets_titles() {
    let input = "[plain]: kepler\n\
        [angle]: <kepler>\n\
        [nested]: foo(kepler)\n\
        [titled]: https://example.test/ \"Kepler\"\n";
    let expected = "[plain]: kepler\n\
        [angle]: <kepler>\n\
        [nested]: foo(kepler)\n\
        [titled]: https://example.test/ \"Codex\"\n";

    assert_eq!(kepler_profile().rewrite(input), expected);
}

#[test]
fn preserves_escaped_markdown_inline_destinations() {
    let input =
        r#"[close](foo\)kepler) [space](foo\ kepler) [title](https://example.test/ "Kepler")"#;
    let expected =
        r#"[close](foo\)kepler) [space](foo\ kepler) [title](https://example.test/ "Codex")"#;

    assert_eq!(kepler_profile().rewrite(input), expected);
}

#[test]
fn markdown_like_prose_without_opening_bracket_still_retargets() {
    assert_eq!(
        kepler_profile().rewrite("foo](Kepler) foo]: Kepler"),
        "foo](Codex) foo]: Codex"
    );
}

#[test]
fn prose_punctuation_still_retargets() {
    let input = "Ask Kepler? Ask Kepler?\" Kepler: use the UI.";
    let expected = "Ask Codex? Ask Codex?\" Codex: use the UI.";

    assert_eq!(kepler_profile().rewrite(input), expected);
}
