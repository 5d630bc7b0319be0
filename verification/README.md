# external_agent_migration

Rewrites text that was written for another coding agent: its documentation file name becomes
`AGENTS.md`, its product terms become `Codex`. Terms change only where they stand as words in
prose. Those in filesystem paths, URI references, Markdown link destinations and dotted
identifiers are literal references and stay, also inside a longer part such as
`/opt/my-agent-dir` or `my-agent.toml`.

`RewriteProfile` names the terms; `RewriteProfile::rewrite` rewrites a text.

| module      | content                                                               |
|-------------|-----------------------------------------------------------------------|
| `bytes`     | byte classes                                                          |
| `uri`       | URI references                                                        |
| `markdown`  | Markdown link destinations                                            |
| `reference` | literal references; which matches are retargeted                      |
| `text`      | searching, ASCII case, cutting text at character boundaries           |
| `replace`   | replacing one term, with and without regard to case                   |
| `profile`   | profiles and the rewriting of whole texts                             |
| `layout`    | laws: a replacement changes its sites and nothing else                |
| `laws`      | laws: what stays, what changes, order, case, profiles that always apply |
| `lines`     | laws: lines are rewritten independently of each other                 |

Terms that count in any case must not overlap themselves where they are rewritten, and must begin
with an ASCII character where they occur; `rewrite` requires it, `try_rewrite` checks it. Ordinary
product names meet it in every text, by `law_overlap_free_profile_rewrites_every_text`.
