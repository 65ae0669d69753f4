use cac::{
    amended_message, authors_template, merge_contributors, parse_authors, rank_matches,
    strip_coauthor_trailers, unique_contributors, without_user, Contributor,
};

fn person(name: &str, email: &str) -> Contributor {
    Contributor { name: name.to_string(), email: email.to_string() }
}

#[test]
fn parse_authors_reads_readme_example() {
    let content = "# cac authors — add one author per line in \"Name <email>\" format\n\
                   # Lines starting with # are comments\n\
                   Alice Example <alice@example.com>\n\
                   Bob Builder <bob@example.com>\n";
    let parsed = parse_authors(content);
    assert_eq!(
        parsed,
        vec![person("Alice Example", "alice@example.com"), person("Bob Builder", "bob@example.com")]
    );
}

#[test]
fn parse_authors_skips_comments_blank_and_malformed_lines() {
    let content = "\n   \n# Carol <carol@example.com>\n  # indented comment\nno email here\n<only@email>\nName <>\nBackwards >x<\nDana <dana@example.com>";
    let parsed = parse_authors(content);
    assert_eq!(parsed, vec![person("Dana", "dana@example.com")]);
}

#[test]
fn parse_authors_trims_and_uses_last_brackets() {
    let content = "  Eve  Smith   <  eve@example.com  >  \r\nA <b> C <c@example.com>\r\n";
    let parsed = parse_authors(content);
    assert_eq!(
        parsed,
        vec![person("Eve  Smith", "eve@example.com"), person("A <b> C", "c@example.com")]
    );
}

#[test]
fn parse_authors_of_empty_text_is_empty() {
    assert!(parse_authors("").is_empty());
}

#[test]
fn template_with_user_lists_only_the_user_who_is_filtered_out() {
    let me = person("Tom Example", "tom@example.com");
    let text = authors_template(&Some(me.clone()));
    assert_eq!(
        text,
        "# cac authors — add one author per line in \"Name <email>\" format\n\
         # Lines starting with # are comments and are ignored\n\
         # Your own entry below is just a format example — it is filtered out automatically\n\
         Tom Example <tom@example.com>\n"
    );
    let parsed = parse_authors(&text);
    assert_eq!(parsed, vec![me.clone()]);
    assert!(without_user(&parsed, &Some(me)).is_empty());
}

#[test]
fn template_without_user_lists_nobody() {
    let text = authors_template(&None);
    assert_eq!(
        text,
        "# cac authors — add one author per line in \"Name <email>\" format\n\
         # Lines starting with # are comments and are ignored\n"
    );
    assert!(parse_authors(&text).is_empty());
}

#[test]
fn strip_keeps_body_and_drops_indented_and_uppercase_trailers() {
    let msg = "fix: thing\r\n\r\nBody line\n   CO-AUTHORED-BY: X <x@y>\nco-authored-by:y\nNot a Co-authored-by: trailer\n";
    assert_eq!(
        strip_coauthor_trailers(msg),
        "fix: thing\n\nBody line\nNot a Co-authored-by: trailer"
    );
}

#[test]
fn strip_of_empty_message_is_empty() {
    assert_eq!(strip_coauthor_trailers(""), "");
}

#[test]
fn amended_message_replaces_old_trailers() {
    let msg = "feat: add feature\n\nCo-authored-by: Old <old@example.com>\n";
    let coauthors = vec![person("Alice Smith", "alice@example.com"), person("Bob Jones", "bob@example.com")];
    let new_msg = amended_message(msg, &coauthors);
    assert_eq!(
        new_msg,
        "feat: add feature\n\nCo-authored-by: Alice Smith <alice@example.com>\nCo-authored-by: Bob Jones <bob@example.com>\n"
    );
    // Amending again with the same co-authors gives the same message.
    assert_eq!(amended_message(&new_msg, &coauthors), new_msg);
}

#[test]
fn amending_twice_keeps_a_crlf_message() {
    let msg = "fix: x\r\n\r\nbody  \r\n\r\nCo-authored-by: Z <z@z>\r\n";
    let coauthors = vec![person("Alice", "a@x")];
    let once = amended_message(msg, &coauthors);
    assert_eq!(once, "fix: x\n\nbody\n\nCo-authored-by: Alice <a@x>\n");
    assert_eq!(amended_message(&once, &coauthors), once);
}

#[test]
fn amended_message_without_coauthors_clears_trailers() {
    let msg = "Your commit message  \n\nCo-authored-by: A <a@b>";
    assert_eq!(amended_message(msg, &[]), "Your commit message\n\n");
}

#[test]
fn unique_contributors_skips_empty_entries_and_the_user() {
    let authors = vec![
        person("", "anon@example.com"),
        person("Nobody", ""),
        person("Me", "ME@Example.com"),
        person("Zed", "zed@example.com"),
        person("Zed Again", "ZED@example.com"),
        person("Amy", "amy@example.com"),
    ];
    let me = Some(person("Me Myself", "me@example.com"));
    let found = unique_contributors(&authors, &me);
    assert_eq!(found, vec![person("Zed", "zed@example.com"), person("Amy", "amy@example.com")]);
    let found_without_user = unique_contributors(&authors, &None);
    assert_eq!(found_without_user.len(), 3);
    assert_eq!(found_without_user[0], person("Me", "ME@Example.com"));
}

#[test]
fn without_user_filters_case_insensitively() {
    let cs = vec![person("A", "a@x"), person("Me", "Me@X"), person("B", "b@x")];
    let me = Some(person("me", "me@x"));
    assert_eq!(without_user(&cs, &me), vec![person("A", "a@x"), person("B", "b@x")]);
    assert_eq!(without_user(&cs, &None), cs);
}

#[test]
fn merge_puts_pinned_first_and_drops_duplicates_by_email() {
    let pinned = vec![person("Pinned Bob", "Bob@Example.com"), person("Pinned Ann", "ann@example.com")];
    let history = vec![
        person("Carl", "carl@example.com"),
        person("Bob From Git", "bob@example.COM"),
        person("Dee", "dee@example.com"),
    ];
    assert_eq!(
        merge_contributors(&pinned, &history),
        vec![
            person("Pinned Bob", "Bob@Example.com"),
            person("Pinned Ann", "ann@example.com"),
            person("Carl", "carl@example.com"),
            person("Dee", "dee@example.com"),
        ]
    );
}

#[test]
fn rank_matches_orders_by_score_then_index() {
    let scores = vec![Some(10), None, Some(30), Some(10), Some(-5), None, Some(30)];
    assert_eq!(rank_matches(&scores), vec![2, 6, 0, 3, 4]);
    assert!(rank_matches(&vec![None, None]).is_empty());
    assert!(rank_matches(&vec![]).is_empty());
}

#[test]
fn parsing_joined_texts_reads_each_in_turn() {
    let a = "Ann <ann@x.org>\n# note\nBea <bea@y.org>\r";
    let b = "\n  Cid <cid@z.org>  \r\nbroken line\nDee<dee@w.org>";
    let joined = format!("{}\n{}", a, b);
    let mut expected = parse_authors(a);
    expected.extend(parse_authors(b));
    assert_eq!(parse_authors(&joined), expected);
    assert_eq!(
        expected,
        vec![
            person("Ann", "ann@x.org"),
            person("Bea", "bea@y.org"),
            person("Cid", "cid@z.org"),
            person("Dee", "dee@w.org"),
        ]
    );
}

#[test]
fn displayed_authors_read_back() {
    let cs = vec![
        person("Ann Lee", "ann@x.org"),
        person("Bo <B>", "bo@y.org"),
        person("Cid", "CID@Z.ORG"),
    ];
    let text = cs.iter().map(|c| c.display()).collect::<Vec<_>>().join("\n");
    assert_eq!(parse_authors(&text), cs);
}
