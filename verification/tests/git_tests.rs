use cac::{strip_coauthor_trailers, unique_contributors, Contributor};

#[test]
fn test_strip_coauthor_trailers() {
    let msg = "feat: add feature\n\nCo-authored-by: Alice <alice@example.com>\nCo-authored-by: Bob <bob@example.com>\n";
    let result = strip_coauthor_trailers(msg);
    assert_eq!(result, "feat: add feature\n");
}

#[test]
fn test_strip_coauthor_preserves_body() {
    let msg = "feat: add feature\n\nThis is a body.\n";
    let result = strip_coauthor_trailers(msg);
    assert_eq!(result, "feat: add feature\n\nThis is a body.");
}

#[test]
fn test_contributor_display() {
    let c = Contributor {
        name: "Alice".to_string(),
        email: "alice@example.com".to_string(),
    };
    assert_eq!(c.display(), "Alice <alice@example.com>");
}

#[test]
fn test_case_insensitive_email_dedup() {
    // Walking through commits newest-first: first Alice@Example.COM, then
    // alice@example.com (older); the first one is kept with its own casing.
    let contrib1 = Contributor {
        name: "Alice Smith".to_string(),
        email: "Alice@Example.COM".to_string(),
    };
    let contrib2 = Contributor {
        name: "Alice Smith".to_string(),
        email: "alice@example.com".to_string(),
    };
    let contributors = unique_contributors(&vec![contrib1, contrib2], &None);

    assert_eq!(contributors.len(), 1);
    assert_eq!(contributors[0].email, "Alice@Example.COM");
}
