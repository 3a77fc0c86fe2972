use oxbed::normalization::normalize;

#[test]
fn normalize_collapses_whitespace_and_nfkc() {
    let raw = "\u{FB01}   bar baz";
    let normalized = normalize(raw);
    assert_eq!(normalized, "fi bar baz");
}

#[test]
fn normalize_limits_newlines_and_drops_carriage_returns() {
    assert_eq!(normalize("  a\r\n\n\n\nb\t\tc  "), "a\n\nb c");
}

#[test]
fn normalize_is_idempotent_on_normalized_text() {
    let once = normalize("Ｈｅｌｌｏ\u{00A0}\u{00A0}world\n\n\nnext  line ");
    assert_eq!(once, "Hello world\n\nnext line");
    assert_eq!(normalize(&once), once);
}

#[test]
fn normalize_keeps_newline_runs_across_spaces() {
    let once = normalize("a\n \n \nb");
    assert_eq!(once, "a\n\nb");
    assert_eq!(normalize(&once), once);
    assert_eq!(normalize("a \n b"), "a \nb");
}

#[test]
fn carriage_returns_go_before_nfkc() {
    let once = normalize("e\r\u{301}");
    assert_eq!(once, "\u{e9}");
    assert_eq!(normalize(&once), once);
}
