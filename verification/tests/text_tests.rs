use stable_tabs::numbers::parse_u64;
use stable_tabs::template::{render_template, TemplateFault};

#[test]
fn parsing_accepts_plain_and_plus_prefixed_numbers() {
    assert_eq!(parse_u64("0"), Some(0));
    assert_eq!(parse_u64("9"), Some(9));
    assert_eq!(parse_u64("+9"), Some(9));
    assert_eq!(parse_u64("007"), Some(7));
    assert_eq!(parse_u64("18446744073709551615"), Some(u64::MAX));
}

#[test]
fn parsing_rejects_junk_and_overflow() {
    assert_eq!(parse_u64(""), None);
    assert_eq!(parse_u64("+"), None);
    assert_eq!(parse_u64("-1"), None);
    assert_eq!(parse_u64("9a"), None);
    assert_eq!(parse_u64("4 2"), None);
    assert_eq!(parse_u64("18446744073709551616"), None);
    assert_eq!(parse_u64("99999999999999999999999999"), None);
}

#[test]
fn rendering_substitutes_the_position() {
    assert_eq!(render_template("{tab_position}", 12), Ok("12".to_string()));
    assert_eq!(render_template("tab {tab_position}!", 1), Ok("tab 1!".to_string()));
    assert_eq!(
        render_template("{tab_position}-{tab_position}", 3),
        Ok("3-3".to_string())
    );
    assert_eq!(render_template("plain", 5), Ok("plain".to_string()));
    assert_eq!(render_template("", 5), Ok("".to_string()));
}

#[test]
fn rendering_handles_escaped_braces() {
    assert_eq!(render_template("{{}}", 1), Ok("{}".to_string()));
    assert_eq!(render_template("a{{tab_position}}b", 4), Ok("a{tab_position}b".to_string()));
}

#[test]
fn rendering_rejects_malformed_templates() {
    assert_eq!(render_template("{pos}", 1), Err(TemplateFault::UnknownPlaceholder));
    assert_eq!(render_template("{tab_position!}", 1), Err(TemplateFault::UnknownPlaceholder));
    assert_eq!(render_template("{x", 1), Err(TemplateFault::UnclosedPlaceholder));
    assert_eq!(render_template("{tab_position", 1), Err(TemplateFault::UnclosedPlaceholder));
    assert_eq!(render_template("x}", 1), Err(TemplateFault::StrayClose));
}
