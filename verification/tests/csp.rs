//! Letting one stylesheet through a policy.

use boreas_core::csp::relax_policy;
use boreas_core::fields::{field, Field};
use boreas_core::{permit_inline_style, InlineStyle};

const HASH: &str = "'sha256-AAAA'";

#[test]
fn a_policy_that_does_not_govern_styles_needs_no_change() {
    assert_eq!(
        permit_inline_style("script-src 'self'", HASH),
        InlineStyle::Granted
    );
    assert_eq!(permit_inline_style("", HASH), InlineStyle::Granted);
}

#[test]
fn a_blocking_style_directive_is_widened_by_exactly_one_source() {
    assert_eq!(
        permit_inline_style("style-src 'self' https://cdn.example", HASH),
        InlineStyle::Widened(format!("style-src 'self' https://cdn.example {HASH}"))
    );
    assert_eq!(
        permit_inline_style("style-src 'self'; style-src-elem 'self'", HASH),
        InlineStyle::Widened(format!("style-src 'self'; style-src-elem 'self' {HASH}"))
    );
    assert_eq!(
        permit_inline_style("default-src 'self'; style-src 'self'; img-src *", HASH),
        InlineStyle::Widened(format!(
            "default-src 'self'; style-src 'self' {HASH}; img-src *"
        ))
    );
}

#[test]
fn a_policy_already_permitting_inline_styles_is_left_alone() {
    assert_eq!(
        permit_inline_style("style-src 'self' 'unsafe-inline'", HASH),
        InlineStyle::Granted
    );
    assert_eq!(
        permit_inline_style("style-src 'unsafe-inline' 'nonce-abc'", HASH),
        InlineStyle::Widened(format!("style-src 'unsafe-inline' 'nonce-abc' {HASH}"))
    );
    assert_eq!(
        permit_inline_style(&format!("style-src {HASH}"), HASH),
        InlineStyle::Granted
    );
}

#[test]
fn inheritance_emits_a_narrower_directive_rather_than_widening_the_fallback() {
    let widened = permit_inline_style("default-src 'self' https://cdn.example", HASH);
    assert_eq!(
        widened,
        InlineStyle::Widened(format!(
            "default-src 'self' https://cdn.example; style-src 'self' https://cdn.example {HASH}"
        ))
    );
    let InlineStyle::Widened(policy) = widened else {
        unreachable!()
    };
    assert!(
        policy.starts_with("default-src 'self' https://cdn.example;"),
        "the fallback must be byte-identical: {policy}"
    );
}

#[test]
fn a_policy_forbidding_styles_outright_suppresses_the_injection() {
    assert_eq!(
        permit_inline_style("style-src 'none'", HASH),
        InlineStyle::Refused
    );
    assert_eq!(
        permit_inline_style("default-src 'none'", HASH),
        InlineStyle::Refused
    );
}

#[test]
fn widening_never_drops_a_source() {
    for policy in [
        "style-src 'self' https://a.example https://b.example",
        "default-src 'self'; script-src 'unsafe-eval'",
        "style-src-elem https://a.example; frame-ancestors 'self'",
        "style-src",
    ] {
        let InlineStyle::Widened(widened) = permit_inline_style(policy, HASH) else {
            panic!("{policy} should widen");
        };
        for source in policy.split([';', ' ']).filter(|s| !s.is_empty()) {
            assert!(widened.contains(source), "{policy} lost {source}");
        }
        assert!(!widened.contains("unsafe-inline"), "no keyword was added");
        assert_eq!(widened.matches(HASH).count(), 1, "exactly one insertion");
    }
}

#[test]
fn a_widened_policy_is_not_widened_again() {
    for policy in [
        "style-src 'self'",
        "default-src 'self' https://cdn.example; img-src *",
        "style-src 'unsafe-inline' 'nonce-abc'; style-src-elem 'self'",
    ] {
        let InlineStyle::Widened(widened) = permit_inline_style(policy, HASH) else {
            panic!("{policy} should widen");
        };
        assert_eq!(permit_inline_style(&widened, HASH), InlineStyle::Granted);
    }
}

#[test]
fn a_name_with_a_wide_character_is_no_nonce() {
    assert_eq!(
        permit_inline_style("style-src 'unsafe-inline' noncé-abc", HASH),
        InlineStyle::Granted
    );
}

#[test]
fn one_refusing_policy_suppresses_the_stylesheet_and_the_others_are_widened() {
    let mut block: Vec<Field> = vec![
        field("content-security-policy", "style-src 'self'"),
        field("server", "test"),
        field("content-security-policy", "style-src 'none'"),
    ];
    assert!(!relax_policy(&mut block, HASH));
    assert_eq!(
        block,
        vec![
            field("server", "test"),
            field("content-security-policy", "style-src 'self' 'sha256-AAAA'"),
            field("content-security-policy", "style-src 'none'"),
        ]
    );

    let mut silent: Vec<Field> = vec![field("server", "test")];
    assert!(relax_policy(&mut silent, HASH));
    assert_eq!(silent, vec![field("server", "test")]);

    let mut unsafe_value: Vec<Field> = vec![field("content-security-policy", "style-src 'self'")];
    assert!(!relax_policy(&mut unsafe_value, "a\nb"));
    assert_eq!(unsafe_value, vec![field("content-security-policy", "style-src 'self'")]);
}
