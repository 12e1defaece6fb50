//! Filter lists and the policy they compile to.

use boreas_core::{parse_rule, Deferred, HostPolicy, HostVerdict, ListReport, Name, Rule, RuleError};

fn rule(line: &str) -> Result<Rule, RuleError> {
    parse_rule(line)
}

fn block(host: &str) -> Result<Rule, RuleError> {
    Ok(Rule::Block(Name::parse(host).unwrap()))
}

fn allow(host: &str) -> Result<Rule, RuleError> {
    Ok(Rule::Allow(Name::parse(host).unwrap()))
}

#[test]
fn enforceable_rules_compile_and_normalize() {
    assert_eq!(rule("||doubleclick.net^"), block("doubleclick.net"));
    assert_eq!(rule("||DoubleClick.NET^"), block("doubleclick.net"));
    assert_eq!(rule("||ads.example.com"), block("ads.example.com"));
    assert_eq!(rule("@@||cdn.example.com^"), allow("cdn.example.com"));
    assert_eq!(rule("  ||spaced.example^  "), block("spaced.example"));
}

#[test]
fn hosts_files_compile_only_from_sink_addresses() {
    assert_eq!(rule("0.0.0.0 tracker.example"), block("tracker.example"));
    assert_eq!(rule("127.0.0.1 tracker.example"), block("tracker.example"));
    assert_eq!(rule(":: tracker.example"), block("tracker.example"));
    assert_eq!(rule("::1  tracker.example"), block("tracker.example"));

    assert_eq!(
        rule("93.184.215.14 example.com"),
        Ok(Rule::Deferred(Deferred::HostsMapping))
    );

    let mut policy = HostPolicy::new();
    let report = policy.extend_from_list("0.0.0.0 a.example b.example c.example # why\n");
    assert_eq!(report.blocked, 3);
    for host in ["a.example", "b.example", "c.example"] {
        assert_eq!(
            policy.judge(&Name::parse(host).unwrap()).verdict,
            HostVerdict::Blocked
        );
    }
}

#[test]
fn unenforceable_rules_defer_by_the_faculty_they_need() {
    assert_eq!(
        rule("||example.com/ads/banner.gif"),
        Ok(Rule::Deferred(Deferred::NeedsUrl))
    );
    assert_eq!(
        rule("|http://example.com/"),
        Ok(Rule::Deferred(Deferred::NeedsUrl))
    );
    assert_eq!(rule("/ads/banner"), Ok(Rule::Deferred(Deferred::NeedsUrl)));

    assert_eq!(
        rule("||example.com^$third-party"),
        Ok(Rule::Deferred(Deferred::NeedsRequestContext))
    );
    assert_eq!(
        rule("||example.com^$script,domain=other.com"),
        Ok(Rule::Deferred(Deferred::NeedsRequestContext))
    );

    for line in [
        "example.com##.ad-banner",
        "example.com#@#.ad-banner",
        "example.com#?#div:has(> .ad)",
        "example.com#$#abort-on-property-read x",
    ] {
        assert_eq!(rule(line), Ok(Rule::Deferred(Deferred::Cosmetic)), "{line}");
    }

    assert_eq!(
        rule("||ads.*.example^"),
        Ok(Rule::Deferred(Deferred::Pattern))
    );
}

#[test]
fn comments_and_headers_are_ignored_but_cosmetic_rules_are_not() {
    for line in [
        "",
        "   ",
        "! a comment",
        "[Adblock Plus 2.0]",
        "# hosts note",
    ] {
        assert_eq!(rule(line), Ok(Rule::Ignored), "{line:?}");
    }
    assert_eq!(rule("##.ad"), Ok(Rule::Deferred(Deferred::Cosmetic)));
}

#[test]
fn a_host_dns_cannot_carry_is_a_rejected_rule() {
    assert_eq!(rule("||a..b^"), Err(RuleError::UnrepresentableHost));
    assert_eq!(rule("||^"), Err(RuleError::UnrepresentableHost));
    let long = format!("||{}^", "x".repeat(300));
    assert_eq!(rule(&long), Err(RuleError::UnrepresentableHost));
}

#[test]
fn an_exception_beats_every_block_however_specific() {
    let mut policy = HostPolicy::new();
    let report = policy.extend_from_list(
        "! a list\n\
         ||example.com^\n\
         ||ads.example.com^\n\
         @@||example.com^\n",
    );
    assert_eq!(report.blocked, 2);
    assert_eq!(report.allowed, 1);
    assert_eq!(report.ignored, 1);

    let judgment = policy.judge(&Name::parse("ads.example.com").unwrap());
    assert_eq!(judgment.verdict, HostVerdict::Allowed);
    assert_eq!(
        judgment.matched.map(|rule| rule.text()).as_deref(),
        Some("example.com"),
        "the exception must name itself as the reason"
    );
}

#[test]
fn the_report_is_a_monoid_and_accounts_for_every_line() {
    let first = "||a.example^\n! note\n||b.example^$third-party\n";
    let second = "@@||c.example^\n||d.example^\nx##.ad\n";

    let mut together = HostPolicy::new();
    let whole = together.extend_from_list(&format!("{first}{second}"));

    let mut apart = HostPolicy::new();
    let left = apart.extend_from_list(first);
    let right = apart.extend_from_list(second);

    assert_eq!(whole, left.merge(right));
    assert_eq!(whole, right.merge(left), "merge is commutative");
    assert_eq!(whole, whole.merge(ListReport::default()));
    assert_eq!(whole.lines(), 6, "every line is accounted for exactly once");
    assert_eq!(together.len(), apart.len());

    let before = together.len();
    let _ = together.extend_from_list(&format!("{first}{second}"));
    assert_eq!(together.len(), before);
}

#[test]
fn a_compiled_list_under_blocks_rather_than_over_blocks() {
    let mut policy = HostPolicy::new();
    policy.extend_from_list("||example.com\n");
    assert_eq!(
        policy
            .judge(&Name::parse("example.com.evil.example").unwrap())
            .verdict,
        HostVerdict::Allowed
    );
    assert_eq!(
        policy
            .judge(&Name::parse("ads.example.com").unwrap())
            .verdict,
        HostVerdict::Blocked
    );
}

#[test]
fn a_line_that_names_several_hosts_is_one_line() {
    let mut policy = HostPolicy::new();
    let report = policy.extend_from_list("0.0.0.0 a.example b.example\n# note\n");
    assert_eq!(report.blocked, 2);
    assert_eq!(report.ignored, 1);
    assert_eq!(report.lines(), 2);
}
