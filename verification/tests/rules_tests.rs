use xlyph::rules::{RuleCost, RulePhase, RuleRegistry};

#[test]
fn core_registry_has_eleven_rules() {
    let registry = RuleRegistry::core_rules();
    assert_eq!(registry.len(), 11);
}

#[test]
fn lookup_rule_by_id() {
    let registry = RuleRegistry::core_rules();
    let rule = registry.get("slime-hunt").expect("slime-hunt should exist");
    assert_eq!(rule.phase, RulePhase::EnemyAi);
    assert_eq!(rule.cost, RuleCost::Tick);
    assert_eq!(rule.name, "slime-hunt");
}

#[test]
fn lookup_flashlight_rule() {
    let registry = RuleRegistry::core_rules();
    let rule = registry.get("flashlight").expect("flashlight should exist");
    assert_eq!(rule.phase, RulePhase::Render);
    assert_eq!(rule.cost, RuleCost::Free);
    assert!(rule.source_lines.len() >= 4);
}

#[test]
fn unknown_rule_id_returns_none() {
    let registry = RuleRegistry::core_rules();
    assert!(registry.get("does-not-exist").is_none());
}

#[test]
fn iter_visits_all_rules() {
    let registry = RuleRegistry::core_rules();
    let ids: Vec<&str> = registry.iter().map(|r| r.id).collect();
    assert_eq!(ids.len(), 11);
    assert!(ids.contains(&"slime-hunt"));
    assert!(ids.contains(&"flashlight"));
    assert!(ids.contains(&"fire/burn"));
    assert!(ids.contains(&"shade-follow"));
    assert!(ids.contains(&"rage-impact"));
    assert!(ids.contains(&"sentry-patrol"));
    assert!(ids.contains(&"vessel-suppress"));
    assert!(ids.contains(&"maze-shift"));
}

#[test]
fn core_registry_is_not_empty() {
    assert!(!RuleRegistry::core_rules().is_empty());
}
