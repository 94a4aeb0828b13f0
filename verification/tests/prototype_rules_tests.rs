use xlyph::prototype_rules::{RuleCost, RulePhase, RuleRegistry};

#[test]
fn core_registry_has_ten_rules() {
    let registry = RuleRegistry::core_rules();
    assert_eq!(registry.len(), 10);
}

#[test]
fn rules_lookup_rule_by_id() {
    let registry = RuleRegistry::core_rules();
    let rule = registry.get("slime-hunt").expect("slime-hunt should exist");
    assert_eq!(rule.phase, RulePhase::EnemyAi);
    assert_eq!(rule.cost, RuleCost::Tick);
    assert_eq!(rule.name, "slime-hunt");
}

#[test]
fn rules_lookup_flashlight_rule() {
    let registry = RuleRegistry::core_rules();
    let rule = registry.get("flashlight").expect("flashlight should exist");
    assert_eq!(rule.phase, RulePhase::Render);
    assert_eq!(rule.cost, RuleCost::Free);
    assert!(rule.source_lines.len() >= 4);
}

#[test]
fn rules_unknown_rule_id_returns_none() {
    let registry = RuleRegistry::core_rules();
    assert!(registry.get("does-not-exist").is_none());
}

#[test]
fn rules_iter_visits_all_rules() {
    let registry = RuleRegistry::core_rules();
    let ids: Vec<&str> = registry.iter().map(|r| r.id).collect();
    assert_eq!(ids.len(), 10);
    assert!(ids.contains(&"slime-hunt"));
    assert!(ids.contains(&"flashlight"));
    assert!(ids.contains(&"fire/burn"));
    assert!(ids.contains(&"shade-follow"));
    assert!(ids.contains(&"rage-impact"));
    assert!(ids.contains(&"sentry-patrol"));
    assert!(ids.contains(&"vessel-suppress"));
}
