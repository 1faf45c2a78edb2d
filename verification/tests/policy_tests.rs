use policy_sim::policy::{
    apply_template, parse_partial_policy, parse_policy, parse_policy_template, PolicyError,
};

fn number(v: &serde_yaml::Value) -> f64 {
    v.as_f64().expect("a number")
}

#[test]
fn test_parse_valid_yaml() {
    let yaml = r#"
            name: "Green Energy Initiative"
            community: "nation"
            effects:
              health_multiplier: 1.1
              happiness_multiplier: 1.05
            adoption_rate: 0.75
        "#;
    let policy = parse_policy(yaml).unwrap();
    assert_eq!(policy.name, "Green Energy Initiative");
    assert_eq!(policy.community, "nation");
    assert_eq!(number(policy.effects.get("health_multiplier").unwrap()), 1.1);
    assert_eq!(number(policy.effects.get("happiness_multiplier").unwrap()), 1.05);
    assert_eq!(number(&policy.adoption_rate), 0.75);
}

#[test]
fn test_parse_invalid_yaml() {
    let invalid_yaml = r#"
            name: "Broken Policy
            community: nation
            effects: {
              this isn't valid YAML
            adoption_rate: 0.5
        "#;
    let result = parse_policy(invalid_yaml);
    assert!(result.is_err());
}

#[test]
fn test_parse_missing_required_fields() {
    let missing_community = r#"
            name: "Incomplete Policy"
            effects:
              health_multiplier: 1.2
            adoption_rate: 0.6
        "#;
    let result = parse_policy(missing_community);
    assert!(result.is_err());
    assert!(result.unwrap_err().message().contains("community"));
    let missing_name = r#"
            community: "nation"
            effects:
              health_multiplier: 1.2
            adoption_rate: 0.6
        "#;
    let result = parse_policy(missing_name);
    assert!(result.is_err());
    assert!(result.unwrap_err().message().contains("name"));
}

#[test]
fn test_parse_complex_effects() {
    let complex_yaml = r#"
            name: "Complex Policy"
            community: "nation"
            effects:
              health_multiplier: 1.1
              resource_modifiers:
                food: 1.2
                water: 0.9
              action_weights:
                farm: 1.5
                hunt: 0.8
              population_growth: 1.05
            adoption_rate: 0.65
        "#;
    let policy = parse_policy(complex_yaml).unwrap();
    assert_eq!(policy.name, "Complex Policy");
    assert_eq!(number(policy.effects.get("resource_modifiers.food").unwrap()), 1.2);
    assert_eq!(number(policy.effects.get("resource_modifiers.water").unwrap()), 0.9);
    assert_eq!(number(policy.effects.get("action_weights.farm").unwrap()), 1.5);
    assert_eq!(number(policy.effects.get("action_weights.hunt").unwrap()), 0.8);
    assert_eq!(number(policy.effects.get("population_growth").unwrap()), 1.05);
}

#[test]
fn test_policy_template_application() {
    let template = r#"
            name: "Template"
            community: "default"
            effects:
              health_multiplier: 1.0
              happiness_multiplier: 1.0
              wealth_multiplier: 1.0
            adoption_rate: 0.5
        "#;
    let template_policy = parse_policy_template(template).unwrap();
    let partial_yaml = r#"
            name: "Partial Policy"
            community: "city"
            effects:
              health_multiplier: 1.2
        "#;
    let policy =
        apply_template(parse_partial_policy(partial_yaml).unwrap(), &template_policy).unwrap();
    assert_eq!(policy.name, "Partial Policy");
    assert_eq!(policy.community, "city");
    assert_eq!(number(policy.effects.get("health_multiplier").unwrap()), 1.2);
    assert_eq!(number(policy.effects.get("happiness_multiplier").unwrap()), 1.0);
    assert_eq!(number(policy.effects.get("wealth_multiplier").unwrap()), 1.0);
    assert_eq!(number(&policy.adoption_rate), 0.5);
}

#[test]
fn yaml_syntax_error_is_reported_as_yaml_error() {
    let result = parse_policy("name: [unclosed");
    match result {
        Err(PolicyError::YamlError(_)) => {}
        other => panic!("expected a YAML error, got {:?}", other),
    }
    let message = parse_policy("name: [unclosed").unwrap_err().message();
    assert!(message.starts_with("YAML parsing error: "));
    assert!(message.len() > "YAML parsing error: ".len());
}

#[test]
fn missing_field_messages_name_the_field() {
    let err = parse_policy("name: x\ncommunity: c\nadoption_rate: 0.5\n").unwrap_err();
    assert_eq!(err.message(), "Missing required field: effects");
    let err = parse_policy("name: x\ncommunity: c\neffects: {a: 1}\n").unwrap_err();
    assert_eq!(err.message(), "Missing required field: adoption_rate");
}

#[test]
fn invalid_value_messages() {
    let err = parse_policy("name: 3\ncommunity: c\neffects: {a: 1}\nadoption_rate: 1\n").unwrap_err();
    assert_eq!(err.message(), "Invalid value for field: name must be a string");
    let err = parse_policy("name: n\ncommunity: [c]\neffects: {a: 1}\nadoption_rate: 1\n").unwrap_err();
    assert_eq!(err.message(), "Invalid value for field: community must be a string");
    let err = parse_policy("name: n\ncommunity: c\neffects: 3\nadoption_rate: 1\n").unwrap_err();
    assert_eq!(err.message(), "Invalid value for field: effects must be a mapping");
    let err = parse_policy("name: n\ncommunity: c\neffects: {a: 1}\nadoption_rate: high\n").unwrap_err();
    assert_eq!(err.message(), "Invalid value for field: adoption_rate must be a number");
}

#[test]
fn name_is_checked_before_community() {
    let err = parse_policy("effects: {a: 1}\nadoption_rate: 1\n").unwrap_err();
    assert_eq!(err.message(), "Missing required field: name");
}

#[test]
fn non_numeric_effects_are_skipped() {
    let policy = parse_policy(
        "name: n\ncommunity: c\neffects:\n  a: 2\n  b: text\n  g:\n    x: 3\n    y: no\nadoption_rate: 1\n",
    )
    .unwrap();
    assert_eq!(number(policy.effects.get("a").unwrap()), 2.0);
    assert!(policy.effects.get("b").is_none());
    assert_eq!(number(policy.effects.get("g.x").unwrap()), 3.0);
    assert!(policy.effects.get("g.y").is_none());
    assert!(policy.effects.get("g").is_none());
    assert_eq!(policy.effects.len(), 2);
    assert_eq!(policy.id, 0);
}

#[test]
fn later_effect_entry_overrides_earlier_one() {
    let policy = parse_policy(
        "name: n\ncommunity: c\neffects:\n  a.b: 1\n  a:\n    b: 2\nadoption_rate: 1\n",
    )
    .unwrap();
    assert_eq!(number(policy.effects.get("a.b").unwrap()), 2.0);
    assert_eq!(policy.effects.len(), 1);
}

#[test]
fn partial_policy_keeps_only_well_formed_fields() {
    let partial = parse_partial_policy("name: 3\ncommunity: town\nadoption_rate: high\n").unwrap();
    assert!(partial.name.is_none());
    assert_eq!(partial.community.as_deref(), Some("town"));
    assert!(partial.effects.is_none());
    assert!(partial.adoption_rate.is_none());
    let partial = parse_partial_policy("effects:\n  a: 1\n  b: [1]\nadoption_rate: 0.2\n").unwrap();
    let effects = partial.effects.unwrap();
    assert_eq!(number(effects.get("a").unwrap()), 1.0);
    assert!(effects.get("b").unwrap().is_sequence());
    assert_eq!(number(&partial.adoption_rate.unwrap()), 0.2);
    assert!(parse_partial_policy("a: [").is_err());
}

#[test]
fn empty_partial_policy_gives_the_template() {
    let template =
        parse_policy("name: T\ncommunity: d\neffects:\n  h: 1.5\nadoption_rate: 0.3\n").unwrap();
    let partial = parse_partial_policy("{}").unwrap();
    let policy = apply_template(partial, &template).unwrap();
    assert_eq!(policy.name, "T");
    assert_eq!(policy.community, "d");
    assert_eq!(number(policy.effects.get("h").unwrap()), 1.5);
    assert_eq!(policy.effects.len(), 1);
    assert_eq!(number(&policy.adoption_rate), 0.3);
}

#[test]
fn template_nested_partial_effects_are_flattened() {
    let template =
        parse_policy("name: T\ncommunity: d\neffects:\n  h: 1.5\nadoption_rate: 0.3\n").unwrap();
    let partial = parse_partial_policy("effects:\n  w:\n    x: 4\n  h: 2\n  s: str\n").unwrap();
    let policy = apply_template(partial, &template).unwrap();
    assert_eq!(number(policy.effects.get("h").unwrap()), 2.0);
    assert_eq!(number(policy.effects.get("w.x").unwrap()), 4.0);
    assert!(policy.effects.get("s").is_none());
    assert_eq!(policy.effects.len(), 2);
}

#[test]
fn template_and_policy_parse_alike() {
    let yaml = "name: T\ncommunity: d\neffects: {}\nadoption_rate: 1\n";
    let a = parse_policy(yaml).unwrap();
    let b = parse_policy_template(yaml).unwrap();
    assert_eq!(a.name, b.name);
    assert_eq!(a.community, b.community);
    assert_eq!(a.effects.len(), 0);
    assert_eq!(b.effects.len(), 0);
}

#[test]
fn completing_a_document_from_a_template_agrees_with_reading_it_as_a_policy() {
    let yaml = r#"
            name: "Clean Water"
            community: "town"
            effects:
              health_multiplier: 1.2
              economy:
                growth: 0.3
                tax: 0.1
            adoption_rate: 0.4
        "#;
    let template_yaml = r#"
            name: "Base"
            community: "nation"
            effects:
              health_multiplier: 1.0
              happiness_multiplier: 1.1
              economy:
                growth: 0.9
            adoption_rate: 0.5
        "#;
    let mut template = parse_policy_template(template_yaml).unwrap();
    template.id = 7;
    let policy = parse_policy(yaml).unwrap();
    let partial = parse_partial_policy(yaml).unwrap();
    let completed = apply_template(partial, &template).unwrap();
    assert_eq!(completed.id, 7);
    assert_eq!(completed.name, policy.name);
    assert_eq!(completed.community, policy.community);
    assert_eq!(number(&completed.adoption_rate), number(&policy.adoption_rate));
    assert_eq!(completed.effects.len(), 4);
    for key in ["health_multiplier", "economy.growth", "economy.tax"] {
        assert_eq!(
            number(completed.effects.get(key).unwrap()),
            number(policy.effects.get(key).unwrap())
        );
    }
    assert_eq!(number(completed.effects.get("happiness_multiplier").unwrap()), 1.1);
}

#[test]
fn repeated_effect_key_text_that_adds_nothing_still_agrees() {
    let yaml = r#"
            name: "Tagged"
            community: "town"
            effects:
              wealth_multiplier: "unknown"
              !note wealth_multiplier: 1.5
            adoption_rate: 0.2
        "#;
    let template = parse_policy_template(
        r#"
            name: "Base"
            community: "nation"
            effects:
              wealth_multiplier: 1.0
              health_multiplier: 1.1
            adoption_rate: 0.5
        "#,
    )
    .unwrap();
    let policy = parse_policy(yaml).unwrap();
    assert_eq!(number(policy.effects.get("wealth_multiplier").unwrap()), 1.5);
    let partial = parse_partial_policy(yaml).unwrap();
    let completed = apply_template(partial.clone(), &template).unwrap();
    assert_eq!(number(completed.effects.get("wealth_multiplier").unwrap()), 1.5);
    assert_eq!(number(completed.effects.get("health_multiplier").unwrap()), 1.1);
    assert_eq!(completed.effects.len(), 2);
}
