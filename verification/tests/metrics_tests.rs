use policy_sim::metrics::{
    check_custom_metric, formula_error, split_formula, update_interval_of, CustomMetric,
    FormulaTerm, MetricsError, MetricsSystem,
};

fn custom(name: &str, formula: &str, frequency: &str) -> CustomMetric {
    CustomMetric {
        name: name.to_string(),
        formula: formula.to_string(),
        description: "d".to_string(),
        update_frequency: frequency.to_string(),
    }
}

#[test]
fn test_schedule_metric_update_logic() {
    let metrics_system = MetricsSystem::new();

    assert!(metrics_system.should_update_metric("population_count", 1));
    assert!(metrics_system.should_update_metric("population_count", 2));

    assert!(metrics_system.should_update_metric("average_health", 30));
    assert!(!metrics_system.should_update_metric("average_health", 31));
    assert!(metrics_system.should_update_metric("average_health", 60));

    assert!(metrics_system.should_update_metric("birth_rate", 365));
    assert!(!metrics_system.should_update_metric("birth_rate", 366));
    assert!(metrics_system.should_update_metric("birth_rate", 730));
}

#[test]
fn intervals_by_name() {
    assert_eq!(update_interval_of("average_wealth"), 30);
    assert_eq!(update_interval_of("birth_rate"), 365);
    assert_eq!(update_interval_of("birth_rates"), 1);
    assert_eq!(update_interval_of("average"), 1);
    assert_eq!(update_interval_of(""), 1);
}

#[test]
fn custom_metric_checks() {
    let ok = custom("wellbeing", "2 * average_health + average_happiness", "monthly");
    assert!(check_custom_metric(ok).is_ok());
    let err = check_custom_metric(custom("broken", "2 * average_health + /", "daily")).unwrap_err();
    assert_eq!(err.message(), "Formula parse error: Invalid formula syntax");
    let err = check_custom_metric(custom("m", "a", "weekly")).unwrap_err();
    match &err {
        MetricsError::InvalidFrequency(m) => assert_eq!(m, "Invalid update frequency: weekly"),
        other => panic!("unexpected {:?}", other),
    }
    assert_eq!(err.message(), "Invalid frequency: Invalid update frequency: weekly");
    assert!(check_custom_metric(custom("m", "a / b", "yearly")).is_ok());
    assert!(check_custom_metric(custom("m", "a / b /", "yearly")).is_err());
}

#[test]
fn formula_terms_are_split_and_trimmed() {
    let terms = split_formula("2 * average_health + average_happiness + 0.5 * average_wealth");
    assert_eq!(terms.len(), 3);
    match &terms[0] {
        FormulaTerm::Scaled { coefficient, metric } => {
            assert_eq!(coefficient, "2");
            assert_eq!(metric, "average_health");
        }
        other => panic!("unexpected {:?}", other),
    }
    match &terms[1] {
        FormulaTerm::Single { metric } => assert_eq!(metric, "average_happiness"),
        other => panic!("unexpected {:?}", other),
    }
    match &terms[2] {
        FormulaTerm::Scaled { coefficient, metric } => {
            assert_eq!(coefficient, "0.5");
            assert_eq!(metric, "average_wealth");
        }
        other => panic!("unexpected {:?}", other),
    }
}

#[test]
fn formula_with_two_stars_is_malformed() {
    let terms = split_formula("1 * 2 * x+\ty ");
    assert_eq!(terms.len(), 2);
    assert!(matches!(terms[0], FormulaTerm::Malformed));
    match &terms[1] {
        FormulaTerm::Single { metric } => assert_eq!(metric, "y"),
        other => panic!("unexpected {:?}", other),
    }
    let terms = split_formula("");
    assert_eq!(terms.len(), 1);
    match &terms[0] {
        FormulaTerm::Single { metric } => assert_eq!(metric, ""),
        other => panic!("unexpected {:?}", other),
    }
}

#[test]
fn fresh_system_refreshes_daily_predefined_metrics() {
    let mut system = MetricsSystem::new();
    let update = system.update_metrics(1);
    assert!(update.recompute_predefined());
    // population_count (daily) is due; the averages and the birth rate are not.
    assert_eq!(update.predefined_due, vec![0]);
    assert!(update.custom_due.is_empty());
    assert_eq!(system.last_update("population_count"), 1);
    let update = system.update_metrics(30);
    assert_eq!(update.predefined_due, vec![0, 1, 2, 3]);
    let update = system.update_metrics(365);
    assert_eq!(update.predefined_due, vec![0, 4]);
}

#[test]
fn custom_metric_interval_comes_from_its_name() {
    let mut system = MetricsSystem::new();
    system.add_custom_metric(custom("custom_wellbeing_index", "average_health", "monthly"));
    system.add_custom_metric(custom("score", "a", "daily"));
    system.add_custom_metric(custom("average_y", "a", "yearly"));
    assert!(system.should_update_metric("custom_wellbeing_index", 1));
    let update = system.update_metrics(1);
    assert_eq!(update.custom_due, vec![0, 1]);
    let update = system.update_metrics(30);
    assert_eq!(update.custom_due, vec![0, 1, 2]);
    assert!(system.should_update_metric("custom_wellbeing_index", 31));
    assert!(!system.should_update_metric("average_y", 31));
    let update = system.update_metrics(45);
    assert_eq!(update.custom_due, vec![0, 1]);
}

#[test]
fn update_frequency_does_not_change_the_schedule() {
    let mut system = MetricsSystem::new();
    system.add_custom_metric(custom("x", "a", "monthly"));
    system.add_custom_metric(custom("birth_rate", "a", "daily"));
    assert!(system.should_update_metric("x", 1));
    assert!(!system.should_update_metric("birth_rate", 1));
    assert!(system.should_update_metric("birth_rate", 365));
}

#[test]
fn metrics_error_messages() {
    assert_eq!(
        MetricsError::EvaluationError("Metric not found: x".to_string()).message(),
        "Evaluation error: Metric not found: x"
    );
}

#[test]
fn custom_metrics_with_one_name_are_evaluated_together() {
    let mut system = MetricsSystem::new();
    system.add_custom_metric(custom("average_x", "a", "monthly"));
    system.add_custom_metric(custom("average_x", "b", "daily"));
    let update = system.update_metrics(30);
    assert_eq!(update.custom_due, vec![0, 1]);
    assert_eq!(system.last_update("average_x"), 30);
    let update = system.update_metrics(45);
    assert!(update.custom_due.is_empty());
    let update = system.update_metrics(60);
    assert_eq!(update.custom_due, vec![0, 1]);
}

#[test]
fn formula_errors_come_from_the_first_failing_term() {
    let known = vec!["a".to_string(), "b".to_string()];
    let terms = split_formula("2 * a + b");
    assert!(formula_error(&terms, &vec![true, true], &known).is_none());
    let err = formula_error(&terms, &vec![false, true], &known).unwrap();
    assert_eq!(err.message(), "Formula parse error: Invalid coefficient: 2");
    let terms = split_formula("c + 1 * 2 * a");
    let err = formula_error(&terms, &vec![true, true], &known).unwrap();
    assert_eq!(err.message(), "Evaluation error: Metric not found: c");
    let terms = split_formula("a + 1 * 2 * a + c");
    let err = formula_error(&terms, &vec![true, true, true], &known).unwrap();
    assert_eq!(err.message(), "Formula parse error: Invalid multiplication format");
    let terms = split_formula("x * zz");
    let err = formula_error(&terms, &vec![false], &known).unwrap();
    assert_eq!(err.message(), "Formula parse error: Invalid coefficient: x");
    let err = formula_error(&terms, &vec![true], &known).unwrap();
    assert_eq!(err.message(), "Evaluation error: Metric not found: zz");
}

#[test]
fn formula_has_one_term_more_than_plus_signs() {
    assert_eq!(split_formula("a+b+c").len(), 3);
    assert_eq!(split_formula("a").len(), 1);
    assert_eq!(split_formula("++").len(), 3);
}

fn text_field(doc: &serde_yaml::Value, key: &str) -> String {
    doc.get(key).and_then(|v| v.as_str()).unwrap_or("").to_string()
}

fn custom_from_yaml(yaml: &str) -> CustomMetric {
    let doc: serde_yaml::Value = serde_yaml::from_str(yaml).unwrap();
    CustomMetric {
        name: text_field(&doc, "name"),
        formula: text_field(&doc, "formula"),
        description: text_field(&doc, "description"),
        update_frequency: text_field(&doc, "update_frequency"),
    }
}

#[test]
fn test_parse_custom_metric_formula() {
    let yaml = r#"
            name: "custom_wellbeing_index"
            formula: "2 * average_health + average_happiness + 0.5 * average_wealth"
            description: "A weighted index of wellbeing"
            update_frequency: "monthly"
        "#;
    let custom_metric = check_custom_metric(custom_from_yaml(yaml)).unwrap();
    assert_eq!(custom_metric.name, "custom_wellbeing_index");
    assert_eq!(custom_metric.formula, "2 * average_health + average_happiness + 0.5 * average_wealth");
    assert_eq!(custom_metric.update_frequency, "monthly");

    let invalid_yaml = r#"
            name: "broken_metric"
            formula: "2 * average_health + /"
            update_frequency: "daily"
        "#;
    let result = check_custom_metric(custom_from_yaml(invalid_yaml));
    assert!(result.is_err());
}
