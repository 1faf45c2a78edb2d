use std::collections::HashMap;

use policy_sim::individual::{first_named, take_census, Profile};
use policy_sim::types::Trait;

fn names(list: &[&str]) -> Vec<String> {
    list.iter().map(|s| s.to_string()).collect()
}

#[test]
fn test_individual_trait_influence() {
    let mut industrious = Profile::new(1, 1);
    industrious.traits.push(Trait::Industrious);
    let regular = Profile::new(2, 1);
    let actions = names(&["Farm", "Hunt", "Trade"]);
    let weights: [f64; 3] = [0.4, 0.3, 0.3];

    let mut boosted = weights;
    for i in industrious.trait_targets(&actions) {
        boosted[i] *= 1.5;
    }
    assert!((boosted[0] - 0.6).abs() < 0.0001);
    assert!(regular.trait_targets(&actions).is_empty());
}

#[test]
fn trait_targets_first_farm_only() {
    let mut p = Profile::new(1, 1);
    p.traits.push(Trait::Industrious);
    p.traits.push(Trait::Industrious);
    assert_eq!(p.trait_targets(&names(&["Hunt", "Farm", "Farm"])), vec![1, 1]);
    assert!(p.trait_targets(&names(&["Hunt", "farm"])).is_empty());
    assert_eq!(first_named(&names(&["a", "b", "a"]), "a"), Some(0));
    assert_eq!(first_named(&names(&[]), "a"), None);
}

#[test]
fn new_profile_defaults() {
    let p = Profile::new(7, 3);
    assert_eq!(p.id, 7);
    assert_eq!(p.community_id, 3);
    assert_eq!(p.age, 20);
    assert_eq!(p.children, 0);
    assert!(p.traits.is_empty());
}

#[test]
fn census_counts_members_and_children() {
    let people = vec![
        Profile { id: 1, community_id: 1, traits: vec![], age: 30, children: 2 },
        Profile { id: 2, community_id: 1, traits: vec![], age: 25, children: 0 },
        Profile { id: 3, community_id: 2, traits: vec![], age: 40, children: 3 },
    ];
    let census = take_census(&people);
    assert_eq!(census.population, 3);
    assert_eq!(census.total_children, 5);
    let mut expected = HashMap::new();
    expected.insert(1u64, 2usize);
    expected.insert(2u64, 1usize);
    assert_eq!(census.community_sizes, expected);
    let birth_rate = census.total_children as f64 / census.population as f64;
    assert!((birth_rate - 1.667).abs() < 0.01);
}

#[test]
fn census_of_nobody() {
    let census = take_census(&Vec::new());
    assert_eq!(census.population, 0);
    assert_eq!(census.total_children, 0);
    assert!(census.community_sizes.is_empty());
}

#[test]
fn test_calculate_predefined_metrics() {
    let people = vec![
        Profile { id: 1, community_id: 1, traits: vec![], age: 30, children: 2 },
        Profile { id: 2, community_id: 1, traits: vec![], age: 25, children: 0 },
        Profile { id: 3, community_id: 2, traits: vec![], age: 40, children: 3 },
    ];
    let census = take_census(&people);
    assert_eq!(census.population as f64, 3.0);
    assert_eq!(census.community_sizes.get(&1).map(|c| *c as f64), Some(2.0));
    assert_eq!(census.community_sizes.get(&2).map(|c| *c as f64), Some(1.0));
    let birth_rate = census.total_children as f64 / census.population as f64;
    assert!((birth_rate - 1.667).abs() < 0.01);
}
