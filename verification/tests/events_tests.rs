use policy_sim::events::EventSystem;

/// Stats of one individual, changed by the events that act on a tick.
struct Stats {
    health: f64,
    happiness: f64,
    wealth: f64,
}

/// The effects of each event by position: health, happiness, wealth.
fn apply(stats: &mut Stats, impacts: &[(f64, f64, f64)], applied: &[usize]) {
    for &e in applied {
        let (h, p, w) = impacts[e];
        stats.health = (stats.health + h).max(0.0);
        stats.happiness = (stats.happiness + p).max(0.0);
        stats.wealth = (stats.wealth + w).max(0.0);
    }
}

#[test]
fn test_event_system_process_tick() {
    let mut event_system = EventSystem::new();
    // A guaranteed event (probability 1.0) lasting 3 ticks.
    let id = event_system.add_event(3);
    assert_eq!(id, 0);
    let impacts = [(-10.0, -5.0, -15.0)];
    let mut individual = Stats { health: 100.0, happiness: 100.0, wealth: 100.0 };
    let always = vec![true];

    let applied = event_system.process_tick(&always);
    apply(&mut individual, &impacts, &applied);
    assert_eq!(individual.health, 90.0);
    assert_eq!(individual.happiness, 95.0);
    assert_eq!(individual.wealth, 85.0);
    assert_eq!(event_system.get_active_events().len(), 1);

    let applied = event_system.process_tick(&always);
    apply(&mut individual, &impacts, &applied);
    let applied = event_system.process_tick(&always);
    apply(&mut individual, &impacts, &applied);

    assert_eq!(individual.health, 70.0);
    assert_eq!(individual.happiness, 85.0);
    assert_eq!(individual.wealth, 55.0);
    assert_eq!(event_system.get_active_events().len(), 0);
}

#[test]
fn test_multiple_active_events() {
    let mut event_system = EventSystem::new();
    event_system.add_event(1);
    event_system.add_event(3);
    let impacts = [(-5.0, 0.0, 0.0), (0.0, -5.0, 0.0)];
    let mut individual = Stats { health: 100.0, happiness: 100.0, wealth: 100.0 };

    let applied = event_system.process_tick(&vec![true, true]);
    assert_eq!(applied, vec![0, 1]);
    apply(&mut individual, &impacts, &applied);
    assert_eq!(individual.health, 95.0);
    assert_eq!(individual.happiness, 95.0);
    assert_eq!(event_system.get_active_events(), vec![1]);

    // Both events occur again, but none starts while one is in effect.
    let applied = event_system.process_tick(&vec![true, true]);
    apply(&mut individual, &impacts, &applied);
    assert_eq!(individual.health, 95.0);
    assert_eq!(individual.happiness, 90.0);
}

#[test]
fn event_acts_for_its_duration_then_ends() {
    let mut system = EventSystem::new();
    system.add_event(3);
    assert_eq!(system.process_tick(&vec![true]), vec![0]);
    assert_eq!(system.process_tick(&vec![false]), vec![0]);
    assert_eq!(system.process_tick(&vec![false]), vec![0]);
    assert!(system.get_active_events().is_empty());
    assert!(system.process_tick(&vec![false]).is_empty());
}

#[test]
fn no_event_starts_while_one_is_in_effect() {
    let mut system = EventSystem::new();
    system.add_event(2);
    system.add_event(5);
    system.add_event(1);
    assert!(system.is_quiet());
    assert_eq!(system.process_tick(&vec![false, true, true]), vec![1, 2]);
    assert!(!system.is_quiet());
    assert_eq!(system.process_tick(&vec![true, false, true]), vec![1]);
    assert_eq!(system.get_active_events(), vec![1]);
    assert_eq!(system.process_tick(&vec![true, true, true]), vec![1]);
    assert_eq!(system.process_tick(&vec![true, true, true]), vec![1]);
    assert_eq!(system.process_tick(&vec![true, true, true]), vec![1]);
    assert!(system.is_quiet());
    assert_eq!(system.process_tick(&vec![true, false, true]), vec![0, 2]);
    assert_eq!(system.get_active_events(), vec![0]);
}

#[test]
fn no_events_no_effects() {
    let mut system = EventSystem::new();
    assert!(system.process_tick(&Vec::new()).is_empty());
    assert!(system.get_active_events().is_empty());
}
