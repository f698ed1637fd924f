use role_registry::Config;

fn roles_of(cfg: &Config) -> Vec<u64> {
    cfg.get_roles().clone()
}

fn alias_pairs(cfg: &Config) -> Vec<(String, u64)> {
    cfg.get_aliases().clone()
}

#[test]
fn fresh_registry_is_empty() {
    let cfg = Config::create();
    assert!(cfg.get_roles().is_empty());
    assert!(cfg.get_aliases().is_empty());
}

#[test]
fn add_role_appears_exactly_once_even_when_added_twice() {
    let mut cfg = Config::create();
    assert!(cfg.add_role(7));
    assert!(!cfg.add_role(7));
    let count = roles_of(&cfg).iter().filter(|r| **r == 7).count();
    assert_eq!(count, 1);
}

#[test]
fn add_role_preserves_insertion_order() {
    let mut cfg = Config::create();
    cfg.add_role(3);
    cfg.add_role(1);
    cfg.add_role(2);
    cfg.add_role(1);
    assert_eq!(roles_of(&cfg), vec![3, 1, 2]);
}

#[test]
fn remove_role_cascades_alias_removal() {
    let mut cfg = Config::create();
    cfg.add_role(1);
    cfg.add_role(2);
    cfg.add_alias(1, "a".to_string());
    cfg.add_alias(1, "b".to_string());
    cfg.add_alias(2, "c".to_string());
    assert!(cfg.remove_role(1));
    assert_eq!(roles_of(&cfg), vec![2]);
    let pairs = alias_pairs(&cfg);
    assert_eq!(pairs.len(), 1);
    assert_eq!(pairs[0].0, "c");
    assert_eq!(pairs[0].1, 2);
    assert!(pairs.iter().all(|(_, r)| *r != 1));
    assert_eq!(cfg.resolve_alias(&"a".to_string()), None);
    assert_eq!(cfg.resolve_alias(&"b".to_string()), None);
}

#[test]
fn remove_role_absent_is_noop() {
    let mut cfg = Config::create();
    cfg.add_role(5);
    cfg.add_alias(5, "x".to_string());
    assert!(!cfg.remove_role(6));
    assert_eq!(roles_of(&cfg), vec![5]);
    assert_eq!(cfg.resolve_alias(&"x".to_string()), Some(5));
}

#[test]
fn add_alias_is_noop_when_role_not_allowed() {
    let mut cfg = Config::create();
    assert!(!cfg.add_alias(5, "vip".to_string()));
    assert!(cfg.get_aliases().is_empty());
    assert_eq!(cfg.resolve_alias(&"vip".to_string()), None);
}

#[test]
fn add_alias_resolves_once_role_allowed() {
    let mut cfg = Config::create();
    cfg.add_role(5);
    assert!(cfg.add_alias(5, "vip".to_string()));
    assert_eq!(cfg.resolve_alias(&"vip".to_string()), Some(5));
}

#[test]
fn add_alias_overwrites_existing_key() {
    let mut cfg = Config::create();
    cfg.add_role(1);
    cfg.add_role(2);
    cfg.add_alias(1, "x".to_string());
    cfg.add_alias(2, "x".to_string());
    assert_eq!(cfg.resolve_alias(&"x".to_string()), Some(2));
    assert_eq!(cfg.get_aliases().len(), 1);
}

#[test]
fn remove_alias_then_resolve_is_none() {
    let mut cfg = Config::create();
    cfg.add_role(9);
    cfg.add_alias(9, "mod".to_string());
    assert!(cfg.remove_alias("mod".to_string()));
    assert_eq!(cfg.resolve_alias(&"mod".to_string()), None);
}

#[test]
fn remove_alias_absent_still_reports_persist() {
    let mut cfg = Config::create();
    assert!(cfg.remove_alias("ghost".to_string()));
    assert_eq!(cfg.resolve_alias(&"ghost".to_string()), None);
}

#[test]
fn resolve_alias_is_exact_match() {
    let mut cfg = Config::create();
    cfg.add_role(4);
    cfg.add_alias(4, "Ops".to_string());
    assert_eq!(cfg.resolve_alias(&"ops".to_string()), None);
    assert_eq!(cfg.resolve_alias(&"Ops".to_string()), Some(4));
}

#[test]
fn scenario_vip_lifecycle() {
    let mut cfg = Config::create();
    cfg.add_role(42);
    cfg.add_alias(42, "vip".to_string());
    assert_eq!(cfg.resolve_alias(&"vip".to_string()), Some(42));
    cfg.remove_role(42);
    assert_eq!(cfg.resolve_alias(&"vip".to_string()), None);
    assert!(cfg.get_roles().is_empty());
}

#[test]
fn largest_role_id_round_trips_through_store() {
    let mut cfg = Config::create();
    cfg.add_role(u64::MAX);
    cfg.add_alias(u64::MAX, "top".to_string());
    assert_eq!(cfg.resolve_alias(&"top".to_string()), Some(u64::MAX));
    assert_eq!(roles_of(&cfg), vec![u64::MAX]);
}
