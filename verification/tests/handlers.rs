use role_registry::commands::{
    add_role, alias_role, allow_role, create_role, deny_role, find_role_by_name, list_roles,
    lookup_role, remove_alias, remove_role, GuildRole, Reject,
};
use role_registry::Config;

fn guild() -> Vec<GuildRole> {
    vec![
        GuildRole { id: 10, name: "Gamer".to_string() },
        GuildRole { id: 20, name: "Artist".to_string() },
        GuildRole { id: 30, name: "DJ".to_string() },
    ]
}

#[test]
fn lookup_prefers_alias_when_target_in_guild() {
    let mut cfg = Config::create();
    cfg.add_role(20);
    cfg.add_alias(20, "Gamer".to_string());
    // the alias shadows the guild role of the same name
    assert_eq!(lookup_role(&cfg, &guild(), &"Gamer".to_string()), Some(20));
}

#[test]
fn lookup_falls_back_to_exact_name_when_alias_target_gone() {
    let mut cfg = Config::create();
    cfg.add_role(99);
    cfg.add_alias(99, "Gamer".to_string());
    // 99 is not in the guild, so the name match wins
    assert_eq!(lookup_role(&cfg, &guild(), &"Gamer".to_string()), Some(10));
    assert_eq!(lookup_role(&cfg, &guild(), &"nothing".to_string()), None);
}

#[test]
fn add_rejects_role_not_in_allow_list_even_when_guild_has_it() {
    let cfg = Config::create();
    let r = add_role(&cfg, &guild(), &vec![], &"Gamer".to_string());
    assert_eq!(r, Err(Reject::NotAllowed));
    assert_eq!(Reject::NotAllowed.message(), "Not an allowed role");
}

#[test]
fn add_rejects_unresolvable_role_as_not_found() {
    let cfg = Config::create();
    let r = add_role(&cfg, &guild(), &vec![], &"Ghost".to_string());
    assert_eq!(r, Err(Reject::RoleNotFound));
    assert_eq!(Reject::RoleNotFound.message(), "Role not found");
}

#[test]
fn add_rejects_already_held_role_without_granting() {
    let mut cfg = Config::create();
    cfg.add_role(10);
    let member = vec![10];
    let r = add_role(&cfg, &guild(), &member, &"Gamer".to_string());
    assert_eq!(r, Err(Reject::AlreadyHave));
    assert_eq!(Reject::AlreadyHave.message(), "You already have this role");
}

#[test]
fn add_grants_allowed_unheld_role() {
    let mut cfg = Config::create();
    cfg.add_role(10);
    let r = add_role(&cfg, &guild(), &vec![30], &"Gamer".to_string());
    assert_eq!(r, Ok(10));
}

#[test]
fn add_resolves_via_alias() {
    let mut cfg = Config::create();
    cfg.add_role(30);
    cfg.add_alias(30, "music".to_string());
    let r = add_role(&cfg, &guild(), &vec![], &"music".to_string());
    assert_eq!(r, Ok(30));
}

#[test]
fn remove_rejects_role_member_does_not_hold() {
    let mut cfg = Config::create();
    cfg.add_role(10);
    let r = remove_role(&cfg, &guild(), &vec![20], &"Gamer".to_string());
    assert_eq!(r, Err(Reject::DontHave));
    assert_eq!(Reject::DontHave.message(), "You don't have this role");
}

#[test]
fn remove_revokes_held_allowed_role() {
    let mut cfg = Config::create();
    cfg.add_role(10);
    let r = remove_role(&cfg, &guild(), &vec![10, 20], &"Gamer".to_string());
    assert_eq!(r, Ok(10));
}

#[test]
fn create_role_rejects_existing_name() {
    let r = create_role(&guild(), &"DJ".to_string());
    assert_eq!(r, Err(Reject::NameTaken));
    assert_eq!(
        Reject::NameTaken.message(),
        "A role with that name already exists"
    );
    assert_eq!(create_role(&guild(), &"Fresh".to_string()), Ok(()));
}

#[test]
fn alias_role_uses_exact_name_and_requires_allowed() {
    let mut cfg = Config::create();
    let r = alias_role(&mut cfg, &guild(), &"Artist".to_string(), "art".to_string());
    assert_eq!(r, Err(Reject::NotAllowedForAlias("Artist".to_string())));
    assert_eq!(
        Reject::NotAllowedForAlias("Artist".to_string()).message(),
        "'Artist' is not an allowed role (aliases are only possible for allowed roles)"
    );
    assert!(cfg.get_aliases().is_empty());

    cfg.add_role(20);
    let r = alias_role(&mut cfg, &guild(), &"Artist".to_string(), "art".to_string());
    assert_eq!(r, Ok(true));
    assert_eq!(cfg.resolve_alias(&"art".to_string()), Some(20));

    let r = alias_role(&mut cfg, &guild(), &"Nope".to_string(), "n".to_string());
    assert_eq!(r, Err(Reject::RoleNotFound));
}

#[test]
fn alias_role_does_not_resolve_aliases_for_its_target() {
    let mut cfg = Config::create();
    cfg.add_role(30);
    cfg.add_alias(30, "beats".to_string());
    // an alias name is not a role name for the aliasing command
    let r = alias_role(&mut cfg, &guild(), &"beats".to_string(), "b".to_string());
    assert_eq!(r, Err(Reject::RoleNotFound));
}

#[test]
fn remove_alias_rejects_unknown_alias() {
    let mut cfg = Config::create();
    let r = remove_alias(&mut cfg, "ghost".to_string());
    assert_eq!(r, Err(Reject::NoSuchAlias("ghost".to_string())));
    assert_eq!(
        Reject::NoSuchAlias("ghost".to_string()).message(),
        "There's no alias called 'ghost'"
    );
}

#[test]
fn remove_alias_removes_known_alias() {
    let mut cfg = Config::create();
    cfg.add_role(10);
    cfg.add_alias(10, "g".to_string());
    let r = remove_alias(&mut cfg, "g".to_string());
    assert_eq!(r, Ok(true));
    assert_eq!(cfg.resolve_alias(&"g".to_string()), None);
}

#[test]
fn allow_role_is_idempotent_and_resolves_by_name_only() {
    let mut cfg = Config::create();
    let r = allow_role(&mut cfg, &guild(), &"DJ".to_string());
    assert_eq!(r, Ok(true));
    assert_eq!(cfg.get_roles(), &vec![30]);
    let r = allow_role(&mut cfg, &guild(), &"DJ".to_string());
    assert_eq!(r, Ok(false));
    assert_eq!(cfg.get_roles(), &vec![30]);
    let r = allow_role(&mut cfg, &guild(), &"Missing".to_string());
    assert_eq!(r, Err(Reject::RoleNotFound));
}

#[test]
fn deny_role_requires_allowed_and_cascades() {
    let mut cfg = Config::create();
    let r = deny_role(&mut cfg, &guild(), &"DJ".to_string());
    assert_eq!(r, Err(Reject::NotAllowed));
    cfg.add_role(30);
    cfg.add_alias(30, "music".to_string());
    let r = deny_role(&mut cfg, &guild(), &"DJ".to_string());
    assert_eq!(r, Ok(true));
    assert!(cfg.get_roles().is_empty());
    assert_eq!(cfg.resolve_alias(&"music".to_string()), None);
}

#[test]
fn list_skips_stale_allow_list_entries_without_erasing_them() {
    let mut cfg = Config::create();
    cfg.add_role(42); // not in the guild
    cfg.add_role(20);
    cfg.add_alias(20, "art".to_string());
    let entries = list_roles(&cfg, &guild());
    assert_eq!(entries.len(), 1);
    assert_eq!(entries[0].name, "Artist");
    assert_eq!(entries[0].aliases, vec!["art".to_string()]);
    // the stale entry survives in the registry
    assert_eq!(cfg.get_roles(), &vec![42, 20]);
}

#[test]
fn list_orders_by_allow_list_and_groups_aliases() {
    let mut cfg = Config::create();
    cfg.add_role(30);
    cfg.add_role(10);
    cfg.add_alias(30, "music".to_string());
    cfg.add_alias(30, "beats".to_string());
    let entries = list_roles(&cfg, &guild());
    assert_eq!(entries.len(), 2);
    assert_eq!(entries[0].name, "DJ");
    assert_eq!(
        entries[0].aliases,
        vec!["music".to_string(), "beats".to_string()]
    );
    assert_eq!(entries[1].name, "Gamer");
    assert!(entries[1].aliases.is_empty());
}

#[test]
fn list_omits_aliases_whose_target_is_not_listed() {
    let mut cfg = Config::create();
    cfg.add_role(10);
    cfg.add_role(42);
    cfg.add_alias(42, "stale".to_string());
    let entries = list_roles(&cfg, &guild());
    assert_eq!(entries.len(), 1);
    assert_eq!(entries[0].name, "Gamer");
    assert!(entries[0].aliases.is_empty());
    // yet the alias is still stored
    assert_eq!(cfg.resolve_alias(&"stale".to_string()), Some(42));
}

#[test]
fn find_role_by_name_is_exact_and_first_match() {
    let g = vec![
        GuildRole { id: 1, name: "dup".to_string() },
        GuildRole { id: 2, name: "dup".to_string() },
    ];
    assert_eq!(find_role_by_name(&g, &"dup".to_string()), Some(1));
    assert_eq!(find_role_by_name(&g, &"Dup".to_string()), None);
}
