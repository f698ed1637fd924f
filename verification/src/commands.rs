//! The command layer: pure decision logic behind each user command.
//!
//! Each function validates a request against the guild's role table (handed
//! in as plain values) and the registry, in the same short-circuit order as
//! the chat handlers, and either mutates the registry or reports the exact
//! rejection. The platform work around these decisions (reading guild
//! state, granting roles, sending replies) is the caller's.

use vstd::prelude::*;
use vstd::string::StringExecFns;

use crate::store::spec_add_role;
use crate::store::spec_cascade;
use crate::store::spec_remove_role;
use crate::store::Config;

verus! {

/// A guild role as the command layer sees it: platform identifier and name.
pub struct GuildRole {
    pub id: u64,
    pub name: String,
}

/// The reasons a command is rejected, in the words the handlers reply with.
#[derive(Debug, PartialEq, Eq)]
pub enum Reject {
    /// Neither an alias nor an exact name matched a guild role.
    RoleNotFound,
    /// The resolved role is not in the allow-list.
    NotAllowed,
    /// Self-assign: the member already holds the role.
    AlreadyHave,
    /// Self-unassign: the member does not hold the role.
    DontHave,
    /// Role creation: a guild role with that name already exists.
    NameTaken,
    /// Alias removal: no alias of this name exists.
    NoSuchAlias(String),
    /// Aliasing a role (of this name) that is not in the allow-list.
    NotAllowedForAlias(String),
}

impl Reject {
    /// The user-facing reply for this rejection.
    pub fn message(&self) -> (r: String)
        ensures
            match self {
                Reject::RoleNotFound => r@ == "Role not found"@,
                Reject::NotAllowed => r@ == "Not an allowed role"@,
                Reject::AlreadyHave => r@ == "You already have this role"@,
                Reject::DontHave => r@ == "You don't have this role"@,
                Reject::NameTaken => r@ == "A role with that name already exists"@,
                Reject::NoSuchAlias(a) => r@ == "There's no alias called '"@ + a@ + "'"@,
                Reject::NotAllowedForAlias(n) => r@ == "'"@ + n@
                    + "' is not an allowed role (aliases are only possible for allowed roles)"@,
            },
    {
        match self {
            Reject::RoleNotFound => String::from_str("Role not found"),
            Reject::NotAllowed => String::from_str("Not an allowed role"),
            Reject::AlreadyHave => String::from_str("You already have this role"),
            Reject::DontHave => String::from_str("You don't have this role"),
            Reject::NameTaken => String::from_str("A role with that name already exists"),
            Reject::NoSuchAlias(a) => {
                let mut s = String::from_str("There's no alias called '");
                s.append(a.as_str());
                s.append("'");
                s
            },
            Reject::NotAllowedForAlias(n) => {
                let mut s = String::from_str("'");
                s.append(n.as_str());
                s.append(
                    "' is not an allowed role (aliases are only possible for allowed roles)",
                );
                s
            },
        }
    }
}

/// The identifier of the first guild role named `name`, searching from `i`.
pub open spec fn find_by_name_from(g: Seq<GuildRole>, i: int, name: Seq<char>) -> Option<u64>
    decreases g.len() - i,
{
    if 0 <= i < g.len() {
        if g[i].name@ == name {
            Some(g[i].id)
        } else {
            find_by_name_from(g, i + 1, name)
        }
    } else {
        None
    }
}

/// Whether some guild role carries the identifier `id`.
pub open spec fn guild_has_id(g: Seq<GuildRole>, id: u64) -> bool {
    exists|i: int| 0 <= i < g.len() && g[i].id == id
}

/// The index of the first guild role with identifier `id`, from `i`.
pub open spec fn find_by_id_from(g: Seq<GuildRole>, i: int, id: u64) -> Option<int>
    decreases g.len() - i,
{
    if 0 <= i < g.len() {
        if g[i].id == id {
            Some(i)
        } else {
            find_by_id_from(g, i + 1, id)
        }
    } else {
        None
    }
}

/// How self-service commands resolve a role: the alias table first, and if
/// the alias's target is present in the guild, that role; otherwise an
/// exact name match.
pub open spec fn spec_lookup(
    amap: Map<Seq<char>, u64>,
    g: Seq<GuildRole>,
    name: Seq<char>,
) -> Option<u64> {
    if amap.contains_key(name) && guild_has_id(g, amap[name]) {
        Some(amap[name])
    } else {
        find_by_name_from(g, 0, name)
    }
}

/// Exact-name search in the guild's role table.
pub fn find_role_by_name(guild: &Vec<GuildRole>, name: &String) -> (r: Option<u64>)
    ensures
        r == find_by_name_from(guild@, 0, name@),
{
    let n = guild.len();
    let mut i: usize = 0;
    while i < n
        invariant
            n == guild@.len(),
            i <= n,
            find_by_name_from(guild@, 0, name@) == find_by_name_from(guild@, i as int, name@),
        decreases n - i,
    {
        if guild[i].name.eq(name) {
            return Some(guild[i].id);
        }
        i += 1;
    }
    None
}

/// Identifier search in the guild's role table.
fn find_role_by_id(guild: &Vec<GuildRole>, id: u64) -> (r: Option<usize>)
    ensures
        match r {
            Some(i) => find_by_id_from(guild@, 0, id) == Some(i as int) && i < guild@.len(),
            None => find_by_id_from(guild@, 0, id) is None,
        },
        (r is Some) == guild_has_id(guild@, id),
{
    let n = guild.len();
    let mut i: usize = 0;
    while i < n
        invariant
            n == guild@.len(),
            i <= n,
            find_by_id_from(guild@, 0, id) == find_by_id_from(guild@, i as int, id),
            forall|k: int| 0 <= k < i ==> (#[trigger] guild@[k]).id != id,
        decreases n - i,
    {
        if guild[i].id == id {
            return Some(i);
        }
        i += 1;
    }
    proof {
        if guild_has_id(guild@, id) {
            let w = choose|k: int| 0 <= k < guild@.len() && guild@[k].id == id;
            assert(guild@[w].id == id);
        }
    }
    None
}

/// Resolves a role name for self-service commands: alias first (when its
/// target exists in the guild), exact name second.
pub fn lookup_role(cfg: &Config, guild: &Vec<GuildRole>, name: &String) -> (r: Option<u64>)
    requires
        cfg.wf(),
    ensures
        r == spec_lookup(cfg.alias_map(), guild@, name@),
{
    match cfg.resolve_alias(name) {
        Some(id) => {
            match find_role_by_id(guild, id) {
                Some(_) => Some(id),
                None => find_role_by_name(guild, name),
            }
        },
        None => find_role_by_name(guild, name),
    }
}

/// Whether the member's role list holds `id`.
fn member_has(member_roles: &Vec<u64>, id: u64) -> (b: bool)
    ensures
        b == member_roles@.contains(id),
{
    let n = member_roles.len();
    let mut i: usize = 0;
    while i < n
        invariant
            n == member_roles@.len(),
            i <= n,
            forall|k: int| 0 <= k < i ==> member_roles@[k] != id,
        decreases n - i,
    {
        if member_roles[i] == id {
            proof {
                assert(member_roles@[i as int] == id);
            }
            return true;
        }
        i += 1;
    }
    false
}

/// Whether the allow-list holds `id`.
fn allowed_has(cfg: &Config, id: u64) -> (b: bool)
    ensures
        b == cfg.roles().contains(id),
{
    let roles = cfg.get_roles();
    let n = roles.len();
    let mut i: usize = 0;
    while i < n
        invariant
            n == cfg.roles().len(),
            roles@ == cfg.roles(),
            i <= n,
            forall|k: int| 0 <= k < i ==> cfg.roles()[k] != id,
        decreases n - i,
    {
        if roles[i] == id {
            proof {
                assert(cfg.roles()[i as int] == id);
            }
            return true;
        }
        i += 1;
    }
    false
}

/// The self-assign command: resolve the role (alias first), require it to
/// be allowed and not yet held, and name the role to grant. The caller
/// performs the platform grant.
pub fn add_role(
    cfg: &Config,
    guild: &Vec<GuildRole>,
    member_roles: &Vec<u64>,
    name: &String,
) -> (r: Result<u64, Reject>)
    requires
        cfg.wf(),
    ensures
        ({
            let lk = spec_lookup(cfg.alias_map(), guild@, name@);
            match r {
                Ok(id) => lk == Some(id) && cfg.roles().contains(id) && !member_roles@.contains(
                    id,
                ),
                Err(e) => match e {
                    Reject::RoleNotFound => lk is None,
                    Reject::NotAllowed => lk matches Some(id) && !cfg.roles().contains(id),
                    Reject::AlreadyHave => lk matches Some(id) && cfg.roles().contains(id)
                        && member_roles@.contains(id),
                    _ => false,
                },
            }
        }),
{
    let id = match lookup_role(cfg, guild, name) {
        Some(id) => id,
        None => {
            return Err(Reject::RoleNotFound);
        },
    };
    if !allowed_has(cfg, id) {
        return Err(Reject::NotAllowed);
    }
    if member_has(member_roles, id) {
        return Err(Reject::AlreadyHave);
    }
    Ok(id)
}

/// The self-unassign command: symmetric to self-assign; the member must
/// hold the role. The caller performs the platform revocation.
pub fn remove_role(
    cfg: &Config,
    guild: &Vec<GuildRole>,
    member_roles: &Vec<u64>,
    name: &String,
) -> (r: Result<u64, Reject>)
    requires
        cfg.wf(),
    ensures
        ({
            let lk = spec_lookup(cfg.alias_map(), guild@, name@);
            match r {
                Ok(id) => lk == Some(id) && cfg.roles().contains(id) && member_roles@.contains(
                    id,
                ),
                Err(e) => match e {
                    Reject::RoleNotFound => lk is None,
                    Reject::NotAllowed => lk matches Some(id) && !cfg.roles().contains(id),
                    Reject::DontHave => lk matches Some(id) && cfg.roles().contains(id)
                        && !member_roles@.contains(id),
                    _ => false,
                },
            }
        }),
{
    let id = match lookup_role(cfg, guild, name) {
        Some(id) => id,
        None => {
            return Err(Reject::RoleNotFound);
        },
    };
    if !allowed_has(cfg, id) {
        return Err(Reject::NotAllowed);
    }
    if !member_has(member_roles, id) {
        return Err(Reject::DontHave);
    }
    Ok(id)
}

/// The role-creation check: rejects when a guild role of that name already
/// exists. After the platform creates the role, the caller records its
/// identifier with `Config::add_role`, unconditionally.
pub fn create_role(guild: &Vec<GuildRole>, name: &String) -> (r: Result<(), Reject>)
    ensures
        match r {
            Ok(_) => find_by_name_from(guild@, 0, name@) is None,
            Err(e) => e == Reject::NameTaken && find_by_name_from(guild@, 0, name@) is Some,
        },
{
    match find_role_by_name(guild, name) {
        Some(_) => Err(Reject::NameTaken),
        None => Ok(()),
    }
}

/// The aliasing command: resolve the role by exact name only, require it
/// to be allowed, then insert (or replace) the alias.
pub fn alias_role(
    cfg: &mut Config,
    guild: &Vec<GuildRole>,
    name: &String,
    alias: String,
) -> (r: Result<bool, Reject>)
    requires
        old(cfg).wf(),
    ensures
        final(cfg).wf(),
        ({
            let fnd = find_by_name_from(guild@, 0, name@);
            match r {
                Ok(persist) => persist && (fnd matches Some(id) && old(cfg).roles().contains(
                    id,
                ) && final(cfg).roles() == old(cfg).roles() && final(cfg).alias_map() == old(cfg).alias_map().insert(alias@, id)),
                Err(e) => *final(cfg) == *old(cfg) && match e {
                    Reject::RoleNotFound => fnd is None,
                    Reject::NotAllowedForAlias(n) => n@ == name@ && (fnd matches Some(id)
                        && !old(cfg).roles().contains(id)),
                    _ => false,
                },
            }
        }),
{
    let id = match find_role_by_name(guild, name) {
        Some(id) => id,
        None => {
            return Err(Reject::RoleNotFound);
        },
    };
    if !allowed_has(cfg, id) {
        return Err(Reject::NotAllowedForAlias(name.clone()));
    }
    let persist = cfg.add_alias(id, alias);
    Ok(persist)
}

/// The alias-removal command: rejects an unknown alias, else removes it.
pub fn remove_alias(cfg: &mut Config, alias: String) -> (r: Result<bool, Reject>)
    requires
        old(cfg).wf(),
    ensures
        final(cfg).wf(),
        match r {
            Ok(persist) => persist && old(cfg).alias_map().contains_key(alias@) && final(cfg).roles() == old(cfg).roles() && final(cfg).alias_map() == old(cfg).alias_map().remove(alias@),
            Err(e) => *final(cfg) == *old(cfg) && (e matches Reject::NoSuchAlias(a) && a@
                == alias@) && !old(cfg).alias_map().contains_key(alias@),
        },
{
    match cfg.resolve_alias(&alias) {
        Some(_) => {
            let persist = cfg.remove_alias(alias);
            Ok(persist)
        },
        None => Err(Reject::NoSuchAlias(alias)),
    }
}

/// The allow command: resolve by exact name, then insert into the
/// allow-list, idempotently and without rejection when already allowed.
pub fn allow_role(cfg: &mut Config, guild: &Vec<GuildRole>, name: &String) -> (r: Result<
    bool,
    Reject,
>)
    requires
        old(cfg).wf(),
    ensures
        final(cfg).wf(),
        ({
            let fnd = find_by_name_from(guild@, 0, name@);
            match r {
                Ok(persist) => fnd matches Some(id) && final(cfg).roles() == spec_add_role(
                    old(cfg).roles(),
                    id,
                ) && final(cfg).alias_map() == old(cfg).alias_map() && persist == !old(cfg).roles().contains(id),
                Err(e) => *final(cfg) == *old(cfg) && e == Reject::RoleNotFound && fnd is None,
            }
        }),
{
    let id = match find_role_by_name(guild, name) {
        Some(id) => id,
        None => {
            return Err(Reject::RoleNotFound);
        },
    };
    let persist = cfg.add_role(id);
    Ok(persist)
}

/// The deny command: resolve by exact name, require the role to be
/// allowed, then remove it from the allow-list, cascading alias removal.
pub fn deny_role(cfg: &mut Config, guild: &Vec<GuildRole>, name: &String) -> (r: Result<
    bool,
    Reject,
>)
    requires
        old(cfg).wf(),
    ensures
        final(cfg).wf(),
        ({
            let fnd = find_by_name_from(guild@, 0, name@);
            match r {
                Ok(persist) => persist && (fnd matches Some(id) && old(cfg).roles().contains(
                    id,
                ) && final(cfg).roles() == spec_remove_role(old(cfg).roles(), id) && final(cfg).alias_seq() == spec_cascade(old(cfg).alias_seq(), id)),
                Err(e) => *final(cfg) == *old(cfg) && match e {
                    Reject::RoleNotFound => fnd is None,
                    Reject::NotAllowed => fnd matches Some(id) && !old(cfg).roles().contains(id),
                    _ => false,
                },
            }
        }),
{
    let id = match find_role_by_name(guild, name) {
        Some(id) => id,
        None => {
            return Err(Reject::RoleNotFound);
        },
    };
    if !allowed_has(cfg, id) {
        return Err(Reject::NotAllowed);
    }
    let persist = cfg.remove_role(id);
    Ok(persist)
}


/// One line of the role listing: a guild role's name and the aliases that
/// point to it.
pub struct ListEntry {
    pub name: String,
    pub aliases: Vec<String>,
}

/// The character sequences of a list of strings.
pub open spec fn keys_view(ss: Seq<String>) -> Seq<Seq<char>> {
    Seq::new(ss.len(), |i: int| ss[i]@)
}

/// The view of a listing: each entry as (role name, alias names).
pub open spec fn list_view(es: Seq<ListEntry>) -> Seq<(Seq<char>, Seq<Seq<char>>)> {
    Seq::new(es.len(), |i: int| (es[i].name@, keys_view(es[i].aliases@)))
}

/// The alias keys mapping to `id`, in table order, from position `j` on.
pub open spec fn aliases_of_from(aseq: Seq<(Seq<char>, u64)>, j: int, id: u64) -> Seq<Seq<char>>
    decreases aseq.len() - j,
{
    if 0 <= j < aseq.len() {
        if aseq[j].1 == id {
            seq![aseq[j].0] + aliases_of_from(aseq, j + 1, id)
        } else {
            aliases_of_from(aseq, j + 1, id)
        }
    } else {
        Seq::empty()
    }
}

/// The expected listing from position `p` of the allow-list on: one entry
/// per allowed role that exists in the guild, in allow-list order;
/// allowed roles absent from the guild are silently skipped.
pub open spec fn spec_list_from(
    roles: Seq<u64>,
    p: int,
    aseq: Seq<(Seq<char>, u64)>,
    g: Seq<GuildRole>,
) -> Seq<(Seq<char>, Seq<Seq<char>>)>
    decreases roles.len() - p,
{
    if 0 <= p < roles.len() {
        let rest = spec_list_from(roles, p + 1, aseq, g);
        match find_by_id_from(g, 0, roles[p]) {
            Some(gi) => seq![(g[gi].name@, aliases_of_from(aseq, 0, roles[p]))] + rest,
            None => rest,
        }
    } else {
        Seq::empty()
    }
}

/// The list command: renders each allowed role present in the guild with
/// its name and the aliases pointing at it. A role identifier in the
/// allow-list with no matching guild role produces nothing, and stays in
/// the registry.
pub fn list_roles(cfg: &Config, guild: &Vec<GuildRole>) -> (r: Vec<ListEntry>)
    ensures
        list_view(r@) == spec_list_from(cfg.roles(), 0, cfg.alias_seq(), guild@),
{
    let ghost aseq = cfg.alias_seq();
    let ghost g = guild@;
    let roles = cfg.get_roles();
    let aliases = cfg.get_aliases();
    let n = roles.len();
    let m = aliases.len();
    let mut out: Vec<ListEntry> = Vec::new();
    proof {
        assert(list_view(out@) =~= Seq::<(Seq<char>, Seq<Seq<char>>)>::empty());
    }
    let mut p: usize = 0;
    while p < n
        invariant
            aseq == cfg.alias_seq(),
            g == guild@,
            n == cfg.roles().len(),
            m == aseq.len(),
            roles@ == cfg.roles(),
            crate::store::entries_view(aliases@) == aseq,
            p <= n,
            list_view(out@) + spec_list_from(cfg.roles(), p as int, aseq, g) == spec_list_from(
                cfg.roles(),
                0,
                aseq,
                g,
            ),
        decreases n - p,
    {
        let id = roles[p];
        match find_role_by_id(guild, id) {
            Some(gi) => {
                let name = guild[gi].name.clone();
                let mut collected: Vec<String> = Vec::new();
                proof {
                    assert(keys_view(collected@) =~= Seq::<Seq<char>>::empty());
                    assert(Seq::<Seq<char>>::empty() + aliases_of_from(aseq, 0, id)
                        =~= aliases_of_from(aseq, 0, id));
                }
                let mut j: usize = 0;
                while j < m
                    invariant
                        aseq == cfg.alias_seq(),
                        m == aseq.len(),
                        crate::store::entries_view(aliases@) == aseq,
                        j <= m,
                        keys_view(collected@) + aliases_of_from(aseq, j as int, id)
                            == aliases_of_from(aseq, 0, id),
                    decreases m - j,
                {
                    proof {
                        assert(aseq[j as int] == (aliases@[j as int].0@, aliases@[j as int].1));
                    }
                    if aliases[j].1 == id {
                        let key = aliases[j].0.clone();
                        proof {
                            let before = keys_view(collected@);
                            assert(keys_view(collected@.push(key)) =~= before.push(key@));
                            assert(before.push(key@) + aliases_of_from(aseq, j + 1 as int, id)
                                =~= before + (seq![key@] + aliases_of_from(
                                aseq,
                                j + 1 as int,
                                id,
                            )));
                            assert(seq![key@] + aliases_of_from(aseq, j + 1 as int, id)
                                =~= aliases_of_from(aseq, j as int, id));
                        }
                        collected.push(key);
                    }
                    j += 1;
                }
                proof {
                    assert(keys_view(collected@) + Seq::<Seq<char>>::empty() =~= keys_view(
                        collected@,
                    ));
                }
                let entry = ListEntry { name, aliases: collected };
                proof {
                    let ev = (entry.name@, keys_view(entry.aliases@));
                    let before = list_view(out@);
                    assert(ev == (g[gi as int].name@, aliases_of_from(aseq, 0, id)));
                    assert(list_view(out@.push(entry)) =~= before.push(ev));
                    assert(before.push(ev) + spec_list_from(cfg.roles(), p + 1 as int, aseq, g)
                        =~= before + (seq![ev] + spec_list_from(
                        cfg.roles(),
                        p + 1 as int,
                        aseq,
                        g,
                    )));
                    assert(seq![ev] + spec_list_from(cfg.roles(), p + 1 as int, aseq, g)
                        =~= spec_list_from(cfg.roles(), p as int, aseq, g));
                }
                out.push(entry);
            },
            None => {
                proof {
                    assert(spec_list_from(cfg.roles(), p as int, aseq, g) == spec_list_from(
                        cfg.roles(),
                        p + 1 as int,
                        aseq,
                        g,
                    ));
                }
            },
        }
        p += 1;
    }
    proof {
        assert(spec_list_from(cfg.roles(), n as int, aseq, g) =~= Seq::<
            (Seq<char>, Seq<Seq<char>>),
        >::empty());
        assert(list_view(out@) + Seq::<(Seq<char>, Seq<Seq<char>>)>::empty() =~= list_view(
            out@,
        ));
    }
    out
}

} // verus!
