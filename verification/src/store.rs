//! The persistent registry of self-assignable roles.
//!
//! `Config` owns the allow-list of role identifiers and the alias table.
//! Every mutating method reports whether the registry needs to be written
//! back to disk; the caller performs the actual file write.

use vstd::prelude::*;

verus! {

/// How many times `v` occurs in `s`.
pub open spec fn count_of(s: Seq<u64>, v: u64) -> nat
    decreases s.len(),
{
    if s.len() == 0 {
        0
    } else {
        (if s.last() == v {
            1nat
        } else {
            0nat
        }) + count_of(s.drop_last(), v)
    }
}

/// No role identifier occurs twice.
pub open spec fn unique_roles(s: Seq<u64>) -> bool {
    forall|i: int, j: int| 0 <= i < j < s.len() ==> s[i] != s[j]
}

/// No alias key occurs twice.
pub open spec fn unique_alias_keys(s: Seq<(Seq<char>, u64)>) -> bool {
    forall|i: int, j: int| 0 <= i < j < s.len() ==> s[i].0 != s[j].0
}

/// The mapping denoted by an association list of alias entries
/// (later entries win, though well-formed registries have unique keys).
pub open spec fn map_of(s: Seq<(Seq<char>, u64)>) -> Map<Seq<char>, u64>
    decreases s.len(),
{
    if s.len() == 0 {
        Map::empty()
    } else {
        map_of(s.drop_last()).insert(s.last().0, s.last().1)
    }
}

/// The allow-list after an idempotent insert of `role`.
pub open spec fn spec_add_role(roles: Seq<u64>, role: u64) -> Seq<u64> {
    if roles.contains(role) {
        roles
    } else {
        roles.push(role)
    }
}

/// The allow-list with every occurrence of `role` removed.
pub open spec fn spec_remove_role(roles: Seq<u64>, role: u64) -> Seq<u64>
    decreases roles.len(),
{
    if roles.len() == 0 {
        roles
    } else {
        let rest = spec_remove_role(roles.drop_last(), role);
        if roles.last() == role {
            rest
        } else {
            rest.push(roles.last())
        }
    }
}

/// The alias table with every entry targeting `role` removed.
pub open spec fn spec_cascade(aliases: Seq<(Seq<char>, u64)>, role: u64) -> Seq<(Seq<char>, u64)>
    decreases aliases.len(),
{
    if aliases.len() == 0 {
        aliases
    } else {
        let rest = spec_cascade(aliases.drop_last(), role);
        if aliases.last().1 == role {
            rest
        } else {
            rest.push(aliases.last())
        }
    }
}

/// The alias table with every entry keyed `key` removed.
pub open spec fn spec_drop_key(aliases: Seq<(Seq<char>, u64)>, key: Seq<char>) -> Seq<
    (Seq<char>, u64),
>
    decreases aliases.len(),
{
    if aliases.len() == 0 {
        aliases
    } else {
        let rest = spec_drop_key(aliases.drop_last(), key);
        if aliases.last().0 == key {
            rest
        } else {
            rest.push(aliases.last())
        }
    }
}

/// The view of an alias entry list: each entry as (key characters, role id).
pub open spec fn entries_view(s: Seq<(String, u64)>) -> Seq<(Seq<char>, u64)> {
    Seq::new(s.len(), |i: int| (s[i].0@, s[i].1))
}

/// Some entry of `s` is keyed `k`.
pub open spec fn has_key(s: Seq<(Seq<char>, u64)>, k: Seq<char>) -> bool {
    exists|i: int| 0 <= i < s.len() && s[i].0 == k
}

/// Every entry kept by the cascade comes from `aliases` and does not target `role`.
proof fn lemma_cascade_membership(aliases: Seq<(Seq<char>, u64)>, role: u64)
    ensures
        forall|i: int|
            0 <= i < spec_cascade(aliases, role).len() ==> aliases.contains(
                #[trigger] spec_cascade(aliases, role)[i],
            ) && spec_cascade(aliases, role)[i].1 != role,
        forall|k: Seq<char>| has_key(spec_cascade(aliases, role), k) ==> has_key(aliases, k),
    decreases aliases.len(),
{
    if aliases.len() > 0 {
        let rest = aliases.drop_last();
        lemma_cascade_membership(rest, role);
        assert(forall|i: int| 0 <= i < rest.len() ==> rest[i] == aliases[i]);
        assert forall|i: int| 0 <= i < spec_cascade(aliases, role).len() implies aliases.contains(
            #[trigger] spec_cascade(aliases, role)[i],
        ) && spec_cascade(aliases, role)[i].1 != role by {
            let c = spec_cascade(aliases, role);
            let cr = spec_cascade(rest, role);
            if aliases.last().1 == role {
                assert(c == cr);
                let j = choose|j: int| 0 <= j < rest.len() && rest[j] == c[i];
                assert(aliases[j] == c[i]);
            } else {
                assert(c == cr.push(aliases.last()));
                if i < cr.len() {
                    assert(c[i] == cr[i]);
                    let j = choose|j: int| 0 <= j < rest.len() && rest[j] == cr[i];
                    assert(aliases[j] == c[i]);
                } else {
                    assert(c[i] == aliases.last());
                    assert(aliases[aliases.len() - 1] == aliases.last());
                }
            }
        }
        assert forall|k: Seq<char>| has_key(spec_cascade(aliases, role), k) implies has_key(
            aliases,
            k,
        ) by {
            let c = spec_cascade(aliases, role);
            let i = choose|i: int| 0 <= i < c.len() && c[i].0 == k;
            assert(aliases.contains(c[i]));
            let j = choose|j: int| 0 <= j < aliases.len() && aliases[j] == c[i];
            assert(aliases[j].0 == k);
        }
    }
}

/// The cascade keeps alias keys unique.
proof fn lemma_cascade_unique(aliases: Seq<(Seq<char>, u64)>, role: u64)
    requires
        unique_alias_keys(aliases),
    ensures
        unique_alias_keys(spec_cascade(aliases, role)),
        forall|k: Seq<char>| has_key(spec_cascade(aliases, role), k) ==> has_key(aliases, k),
    decreases aliases.len(),
{
    lemma_cascade_membership(aliases, role);
    if aliases.len() > 0 {
        let rest = aliases.drop_last();
        assert(forall|i: int| 0 <= i < rest.len() ==> rest[i] == aliases[i]);
        lemma_cascade_unique(rest, role);
        let c = spec_cascade(aliases, role);
        let cr = spec_cascade(rest, role);
        if aliases.last().1 == role {
        } else {
            assert(c == cr.push(aliases.last()));
            assert forall|i: int, j: int| 0 <= i < j < c.len() implies c[i].0 != c[j].0 by {
                if j < c.len() - 1 {
                    assert(c[i] == cr[i] && c[j] == cr[j]);
                } else {
                    assert(c[j] == aliases.last());
                    assert(c[i] == cr[i]);
                    lemma_cascade_membership(rest, role);
                    assert(rest.contains(cr[i]));
                    let m = choose|m: int| 0 <= m < rest.len() && rest[m] == cr[i];
                    assert(aliases[m] == cr[i]);
                    assert(aliases[m].0 != aliases.last().0);
                }
            }
        }
    }
}

/// Same facts for removal by key.
proof fn lemma_drop_key_membership(aliases: Seq<(Seq<char>, u64)>, key: Seq<char>)
    ensures
        forall|i: int|
            0 <= i < spec_drop_key(aliases, key).len() ==> aliases.contains(
                #[trigger] spec_drop_key(aliases, key)[i],
            ) && spec_drop_key(aliases, key)[i].0 != key,
        forall|k: Seq<char>| has_key(spec_drop_key(aliases, key), k) ==> has_key(aliases, k),
    decreases aliases.len(),
{
    if aliases.len() > 0 {
        let rest = aliases.drop_last();
        lemma_drop_key_membership(rest, key);
        assert(forall|i: int| 0 <= i < rest.len() ==> rest[i] == aliases[i]);
        assert forall|i: int| 0 <= i < spec_drop_key(aliases, key).len() implies aliases.contains(
            #[trigger] spec_drop_key(aliases, key)[i],
        ) && spec_drop_key(aliases, key)[i].0 != key by {
            let c = spec_drop_key(aliases, key);
            let cr = spec_drop_key(rest, key);
            if aliases.last().0 == key {
                assert(c == cr);
                let j = choose|j: int| 0 <= j < rest.len() && rest[j] == c[i];
                assert(aliases[j] == c[i]);
            } else {
                assert(c == cr.push(aliases.last()));
                if i < cr.len() {
                    assert(c[i] == cr[i]);
                    let j = choose|j: int| 0 <= j < rest.len() && rest[j] == cr[i];
                    assert(aliases[j] == c[i]);
                } else {
                    assert(c[i] == aliases.last());
                    assert(aliases[aliases.len() - 1] == aliases.last());
                }
            }
        }
        assert forall|k: Seq<char>| has_key(spec_drop_key(aliases, key), k) implies has_key(
            aliases,
            k,
        ) by {
            let c = spec_drop_key(aliases, key);
            let i = choose|i: int| 0 <= i < c.len() && c[i].0 == k;
            assert(aliases.contains(c[i]));
            let j = choose|j: int| 0 <= j < aliases.len() && aliases[j] == c[i];
            assert(aliases[j].0 == k);
        }
    }
}

/// Removal by key keeps alias keys unique.
proof fn lemma_drop_key_unique(aliases: Seq<(Seq<char>, u64)>, key: Seq<char>)
    requires
        unique_alias_keys(aliases),
    ensures
        unique_alias_keys(spec_drop_key(aliases, key)),
    decreases aliases.len(),
{
    lemma_drop_key_membership(aliases, key);
    if aliases.len() > 0 {
        let rest = aliases.drop_last();
        assert(forall|i: int| 0 <= i < rest.len() ==> rest[i] == aliases[i]);
        lemma_drop_key_unique(rest, key);
        let c = spec_drop_key(aliases, key);
        let cr = spec_drop_key(rest, key);
        if aliases.last().0 == key {
        } else {
            assert(c == cr.push(aliases.last()));
            assert forall|i: int, j: int| 0 <= i < j < c.len() implies c[i].0 != c[j].0 by {
                if j < c.len() - 1 {
                    assert(c[i] == cr[i] && c[j] == cr[j]);
                } else {
                    assert(c[j] == aliases.last());
                    assert(c[i] == cr[i]);
                    lemma_drop_key_membership(rest, key);
                    assert(rest.contains(cr[i]));
                    let m = choose|m: int| 0 <= m < rest.len() && rest[m] == cr[i];
                    assert(aliases[m] == cr[i]);
                    assert(aliases[m].0 != aliases.last().0);
                }
            }
        }
    }
}

/// The mapping's domain is exactly the set of keys of the entry list.
pub proof fn lemma_map_of_domain(s: Seq<(Seq<char>, u64)>)
    ensures
        forall|k: Seq<char>| #[trigger] map_of(s).contains_key(k) <==> has_key(s, k),
    decreases s.len(),
{
    if s.len() > 0 {
        let rest = s.drop_last();
        lemma_map_of_domain(rest);
        assert(forall|i: int| 0 <= i < rest.len() ==> rest[i] == s[i]);
        assert forall|k: Seq<char>| #[trigger] map_of(s).contains_key(k) <==> has_key(s, k) by {
            if map_of(s).contains_key(k) {
                if k == s.last().0 {
                    assert(s[s.len() - 1].0 == k);
                } else {
                    assert(map_of(rest).contains_key(k));
                    let i = choose|i: int| 0 <= i < rest.len() && rest[i].0 == k;
                    assert(s[i].0 == k);
                }
            }
            if has_key(s, k) {
                let i = choose|i: int| 0 <= i < s.len() && s[i].0 == k;
                if i == s.len() - 1 {
                    assert(map_of(s).contains_key(k));
                } else {
                    assert(rest[i].0 == k);
                    assert(map_of(rest).contains_key(k));
                }
            }
        }
    }
}

/// With unique keys, the mapping sends each entry's key to that entry's role.
pub proof fn lemma_map_of_index(s: Seq<(Seq<char>, u64)>)
    requires
        unique_alias_keys(s),
    ensures
        forall|i: int|
            0 <= i < s.len() ==> map_of(s).contains_key(#[trigger] s[i].0) && map_of(s)[s[i].0]
                == s[i].1,
    decreases s.len(),
{
    if s.len() > 0 {
        let rest = s.drop_last();
        assert(forall|i: int| 0 <= i < rest.len() ==> rest[i] == s[i]);
        lemma_map_of_index(rest);
        assert forall|i: int| 0 <= i < s.len() implies map_of(s).contains_key(#[trigger] s[i].0)
            && map_of(s)[s[i].0] == s[i].1 by {
            if i == s.len() - 1 {
            } else {
                assert(rest[i] == s[i]);
                assert(s[i].0 != s.last().0);
            }
        }
    }
}

/// The registry of self-assignable roles: an allow-list of role identifiers
/// and a table mapping alias strings to role identifiers.
pub struct Config {
    allowed_roles: Vec<u64>,
    aliases: Vec<(String, u64)>,
}

/// Marker type under which a hosting process registers the shared,
/// lock-guarded `Config` instance in its context map.
pub struct ConfigKey;

impl Config {
    /// The allow-list, in insertion order.
    pub closed spec fn roles(&self) -> Seq<u64> {
        self.allowed_roles@
    }

    /// The alias table as a sequence of (key, role identifier) entries.
    pub closed spec fn alias_seq(&self) -> Seq<(Seq<char>, u64)> {
        entries_view(self.aliases@)
    }

    /// The mapping denoted by the alias table.
    pub open spec fn alias_map(&self) -> Map<Seq<char>, u64> {
        map_of(self.alias_seq())
    }

    /// Well-formedness: no duplicate role identifiers, no duplicate alias keys.
    pub open spec fn wf(&self) -> bool {
        unique_roles(self.roles()) && unique_alias_keys(self.alias_seq())
    }

    /// A fresh, empty registry.
    pub fn create() -> (cfg: Config)
        ensures
            cfg.wf(),
            cfg.roles() =~= Seq::<u64>::empty(),
            cfg.alias_seq() =~= Seq::<(Seq<char>, u64)>::empty(),
            cfg.alias_map() =~= Map::<Seq<char>, u64>::empty(),
    {
        let cfg = Config { allowed_roles: Vec::new(), aliases: Vec::new() };
        cfg
    }

    /// A registry assembled from already-validated parts.
    pub fn from_parts(allowed_roles: Vec<u64>, aliases: Vec<(String, u64)>) -> (cfg: Config)
        requires
            unique_roles(allowed_roles@),
            unique_alias_keys(entries_view(aliases@)),
        ensures
            cfg.wf(),
            cfg.roles() == allowed_roles@,
            cfg.alias_seq() == entries_view(aliases@),
    {
        Config { allowed_roles, aliases }
    }

    /// Read-only view of the allow-list.
    pub fn get_roles(&self) -> (r: &Vec<u64>)
        ensures
            r@ == self.roles(),
    {
        &self.allowed_roles
    }

    /// Read-only view of the alias table.
    pub fn get_aliases(&self) -> (r: &Vec<(String, u64)>)
        ensures
            entries_view(r@) == self.alias_seq(),
    {
        &self.aliases
    }

    /// Exact-match alias lookup.
    pub fn resolve_alias(&self, alias: &String) -> (r: Option<u64>)
        requires
            self.wf(),
        ensures
            match r {
                Some(v) => self.alias_map().contains_key(alias@) && self.alias_map()[alias@] == v,
                None => !self.alias_map().contains_key(alias@),
            },
    {
        proof {
            lemma_map_of_domain(self.alias_seq());
            lemma_map_of_index(self.alias_seq());
        }
        let n = self.aliases.len();
        let mut i: usize = 0;
        while i < n
            invariant
                self.wf(),
                n == self.aliases@.len(),
                i <= n,
                forall|k: int| 0 <= k < i ==> (#[trigger] self.alias_seq()[k]).0 != alias@,
                forall|k: Seq<char>| #[trigger]
                    self.alias_map().contains_key(k) <==> has_key(self.alias_seq(), k),
                forall|j: int|
                    0 <= j < self.alias_seq().len() ==> self.alias_map().contains_key(
                        (#[trigger] self.alias_seq()[j]).0,
                    ) && self.alias_map()[self.alias_seq()[j].0] == self.alias_seq()[j].1,
            decreases n - i,
        {
            if self.aliases[i].0.eq(alias) {
                let v = self.aliases[i].1;
                proof {
                    assert(self.alias_seq()[i as int].0 == alias@);
                }
                return Some(v);
            }
            i += 1;
        }
        proof {
            assert(!has_key(self.alias_seq(), alias@));
        }
        None
    }

    /// Idempotent insert into the allow-list. Returns whether the registry
    /// changed and must be persisted.
    pub fn add_role(&mut self, role: u64) -> (changed: bool)
        requires
            old(self).wf(),
        ensures
            final(self).wf(),
            changed == !old(self).roles().contains(role),
            final(self).roles() == spec_add_role(old(self).roles(), role),
            final(self).alias_seq() == old(self).alias_seq(),
            final(self).alias_map() == old(self).alias_map(),
    {
        if contains_role(&self.allowed_roles, role) {
            return false;
        }
        self.allowed_roles.push(role);
        proof {
            assert(self.alias_seq() =~= old(self).alias_seq());
            assert forall|i: int, j: int|
                0 <= i < j < self.roles().len() implies self.roles()[i] != self.roles()[j] by {
                if j == self.roles().len() - 1 {
                    assert(old(self).roles()[i] == self.roles()[i]);
                    assert(!old(self).roles().contains(role));
                }
            }
        }
        true
    }

    /// Removes `role` from the allow-list and cascades removal of every alias
    /// targeting it; a no-op when `role` is not allowed. Returns whether the
    /// registry changed and must be persisted.
    pub fn remove_role(&mut self, role: u64) -> (changed: bool)
        requires
            old(self).wf(),
        ensures
            final(self).wf(),
            changed == old(self).roles().contains(role),
            changed ==> final(self).roles() == spec_remove_role(old(self).roles(), role)
                && final(self).alias_seq() == spec_cascade(old(self).alias_seq(), role),
            !changed ==> final(self).roles() == old(self).roles() && final(self).alias_seq()
                == old(self).alias_seq(),
    {
        if !contains_role(&self.allowed_roles, role) {
            return false;
        }
        let n = self.allowed_roles.len();
        let mut new_roles: Vec<u64> = Vec::new();
        let mut i: usize = 0;
        while i < n
            invariant
                *self == *old(self),
                n == self.allowed_roles@.len(),
                i <= n,
                new_roles@ == spec_remove_role(self.allowed_roles@.subrange(0, i as int), role),
            decreases n - i,
        {
            let v = self.allowed_roles[i];
            proof {
                let pre = self.allowed_roles@.subrange(0, i + 1 as int);
                assert(pre.drop_last() =~= self.allowed_roles@.subrange(0, i as int));
                assert(pre.last() == self.allowed_roles@[i as int]);
            }
            if v != role {
                new_roles.push(v);
            }
            i += 1;
        }
        proof {
            assert(self.allowed_roles@.subrange(0, n as int) =~= self.allowed_roles@);
        }
        let m = self.aliases.len();
        let mut new_aliases: Vec<(String, u64)> = Vec::new();
        let mut j: usize = 0;
        while j < m
            invariant
                *self == *old(self),
                m == self.aliases@.len(),
                j <= m,
                entries_view(new_aliases@) == spec_cascade(
                    entries_view(self.aliases@).subrange(0, j as int),
                    role,
                ),
            decreases m - j,
        {
            let target = self.aliases[j].1;
            proof {
                let full = entries_view(self.aliases@);
                let pre = full.subrange(0, j + 1 as int);
                assert(pre.drop_last() =~= full.subrange(0, j as int));
                assert(pre.last() == full[j as int]);
            }
            if target != role {
                let key = self.aliases[j].0.clone();
                new_aliases.push((key, target));
                proof {
                    assert(entries_view(new_aliases@) =~= entries_view(
                        new_aliases@.drop_last(),
                    ).push((self.aliases@[j as int].0@, self.aliases@[j as int].1)));
                }
            }
            j += 1;
        }
        proof {
            let full = entries_view(self.aliases@);
            assert(full.subrange(0, m as int) =~= full);
        }
        self.allowed_roles = new_roles;
        self.aliases = new_aliases;
        proof {
            lemma_remove_role_unique(old(self).roles(), role);
            lemma_cascade_unique(old(self).alias_seq(), role);
        }
        true
    }

    /// Insert-or-replace an alias for `role`; a silent no-op when `role` is
    /// not in the allow-list. Returns whether the registry changed and must
    /// be persisted.
    pub fn add_alias(&mut self, role: u64, alias: String) -> (changed: bool)
        requires
            old(self).wf(),
        ensures
            final(self).wf(),
            changed == old(self).roles().contains(role),
            final(self).roles() == old(self).roles(),
            changed ==> final(self).alias_map() == old(self).alias_map().insert(alias@, role),
            !changed ==> final(self).alias_seq() == old(self).alias_seq(),
    {
        if !contains_role(&self.allowed_roles, role) {
            return false;
        }
        let m = self.aliases.len();
        let mut j: usize = 0;
        while j < m
            invariant
                *self == *old(self),
                old(self).wf(),
                old(self).roles().contains(role),
                m == self.aliases@.len(),
                j <= m,
                forall|k: int| 0 <= k < j ==> (#[trigger] entries_view(self.aliases@)[k]).0
                    != alias@,
            decreases m - j,
        {
            if self.aliases[j].0.eq(&alias) {
                proof {
                    assert(entries_view(self.aliases@)[j as int].0 == alias@);
                }
                self.aliases.remove(j);
                self.aliases.insert(j, (alias, role));
                proof {
                    let s = old(self).alias_seq();
                    assert(self.alias_seq() =~= s.update(j as int, (s[j as int].0, role)));
                    lemma_map_of_update(s, j as int, role);
                    assert(old(self).alias_map().insert(s[j as int].0, role) =~= old(
                        self,
                    ).alias_map().insert(alias@, role));
                    assert forall|a: int, b: int|
                        0 <= a < b < self.alias_seq().len() implies self.alias_seq()[a].0
                        != self.alias_seq()[b].0 by {
                        assert(self.alias_seq()[a].0 == s[a].0);
                        assert(self.alias_seq()[b].0 == s[b].0);
                    }
                }
                return true;
            }
            j += 1;
        }
        self.aliases.push((alias, role));
        proof {
            let s = old(self).alias_seq();
            assert(self.alias_seq() =~= s.push((alias@, role)));
            assert(self.alias_seq().drop_last() =~= s);
            assert forall|a: int, b: int|
                0 <= a < b < self.alias_seq().len() implies self.alias_seq()[a].0
                != self.alias_seq()[b].0 by {
                if b == self.alias_seq().len() - 1 {
                    assert(entries_view(old(self).aliases@)[a].0 != alias@);
                }
            }
        }
        true
    }

    /// Removes the alias keyed `alias` if present. Always reports that the
    /// registry must be persisted, matching the store's write-through
    /// behavior even for an absent key.
    pub fn remove_alias(&mut self, alias: String) -> (persist: bool)
        requires
            old(self).wf(),
        ensures
            final(self).wf(),
            persist,
            final(self).roles() == old(self).roles(),
            final(self).alias_seq() == spec_drop_key(old(self).alias_seq(), alias@),
            final(self).alias_map() == old(self).alias_map().remove(alias@),
    {
        let m = self.aliases.len();
        let mut new_aliases: Vec<(String, u64)> = Vec::new();
        let mut j: usize = 0;
        while j < m
            invariant
                *self == *old(self),
                m == self.aliases@.len(),
                j <= m,
                entries_view(new_aliases@) == spec_drop_key(
                    entries_view(self.aliases@).subrange(0, j as int),
                    alias@,
                ),
            decreases m - j,
        {
            let keep = !self.aliases[j].0.eq(&alias);
            proof {
                let full = entries_view(self.aliases@);
                let pre = full.subrange(0, j + 1 as int);
                assert(pre.drop_last() =~= full.subrange(0, j as int));
                assert(pre.last() == full[j as int]);
            }
            if keep {
                let key = self.aliases[j].0.clone();
                let target = self.aliases[j].1;
                new_aliases.push((key, target));
                proof {
                    assert(entries_view(new_aliases@) =~= entries_view(
                        new_aliases@.drop_last(),
                    ).push((self.aliases@[j as int].0@, self.aliases@[j as int].1)));
                }
            }
            j += 1;
        }
        proof {
            let full = entries_view(self.aliases@);
            assert(full.subrange(0, m as int) =~= full);
        }
        self.aliases = new_aliases;
        proof {
            lemma_drop_key_unique(old(self).alias_seq(), alias@);
            lemma_map_of_drop_key(old(self).alias_seq(), alias@);
        }
        true
    }
}

/// Linear search of the allow-list.
fn contains_role(v: &Vec<u64>, role: u64) -> (b: bool)
    ensures
        b == v@.contains(role),
{
    let n = v.len();
    let mut i: usize = 0;
    while i < n
        invariant
            n == v@.len(),
            i <= n,
            forall|k: int| 0 <= k < i ==> v@[k] != role,
        decreases n - i,
    {
        if v[i] == role {
            proof {
                assert(v@[i as int] == role);
            }
            return true;
        }
        i += 1;
    }
    false
}

/// Every entry kept by the removal comes from `roles` and differs from `role`.
proof fn lemma_remove_role_membership(roles: Seq<u64>, role: u64)
    ensures
        forall|i: int|
            0 <= i < spec_remove_role(roles, role).len() ==> roles.contains(
                #[trigger] spec_remove_role(roles, role)[i],
            ) && spec_remove_role(roles, role)[i] != role,
    decreases roles.len(),
{
    if roles.len() > 0 {
        let rest = roles.drop_last();
        lemma_remove_role_membership(rest, role);
        assert(forall|i: int| 0 <= i < rest.len() ==> rest[i] == roles[i]);
        assert forall|i: int| 0 <= i < spec_remove_role(roles, role).len() implies roles.contains(
            #[trigger] spec_remove_role(roles, role)[i],
        ) && spec_remove_role(roles, role)[i] != role by {
            let c = spec_remove_role(roles, role);
            let cr = spec_remove_role(rest, role);
            if roles.last() == role {
                assert(c == cr);
                assert(rest.contains(cr[i]));
                let j = choose|j: int| 0 <= j < rest.len() && rest[j] == cr[i];
                assert(roles[j] == c[i]);
            } else {
                assert(c == cr.push(roles.last()));
                if i < cr.len() {
                    assert(c[i] == cr[i]);
                    assert(rest.contains(cr[i]));
                    let j = choose|j: int| 0 <= j < rest.len() && rest[j] == cr[i];
                    assert(roles[j] == c[i]);
                } else {
                    assert(c[i] == roles.last());
                    assert(roles[roles.len() - 1] == roles.last());
                }
            }
        }
    }
}

/// Removing a role keeps the allow-list's entries unique and drops `role`.
proof fn lemma_remove_role_unique(roles: Seq<u64>, role: u64)
    requires
        unique_roles(roles),
    ensures
        unique_roles(spec_remove_role(roles, role)),
        !spec_remove_role(roles, role).contains(role),
    decreases roles.len(),
{
    lemma_remove_role_membership(roles, role);
    let c = spec_remove_role(roles, role);
    assert(!c.contains(role)) by {
        if c.contains(role) {
            let i = choose|i: int| 0 <= i < c.len() && c[i] == role;
            assert(c[i] != role);
        }
    }
    if roles.len() > 0 {
        let rest = roles.drop_last();
        assert(forall|i: int| 0 <= i < rest.len() ==> rest[i] == roles[i]);
        lemma_remove_role_unique(rest, role);
        let cr = spec_remove_role(rest, role);
        if roles.last() == role {
            assert(c == cr);
        } else {
            assert(c == cr.push(roles.last()));
            assert forall|i: int, j: int| 0 <= i < j < c.len() implies c[i] != c[j] by {
                if j == c.len() - 1 {
                    assert(c[i] == cr[i]);
                    lemma_remove_role_membership(rest, role);
                    assert(rest.contains(cr[i]));
                    let m = choose|m: int| 0 <= m < rest.len() && rest[m] == cr[i];
                    assert(roles[m] == cr[i]);
                    assert(roles[m] != roles.last());
                } else {
                    assert(c[i] == cr[i] && c[j] == cr[j]);
                }
            }
        }
    }
}

/// Replacing the role of the entry at `i` updates the mapping at that key.
proof fn lemma_map_of_update(s: Seq<(Seq<char>, u64)>, i: int, role: u64)
    requires
        unique_alias_keys(s),
        0 <= i < s.len(),
    ensures
        map_of(s.update(i, (s[i].0, role))) == map_of(s).insert(s[i].0, role),
    decreases s.len(),
{
    let t = s.update(i, (s[i].0, role));
    if i == s.len() - 1 {
        assert(t.drop_last() =~= s.drop_last());
        assert(t.last() == (s[i].0, role));
        assert(map_of(t) =~= map_of(s).insert(s[i].0, role));
    } else {
        let rest = s.drop_last();
        assert(forall|k: int| 0 <= k < rest.len() ==> rest[k] == s[k]);
        lemma_map_of_update(rest, i, role);
        assert(t.drop_last() =~= rest.update(i, (s[i].0, role)));
        assert(t.last() == s.last());
        assert(s[i].0 != s.last().0);
        assert(map_of(t) == map_of(rest).insert(s[i].0, role).insert(s.last().0, s.last().1));
        assert(map_of(rest).insert(s[i].0, role).insert(s.last().0, s.last().1) =~= map_of(
            rest,
        ).insert(s.last().0, s.last().1).insert(s[i].0, role));
        assert(map_of(s).insert(s[i].0, role) == map_of(rest).insert(
            s.last().0,
            s.last().1,
        ).insert(s[i].0, role));
    }
}

/// Dropping a key from the entry list removes it from the mapping.
proof fn lemma_map_of_drop_key(s: Seq<(Seq<char>, u64)>, key: Seq<char>)
    ensures
        map_of(spec_drop_key(s, key)) == map_of(s).remove(key),
    decreases s.len(),
{
    if s.len() == 0 {
        assert(map_of(spec_drop_key(s, key)) =~= map_of(s).remove(key));
    } else {
        let rest = s.drop_last();
        lemma_map_of_drop_key(rest, key);
        let c = spec_drop_key(s, key);
        if s.last().0 == key {
            assert(c == spec_drop_key(rest, key));
            assert(map_of(s).remove(key) =~= map_of(rest).remove(key));
        } else {
            assert(c == spec_drop_key(rest, key).push(s.last()));
            assert(c.drop_last() =~= spec_drop_key(rest, key));
            assert(map_of(c) == map_of(rest).remove(key).insert(s.last().0, s.last().1));
            assert(map_of(s).remove(key) =~= map_of(rest).remove(key).insert(
                s.last().0,
                s.last().1,
            ));
        }
    }
}

/// In a duplicate-free sequence each value occurs at most once.
proof fn lemma_count_unique(s: Seq<u64>, v: u64)
    requires
        unique_roles(s),
    ensures
        count_of(s, v) == if s.contains(v) {
            1nat
        } else {
            0nat
        },
    decreases s.len(),
{
    if s.len() > 0 {
        let rest = s.drop_last();
        assert(forall|i: int| 0 <= i < rest.len() ==> rest[i] == s[i]);
        lemma_count_unique(rest, v);
        if s.last() == v {
            assert(!rest.contains(v)) by {
                if rest.contains(v) {
                    let i = choose|i: int| 0 <= i < rest.len() && rest[i] == v;
                    assert(s[i] == v);
                    assert(s[s.len() - 1] == v);
                }
            }
            assert(s[s.len() - 1] == v);
            assert(s.contains(v));
        } else {
            assert(s.contains(v) <==> rest.contains(v)) by {
                if s.contains(v) {
                    let i = choose|i: int| 0 <= i < s.len() && s[i] == v;
                    assert(rest[i] == v);
                }
                if rest.contains(v) {
                    let i = choose|i: int| 0 <= i < rest.len() && rest[i] == v;
                    assert(s[i] == v);
                }
            }
        }
    }
}

/// After an idempotent insert the role identifier is in the allow-list
/// exactly once, and inserting it again changes nothing.
pub proof fn lemma_add_role_once(roles: Seq<u64>, role: u64)
    requires
        unique_roles(roles),
    ensures
        count_of(spec_add_role(roles, role), role) == 1,
        spec_add_role(spec_add_role(roles, role), role) == spec_add_role(roles, role),
{
    let a = spec_add_role(roles, role);
    if roles.contains(role) {
        lemma_count_unique(roles, role);
    } else {
        assert(a == roles.push(role));
        assert(a[a.len() - 1] == role);
        assert(a.contains(role));
        assert(unique_roles(a)) by {
            assert forall|i: int, j: int| 0 <= i < j < a.len() implies a[i] != a[j] by {
                if j == a.len() - 1 {
                    assert(a[i] == roles[i]);
                    assert(roles.contains(roles[i]));
                }
            }
        }
        lemma_count_unique(a, role);
    }
    assert(a.contains(role)) by {
        if !roles.contains(role) {
            assert(a[a.len() - 1] == role);
        }
    }
}

/// Removing an allowed role drops it from the allow-list and removes every
/// alias whose target equals it: afterwards no alias maps to the role.
pub proof fn lemma_remove_role_cascades(
    roles: Seq<u64>,
    aliases: Seq<(Seq<char>, u64)>,
    role: u64,
)
    requires
        unique_roles(roles),
        unique_alias_keys(aliases),
    ensures
        !spec_remove_role(roles, role).contains(role),
        forall|i: int|
            0 <= i < spec_cascade(aliases, role).len() ==> (#[trigger] spec_cascade(
                aliases,
                role,
            )[i]).1 != role,
        forall|k: Seq<char>| #[trigger]
            map_of(spec_cascade(aliases, role)).contains_key(k) ==> map_of(
                spec_cascade(aliases, role),
            )[k] != role,
{
    lemma_remove_role_unique(roles, role);
    lemma_cascade_membership(aliases, role);
    lemma_cascade_unique(aliases, role);
    let c = spec_cascade(aliases, role);
    lemma_map_of_domain(c);
    lemma_map_of_index(c);
    assert forall|k: Seq<char>| #[trigger] map_of(c).contains_key(k) implies map_of(c)[k]
        != role by {
        let i = choose|i: int| 0 <= i < c.len() && c[i].0 == k;
        assert(map_of(c)[c[i].0] == c[i].1);
    }
}

/// Once a role is allowed, adding an alias for it makes the alias resolve to
/// that role. (When the role is not allowed, `add_alias` leaves the registry
/// unchanged, as its contract states.)
pub proof fn lemma_alias_then_resolve(pre: Config, post: Config, role: u64, alias: Seq<char>)
    requires
        pre.wf(),
        pre.roles().contains(role),
        post.alias_map() == pre.alias_map().insert(alias, role),
    ensures
        post.alias_map().contains_key(alias),
        post.alias_map()[alias] == role,
{
}

/// After removing an alias it no longer resolves, whatever the prior state.
pub proof fn lemma_remove_alias_then_resolve(pre: Config, post: Config, alias: Seq<char>)
    requires
        post.alias_map() == pre.alias_map().remove(alias),
    ensures
        !post.alias_map().contains_key(alias),
{
}

} // verus!
