//! Bindings of scenario variables to values and of actor names to
//! addresses, with transactions that are either committed or dropped.
use bimap::BiHashMap;
use vstd::prelude::*;
use vstd::string::*;

use crate::actor_book::{
    bimap_extend, bimap_get_by_left, bimap_get_by_right, bimap_insert_no_overwrite, bimap_new,
    bimap_pairs, has_left, has_right,
};
use crate::json::{
    copy_string, entries_view, is_var_name, is_wildcard, items_view, lemma_entries_view,
    lemma_items_view, starts_with_dollar, str_eq, wildcard, Json, JsonValue,
};

verus! {

/// An error while rendering a template.
#[derive(Debug)]
pub enum BindError {
    /// The template names a variable that has no value (or is `$_`).
    UnboundValue(String),
}

impl BindError {
    /// The text of this error: `unbound value: <name>`.
    pub fn message(&self) -> (r: String)
        ensures
            match self {
                BindError::UnboundValue(n) => r@ == seq![
                    'u', 'n', 'b', 'o', 'u', 'n', 'd', ' ', 'v', 'a', 'l', 'u', 'e', ':', ' ',
                ] + n@,
            },
    {
        match self {
            BindError::UnboundValue(n) => {
                let prefix = "unbound value: ";
                proof {
                    reveal_strlit("unbound value: ");
                }
                let s = String::from_str(prefix);
                let r = s.concat(n.as_str());
                assert(r@ =~= seq![
                    'u', 'n', 'b', 'o', 'u', 'n', 'd', ' ', 'v', 'a', 'l', 'u', 'e', ':', ' ',
                ] + n@);
                r
            },
        }
    }
}

/// Variables bound in an environment: a name with its value.
pub type Env = Map<Seq<char>, Json>;

/// The value that `entries` bind `name` to: the last entry with that name.
pub open spec fn assoc_find(entries: Seq<(String, JsonValue)>, name: Seq<char>) -> Option<Json>
    decreases entries.len(),
{
    if entries.len() == 0 {
        None
    } else if entries.last().0@ == name {
        Some(entries.last().1@)
    } else {
        assoc_find(entries.drop_last(), name)
    }
}

/// The environment that `entries` make.
pub open spec fn assoc_env(entries: Seq<(String, JsonValue)>) -> Env {
    Map::new(|k: Seq<char>| assoc_find(entries, k) is Some, |k: Seq<char>| assoc_find(entries, k)->0)
}

pub proof fn lemma_assoc_push(entries: Seq<(String, JsonValue)>, e: (String, JsonValue))
    ensures
        assoc_env(entries.push(e)) == assoc_env(entries).insert(e.0@, e.1@),
{
    let s = entries.push(e);
    assert(s.drop_last() =~= entries);
    assert(assoc_env(s) =~= assoc_env(entries).insert(e.0@, e.1@));
}

/// The binding `name := value` in `env`: where `name` is bound already,
/// it holds when the value is the same and changes nothing; otherwise it
/// adds the binding.
pub open spec fn bind_var(env: Env, name: Seq<char>, value: Json) -> (bool, Env) {
    if env.contains_key(name) {
        (env[name] == value, env)
    } else {
        (true, env.insert(name, value))
    }
}

/// The first value of `entries` under `key`.
pub open spec fn obj_get(entries: Seq<(Seq<char>, Json)>, key: Seq<char>) -> Option<Json>
    decreases entries.len(),
{
    if entries.len() == 0 {
        None
    } else if entries[0].0 == key {
        Some(entries[0].1)
    } else {
        obj_get(entries.drop_first(), key)
    }
}

/// Matching `value` against `pattern`, starting with the bindings `env`:
/// whether it matches, and the bindings after the attempt.
///
/// - `"$_"` matches anything;
/// - a string `"$name"` binds the variable `name` (see [`bind_var`]);
/// - `null`, booleans, numbers and other strings match themselves;
/// - an array matches an array of the same length, item by item, in order,
///   stopping at the first item that does not match;
/// - an object matches an object that has every key of the pattern, with
///   values that match, key by key, in order, stopping at the first key that
///   is missing or whose value does not match; other keys of the value are
///   ignored;
/// - nothing else matches.
pub open spec fn match_pattern(value: Json, pattern: Json, env: Env) -> (bool, Env)
    decreases pattern,
{
    match pattern {
        Json::Str(p) => {
            if p == wildcard() {
                (true, env)
            } else if is_var_name(p) {
                bind_var(env, p, value)
            } else {
                match value {
                    Json::Str(v) => (v == p, env),
                    _ => (false, env),
                }
            }
        },
        Json::Null => (value is Null, env),
        Json::Bool(p) => (value matches Json::Bool(v) && v == p, env),
        Json::Number(p) => (value matches Json::Number(v) && v == p, env),
        Json::Array(ps) => match value {
            Json::Array(vs) => if vs.len() != ps.len() {
                (false, env)
            } else {
                match_items(vs, ps, env)
            },
            _ => (false, env),
        },
        Json::Object(pe) => match value {
            Json::Object(ve) => match_entries(ve, pe, env),
            _ => (false, env),
        },
    }
}

/// Matching the items `vs` against the patterns `ps`, in order.
pub open spec fn match_items(vs: Seq<Json>, ps: Seq<Json>, env: Env) -> (bool, Env)
    decreases ps,
{
    if ps.len() == 0 {
        (true, env)
    } else {
        let (ok, env1) = match_pattern(vs[0], ps[0], env);
        if !ok {
            (false, env1)
        } else {
            match_items(vs.drop_first(), ps.drop_first(), env1)
        }
    }
}

/// Matching the entries `ve` of an object against the entries `pe` of a
/// pattern, in the order of `pe`.
pub open spec fn match_entries(ve: Seq<(Seq<char>, Json)>, pe: Seq<(Seq<char>, Json)>, env: Env) -> (bool, Env)
    decreases pe,
{
    if pe.len() == 0 {
        (true, env)
    } else {
        match obj_get(ve, pe[0].0) {
            None => (false, env),
            Some(vv) => {
                let (ok, env1) = match_pattern(vv, pe[0].1, env);
                if !ok {
                    (false, env1)
                } else {
                    match_entries(ve, pe.drop_first(), env1)
                }
            },
        }
    }
}

/// Rendering `template` with the bindings `env`: the template with every
/// variable replaced by its value; the name of the first variable (in
/// document order) that has no value, or `"$_"`, is the error.
pub open spec fn render_json(template: Json, env: Env) -> Result<Json, Seq<char>>
    decreases template,
{
    match template {
        Json::Str(s) => if s == wildcard() {
            Err(s)
        } else if is_var_name(s) {
            if env.contains_key(s) {
                Ok(env[s])
            } else {
                Err(s)
            }
        } else {
            Ok(template)
        },
        Json::Array(items) => match render_items(items, env) {
            Ok(r) => Ok(Json::Array(r)),
            Err(e) => Err(e),
        },
        Json::Object(entries) => match render_entries(entries, env) {
            Ok(r) => Ok(Json::Object(r)),
            Err(e) => Err(e),
        },
        _ => Ok(template),
    }
}

pub open spec fn render_items(items: Seq<Json>, env: Env) -> Result<Seq<Json>, Seq<char>>
    decreases items,
{
    if items.len() == 0 {
        Ok(Seq::empty())
    } else {
        match render_json(items[0], env) {
            Err(e) => Err(e),
            Ok(v) => match render_items(items.drop_first(), env) {
                Err(e) => Err(e),
                Ok(rest) => Ok(seq![v] + rest),
            },
        }
    }
}

pub open spec fn render_entries(entries: Seq<(Seq<char>, Json)>, env: Env) -> Result<
    Seq<(Seq<char>, Json)>,
    Seq<char>,
>
    decreases entries,
{
    if entries.len() == 0 {
        Ok(Seq::empty())
    } else {
        match render_json(entries[0].1, env) {
            Err(e) => Err(e),
            Ok(v) => match render_entries(entries.drop_first(), env) {
                Err(e) => Err(e),
                Ok(rest) => Ok(seq![(entries[0].0, v)] + rest),
            },
        }
    }
}

/// One-to-one: no name and no address occurs in two pairs.
pub open spec fn one_to_one(pairs: Set<(Seq<char>, u64)>) -> bool {
    &&& forall|n: Seq<char>, a: u64, b: u64|
        pairs.contains((n, a)) && pairs.contains((n, b)) ==> a == b
    &&& forall|n: Seq<char>, m: Seq<char>, a: u64|
        pairs.contains((n, a)) && pairs.contains((m, a)) ==> n == m
}

/// Stores bindings:
/// - scenario variables bound to values;
/// - actor names bound to addresses.
pub struct Scope {
    values: Vec<(String, JsonValue)>,
    actors: BiHashMap<String, u64>,
}

/// A transaction on a [Scope].
///
/// Bindings of variables and of actor names are added to the transaction;
/// then it is either committed (applied to the scope) or dropped.
pub struct Txn {
    values_added: Vec<(String, JsonValue)>,
    actors_added: BiHashMap<String, u64>,
}

impl Scope {
    /// The variables bound in this scope.
    pub closed spec fn env(&self) -> Env {
        assoc_env(self.values@)
    }

    /// The actor names bound in this scope, with their addresses.
    pub closed spec fn actor_pairs(&self) -> Set<(Seq<char>, u64)> {
        bimap_pairs(self.actors)
    }

    /// A scope binds each actor name to one address and each address to one
    /// name.
    pub open spec fn wf(&self) -> bool {
        one_to_one(self.actor_pairs())
    }

    /// An empty scope.
    pub fn new() -> (s: Scope)
        ensures
            s.wf(),
            s.env() == Env::empty(),
            s.actor_pairs() == Set::<(Seq<char>, u64)>::empty(),
    {
        let s = Scope { values: Vec::new(), actors: bimap_new() };
        assert(s.env() =~= Env::empty());
        s
    }

    /// A scope holding the given variable bindings; where a name occurs
    /// twice, the later value is the one bound.
    pub fn from_values(values: Vec<(String, JsonValue)>) -> (s: Scope)
        ensures
            s.wf(),
            s.env() == assoc_env(values@),
            s.actor_pairs() == Set::<(Seq<char>, u64)>::empty(),
    {
        Scope { values, actors: bimap_new() }
    }

    /// Creates a [Txn] on the current state of the scope.
    pub fn txn(&self) -> (t: Txn)
        requires
            self.wf(),
        ensures
            t.fits(self),
            t.added_env() == Env::empty(),
            t.added_actors() == Set::<(Seq<char>, u64)>::empty(),
    {
        let t = Txn { values_added: Vec::new(), actors_added: bimap_new() };
        assert(t.added_env() =~= Env::empty());
        t
    }

    /// The address bound to `name`, if there is one.
    pub fn address_of(&self, name: &str) -> (r: Option<u64>)
        requires
            self.wf(),
        ensures
            r matches Some(a) ==> self.actor_pairs().contains((name@, a)),
            r is None <==> !has_left(self.actor_pairs(), name@),
    {
        bimap_get_by_left(&self.actors, name)
    }

    /// The value bound to `key`, if there is one.
    pub fn value_of(&self, key: &str) -> (r: Option<&JsonValue>)
        ensures
            match r {
                Some(v) => self.env().contains_key(key@) && self.env()[key@] == v@,
                None => !self.env().contains_key(key@),
            },
    {
        let mut i = self.values.len();
        assert(self.values@.take(i as int) =~= self.values@);
        while i > 0
            invariant
                i <= self.values@.len(),
                assoc_find(self.values@, key@) == assoc_find(self.values@.take(i as int), key@),
            decreases i,
        {
            i = i - 1;
            assert(self.values@.take(i + 1).drop_last() =~= self.values@.take(i as int));
            if str_eq(self.values[i].0.as_str(), key) {
                return Some(&self.values[i].1);
            }
        }
        None
    }
}

impl Txn {
    /// The variables that the transaction binds.
    pub closed spec fn added_env(&self) -> Env {
        assoc_env(self.values_added@)
    }

    /// The actor names that the transaction binds, with their addresses.
    pub closed spec fn added_actors(&self) -> Set<(Seq<char>, u64)> {
        bimap_pairs(self.actors_added)
    }

    /// The transaction adds only to what `scope` leaves unbound: no variable
    /// that the scope binds, and no actor name or address that occurs in the
    /// scope; together they bind each name to one address and each address to
    /// one name.
    pub open spec fn fits(&self, scope: &Scope) -> bool {
        &&& scope.wf()
        &&& one_to_one(self.added_actors())
        &&& forall|k: Seq<char>| #[trigger]
            self.added_env().contains_key(k) ==> !scope.env().contains_key(k)
        &&& forall|n: Seq<char>| has_left(self.added_actors(), n) ==> !has_left(scope.actor_pairs(), n)
        &&& forall|a: u64| has_right(self.added_actors(), a) ==> !has_right(scope.actor_pairs(), a)
    }

    /// The variables bound by `scope` and the transaction together.
    pub open spec fn env_with(&self, scope: &Scope) -> Env {
        scope.env().union_prefer_right(self.added_env())
    }

    /// The actor names bound by `scope` and the transaction together.
    pub open spec fn actors_with(&self, scope: &Scope) -> Set<(Seq<char>, u64)> {
        scope.actor_pairs().union(self.added_actors())
    }

    /// Binds `key` to `value`: when `key` is bound already (in the scope or in
    /// the transaction), returns whether it is bound to `value`; otherwise
    /// adds the binding to the transaction and returns `true`.
    pub fn bind_value(&mut self, scope: &Scope, key: &str, value: &JsonValue) -> (r: bool)
        requires
            old(self).fits(scope),
        ensures
            final(self).fits(scope),
            (r, final(self).env_with(scope)) == bind_var(old(self).env_with(scope), key@, value@),
            final(self).added_actors() == old(self).added_actors(),
    {
        match scope.value_of(key) {
            Some(defined) => {
                return defined.equals(value);
            },
            None => {},
        }
        let mut i = self.values_added.len();
        assert(self.values_added@.take(i as int) =~= self.values_added@);
        while i > 0
            invariant
                i <= self.values_added@.len(),
                self == old(self),
                self.fits(scope),
                assoc_find(self.values_added@, key@) == assoc_find(
                    self.values_added@.take(i as int),
                    key@,
                ),
            decreases i,
        {
            i = i - 1;
            assert(self.values_added@.take(i + 1).drop_last() =~= self.values_added@.take(i as int));
            if str_eq(self.values_added[i].0.as_str(), key) {
                let r = self.values_added[i].1.equals(value);
                return r;
            }
        }
        assert(self.values_added@.take(0) =~= Seq::<(String, JsonValue)>::empty());
        let ghost before = self.values_added@;
        let entry = (String::from_str(key), value.deep_clone());
        self.values_added.push(entry);
        proof {
            lemma_assoc_push(before, entry);
            assert(self.env_with(scope) =~= old(self).env_with(scope).insert(key@, value@));
        }
        true
    }

    /// Binds the actor `name` to the address `addr`:
    /// - when `addr` is bound already, returns whether it is bound to `name`;
    /// - otherwise, when `name` is bound already (to another address), returns
    ///   `false`;
    /// - otherwise adds the binding to the transaction and returns `true`.
    pub fn bind_actor(&mut self, scope: &Scope, name: &str, addr: u64) -> (r: bool)
        requires
            old(self).fits(scope),
        ensures
            final(self).fits(scope),
            final(self).added_env() == old(self).added_env(),
            has_right(old(self).actors_with(scope), addr) ==> {
                &&& r == old(self).actors_with(scope).contains((name@, addr))
                &&& final(self).added_actors() == old(self).added_actors()
            },
            !has_right(old(self).actors_with(scope), addr) && has_left(old(self).actors_with(scope), name@)
                ==> {
                &&& !r
                &&& final(self).added_actors() == old(self).added_actors()
            },
            !has_right(old(self).actors_with(scope), addr) && !has_left(
                old(self).actors_with(scope),
                name@,
            ) ==> {
                &&& r
                &&& final(self).added_actors() == old(self).added_actors().insert((name@, addr))
            },
    {
        let ghost merged = self.actors_with(scope);
        let old_name = bimap_get_by_right(&scope.actors, addr);
        let existing_name = match old_name {
            Some(n) => Some(n),
            None => bimap_get_by_right(&self.actors_added, addr),
        };
        if let Some(existing) = existing_name {
            proof {
                assert(merged.contains((existing@, addr)));
                if merged.contains((name@, addr)) {
                    assert(existing@ == name@);
                }
            }
            return str_eq(existing.as_str(), name);
        }
        assert(!has_right(merged, addr));
        let old_addr = bimap_get_by_left(&scope.actors, name);
        let existing_addr = match old_addr {
            Some(a) => Some(a),
            None => bimap_get_by_left(&self.actors_added, name),
        };
        if let Some(a) = existing_addr {
            assert(merged.contains((name@, a)));
            return false;
        }
        assert(!has_left(merged, name@));
        proof {
            assert(!has_left(old(self).added_actors(), name@)) by {
                if has_left(old(self).added_actors(), name@) {
                    let a = choose|a: u64| old(self).added_actors().contains((name@, a));
                    assert(merged.contains((name@, a)));
                }
            }
            assert(!has_right(old(self).added_actors(), addr)) by {
                if has_right(old(self).added_actors(), addr) {
                    let n = choose|n: Seq<char>| old(self).added_actors().contains((n, addr));
                    assert(merged.contains((n, addr)));
                }
            }
        }
        let ok = bimap_insert_no_overwrite(&mut self.actors_added, String::from_str(name), addr);
        assert(ok);
        proof {
            let q = self.added_actors();
            let q0 = old(self).added_actors();
            assert forall|n: Seq<char>| has_left(q, n) implies !has_left(scope.actor_pairs(), n) by {
                let a = choose|a: u64| q.contains((n, a));
                if n == name@ {
                    if has_left(scope.actor_pairs(), n) {
                        let b = choose|b: u64| scope.actor_pairs().contains((n, b));
                        assert(merged.contains((name@, b)));
                    }
                } else {
                    assert(q0.contains((n, a)));
                }
            }
            assert forall|x: u64| has_right(q, x) implies !has_right(scope.actor_pairs(), x) by {
                let n = choose|n: Seq<char>| q.contains((n, x));
                if x == addr {
                    if has_right(scope.actor_pairs(), x) {
                        let m = choose|m: Seq<char>| scope.actor_pairs().contains((m, x));
                        assert(merged.contains((m, addr)));
                    }
                } else {
                    assert(q0.contains((n, x)));
                }
            }
            assert forall|n: Seq<char>, a: u64, b: u64|
                q.contains((n, a)) && q.contains((n, b)) implies a == b by {
                if n == name@ && a != addr {
                    assert(q0.contains((n, a)));
                    assert(has_left(q0, name@));
                }
                if n == name@ && b != addr {
                    assert(q0.contains((n, b)));
                    assert(has_left(q0, name@));
                }
            }
            assert forall|n: Seq<char>, m: Seq<char>, a: u64|
                q.contains((n, a)) && q.contains((m, a)) implies n == m by {
                if a == addr && n != name@ {
                    assert(q0.contains((n, a)));
                    assert(has_right(q0, addr));
                }
                if a == addr && m != name@ {
                    assert(q0.contains((m, a)));
                    assert(has_right(q0, addr));
                }
            }
            assert(one_to_one(q));
            assert(self.added_env() == old(self).added_env());
            assert(scope.wf());
        }
        true
    }

    /// Commits the transaction to `scope`: the scope ends up binding what it
    /// bound before and what the transaction bound.
    pub fn commit(self, scope: &mut Scope)
        requires
            self.fits(old(scope)),
        ensures
            final(scope).wf(),
            final(scope).env() == self.env_with(old(scope)),
            final(scope).actor_pairs() == self.actors_with(old(scope)),
    {
        let Txn { values_added, actors_added } = self;
        let ghost scope0 = *scope;
        let mut i: usize = 0;
        while i < values_added.len()
            invariant
                i <= values_added@.len(),
                scope.actors == scope0.actors,
                scope.env() == scope0.env().union_prefer_right(
                    assoc_env(values_added@.take(i as int)),
                ),
            decreases values_added@.len() - i,
        {
            let ghost before = scope.values@;
            let entry = (copy_string(&values_added[i].0), values_added[i].1.deep_clone());
            scope.values.push(entry);
            proof {
                lemma_assoc_push(before, entry);
                assert(values_added@.take(i + 1) =~= values_added@.take(i as int).push(
                    values_added@[i as int],
                ));
                lemma_assoc_push(values_added@.take(i as int), values_added@[i as int]);
                assert(scope.env() =~= scope0.env().union_prefer_right(
                    assoc_env(values_added@.take(i + 1)),
                ));
            }
            i = i + 1;
        }
        assert(values_added@.take(values_added@.len() as int) =~= values_added@);
        bimap_extend(&mut scope.actors, actors_added);
        proof {
            let p = bimap_pairs(scope.actors);
            let p0 = bimap_pairs(scope0.actors);
            let q = bimap_pairs(actors_added);
            assert(p =~= p0.union(q));
            assert forall|n: Seq<char>, a: u64, b: u64|
                p.contains((n, a)) && p.contains((n, b)) implies a == b by {
                if p0.contains((n, a)) && q.contains((n, b)) {
                    assert(has_left(q, n));
                    assert(has_left(p0, n));
                }
                if q.contains((n, a)) && p0.contains((n, b)) {
                    assert(has_left(q, n));
                    assert(has_left(p0, n));
                }
            }
            assert forall|n: Seq<char>, m: Seq<char>, a: u64|
                p.contains((n, a)) && p.contains((m, a)) implies n == m by {
                if p0.contains((n, a)) && q.contains((m, a)) {
                    assert(has_right(q, a));
                    assert(has_right(p0, a));
                }
                if q.contains((n, a)) && p0.contains((m, a)) {
                    assert(has_right(q, a));
                    assert(has_right(p0, a));
                }
            }
        }
    }
}


/// `obj_get` finds the first entry with the key.
pub proof fn lemma_obj_get(s: Seq<(Seq<char>, Json)>, key: Seq<char>, i: int)
    requires
        0 <= i <= s.len(),
        forall|j: int| 0 <= j < i ==> s[j].0 != key,
    ensures
        i < s.len() && s[i].0 == key ==> obj_get(s, key) == Some(s[i].1),
        i == s.len() ==> obj_get(s, key) is None,
    decreases i,
{
    if i > 0 {
        lemma_obj_get(s.drop_first(), key, i - 1);
    }
}

/// The index of the first entry of `entries` with the key `key`.
pub fn find_entry(entries: &Vec<(String, JsonValue)>, key: &str) -> (r: Option<usize>)
    ensures
        match r {
            Some(i) => i < entries@.len() && entries@[i as int].0@ == key@ && obj_get(
                entries_view(entries@),
                key@,
            ) == Some(entries@[i as int].1@),
            None => obj_get(entries_view(entries@), key@) is None,
        },
{
    proof {
        lemma_entries_view(entries@);
    }
    let mut i: usize = 0;
    while i < entries.len()
        invariant
            i <= entries@.len(),
            entries_view(entries@).len() == entries@.len(),
            forall|j: int|
                0 <= j < entries@.len() ==> #[trigger] entries_view(entries@)[j] == (
                    entries@[j].0@,
                    entries@[j].1@,
                ),
            forall|j: int| 0 <= j < i ==> entries_view(entries@)[j].0 != key@,
        decreases entries@.len() - i,
    {
        if str_eq(entries[i].0.as_str(), key) {
            proof {
                lemma_obj_get(entries_view(entries@), key@, i as int);
            }
            return Some(i);
        }
        i = i + 1;
    }
    proof {
        lemma_obj_get(entries_view(entries@), key@, i as int);
    }
    None
}

/// Binds variables from `value` according to `pattern`, adding the bindings
/// to `txn`; returns whether `value` matches `pattern` (see
/// [`match_pattern`]).
#[verifier::loop_isolation(false)]
pub fn bind_to_pattern(value: &JsonValue, pattern: &JsonValue, scope: &Scope, txn: &mut Txn) -> (r:
    bool)
    requires
        old(txn).fits(scope),
    ensures
        final(txn).fits(scope),
        final(txn).added_actors() == old(txn).added_actors(),
        (r, final(txn).env_with(scope)) == match_pattern(
            value@,
            pattern@,
            old(txn).env_with(scope),
        ),
    decreases pattern,
{
    match pattern {
        JsonValue::String(p) => {
            if is_wildcard(p.as_str()) {
                return true;
            }
            if starts_with_dollar(p.as_str()) {
                return txn.bind_value(scope, p.as_str(), value);
            }
            match value {
                JsonValue::String(v) => str_eq(v.as_str(), p.as_str()),
                _ => false,
            }
        },
        JsonValue::Null => match value {
            JsonValue::Null => true,
            _ => false,
        },
        JsonValue::Bool(p) => match value {
            JsonValue::Bool(v) => *v == *p,
            _ => false,
        },
        JsonValue::Number(p) => match value {
            JsonValue::Number(v) => *v == *p,
            _ => false,
        },
        JsonValue::Array(ps) => {
            let vs = match value {
                JsonValue::Array(vs) => vs,
                _ => {
                    return false;
                },
            };
            proof {
                lemma_items_view(vs@);
                lemma_items_view(ps@);
            }
            if vs.len() != ps.len() {
                return false;
            }
            let ghost vv = items_view(vs@);
            let ghost pv = items_view(ps@);
            let ghost env0 = txn.env_with(scope);
            let mut i: usize = 0;
            assert(vv.skip(0) =~= vv);
            assert(pv.skip(0) =~= pv);
            while i < ps.len()
                invariant
                    i <= ps@.len(),
                    vs@.len() == ps@.len(),
                    txn.fits(scope),
                    txn.added_actors() == old(txn).added_actors(),
                    match_items(vv, pv, env0) == match_items(
                        vv.skip(i as int),
                        pv.skip(i as int),
                        txn.env_with(scope),
                    ),
                decreases ps@.len() - i,
            {
                proof {
                    assert(decreases_to!(pattern => ps@[i as int]));
                    assert(vv.skip(i as int)[0] == vs@[i as int]@);
                    assert(pv.skip(i as int)[0] == ps@[i as int]@);
                    assert(vv.skip(i as int).drop_first() =~= vv.skip(i + 1));
                    assert(pv.skip(i as int).drop_first() =~= pv.skip(i + 1));
                }
                if !bind_to_pattern(&vs[i], &ps[i], scope, txn) {
                    return false;
                }
                i = i + 1;
            }
            true
        },
        JsonValue::Object(pe) => {
            let ve = match value {
                JsonValue::Object(ve) => ve,
                _ => {
                    return false;
                },
            };
            proof {
                lemma_entries_view(ve@);
                lemma_entries_view(pe@);
            }
            let ghost vv = entries_view(ve@);
            let ghost pv = entries_view(pe@);
            let ghost env0 = txn.env_with(scope);
            let mut i: usize = 0;
            assert(pv.skip(0) =~= pv);
            while i < pe.len()
                invariant
                    i <= pe@.len(),
                    txn.fits(scope),
                    txn.added_actors() == old(txn).added_actors(),
                    match_entries(vv, pv, env0) == match_entries(
                        vv,
                        pv.skip(i as int),
                        txn.env_with(scope),
                    ),
                decreases pe@.len() - i,
            {
                proof {
                    assert(decreases_to!(pattern => pe@[i as int].1));
                    assert(pv.skip(i as int)[0] == (pe@[i as int].0@, pe@[i as int].1@));
                    assert(pv.skip(i as int).drop_first() =~= pv.skip(i + 1));
                }
                match find_entry(ve, pe[i].0.as_str()) {
                    None => {
                        return false;
                    },
                    Some(j) => {
                        if !bind_to_pattern(&ve[j].1, &pe[i].1, scope, txn) {
                            return false;
                        }
                    },
                }
                i = i + 1;
            }
            true
        },
    }
}

/// Renders the variables of `template` with values from `scope` (see
/// [`render_json`]); the error names the first variable that is unbound.
#[verifier::loop_isolation(false)]
pub fn render(template: &JsonValue, scope: &Scope) -> (r: Result<JsonValue, BindError>)
    ensures
        match r {
            Ok(v) => render_json(template@, scope.env()) == Ok::<Json, Seq<char>>(v@),
            Err(BindError::UnboundValue(n)) => render_json(template@, scope.env()) == Err::<
                Json,
                Seq<char>,
            >(n@),
        },
    decreases template,
{
    match template {
        JsonValue::String(s) => {
            if is_wildcard(s.as_str()) {
                return Err(BindError::UnboundValue(copy_string(s)));
            }
            if starts_with_dollar(s.as_str()) {
                return match scope.value_of(s.as_str()) {
                    Some(v) => Ok(v.deep_clone()),
                    None => Err(BindError::UnboundValue(copy_string(s))),
                };
            }
            Ok(template.deep_clone())
        },
        JsonValue::Array(items) => {
            proof {
                lemma_items_view(items@);
            }
            let ghost tv = items_view(items@);
            let ghost env = scope.env();
            let mut out: Vec<JsonValue> = Vec::new();
            let mut i: usize = 0;
            assert(tv.skip(0) =~= tv);
            proof {
                lemma_items_view(out@);
                assert(items_view(out@) + tv.skip(0) =~= tv.skip(0));
            }
            while i < items.len()
                invariant
                    i <= items@.len(),
                    out@.len() == i,
                    render_items(tv, env) == match render_items(tv.skip(i as int), env) {
                        Ok(rest) => Ok(items_view(out@) + rest),
                        Err(e) => Err(e),
                    },
                decreases items@.len() - i,
            {
                proof {
                    assert(decreases_to!(template => items@[i as int]));
                    assert(tv.skip(i as int)[0] == items@[i as int]@);
                    assert(tv.skip(i as int).drop_first() =~= tv.skip(i + 1));
                }
                let rendered = render(&items[i], scope);
                match rendered {
                    Ok(v) => {
                        let ghost before = out@;
                        out.push(v);
                        proof {
                            assert(out@.drop_last() =~= before);
                            match render_items(tv.skip(i + 1), env) {
                                Ok(rest) => {
                                    assert(items_view(before) + (seq![v@] + rest) =~= items_view(
                                        out@,
                                    ) + rest);
                                },
                                Err(e) => {},
                            }
                        }
                    },
                    Err(e) => {
                        return Err(e);
                    },
                }
                i = i + 1;
            }
            proof {
                assert(tv.skip(i as int) =~= Seq::<Json>::empty());
                assert(items_view(out@) + Seq::<Json>::empty() =~= items_view(out@));
            }
            Ok(JsonValue::Array(out))
        },
        JsonValue::Object(entries) => {
            proof {
                lemma_entries_view(entries@);
            }
            let ghost tv = entries_view(entries@);
            let ghost env = scope.env();
            let mut out: Vec<(String, JsonValue)> = Vec::new();
            let mut i: usize = 0;
            assert(tv.skip(0) =~= tv);
            proof {
                assert(entries_view(out@) + tv.skip(0) =~= tv.skip(0));
            }
            while i < entries.len()
                invariant
                    i <= entries@.len(),
                    out@.len() == i,
                    render_entries(tv, env) == match render_entries(tv.skip(i as int), env) {
                        Ok(rest) => Ok(entries_view(out@) + rest),
                        Err(e) => Err(e),
                    },
                decreases entries@.len() - i,
            {
                proof {
                    assert(decreases_to!(template => entries@[i as int].1));
                    assert(tv.skip(i as int)[0] == (entries@[i as int].0@, entries@[i as int].1@));
                    assert(tv.skip(i as int).drop_first() =~= tv.skip(i + 1));
                }
                let rendered = render(&entries[i].1, scope);
                match rendered {
                    Ok(v) => {
                        let ghost before = out@;
                        let k = copy_string(&entries[i].0);
                        out.push((k, v));
                        proof {
                            assert(out@.drop_last() =~= before);
                            match render_entries(tv.skip(i + 1), env) {
                                Ok(rest) => {
                                    assert(entries_view(before) + (seq![(k@, v@)] + rest)
                                        =~= entries_view(out@) + rest);
                                },
                                Err(e) => {},
                            }
                        }
                    },
                    Err(e) => {
                        return Err(e);
                    },
                }
                i = i + 1;
            }
            proof {
                assert(tv.skip(i as int) =~= Seq::<(Seq<char>, Json)>::empty());
                assert(entries_view(out@) + Seq::<(Seq<char>, Json)>::empty() =~= entries_view(
                    out@,
                ));
            }
            Ok(JsonValue::Object(out))
        },
        _ => Ok(template.deep_clone()),
    }
}

/// Matching never changes a binding: every variable bound before is bound,
/// to the same value, after the attempt, whether it matched or not.
pub proof fn law_match_keeps_bindings(value: Json, pattern: Json, env: Env)
    ensures
        env.submap_of(match_pattern(value, pattern, env).1),
    decreases pattern,
{
    match pattern {
        Json::Array(ps) => match value {
            Json::Array(vs) => {
                if vs.len() == ps.len() {
                    lemma_items_keep_bindings(vs, ps, env);
                }
            },
            _ => {},
        },
        Json::Object(pe) => match value {
            Json::Object(ve) => {
                lemma_entries_keep_bindings(ve, pe, env);
            },
            _ => {},
        },
        Json::Str(p) => {
            if p != wildcard() && is_var_name(p) && !env.contains_key(p) {
                assert(env.submap_of(env.insert(p, value)));
            }
        },
        _ => {},
    }
}

proof fn lemma_items_keep_bindings(vs: Seq<Json>, ps: Seq<Json>, env: Env)
    ensures
        env.submap_of(match_items(vs, ps, env).1),
    decreases ps,
{
    if ps.len() > 0 {
        law_match_keeps_bindings(vs[0], ps[0], env);
        let ok = match_pattern(vs[0], ps[0], env).0;
        let env1 = match_pattern(vs[0], ps[0], env).1;
        assert(env.submap_of(env1));
        if ok {
            lemma_items_keep_bindings(vs.drop_first(), ps.drop_first(), env1);
            let env2 = match_items(vs.drop_first(), ps.drop_first(), env1).1;
            vstd::map_lib::lemma_submap_of_trans(env, env1, env2);
        }
    }
}

proof fn lemma_entries_keep_bindings(ve: Seq<(Seq<char>, Json)>, pe: Seq<(Seq<char>, Json)>, env: Env)
    ensures
        env.submap_of(match_entries(ve, pe, env).1),
    decreases pe,
{
    if pe.len() > 0 {
        match obj_get(ve, pe[0].0) {
            None => {},
            Some(vv) => {
                assert(decreases_to!(pe => pe[0].1));
                law_match_keeps_bindings(vv, pe[0].1, env);
                let ok = match_pattern(vv, pe[0].1, env).0;
                let env1 = match_pattern(vv, pe[0].1, env).1;
                assert(env.submap_of(env1));
                if ok {
                    lemma_entries_keep_bindings(ve, pe.drop_first(), env1);
                    let env2 = match_entries(ve, pe.drop_first(), env1).1;
                    vstd::map_lib::lemma_submap_of_trans(env, env1, env2);
                }
            },
        }
    }
}

/// What a variable pattern binds is what the variable renders to: when the
/// pattern `name` matches `value`, rendering `name` with the bindings after
/// the match gives `value` back.
pub proof fn law_bound_variable_renders_back(value: Json, name: Seq<char>, env: Env)
    requires
        is_var_name(name),
        name != wildcard(),
        match_pattern(value, Json::Str(name), env).0,
    ensures
        render_json(Json::Str(name), match_pattern(value, Json::Str(name), env).1) == Ok::<Json, Seq<char>>(value),
{
}

/// A pattern with no object and no `"$_"` in it: matching it leaves
/// nothing of the value out, neither keys of an object nor a part that
/// `"$_"` skips.
pub open spec fn is_exact_pattern(p: Json) -> bool
    decreases p,
{
    match p {
        Json::Str(s) => s != wildcard(),
        Json::Array(items) => forall|i: int| 0 <= i < items.len() ==> is_exact_pattern(#[trigger] items[i]),
        Json::Object(_) => false,
        _ => true,
    }
}

/// What an exact pattern matched, it renders back to, with the bindings of
/// the match or more.
proof fn lemma_match_renders(value: Json, pattern: Json, env: Env, fin: Env)
    requires
        is_exact_pattern(pattern),
        match_pattern(value, pattern, env).0,
        match_pattern(value, pattern, env).1.submap_of(fin),
    ensures
        render_json(pattern, fin) == Ok::<Json, Seq<char>>(value),
    decreases pattern,
{
    match pattern {
        Json::Array(ps) => {
            let vs = value->Array_0;
            assert(value == Json::Array(vs));
            lemma_items_render(vs, ps, env, fin);
        },
        Json::Str(p) => {
            if is_var_name(p) {
                let e1 = match_pattern(value, pattern, env).1;
                assert(e1.dom().contains(p));
                assert(e1[p] == value);
                assert(fin.dom().contains(p) && fin[p] == e1[p]);
            }
        },
        _ => {},
    }
}

proof fn lemma_items_render(vs: Seq<Json>, ps: Seq<Json>, env: Env, fin: Env)
    requires
        forall|i: int| 0 <= i < ps.len() ==> is_exact_pattern(#[trigger] ps[i]),
        vs.len() == ps.len(),
        match_items(vs, ps, env).0,
        match_items(vs, ps, env).1.submap_of(fin),
    ensures
        render_items(ps, fin) == Ok::<Seq<Json>, Seq<char>>(vs),
    decreases ps,
{
    if ps.len() > 0 {
        let env1 = match_pattern(vs[0], ps[0], env).1;
        let env2 = match_items(vs.drop_first(), ps.drop_first(), env1).1;
        lemma_items_keep_bindings(vs.drop_first(), ps.drop_first(), env1);
        vstd::map_lib::lemma_submap_of_trans(env1, env2, fin);
        assert(is_exact_pattern(ps[0]));
        lemma_match_renders(vs[0], ps[0], env, fin);
        assert forall|i: int| 0 <= i < ps.drop_first().len() implies is_exact_pattern(#[trigger] ps.drop_first()[i]) by {
            assert(ps.drop_first()[i] == ps[i + 1]);
        }
        lemma_items_render(vs.drop_first(), ps.drop_first(), env1, fin);
        assert(seq![vs[0]] + vs.drop_first() =~= vs);
    } else {
        assert(vs =~= Seq::<Json>::empty());
    }
}

/// A pattern with no object and no `"$_"` renders back to the value it
/// matched: when `pattern` matches `value`, rendering `pattern` with the
/// bindings after the match gives `value`.
pub proof fn law_bound_pattern_renders_back(value: Json, pattern: Json, env: Env)
    requires
        is_exact_pattern(pattern),
        match_pattern(value, pattern, env).0,
    ensures
        render_json(pattern, match_pattern(value, pattern, env).1) == Ok::<Json, Seq<char>>(value),
{
    lemma_match_renders(value, pattern, env, match_pattern(value, pattern, env).1);
}

/// A template with no variable in it: no string of it names a variable.
pub open spec fn is_plain(t: Json) -> bool
    decreases t,
{
    match t {
        Json::Str(s) => !is_var_name(s),
        Json::Array(items) => forall|i: int| 0 <= i < items.len() ==> is_plain(#[trigger] items[i]),
        Json::Object(entries) => forall|i: int| 0 <= i < entries.len() ==> is_plain(#[trigger] entries[i].1),
        _ => true,
    }
}

/// A template with no variable in it renders to itself, whatever is bound.
pub proof fn law_plain_template_renders_to_itself(t: Json, env: Env)
    requires
        is_plain(t),
    ensures
        render_json(t, env) == Ok::<Json, Seq<char>>(t),
    decreases t,
{
    match t {
        Json::Array(items) => {
            lemma_plain_items(items, env);
        },
        Json::Object(entries) => {
            lemma_plain_entries(entries, env);
        },
        _ => {},
    }
}

proof fn lemma_plain_items(items: Seq<Json>, env: Env)
    requires
        forall|i: int| 0 <= i < items.len() ==> is_plain(#[trigger] items[i]),
    ensures
        render_items(items, env) == Ok::<Seq<Json>, Seq<char>>(items),
    decreases items,
{
    if items.len() == 0 {
        assert(items =~= Seq::<Json>::empty());
    } else {
        assert(is_plain(items[0]));
        law_plain_template_renders_to_itself(items[0], env);
        let rest = items.drop_first();
        assert forall|i: int| 0 <= i < rest.len() implies is_plain(#[trigger] rest[i]) by {
            assert(rest[i] == items[i + 1]);
        }
        lemma_plain_items(rest, env);
        assert(render_json(items[0], env) == Ok::<Json, Seq<char>>(items[0]));
        assert(render_items(rest, env) == Ok::<Seq<Json>, Seq<char>>(rest));
        assert(seq![items[0]] + rest =~= items);
        assert(render_items(items, env) == Ok::<Seq<Json>, Seq<char>>(seq![items[0]] + rest));
    }
}

proof fn lemma_plain_entries(entries: Seq<(Seq<char>, Json)>, env: Env)
    requires
        forall|i: int| 0 <= i < entries.len() ==> is_plain(#[trigger] entries[i].1),
    ensures
        render_entries(entries, env) == Ok::<Seq<(Seq<char>, Json)>, Seq<char>>(entries),
    decreases entries,
{
    if entries.len() == 0 {
        assert(entries =~= Seq::<(Seq<char>, Json)>::empty());
    } else {
        assert(is_plain(entries[0].1));
        assert(decreases_to!(entries => entries[0].1));
        law_plain_template_renders_to_itself(entries[0].1, env);
        let rest = entries.drop_first();
        assert forall|i: int| 0 <= i < rest.len() implies is_plain(#[trigger] rest[i].1) by {
            assert(rest[i] == entries[i + 1]);
        }
        lemma_plain_entries(rest, env);
        assert(seq![(entries[0].0, entries[0].1)] + rest =~= entries);
    }
}

/// The wildcard `"$_"` matches every value and binds nothing.
pub proof fn law_wildcard_matches_anything(value: Json, env: Env)
    ensures
        match_pattern(value, Json::Str(wildcard()), env) == (true, env),
{
}

/// Every variable that `t` names has a value in `env`, and `t` holds no
/// `"$_"`.
pub open spec fn all_bound(t: Json, env: Env) -> bool
    decreases t,
{
    match t {
        Json::Str(s) => s != wildcard() && (is_var_name(s) ==> env.contains_key(s)),
        Json::Array(items) => forall|i: int| 0 <= i < items.len() ==> all_bound(#[trigger] items[i], env),
        Json::Object(entries) => forall|i: int| 0 <= i < entries.len() ==> all_bound(#[trigger] entries[i].1, env),
        _ => true,
    }
}

/// Rendering replaces the variables at any depth: a template whose
/// variables all have values, none of which names a variable, renders, and
/// what it renders to names no variable; an array renders item by item and
/// an object key by key, each into the rendering of what the template held
/// there.
pub proof fn law_rendering_leaves_no_variable(t: Json, env: Env)
    requires
        all_bound(t, env),
        forall|n: Seq<char>| #[trigger] env.contains_key(n) ==> is_plain(env[n]),
    ensures
        render_json(t, env) is Ok,
        is_plain(render_json(t, env)->Ok_0),
        t matches Json::Array(items) ==> render_json(t, env)->Ok_0 matches Json::Array(rs) && rs.len() == items.len()
            && forall|i: int| 0 <= i < items.len() ==> Ok::<Json, Seq<char>>(#[trigger] rs[i]) == render_json(items[i], env),
        t matches Json::Object(es) ==> render_json(t, env)->Ok_0 matches Json::Object(rs) && rs.len() == es.len()
            && forall|i: int| 0 <= i < es.len() ==> (#[trigger] rs[i]).0 == es[i].0 && Ok::<Json, Seq<char>>(rs[i].1) == render_json(es[i].1, env),
    decreases t,
{
    match t {
        Json::Array(items) => {
            lemma_items_leave_no_variable(items, env);
        },
        Json::Object(entries) => {
            lemma_entries_leave_no_variable(entries, env);
        },
        _ => {},
    }
}

proof fn lemma_items_leave_no_variable(items: Seq<Json>, env: Env)
    requires
        forall|i: int| 0 <= i < items.len() ==> all_bound(#[trigger] items[i], env),
        forall|n: Seq<char>| #[trigger] env.contains_key(n) ==> is_plain(env[n]),
    ensures
        render_items(items, env) is Ok,
        render_items(items, env)->Ok_0.len() == items.len(),
        forall|i: int| 0 <= i < items.len() ==> is_plain(#[trigger] render_items(items, env)->Ok_0[i]),
        forall|i: int| 0 <= i < items.len() ==> Ok::<Json, Seq<char>>(#[trigger] render_items(items, env)->Ok_0[i]) == render_json(items[i], env),
    decreases items,
{
    if items.len() > 0 {
        assert(all_bound(items[0], env));
        law_rendering_leaves_no_variable(items[0], env);
        let rest = items.drop_first();
        assert forall|i: int| 0 <= i < rest.len() implies all_bound(#[trigger] rest[i], env) by {
            assert(rest[i] == items[i + 1]);
        }
        lemma_items_leave_no_variable(rest, env);
        let r = render_items(items, env)->Ok_0;
        let v = render_json(items[0], env)->Ok_0;
        let rr = render_items(rest, env)->Ok_0;
        assert(r == seq![v] + rr);
        assert forall|i: int| 0 <= i < items.len() implies is_plain(#[trigger] r[i]) && Ok::<Json, Seq<char>>(r[i]) == render_json(items[i], env) by {
            if i > 0 {
                assert(r[i] == rr[i - 1]);
                assert(rest[i - 1] == items[i]);
            }
        }
    }
}

proof fn lemma_entries_leave_no_variable(entries: Seq<(Seq<char>, Json)>, env: Env)
    requires
        forall|i: int| 0 <= i < entries.len() ==> all_bound(#[trigger] entries[i].1, env),
        forall|n: Seq<char>| #[trigger] env.contains_key(n) ==> is_plain(env[n]),
    ensures
        render_entries(entries, env) is Ok,
        render_entries(entries, env)->Ok_0.len() == entries.len(),
        forall|i: int| 0 <= i < entries.len() ==> is_plain(#[trigger] render_entries(entries, env)->Ok_0[i].1),
        forall|i: int| 0 <= i < entries.len() ==> (#[trigger] render_entries(entries, env)->Ok_0[i]).0 == entries[i].0,
        forall|i: int| 0 <= i < entries.len() ==> Ok::<Json, Seq<char>>((#[trigger] render_entries(entries, env)->Ok_0[i]).1) == render_json(entries[i].1, env),
    decreases entries,
{
    if entries.len() > 0 {
        assert(all_bound(entries[0].1, env));
        assert(decreases_to!(entries => entries[0].1));
        law_rendering_leaves_no_variable(entries[0].1, env);
        let rest = entries.drop_first();
        assert forall|i: int| 0 <= i < rest.len() implies all_bound(#[trigger] rest[i].1, env) by {
            assert(rest[i] == entries[i + 1]);
        }
        lemma_entries_leave_no_variable(rest, env);
        let r = render_entries(entries, env)->Ok_0;
        let v = render_json(entries[0].1, env)->Ok_0;
        let rr = render_entries(rest, env)->Ok_0;
        assert(r == seq![(entries[0].0, v)] + rr);
        assert forall|i: int| 0 <= i < entries.len() implies is_plain(#[trigger] r[i].1) && r[i].0 == entries[i].0 && Ok::<Json, Seq<char>>(r[i].1) == render_json(entries[i].1, env) by {
            if i > 0 {
                assert(r[i] == rr[i - 1]);
                assert(rest[i - 1] == entries[i]);
            }
        }
    }
}

/// Committing a transaction never rebinds what the scope bound: every
/// variable of the scope keeps its value, and the scope gains those of the
/// transaction.
pub proof fn law_commit_keeps_scope(txn: Txn, scope: Scope)
    requires
        txn.fits(&scope),
    ensures
        scope.env().submap_of(txn.env_with(&scope)),
        txn.added_env().submap_of(txn.env_with(&scope)),
{
}

} // verus!
