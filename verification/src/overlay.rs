//! Overlays: named policies on collections, fields and mutations, with single inheritance.
use crate::auth::{session_check, AuthError, AuthFailure, IdentityStore, SessionToken, SessionView};
use crate::clock::{clock_read, now_ns};
use crate::support::str_map::StrMap;
use crate::support::str_set::StrSet;
use crate::support::text::{contains_text, owned, texts};
use vstd::prelude::*;

verus! {

/// How much of a record an overlay shows.
#[derive(Debug, Clone, Copy, PartialEq, Eq, Structural)]
pub enum OverlayAccess {
    Full,
    Partial,
}

/// What an overlay lets its bearer do.
#[derive(Debug, Clone, Copy, PartialEq, Eq, Hash, Structural)]
pub enum OverlayMutation {
    Read,
    Write,
    Delete,
}

/// A set of mutations.
#[derive(Debug, Clone, Copy, PartialEq, Eq, Structural)]
pub struct MutationSet {
    pub read: bool,
    pub write: bool,
    pub delete: bool,
}

impl MutationSet {
    /// Whether a mutation is in the set.
    pub open spec fn has(self, m: OverlayMutation) -> bool {
        match m {
            OverlayMutation::Read => self.read,
            OverlayMutation::Write => self.write,
            OverlayMutation::Delete => self.delete,
        }
    }

    /// Whether a mutation is in the set.
    pub fn contains(&self, m: OverlayMutation) -> (r: bool)
        ensures
            r == self.has(m),
    {
        match m {
            OverlayMutation::Read => self.read,
            OverlayMutation::Write => self.write,
            OverlayMutation::Delete => self.delete,
        }
    }

    fn add_all(self, list: &Vec<OverlayMutation>) -> (r: Self)
        ensures
            forall|m: OverlayMutation| #[trigger] r.has(m) <==> self.has(m) || list@.contains(m),
    {
        let mut out = self;
        let mut i: usize = 0;
        proof {
            assert(list@.take(0) =~= Seq::<OverlayMutation>::empty());
        }
        while i < list.len()
            invariant
                0 <= i <= list@.len(),
                forall|m: OverlayMutation| #[trigger] out.has(m) <==> self.has(m) || list@.take(i as int).contains(m),
            decreases list@.len() - i,
        {
            let ghost before = out;
            match list[i] {
                OverlayMutation::Read => {
                    out.read = true;
                },
                OverlayMutation::Write => {
                    out.write = true;
                },
                OverlayMutation::Delete => {
                    out.delete = true;
                },
            }
            proof {
                let now = list@.take(i + 1);
                let done = list@.take(i as int);
                assert forall|m: OverlayMutation| #[trigger] out.has(m) <==> self.has(m) || now.contains(m) by {
                    assert(before.has(m) <==> self.has(m) || done.contains(m));
                    assert(now[i as int] == list@[i as int]);
                    if now.contains(m) {
                        let k = now.index_of(m);
                        if k < i {
                            assert(done[k] == m);
                        }
                    }
                    if done.contains(m) {
                        assert(now[done.index_of(m)] == m);
                    }
                }
            }
            i += 1;
        }
        proof {
            assert(list@.take(list@.len() as int) =~= list@);
        }
        out
    }
}

/// An overlay as it is defined.
#[derive(Debug)]
pub struct OverlayDefinition {
    pub name: String,
    pub access: OverlayAccess,
    pub collections: Vec<String>,
    pub include_fields: StrMap<Vec<String>>,
    pub exclude_fields: StrMap<Vec<String>>,
    pub mutations: Vec<OverlayMutation>,
    pub extends: Option<String>,
    pub additionally_include: StrMap<Vec<String>>,
}

impl OverlayDefinition {
    /// An overlay that shows and allows everything.
    pub fn full(name: &str) -> (r: Self)
        ensures
            r.name@ == name@,
            r.access == OverlayAccess::Full,
            texts(r.collections@) == seq!["*"@],
            r.include_fields@ == Map::<Seq<char>, Vec<String>>::empty(),
            r.exclude_fields@ == Map::<Seq<char>, Vec<String>>::empty(),
            r.mutations@ == seq![OverlayMutation::Read, OverlayMutation::Write, OverlayMutation::Delete],
            r.extends is None,
            r.additionally_include@ == Map::<Seq<char>, Vec<String>>::empty(),
    {
        let mut collections: Vec<String> = Vec::new();
        collections.push(owned("*"));
        let mutations = vec![OverlayMutation::Read, OverlayMutation::Write, OverlayMutation::Delete];
        proof {
            assert(texts(collections@) =~= seq!["*"@]);
            assert(mutations@ =~= seq![OverlayMutation::Read, OverlayMutation::Write, OverlayMutation::Delete]);
        }
        OverlayDefinition {
            name: owned(name),
            access: OverlayAccess::Full,
            collections,
            include_fields: StrMap::new(),
            exclude_fields: StrMap::new(),
            mutations,
            extends: None,
            additionally_include: StrMap::new(),
        }
    }
}

/// An overlay with all that it inherits.
#[derive(Debug)]
pub struct ResolvedOverlay {
    pub name: String,
    pub access: OverlayAccess,
    pub collections: StrSet,
    pub include_fields: StrMap<StrSet>,
    pub exclude_fields: StrMap<StrSet>,
    pub mutations: MutationSet,
}

/// Fields by collection.
pub type FieldSets = Map<Seq<char>, Set<Seq<char>>>;

/// What a [`ResolvedOverlay`] holds.
#[verifier::ext_equal]
pub struct ResolvedView {
    pub name: Seq<char>,
    pub access: OverlayAccess,
    pub collections: Set<Seq<char>>,
    pub included: FieldSets,
    pub excluded: FieldSets,
    pub mutations: Set<OverlayMutation>,
}

/// What a map of field sets holds.
pub open spec fn field_sets(m: Map<Seq<char>, StrSet>) -> FieldSets {
    m.map_values(|s: StrSet| s@)
}

impl View for ResolvedOverlay {
    type V = ResolvedView;

    open spec fn view(&self) -> ResolvedView {
        ResolvedView {
            name: self.name@,
            access: self.access,
            collections: self.collections@,
            included: field_sets(self.include_fields@),
            excluded: field_sets(self.exclude_fields@),
            mutations: Set::new(|m: OverlayMutation| self.mutations.has(m)),
        }
    }
}

/// Whether an overlay opens a collection: by name, or all of them by `*`.
pub open spec fn opens(v: ResolvedView, collection: Seq<char>) -> bool {
    v.collections.contains("*"@) || v.collections.contains(collection)
}

/// Whether an overlay shows a field: with full access every field of an opened collection,
/// else those included and not excluded.
pub open spec fn shows(v: ResolvedView, collection: Seq<char>, field: Seq<char>) -> bool {
    &&& opens(v, collection)
    &&& v.access == OverlayAccess::Full || {
        &&& !(v.excluded.dom().contains(collection) && v.excluded[collection].contains(field))
        &&& v.included.dom().contains(collection)
        &&& v.included[collection].contains(field)
    }
}

impl ResolvedOverlay {
    /// Whether a mutation is allowed.
    pub fn can_mutate(&self, mutation: OverlayMutation) -> (r: bool)
        ensures
            r == self@.mutations.contains(mutation),
    {
        self.mutations.contains(mutation)
    }

    /// Whether a collection is open.
    pub fn can_access_collection(&self, collection: &str) -> (r: bool)
        ensures
            r == opens(self@, collection@),
    {
        self.collections.contains("*") || self.collections.contains(collection)
    }

    /// Whether a field is shown.
    pub fn is_field_visible(&self, collection: &str, field: &str) -> (r: bool)
        ensures
            r == shows(self@, collection@, field@),
    {
        if !self.can_access_collection(collection) {
            return false;
        }
        if self.access == OverlayAccess::Full {
            return true;
        }
        if let Some(denied) = self.exclude_fields.get(collection) {
            if denied.contains(field) {
                return false;
            }
        }
        match self.include_fields.get(collection) {
            Some(allowed) => allowed.contains(field),
            None => false,
        }
    }
}

/// Why an overlay could not be resolved.
#[derive(Debug, PartialEq, Eq)]
pub enum OverlayError {
    OverlayNotFound(String),
    UnresolvedParent(String, String),
    InheritanceCycle(String),
    Auth(AuthError),
}

/// The definitions by name.
pub type Definitions = Map<Seq<char>, OverlayDefinition>;

/// Whether names are an overlay, the one it extends, the one that extends, and so on, each
/// defined and none twice.
pub open spec fn is_lineage(defs: Definitions, names: Seq<Seq<char>>) -> bool {
    &&& names.len() > 0
    &&& names.no_duplicates()
    &&& forall|i: int| 0 <= i < names.len() ==> defs.dom().contains(#[trigger] names[i])
    &&& forall|i: int| 0 <= i < names.len() - 1 ==> parent_of(defs, #[trigger] names[i]) == Some(names[i + 1])
}

/// The name of the overlay that an overlay extends.
pub open spec fn parent_of(defs: Definitions, name: Seq<char>) -> Option<Seq<char>> {
    match defs[name].extends {
        Some(p) => Some(p@),
        None => None,
    }
}

/// Field sets with the fields of lists added.
pub open spec fn merged_fields(target: FieldSets, source: Map<Seq<char>, Vec<String>>) -> FieldSets {
    Map::new(
        |c: Seq<char>| target.dom().contains(c) || source.dom().contains(c),
        |c: Seq<char>|
            (if target.dom().contains(c) {
                target[c]
            } else {
                Set::empty()
            }).union(
                if source.dom().contains(c) {
                    texts(source[c]@).to_set()
                } else {
                    Set::empty()
                },
            ),
    )
}

/// What an overlay adds to what it inherits: its name and access replace, the rest is joined.
pub open spec fn layered(base: ResolvedView, def: OverlayDefinition) -> ResolvedView {
    ResolvedView {
        name: def.name@,
        access: def.access,
        collections: base.collections.union(texts(def.collections@).to_set()),
        included: merged_fields(merged_fields(base.included, def.include_fields@), def.additionally_include@),
        excluded: merged_fields(base.excluded, def.exclude_fields@),
        mutations: base.mutations.union(def.mutations@.to_set()),
    }
}

/// An overlay that shows nothing.
pub open spec fn bare(def: OverlayDefinition) -> ResolvedView {
    ResolvedView {
        name: def.name@,
        access: def.access,
        collections: Set::empty(),
        included: Map::empty(),
        excluded: Map::empty(),
        mutations: Set::empty(),
    }
}

/// What a lineage resolves to from its `k`-th overlay on: the last is the root, and each one
/// before it is layered on what it extends.
pub open spec fn resolved_from(defs: Definitions, names: Seq<Seq<char>>, k: int) -> ResolvedView
    decreases names.len() - k,
{
    if k < 0 || k >= names.len() - 1 {
        layered(bare(defs[names.last()]), defs[names.last()])
    } else {
        layered(resolved_from(defs, names, k + 1), defs[names[k]])
    }
}

/// How a name resolves: to what its whole lineage gives; or it is not defined, or its lineage
/// ends at an undefined parent, or comes back to itself.
pub open spec fn resolves(r: Result<ResolvedOverlay, OverlayError>, defs: Definitions, name: Seq<char>) -> bool {
    match r {
        Ok(o) => exists|names: Seq<Seq<char>>| #[trigger]
            is_lineage(defs, names) && names[0] == name && parent_of(defs, names.last()) is None && o@
                == resolved_from(defs, names, 0),
        Err(OverlayError::OverlayNotFound(n)) => n@ == name && !defs.dom().contains(name),
        Err(OverlayError::UnresolvedParent(c, p)) => exists|names: Seq<Seq<char>>| #[trigger]
            is_lineage(defs, names) && names[0] == name && names.last() == c@ && parent_of(defs, c@) == Some(p@)
                && !defs.dom().contains(p@),
        Err(OverlayError::InheritanceCycle(c)) => exists|names: Seq<Seq<char>>| #[trigger]
            is_lineage(defs, names) && names[0] == name && parent_of(defs, names.last()) == Some(c@)
                && names.contains(c@),
        Err(OverlayError::Auth(_)) => false,
    }
}

/// Defined overlays.
#[derive(Debug)]
pub struct OverlayRegistry {
    defs: StrMap<OverlayDefinition>,
}

impl OverlayRegistry {
    /// The definitions by name.
    pub closed spec fn defs(&self) -> Definitions {
        self.defs@
    }

    /// A registry without overlays.
    pub fn new() -> (r: Self)
        ensures
            r.defs() == Definitions::empty(),
    {
        OverlayRegistry { defs: StrMap::new() }
    }

    /// Defines an overlay under its name, in place of any before.
    pub fn define_overlay(&mut self, overlay: OverlayDefinition)
        ensures
            final(self).defs() == old(self).defs().insert(overlay.name@, overlay),
    {
        let name = overlay.name.clone();
        let _ = self.defs.insert(name, overlay);
    }

    /// The definition of an overlay.
    pub fn get_overlay(&self, name: &str) -> (r: Option<&OverlayDefinition>)
        ensures
            match r {
                Some(d) => self.defs().dom().contains(name@) && *d == self.defs()[name@],
                None => !self.defs().dom().contains(name@),
            },
    {
        self.defs.get(name)
    }

    /// An overlay with all that it inherits.
    pub fn resolve_overlay(&self, name: &str) -> (r: Result<ResolvedOverlay, OverlayError>)
        ensures
            resolves(r, self.defs(), name@),
    {
        let ghost defs = self.defs();
        if !self.defs.contains_key(name) {
            return Err(OverlayError::OverlayNotFound(owned(name)));
        }
        let mut names: Vec<String> = Vec::new();
        names.push(owned(name));
        let total = self.defs.len();
        let mut done = false;
        while !done
            invariant
                defs == self.defs(),
                defs == self.defs@,
                total == self.defs.keys().len(),
                forall|k: Seq<char>| #[trigger] self.defs.keys().contains(k) <==> defs.dom().contains(k),
                self.defs.keys().no_duplicates(),
                is_lineage(defs, texts(names@)),
                texts(names@)[0] == name@,
                done ==> parent_of(defs, texts(names@).last()) is None,
                names@.len() <= total,
            decreases total - names@.len(), (if done { 0int } else { 1 }),
        {
            let n: usize = names.len();
            let ghost line = texts(names@);
            proof {
                assert(line[n - 1] == names@[n - 1]@);
                assert(line.last() == line[n - 1]);
            }
            let def = match self.defs.get(names[n - 1].as_str()) {
                Some(d) => d,
                None => {
                    return Err(OverlayError::OverlayNotFound(owned(name)));
                },
            };
            match &def.extends {
                None => {
                    done = true;
                },
                Some(parent) => {
                    if !self.defs.contains_key(parent.as_str()) {
                        let r = Err(OverlayError::UnresolvedParent(names[n - 1].clone(), parent.clone()));
                        proof {
                            assert(is_lineage(defs, line) && line[0] == name@);
                        }
                        return r;
                    }
                    if contains_text(&names, parent.as_str()) {
                        let r = Err(OverlayError::InheritanceCycle(parent.clone()));
                        proof {
                            assert(is_lineage(defs, line) && line[0] == name@);
                        }
                        return r;
                    }
                    names.push(parent.clone());
                    proof {
                        let now = texts(names@);
                        assert(now =~= line.push(parent@));
                        assert forall|i: int| 0 <= i < now.len() - 1 implies parent_of(
                            defs,
                            #[trigger] now[i],
                        ) == Some(now[i + 1]) by {
                            if i < line.len() - 1 {
                                assert(line[i] == now[i] && line[i + 1] == now[i + 1]);
                            }
                        }
                        assert(now.no_duplicates()) by {
                            assert forall|i: int, j: int|
                                0 <= i < now.len() && 0 <= j < now.len() && i != j implies now[i] != now[j] by {
                                if i < line.len() && j < line.len() {
                                    assert(line[i] == now[i] && line[j] == now[j]);
                                } else if i < line.len() {
                                    assert(line[i] == now[i]);
                                    assert(line.contains(line[i]));
                                } else if j < line.len() {
                                    assert(line[j] == now[j]);
                                    assert(line.contains(line[j]));
                                }
                            }
                        }
                        lemma_bounded(now, self.defs.keys());
                    }
                },
            }
        }
        self.fold_lineage(names, name)
    }

    fn fold_lineage(&self, names: Vec<String>, name: &str) -> (r: Result<ResolvedOverlay, OverlayError>)
        requires
            is_lineage(self.defs(), texts(names@)),
            texts(names@)[0] == name@,
            parent_of(self.defs(), texts(names@).last()) is None,
        ensures
            resolves(r, self.defs(), name@),
    {
        let ghost defs = self.defs();
        let ghost line = texts(names@);
        let mut k: usize = names.len() - 1;
        proof {
            assert(defs.dom().contains(line[k as int]));
            assert(line[k as int] == names@[k as int]@);
        }
        let root = match self.defs.get(names[k].as_str()) {
            Some(d) => d,
            None => {
                return Err(OverlayError::OverlayNotFound(owned(name)));
            },
        };
        let empty = ResolvedOverlay {
            name: root.name.clone(),
            access: root.access,
            collections: StrSet::new(),
            include_fields: StrMap::new(),
            exclude_fields: StrMap::new(),
            mutations: MutationSet { read: false, write: false, delete: false },
        };
        proof {
            assert(empty@ =~= bare(*root));
        }
        let mut base = layer(empty, root);
        while k > 0
            invariant
                0 <= k < names@.len(),
                defs == self.defs(),
                defs == self.defs@,
                line == texts(names@),
                is_lineage(defs, line),
                base@ == resolved_from(defs, line, k as int),
            decreases k,
        {
            proof {
                assert(defs.dom().contains(line[k - 1]));
                assert(line[k - 1] == names@[k - 1]@);
            }
            let def = match self.defs.get(names[k - 1].as_str()) {
                Some(d) => d,
                None => {
                    return Err(OverlayError::OverlayNotFound(owned(name)));
                },
            };
            base = layer(base, def);
            k -= 1;
        }
        let r = Ok(base);
        proof {
            assert(is_lineage(defs, line) && line[0] == name@);
            assert(r->Ok_0@ == resolved_from(defs, line, 0));
        }
        r
    }

    /// The session of a token and its overlay, as they stand at the time `now`.
    pub fn resolve_for_session_at(&self, auth: &IdentityStore, token: &str, now: u64) -> (r: Result<
        (SessionToken, ResolvedOverlay),
        OverlayError,
    >)
        ensures
            binds(r, self.defs(), session_check(auth@, token@, now)),
    {
        let session = match auth.validate_session_at(token, now) {
            Ok(s) => s.clone(),
            Err(e) => {
                return Err(OverlayError::Auth(e));
            },
        };
        match self.resolve_overlay(session.overlay.as_str()) {
            Ok(o) => {
                let r = Ok((session, o));
                proof {
                    let (s, x) = r->Ok_0;
                    assert(resolves(Ok(x), self.defs(), s.overlay@));
                }
                r
            },
            Err(e) => {
                let r = Err(e);
                proof {
                    assert(resolves(Err(r->Err_0), self.defs(), session.overlay@));
                }
                r
            },
        }
    }

    /// The session of a token and its overlay, as they stand now.
    pub fn resolve_for_session(&self, auth: &IdentityStore, token: &str) -> (r: Result<
        (SessionToken, ResolvedOverlay),
        OverlayError,
    >)
        ensures
            exists|now: u64|
                clock_read(now) && binds(r, self.defs(), #[trigger] session_check(auth@, token@, now)),
    {
        let now: u64 = now_ns();
        self.resolve_for_session_at(auth, token, now)
    }
}

/// How a checked session is bound to its overlay: its failure is passed on, else the overlay
/// of the session is resolved.
pub open spec fn binds(
    r: Result<(SessionToken, ResolvedOverlay), OverlayError>,
    defs: Definitions,
    session: Result<SessionView, AuthFailure>,
) -> bool {
    match session {
        Err(f) => r matches Err(OverlayError::Auth(e)) && e@ == f,
        Ok(s) => match r {
            Ok((t, o)) => t@ == s && resolves(Ok(o), defs, s.overlay),
            Err(e) => resolves(Err(e), defs, s.overlay),
        },
    }
}

proof fn lemma_bounded(names: Seq<Seq<char>>, keys: Seq<Seq<char>>)
    requires
        names.no_duplicates(),
        forall|i: int| 0 <= i < names.len() ==> keys.contains(#[trigger] names[i]),
    ensures
        names.len() <= keys.len(),
{
    names.unique_seq_to_set();
    keys.lemma_cardinality_of_set();
    assert(names.to_set().subset_of(keys.to_set()));
    vstd::set_lib::lemma_len_subset(names.to_set(), keys.to_set());
}

/// Adds texts to a set.
fn add_texts(set: StrSet, list: &Vec<String>) -> (r: StrSet)
    ensures
        r@ == set@.union(texts(list@).to_set()),
{
    let ghost start = set@;
    let ghost all = texts(list@);
    let mut out = set;
    let mut i: usize = 0;
    proof {
        assert(out@ =~= start.union(all.take(0).to_set()));
    }
    while i < list.len()
        invariant
            0 <= i <= list@.len(),
            all == texts(list@),
            out@ == start.union(all.take(i as int).to_set()),
        decreases list@.len() - i,
    {
        let _ = out.insert(list[i].clone());
        proof {
            let done = all.take(i as int);
            let now = all.take(i + 1);
            assert(now =~= done.push(all[i as int]));
            assert(now.to_set() =~= done.to_set().insert(all[i as int])) by {
                assert(now[i as int] == all[i as int]);
                assert forall|x: Seq<char>| done.contains(x) implies now.contains(x) by {
                    assert(now[done.index_of(x)] == x);
                }
            }
            assert(out@ =~= start.union(now.to_set()));
        }
        i += 1;
    }
    proof {
        assert(all.take(list@.len() as int) =~= all);
    }
    out
}

/// Adds the fields of lists to sets, collection by collection.
fn merge_field_map(target: StrMap<StrSet>, source: &StrMap<Vec<String>>) -> (r: StrMap<StrSet>)
    ensures
        field_sets(r@) == merged_fields(field_sets(target@), source@),
{
    let ghost start = field_sets(target@);
    let n = source.len();
    let ghost keys = source.keys();
    let mut out = target;
    let mut i: usize = 0;
    while i < n
        invariant
            0 <= i <= n,
            n == keys.len(),
            keys == source.keys(),
            keys.no_duplicates(),
            forall|k: Seq<char>| #[trigger] keys.contains(k) <==> source@.dom().contains(k),
            forall|c: Seq<char>| #[trigger]
                out@.dom().contains(c) <==> start.dom().contains(c) || keys.take(i as int).contains(c),
            forall|c: Seq<char>| #[trigger]
                out@.dom().contains(c) ==> out@[c]@ == (if start.dom().contains(c) {
                    start[c]
                } else {
                    Set::empty()
                }).union(
                    if keys.take(i as int).contains(c) {
                        texts(source@[c]@).to_set()
                    } else {
                        Set::empty()
                    },
                ),
        decreases n - i,
    {
        let collection = source.key(i);
        let fields = source.value(i);
        let ghost before = out@;
        let ghost done = keys.take(i as int);
        let ghost now = keys.take(i + 1);
        proof {
            if done.contains(collection@) {
                let k = done.index_of(collection@);
                assert(keys[k] == keys[i as int]);
            }
            assert(now =~= done.push(collection@));
            assert forall|c: Seq<char>| #[trigger] now.contains(c) <==> done.contains(c) || c == collection@ by {
                if now.contains(c) {
                    let k = now.index_of(c);
                    if k < i {
                        assert(done[k] == c);
                    }
                }
                if done.contains(c) {
                    assert(now[done.index_of(c)] == c);
                }
                assert(now[i as int] == collection@);
            }
        }
        let set = match out.remove(collection.as_str()) {
            Some(s) => s,
            None => StrSet::new(),
        };
        let set = add_texts(set, fields);
        let ghost added = set@;
        let _ = out.insert(collection.clone(), set);
        proof {
            assert forall|c: Seq<char>| #[trigger] out@.dom().contains(c) implies out@[c]@ == (
            if start.dom().contains(c) {
                start[c]
            } else {
                Set::empty()
            }).union(
                if now.contains(c) {
                    texts(source@[c]@).to_set()
                } else {
                    Set::empty()
                },
            ) by {
                if c == collection@ {
                    assert(before.dom().contains(c) <==> start.dom().contains(c));
                    if before.dom().contains(c) {
                        assert(before[c]@ =~= start[c]);
                    }
                    assert(out@[c]@ =~= (if start.dom().contains(c) {
                        start[c]
                    } else {
                        Set::empty()
                    }).union(texts(source@[c]@).to_set()));
                } else {
                    assert(before.dom().contains(c));
                }
            }
        }
        i += 1;
    }
    proof {
        assert(keys.take(n as int) =~= keys);
        let want = merged_fields(start, source@);
        assert forall|c: Seq<char>| #[trigger] field_sets(out@).dom().contains(c) <==> want.dom().contains(c) by {
            assert(out@.dom().contains(c) <==> start.dom().contains(c) || keys.contains(c));
        }
        assert forall|c: Seq<char>| want.dom().contains(c) implies #[trigger] field_sets(out@)[c] == want[c] by {
            assert(out@.dom().contains(c));
            assert(field_sets(out@)[c] =~= want[c]);
        }
        assert(field_sets(out@) =~= want);
    }
    out
}

/// Layers a definition on what it inherits.
fn layer(base: ResolvedOverlay, def: &OverlayDefinition) -> (r: ResolvedOverlay)
    ensures
        r@ == layered(base@, *def),
{
    let ghost b = base@;
    let collections = add_texts(base.collections, &def.collections);
    let mutations = base.mutations.add_all(&def.mutations);
    let included = merge_field_map(base.include_fields, &def.include_fields);
    let exclude_fields = merge_field_map(base.exclude_fields, &def.exclude_fields);
    let include_fields = merge_field_map(included, &def.additionally_include);
    let r = ResolvedOverlay {
        name: def.name.clone(),
        access: def.access,
        collections,
        include_fields,
        exclude_fields,
        mutations,
    };
    proof {
        let want = layered(b, *def);
        assert(r@.mutations =~= want.mutations) by {
            assert forall|m: OverlayMutation| r@.mutations.contains(m) <==> want.mutations.contains(m) by {
                assert(r.mutations.has(m) <==> base.mutations.has(m) || def.mutations@.contains(m));
            }
        }
        assert(r@ =~= want);
    }
    r
}

/// An overlay opens, includes, excludes and allows all that the one it extends does.
pub proof fn law_inheritance_only_adds(defs: Definitions, names: Seq<Seq<char>>, k: int, c: Seq<char>, f: Seq<char>)
    requires
        is_lineage(defs, names),
        0 <= k < names.len() - 1,
    ensures
        ({
            let child = resolved_from(defs, names, k);
            let parent = resolved_from(defs, names, k + 1);
            &&& opens(parent, c) ==> opens(child, c)
            &&& parent.included.dom().contains(c) && parent.included[c].contains(f) ==> child.included.dom().contains(c)
                && child.included[c].contains(f)
            &&& parent.excluded.dom().contains(c) && parent.excluded[c].contains(f) ==> child.excluded.dom().contains(c)
                && child.excluded[c].contains(f)
            &&& forall|m: OverlayMutation| #[trigger] parent.mutations.contains(m) ==> child.mutations.contains(m)
        }),
{
}

/// A field that an overlay with partial access excludes is not shown, whatever includes it.
pub proof fn law_exclusion_wins(v: ResolvedView, c: Seq<char>, f: Seq<char>)
    requires
        v.access == OverlayAccess::Partial,
        v.excluded.dom().contains(c),
        v.excluded[c].contains(f),
    ensures
        !shows(v, c, f),
{
}

/// An overlay resolves in one way: two lineages that start alike are one the beginning of the
/// other.
pub proof fn law_lineage_is_determined(defs: Definitions, a: Seq<Seq<char>>, b: Seq<Seq<char>>, n: int)
    requires
        is_lineage(defs, a),
        is_lineage(defs, b),
        a[0] == b[0],
        0 <= n < a.len(),
        n < b.len(),
    ensures
        a[n] == b[n],
    decreases n,
{
    if n > 0 {
        law_lineage_is_determined(defs, a, b, n - 1);
        assert(parent_of(defs, a[n - 1]) == Some(a[n]));
        assert(parent_of(defs, b[n - 1]) == Some(b[n]));
    }
}

/// Full access to all collections shows every field and allows everything.
pub proof fn law_full_overlay_shows_everything(def: OverlayDefinition, c: Seq<char>, f: Seq<char>, m: OverlayMutation)
    requires
        def.access == OverlayAccess::Full,
        texts(def.collections@) == seq!["*"@],
        def.mutations@ == seq![OverlayMutation::Read, OverlayMutation::Write, OverlayMutation::Delete],
    ensures
        shows(layered(bare(def), def), c, f),
        layered(bare(def), def).mutations.contains(m),
{
    let all = texts(def.collections@);
    assert(all[0] == "*"@);
    assert(all.contains("*"@));
    let ms = def.mutations@;
    assert(ms[0] == OverlayMutation::Read && ms[1] == OverlayMutation::Write && ms[2] == OverlayMutation::Delete);
    assert(ms.contains(m)) by {
        match m {
            OverlayMutation::Read => {
                assert(ms[0] == m);
            },
            OverlayMutation::Write => {
                assert(ms[1] == m);
            },
            OverlayMutation::Delete => {
                assert(ms[2] == m);
            },
        }
    }
}

} // verus!
