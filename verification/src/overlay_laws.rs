//! What a resolved overlay opens, shows and allows, said of the definitions of its lineage.
use crate::overlay::{
    bare, is_lineage, law_lineage_is_determined, layered, opens, parent_of, resolved_from,
    resolves, shows, Definitions, OverlayAccess, OverlayDefinition, OverlayError,
    OverlayMutation, ResolvedOverlay,
};
use crate::support::text::texts;
use vstd::prelude::*;

verus! {

/// Whether a list of names holds one.
pub open spec fn names_it(list: Seq<String>, name: Seq<char>) -> bool {
    exists|i: int| 0 <= i < list.len() && (#[trigger] list[i])@ == name
}

/// Whether lists of fields name a field of a collection.
pub open spec fn lists_field(lists: Map<Seq<char>, Vec<String>>, collection: Seq<char>, field: Seq<char>) -> bool {
    lists.dom().contains(collection) && names_it(lists[collection]@, field)
}

/// Whether names are the whole lineage of an overlay: itself, the one it extends, and so on up
/// to one that extends none.
pub open spec fn whole_lineage(defs: Definitions, names: Seq<Seq<char>>, name: Seq<char>) -> bool {
    is_lineage(defs, names) && names[0] == name && parent_of(defs, names.last()) is None
}

/// Whether some definition of a lineage names a collection.
pub open spec fn some_opens(defs: Definitions, names: Seq<Seq<char>>, collection: Seq<char>) -> bool {
    exists|i: int| 0 <= i < names.len() && names_it(defs[#[trigger] names[i]].collections@, collection)
}

/// Whether some definition of a lineage includes a field.
pub open spec fn some_includes(defs: Definitions, names: Seq<Seq<char>>, c: Seq<char>, f: Seq<char>) -> bool {
    exists|i: int|
        0 <= i < names.len() && (lists_field(defs[#[trigger] names[i]].include_fields@, c, f) || lists_field(
            defs[names[i]].additionally_include@,
            c,
            f,
        ))
}

/// Whether some definition of a lineage excludes a field.
pub open spec fn some_excludes(defs: Definitions, names: Seq<Seq<char>>, c: Seq<char>, f: Seq<char>) -> bool {
    exists|i: int| 0 <= i < names.len() && lists_field(defs[#[trigger] names[i]].exclude_fields@, c, f)
}

/// Whether some definition of a lineage allows a mutation.
pub open spec fn some_allows(defs: Definitions, names: Seq<Seq<char>>, m: OverlayMutation) -> bool {
    exists|i: int| 0 <= i < names.len() && defs[#[trigger] names[i]].mutations@.contains(m)
}

proof fn lemma_texts_name(list: Seq<String>, name: Seq<char>)
    ensures
        texts(list).to_set().contains(name) <==> names_it(list, name),
{
    if texts(list).contains(name) {
        let i = texts(list).index_of(name);
        assert(list[i]@ == name);
    }
    if names_it(list, name) {
        let i = choose|i: int| 0 <= i < list.len() && (#[trigger] list[i])@ == name;
        assert(texts(list)[i] == name);
    }
}

/// What one definition adds to what it inherits: nothing is lost, and what its own lists name
/// is there. The name and the access are its own.
pub proof fn law_definition_adds_its_own(
    base: crate::overlay::ResolvedView,
    def: OverlayDefinition,
    c: Seq<char>,
    f: Seq<char>,
    m: OverlayMutation,
)
    ensures
        ({
            let v = layered(base, def);
            &&& v.name == def.name@
            &&& v.access == def.access
            &&& v.collections.contains(c) <==> base.collections.contains(c) || names_it(def.collections@, c)
            &&& v.mutations.contains(m) <==> base.mutations.contains(m) || def.mutations@.contains(m)
            &&& (v.included.dom().contains(c) && v.included[c].contains(f)) <==> (base.included.dom().contains(c)
                && base.included[c].contains(f)) || lists_field(def.include_fields@, c, f) || lists_field(
                def.additionally_include@,
                c,
                f,
            )
            &&& (v.excluded.dom().contains(c) && v.excluded[c].contains(f)) <==> (base.excluded.dom().contains(c)
                && base.excluded[c].contains(f)) || lists_field(def.exclude_fields@, c, f)
        }),
{
    lemma_texts_name(def.collections@, c);
    if def.include_fields@.dom().contains(c) {
        lemma_texts_name(def.include_fields@[c]@, f);
    }
    if def.additionally_include@.dom().contains(c) {
        lemma_texts_name(def.additionally_include@[c]@, f);
    }
    if def.exclude_fields@.dom().contains(c) {
        lemma_texts_name(def.exclude_fields@[c]@, f);
    }
    assert(def.mutations@.to_set().contains(m) <==> def.mutations@.contains(m));
}

/// What a lineage resolves to from its `k`-th overlay on is what the definitions from there on
/// give together.
proof fn lemma_resolved_from(
    defs: Definitions,
    names: Seq<Seq<char>>,
    k: int,
    c: Seq<char>,
    f: Seq<char>,
    m: OverlayMutation,
)
    requires
        0 <= k < names.len(),
    ensures
        ({
            let v = resolved_from(defs, names, k);
            let rest = names.skip(k);
            &&& v.access == defs[names[k]].access
            &&& v.name == defs[names[k]].name@
            &&& v.collections.contains(c) <==> some_opens(defs, rest, c)
            &&& v.mutations.contains(m) <==> some_allows(defs, rest, m)
            &&& (v.included.dom().contains(c) && v.included[c].contains(f)) <==> some_includes(defs, rest, c, f)
            &&& (v.excluded.dom().contains(c) && v.excluded[c].contains(f)) <==> some_excludes(defs, rest, c, f)
        }),
    decreases names.len() - k,
{
    let rest = names.skip(k);
    let def = defs[names[k]];
    assert(rest[0] == names[k]);
    if k >= names.len() - 1 {
        law_definition_adds_its_own(bare(def), def, c, f, m);
        assert(rest.len() == 1);
        assert(defs[rest[0]] == def);
    } else {
        lemma_resolved_from(defs, names, k + 1, c, f, m);
        let parent = resolved_from(defs, names, k + 1);
        law_definition_adds_its_own(parent, def, c, f, m);
        let more = names.skip(k + 1);
        assert forall|i: int| 0 <= i < more.len() implies #[trigger] more[i] == rest[i + 1] by {}
        assert forall|i: int| 1 <= i < rest.len() implies #[trigger] rest[i] == more[i - 1] by {}
        if some_opens(defs, more, c) {
            let i = choose|i: int| 0 <= i < more.len() && names_it(defs[#[trigger] more[i]].collections@, c);
            assert(names_it(defs[rest[i + 1]].collections@, c));
        }
        if some_opens(defs, rest, c) {
            let i = choose|i: int| 0 <= i < rest.len() && names_it(defs[#[trigger] rest[i]].collections@, c);
            if i > 0 {
                assert(names_it(defs[more[i - 1]].collections@, c));
            }
        }
        if some_allows(defs, more, m) {
            let i = choose|i: int| 0 <= i < more.len() && defs[#[trigger] more[i]].mutations@.contains(m);
            assert(defs[rest[i + 1]].mutations@.contains(m));
        }
        if some_allows(defs, rest, m) {
            let i = choose|i: int| 0 <= i < rest.len() && defs[#[trigger] rest[i]].mutations@.contains(m);
            if i > 0 {
                assert(defs[more[i - 1]].mutations@.contains(m));
            }
        }
        if some_excludes(defs, more, c, f) {
            let i = choose|i: int| 0 <= i < more.len() && lists_field(defs[#[trigger] more[i]].exclude_fields@, c, f);
            assert(lists_field(defs[rest[i + 1]].exclude_fields@, c, f));
        }
        if some_excludes(defs, rest, c, f) {
            let i = choose|i: int| 0 <= i < rest.len() && lists_field(defs[#[trigger] rest[i]].exclude_fields@, c, f);
            if i > 0 {
                assert(lists_field(defs[more[i - 1]].exclude_fields@, c, f));
            }
        }
        if some_includes(defs, more, c, f) {
            let i = choose|i: int|
                0 <= i < more.len() && (lists_field(defs[#[trigger] more[i]].include_fields@, c, f) || lists_field(
                    defs[more[i]].additionally_include@,
                    c,
                    f,
                ));
            assert(defs[rest[i + 1]] == defs[more[i]]);
        }
        if some_includes(defs, rest, c, f) {
            let i = choose|i: int|
                0 <= i < rest.len() && (lists_field(defs[#[trigger] rest[i]].include_fields@, c, f) || lists_field(
                    defs[rest[i]].additionally_include@,
                    c,
                    f,
                ));
            if i > 0 {
                assert(defs[more[i - 1]] == defs[rest[i]]);
            }
        }
    }
}

/// A resolved overlay has the name and access of its own definition, and opens, includes,
/// excludes and allows exactly what some definition of its lineage does, its own among them.
pub proof fn law_resolved_overlay_joins_its_lineage(
    o: ResolvedOverlay,
    defs: Definitions,
    name: Seq<char>,
    names: Seq<Seq<char>>,
    c: Seq<char>,
    f: Seq<char>,
    m: OverlayMutation,
)
    requires
        resolves(Ok(o), defs, name),
        whole_lineage(defs, names, name),
    ensures
        o@.name == defs[name].name@,
        o@.access == defs[name].access,
        opens(o@, c) <==> some_opens(defs, names, "*"@) || some_opens(defs, names, c),
        o@.mutations.contains(m) <==> some_allows(defs, names, m),
        (o@.included.dom().contains(c) && o@.included[c].contains(f)) <==> some_includes(defs, names, c, f),
        (o@.excluded.dom().contains(c) && o@.excluded[c].contains(f)) <==> some_excludes(defs, names, c, f),
{
    let own = choose|own: Seq<Seq<char>>| #[trigger]
        is_lineage(defs, own) && own[0] == name && parent_of(defs, own.last()) is None && o@ == resolved_from(
            defs,
            own,
            0,
        );
    lemma_one_lineage(defs, own, names);
    assert(names.skip(0) =~= names);
    lemma_resolved_from(defs, names, 0, c, f, m);
    lemma_resolved_from(defs, names, 0, "*"@, f, m);
}

proof fn lemma_one_lineage(defs: Definitions, a: Seq<Seq<char>>, b: Seq<Seq<char>>)
    requires
        is_lineage(defs, a),
        is_lineage(defs, b),
        a[0] == b[0],
        parent_of(defs, a.last()) is None,
        parent_of(defs, b.last()) is None,
    ensures
        a == b,
{
    if a.len() < b.len() {
        law_lineage_is_determined(defs, a, b, a.len() - 1);
        assert(parent_of(defs, b[a.len() - 1]) is Some);
    } else if b.len() < a.len() {
        law_lineage_is_determined(defs, a, b, b.len() - 1);
        assert(parent_of(defs, a[b.len() - 1]) is Some);
    }
    assert forall|i: int| 0 <= i < a.len() implies a[i] == b[i] by {
        law_lineage_is_determined(defs, a, b, i);
    }
    assert(a =~= b);
}

/// A field is shown exactly where some definition of the lineage opens its collection, or all of
/// them, and either the overlay has full access or some definition includes the field and none
/// excludes it.
pub proof fn law_shown_fields(
    o: ResolvedOverlay,
    defs: Definitions,
    name: Seq<char>,
    names: Seq<Seq<char>>,
    c: Seq<char>,
    f: Seq<char>,
)
    requires
        resolves(Ok(o), defs, name),
        whole_lineage(defs, names, name),
    ensures
        shows(o@, c, f) <==> (some_opens(defs, names, "*"@) || some_opens(defs, names, c)) && (defs[name].access
            == OverlayAccess::Full || (some_includes(defs, names, c, f) && !some_excludes(defs, names, c, f))),
{
    law_resolved_overlay_joins_its_lineage(o, defs, name, names, c, f, OverlayMutation::Read);
}

/// With partial access, a field that the definition itself excludes is never shown, whether or
/// not it extends another.
pub proof fn law_own_exclusion_hides(
    o: ResolvedOverlay,
    defs: Definitions,
    name: Seq<char>,
    c: Seq<char>,
    f: Seq<char>,
)
    requires
        resolves(Ok(o), defs, name),
        defs[name].access == OverlayAccess::Partial,
        lists_field(defs[name].exclude_fields@, c, f),
    ensures
        !shows(o@, c, f),
{
    let names = choose|names: Seq<Seq<char>>| #[trigger]
        is_lineage(defs, names) && names[0] == name && parent_of(defs, names.last()) is None && o@ == resolved_from(
            defs,
            names,
            0,
        );
    law_shown_fields(o, defs, name, names, c, f);
    assert(lists_field(defs[names[0]].exclude_fields@, c, f));
}

/// An overlay resolves exactly where its lineage is whole. Else it is not defined, or the
/// lineage ends at an overlay that is not defined, or comes back to one of its own.
pub proof fn law_resolution_succeeds_for_whole_lineages(
    r: Result<ResolvedOverlay, OverlayError>,
    defs: Definitions,
    name: Seq<char>,
)
    requires
        resolves(r, defs, name),
    ensures
        r is Ok <==> exists|names: Seq<Seq<char>>| #[trigger] whole_lineage(defs, names, name),
        r matches Err(OverlayError::OverlayNotFound(n)) ==> n@ == name && !defs.dom().contains(name),
        !defs.dom().contains(name) ==> (r matches Err(OverlayError::OverlayNotFound(n)) && n@ == name),
{
    if r is Ok {
        let names = choose|names: Seq<Seq<char>>| #[trigger]
            is_lineage(defs, names) && names[0] == name && parent_of(defs, names.last()) is None && r->Ok_0@
                == resolved_from(defs, names, 0);
        assert(whole_lineage(defs, names, name));
    }
    if exists|names: Seq<Seq<char>>| #[trigger] whole_lineage(defs, names, name) {
        let a = choose|a: Seq<Seq<char>>| #[trigger] whole_lineage(defs, a, name);
        assert(defs.dom().contains(a[0]));
        match r {
            Err(OverlayError::UnresolvedParent(c, p)) => {
                let b = choose|b: Seq<Seq<char>>| #[trigger]
                    is_lineage(defs, b) && b[0] == name && b.last() == c@ && parent_of(defs, c@) == Some(p@)
                        && !defs.dom().contains(p@);
                lemma_goes_on(defs, a, b);
                assert(defs.dom().contains(a[b.len() as int]));
            },
            Err(OverlayError::InheritanceCycle(c)) => {
                let b = choose|b: Seq<Seq<char>>| #[trigger]
                    is_lineage(defs, b) && b[0] == name && parent_of(defs, b.last()) == Some(c@) && b.contains(c@);
                lemma_goes_on(defs, a, b);
                let i = b.index_of(c@);
                law_lineage_is_determined(defs, a, b, i);
                assert(a[i] == a[b.len() as int]);
            },
            _ => {},
        }
    }
    if !defs.dom().contains(name) {
        if r is Ok {
            let a = choose|a: Seq<Seq<char>>| #[trigger] whole_lineage(defs, a, name);
            assert(defs.dom().contains(a[0]));
        }
        match r {
            Err(OverlayError::UnresolvedParent(c, p)) => {
                let b = choose|b: Seq<Seq<char>>| #[trigger]
                    is_lineage(defs, b) && b[0] == name && b.last() == c@ && parent_of(defs, c@) == Some(p@)
                        && !defs.dom().contains(p@);
                assert(defs.dom().contains(b[0]));
            },
            Err(OverlayError::InheritanceCycle(c)) => {
                let b = choose|b: Seq<Seq<char>>| #[trigger]
                    is_lineage(defs, b) && b[0] == name && parent_of(defs, b.last()) == Some(c@) && b.contains(c@);
                assert(defs.dom().contains(b[0]));
            },
            _ => {},
        }
    }
}

proof fn lemma_goes_on(defs: Definitions, a: Seq<Seq<char>>, b: Seq<Seq<char>>)
    requires
        is_lineage(defs, a),
        is_lineage(defs, b),
        a[0] == b[0],
        parent_of(defs, a.last()) is None,
        parent_of(defs, b.last()) is Some,
    ensures
        b.len() < a.len(),
        a[b.len() as int] == parent_of(defs, b.last())->0,
{
    if b.len() >= a.len() {
        law_lineage_is_determined(defs, a, b, a.len() - 1);
        if b.len() > a.len() {
            assert(parent_of(defs, b[a.len() - 1]) is Some);
        }
    } else {
        law_lineage_is_determined(defs, a, b, b.len() - 1);
        assert(parent_of(defs, a[b.len() - 1]) == Some(a[b.len() as int]));
    }
}

} // verus!
