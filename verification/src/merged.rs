//! The selection merge engine: folds a resolver's (and its transitive
//! dependencies') selections into one canonical, deduplicated,
//! deterministically ordered selection tree, and collects refetch
//! artifacts discovered along the way. The engine's contracts pin the
//! result to a functional model: `spec_merged_map` folds the selections
//! into a map from normalization aliases to entry models, and
//! `spec_created_selections` reads it off in canonical order behind the
//! injected identity entry.

use vstd::prelude::*;
use crate::DefinedField;
use crate::lang::{
    args_view, args_wf, sels_height, ScalarFieldSelection, Selection, SelectionFieldArgument,
    VariableDefinition,
};
use crate::order::lex_lt;
use crate::alias_map::AliasMap;
use crate::schema::{ObjectType, Schema};

verus! {

// ---------------------------------------------------------------------
// Merged output types
// ---------------------------------------------------------------------

/// One entry of a merged selection set.
#[derive(Debug, PartialEq, Eq)]
pub enum MergedServerFieldSelection {
    ScalarField(MergedScalarFieldSelection),
    LinkedField(MergedLinkedFieldSelection),
}

#[derive(Debug, PartialEq, Eq)]
pub struct MergedScalarFieldSelection {
    pub name: String,
    pub normalization_alias: Option<String>,
    pub arguments: Vec<SelectionFieldArgument>,
}

#[derive(Debug, PartialEq, Eq)]
pub struct MergedLinkedFieldSelection {
    pub name: String,
    pub normalization_alias: Option<String>,
    pub selection_set: Vec<MergedServerFieldSelection>,
    pub arguments: Vec<SelectionFieldArgument>,
}

/// The identity under which a selection is deduplicated and ordered:
/// the dedicated identity-field marker, or the field's normalization
/// alias (name plus a stable argument encoding). `Id` orders first.
pub enum NormalizationKey {
    Id,
    ServerField(Seq<char>),
}

/// An ordered, deduplicated merged selection set, sorted by
/// `NormalizationKey`. The keys under which the entries were merged are
/// kept as ghost data; `wf` ties them to the entries.
pub struct MergedSelectionSet {
    pub selections: Vec<MergedServerFieldSelection>,
    pub keys: Ghost<Seq<NormalizationKey>>,
}

/// A work item discovered during merging, drained later by the code
/// generator.
pub enum ArtifactQueueItem {
    /// A resolver to compile, by field id.
    Resolver(usize),
    RefetchField(RefetchFieldResolverInfo),
}

/// A refetch artifact: a completed merged selection set for the object
/// it refetches, with the variable definitions in scope.
pub struct RefetchFieldResolverInfo {
    pub merged_selection_set: MergedSelectionSet,
    pub parent_id: usize,
    pub variable_definitions: Vec<VariableDefinition>,
}

// ---------------------------------------------------------------------
// Models
// ---------------------------------------------------------------------

/// The mathematical model of a merged entry: all string contents, with
/// nested selections modeled recursively.
pub enum MergedSelectionModel {
    Scalar {
        name: Seq<char>,
        alias: Option<Seq<char>>,
        arguments: Seq<(Seq<char>, Seq<char>)>,
    },
    Linked {
        name: Seq<char>,
        alias: Option<Seq<char>>,
        arguments: Seq<(Seq<char>, Seq<char>)>,
        selections: Seq<MergedSelectionModel>,
    },
}

pub open spec fn opt_string_view(o: Option<String>) -> Option<Seq<char>> {
    match o {
        Some(s) => Some(s@),
        None => None,
    }
}

pub open spec fn merged_view(e: MergedServerFieldSelection) -> MergedSelectionModel
    decreases e,
{
    match e {
        MergedServerFieldSelection::ScalarField(s) => MergedSelectionModel::Scalar {
            name: s.name@,
            alias: opt_string_view(s.normalization_alias),
            arguments: args_view(s.arguments@),
        },
        MergedServerFieldSelection::LinkedField(l) => MergedSelectionModel::Linked {
            name: l.name@,
            alias: opt_string_view(l.normalization_alias),
            arguments: args_view(l.arguments@),
            selections: merged_sels_view(l.selection_set@),
        },
    }
}

pub open spec fn merged_sels_view(s: Seq<MergedServerFieldSelection>) -> Seq<MergedSelectionModel>
    decreases s,
{
    if s.len() == 0 {
        Seq::empty()
    } else {
        merged_sels_view(s.drop_last()).push(merged_view(s.last()))
    }
}

pub proof fn lemma_merged_sels_view_index(s: Seq<MergedServerFieldSelection>, i: int)
    requires
        0 <= i < s.len(),
    ensures
        merged_sels_view(s).len() == s.len(),
        merged_sels_view(s)[i] == merged_view(s[i]),
    decreases s,
{
    lemma_merged_sels_view_len(s);
    if i < s.len() - 1 {
        assert(s.drop_last()[i] == s[i]);
        lemma_merged_sels_view_index(s.drop_last(), i);
    }
}

pub proof fn lemma_merged_sels_view_len(s: Seq<MergedServerFieldSelection>)
    ensures
        merged_sels_view(s).len() == s.len(),
    decreases s,
{
    if s.len() > 0 {
        lemma_merged_sels_view_len(s.drop_last());
    }
}

/// Argument lists of a model: every value non-empty.
pub open spec fn model_args_wf(args: Seq<(Seq<char>, Seq<char>)>) -> bool {
    forall|i: int| 0 <= i < args.len() ==> (#[trigger] args[i]).1.len() > 0
}

/// Well-formedness of a merged entry's model, at every nesting depth.
pub open spec fn model_wf(m: MergedSelectionModel) -> bool
    decreases m,
{
    match m {
        MergedSelectionModel::Scalar { arguments, .. } => model_args_wf(arguments),
        MergedSelectionModel::Linked { arguments, selections, .. } => {
            &&& model_args_wf(arguments)
            &&& forall|i: int| 0 <= i < selections.len() ==> model_wf(#[trigger] selections[i])
        },
    }
}

// ---------------------------------------------------------------------
// Normalization aliases and key order
// ---------------------------------------------------------------------

/// The stable argument encoding appended to a field name: for each
/// argument, `__{name}_{value}` with the value's leading sigil removed.
pub open spec fn alias_fold(prefix: Seq<char>, args: Seq<(Seq<char>, Seq<char>)>) -> Seq<char>
    decreases args.len(),
{
    if args.len() == 0 {
        prefix
    } else {
        alias_fold(prefix + "__"@ + args[0].0 + "_"@ + args[0].1.skip(1), args.drop_first())
    }
}

/// The normalization alias of a field occurrence: its name when there
/// are no arguments, otherwise the name with the argument encoding.
pub open spec fn spec_alias(name: Seq<char>, args: Seq<(Seq<char>, Seq<char>)>) -> Seq<char> {
    if args.len() == 0 {
        name
    } else {
        alias_fold(name, args)
    }
}

/// The alias a merged entry is keyed under when its key is re-derived.
pub open spec fn model_alias(m: MergedSelectionModel) -> Seq<char> {
    match m {
        MergedSelectionModel::Scalar { name, arguments, .. } => spec_alias(name, arguments),
        MergedSelectionModel::Linked { name, arguments, .. } => spec_alias(name, arguments),
    }
}

/// `Id` orders strictly before every server-field key; server-field
/// keys order lexicographically by alias.
pub open spec fn key_lt(a: NormalizationKey, b: NormalizationKey) -> bool {
    match (a, b) {
        (NormalizationKey::Id, NormalizationKey::Id) => false,
        (NormalizationKey::Id, NormalizationKey::ServerField(_)) => true,
        (NormalizationKey::ServerField(_), NormalizationKey::Id) => false,
        (NormalizationKey::ServerField(x), NormalizationKey::ServerField(y)) => lex_lt(x, y),
    }
}

/// Strictly ascending keys: the canonical order of a merged set.
pub open spec fn keys_strictly_sorted(ks: Seq<NormalizationKey>) -> bool {
    forall|i: int, j: int| 0 <= i < j < ks.len() ==> key_lt(ks[i], ks[j])
}

impl MergedSelectionSet {
    /// Strictly `key_lt`-sorted keys, one per entry; a server-field key
    /// is the entry's re-derived alias, the `Id` key marks the injected
    /// identity scalar; every entry is well-formed in depth.
    pub open spec fn wf(self) -> bool {
        &&& self.keys@.len() == self.selections@.len()
        &&& keys_strictly_sorted(self.keys@)
        &&& forall|i: int|
            0 <= i < self.keys@.len() ==> match #[trigger] self.keys@[i] {
                NormalizationKey::ServerField(a) =>
                    a == model_alias(merged_view(self.selections@[i])),
                NormalizationKey::Id => self.selections@[i] is ScalarField,
            }
        &&& forall|i: int|
            0 <= i < self.selections@.len() ==> model_wf(merged_view(#[trigger] self.selections@[i]))
    }

    /// The entries, in their canonical order.
    pub fn selections(&self) -> (r: &Vec<MergedServerFieldSelection>)
        ensures
            r == &self.selections,
    {
        &self.selections
    }
}

proof fn lemma_key_lt_irreflexive_asymmetric(a: NormalizationKey, b: NormalizationKey)
    requires
        key_lt(a, b),
    ensures
        a != b,
        !key_lt(b, a),
{
    match (a, b) {
        (NormalizationKey::ServerField(x), NormalizationKey::ServerField(y)) => {
            assert(x != y);
            if lex_lt(y, x) {
                crate::order::lemma_lex_le_antisymmetric(x, y);
            }
        },
        _ => {},
    }
}

/// No two entries of a well-formed merged selection set share a
/// normalization key: selections with the same field name and the same
/// arguments have been merged into a single entry.
pub proof fn lemma_merged_keys_distinct(m: MergedSelectionSet)
    requires
        m.wf(),
    ensures
        forall|i: int, j: int|
            0 <= i < m.keys@.len() && 0 <= j < m.keys@.len() && i != j ==> m.keys@[i]
                != m.keys@[j],
{
    assert forall|i: int, j: int|
        0 <= i < m.keys@.len() && 0 <= j < m.keys@.len() && i != j implies m.keys@[i]
        != m.keys@[j] by {
        if i < j {
            lemma_key_lt_irreflexive_asymmetric(m.keys@[i], m.keys@[j]);
        } else {
            lemma_key_lt_irreflexive_asymmetric(m.keys@[j], m.keys@[i]);
        }
    }
}

/// A merged selection set holds at most one `Id`-keyed entry; with
/// `create_merged_selection_set`'s contract — the `Id` key is present
/// exactly when the parent type declares an identity field, and then
/// stands first — a type with an identity field has exactly one
/// `Id`-keyed entry in any merged set built against it.
pub proof fn lemma_id_entry_unique(m: MergedSelectionSet)
    requires
        m.wf(),
    ensures
        forall|i: int, j: int|
            0 <= i < m.keys@.len() && 0 <= j < m.keys@.len() && m.keys@[i] == NormalizationKey::Id
                && m.keys@[j] == NormalizationKey::Id ==> i == j,
{
    lemma_merged_keys_distinct(m);
}

proof fn lemma_sorted_keys_unique(k1: Seq<NormalizationKey>, k2: Seq<NormalizationKey>)
    requires
        keys_strictly_sorted(k1),
        keys_strictly_sorted(k2),
        forall|x: NormalizationKey| k1.contains(x) <==> k2.contains(x),
    ensures
        k1 == k2,
    decreases k1.len(),
{
    if k1.len() == 0 {
        if k2.len() > 0 {
            assert(k2.contains(k2[0]));
            assert(k1.contains(k2[0]));
            assert(false);
        }
        assert(k1 =~= k2);
    } else {
        assert(k1.contains(k1[0]));
        assert(k2.contains(k1[0]));
        let j = choose|j: int| 0 <= j < k2.len() && k2[j] == k1[0];
        assert(k2.contains(k2[0]));
        assert(k1.contains(k2[0]));
        let i = choose|i: int| 0 <= i < k1.len() && k1[i] == k2[0];
        if i > 0 && j > 0 {
            assert(key_lt(k1[0], k1[i]));
            assert(key_lt(k2[0], k2[j]));
            lemma_key_lt_irreflexive_asymmetric(k1[0], k1[i]);
            assert(false);
        }
        assert(k1[0] == k2[0]);
        let t1 = k1.drop_first();
        let t2 = k2.drop_first();
        assert forall|x: NormalizationKey| t1.contains(x) <==> t2.contains(x) by {
            if t1.contains(x) {
                let w = choose|w: int| 0 <= w < t1.len() && t1[w] == x;
                assert(k1[w + 1] == x);
                assert(key_lt(k1[0], k1[w + 1]));
                lemma_key_lt_irreflexive_asymmetric(k1[0], x);
                assert(k1.contains(x));
                assert(k2.contains(x));
                let v = choose|v: int| 0 <= v < k2.len() && k2[v] == x;
                assert(v != 0);
                assert(t2[v - 1] == x);
                assert(t2.contains(x));
            }
            if t2.contains(x) {
                let w = choose|w: int| 0 <= w < t2.len() && t2[w] == x;
                assert(k2[w + 1] == x);
                assert(key_lt(k2[0], k2[w + 1]));
                lemma_key_lt_irreflexive_asymmetric(k2[0], x);
                assert(k2.contains(x));
                assert(k1.contains(x));
                let v = choose|v: int| 0 <= v < k1.len() && k1[v] == x;
                assert(v != 0);
                assert(t1[v - 1] == x);
                assert(t1.contains(x));
            }
        }
        assert forall|p: int, q: int| 0 <= p < q < t1.len() implies key_lt(t1[p], t1[q]) by {
            assert(t1[p] == k1[p + 1]);
            assert(t1[q] == k1[q + 1]);
        }
        assert forall|p: int, q: int| 0 <= p < q < t2.len() implies key_lt(t2[p], t2[q]) by {
            assert(t2[p] == k2[p + 1]);
            assert(t2[q] == k2[q + 1]);
        }
        lemma_sorted_keys_unique(t1, t2);
        assert forall|w: int| 0 <= w < k1.len() implies k1[w] == k2[w] by {
            if w > 0 {
                assert(k1[w] == t1[w - 1]);
                assert(k2[w] == t2[w - 1]);
            }
        }
        assert(k1.len() == k2.len());
        assert(k1 =~= k2);
    }
}

/// The determinism half of order-independence: the canonical form
/// leaves no freedom. Two well-formed merged selection sets that hold
/// the same normalization keys, with the same entry under each key,
/// are identical — same key order, same entries in the same places.
/// Merging the same selections in any order can therefore differ only
/// if the accumulated key-to-entry graph differs.
pub proof fn lemma_canonical_form_unique(a: MergedSelectionSet, b: MergedSelectionSet)
    requires
        a.wf(),
        b.wf(),
        forall|x: NormalizationKey| a.keys@.contains(x) <==> b.keys@.contains(x),
        forall|i: int, j: int|
            0 <= i < a.keys@.len() && 0 <= j < b.keys@.len() && a.keys@[i] == b.keys@[j]
                ==> merged_view(a.selections@[i]) == merged_view(b.selections@[j]),
    ensures
        a.keys@ == b.keys@,
        merged_sels_view(a.selections@) == merged_sels_view(b.selections@),
{
    lemma_sorted_keys_unique(a.keys@, b.keys@);
    lemma_merged_sels_view_len(a.selections@);
    lemma_merged_sels_view_len(b.selections@);
    assert forall|i: int| 0 <= i < a.selections@.len() implies merged_sels_view(a.selections@)[i]
        == merged_sels_view(b.selections@)[i] by {
        lemma_merged_sels_view_index(a.selections@, i);
        lemma_merged_sels_view_index(b.selections@, i);
        assert(a.keys@[i] == b.keys@[i]);
    }
    assert(merged_sels_view(a.selections@) =~= merged_sels_view(b.selections@));
}

// ---------------------------------------------------------------------
// Input validity and the resolver rank (termination of the merge)
// ---------------------------------------------------------------------

/// The first field id in `resolvers` whose field is named `name`.
pub open spec fn resolver_lookup_at(s: Schema, resolvers: Seq<usize>, name: Seq<char>) -> Option<int>
    decreases resolvers.len(),
{
    if resolvers.len() == 0 {
        None
    } else if s.fields@[resolvers[0] as int].name@ == name {
        Some(resolvers[0] as int)
    } else {
        resolver_lookup_at(s, resolvers.drop_first(), name)
    }
}

/// The resolver field a scalar resolver selection on an object refers
/// to: looked up by name among the object's resolvers, first match.
pub open spec fn resolver_lookup(s: Schema, oid: int, name: Seq<char>) -> Option<int> {
    resolver_lookup_at(s, s.objects()[oid].resolvers@, name)
}

/// A selection is valid against an object of the schema when argument
/// values are non-empty, linked targets are in range, and every scalar
/// resolver reference resolves. The merge engine requires validity: a
/// failed resolver lookup would signal a schema invariant violated
/// upstream, not a recoverable condition.
pub open spec fn sel_valid(s: Schema, oid: int, sel: Selection) -> bool
    decreases sel,
{
    match sel {
        Selection::ScalarField(sf) => {
            &&& args_wf(sf.arguments@)
            &&& sf.associated_data is ResolverField ==> resolver_lookup(s, oid, sf.name@) is Some
        },
        Selection::LinkedField(lf) => {
            &&& args_wf(lf.arguments@)
            &&& lf.associated_data < s.objects().len()
            &&& sels_valid(s, lf.associated_data as int, lf.selection_set@)
        },
    }
}

pub open spec fn sels_valid(s: Schema, oid: int, sels: Seq<Selection>) -> bool
    decreases sels,
{
    forall|i: int| 0 <= i < sels.len() ==> sel_valid(s, oid, #[trigger] sels[i])
}

/// Every resolver field's own selection set is valid against the object
/// that owns the resolver.
pub open spec fn schema_resolvers_valid(s: Schema) -> bool {
    forall|fid: int|
        0 <= fid < s.fields@.len() ==> match (#[trigger] s.fields@[fid]).field_type {
            DefinedField::ResolverField(info) => match info.selection_set_and_unwraps {
                Some(ss) => {
                    &&& s.fields@[fid].parent_type_id < s.objects().len()
                    &&& sels_valid(s, s.fields@[fid].parent_type_id as int, ss.0@)
                },
                None => true,
            },
            DefinedField::ServerField(_) => true,
        }
}

/// The rank contributed by one selection: one more than the rank of a
/// referenced resolver; a linked field passes its nested bound through.
pub open spec fn sel_rank_bound(s: Schema, rank: Map<int, nat>, oid: int, sel: Selection) -> nat
    decreases sel,
{
    match sel {
        Selection::ScalarField(sf) => {
            if sf.associated_data is ResolverField {
                match resolver_lookup(s, oid, sf.name@) {
                    Some(fid) => if rank.contains_key(fid) {
                        rank[fid] + 1
                    } else {
                        0
                    },
                    None => 0,
                }
            } else {
                0
            }
        },
        Selection::LinkedField(lf) => sels_rank_bound(
            s,
            rank,
            lf.associated_data as int,
            lf.selection_set@,
        ),
    }
}

pub open spec fn sels_rank_bound(s: Schema, rank: Map<int, nat>, oid: int, sels: Seq<Selection>) -> nat
    decreases sels,
{
    if sels.len() == 0 {
        0
    } else {
        let h0 = sel_rank_bound(s, rank, oid, sels.last());
        let h1 = sels_rank_bound(s, rank, oid, sels.drop_last());
        if h0 > h1 {
            h0
        } else {
            h1
        }
    }
}

pub proof fn lemma_sels_rank_bound_index(
    s: Schema,
    rank: Map<int, nat>,
    oid: int,
    sels: Seq<Selection>,
    i: int,
)
    requires
        0 <= i < sels.len(),
    ensures
        sel_rank_bound(s, rank, oid, sels[i]) <= sels_rank_bound(s, rank, oid, sels),
    decreases sels,
{
    if i < sels.len() - 1 {
        assert(sels.drop_last()[i] == sels[i]);
        lemma_sels_rank_bound_index(s, rank, oid, sels.drop_last(), i);
    }
}

/// A rank certifies that the resolver reference graph is acyclic: each
/// resolver's own selection set stays strictly below the resolver.
pub open spec fn valid_rank(s: Schema, rank: Map<int, nat>) -> bool {
    forall|fid: int|
        0 <= fid < s.fields@.len() ==> match (#[trigger] s.fields@[fid]).field_type {
            DefinedField::ResolverField(info) => match info.selection_set_and_unwraps {
                Some(ss) => {
                    &&& rank.contains_key(fid)
                    &&& sels_rank_bound(s, rank, s.fields@[fid].parent_type_id as int, ss.0@)
                        <= rank[fid]
                },
                None => true,
            },
            DefinedField::ServerField(_) => true,
        }
}

pub open spec fn has_resolver_rank(s: Schema) -> bool {
    exists|rank: Map<int, nat>| valid_rank(s, rank)
}

pub open spec fn schema_rank(s: Schema) -> Map<int, nat> {
    choose|rank: Map<int, nat>| valid_rank(s, rank)
}

impl Schema {
    /// What the merge engine requires of the schema: well-formed,
    /// resolver selection sets valid, and an acyclic resolver graph
    /// (a self-referential resolver graph would never terminate).
    pub open spec fn merge_ready(self) -> bool {
        &&& self.wf()
        &&& schema_resolvers_valid(self)
        &&& has_resolver_rank(self)
    }
}

/// A successful lookup returns one of the object's resolver ids.
proof fn lemma_resolver_lookup_member(s: Schema, resolvers: Seq<usize>, name: Seq<char>, fid: int)
    requires
        resolver_lookup_at(s, resolvers, name) == Some(fid),
    ensures
        exists|k: int| 0 <= k < resolvers.len() && (#[trigger] resolvers[k]) == fid
            && s.fields@[fid].name@ == name,
    decreases resolvers.len(),
{
    if resolvers.len() > 0 {
        if s.fields@[resolvers[0] as int].name@ == name {
            assert(resolvers[0] == fid);
        } else {
            lemma_resolver_lookup_member(s, resolvers.drop_first(), name, fid);
            let k = choose|k: int|
                0 <= k < resolvers.drop_first().len() && (#[trigger] resolvers.drop_first()[k])
                    == fid && s.fields@[fid].name@ == name;
            assert(resolvers[k + 1] == fid);
        }
    }
}

// ---------------------------------------------------------------------
// The keys a merge accumulates
// ---------------------------------------------------------------------

/// The selection set a resolver flattens into the current level: the
/// resolver field's own selections, if it has any.
pub open spec fn resolver_flattened_selections(s: Schema, oid: int, name: Seq<char>) -> Seq<
    Selection,
> {
    match resolver_lookup(s, oid, name) {
        Some(fid) => match s.fields@[fid].field_type {
            DefinedField::ResolverField(info) => match info.selection_set_and_unwraps {
                Some(ss) => ss.0@,
                None => Seq::empty(),
            },
            DefinedField::ServerField(_) => Seq::empty(),
        },
        None => Seq::empty(),
    }
}

/// The aliases a scalar resolver reference contributes: those of the
/// resolver's flattened selections.
pub open spec fn scalar_resolver_keys(s: Schema, oid: int, name: Seq<char>) -> Set<Seq<char>>
    decreases scalar_resolver_measure(s, oid, name), 0nat, 1nat,
        when s.merge_ready() && 0 <= oid < s.objects().len()
        via scalar_resolver_keys_decreases
{
    let flattened = resolver_flattened_selections(s, oid, name);
    if flattened.len() == 0 {
        Set::empty()
    } else {
        sels_keys(s, oid, flattened)
    }
}

/// The normalization aliases one selection contributes at the current
/// level: nothing for a scalar named `id`; its alias for any other
/// server field or linked field; and, for a scalar resolver, the
/// aliases of the resolver's own flattened selections.
pub open spec fn sel_keys(s: Schema, oid: int, sel: Selection) -> Set<Seq<char>>
    decreases sel_rank_bound(s, schema_rank(s), oid, sel), 0nat, 2nat,
        when s.merge_ready() && 0 <= oid < s.objects().len()
{
    match sel {
        Selection::ScalarField(sf) => {
            if sf.name@ == "id"@ {
                Set::empty()
            } else if sf.associated_data is ServerField {
                Set::empty().insert(spec_alias(sf.name@, args_view(sf.arguments@)))
            } else {
                scalar_resolver_keys(s, oid, sf.name@)
            }
        },
        Selection::LinkedField(lf) => Set::empty().insert(
            spec_alias(lf.name@, args_view(lf.arguments@)),
        ),
    }
}

pub open spec fn sels_keys(s: Schema, oid: int, sels: Seq<Selection>) -> Set<Seq<char>>
    decreases sels_rank_bound(s, schema_rank(s), oid, sels), sels_height(sels), sels.len() + 3,
        when s.merge_ready() && 0 <= oid < s.objects().len()
        via sels_keys_decreases
{
    if sels.len() == 0 {
        Set::empty()
    } else {
        sels_keys(s, oid, sels.drop_last()).union(sel_keys(s, oid, sels.last()))
    }
}

#[via_fn]
proof fn scalar_resolver_keys_decreases(s: Schema, oid: int, name: Seq<char>) {
    match resolver_lookup(s, oid, name) {
        Some(fid) => {
            lemma_resolver_lookup_member(s, s.objects()[oid].resolvers@, name, fid);
            assert(s.objects()[oid].wf(s.fields@));
            assert(s.fields@[fid].field_type is ResolverField);
            assert(s.fields@[fid].parent_type_id == oid);
            assert(valid_rank(s, schema_rank(s)));
            match s.fields@[fid].field_type {
                DefinedField::ResolverField(info) => {
                    match info.selection_set_and_unwraps {
                        Some(ss) => {
                            assert(schema_rank(s).contains_key(fid));
                            assert(sels_rank_bound(s, schema_rank(s), oid, ss.0@)
                                <= schema_rank(s)[fid]);
                        },
                        None => {},
                    }
                },
                DefinedField::ServerField(_) => {},
            }
        },
        None => {},
    }
}

#[via_fn]
proof fn sels_keys_decreases(s: Schema, oid: int, sels: Seq<Selection>) {
    if sels.len() > 0 {
        assert(sel_rank_bound(s, schema_rank(s), oid, sels.last()) <= sels_rank_bound(
            s,
            schema_rank(s),
            oid,
            sels,
        ));
        assert(sels_rank_bound(s, schema_rank(s), oid, sels.drop_last()) <= sels_rank_bound(
            s,
            schema_rank(s),
            oid,
            sels,
        ));
        assert(sels_height(sels.drop_last()) <= sels_height(sels));
    }
}

/// The aliases under which a sequence of merged entries would be
/// re-keyed.
pub open spec fn entry_aliases(s: Seq<MergedServerFieldSelection>) -> Set<Seq<char>> {
    Set::new(
        |a: Seq<char>|
            exists|l: int| 0 <= l < s.len() && model_alias(merged_view(#[trigger] s[l])) == a,
    )
}

/// Taking the first entry off splits its alias from the rest's.
proof fn lemma_entry_aliases_first(s: Seq<MergedServerFieldSelection>)
    requires
        s.len() > 0,
    ensures
        entry_aliases(s) == entry_aliases(s.drop_first()).insert(model_alias(merged_view(s[0]))),
{
    let t = s.drop_first();
    assert forall|a: Seq<char>| #[trigger] entry_aliases(s).contains(a) implies entry_aliases(
        t,
    ).insert(model_alias(merged_view(s[0]))).contains(a) by {
        let l = choose|l: int| 0 <= l < s.len() && model_alias(merged_view(#[trigger] s[l])) == a;
        if l > 0 {
            assert(t[l - 1] == s[l]);
            assert(entry_aliases(t).contains(a));
        }
    }
    assert forall|a: Seq<char>|
        #[trigger] entry_aliases(t).insert(model_alias(merged_view(s[0]))).contains(a)
        implies entry_aliases(s).contains(a) by {
        if entry_aliases(t).contains(a) {
            let l = choose|l: int|
                0 <= l < t.len() && model_alias(merged_view(#[trigger] t[l])) == a;
            assert(s[l + 1] == t[l]);
        }
    }
    assert(entry_aliases(s) =~= entry_aliases(t).insert(model_alias(merged_view(s[0]))));
}

// ---------------------------------------------------------------------
// The functional model of merging
// ---------------------------------------------------------------------

/// The model of the entry a scalar selection inserts.
pub open spec fn scalar_selection_model(sf: ScalarFieldSelection) -> MergedSelectionModel {
    MergedSelectionModel::Scalar {
        name: sf.name@,
        alias: opt_string_view(sf.normalization_alias),
        arguments: args_view(sf.arguments@),
    }
}

/// A map of merged entries, seen at the model level.
pub open spec fn map_models(m: Map<Seq<char>, MergedServerFieldSelection>) -> Map<
    Seq<char>,
    MergedSelectionModel,
> {
    Map::new(|a: Seq<char>| m.contains_key(a), |a: Seq<char>| merged_view(m[a]))
}

pub open spec fn lex_sorted(ks: Seq<Seq<char>>) -> bool {
    forall|i: int, j: int| 0 <= i < j < ks.len() ==> lex_lt(ks[i], ks[j])
}

/// The unique ascending enumeration of a finite alias set.
pub open spec fn sorted_aliases(dom: Set<Seq<char>>) -> Seq<Seq<char>> {
    choose|ks: Seq<Seq<char>>|
        lex_sorted(ks) && (forall|a: Seq<char>| #[trigger] ks.contains(a) <==> dom.contains(a))
}

/// The canonical sequence of a model map: its values in ascending alias
/// order.
pub open spec fn sorted_models(m: Map<Seq<char>, MergedSelectionModel>) -> Seq<
    MergedSelectionModel,
> {
    sorted_aliases(m.dom()).map(|i: int, a: Seq<char>| m[a])
}

/// Two ascending enumerations of the same aliases coincide.
proof fn lemma_lex_sorted_unique(k1: Seq<Seq<char>>, k2: Seq<Seq<char>>)
    requires
        lex_sorted(k1),
        lex_sorted(k2),
        forall|a: Seq<char>| #[trigger] k1.contains(a) <==> k2.contains(a),
    ensures
        k1 == k2,
    decreases k1.len(),
{
    if k1.len() == 0 {
        if k2.len() > 0 {
            assert(k2.contains(k2[0]));
            assert(k1.contains(k2[0]));
            assert(false);
        }
        assert(k1 =~= k2);
    } else {
        assert(k1.contains(k1[0]));
        assert(k2.contains(k1[0]));
        let j = choose|j: int| 0 <= j < k2.len() && k2[j] == k1[0];
        assert(k2.contains(k2[0]));
        assert(k1.contains(k2[0]));
        let i = choose|i: int| 0 <= i < k1.len() && k1[i] == k2[0];
        if i > 0 && j > 0 {
            assert(lex_lt(k1[0], k1[i]));
            assert(lex_lt(k2[0], k2[j]));
            crate::order::lemma_lex_le_antisymmetric(k1[0], k2[0]);
            assert(false);
        }
        assert(k1[0] == k2[0]);
        let t1 = k1.drop_first();
        let t2 = k2.drop_first();
        assert forall|a: Seq<char>| #[trigger] t1.contains(a) <==> t2.contains(a) by {
            if t1.contains(a) {
                let w = choose|w: int| 0 <= w < t1.len() && t1[w] == a;
                assert(k1[w + 1] == a);
                assert(lex_lt(k1[0], k1[w + 1]));
                assert(k1.contains(a));
                assert(k2.contains(a));
                let v = choose|v: int| 0 <= v < k2.len() && k2[v] == a;
                if v == 0 {
                    assert(lex_lt(k1[0], a) && a == k1[0]);
                }
                assert(t2[v - 1] == a);
                assert(t2.contains(a));
            }
            if t2.contains(a) {
                let w = choose|w: int| 0 <= w < t2.len() && t2[w] == a;
                assert(k2[w + 1] == a);
                assert(lex_lt(k2[0], k2[w + 1]));
                assert(k2.contains(a));
                assert(k1.contains(a));
                let v = choose|v: int| 0 <= v < k1.len() && k1[v] == a;
                if v == 0 {
                    assert(lex_lt(k2[0], a) && a == k2[0]);
                }
                assert(t1[v - 1] == a);
                assert(t1.contains(a));
            }
        }
        assert forall|p: int, q: int| 0 <= p < q < t1.len() implies lex_lt(t1[p], t1[q]) by {
            assert(t1[p] == k1[p + 1]);
            assert(t1[q] == k1[q + 1]);
        }
        assert forall|p: int, q: int| 0 <= p < q < t2.len() implies lex_lt(t2[p], t2[q]) by {
            assert(t2[p] == k2[p + 1]);
            assert(t2[q] == k2[q + 1]);
        }
        lemma_lex_sorted_unique(t1, t2);
        assert forall|w: int| 0 <= w < k1.len() implies k1[w] == k2[w] by {
            if w > 0 {
                assert(k1[w] == t1[w - 1]);
                assert(k2[w] == t2[w - 1]);
            }
        }
        assert(k1.len() == k2.len());
        assert(k1 =~= k2);
    }
}

/// Any ascending enumeration of `dom` is the canonical one.
proof fn lemma_sorted_aliases_determined(dom: Set<Seq<char>>, ks: Seq<Seq<char>>)
    requires
        lex_sorted(ks),
        forall|a: Seq<char>| #[trigger] ks.contains(a) <==> dom.contains(a),
    ensures
        sorted_aliases(dom) == ks,
{
    assert(exists|k: Seq<Seq<char>>|
        lex_sorted(k) && (forall|a: Seq<char>| #[trigger] k.contains(a) <==> dom.contains(a)));
    let picked = sorted_aliases(dom);
    assert(lex_sorted(picked) && (forall|a: Seq<char>|
        #[trigger] picked.contains(a) <==> dom.contains(a)));
    lemma_lex_sorted_unique(picked, ks);
}

/// The identity entry injected for a type, as a (possibly empty) prefix.
pub open spec fn opt_id_model(s: Schema, oid: int) -> Seq<MergedSelectionModel> {
    match s.objects()[oid].id_field {
        Some(f) => seq![
            MergedSelectionModel::Scalar {
                name: s.fields@[f as int].name@,
                alias: None,
                arguments: Seq::empty(),
            },
        ],
        None => Seq::empty(),
    }
}

/// Re-keys already-merged entries by their re-derived aliases, later
/// entries shadowing earlier ones.
pub open spec fn rekey_models(es: Seq<MergedSelectionModel>) -> Map<Seq<char>, MergedSelectionModel>
    decreases es.len(),
{
    if es.len() == 0 {
        Map::empty()
    } else {
        rekey_models(es.drop_last()).insert(model_alias(es.last()), es.last())
    }
}

/// Folds one selection into a model map: the exact effect of the merge
/// dispatch — scalars named `id` are skipped, scalar server fields
/// insert if absent, scalar resolvers flatten transparently, and linked
/// fields create or re-merge a nested tree. An occupied alias whose
/// entry kind conflicts with the selection leaves the map unchanged;
/// `merge_admissible` excludes that state from verified merges.
pub open spec fn spec_merge_one(
    s: Schema,
    oid: int,
    m: Map<Seq<char>, MergedSelectionModel>,
    sel: Selection,
) -> Map<Seq<char>, MergedSelectionModel>
    decreases sel_rank_bound(s, schema_rank(s), oid, sel), crate::lang::sel_height(sel), 2nat,
        when s.merge_ready()
        via spec_merge_one_decreases
{
    match sel {
        Selection::ScalarField(sf) => {
            if sf.name@ == "id"@ {
                m
            } else if sf.associated_data is ServerField {
                let a = spec_alias(sf.name@, args_view(sf.arguments@));
                if m.contains_key(a) {
                    m
                } else {
                    m.insert(a, scalar_selection_model(sf))
                }
            } else {
                if 0 <= oid < s.objects().len() {
                    let flattened = resolver_flattened_selections(s, oid, sf.name@);
                    if flattened.len() == 0 {
                        m
                    } else {
                        spec_merged_map(s, oid, m, flattened)
                    }
                } else {
                    m
                }
            }
        },
        Selection::LinkedField(lf) => {
            let a = spec_alias(lf.name@, args_view(lf.arguments@));
            if m.contains_key(a) {
                match m[a] {
                    MergedSelectionModel::Linked { name, alias, arguments, selections } => m.insert(
                        a,
                        MergedSelectionModel::Linked {
                            name,
                            alias,
                            arguments,
                            selections: spec_remerged_selections(
                                s,
                                lf.associated_data as int,
                                selections,
                                lf.selection_set@,
                            ),
                        },
                    ),
                    MergedSelectionModel::Scalar { .. } => m,
                }
            } else {
                m.insert(
                    a,
                    MergedSelectionModel::Linked {
                        name: lf.name@,
                        alias: opt_string_view(lf.normalization_alias),
                        arguments: args_view(lf.arguments@),
                        selections: spec_created_selections(
                            s,
                            lf.associated_data as int,
                            lf.selection_set@,
                        ),
                    },
                )
            }
        },
    }
}

/// Folds a selection sequence into a model map, left to right.
pub open spec fn spec_merged_map(
    s: Schema,
    oid: int,
    m: Map<Seq<char>, MergedSelectionModel>,
    sels: Seq<Selection>,
) -> Map<Seq<char>, MergedSelectionModel>
    decreases sels_rank_bound(s, schema_rank(s), oid, sels), sels_height(sels), sels.len() + 3,
        when s.merge_ready()
        via spec_merged_map_decreases
{
    if sels.len() == 0 {
        m
    } else {
        spec_merge_one(s, oid, spec_merged_map(s, oid, m, sels.drop_last()), sels.last())
    }
}

/// What a merged selection set built from scratch holds: the injected
/// identity entry, then the accumulated entries in ascending alias
/// order.
pub open spec fn spec_created_selections(s: Schema, oid: int, sels: Seq<Selection>) -> Seq<
    MergedSelectionModel,
>
    decreases sels_rank_bound(s, schema_rank(s), oid, sels), sels_height(sels), sels.len() + 4,
        when s.merge_ready()
{
    opt_id_model(s, oid) + sorted_models(spec_merged_map(s, oid, Map::empty(), sels))
}

/// What re-merging new selections into an existing nested set yields:
/// the existing entries re-keyed, the new selections folded in, read
/// off in ascending alias order.
pub open spec fn spec_remerged_selections(
    s: Schema,
    oid: int,
    existing: Seq<MergedSelectionModel>,
    sels: Seq<Selection>,
) -> Seq<MergedSelectionModel>
    decreases sels_rank_bound(s, schema_rank(s), oid, sels), sels_height(sels), sels.len() + 4,
        when s.merge_ready()
{
    sorted_models(spec_merged_map(s, oid, rekey_models(existing), sels))
}

#[via_fn]
proof fn spec_merge_one_decreases(
    s: Schema,
    oid: int,
    m: Map<Seq<char>, MergedSelectionModel>,
    sel: Selection,
) {
    match sel {
        Selection::ScalarField(sf) => {
            if sf.name@ != "id"@ && sf.associated_data is ResolverField
                && 0 <= oid < s.objects().len() {
                match resolver_lookup(s, oid, sf.name@) {
                    Some(fid) => {
                        lemma_resolver_lookup_member(s, s.objects()[oid].resolvers@, sf.name@, fid);
                        assert(s.objects()[oid].wf(s.fields@));
                        assert(valid_rank(s, schema_rank(s)));
                        match s.fields@[fid].field_type {
                            DefinedField::ResolverField(info) => {
                                match info.selection_set_and_unwraps {
                                    Some(ss) => {
                                        assert(schema_rank(s).contains_key(fid));
                                        assert(sels_rank_bound(s, schema_rank(s), oid, ss.0@)
                                            <= schema_rank(s)[fid]);
                                    },
                                    None => {},
                                }
                            },
                            DefinedField::ServerField(_) => {},
                        }
                    },
                    None => {},
                }
            }
        },
        Selection::LinkedField(_) => {},
    }
}

#[via_fn]
proof fn spec_merged_map_decreases(
    s: Schema,
    oid: int,
    m: Map<Seq<char>, MergedSelectionModel>,
    sels: Seq<Selection>,
) {
    if sels.len() > 0 {
        assert(sel_rank_bound(s, schema_rank(s), oid, sels.last()) <= sels_rank_bound(
            s,
            schema_rank(s),
            oid,
            sels,
        ));
        assert(sels_rank_bound(s, schema_rank(s), oid, sels.drop_last()) <= sels_rank_bound(
            s,
            schema_rank(s),
            oid,
            sels,
        ));
        assert(crate::lang::sel_height(sels.last()) <= sels_height(sels));
        assert(sels_height(sels.drop_last()) <= sels_height(sels));
    }
}

/// Whether a resolver reached by name at this level is refetch-flagged,
/// directly or through its own flattened selections.
pub open spec fn scalar_resolver_reaches_refetch(s: Schema, oid: int, name: Seq<char>) -> bool
    decreases scalar_resolver_measure(s, oid, name), 0nat, 1nat,
        when s.merge_ready() && 0 <= oid < s.objects().len()
        via scalar_resolver_reaches_refetch_decreases
{
    match resolver_lookup(s, oid, name) {
        Some(fid) => {
            let direct = match s.fields@[fid].field_type {
                DefinedField::ResolverField(info) => info.variant == Some(
                    crate::schema::ResolverVariant::RefetchField,
                ),
                DefinedField::ServerField(_) => false,
            };
            let flattened = resolver_flattened_selections(s, oid, name);
            direct || (flattened.len() > 0 && reaches_refetch(s, oid, flattened))
        },
        None => false,
    }
}

/// Whether merging these selections at this level reaches a
/// refetch-variant resolver (linked fields handle their own levels).
pub open spec fn reaches_refetch(s: Schema, oid: int, sels: Seq<Selection>) -> bool
    decreases sels_rank_bound(s, schema_rank(s), oid, sels), sels_height(sels), sels.len() + 3,
        when s.merge_ready() && 0 <= oid < s.objects().len()
        via reaches_refetch_decreases
{
    if sels.len() == 0 {
        false
    } else {
        reaches_refetch(s, oid, sels.drop_last()) || match sels.last() {
            Selection::ScalarField(sf) => sf.name@ != "id"@ && sf.associated_data is ResolverField
                && scalar_resolver_reaches_refetch(s, oid, sf.name@),
            Selection::LinkedField(_) => false,
        }
    }
}

#[via_fn]
proof fn scalar_resolver_reaches_refetch_decreases(s: Schema, oid: int, name: Seq<char>) {
    match resolver_lookup(s, oid, name) {
        Some(fid) => {
            lemma_resolver_lookup_member(s, s.objects()[oid].resolvers@, name, fid);
            assert(s.objects()[oid].wf(s.fields@));
            assert(valid_rank(s, schema_rank(s)));
            match s.fields@[fid].field_type {
                DefinedField::ResolverField(info) => {
                    match info.selection_set_and_unwraps {
                        Some(ss) => {
                            assert(schema_rank(s).contains_key(fid));
                            assert(sels_rank_bound(s, schema_rank(s), oid, ss.0@)
                                <= schema_rank(s)[fid]);
                        },
                        None => {},
                    }
                },
                DefinedField::ServerField(_) => {},
            }
        },
        None => {},
    }
}

#[via_fn]
proof fn reaches_refetch_decreases(s: Schema, oid: int, sels: Seq<Selection>) {
    if sels.len() > 0 {
        assert(sel_rank_bound(s, schema_rank(s), oid, sels.last()) <= sels_rank_bound(
            s,
            schema_rank(s),
            oid,
            sels,
        ));
        assert(sels_rank_bound(s, schema_rank(s), oid, sels.drop_last()) <= sels_rank_bound(
            s,
            schema_rank(s),
            oid,
            sels,
        ));
        assert(sels_height(sels.drop_last()) <= sels_height(sels));
    }
}

/// Admissibility of a merge: no alias is ever claimed by a scalar and a
/// linked field at the same level — that state signals a schema or
/// merge invariant violated upstream, never a recoverable condition.
/// Merging requires admissibility, so the fault state is
/// unrepresentable in verified callers.
pub open spec fn sel_admissible(
    s: Schema,
    oid: int,
    m: Map<Seq<char>, MergedSelectionModel>,
    sel: Selection,
) -> bool
    decreases sel_rank_bound(s, schema_rank(s), oid, sel), crate::lang::sel_height(sel), 2nat,
        when s.merge_ready()
        via sel_admissible_decreases
{
    match sel {
        Selection::ScalarField(sf) => {
            if sf.name@ == "id"@ {
                true
            } else if sf.associated_data is ServerField {
                let a = spec_alias(sf.name@, args_view(sf.arguments@));
                m.contains_key(a) ==> m[a] is Scalar
            } else {
                if 0 <= oid < s.objects().len() {
                    let flattened = resolver_flattened_selections(s, oid, sf.name@);
                    flattened.len() == 0 || merge_admissible(s, oid, m, flattened)
                } else {
                    true
                }
            }
        },
        Selection::LinkedField(lf) => {
            let a = spec_alias(lf.name@, args_view(lf.arguments@));
            if m.contains_key(a) {
                m[a] matches MergedSelectionModel::Linked { selections, .. } && merge_admissible(
                    s,
                    lf.associated_data as int,
                    rekey_models(selections),
                    lf.selection_set@,
                )
            } else {
                merge_admissible(s, lf.associated_data as int, Map::empty(), lf.selection_set@)
            }
        },
    }
}

pub open spec fn merge_admissible(
    s: Schema,
    oid: int,
    m: Map<Seq<char>, MergedSelectionModel>,
    sels: Seq<Selection>,
) -> bool
    decreases sels_rank_bound(s, schema_rank(s), oid, sels), sels_height(sels), sels.len() + 3,
        when s.merge_ready()
        via merge_admissible_decreases
{
    if sels.len() == 0 {
        true
    } else {
        merge_admissible(s, oid, m, sels.drop_last()) && sel_admissible(
            s,
            oid,
            spec_merged_map(s, oid, m, sels.drop_last()),
            sels.last(),
        )
    }
}

#[via_fn]
proof fn sel_admissible_decreases(
    s: Schema,
    oid: int,
    m: Map<Seq<char>, MergedSelectionModel>,
    sel: Selection,
) {
    match sel {
        Selection::ScalarField(sf) => {
            if sf.name@ != "id"@ && sf.associated_data is ResolverField
                && 0 <= oid < s.objects().len() {
                match resolver_lookup(s, oid, sf.name@) {
                    Some(fid) => {
                        lemma_resolver_lookup_member(s, s.objects()[oid].resolvers@, sf.name@, fid);
                        assert(s.objects()[oid].wf(s.fields@));
                        assert(valid_rank(s, schema_rank(s)));
                        match s.fields@[fid].field_type {
                            DefinedField::ResolverField(info) => {
                                match info.selection_set_and_unwraps {
                                    Some(ss) => {
                                        assert(schema_rank(s).contains_key(fid));
                                        assert(sels_rank_bound(s, schema_rank(s), oid, ss.0@)
                                            <= schema_rank(s)[fid]);
                                    },
                                    None => {},
                                }
                            },
                            DefinedField::ServerField(_) => {},
                        }
                    },
                    None => {},
                }
            }
        },
        Selection::LinkedField(_) => {},
    }
}

#[via_fn]
proof fn merge_admissible_decreases(
    s: Schema,
    oid: int,
    m: Map<Seq<char>, MergedSelectionModel>,
    sels: Seq<Selection>,
) {
    if sels.len() > 0 {
        assert(sel_rank_bound(s, schema_rank(s), oid, sels.last()) <= sels_rank_bound(
            s,
            schema_rank(s),
            oid,
            sels,
        ));
        assert(sels_rank_bound(s, schema_rank(s), oid, sels.drop_last()) <= sels_rank_bound(
            s,
            schema_rank(s),
            oid,
            sels,
        ));
        assert(crate::lang::sel_height(sels.last()) <= sels_height(sels));
        assert(sels_height(sels.drop_last()) <= sels_height(sels));
    }
}

/// Admissibility of the whole holds of each step.
proof fn lemma_admissible_at(
    s: Schema,
    oid: int,
    m: Map<Seq<char>, MergedSelectionModel>,
    sels: Seq<Selection>,
    i: int,
)
    requires
        s.merge_ready(),
        merge_admissible(s, oid, m, sels),
        0 <= i < sels.len(),
    ensures
        sel_admissible(s, oid, spec_merged_map(s, oid, m, sels.subrange(0, i)), sels[i]),
    decreases sels.len(),
{
    if i == sels.len() - 1 {
        assert(sels.subrange(0, i) =~= sels.drop_last());
    } else {
        lemma_admissible_at(s, oid, m, sels.drop_last(), i);
        assert(sels.drop_last().subrange(0, i) =~= sels.subrange(0, i));
        assert(sels.drop_last()[i] == sels[i]);
    }
}

/// The contents of variable definitions, for pinning copies.
pub open spec fn vars_view(v: Seq<VariableDefinition>) -> Seq<(Seq<char>, Seq<char>)> {
    v.map(|i: int, d: VariableDefinition| (d.name@, d.declared_type@))
}

/// Inserting into the underlying map inserts the model.
proof fn lemma_map_models_insert(
    m: Map<Seq<char>, MergedServerFieldSelection>,
    a: Seq<char>,
    e: MergedServerFieldSelection,
)
    ensures
        map_models(m.insert(a, e)) == map_models(m).insert(a, merged_view(e)),
{
    assert(map_models(m.insert(a, e)) =~= map_models(m).insert(a, merged_view(e)));
}

proof fn lemma_sels_keys_membership(s: Schema, oid: int, sels: Seq<Selection>, a: Seq<char>)
    requires
        s.merge_ready(),
        0 <= oid < s.objects().len(),
    ensures
        sels_keys(s, oid, sels).contains(a) <==> exists|i: int|
            0 <= i < sels.len() && sel_keys(s, oid, #[trigger] sels[i]).contains(a),
    decreases sels.len(),
{
    if sels.len() > 0 {
        lemma_sels_keys_membership(s, oid, sels.drop_last(), a);
        if sels_keys(s, oid, sels).contains(a) {
            if sels_keys(s, oid, sels.drop_last()).contains(a) {
                let i = choose|i: int|
                    0 <= i < sels.drop_last().len() && sel_keys(
                        s,
                        oid,
                        #[trigger] sels.drop_last()[i],
                    ).contains(a);
                assert(sels[i] == sels.drop_last()[i]);
                assert(sel_keys(s, oid, sels[i]).contains(a));
            } else {
                assert(sel_keys(s, oid, sels[sels.len() - 1]).contains(a));
            }
        }
        if exists|i: int| 0 <= i < sels.len() && sel_keys(s, oid, #[trigger] sels[i]).contains(a) {
            let i = choose|i: int|
                0 <= i < sels.len() && sel_keys(s, oid, #[trigger] sels[i]).contains(a);
            if i < sels.len() - 1 {
                assert(sels.drop_last()[i] == sels[i]);
            }
        }
    }
}

/// Order-independence on the input side: the keys a merge accumulates
/// depend only on which selections are present, not on their order or
/// their multiplicity. Together with `create_merged_selection_set`'s
/// contract — the output's keys are exactly these plus the identity
/// marker — and `lemma_canonical_form_unique`, merging the same
/// selections in any permutation yields the same canonically ordered
/// key sequence.
pub proof fn lemma_sels_keys_order_independent(
    s: Schema,
    oid: int,
    sels1: Seq<Selection>,
    sels2: Seq<Selection>,
)
    requires
        s.merge_ready(),
        0 <= oid < s.objects().len(),
        forall|x: Selection| sels1.contains(x) <==> sels2.contains(x),
    ensures
        sels_keys(s, oid, sels1) == sels_keys(s, oid, sels2),
{
    assert forall|a: Seq<char>| #[trigger] sels_keys(s, oid, sels1).contains(a) implies sels_keys(
        s,
        oid,
        sels2,
    ).contains(a) by {
        lemma_sels_keys_membership(s, oid, sels1, a);
        lemma_sels_keys_membership(s, oid, sels2, a);
        let i = choose|i: int|
            0 <= i < sels1.len() && sel_keys(s, oid, #[trigger] sels1[i]).contains(a);
        assert(sels1.contains(sels1[i]));
        assert(sels2.contains(sels1[i]));
        let j = choose|j: int| 0 <= j < sels2.len() && sels2[j] == sels1[i];
        assert(sel_keys(s, oid, sels2[j]).contains(a));
    }
    assert forall|a: Seq<char>| #[trigger] sels_keys(s, oid, sels2).contains(a) implies sels_keys(
        s,
        oid,
        sels1,
    ).contains(a) by {
        lemma_sels_keys_membership(s, oid, sels1, a);
        lemma_sels_keys_membership(s, oid, sels2, a);
        let i = choose|i: int|
            0 <= i < sels2.len() && sel_keys(s, oid, #[trigger] sels2[i]).contains(a);
        assert(sels2.contains(sels2[i]));
        assert(sels1.contains(sels2[i]));
        let j = choose|j: int| 0 <= j < sels1.len() && sels1[j] == sels2[i];
        assert(sel_keys(s, oid, sels1[j]).contains(a));
    }
    assert(sels_keys(s, oid, sels1) =~= sels_keys(s, oid, sels2));
}

/// Appending one selection extends the accumulated keys by exactly its
/// contribution.
proof fn lemma_sels_keys_snoc(s: Schema, oid: int, sels: Seq<Selection>, i: int)
    requires
        s.merge_ready(),
        0 <= oid < s.objects().len(),
        0 <= i < sels.len(),
    ensures
        sels_keys(s, oid, sels.subrange(0, i + 1)) == sels_keys(s, oid, sels.subrange(0, i)).union(
            sel_keys(s, oid, sels[i]),
        ),
{
    let p = sels.subrange(0, i + 1);
    assert(p.drop_last() =~= sels.subrange(0, i));
    assert(p.last() == sels[i]);
}

// ---------------------------------------------------------------------
// Accumulator invariant, queue contract, copies
// ---------------------------------------------------------------------

/// Every accumulated entry sits under its own re-derived alias and is
/// well-formed in depth.
pub open spec fn map_entries_ok(m: Map<Seq<char>, MergedServerFieldSelection>) -> bool {
    forall|k: Seq<char>|
        #[trigger] m.contains_key(k) ==> model_alias(merged_view(m[k])) == k
            && model_wf(merged_view(m[k]))
}

/// Merging only appends to the artifact queue, and appends only
/// well-formed refetch artifacts.
pub open spec fn queue_extended(q0: Seq<ArtifactQueueItem>, q1: Seq<ArtifactQueueItem>) -> bool {
    &&& q1.len() >= q0.len()
    &&& forall|i: int| 0 <= i < q0.len() ==> q1[i] == q0[i]
    &&& forall|i: int|
        q0.len() <= i < q1.len() ==> ((#[trigger] q1[i]) matches ArtifactQueueItem::RefetchField(
            info,
        ) && info.merged_selection_set.wf())
}

pub proof fn lemma_queue_extended_trans(
    q0: Seq<ArtifactQueueItem>,
    q1: Seq<ArtifactQueueItem>,
    q2: Seq<ArtifactQueueItem>,
)
    requires
        queue_extended(q0, q1),
        queue_extended(q1, q2),
    ensures
        queue_extended(q0, q2),
{
    assert forall|i: int|
        q0.len() <= i < q2.len() implies (#[trigger] q2[i]) matches ArtifactQueueItem::RefetchField(
        info,
    ) && info.merged_selection_set.wf() by {
        if i < q1.len() {
            assert(q2[i] == q1[i]);
        }
    }
}

fn copy_arguments(args: &Vec<SelectionFieldArgument>) -> (r: Vec<SelectionFieldArgument>)
    ensures
        args_view(r@) == args_view(args@),
        r@.len() == args@.len(),
{
    let mut r: Vec<SelectionFieldArgument> = Vec::new();
    let n = args.len();
    let mut i: usize = 0;
    while i < n
        invariant
            n == args@.len(),
            i <= n,
            r@.len() == i,
            forall|j: int|
                0 <= j < i ==> (#[trigger] r@[j]).name@ == args@[j].name@
                    && r@[j].value@ == args@[j].value@,
        decreases n - i,
    {
        let a = &args[i];
        r.push(SelectionFieldArgument { name: a.name.clone(), value: a.value.clone() });
        i = i + 1;
    }
    proof {
        assert(args_view(r@) =~= args_view(args@));
    }
    r
}

fn copy_opt_string(o: &Option<String>) -> (r: Option<String>)
    ensures
        opt_string_view(r) == opt_string_view(*o),
{
    match o {
        Some(s) => Some(s.clone()),
        None => None,
    }
}

fn copy_variable_definitions(defs: &Vec<VariableDefinition>) -> (r: Vec<VariableDefinition>)
    ensures
        r@.len() == defs@.len(),
        forall|j: int|
            0 <= j < defs@.len() ==> (#[trigger] r@[j]).name@ == defs@[j].name@
                && r@[j].declared_type@ == defs@[j].declared_type@,
{
    let mut r: Vec<VariableDefinition> = Vec::new();
    let n = defs.len();
    let mut i: usize = 0;
    while i < n
        invariant
            n == defs@.len(),
            i <= n,
            r@.len() == i,
            forall|j: int|
                0 <= j < i ==> (#[trigger] r@[j]).name@ == defs@[j].name@
                    && r@[j].declared_type@ == defs@[j].declared_type@,
        decreases n - i,
    {
        let d = &defs[i];
        r.push(VariableDefinition { name: d.name.clone(), declared_type: d.declared_type.clone() });
        i = i + 1;
    }
    r
}

/// Deep copy of a merged entry, preserving its model.
fn copy_merged_selection(e: &MergedServerFieldSelection) -> (r: MergedServerFieldSelection)
    ensures
        merged_view(r) == merged_view(*e),
    decreases *e,
{
    match e {
        MergedServerFieldSelection::ScalarField(s) => MergedServerFieldSelection::ScalarField(
            MergedScalarFieldSelection {
                name: s.name.clone(),
                normalization_alias: copy_opt_string(&s.normalization_alias),
                arguments: copy_arguments(&s.arguments),
            },
        ),
        MergedServerFieldSelection::LinkedField(l) => MergedServerFieldSelection::LinkedField(
            MergedLinkedFieldSelection {
                name: l.name.clone(),
                normalization_alias: copy_opt_string(&l.normalization_alias),
                selection_set: copy_merged_selections(&l.selection_set),
                arguments: copy_arguments(&l.arguments),
            },
        ),
    }
}

fn copy_merged_selections(v: &Vec<MergedServerFieldSelection>) -> (r: Vec<MergedServerFieldSelection>)
    ensures
        merged_sels_view(r@) == merged_sels_view(v@),
        r@.len() == v@.len(),
    decreases v@,
{
    let mut r: Vec<MergedServerFieldSelection> = Vec::new();
    let n = v.len();
    let mut i: usize = 0;
    while i < n
        invariant
            n == v@.len(),
            i <= n,
            r@.len() == i,
            merged_sels_view(r@) == merged_sels_view(v@.subrange(0, i as int)),
        decreases n - i,
    {
        let ghost r_old = r@;
        let e = copy_merged_selection(&v[i]);
        r.push(e);
        proof {
            assert(r@.drop_last() == r_old);
            assert(v@.subrange(0, i as int + 1).drop_last() =~= v@.subrange(0, i as int));
            assert(v@.subrange(0, i as int + 1).last() == v@[i as int]);
        }
        i = i + 1;
    }
    proof {
        assert(v@.subrange(0, n as int) =~= v@);
    }
    r
}

/// Deep copy of a merged selection set, key-for-key.
fn copy_merged_selection_set(m: &MergedSelectionSet) -> (r: MergedSelectionSet)
    requires
        m.wf(),
    ensures
        r.wf(),
        merged_sels_view(r.selections@) == merged_sels_view(m.selections@),
        r.keys@ == m.keys@,
{
    let selections = copy_merged_selections(&m.selections);
    let r = MergedSelectionSet { selections, keys: Ghost(m.keys@) };
    proof {
        assert forall|i: int| 0 <= i < r.selections@.len() implies merged_view(
            #[trigger] r.selections@[i],
        ) == merged_view(m.selections@[i]) by {
            lemma_merged_sels_view_index(r.selections@, i);
            lemma_merged_sels_view_index(m.selections@, i);
        }
    }
    r
}

// ---------------------------------------------------------------------
// The merge engine
// ---------------------------------------------------------------------

/// Selections that survive the identity filter: any scalar selection
/// literally named `id` is dropped, because the identity field is
/// re-injected separately. This is a name check, not a true identity
/// check: a non-identity field named `id` is also dropped.
pub open spec fn spec_keeps_selection(sel: Selection) -> bool {
    match sel {
        Selection::ScalarField(sf) => sf.name@ != "id"@,
        Selection::LinkedField(_) => true,
    }
}

fn filter_id_fields(field: &Selection) -> (r: bool)
    ensures
        r == spec_keeps_selection(*field),
{
    match field {
        Selection::ScalarField(scalar_field) => {
            let id = String::from_str("id");
            let is_id = scalar_field.name == id;
            !is_id
        },
        Selection::LinkedField(_) => true,
    }
}

/// In order to avoid requiring a normalization AST, the variables used
/// are written into the alias: the field name, then for each argument
/// `__{name}_{value}` with the value's leading sigil stripped.
fn combine_name_and_variables_into_normalization_alias(
    name: &String,
    arguments: &Vec<SelectionFieldArgument>,
) -> (r: String)
    requires
        args_wf(arguments@),
    ensures
        r@ == spec_alias(name@, args_view(arguments@)),
{
    if arguments.len() == 0 {
        return name.clone();
    }
    let mut alias_str = name.clone();
    let n = arguments.len();
    proof {
        assert(args_view(arguments@).skip(0) =~= args_view(arguments@));
    }
    let mut i: usize = 0;
    while i < n
        invariant
            n == arguments@.len(),
            i <= n,
            args_wf(arguments@),
            alias_fold(name@, args_view(arguments@)) == alias_fold(
                alias_str@,
                args_view(arguments@).skip(i as int),
            ),
        decreases n - i,
    {
        let argument = &arguments[i];
        let ghost before = alias_str@;
        alias_str.append("__");
        alias_str.append(argument.name.as_str());
        alias_str.append("_");
        let value_len = argument.value.as_str().unicode_len();
        proof {
            assert(arguments@[i as int].value@.len() > 0);
        }
        let suffix = argument.value.as_str().substring_char(1, value_len);
        alias_str.append(suffix);
        proof {
            let av = args_view(arguments@);
            assert(av[i as int] == (arguments@[i as int].name@, arguments@[i as int].value@));
            assert(suffix@ =~= arguments@[i as int].value@.skip(1));
            assert(alias_str@ == before + "__"@ + argument.name@ + "_"@ + suffix@);
            assert(av.skip(i as int)[0] == av[i as int]);
            assert(av.skip(i as int).drop_first() =~= av.skip(i as int + 1));
        }
        i = i + 1;
    }
    proof {
        assert(args_view(arguments@).skip(n as int).len() == 0);
    }
    alias_str
}

/// Finds the resolver field named `name` on the parent object, first
/// match among the object's resolvers.
fn lookup_resolver_field(schema: &Schema, parent_type: &ObjectType, name: &String) -> (r: Option<
    usize,
>)
    requires
        schema.wf(),
        parent_type.id < schema.objects().len(),
        *parent_type == schema.objects()[parent_type.id as int],
    ensures
        match r {
            Some(fid) => {
                &&& resolver_lookup(*schema, parent_type.id as int, name@) == Some(fid as int)
                &&& fid < schema.fields@.len()
                &&& schema.fields@[fid as int].field_type is ResolverField
                &&& schema.fields@[fid as int].parent_type_id == parent_type.id
            },
            None => resolver_lookup(*schema, parent_type.id as int, name@) is None,
        },
{
    let n = parent_type.resolvers.len();
    let ghost rs = parent_type.resolvers@;
    proof {
        assert(rs.skip(0) =~= rs);
        assert(parent_type.wf(schema.fields@));
    }
    let mut k: usize = 0;
    while k < n
        invariant
            schema.wf(),
            parent_type.id < schema.objects().len(),
            *parent_type == schema.objects()[parent_type.id as int],
            n == rs.len(),
            rs == parent_type.resolvers@,
            k <= n,
            resolver_lookup_at(*schema, rs, name@) == resolver_lookup_at(
                *schema,
                rs.skip(k as int),
                name@,
            ),
        decreases n - k,
    {
        let field_id = parent_type.resolvers[k];
        proof {
            assert(parent_type.wf(schema.fields@));
            assert(rs.skip(k as int)[0] == rs[k as int]);
        }
        if schema.fields[field_id].name == *name {
            return Some(field_id);
        }
        proof {
            assert(rs.skip(k as int).drop_first() =~= rs.skip(k as int + 1));
        }
        k = k + 1;
    }
    proof {
        assert(rs.skip(n as int).len() == 0);
    }
    None
}

/// Merges one scalar server field into the accumulator: a fresh alias
/// gets a new entry; an occupied alias keeps its existing entry (the
/// entries are assumed structurally equivalent; no deep check is made,
/// and a linked entry under the same alias — a violated upstream
/// invariant — is likewise left as it is).
fn merge_scalar_server_field(
    scalar_field: &ScalarFieldSelection,
    merged_selection_set: &mut AliasMap,
)
    requires
        old(merged_selection_set).wf(),
        map_entries_ok(old(merged_selection_set)@),
        args_wf(scalar_field.arguments@),
    ensures
        final(merged_selection_set).wf(),
        map_entries_ok(final(merged_selection_set)@),
        final(merged_selection_set)@.dom() == old(merged_selection_set)@.dom().insert(
            spec_alias(scalar_field.name@, args_view(scalar_field.arguments@)),
        ),
        old(merged_selection_set)@.contains_key(
            spec_alias(scalar_field.name@, args_view(scalar_field.arguments@)),
        ) ==> final(merged_selection_set)@ == old(merged_selection_set)@,
        map_models(final(merged_selection_set)@) == ({
            let a = spec_alias(scalar_field.name@, args_view(scalar_field.arguments@));
            if old(merged_selection_set)@.contains_key(a) {
                map_models(old(merged_selection_set)@)
            } else {
                map_models(old(merged_selection_set)@).insert(
                    a,
                    scalar_selection_model(*scalar_field),
                )
            }
        }),
{
    let normalization_key = combine_name_and_variables_into_normalization_alias(
        &scalar_field.name,
        &scalar_field.arguments,
    );
    let occupied = match merged_selection_set.get(&normalization_key) {
        Some(_) => true,
        None => false,
    };
    proof {
        if occupied {
            assert(merged_selection_set@.dom() =~= merged_selection_set@.dom().insert(
                normalization_key@,
            ));
        }
    }
    if !occupied {
        let entry = MergedServerFieldSelection::ScalarField(MergedScalarFieldSelection {
            name: scalar_field.name.clone(),
            arguments: copy_arguments(&scalar_field.arguments),
            normalization_alias: copy_opt_string(&scalar_field.normalization_alias),
        });
        proof {
            assert(args_view(scalar_field.arguments@).len() == scalar_field.arguments@.len());
            assert(model_alias(merged_view(entry)) == normalization_key@);
            assert(merged_view(entry) == scalar_selection_model(*scalar_field));
            assert forall|j: int|
                0 <= j < args_view(scalar_field.arguments@).len() implies (#[trigger] args_view(
                scalar_field.arguments@,
            )[j]).1.len() > 0 by {
                assert(scalar_field.arguments@[j].value@.len() > 0);
            }
        }
        let ghost before = merged_selection_set@;
        merged_selection_set.insert_new(normalization_key, entry);
        proof {
            lemma_map_models_insert(before, normalization_key@, entry);
        }
    }
}

/// The rank-derived measure of one scalar resolver reference, used for
/// termination of the merge recursion.
pub open spec fn scalar_resolver_measure(s: Schema, oid: int, name: Seq<char>) -> nat {
    match resolver_lookup(s, oid, name) {
        Some(fid) => if schema_rank(s).contains_key(fid) {
            (schema_rank(s)[fid] + 1) as nat
        } else {
            0
        },
        None => 0,
    }
}

/// Merges one scalar resolver field: the resolver's own selections are
/// merged transparently into the same accumulator at the same level,
/// and a refetch-variant resolver marks the level as refetching.
fn merge_scalar_resolver_field(
    scalar_field: &ScalarFieldSelection,
    parent_type: &ObjectType,
    schema: &Schema,
    merged_selection_set: &mut AliasMap,
    encountered_refetch_field: &mut bool,
    artifact_queue: &mut Vec<ArtifactQueueItem>,
    variable_definitions: &Vec<VariableDefinition>,
)
    requires
        schema.merge_ready(),
        parent_type.id < schema.objects().len(),
        *parent_type == schema.objects()[parent_type.id as int],
        resolver_lookup(*schema, parent_type.id as int, scalar_field.name@) is Some,
        old(merged_selection_set).wf(),
        map_entries_ok(old(merged_selection_set)@),
        resolver_flattened_selections(*schema, parent_type.id as int, scalar_field.name@).len()
            == 0 || merge_admissible(
            *schema,
            parent_type.id as int,
            map_models(old(merged_selection_set)@),
            resolver_flattened_selections(*schema, parent_type.id as int, scalar_field.name@),
        ),
    ensures
        final(merged_selection_set).wf(),
        map_entries_ok(final(merged_selection_set)@),
        queue_extended(old(artifact_queue)@, final(artifact_queue)@),
        final(merged_selection_set)@.dom() == old(merged_selection_set)@.dom().union(
            scalar_resolver_keys(*schema, parent_type.id as int, scalar_field.name@),
        ),
        map_models(final(merged_selection_set)@) == ({
            let flattened = resolver_flattened_selections(
                *schema,
                parent_type.id as int,
                scalar_field.name@,
            );
            if flattened.len() == 0 {
                map_models(old(merged_selection_set)@)
            } else {
                spec_merged_map(
                    *schema,
                    parent_type.id as int,
                    map_models(old(merged_selection_set)@),
                    flattened,
                )
            }
        }),
        *final(encountered_refetch_field) == (*old(encountered_refetch_field)
            || scalar_resolver_reaches_refetch(*schema, parent_type.id as int, scalar_field.name@)),
    decreases scalar_resolver_measure(*schema, parent_type.id as int, scalar_field.name@), 0nat, 0int,
{
    let parent_field_id = match lookup_resolver_field(schema, parent_type, &scalar_field.name) {
        Some(fid) => fid,
        None => {
            proof {
                assert(false);
            }
            unreached()
        },
    };
    let resolver_field = schema.resolver(parent_field_id);
    let ghost flattened = resolver_flattened_selections(
        *schema,
        parent_type.id as int,
        scalar_field.name@,
    );
    if let Some((selection_set, _unwraps)) = &resolver_field.selection_set_and_unwraps {
        proof {
            assert(valid_rank(*schema, schema_rank(*schema)));
            assert(schema.fields@[parent_field_id as int].field_type
                == DefinedField::<(), crate::schema::ResolverDefinitionInfo>::ResolverField(
                *resolver_field,
            ));
            assert(sels_valid(*schema, parent_type.id as int, selection_set@));
            assert(schema_rank(*schema).contains_key(parent_field_id as int));
            assert(sels_rank_bound(
                *schema,
                schema_rank(*schema),
                parent_type.id as int,
                selection_set@,
            ) <= schema_rank(*schema)[parent_field_id as int]);
        }
        proof {
            assert(flattened == selection_set@);
        }
        merge_selections_into_set(
            schema,
            merged_selection_set,
            parent_type,
            selection_set,
            encountered_refetch_field,
            artifact_queue,
            variable_definitions,
        );
        proof {
            if flattened.len() == 0 {
                assert(merged_selection_set@.dom() =~= old(merged_selection_set)@.dom().union(
                    scalar_resolver_keys(*schema, parent_type.id as int, scalar_field.name@),
                ));
                assert(map_models(merged_selection_set@) == map_models(
                    old(merged_selection_set)@,
                ));
            }
        }
    } else {
        proof {
            assert(flattened.len() == 0);
            assert(merged_selection_set@.dom() =~= old(merged_selection_set)@.dom().union(
                scalar_resolver_keys(*schema, parent_type.id as int, scalar_field.name@),
            ));
        }
    }
    let is_refetch = match &resolver_field.variant {
        Some(crate::schema::ResolverVariant::RefetchField) => true,
        _ => false,
    };
    if is_refetch {
        *encountered_refetch_field = true;
    }
    proof {
        assert(schema.fields@[parent_field_id as int].field_type
            == DefinedField::<(), crate::schema::ResolverDefinitionInfo>::ResolverField(
            *resolver_field,
        ));
        assert(scalar_resolver_reaches_refetch(*schema, parent_type.id as int, scalar_field.name@)
            == (is_refetch || (flattened.len() > 0 && reaches_refetch(
            *schema,
            parent_type.id as int,
            flattened,
        ))));
    }
}

/// Folds a sequence of validated selections into the accumulator,
/// dispatching by selection kind. Scalar selections named `id` are
/// filtered out; the identity field is injected separately.
fn merge_selections_into_set(
    schema: &Schema,
    merged_selection_set: &mut AliasMap,
    parent_type: &ObjectType,
    validated_selections: &Vec<Selection>,
    encountered_refetch_field: &mut bool,
    artifact_queue: &mut Vec<ArtifactQueueItem>,
    variable_definitions: &Vec<VariableDefinition>,
)
    requires
        schema.merge_ready(),
        parent_type.id < schema.objects().len(),
        *parent_type == schema.objects()[parent_type.id as int],
        sels_valid(*schema, parent_type.id as int, validated_selections@),
        old(merged_selection_set).wf(),
        map_entries_ok(old(merged_selection_set)@),
        merge_admissible(
            *schema,
            parent_type.id as int,
            map_models(old(merged_selection_set)@),
            validated_selections@,
        ),
    ensures
        final(merged_selection_set).wf(),
        map_entries_ok(final(merged_selection_set)@),
        queue_extended(old(artifact_queue)@, final(artifact_queue)@),
        final(merged_selection_set)@.dom() == old(merged_selection_set)@.dom().union(
            sels_keys(*schema, parent_type.id as int, validated_selections@),
        ),
        map_models(final(merged_selection_set)@) == spec_merged_map(
            *schema,
            parent_type.id as int,
            map_models(old(merged_selection_set)@),
            validated_selections@,
        ),
        *final(encountered_refetch_field) == (*old(encountered_refetch_field) || reaches_refetch(
            *schema,
            parent_type.id as int,
            validated_selections@,
        )),
    decreases sels_rank_bound(
        *schema,
        schema_rank(*schema),
        parent_type.id as int,
        validated_selections@,
    ), sels_height(validated_selections@), 1int,
{
    let ghost oid = parent_type.id as int;
    let ghost rank = schema_rank(*schema);
    let ghost sels = validated_selections@;
    let ghost dom0 = merged_selection_set@.dom();
    let ghost models0 = map_models(merged_selection_set@);
    proof {
        assert(sels.subrange(0, 0) =~= Seq::<Selection>::empty());
        assert(dom0 =~= dom0.union(sels_keys(*schema, oid, sels.subrange(0, 0))));
    }
    let n = validated_selections.len();
    let mut i: usize = 0;
    while i < n
        invariant
            schema.merge_ready(),
            parent_type.id < schema.objects().len(),
            *parent_type == schema.objects()[parent_type.id as int],
            oid == parent_type.id as int,
            rank == schema_rank(*schema),
            sels == validated_selections@,
            sels_valid(*schema, oid, sels),
            n == sels.len(),
            i <= n,
            merged_selection_set.wf(),
            map_entries_ok(merged_selection_set@),
            dom0 == old(merged_selection_set)@.dom(),
            models0 == map_models(old(merged_selection_set)@),
            merge_admissible(*schema, oid, models0, sels),
            merged_selection_set@.dom() == dom0.union(
                sels_keys(*schema, oid, sels.subrange(0, i as int)),
            ),
            map_models(merged_selection_set@) == spec_merged_map(
                *schema,
                oid,
                models0,
                sels.subrange(0, i as int),
            ),
            queue_extended(old(artifact_queue)@, artifact_queue@),
            *encountered_refetch_field == (*old(encountered_refetch_field) || reaches_refetch(
                *schema,
                oid,
                sels.subrange(0, i as int),
            )),
        decreases n - i,
    {
        let ghost q_loop = artifact_queue@;
        let ghost dom_loop = merged_selection_set@.dom();
        let ghost models_loop = map_models(merged_selection_set@);
        let validated_selection = &validated_selections[i];
        proof {
            assert(sel_valid(*schema, oid, sels[i as int]));
            lemma_sels_rank_bound_index(*schema, rank, oid, sels, i as int);
            crate::lang::lemma_sels_height_index(sels, i as int);
            lemma_admissible_at(*schema, oid, models0, sels, i as int);
            assert(sel_admissible(*schema, oid, models_loop, sels[i as int]));
        }
        if filter_id_fields(validated_selection) {
            match validated_selection {
                Selection::ScalarField(scalar_field) => {
                    match &scalar_field.associated_data {
                        DefinedField::ServerField(_) => {
                            merge_scalar_server_field(scalar_field, merged_selection_set);
                        },
                        DefinedField::ResolverField(_) => {
                            merge_scalar_resolver_field(
                                scalar_field,
                                parent_type,
                                schema,
                                merged_selection_set,
                                encountered_refetch_field,
                                artifact_queue,
                                variable_definitions,
                            );
                        },
                    }
                },
                Selection::LinkedField(new_linked_field) => {
                    let normalization_key = combine_name_and_variables_into_normalization_alias(
                        &new_linked_field.name,
                        &new_linked_field.arguments,
                    );
                    let ghost m0 = merged_selection_set@;
                    match merged_selection_set.remove(&normalization_key) {
                        Some(MergedServerFieldSelection::ScalarField(existing_scalar)) => {
                            // A scalar entry under a linked field's key is
                            // the fault state that admissibility excludes.
                            proof {
                                assert(m0.contains_key(normalization_key@));
                                assert(MergedServerFieldSelection::ScalarField(existing_scalar)
                                    == m0[normalization_key@]);
                                assert(models_loop[normalization_key@] == merged_view(
                                    m0[normalization_key@],
                                ));
                                assert(false);
                            }
                            unreached()
                        },
                        Some(MergedServerFieldSelection::LinkedField(existing_linked_field)) => {
                            let ghost entry0 = MergedServerFieldSelection::LinkedField(
                                existing_linked_field,
                            );
                            proof {
                                assert(m0.contains_key(normalization_key@));
                                assert(entry0 == m0[normalization_key@]);
                                assert(model_alias(merged_view(entry0)) == normalization_key@);
                                assert(model_wf(merged_view(entry0)));
                                lemma_merged_sels_view_len(
                                    existing_linked_field.selection_set@,
                                );
                                assert(models_loop.contains_key(normalization_key@));
                                assert(models_loop[normalization_key@] == merged_view(entry0));
                            }
                            let linked_field_parent_type = schema.object(
                                new_linked_field.associated_data,
                            );
                            let MergedLinkedFieldSelection {
                                name,
                                normalization_alias,
                                selection_set: existing_nested,
                                arguments,
                            } = existing_linked_field;
                            proof {
                                let em = merged_view(entry0);
                                assert(existing_nested == existing_linked_field.selection_set);
                                assert forall|l: int|
                                    0 <= l < existing_nested@.len() implies model_wf(merged_view(
                                    #[trigger] existing_nested@[l],
                                )) by {
                                    lemma_merged_sels_view_index(existing_nested@, l);
                                    match em {
                                        MergedSelectionModel::Linked { selections, .. } => {
                                            assert(selections == merged_sels_view(
                                                existing_nested@,
                                            ));
                                            assert(model_wf(selections[l]));
                                        },
                                        MergedSelectionModel::Scalar { .. } => {
                                            assert(false);
                                        },
                                    }
                                }
                            }
                            let merged_nested = merge_linked_fields(
                                schema,
                                existing_nested,
                                &new_linked_field.selection_set,
                                linked_field_parent_type,
                                artifact_queue,
                                variable_definitions,
                            );
                            let new_entry = MergedServerFieldSelection::LinkedField(
                                MergedLinkedFieldSelection {
                                    name,
                                    normalization_alias,
                                    selection_set: merged_nested,
                                    arguments,
                                },
                            );
                            proof {
                                let old_model = merged_view(entry0);
                                let new_model = merged_view(new_entry);
                                assert(model_alias(new_model) == model_alias(old_model));
                                assert(model_args_wf(args_view(arguments@)));
                                lemma_merged_sels_view_len(merged_nested@);
                                assert forall|l: int|
                                    0 <= l < merged_sels_view(merged_nested@).len()
                                    implies model_wf(#[trigger] merged_sels_view(
                                    merged_nested@,
                                )[l]) by {
                                    lemma_merged_sels_view_index(merged_nested@, l);
                                }
                                assert(model_wf(new_model));
                            }
                            let ghost map_before_insert = merged_selection_set@;
                            merged_selection_set.insert_new(normalization_key, new_entry);
                            proof {
                                assert(map_models(map_before_insert) =~= models_loop.remove(
                                    normalization_key@,
                                ));
                                lemma_map_models_insert(
                                    map_before_insert,
                                    normalization_key@,
                                    new_entry,
                                );
                                assert(map_models(merged_selection_set@) =~= models_loop.insert(
                                    normalization_key@,
                                    merged_view(new_entry),
                                ));
                            }
                        },
                        None => {
                            let linked_field_parent_type = schema.object(
                                new_linked_field.associated_data,
                            );
                            let nested_merged = create_merged_selection_set(
                                schema,
                                linked_field_parent_type,
                                &new_linked_field.selection_set,
                                artifact_queue,
                                variable_definitions,
                            );
                            let MergedSelectionSet { selections: nested_vec, keys: _nested_keys } =
                                nested_merged;
                            let new_entry = MergedServerFieldSelection::LinkedField(
                                MergedLinkedFieldSelection {
                                    name: new_linked_field.name.clone(),
                                    normalization_alias: copy_opt_string(
                                        &new_linked_field.normalization_alias,
                                    ),
                                    selection_set: nested_vec,
                                    arguments: copy_arguments(&new_linked_field.arguments),
                                },
                            );
                            proof {
                                assert(model_alias(merged_view(new_entry)) == normalization_key@);
                                lemma_merged_sels_view_len(nested_vec@);
                                assert forall|l: int|
                                    0 <= l < merged_sels_view(nested_vec@).len()
                                    implies model_wf(#[trigger] merged_sels_view(
                                    nested_vec@,
                                )[l]) by {
                                    lemma_merged_sels_view_index(nested_vec@, l);
                                }
                                assert forall|l: int|
                                    0 <= l < args_view(new_linked_field.arguments@).len()
                                    implies (#[trigger] args_view(
                                    new_linked_field.arguments@,
                                )[l]).1.len() > 0 by {
                                    assert(new_linked_field.arguments@[l].value@.len() > 0);
                                }
                                assert(model_wf(merged_view(new_entry)));
                            }
                            let ghost map_before_insert = merged_selection_set@;
                            merged_selection_set.insert_new(normalization_key, new_entry);
                            proof {
                                lemma_map_models_insert(
                                    map_before_insert,
                                    normalization_key@,
                                    new_entry,
                                );
                            }
                        },
                    }
                },
            }
        }
        proof {
            lemma_queue_extended_trans(old(artifact_queue)@, q_loop, artifact_queue@);
            lemma_sels_keys_snoc(*schema, oid, sels, i as int);
            if !spec_keeps_selection(sels[i as int]) {
                assert(sel_keys(*schema, oid, sels[i as int]) =~= Set::<Seq<char>>::empty());
                assert(merged_selection_set@.dom() == dom_loop);
            }
            assert(merged_selection_set@.dom() =~= dom0.union(
                sels_keys(*schema, oid, sels.subrange(0, i as int + 1)),
            ));
            assert(sels.subrange(0, i as int + 1).drop_last() =~= sels.subrange(0, i as int));
            assert(sels.subrange(0, i as int + 1).last() == sels[i as int]);
            assert(map_models(merged_selection_set@) == spec_merge_one(
                *schema,
                oid,
                models_loop,
                sels[i as int],
            ));
            assert(map_models(merged_selection_set@) == spec_merged_map(
                *schema,
                oid,
                models0,
                sels.subrange(0, i as int + 1),
            ));
        }
        i = i + 1;
    }
    proof {
        assert(sels.subrange(0, n as int) =~= sels);
    }
}

/// Merges a new nested selection set into an already-merged one: the
/// existing entries are re-keyed by their re-derived aliases, the new
/// selections are merged in, and the result is re-sorted. The result
/// covers exactly the union of both sides' aliases, deduplicated by the
/// same key rules. A refetch encountered here emits an artifact for the
/// linked field's own type.
pub fn merge_linked_fields(
    schema: &Schema,
    existing_selection_set: Vec<MergedServerFieldSelection>,
    new_selection_set: &Vec<Selection>,
    linked_field_parent_type: &ObjectType,
    artifact_queue: &mut Vec<ArtifactQueueItem>,
    variable_definitions: &Vec<VariableDefinition>,
) -> (r: Vec<MergedServerFieldSelection>)
    requires
        schema.merge_ready(),
        linked_field_parent_type.id < schema.objects().len(),
        *linked_field_parent_type == schema.objects()[linked_field_parent_type.id as int],
        sels_valid(*schema, linked_field_parent_type.id as int, new_selection_set@),
        forall|l: int|
            0 <= l < existing_selection_set@.len() ==> model_wf(merged_view(
                #[trigger] existing_selection_set@[l],
            )),
        merge_admissible(
            *schema,
            linked_field_parent_type.id as int,
            rekey_models(merged_sels_view(existing_selection_set@)),
            new_selection_set@,
        ),
    ensures
        forall|l: int| 0 <= l < r@.len() ==> model_wf(merged_view(#[trigger] r@[l])),
        queue_extended(old(artifact_queue)@, final(artifact_queue)@),
        entry_aliases(r@) == entry_aliases(existing_selection_set@).union(
            sels_keys(*schema, linked_field_parent_type.id as int, new_selection_set@),
        ),
        merged_sels_view(r@) == spec_remerged_selections(
            *schema,
            linked_field_parent_type.id as int,
            merged_sels_view(existing_selection_set@),
            new_selection_set@,
        ),
        reaches_refetch(*schema, linked_field_parent_type.id as int, new_selection_set@) ==> {
            &&& final(artifact_queue)@.len() > old(artifact_queue)@.len()
            &&& final(artifact_queue)@.last() matches ArtifactQueueItem::RefetchField(info)
                && merged_sels_view(info.merged_selection_set.selections@) == merged_sels_view(r@)
                && info.parent_id == linked_field_parent_type.id
                && vars_view(info.variable_definitions@) == vars_view(variable_definitions@)
        },
    decreases sels_rank_bound(
        *schema,
        schema_rank(*schema),
        linked_field_parent_type.id as int,
        new_selection_set@,
    ), sels_height(new_selection_set@), 3int,
{
    let mut merged_selection_set = AliasMap::new();
    let mut existing = existing_selection_set;
    let ghost e0 = existing@;
    let ghost mut j: int = 0;
    proof {
        assert(merged_selection_set@.dom().union(entry_aliases(existing@)) =~= entry_aliases(e0));
        assert(e0.skip(0) =~= e0);
        assert(e0.subrange(0, 0) =~= Seq::<MergedServerFieldSelection>::empty());
        assert(map_models(merged_selection_set@) =~= rekey_models(
            merged_sels_view(e0.subrange(0, 0)),
        ));
    }
    while existing.len() > 0
        invariant
            merged_selection_set.wf(),
            map_entries_ok(merged_selection_set@),
            forall|l: int|
                0 <= l < existing@.len() ==> model_wf(merged_view(#[trigger] existing@[l])),
            merged_selection_set@.dom().union(entry_aliases(existing@)) == entry_aliases(e0),
            0 <= j <= e0.len(),
            existing@ == e0.skip(j),
            map_models(merged_selection_set@) == rekey_models(
                merged_sels_view(e0.subrange(0, j)),
            ),
        decreases existing@.len(),
    {
        let ghost prev_existing = existing@;
        let ghost dom_prev = merged_selection_set@.dom();
        let ghost map_prev = merged_selection_set@;
        let item = existing.remove(0);
        proof {
            assert(model_wf(merged_view(item)));
            assert(existing@ =~= prev_existing.drop_first());
            lemma_entry_aliases_first(prev_existing);
            assert(e0.skip(j)[0] == e0[j]);
            assert(item == e0[j]);
            assert(existing@ =~= e0.skip(j + 1));
        }
        match item {
            MergedServerFieldSelection::ScalarField(scalar_field) => {
                proof {
                    assert forall|l: int|
                        0 <= l < scalar_field.arguments@.len() implies (
                        #[trigger] scalar_field.arguments@[l]).value@.len() > 0 by {
                        assert(args_view(scalar_field.arguments@)[l].1.len() > 0);
                    }
                }
                let normalization_key = combine_name_and_variables_into_normalization_alias(
                    &scalar_field.name,
                    &scalar_field.arguments,
                );
                let entry = MergedServerFieldSelection::ScalarField(scalar_field);
                proof {
                    assert(model_alias(merged_view(entry)) == normalization_key@);
                    assert(entry == item);
                }
                let _ = merged_selection_set.remove(&normalization_key);
                merged_selection_set.insert_new(normalization_key, entry);
                proof {
                    assert(merged_selection_set@.dom() =~= dom_prev.insert(normalization_key@));
                    assert(merged_selection_set@.dom().union(entry_aliases(existing@))
                        =~= entry_aliases(e0));
                    assert(map_models(merged_selection_set@) =~= map_models(map_prev).insert(
                        normalization_key@,
                        merged_view(item),
                    ));
                }
            },
            MergedServerFieldSelection::LinkedField(linked_field) => {
                proof {
                    assert forall|l: int|
                        0 <= l < linked_field.arguments@.len() implies (
                        #[trigger] linked_field.arguments@[l]).value@.len() > 0 by {
                        assert(args_view(linked_field.arguments@)[l].1.len() > 0);
                    }
                }
                let normalization_key = combine_name_and_variables_into_normalization_alias(
                    &linked_field.name,
                    &linked_field.arguments,
                );
                let entry = MergedServerFieldSelection::LinkedField(linked_field);
                proof {
                    assert(model_alias(merged_view(entry)) == normalization_key@);
                    assert(entry == item);
                }
                let _ = merged_selection_set.remove(&normalization_key);
                merged_selection_set.insert_new(normalization_key, entry);
                proof {
                    assert(merged_selection_set@.dom() =~= dom_prev.insert(normalization_key@));
                    assert(merged_selection_set@.dom().union(entry_aliases(existing@))
                        =~= entry_aliases(e0));
                    assert(map_models(merged_selection_set@) =~= map_models(map_prev).insert(
                        normalization_key@,
                        merged_view(item),
                    ));
                }
            },
        }
        proof {
            assert(e0.subrange(0, j + 1).drop_last() =~= e0.subrange(0, j));
            assert(e0.subrange(0, j + 1).last() == e0[j]);
            lemma_merged_sels_view_len(e0.subrange(0, j + 1));
            assert(merged_sels_view(e0.subrange(0, j + 1)).drop_last() == merged_sels_view(
                e0.subrange(0, j),
            ));
            assert(merged_sels_view(e0.subrange(0, j + 1)).last() == merged_view(e0[j]));
            assert(map_models(merged_selection_set@) == rekey_models(
                merged_sels_view(e0.subrange(0, j + 1)),
            ));
            j = j + 1;
        }
    }

    proof {
        assert(entry_aliases(existing@) =~= Set::<Seq<char>>::empty());
        assert(merged_selection_set@.dom() =~= entry_aliases(e0));
        assert(e0.subrange(0, e0.len() as int) =~= e0);
        assert(map_models(merged_selection_set@) == rekey_models(merged_sels_view(e0)));
    }
    let mut encountered_refetch_field = false;
    merge_selections_into_set(
        schema,
        &mut merged_selection_set,
        linked_field_parent_type,
        new_selection_set,
        &mut encountered_refetch_field,
        artifact_queue,
        variable_definitions,
    );

    let ghost m = merged_selection_set@;
    let mut entries = merged_selection_set.into_sorted_entries();
    let ghost ents0 = entries@;
    let n_entries = entries.len();
    let mut merged_fields: Vec<MergedServerFieldSelection> = Vec::new();
    let ghost mut keys: Seq<NormalizationKey> = Seq::empty();
    let mut j: usize = 0;
    while entries.len() > 0
        invariant
            map_entries_ok(m),
            crate::alias_map::sorted_by_alias(ents0),
            forall|l: int|
                0 <= l < ents0.len() ==> m.contains_key((#[trigger] ents0[l]).0@)
                    && m[ents0[l].0@] == ents0[l].1,
            j <= ents0.len(),
            ents0.len() == n_entries,
            entries@ == ents0.skip(j as int),
            merged_fields@.len() == j,
            keys.len() == j,
            forall|l: int| 0 <= l < j ==> merged_fields@[l] == ents0[l].1,
            forall|l: int| 0 <= l < j ==> keys[l] == NormalizationKey::ServerField(ents0[l].0@),
        decreases entries@.len(),
    {
        proof {
            assert(ents0.skip(j as int).len() == ents0.len() - j);
            assert(j < ents0.len());
        }
        let (k, v) = entries.remove(0);
        proof {
            assert(ents0.skip(j as int)[0] == ents0[j as int]);
            assert(ents0.skip(j as int).drop_first() =~= ents0.skip(j as int + 1));
        }
        merged_fields.push(v);
        proof {
            keys = keys.push(NormalizationKey::ServerField(k@));
        }
        j = j + 1;
    }
    proof {
        assert forall|l: int| 0 <= l < merged_fields@.len() implies model_wf(merged_view(
            #[trigger] merged_fields@[l],
        )) by {
            assert(merged_fields@[l] == ents0[l].1);
            assert(m.contains_key(ents0[l].0@));
        }
        assert forall|a: Seq<char>| #[trigger] entry_aliases(merged_fields@).contains(a)
            implies m.dom().contains(a) by {
            let l = choose|l: int|
                0 <= l < merged_fields@.len() && model_alias(merged_view(
                    #[trigger] merged_fields@[l],
                )) == a;
            assert(merged_fields@[l] == ents0[l].1);
            assert(m.contains_key(ents0[l].0@));
            assert(model_alias(merged_view(m[ents0[l].0@])) == ents0[l].0@);
        }
        assert forall|a: Seq<char>| #[trigger] m.dom().contains(a) implies entry_aliases(
            merged_fields@,
        ).contains(a) by {
            crate::string_map::lemma_alist_map_contains(ents0, a);
            let l = choose|l: int| 0 <= l < ents0.len() && ents0[l].0@ == a;
            assert(merged_fields@[l] == ents0[l].1);
            assert(m.contains_key(a));
            assert(model_alias(merged_view(merged_fields@[l])) == a);
        }
        assert(entry_aliases(merged_fields@) =~= m.dom());
        assert(entry_aliases(merged_fields@) =~= entry_aliases(e0).union(
            sels_keys(*schema, linked_field_parent_type.id as int, new_selection_set@),
        ));
        let mm = map_models(m);
        let kseq = Seq::new(ents0.len(), |l: int| ents0[l].0@);
        assert forall|p: int, q: int| 0 <= p < q < kseq.len() implies lex_lt(
            kseq[p],
            kseq[q],
        ) by {
            assert(lex_lt(ents0[p].0@, ents0[q].0@));
        }
        assert forall|a: Seq<char>| #[trigger] kseq.contains(a) implies mm.dom().contains(a) by {
            let l = choose|l: int| 0 <= l < kseq.len() && kseq[l] == a;
            assert(m.contains_key(ents0[l].0@));
        }
        assert forall|a: Seq<char>| #[trigger] mm.dom().contains(a) implies kseq.contains(a) by {
            crate::string_map::lemma_alist_map_contains(ents0, a);
            let l = choose|l: int| 0 <= l < ents0.len() && ents0[l].0@ == a;
            assert(kseq[l] == a);
        }
        lemma_sorted_aliases_determined(mm.dom(), kseq);
        lemma_merged_sels_view_len(merged_fields@);
        assert forall|l: int| 0 <= l < kseq.len() implies #[trigger] sorted_models(mm)[l]
            == merged_sels_view(merged_fields@)[l] by {
            assert(sorted_models(mm)[l] == mm[kseq[l]]);
            assert(mm[ents0[l].0@] == merged_view(m[ents0[l].0@]));
            assert(merged_fields@[l] == ents0[l].1);
            lemma_merged_sels_view_index(merged_fields@, l);
        }
        assert(sorted_models(mm).len() == kseq.len());
        assert(merged_sels_view(merged_fields@) =~= sorted_models(mm));
        assert(merged_sels_view(merged_fields@) == spec_remerged_selections(
            *schema,
            linked_field_parent_type.id as int,
            merged_sels_view(e0),
            new_selection_set@,
        ));
    }

    if encountered_refetch_field {
        let ghost qb = artifact_queue@;
        let refetched = MergedSelectionSet {
            selections: copy_merged_selections(&merged_fields),
            keys: Ghost(keys),
        };
        proof {
            assert forall|l: int| 0 <= l < refetched.selections@.len() implies merged_view(
                #[trigger] refetched.selections@[l],
            ) == merged_view(merged_fields@[l]) by {
                lemma_merged_sels_view_index(refetched.selections@, l);
                lemma_merged_sels_view_index(merged_fields@, l);
            }
            assert forall|p: int, q: int| 0 <= p < q < keys.len() implies key_lt(
                keys[p],
                keys[q],
            ) by {
                assert(crate::order::lex_lt(ents0[p].0@, ents0[q].0@));
            }
            assert forall|l: int| 0 <= l < keys.len() implies match #[trigger] keys[l] {
                NormalizationKey::ServerField(a) => a == model_alias(
                    merged_view(refetched.selections@[l]),
                ),
                NormalizationKey::Id => refetched.selections@[l] is ScalarField,
            } by {
                assert(m.contains_key(ents0[l].0@));
                assert(merged_view(refetched.selections@[l]) == merged_view(ents0[l].1));
            }
            assert(refetched.wf());
        }
        let copied_vars = copy_variable_definitions(variable_definitions);
        proof {
            assert(vars_view(copied_vars@) =~= vars_view(variable_definitions@));
        }
        artifact_queue.push(ArtifactQueueItem::RefetchField(RefetchFieldResolverInfo {
            merged_selection_set: refetched,
            parent_id: linked_field_parent_type.id,
            variable_definitions: copied_vars,
        }));
        proof {
            lemma_queue_extended_trans(old(artifact_queue)@, qb, artifact_queue@);
            assert(artifact_queue@.last() == artifact_queue@[artifact_queue@.len() - 1]);
        }
    }
    proof {
        if reaches_refetch(*schema, linked_field_parent_type.id as int, new_selection_set@) {
            assert(encountered_refetch_field);
        }
    }
    merged_fields
}

/// The identity selection to inject for a type that declares an
/// identity field: that field's name, no arguments, no alias.
fn select_typename_and_id_fields_in_merged_selection(
    schema: &Schema,
    parent_type: &ObjectType,
) -> (r: Option<MergedScalarFieldSelection>)
    requires
        schema.wf(),
        parent_type.id < schema.objects().len(),
        *parent_type == schema.objects()[parent_type.id as int],
    ensures
        match parent_type.id_field {
            Some(fid) => r matches Some(s) && fid < schema.fields@.len() && s.name@
                == schema.fields@[fid as int].name@ && s.arguments@.len() == 0
                && s.normalization_alias is None,
            None => r is None,
        },
{
    match parent_type.id_field {
        Some(id_field_id) => {
            proof {
                assert(parent_type.wf(schema.fields@));
            }
            let id_field = schema.id_field(id_field_id);
            Some(MergedScalarFieldSelection {
                name: id_field.name.clone(),
                arguments: Vec::new(),
                normalization_alias: None,
            })
        },
        None => None,
    }
}

/// Merges a selection set evaluated against `parent_type` into one
/// canonical tree: deduplicated by normalization key, the identity
/// field injected when the type declares one, and the entries sorted
/// strictly by key — `Id` first, then aliases in ascending order. Any
/// refetch artifacts discovered are appended to the caller's queue.
#[verifier::rlimit(80)]
pub fn create_merged_selection_set(
    schema: &Schema,
    parent_type: &ObjectType,
    selection_set: &Vec<Selection>,
    artifact_queue: &mut Vec<ArtifactQueueItem>,
    variable_definitions: &Vec<VariableDefinition>,
) -> (merged: MergedSelectionSet)
    requires
        schema.merge_ready(),
        parent_type.id < schema.objects().len(),
        *parent_type == schema.objects()[parent_type.id as int],
        sels_valid(*schema, parent_type.id as int, selection_set@),
        merge_admissible(
            *schema,
            parent_type.id as int,
            Map::<Seq<char>, MergedSelectionModel>::empty(),
            selection_set@,
        ),
    ensures
        merged.wf(),
        queue_extended(old(artifact_queue)@, final(artifact_queue)@),
        merged_sels_view(merged.selections@) == spec_created_selections(
            *schema,
            parent_type.id as int,
            selection_set@,
        ),
        reaches_refetch(*schema, parent_type.id as int, selection_set@) ==> {
            &&& final(artifact_queue)@.len() > old(artifact_queue)@.len()
            &&& final(artifact_queue)@.last() matches ArtifactQueueItem::RefetchField(info)
                && merged_sels_view(info.merged_selection_set.selections@) == merged_sels_view(
                    merged.selections@,
                )
                && info.merged_selection_set.keys@ == merged.keys@
                && info.parent_id == parent_type.id
                && vars_view(info.variable_definitions@) == vars_view(variable_definitions@)
        },
        merged.keys@.contains(NormalizationKey::Id) <==> parent_type.id_field is Some,
        forall|x: NormalizationKey|
            merged.keys@.contains(x) <==> match x {
                NormalizationKey::Id => parent_type.id_field is Some,
                NormalizationKey::ServerField(a) => sels_keys(
                    *schema,
                    parent_type.id as int,
                    selection_set@,
                ).contains(a),
            },
        match parent_type.id_field {
            Some(fid) => {
                &&& merged.keys@.len() > 0
                &&& merged.keys@[0] == NormalizationKey::Id
                &&& fid < schema.fields@.len()
                &&& merged.selections@[0] matches MergedServerFieldSelection::ScalarField(sf)
                    && sf.name@ == schema.fields@[fid as int].name@ && sf.arguments@.len() == 0
                    && sf.normalization_alias is None
            },
            None => true,
        },
    decreases sels_rank_bound(
        *schema,
        schema_rank(*schema),
        parent_type.id as int,
        selection_set@,
    ), sels_height(selection_set@), 2int,
{
    let mut merged_selection_set = AliasMap::new();
    proof {
        assert(map_models(merged_selection_set@) =~= Map::<
            Seq<char>,
            MergedSelectionModel,
        >::empty());
    }
    let mut encountered_refetch_field = false;
    merge_selections_into_set(
        schema,
        &mut merged_selection_set,
        parent_type,
        selection_set,
        &mut encountered_refetch_field,
        artifact_queue,
        variable_definitions,
    );

    let id_entry = select_typename_and_id_fields_in_merged_selection(schema, parent_type);

    let mut selections: Vec<MergedServerFieldSelection> = Vec::new();
    let ghost mut keys: Seq<NormalizationKey> = Seq::empty();
    let ghost base: int = if parent_type.id_field is Some {
        1
    } else {
        0
    };
    match id_entry {
        Some(id_selection) => {
            selections.push(MergedServerFieldSelection::ScalarField(id_selection));
            proof {
                keys = keys.push(NormalizationKey::Id);
            }
        },
        None => {},
    }

    let ghost m = merged_selection_set@;
    let mut entries = merged_selection_set.into_sorted_entries();
    let ghost ents0 = entries@;
    let n_entries = entries.len();
    let ghost sels_before = selections@;
    let ghost keys_before = keys;
    let mut j: usize = 0;
    while entries.len() > 0
        invariant
            map_entries_ok(m),
            crate::alias_map::sorted_by_alias(ents0),
            forall|l: int|
                0 <= l < ents0.len() ==> m.contains_key((#[trigger] ents0[l]).0@)
                    && m[ents0[l].0@] == ents0[l].1,
            j <= ents0.len(),
            ents0.len() == n_entries,
            entries@ == ents0.skip(j as int),
            0 <= base <= 1,
            sels_before.len() == base,
            keys_before.len() == base,
            selections@.len() == base + j,
            keys.len() == base + j,
            forall|l: int| 0 <= l < base ==> selections@[l] == sels_before[l],
            forall|l: int| 0 <= l < base ==> keys[l] == keys_before[l],
            forall|l: int| 0 <= l < j ==> selections@[base + l] == ents0[l].1,
            forall|l: int|
                0 <= l < j ==> keys[base + l] == NormalizationKey::ServerField(ents0[l].0@),
        decreases entries@.len(),
    {
        proof {
            assert(ents0.skip(j as int).len() == ents0.len() - j);
            assert(j < ents0.len());
        }
        let (k, v) = entries.remove(0);
        proof {
            assert(ents0.skip(j as int)[0] == ents0[j as int]);
            assert(ents0.skip(j as int).drop_first() =~= ents0.skip(j as int + 1));
        }
        selections.push(v);
        proof {
            keys = keys.push(NormalizationKey::ServerField(k@));
        }
        j = j + 1;
    }

    let merged = MergedSelectionSet { selections, keys: Ghost(keys) };
    proof {
        let n_all = merged.keys@.len() as int;
        assert forall|p: int, q: int| 0 <= p < q < n_all implies key_lt(
            merged.keys@[p],
            merged.keys@[q],
        ) by {
            if p >= base && q >= base {
                assert(merged.keys@[p] == NormalizationKey::ServerField(ents0[p - base].0@));
                assert(merged.keys@[q] == NormalizationKey::ServerField(ents0[q - base].0@));
                assert(lex_lt(ents0[p - base].0@, ents0[q - base].0@));
            } else {
                assert(p < base);
                assert(merged.keys@[p] == NormalizationKey::Id);
                assert(merged.keys@[q] == NormalizationKey::ServerField(ents0[q - base].0@));
            }
        }
        assert forall|l: int| 0 <= l < n_all implies match #[trigger] merged.keys@[l] {
            NormalizationKey::ServerField(a) => a == model_alias(
                merged_view(merged.selections@[l]),
            ),
            NormalizationKey::Id => merged.selections@[l] is ScalarField,
        } by {
            if l >= base {
                assert(m.contains_key(ents0[l - base].0@));
                assert(merged.selections@[l] == ents0[l - base].1);
            } else {
                assert(merged.keys@[l] == keys_before[l]);
                assert(merged.selections@[l] == sels_before[l]);
            }
        }
        assert forall|l: int| 0 <= l < n_all implies model_wf(merged_view(
            #[trigger] merged.selections@[l],
        )) by {
            if l >= base {
                assert(m.contains_key(ents0[l - base].0@));
                assert(merged.selections@[l] == ents0[l - base].1);
            } else {
                assert(merged.selections@[l] == sels_before[l]);
                let sf = merged.selections@[l];
                assert(sf matches MergedServerFieldSelection::ScalarField(s)
                    && s.arguments@.len() == 0);
                assert(args_view(sf->ScalarField_0.arguments@).len() == 0);
            }
        }
        assert(merged.wf());
        if parent_type.id_field is Some {
            assert(base == 1);
            assert(merged.keys@[0] == keys_before[0]);
            assert(merged.keys@[0] == NormalizationKey::Id);
            assert(merged.selections@[0] == sels_before[0]);
            assert(merged.keys@.contains(NormalizationKey::Id));
        } else {
            if merged.keys@.contains(NormalizationKey::Id) {
                let w = choose|w: int|
                    0 <= w < merged.keys@.len() && merged.keys@[w] == NormalizationKey::Id;
                assert(merged.keys@[w] == NormalizationKey::ServerField(ents0[w - base].0@));
                assert(false);
            }
        }
        let all_keys = sels_keys(*schema, parent_type.id as int, selection_set@);
        assert(m.dom() =~= all_keys);
        assert forall|x: NormalizationKey| #[trigger] merged.keys@.contains(x) implies match x {
            NormalizationKey::Id => parent_type.id_field is Some,
            NormalizationKey::ServerField(a) => all_keys.contains(a),
        } by {
            let w = choose|w: int| 0 <= w < merged.keys@.len() && merged.keys@[w] == x;
            match x {
                NormalizationKey::Id => {
                    if w >= base {
                        assert(merged.keys@[w] == NormalizationKey::ServerField(
                            ents0[w - base].0@,
                        ));
                    }
                    assert(base == 1);
                },
                NormalizationKey::ServerField(a) => {
                    assert(w >= base);
                    assert(ents0[w - base].0@ == a);
                    assert(m.contains_key(a));
                    assert(m.dom().contains(a));
                },
            }
        }
        assert forall|x: NormalizationKey| match x {
            NormalizationKey::Id => parent_type.id_field is Some,
            NormalizationKey::ServerField(a) => all_keys.contains(a),
        } implies #[trigger] merged.keys@.contains(x) by {
            match x {
                NormalizationKey::Id => {
                    assert(merged.keys@[0] == NormalizationKey::Id);
                },
                NormalizationKey::ServerField(a) => {
                    assert(m.dom().contains(a));
                    assert(m.contains_key(a));
                    crate::string_map::lemma_alist_map_contains(ents0, a);
                    let w = choose|w: int| 0 <= w < ents0.len() && ents0[w].0@ == a;
                    assert(merged.keys@[base + w] == NormalizationKey::ServerField(
                        ents0[w].0@,
                    ));
                    assert(merged.keys@[base + w] == x);
                },
            }
        }
        let mm = map_models(m);
        let kseq = Seq::new(ents0.len(), |l: int| ents0[l].0@);
        assert forall|p: int, q: int| 0 <= p < q < kseq.len() implies lex_lt(
            kseq[p],
            kseq[q],
        ) by {
            assert(lex_lt(ents0[p].0@, ents0[q].0@));
        }
        assert forall|a: Seq<char>| #[trigger] kseq.contains(a) implies mm.dom().contains(a) by {
            let l = choose|l: int| 0 <= l < kseq.len() && kseq[l] == a;
            assert(m.contains_key(ents0[l].0@));
        }
        assert forall|a: Seq<char>| #[trigger] mm.dom().contains(a) implies kseq.contains(a) by {
            crate::string_map::lemma_alist_map_contains(ents0, a);
            let l = choose|l: int| 0 <= l < ents0.len() && ents0[l].0@ == a;
            assert(kseq[l] == a);
        }
        lemma_sorted_aliases_determined(mm.dom(), kseq);
        lemma_merged_sels_view_len(merged.selections@);
        let id_prefix = opt_id_model(*schema, parent_type.id as int);
        assert(id_prefix.len() == base);
        if parent_type.id_field is Some {
            assert(merged.selections@[0] == sels_before[0]);
            let sf0 = merged.selections@[0];
            assert(args_view(sf0->ScalarField_0.arguments@) =~= Seq::<(Seq<char>, Seq<char>)>::empty());
            assert(merged_view(sf0) == id_prefix[0]);
        }
        assert forall|l: int| 0 <= l < merged.selections@.len() implies #[trigger] merged_sels_view(
            merged.selections@,
        )[l] == (id_prefix + sorted_models(mm))[l] by {
            lemma_merged_sels_view_index(merged.selections@, l);
            if l >= base {
                assert(merged.selections@[l] == ents0[l - base].1);
                assert(sorted_models(mm)[l - base] == mm[kseq[l - base]]);
                assert(mm[ents0[l - base].0@] == merged_view(m[ents0[l - base].0@]));
            }
        }
        assert(sorted_models(mm).len() == kseq.len());
        assert(merged_sels_view(merged.selections@) =~= id_prefix + sorted_models(mm));
        assert(merged_sels_view(merged.selections@) == spec_created_selections(
            *schema,
            parent_type.id as int,
            selection_set@,
        ));
    }

    if encountered_refetch_field {
        let ghost qb = artifact_queue@;
        let copied = copy_merged_selection_set(&merged);
        let copied_vars = copy_variable_definitions(variable_definitions);
        proof {
            assert(vars_view(copied_vars@) =~= vars_view(variable_definitions@));
        }
        artifact_queue.push(ArtifactQueueItem::RefetchField(RefetchFieldResolverInfo {
            merged_selection_set: copied,
            parent_id: parent_type.id,
            variable_definitions: copied_vars,
        }));
        proof {
            lemma_queue_extended_trans(old(artifact_queue)@, qb, artifact_queue@);
            assert(artifact_queue@.last() == artifact_queue@[artifact_queue@.len() - 1]);
        }
    }
    proof {
        if reaches_refetch(*schema, parent_type.id as int, selection_set@) {
            assert(encountered_refetch_field);
        }
    }
    merged
}

} // verus!
