//! Names of the properties that models and mutators expose, and how a
//! property name is routed to what it stands for.

use vstd::prelude::*;

use crate::dictionary::{
    distinct_keys, entries_set, find_key, lemma_find_key, lemma_update_distinct, law_get_after_update, value_of,
    NameMap,
};
use crate::text::{begins_with, str_concat, has_prefix, trim_prefix, trimmed};

verus! {

/// Prefix of model parameter properties.
pub const PARAMETER_PREFIX: &'static str = "parameters/";

/// Prefix of part opacity properties.
pub const PART_PREFIX: &'static str = "parts/";

/// Prefix of the weight property of an expression.
pub const WEIGHT_PREFIX: &'static str = "weight/";

/// Prefix of the on/off property of an expression.
pub const ACTIVE_PREFIX: &'static str = "expressions/";

/// Prefix of the group property of an expression.
pub const GROUP_PREFIX: &'static str = "expression_groups/";

/// A string that starts with two prefixes that differ at some position
/// inside both cannot exist.
pub proof fn lemma_prefixes_disjoint(s: Seq<char>, p: Seq<char>, q: Seq<char>, i: int)
    requires
        0 <= i < p.len(),
        i < q.len(),
        p[i] != q[i],
    ensures
        !(has_prefix(s, p) && has_prefix(s, q)),
{
    if has_prefix(s, p) && has_prefix(s, q) {
        assert(s.subrange(0, p.len() as int)[i] == s[i]);
        assert(s.subrange(0, q.len() as int)[i] == s[i]);
    }
}

/// `prefix + rest` starts with `prefix`, and trimming `prefix` gives back `rest`.
pub proof fn lemma_prefixed(prefix: Seq<char>, rest: Seq<char>)
    ensures
        has_prefix(prefix + rest, prefix),
        trimmed(prefix + rest, prefix) == rest,
{
    assert((prefix + rest).subrange(0, prefix.len() as int) =~= prefix);
    assert((prefix + rest).skip(prefix.len() as int) =~= rest);
}

/// A name that starts with `prefix` is `prefix` followed by what trimming leaves.
pub proof fn lemma_trimmed_prefixed(name: Seq<char>, prefix: Seq<char>)
    requires
        has_prefix(name, prefix),
    ensures
        prefix + trimmed(name, prefix) == name,
{
    assert(prefix + name.skip(prefix.len() as int) =~= name);
}

/// Prefixing is injective.
pub proof fn lemma_prefix_injective(prefix: Seq<char>, a: Seq<char>, b: Seq<char>)
    requires
        prefix + a == prefix + b,
    ensures
        a == b,
{
    lemma_prefixed(prefix, a);
    lemma_prefixed(prefix, b);
}

/// The two pose scopes do not share names.
pub proof fn lemma_scopes_disjoint(s: Seq<char>)
    ensures
        !(has_prefix(s, PARAMETER_PREFIX@) && has_prefix(s, PART_PREFIX@)),
{
    reveal_strlit("parameters/");
    reveal_strlit("parts/");
    lemma_prefixes_disjoint(s, PARAMETER_PREFIX@, PART_PREFIX@, 3);
}

/// The three expression property kinds do not share names.
pub proof fn lemma_expression_prefixes_disjoint(s: Seq<char>)
    ensures
        !(has_prefix(s, WEIGHT_PREFIX@) && has_prefix(s, ACTIVE_PREFIX@)),
        !(has_prefix(s, WEIGHT_PREFIX@) && has_prefix(s, GROUP_PREFIX@)),
        !(has_prefix(s, ACTIVE_PREFIX@) && has_prefix(s, GROUP_PREFIX@)),
{
    reveal_strlit("weight/");
    reveal_strlit("expressions/");
    reveal_strlit("expression_groups/");
    lemma_prefixes_disjoint(s, WEIGHT_PREFIX@, ACTIVE_PREFIX@, 0);
    lemma_prefixes_disjoint(s, WEIGHT_PREFIX@, GROUP_PREFIX@, 0);
    lemma_prefixes_disjoint(s, ACTIVE_PREFIX@, GROUP_PREFIX@, 10);
}

// ---------------------------------------------------------------------------
// Pose scopes: parameters and part opacities.
// ---------------------------------------------------------------------------

/// What a pose entry belongs to.
#[derive(PartialEq, Eq, Structural, Clone, Copy, Debug)]
pub enum PropertyScope {
    Parameter,
    Part,
}

/// The name prefix of a scope.
pub open spec fn scope_prefix(scope: PropertyScope) -> Seq<char> {
    match scope {
        PropertyScope::Parameter => PARAMETER_PREFIX@,
        PropertyScope::Part => PART_PREFIX@,
    }
}

/// The scope a property name belongs to, by its prefix.
pub open spec fn scope_of(name: Seq<char>) -> Option<PropertyScope> {
    if has_prefix(name, PARAMETER_PREFIX@) {
        Some(PropertyScope::Parameter)
    } else if has_prefix(name, PART_PREFIX@) {
        Some(PropertyScope::Part)
    } else {
        None
    }
}

impl PropertyScope {
    /// The name prefix of this scope.
    pub fn prefix(&self) -> (p: &'static str)
        ensures
            p@ == scope_prefix(*self),
    {
        match self {
            PropertyScope::Parameter => PARAMETER_PREFIX,
            PropertyScope::Part => PART_PREFIX,
        }
    }
}

/// The property name under which the pose entry `id` of `scope` is exposed.
pub fn pose_property_name(scope: PropertyScope, id: &str) -> (name: String)
    ensures
        name@ == scope_prefix(scope) + id@,
{
    str_concat(scope.prefix(), id)
}

/// The pose entry that a property name stands for: its scope, by prefix, and
/// its id, the name without the prefix.
pub fn pose_key_of(name: &str) -> (r: Option<(PropertyScope, String)>)
    ensures
        match r {
            Some((scope, id)) => scope_of(name@) == Some(scope) && id@ == trimmed(name@, scope_prefix(scope)),
            None => scope_of(name@) is None,
        },
{
    if begins_with(name, PARAMETER_PREFIX) {
        Some((PropertyScope::Parameter, trim_prefix(name, PARAMETER_PREFIX)))
    } else if begins_with(name, PART_PREFIX) {
        Some((PropertyScope::Part, trim_prefix(name, PART_PREFIX)))
    } else {
        None
    }
}

/// The pose entry that a script mutator's result entry is written back to:
/// only parameter entries are written back; part entries are left alone.
pub fn writeback_key(name: &str) -> (r: Option<String>)
    ensures
        match r {
            Some(id) => has_prefix(name@, PARAMETER_PREFIX@) && id@ == trimmed(name@, PARAMETER_PREFIX@),
            None => !has_prefix(name@, PARAMETER_PREFIX@),
        },
{
    if begins_with(name, PARAMETER_PREFIX) {
        Some(trim_prefix(name, PARAMETER_PREFIX))
    } else {
        None
    }
}

/// Law: the name under which a pose entry is exposed routes back to that
/// entry, for either scope and any id.
pub proof fn law_pose_name_round_trip(scope: PropertyScope, id: Seq<char>)
    ensures
        scope_of(scope_prefix(scope) + id) == Some(scope),
        trimmed(scope_prefix(scope) + id, scope_prefix(scope)) == id,
{
    lemma_prefixed(scope_prefix(scope), id);
    lemma_scopes_disjoint(scope_prefix(scope) + id);
}

/// Law: a property name that routes to a pose entry is exactly the name under
/// which that entry is exposed.
pub proof fn law_pose_key_names_property(name: Seq<char>)
    requires
        scope_of(name) is Some,
    ensures
        scope_prefix(scope_of(name).unwrap()) + trimmed(name, scope_prefix(scope_of(name).unwrap())) == name,
{
    lemma_trimmed_prefixed(name, scope_prefix(scope_of(name).unwrap()));
}

// ---------------------------------------------------------------------------
// Expression properties.
// ---------------------------------------------------------------------------

/// The three properties exposed for each expression.
#[derive(PartialEq, Eq, Structural, Clone, Copy, Debug)]
pub enum ExpressionPropertyKind {
    /// Its weight, from 0 to 1.
    Weight,
    /// Whether it is on; turning it on turns off the others of its group.
    Active,
    /// The name of its group.
    Group,
}

/// The name prefix of an expression property kind.
pub open spec fn expression_prefix(kind: ExpressionPropertyKind) -> Seq<char> {
    match kind {
        ExpressionPropertyKind::Weight => WEIGHT_PREFIX@,
        ExpressionPropertyKind::Active => ACTIVE_PREFIX@,
        ExpressionPropertyKind::Group => GROUP_PREFIX@,
    }
}

/// The kind of expression property a name stands for, by its prefix.
pub open spec fn expression_kind_of(name: Seq<char>) -> Option<ExpressionPropertyKind> {
    if has_prefix(name, WEIGHT_PREFIX@) {
        Some(ExpressionPropertyKind::Weight)
    } else if has_prefix(name, ACTIVE_PREFIX@) {
        Some(ExpressionPropertyKind::Active)
    } else if has_prefix(name, GROUP_PREFIX@) {
        Some(ExpressionPropertyKind::Group)
    } else {
        None
    }
}

impl ExpressionPropertyKind {
    /// The name prefix of this kind.
    pub fn prefix(&self) -> (p: &'static str)
        ensures
            p@ == expression_prefix(*self),
    {
        match self {
            ExpressionPropertyKind::Weight => WEIGHT_PREFIX,
            ExpressionPropertyKind::Active => ACTIVE_PREFIX,
            ExpressionPropertyKind::Group => GROUP_PREFIX,
        }
    }
}

/// The name of the property of kind `kind` of the expression `expression`.
pub fn expression_property_name(kind: ExpressionPropertyKind, expression: &str) -> (name: String)
    ensures
        name@ == expression_prefix(kind) + expression@,
{
    str_concat(kind.prefix(), expression)
}

/// Which property of which expression a name stands for.
pub fn expression_property_of(name: &str) -> (r: Option<(ExpressionPropertyKind, String)>)
    ensures
        match r {
            Some((kind, expression)) => expression_kind_of(name@) == Some(kind)
                && expression@ == trimmed(name@, expression_prefix(kind)),
            None => expression_kind_of(name@) is None,
        },
{
    if begins_with(name, WEIGHT_PREFIX) {
        Some((ExpressionPropertyKind::Weight, trim_prefix(name, WEIGHT_PREFIX)))
    } else if begins_with(name, ACTIVE_PREFIX) {
        Some((ExpressionPropertyKind::Active, trim_prefix(name, ACTIVE_PREFIX)))
    } else if begins_with(name, GROUP_PREFIX) {
        Some((ExpressionPropertyKind::Group, trim_prefix(name, GROUP_PREFIX)))
    } else {
        None
    }
}

/// Law: the name of each property of an expression routes back to that
/// property of that expression.
pub proof fn law_expression_name_round_trip(kind: ExpressionPropertyKind, expression: Seq<char>)
    ensures
        expression_kind_of(expression_prefix(kind) + expression) == Some(kind),
        trimmed(expression_prefix(kind) + expression, expression_prefix(kind)) == expression,
{
    lemma_prefixed(expression_prefix(kind), expression);
    lemma_expression_prefixes_disjoint(expression_prefix(kind) + expression);
}

// ---------------------------------------------------------------------------
// Model property lookup.
// ---------------------------------------------------------------------------

/// The lookup built from `(id, uid)` pairs, each id exposed under `prefix`;
/// a later pair replaces an earlier one with the same id.
pub open spec fn lookup_entries(prefix: Seq<char>, ids: Seq<(Seq<char>, u32)>) -> Seq<(Seq<char>, u32)>
    decreases ids.len(),
{
    if ids.len() == 0 {
        Seq::empty()
    } else {
        entries_set(lookup_entries(prefix, ids.drop_last()), prefix + ids.last().0, ids.last().1)
    }
}

/// The `(id, uid)` pairs of a vector, each id by its characters.
pub open spec fn id_pairs(v: Seq<(String, u32)>) -> Seq<(Seq<char>, u32)> {
    v.map_values(|p: (String, u32)| (p.0@, p.1))
}

/// Lookups have distinct keys.
pub proof fn lemma_lookup_distinct(prefix: Seq<char>, ids: Seq<(Seq<char>, u32)>)
    ensures
        distinct_keys(lookup_entries(prefix, ids)),
    decreases ids.len(),
{
    if ids.len() > 0 {
        lemma_lookup_distinct(prefix, ids.drop_last());
        lemma_update_distinct(lookup_entries(prefix, ids.drop_last()), prefix + ids.last().0, ids.last().1);
    }
}

/// Law: the lookup resolves `prefix + id` to the uid of the last pair with
/// that id, and resolves nothing that lacks the prefix.
pub proof fn law_lookup_resolves(prefix: Seq<char>, ids: Seq<(Seq<char>, u32)>, name: Seq<char>)
    ensures
        has_prefix(name, prefix) ==> value_of(lookup_entries(prefix, ids), name) == value_of(ids, trimmed(name, prefix)),
        !has_prefix(name, prefix) ==> value_of(lookup_entries(prefix, ids), name) is None,
    decreases ids.len(),
{
    if ids.len() == 0 {
        lemma_find_key(lookup_entries(prefix, ids), name);
        lemma_find_key(ids, trimmed(name, prefix));
    } else {
        let t = ids.drop_last();
        law_lookup_resolves(prefix, t, name);
        lemma_lookup_distinct(prefix, t);
        law_get_after_update(lookup_entries(prefix, t), prefix + ids.last().0, ids.last().1, name);
        lemma_prefixed(prefix, ids.last().0);
        if has_prefix(name, prefix) {
            lemma_trimmed_prefixed(name, prefix);
            let id = trimmed(name, prefix);
            lemma_find_key(t, id);
            if name == prefix + ids.last().0 {
                assert(id == ids.last().0);
            } else {
                assert(id != ids.last().0);
                if let Some(i) = find_key(t, id) {
                    assert(ids[i] == t[i]);
                }
            }
            assert(ids.last() == ids[ids.len() - 1]);
            assert(t =~= ids.drop_last());
        }
    }
}

/// Where a model property is routed.
#[derive(PartialEq, Eq, Structural, Clone, Copy, Debug)]
pub enum ModelRoute {
    /// The parameter with this uid.
    Parameter(u32),
    /// The opacity of the part with this uid.
    Part(u32),
}

/// What a model property reverts to.
#[derive(PartialEq, Eq, Structural, Clone, Copy, Debug)]
pub enum ModelRevert {
    /// The default value of the parameter with this uid.
    ParameterDefault(u32),
    /// Full opacity.
    PartOpaque,
}

/// Where a property is routed, given the parameter and part lookups: a
/// parameter when the name has the parameter prefix and is known, a part when
/// it has the part prefix and is known, nowhere otherwise.
pub open spec fn route_of(
    parameters: Seq<(Seq<char>, u32)>,
    parts: Seq<(Seq<char>, u32)>,
    name: Seq<char>,
) -> Option<ModelRoute> {
    if has_prefix(name, PARAMETER_PREFIX@) && value_of(parameters, name) is Some {
        Some(ModelRoute::Parameter(value_of(parameters, name).unwrap()))
    } else if has_prefix(name, PART_PREFIX@) && value_of(parts, name) is Some {
        Some(ModelRoute::Part(value_of(parts, name).unwrap()))
    } else {
        None
    }
}

/// What a property reverts to, given the parameter lookup: the default of a
/// known parameter; full opacity for any name with the part prefix; nothing
/// otherwise.
pub open spec fn revert_of(parameters: Seq<(Seq<char>, u32)>, name: Seq<char>) -> Option<ModelRevert> {
    if has_prefix(name, PARAMETER_PREFIX@) && value_of(parameters, name) is Some {
        Some(ModelRevert::ParameterDefault(value_of(parameters, name).unwrap()))
    } else if has_prefix(name, PART_PREFIX@) {
        Some(ModelRevert::PartOpaque)
    } else {
        None
    }
}

/// The names a loaded model exposes, each with the uid of what it stands for.
pub struct PropertyLookup {
    pub parameters: NameMap<u32>,
    pub parts: NameMap<u32>,
}

impl PropertyLookup {
    /// Both maps are well formed.
    pub open spec fn wf(&self) -> bool {
        self.parameters.wf() && self.parts.wf()
    }

    /// The lookup of a model with the given parameter and part ids and uids,
    /// in the model's order.
    pub fn from_ids(parameter_ids: &Vec<(String, u32)>, part_ids: &Vec<(String, u32)>) -> (l: Self)
        ensures
            l.wf(),
            l.parameters.entries() == lookup_entries(PARAMETER_PREFIX@, id_pairs(parameter_ids@)),
            l.parts.entries() == lookup_entries(PART_PREFIX@, id_pairs(part_ids@)),
    {
        let parameters = Self::build(PARAMETER_PREFIX, parameter_ids);
        let parts = Self::build(PART_PREFIX, part_ids);
        PropertyLookup { parameters, parts }
    }

    fn build(prefix: &str, ids: &Vec<(String, u32)>) -> (m: NameMap<u32>)
        ensures
            m.wf(),
            m.entries() == lookup_entries(prefix@, id_pairs(ids@)),
    {
        let mut m: NameMap<u32> = NameMap::new();
        let n = ids.len();
        let mut i: usize = 0;
        while i < n
            invariant
                n == ids@.len(),
                i <= n,
                m.wf(),
                m.entries() == lookup_entries(prefix@, id_pairs(ids@).take(i as int)),
            decreases n - i,
        {
            let name = str_concat(prefix, ids[i].0.as_str());
            m.set(name.as_str(), ids[i].1);
            proof {
                let s = id_pairs(ids@).take(i + 1);
                assert(s.drop_last() =~= id_pairs(ids@).take(i as int));
                assert(s.last() == (ids@[i as int].0@, ids@[i as int].1));
            }
            i = i + 1;
        }
        assert(id_pairs(ids@).take(n as int) =~= id_pairs(ids@));
        m
    }

    /// Where setting or getting the property `name` is routed: a parameter
    /// when the name has the parameter prefix and is known, a part when it
    /// has the part prefix and is known, nowhere otherwise.
    pub fn route(&self, name: &str) -> (r: Option<ModelRoute>)
        requires
            self.wf(),
        ensures
            r == route_of(self.parameters.entries(), self.parts.entries(), name@),
    {
        if begins_with(name, PARAMETER_PREFIX) {
            if let Some(uid) = self.parameters.get(name) {
                return Some(ModelRoute::Parameter(*uid));
            }
        }
        if begins_with(name, PART_PREFIX) {
            if let Some(uid) = self.parts.get(name) {
                return Some(ModelRoute::Part(*uid));
            }
        }
        None
    }

    /// What the property `name` reverts to: the default of a known parameter;
    /// full opacity for any name with the part prefix; nothing otherwise.
    pub fn revert(&self, name: &str) -> (r: Option<ModelRevert>)
        requires
            self.wf(),
        ensures
            r == revert_of(self.parameters.entries(), name@),
    {
        if begins_with(name, PARAMETER_PREFIX) {
            if let Some(uid) = self.parameters.get(name) {
                return Some(ModelRevert::ParameterDefault(*uid));
            }
        }
        if begins_with(name, PART_PREFIX) {
            return Some(ModelRevert::PartOpaque);
        }
        None
    }
}

/// Law: every parameter and part a model exposes is routed to its own uid
/// (that of its last occurrence), and any other name is routed nowhere.
pub proof fn law_model_route(
    parameter_ids: Seq<(Seq<char>, u32)>,
    part_ids: Seq<(Seq<char>, u32)>,
    scope: PropertyScope,
    id: Seq<char>,
)
    ensures
        ({
            let params = lookup_entries(PARAMETER_PREFIX@, parameter_ids);
            let parts = lookup_entries(PART_PREFIX@, part_ids);
            let name = scope_prefix(scope) + id;
            &&& scope == PropertyScope::Parameter ==> value_of(params, name) == value_of(parameter_ids, id)
                && value_of(parts, name) is None
            &&& scope == PropertyScope::Part ==> value_of(parts, name) == value_of(part_ids, id)
                && value_of(params, name) is None
        }),
{
    let name = scope_prefix(scope) + id;
    law_pose_name_round_trip(scope, id);
    lemma_scopes_disjoint(name);
    law_lookup_resolves(PARAMETER_PREFIX@, parameter_ids, name);
    law_lookup_resolves(PART_PREFIX@, part_ids, name);
}

/// Law: in a model built from parameter and part ids, the property of a
/// parameter id routes to that parameter's uid (its last occurrence) and
/// reverts to its default, the property of a part id routes to that part's
/// uid and reverts to full opacity, an unknown id routes nowhere, and a name
/// with neither prefix routes and reverts nowhere.
pub proof fn law_route_exposed(
    parameter_ids: Seq<(Seq<char>, u32)>,
    part_ids: Seq<(Seq<char>, u32)>,
    scope: PropertyScope,
    id: Seq<char>,
    other: Seq<char>,
)
    ensures
        ({
            let params = lookup_entries(PARAMETER_PREFIX@, parameter_ids);
            let parts = lookup_entries(PART_PREFIX@, part_ids);
            let name = scope_prefix(scope) + id;
            &&& scope == PropertyScope::Parameter ==> route_of(params, parts, name) == (match value_of(parameter_ids, id) {
                Some(u) => Some(ModelRoute::Parameter(u)),
                None => None,
            }) && revert_of(params, name) == (match value_of(parameter_ids, id) {
                Some(u) => Some(ModelRevert::ParameterDefault(u)),
                None => None,
            })
            &&& scope == PropertyScope::Part ==> route_of(params, parts, name) == (match value_of(part_ids, id) {
                Some(u) => Some(ModelRoute::Part(u)),
                None => None,
            }) && revert_of(params, name) == Some(ModelRevert::PartOpaque)
            &&& scope_of(other) is None ==> route_of(params, parts, other) is None && revert_of(params, other) is None
        }),
{
    let name = scope_prefix(scope) + id;
    law_model_route(parameter_ids, part_ids, scope, id);
    law_pose_name_round_trip(scope, id);
    lemma_scopes_disjoint(name);
}

} // verus!
