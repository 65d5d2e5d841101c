//! The override mutator: fixed values for parameters and part opacities that,
//! while it is enabled, replace whatever the pose holds for them.

use vstd::prelude::*;

use crate::dictionary::{distinct_keys, entries_set, law_get_after_update, value_of, NameMap};
use crate::properties::{scope_of, scope_prefix, PropertyScope, PARAMETER_PREFIX, PART_PREFIX};
use crate::text::{begins_with, has_prefix, trim_prefix, trimmed};

verus! {

/// The pose entries that the overrides of one scope stand for, in order.
pub open spec fn scope_overrides<V>(entries: Seq<(Seq<char>, V)>, scope: PropertyScope) -> Seq<(PropertyScope, Seq<char>, V)> {
    entries.map_values(|e: (Seq<char>, V)| (scope, trimmed(e.0, scope_prefix(scope)), e.1))
}

/// The view of an override list, each id by its characters.
pub open spec fn overrides_view<V>(v: Seq<(PropertyScope, String, V)>) -> Seq<(PropertyScope, Seq<char>, V)> {
    v.map_values(|o: (PropertyScope, String, V)| (o.0, o.1@, o.2))
}

/// Overridden values by property name, parameters and part opacities apart.
pub struct AyagamiOverrideMutator<V> {
    pub enabled: bool,
    pub parameters: NameMap<V>,
    pub part_opacities: NameMap<V>,
}

impl<V> AyagamiOverrideMutator<V> {
    /// Both maps are well formed.
    pub open spec fn wf(&self) -> bool {
        self.parameters.wf() && self.part_opacities.wf()
    }

    /// Disabled, with no overrides.
    pub fn new() -> (m: Self)
        ensures
            m.wf(),
            !m.enabled,
            m.parameters.entries().len() == 0,
            m.part_opacities.entries().len() == 0,
    {
        AyagamiOverrideMutator { enabled: false, parameters: NameMap::new(), part_opacities: NameMap::new() }
    }

    /// Drops every override.
    pub fn reset(&mut self)
        requires
            old(self).wf(),
        ensures
            final(self).wf(),
            final(self).enabled == old(self).enabled,
            final(self).parameters.entries().len() == 0,
            final(self).part_opacities.entries().len() == 0,
    {
        self.parameters.clear();
        self.part_opacities.clear();
    }

    /// Overrides the property `name` with `value` when it names a parameter or
    /// a part opacity, and says whether it did.
    pub fn set_property(&mut self, name: &str, value: V) -> (done: bool)
        requires
            old(self).wf(),
        ensures
            final(self).wf(),
            final(self).enabled == old(self).enabled,
            done == (scope_of(name@) is Some),
            scope_of(name@) == Some(PropertyScope::Parameter) ==> final(self).parameters.entries()
                == entries_set(old(self).parameters.entries(), name@, value)
                && final(self).part_opacities == old(self).part_opacities,
            scope_of(name@) == Some(PropertyScope::Part) ==> final(self).part_opacities.entries()
                == entries_set(old(self).part_opacities.entries(), name@, value)
                && final(self).parameters == old(self).parameters,
            scope_of(name@) is None ==> final(self).parameters == old(self).parameters
                && final(self).part_opacities == old(self).part_opacities,
    {
        if begins_with(name, PARAMETER_PREFIX) {
            self.parameters.set(name, value);
            true
        } else if begins_with(name, PART_PREFIX) {
            self.part_opacities.set(name, value);
            true
        } else {
            false
        }
    }

    /// The value that the property `name` is overridden with, if any.
    pub fn override_of(&self, name: &str) -> (r: Option<&V>)
        requires
            self.wf(),
        ensures
            r == (match scope_of(name@) {
                Some(PropertyScope::Parameter) => match self.parameters.spec_get(name@) {
                    Some(v) => Some(&v),
                    None => None::<&V>,
                },
                Some(PropertyScope::Part) => match self.part_opacities.spec_get(name@) {
                    Some(v) => Some(&v),
                    None => None::<&V>,
                },
                None => None::<&V>,
            }),
    {
        if begins_with(name, PARAMETER_PREFIX) {
            self.parameters.get(name)
        } else if begins_with(name, PART_PREFIX) {
            self.part_opacities.get(name)
        } else {
            None
        }
    }
}

impl<V: Copy> AyagamiOverrideMutator<V> {
    /// The pose entries to overwrite, each with its value: nothing while
    /// disabled; otherwise every parameter override, then every part override.
    pub fn overrides(&self) -> (r: Vec<(PropertyScope, String, V)>)
        requires
            self.wf(),
        ensures
            overrides_view(r@) == (if self.enabled {
                scope_overrides(self.parameters.entries(), PropertyScope::Parameter)
                    + scope_overrides(self.part_opacities.entries(), PropertyScope::Part)
            } else {
                Seq::empty()
            }),
    {
        let mut r: Vec<(PropertyScope, String, V)> = Vec::new();
        if !self.enabled {
            assert(overrides_view(r@) =~= Seq::<(PropertyScope, Seq<char>, V)>::empty());
            return r;
        }
        Self::append_scope(&mut r, &self.parameters, PropertyScope::Parameter);
        Self::append_scope(&mut r, &self.part_opacities, PropertyScope::Part);
        r
    }

    fn append_scope(r: &mut Vec<(PropertyScope, String, V)>, m: &NameMap<V>, scope: PropertyScope)
        ensures
            overrides_view(final(r)@) == overrides_view(old(r)@) + scope_overrides(m.entries(), scope),
    {
        let ghost start = overrides_view(r@);
        let prefix = scope.prefix();
        let n = m.len();
        let mut i: usize = 0;
        while i < n
            invariant
                n == m.entries().len(),
                i <= n,
                prefix@ == scope_prefix(scope),
                overrides_view(r@) == start + scope_overrides(m.entries(), scope).take(i as int),
            decreases n - i,
        {
            let id = trim_prefix(m.key_at(i).as_str(), prefix);
            let v = *m.value_at(i);
            let ghost before = overrides_view(r@);
            r.push((scope, id, v));
            assert(overrides_view(r@) =~= before.push((scope, id@, v)));
            assert(start + scope_overrides(m.entries(), scope).take(i + 1) =~= (start
                + scope_overrides(m.entries(), scope).take(i as int)).push(scope_overrides(m.entries(), scope)[i as int]));
            i = i + 1;
        }
        assert(scope_overrides(m.entries(), scope).take(n as int) =~= scope_overrides(m.entries(), scope));
    }
}

/// Law: a value set for a parameter or part property is what that property is
/// then overridden with, and the other properties keep their overrides.
pub proof fn law_override_set_get<V>(
    entries: Seq<(Seq<char>, V)>,
    name: Seq<char>,
    value: V,
    other: Seq<char>,
)
    requires
        distinct_keys(entries),
    ensures
        value_of(entries_set(entries, name, value), name) == Some(value),
        other != name ==> value_of(entries_set(entries, name, value), other) == value_of(entries, other),
{
    law_get_after_update(entries, name, value, name);
    law_get_after_update(entries, name, value, other);
}

/// Law: each override names the pose entry whose exposed property is the
/// overridden property, and carries its value, in the order of the overrides.
pub proof fn law_overrides_name_properties<V>(entries: Seq<(Seq<char>, V)>, scope: PropertyScope, i: int)
    requires
        0 <= i < entries.len(),
        has_prefix(entries[i].0, scope_prefix(scope)),
    ensures
        scope_overrides(entries, scope).len() == entries.len(),
        scope_overrides(entries, scope)[i].0 == scope,
        scope_prefix(scope) + scope_overrides(entries, scope)[i].1 == entries[i].0,
        scope_overrides(entries, scope)[i].2 == entries[i].1,
{
    crate::properties::lemma_trimmed_prefixed(entries[i].0, scope_prefix(scope));
}

} // verus!
