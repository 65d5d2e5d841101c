//! Expressions: how expression tracks blend, and the state of the expression
//! mutator — which expressions belong to which group, and their weights.
//! Turning an expression on turns off every other expression of its group;
//! the empty group name stands for "no group" and is never reset.

use vstd::prelude::*;

use crate::dictionary::{
    distinct_keys, entries_erase, entries_set, lemma_find_key, lemma_update_distinct,
    law_get_after_update, value_of, NameMap,
};

verus! {

/// How an expression track combines its amount with the current value.
#[derive(PartialEq, Eq, Structural, Clone, Copy, Debug)]
pub enum BlendMode {
    /// The amount is added to the value.
    ADD,
    /// The value is multiplied by the amount.
    MULTIPLY,
    /// The amount replaces the value.
    OVERRIDE,
}

impl Default for BlendMode {
    fn default() -> (m: Self)
        ensures
            m == BlendMode::ADD,
    {
        BlendMode::ADD
    }
}

/// The expressions whose group is `group`, in the order of `grouping`.
pub open spec fn group_members(grouping: Seq<(Seq<char>, String)>, group: Seq<char>) -> Seq<Seq<char>>
    decreases grouping.len(),
{
    if grouping.len() == 0 {
        Seq::empty()
    } else {
        let r = group_members(grouping.drop_last(), group);
        if grouping.last().1@ == group {
            r.push(grouping.last().0)
        } else {
            r
        }
    }
}

/// The weights after erasing each of `names`, in order.
pub open spec fn erase_all<W>(weights: Seq<(Seq<char>, W)>, names: Seq<Seq<char>>) -> Seq<(Seq<char>, W)>
    decreases names.len(),
{
    if names.len() == 0 {
        weights
    } else {
        entries_erase(erase_all(weights, names.drop_last()), names.last())
    }
}

/// The weights after resetting `group`: nothing changes for the empty group
/// name; otherwise the weight of every member of the group is erased.
pub open spec fn weights_after_reset_group<W>(
    grouping: Seq<(Seq<char>, String)>,
    weights: Seq<(Seq<char>, W)>,
    group: Seq<char>,
) -> Seq<(Seq<char>, W)> {
    if group.len() == 0 {
        weights
    } else {
        erase_all(weights, group_members(grouping, group))
    }
}

/// The group of `name`: the one recorded for it, or the empty name.
pub open spec fn group_of(grouping: Seq<(Seq<char>, String)>, name: Seq<char>) -> Seq<char> {
    match value_of(grouping, name) {
        Some(g) => g@,
        None => Seq::empty(),
    }
}

/// The weights after `name` is toggled, its weight becoming `weight`: when
/// turned on, the other expressions of its group are reset first.
pub open spec fn weights_after_toggle<W>(
    grouping: Seq<(Seq<char>, String)>,
    weights: Seq<(Seq<char>, W)>,
    name: Seq<char>,
    on: bool,
    weight: W,
) -> Seq<(Seq<char>, W)> {
    let before = if on {
        match value_of(grouping, name) {
            Some(g) => weights_after_reset_group(grouping, weights, g@),
            None => weights,
        }
    } else {
        weights
    };
    entries_set(before, name, weight)
}

/// Each value once, in the order of first occurrence.
pub open spec fn unique(s: Seq<Seq<char>>) -> Seq<Seq<char>>
    decreases s.len(),
{
    if s.len() == 0 {
        Seq::empty()
    } else {
        let r = unique(s.drop_last());
        if r.contains(s.last()) {
            r
        } else {
            r.push(s.last())
        }
    }
}

/// A name is a member of `group` exactly when it is recorded with that group.
pub proof fn lemma_group_members(grouping: Seq<(Seq<char>, String)>, group: Seq<char>, q: Seq<char>)
    ensures
        group_members(grouping, group).contains(q) <==> exists|i: int|
            0 <= i < grouping.len() && grouping[i].0 == q && grouping[i].1@ == group,
    decreases grouping.len(),
{
    if grouping.len() > 0 {
        let t = grouping.drop_last();
        lemma_group_members(t, group, q);
        let r = group_members(t, group);
        if exists|i: int| 0 <= i < t.len() && t[i].0 == q && t[i].1@ == group {
            let i = choose|i: int| 0 <= i < t.len() && t[i].0 == q && t[i].1@ == group;
            assert(grouping[i] == t[i]);
            if grouping.last().1@ == group {
                let k = choose|k: int| 0 <= k < r.len() && r[k] == q;
                assert(r.push(grouping.last().0)[k] == q);
            }
        }
        if exists|i: int| 0 <= i < grouping.len() && grouping[i].0 == q && grouping[i].1@ == group {
            let i = choose|i: int| 0 <= i < grouping.len() && grouping[i].0 == q && grouping[i].1@ == group;
            if i < t.len() {
                assert(t[i] == grouping[i]);
                if grouping.last().1@ == group {
                    let k = choose|k: int| 0 <= k < r.len() && r[k] == q;
                    assert(r.push(grouping.last().0)[k] == q);
                }
            } else {
                assert(r.push(grouping.last().0)[r.len() as int] == q);
            }
        }
        if group_members(grouping, group).contains(q) {
            if grouping.last().1@ == group && grouping.last().0 == q {
                assert(grouping[grouping.len() - 1].0 == q);
            } else {
                let m = group_members(grouping, group);
                let k = choose|k: int| 0 <= k < m.len() && m[k] == q;
                if grouping.last().1@ == group {
                    assert(k < r.len());
                    assert(r[k] == q);
                } else {
                    assert(r[k] == q);
                }
                let i = choose|i: int| 0 <= i < t.len() && t[i].0 == q && t[i].1@ == group;
                assert(grouping[i] == t[i]);
            }
        }
    }
}

/// Erasing a list of names erases exactly those names and keeps keys distinct.
pub proof fn lemma_erase_all<W>(weights: Seq<(Seq<char>, W)>, names: Seq<Seq<char>>, q: Seq<char>)
    requires
        distinct_keys(weights),
    ensures
        distinct_keys(erase_all(weights, names)),
        value_of(erase_all(weights, names), q) == (if names.contains(q) { None } else { value_of(weights, q) }),
    decreases names.len(),
{
    if names.len() > 0 {
        let t = names.drop_last();
        lemma_erase_all(weights, t, q);
        let e = erase_all(weights, t);
        lemma_update_distinct(e, names.last(), arbitrary());
        law_get_after_update(e, names.last(), arbitrary(), q);
        if t.contains(q) {
            let k = choose|k: int| 0 <= k < t.len() && t[k] == q;
            assert(names[k] == q);
        }
        if names.contains(q) && q != names.last() {
            let k = choose|k: int| 0 <= k < names.len() && names[k] == q;
            assert(k < t.len());
            assert(t[k] == q);
        }
        if q == names.last() {
            assert(names[names.len() - 1] == q);
        }
    }
}

/// `unique` lists each value of `s` once.
pub proof fn lemma_unique(s: Seq<Seq<char>>)
    ensures
        forall|x: Seq<char>| unique(s).contains(x) <==> s.contains(x),
        forall|i: int, j: int| 0 <= i < unique(s).len() && 0 <= j < unique(s).len() && i != j ==> unique(s)[i] != unique(s)[j],
    decreases s.len(),
{
    if s.len() > 0 {
        let t = s.drop_last();
        lemma_unique(t);
        let r = unique(t);
        assert forall|x: Seq<char>| unique(s).contains(x) <==> s.contains(x) by {
            if s.contains(x) {
                let k = choose|k: int| 0 <= k < s.len() && s[k] == x;
                if k < t.len() {
                    assert(t[k] == x);
                    assert(t.contains(x));
                    assert(r.contains(x));
                    if !r.contains(s.last()) {
                        let m = choose|m: int| 0 <= m < r.len() && r[m] == x;
                        assert(r.push(s.last())[m] == x);
                    }
                } else if !r.contains(s.last()) {
                    assert(r.push(s.last())[r.len() as int] == x);
                }
            }
            if unique(s).contains(x) {
                let u = unique(s);
                let m = choose|m: int| 0 <= m < u.len() && u[m] == x;
                if m < r.len() {
                    assert(r[m] == x);
                    assert(r.contains(x));
                    assert(t.contains(x));
                    let k = choose|k: int| 0 <= k < t.len() && t[k] == x;
                    assert(s[k] == x);
                } else {
                    assert(s[s.len() - 1] == x);
                }
            }
        }
        let u = unique(s);
        assert forall|i: int, j: int| 0 <= i < u.len() && 0 <= j < u.len() && i != j implies u[i] != u[j] by {
            if !r.contains(s.last()) {
                if i == r.len() && j < r.len() {
                    assert(r[j] == u[j]);
                } else if j == r.len() && i < r.len() {
                    assert(r[i] == u[i]);
                }
            }
        }
    }
}

/// The state of an expression mutator: the group of each expression and the
/// weight of each expression, each in insertion order.
pub struct AyagamiExpressionMutator<W> {
    pub expression_grouping: NameMap<String>,
    pub weight: NameMap<W>,
}

impl<W> AyagamiExpressionMutator<W> {
    /// Both maps are well formed.
    pub open spec fn wf(&self) -> bool {
        self.expression_grouping.wf() && self.weight.wf()
    }

    /// No groups and no weights.
    pub fn new() -> (m: Self)
        ensures
            m.wf(),
            m.expression_grouping.entries().len() == 0,
            m.weight.entries().len() == 0,
    {
        AyagamiExpressionMutator { expression_grouping: NameMap::new(), weight: NameMap::new() }
    }

    /// Drops every weight.
    pub fn reset(&mut self)
        requires
            old(self).wf(),
        ensures
            final(self).wf(),
            final(self).expression_grouping == old(self).expression_grouping,
            final(self).weight.entries().len() == 0,
    {
        self.weight.clear();
    }

    /// Drops the weight of every expression of the group `group_name`; the
    /// empty group name is left alone.
    pub fn reset_group(&mut self, group_name: &str)
        requires
            old(self).wf(),
        ensures
            final(self).wf(),
            final(self).expression_grouping == old(self).expression_grouping,
            final(self).weight.entries() == weights_after_reset_group(
                old(self).expression_grouping.entries(),
                old(self).weight.entries(),
                group_name@,
            ),
    {
        if group_name.is_empty() {
            return;
        }
        let group: String = group_name.to_owned();
        let ghost grouping = self.expression_grouping.entries();
        let ghost w0 = self.weight.entries();
        let ghost g0 = self.expression_grouping;
        let n = self.expression_grouping.len();
        let mut i: usize = 0;
        while i < n
            invariant
                n == grouping.len(),
                i <= n,
                grouping == self.expression_grouping.entries(),
                g0 == self.expression_grouping,
                self.wf(),
                group@ == group_name@,
                self.weight.entries() == erase_all(w0, group_members(grouping.take(i as int), group_name@)),
            decreases n - i,
        {
            proof {
                assert(grouping.take(i + 1).drop_last() =~= grouping.take(i as int));
                assert(grouping.take(i + 1).last() == grouping[i as int]);
            }
            let ghost members = group_members(grouping.take(i as int), group_name@);
            if self.expression_grouping.value_at(i).eq(&group) {
                self.weight.erase(self.expression_grouping.key_at(i).as_str());
                assert(members.push(grouping[i as int].0).drop_last() =~= members);
            }
            i = i + 1;
        }
        assert(grouping.take(n as int) =~= grouping);
    }

    /// The distinct group names in use, in order of first use.
    pub fn get_expression_groups(&self) -> (groups: Vec<String>)
        requires
            self.wf(),
        ensures
            groups@.map_values(|g: String| g@) == unique(
                self.expression_grouping.spec_values().map_values(|g: String| g@),
            ),
    {
        let ghost vals = self.expression_grouping.spec_values().map_values(|g: String| g@);
        let mut acc: Vec<String> = Vec::new();
        let n = self.expression_grouping.len();
        let mut i: usize = 0;
        while i < n
            invariant
                n == self.expression_grouping.entries().len(),
                vals.len() == n,
                vals == self.expression_grouping.spec_values().map_values(|g: String| g@),
                i <= n,
                acc@.map_values(|g: String| g@) == unique(vals.take(i as int)),
            decreases n - i,
        {
            let v = self.expression_grouping.value_at(i);
            let ghost acc_view = acc@.map_values(|g: String| g@);
            proof {
                assert(vals.take(i + 1).drop_last() =~= vals.take(i as int));
                assert(vals.take(i + 1).last() == v@);
            }
            let mut found = false;
            let m = acc.len();
            let mut j: usize = 0;
            while j < m
                invariant
                    m == acc@.len(),
                    acc_view == acc@.map_values(|g: String| g@),
                    j <= m,
                    found <==> exists|k: int| 0 <= k < j && acc_view[k] == v@,
                decreases m - j,
            {
                assert(acc_view[j as int] == acc@[j as int]@);
                if acc[j].eq(v) {
                    found = true;
                }
                j = j + 1;
            }
            if !found {
                acc.push(v.clone());
                assert(acc@.map_values(|g: String| g@) =~= acc_view.push(v@));
            }
            i = i + 1;
        }
        assert(vals.take(n as int) =~= vals);
        acc
    }

    /// The group of `name`, or the empty name when it has none.
    pub fn group_of(&self, name: &str) -> (g: String)
        requires
            self.wf(),
        ensures
            g@ == group_of(self.expression_grouping.entries(), name@),
    {
        match self.expression_grouping.get(name) {
            Some(g) => g.clone(),
            None => String::new(),
        }
    }

    /// Turns `name` on or off, giving it the weight `weight`; turning it on
    /// first drops the weights of the other expressions of its group.
    pub fn toggle_expression(&mut self, name: &str, on: bool, weight: W)
        requires
            old(self).wf(),
        ensures
            final(self).wf(),
            final(self).expression_grouping == old(self).expression_grouping,
            final(self).weight.entries() == weights_after_toggle(
                old(self).expression_grouping.entries(),
                old(self).weight.entries(),
                name@,
                on,
                weight,
            ),
    {
        if on {
            match self.expression_grouping.get(name) {
                Some(g) => {
                    let group = g.clone();
                    self.reset_group(group.as_str());
                }
                None => {}
            }
        }
        self.weight.set(name, weight);
    }
}

/// Law: once an expression is turned on, no other expression of its group
/// (when it has a non-empty one) keeps a weight, the expression itself has
/// the weight it was given, and expressions outside the group keep theirs.
pub proof fn law_toggle_exclusive<W>(
    grouping: Seq<(Seq<char>, String)>,
    weights: Seq<(Seq<char>, W)>,
    name: Seq<char>,
    weight: W,
    other: Seq<char>,
)
    requires
        distinct_keys(grouping),
        distinct_keys(weights),
    ensures
        ({
            let after = weights_after_toggle(grouping, weights, name, true, weight);
            let g = group_of(grouping, name);
            &&& distinct_keys(after)
            &&& value_of(after, name) == Some(weight)
            &&& other != name && g.len() != 0 && group_of(grouping, other) == g ==> value_of(after, other) is None
            &&& other != name && (g.len() == 0 || group_of(grouping, other) != g) ==> value_of(after, other) == value_of(weights, other)
        }),
{
    let g = group_of(grouping, name);
    let before = match value_of(grouping, name) {
        Some(gg) => weights_after_reset_group(grouping, weights, gg@),
        None => weights,
    };
    lemma_group_members(grouping, g, other);
    lemma_erase_all(weights, group_members(grouping, g), other);
    lemma_find_key(grouping, other);
    lemma_find_key(grouping, name);
    assert(distinct_keys(before));
    lemma_update_distinct(before, name, weight);
    law_get_after_update(before, name, weight, other);
    law_get_after_update(before, name, weight, name);
    if other != name && g.len() != 0 {
        if group_of(grouping, other) == g {
            let i = find_key_index(grouping, other);
            assert(grouping[i].0 == other && grouping[i].1@ == g);
        } else {
            if exists|i: int| 0 <= i < grouping.len() && grouping[i].0 == other && grouping[i].1@ == g {
                let i = choose|i: int| 0 <= i < grouping.len() && grouping[i].0 == other && grouping[i].1@ == g;
                assert(grouping[i].0 == other);
            }
        }
    }
}

/// The index at which a recorded name sits.
proof fn find_key_index(grouping: Seq<(Seq<char>, String)>, q: Seq<char>) -> (i: int)
    requires
        value_of(grouping, q) is Some,
    ensures
        0 <= i < grouping.len(),
        grouping[i].0 == q,
        value_of(grouping, q) == Some(grouping[i].1),
{
    lemma_find_key(grouping, q);
    crate::dictionary::find_key(grouping, q).unwrap()
}

/// Law: resetting the empty group changes nothing, and resetting a group
/// drops exactly the weights of its members.
pub proof fn law_reset_group<W>(
    grouping: Seq<(Seq<char>, String)>,
    weights: Seq<(Seq<char>, W)>,
    group: Seq<char>,
    q: Seq<char>,
)
    requires
        distinct_keys(grouping),
        distinct_keys(weights),
    ensures
        group.len() == 0 ==> weights_after_reset_group(grouping, weights, group) == weights,
        group.len() != 0 && value_of(grouping, q) is Some && value_of(grouping, q).unwrap()@ == group
            ==> value_of(weights_after_reset_group(grouping, weights, group), q) is None,
        group.len() != 0 && !(value_of(grouping, q) is Some && value_of(grouping, q).unwrap()@ == group)
            ==> value_of(weights_after_reset_group(grouping, weights, group), q) == value_of(weights, q),
{
    lemma_group_members(grouping, group, q);
    lemma_erase_all(weights, group_members(grouping, group), q);
    lemma_find_key(grouping, q);
    if value_of(grouping, q) is Some && value_of(grouping, q).unwrap()@ == group {
        let i = find_key_index(grouping, q);
    } else if exists|i: int| 0 <= i < grouping.len() && grouping[i].0 == q && grouping[i].1@ == group {
        let i = choose|i: int| 0 <= i < grouping.len() && grouping[i].0 == q && grouping[i].1@ == group;
        assert(grouping[i].0 == q);
    }
}

/// Law: the groups reported are each group in use, each once.
pub proof fn law_groups_unique(values: Seq<Seq<char>>, g: Seq<char>)
    ensures
        unique(values).contains(g) <==> values.contains(g),
        forall|i: int, j: int| 0 <= i < unique(values).len() && 0 <= j < unique(values).len() && i != j
            ==> unique(values)[i] != unique(values)[j],
{
    lemma_unique(values);
}

/// Law: toggling an expression, on or off, leaves it with exactly the weight
/// it was given; turning one off changes no other weight.
pub proof fn law_toggle_sets_weight<W>(
    grouping: Seq<(Seq<char>, String)>,
    weights: Seq<(Seq<char>, W)>,
    name: Seq<char>,
    on: bool,
    weight: W,
    other: Seq<char>,
)
    requires
        distinct_keys(grouping),
        distinct_keys(weights),
    ensures
        value_of(weights_after_toggle(grouping, weights, name, on, weight), name) == Some(weight),
        !on && other != name ==> value_of(weights_after_toggle(grouping, weights, name, on, weight), other)
            == value_of(weights, other),
{
    let before = if on {
        match value_of(grouping, name) {
            Some(gg) => weights_after_reset_group(grouping, weights, gg@),
            None => weights,
        }
    } else {
        weights
    };
    if on {
        match value_of(grouping, name) {
            Some(gg) => {
                lemma_erase_all(weights, group_members(grouping, gg@), name);
            }
            None => {}
        }
    }
    law_get_after_update(before, name, weight, name);
    law_get_after_update(before, name, weight, other);
}

/// Law: the groups are listed in order of first use: of two listed groups,
/// the earlier one is used somewhere before the later one is first used.
pub proof fn law_groups_first_use_order(values: Seq<Seq<char>>, i: int, j: int)
    requires
        0 <= i < j < unique(values).len(),
    ensures
        exists|p: int| 0 <= p < values.len() && values[p] == unique(values)[i]
            && forall|q: int| 0 <= q <= p ==> values[q] != unique(values)[j],
    decreases values.len(),
{
    let t = values.drop_last();
    let r = unique(t);
    lemma_unique(t);
    let u = unique(values);
    if j < r.len() {
        assert(u[i] == r[i] && u[j] == r[j]);
        law_groups_first_use_order(t, i, j);
        let p = choose|p: int| 0 <= p < t.len() && t[p] == r[i]
            && forall|q: int| 0 <= q <= p ==> t[q] != r[j];
        assert(values[p] == t[p]);
        assert forall|q: int| 0 <= q <= p implies values[q] != u[j] by {
            assert(values[q] == t[q]);
        }
    } else {
        // u[j] is the last value, met for the first time
        assert(!r.contains(values.last()));
        assert(u[j] == values.last());
        assert(u[i] == r[i]);
        assert(r.contains(r[i]));
        assert(t.contains(r[i]));
        let p = choose|p: int| 0 <= p < t.len() && t[p] == r[i];
        assert(values[p] == t[p]);
        assert forall|q: int| 0 <= q <= p implies values[q] != u[j] by {
            assert(values[q] == t[q]);
            if t[q] == u[j] {
                assert(t.contains(values.last()));
            }
        }
    }
}

} // verus!
