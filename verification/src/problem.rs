//! The problem a forest solves: the names of its features and of its target
//! classes, each mapped to its index.

use vstd::prelude::*;

verus! {

/// The kind of problem that a forest solves.
#[derive(Clone, Copy, Debug, PartialEq, Eq, Structural)]
pub enum PredictionType {
    Classification,
    Regression,
}

#[verifier::external_type_specification]
#[verifier::external_body]
#[verifier::reject_recursive_types(K)]
#[verifier::reject_recursive_types(V)]
#[verifier::reject_recursive_types(S)]
pub struct ExIndexMap<K, V, S>(indexmap::IndexMap<K, V, S>);

/// A map from names to indices, kept in insertion order.
pub type NameMap = indexmap::IndexMap<String, u16>;

/// The entries of a name map, in their order: each name with its index.
pub uninterp spec fn map_entries(m: indexmap::IndexMap<String, u16>) -> Seq<(Seq<char>, u16)>;

/// The position of the first entry whose name is `key`, or the number of
/// entries when there is none.
pub open spec fn key_index(entries: Seq<(Seq<char>, u16)>, key: Seq<char>) -> int
    decreases entries.len(),
{
    if entries.len() == 0 {
        0
    } else if entries[0].0 == key {
        0
    } else {
        1 + key_index(entries.drop_first(), key)
    }
}

/// The index that the map gives `key`, if it has an entry for it.
pub open spec fn name_lookup(entries: Seq<(Seq<char>, u16)>, key: Seq<char>) -> Option<u16> {
    if key_index(entries, key) < entries.len() {
        Some(entries[key_index(entries, key)].1)
    } else {
        None
    }
}

/// The position of the first entry whose index is `v`, or the number of
/// entries when there is none.
pub open spec fn value_index(entries: Seq<(Seq<char>, u16)>, v: u16) -> int
    decreases entries.len(),
{
    if entries.len() == 0 {
        0
    } else if entries[0].1 == v {
        0
    } else {
        1 + value_index(entries.drop_first(), v)
    }
}

/// `key_index` finds the first entry with the key, or none is there.
pub proof fn lemma_key_index(entries: Seq<(Seq<char>, u16)>, key: Seq<char>)
    ensures
        0 <= key_index(entries, key) <= entries.len(),
        key_index(entries, key) < entries.len() ==> entries[key_index(entries, key)].0 == key,
        forall|j: int| 0 <= j < key_index(entries, key) ==> entries[j].0 != key,
    decreases entries.len(),
{
    if entries.len() > 0 && entries[0].0 != key {
        lemma_key_index(entries.drop_first(), key);
        assert forall|j: int| 0 <= j < key_index(entries, key) implies entries[j].0 != key by {
            if j > 0 {
                assert(entries[j] == entries.drop_first()[j - 1]);
            }
        }
    }
}

/// `value_index` finds the first entry with the index, or none is there.
pub proof fn lemma_value_index(entries: Seq<(Seq<char>, u16)>, v: u16)
    ensures
        0 <= value_index(entries, v) <= entries.len(),
        value_index(entries, v) < entries.len() ==> entries[value_index(entries, v)].1 == v,
        forall|j: int| 0 <= j < value_index(entries, v) ==> entries[j].1 != v,
    decreases entries.len(),
{
    if entries.len() > 0 && entries[0].1 != v {
        lemma_value_index(entries.drop_first(), v);
        assert forall|j: int| 0 <= j < value_index(entries, v) implies entries[j].1 != v by {
            if j > 0 {
                assert(entries[j] == entries.drop_first()[j - 1]);
            }
        }
    }
}

/// `IndexMap::new`: a map without entries.
#[verifier::external_body]
pub(crate) fn name_map_new() -> (m: indexmap::IndexMap<String, u16>)
    ensures
        map_entries(m) == Seq::<(Seq<char>, u16)>::empty(),
{
    indexmap::IndexMap::new()
}

/// `IndexMap::len`: the number of entries.
#[verifier::external_body]
pub(crate) fn name_map_len(m: &indexmap::IndexMap<String, u16>) -> (n: usize)
    ensures
        n == map_entries(*m).len(),
{
    m.len()
}

/// `IndexMap::get_index`: the entry at position `i` (its name copied), or
/// `None` past the last entry.
#[verifier::external_body]
pub(crate) fn name_map_get_index(m: &indexmap::IndexMap<String, u16>, i: usize) -> (r: Option<(String, u16)>)
    ensures
        r is Some <==> (i as int) < map_entries(*m).len(),
        r matches Some(kv) ==> kv.0@ == map_entries(*m)[i as int].0 && kv.1 == map_entries(*m)[i as int].1,
{
    match m.get_index(i) {
        Some((k, v)) => Some((k.clone(), *v)),
        None => None,
    }
}

/// `IndexMap::get`: the index of the entry named `key`, if any.
#[verifier::external_body]
pub(crate) fn name_map_get(m: &indexmap::IndexMap<String, u16>, key: &str) -> (r: Option<u16>)
    ensures
        r == name_lookup(map_entries(*m), key@),
{
    m.get(key).copied()
}

/// `IndexMap::insert`: when an entry is named `key`, its index is replaced in
/// place and the old one returned; otherwise the entry is appended last.
#[verifier::external_body]
pub(crate) fn name_map_insert(m: &mut indexmap::IndexMap<String, u16>, key: String, value: u16) -> (r: Option<u16>)
    ensures
        r == name_lookup(map_entries(*old(m)), key@),
        r is Some ==> map_entries(*final(m)) == map_entries(*old(m)).update(key_index(map_entries(*old(m)), key@), (key@, value)),
        r is None ==> map_entries(*final(m)) == map_entries(*old(m)).push((key@, value)),
{
    m.insert(key, value)
}

/// The names of the features and of the target classes, each mapped to its
/// index.
pub struct ProblemDefinition {
    targets: indexmap::IndexMap<String, u16>,
    features: indexmap::IndexMap<String, u16>,
}

impl ProblemDefinition {
    /// A problem without features or targets.
    pub fn new() -> (p: Self)
        ensures
            map_entries(p.targets_spec()).len() == 0,
            map_entries(p.features_spec()).len() == 0,
    {
        ProblemDefinition { targets: name_map_new(), features: name_map_new() }
    }

    pub closed spec fn targets_spec(&self) -> indexmap::IndexMap<String, u16> {
        self.targets
    }

    pub closed spec fn features_spec(&self) -> indexmap::IndexMap<String, u16> {
        self.features
    }

    pub fn targets(&self) -> (m: &indexmap::IndexMap<String, u16>)
        ensures
            *m == self.targets_spec(),
    {
        &self.targets
    }

    pub fn features(&self) -> (m: &indexmap::IndexMap<String, u16>)
        ensures
            *m == self.features_spec(),
    {
        &self.features
    }

    /// The number of features.
    pub fn num_features(&self) -> (n: usize)
        ensures
            n == map_entries(self.features_spec()).len(),
    {
        name_map_len(&self.features)
    }

    /// The number of targets.
    pub fn num_targets(&self) -> (n: usize)
        ensures
            n == map_entries(self.targets_spec()).len(),
    {
        name_map_len(&self.targets)
    }

    /// The index of the feature named `name`, if any.
    pub fn feature_index(&self, name: &str) -> (r: Option<u16>)
        ensures
            r == name_lookup(map_entries(self.features_spec()), name@),
    {
        name_map_get(&self.features, name)
    }

    /// The index of the target named `name`, if any.
    pub fn target_index(&self, name: &str) -> (r: Option<u16>)
        ensures
            r == name_lookup(map_entries(self.targets_spec()), name@),
    {
        name_map_get(&self.targets, name)
    }

    /// Map the feature `name` to the next free index, unless it has one.
    pub fn add_feature(&mut self, name: String, next: u16) -> (added: bool)
        ensures
            added == (name_lookup(map_entries(old(self).features_spec()), name@) is None),
            added ==> map_entries(final(self).features_spec()) == map_entries(old(self).features_spec()).push((name@, next)),
            !added ==> map_entries(final(self).features_spec()) == map_entries(old(self).features_spec()),
            final(self).targets_spec() == old(self).targets_spec(),
    {
        if name_map_get(&self.features, name.as_str()).is_some() {
            return false;
        }
        name_map_insert(&mut self.features, name, next);
        true
    }

    /// Map the target `name` to the next free index, unless it has one.
    pub fn add_target(&mut self, name: String, next: u16) -> (added: bool)
        ensures
            added == (name_lookup(map_entries(old(self).targets_spec()), name@) is None),
            added ==> map_entries(final(self).targets_spec()) == map_entries(old(self).targets_spec()).push((name@, next)),
            !added ==> map_entries(final(self).targets_spec()) == map_entries(old(self).targets_spec()),
            final(self).features_spec() == old(self).features_spec(),
    {
        if name_map_get(&self.targets, name.as_str()).is_some() {
            return false;
        }
        name_map_insert(&mut self.targets, name, next);
        true
    }

    /// The name of the target whose index is `class`: the first entry with
    /// that index.
    pub fn target_name(&self, class: u16) -> (r: Option<String>)
        ensures
            ({
                let e = map_entries(self.targets_spec());
                let i = value_index(e, class);
                &&& i < e.len() ==> (r matches Some(n) && n@ == e[i].0)
                &&& i >= e.len() ==> r is None
            }),
    {
        let ghost e = map_entries(self.targets_spec());
        proof {
            lemma_value_index(e, class);
        }
        let n = name_map_len(&self.targets);
        let mut i: usize = 0;
        while i < n
            invariant
                e == map_entries(self.targets_spec()),
                n == e.len(),
                0 <= i <= n,
                forall|j: int| 0 <= j < i ==> e[j].1 != class,
                0 <= value_index(e, class) <= e.len(),
                value_index(e, class) < e.len() ==> e[value_index(e, class)].1 == class,
                forall|j: int| 0 <= j < value_index(e, class) ==> e[j].1 != class,
            decreases n - i,
        {
            match name_map_get_index(&self.targets, i) {
                Some((name, v)) => {
                    if v == class {
                        assert(value_index(e, class) == i as int) by {
                            if value_index(e, class) > i as int {
                                assert(e[i as int].1 != class);
                            }
                        }
                        return Some(name);
                    }
                },
                None => {
                    assert(false);
                },
            }
            i = i + 1;
        }
        assert(value_index(e, class) == e.len()) by {
            if value_index(e, class) < e.len() {
                assert(e[value_index(e, class)].1 == class);
            }
        }
        None
    }
}

} // verus!
