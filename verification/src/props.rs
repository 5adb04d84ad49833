//! String-keyed property bags shared by nodes and edges.
//!
//! A bag is stored as a vector of `(key, value)` pairs with pairwise distinct
//! keys; its meaning is the finite map from key to value.

use vstd::prelude::*;

verus! {

/// The view of an optional owned string.
pub open spec fn opt_string_view(o: Option<String>) -> Option<Seq<char>> {
    match o {
        Some(s) => Some(s@),
        None => None,
    }
}

/// The entries of a property list, as (key, value) character sequences in
/// insertion order.
pub open spec fn prop_entries(s: Seq<(String, String)>) -> Seq<(Seq<char>, Seq<char>)> {
    s.map_values(|p: (String, String)| (p.0@, p.1@))
}

/// Keys are pairwise distinct.
pub open spec fn props_wf(s: Seq<(Seq<char>, Seq<char>)>) -> bool {
    forall|i: int, j: int| 0 <= i < j < s.len() ==> s[i].0 != s[j].0
}

/// The finite map a property list denotes (later entries win, which is
/// irrelevant once keys are distinct).
pub open spec fn props_map(s: Seq<(Seq<char>, Seq<char>)>) -> Map<Seq<char>, Seq<char>>
    decreases s.len(),
{
    if s.len() == 0 {
        Map::empty()
    } else {
        props_map(s.drop_last()).insert(s.last().0, s.last().1)
    }
}

/// Every stored entry is reflected in the denoted map.
pub proof fn lemma_props_map_entry(s: Seq<(Seq<char>, Seq<char>)>, i: int)
    requires
        props_wf(s),
        0 <= i < s.len(),
    ensures
        props_map(s).contains_key(s[i].0),
        props_map(s)[s[i].0] == s[i].1,
    decreases s.len(),
{
    if i < s.len() - 1 {
        assert(s.drop_last()[i] == s[i]);
        lemma_props_map_entry(s.drop_last(), i);
        assert(s[s.len() - 1].0 != s[i].0);
    }
}

/// A key that occurs in no entry is absent from the denoted map.
pub proof fn lemma_props_map_absent(s: Seq<(Seq<char>, Seq<char>)>, k: Seq<char>)
    requires
        forall|i: int| 0 <= i < s.len() ==> s[i].0 != k,
    ensures
        !props_map(s).contains_key(k),
    decreases s.len(),
{
    if s.len() > 0 {
        assert(forall|i: int|
            0 <= i < s.drop_last().len() ==> s.drop_last()[i].0 != k);
        lemma_props_map_absent(s.drop_last(), k);
    }
}

/// Overwriting the value at an existing key denotes `insert`.
pub proof fn lemma_props_map_update(s: Seq<(Seq<char>, Seq<char>)>, i: int, v: Seq<char>)
    requires
        props_wf(s),
        0 <= i < s.len(),
    ensures
        props_map(s.update(i, (s[i].0, v))) == props_map(s).insert(s[i].0, v),
    decreases s.len(),
{
    let t = s.update(i, (s[i].0, v));
    if i == s.len() - 1 {
        assert(t.drop_last() =~= s.drop_last());
        assert(t.last() == (s[i].0, v));
        assert(props_map(t) =~= props_map(s).insert(s[i].0, v));
    } else {
        assert(s.drop_last()[i] == s[i]);
        lemma_props_map_update(s.drop_last(), i, v);
        assert(t.drop_last() =~= s.drop_last().update(i, (s[i].0, v)));
        assert(t.last() == s.last());
        assert(s.last().0 != s[i].0);
        assert(props_map(t) =~= props_map(s).insert(s[i].0, v));
    }
}

/// Looks a key up in a property list.
pub fn props_get<'a>(props: &'a Vec<(String, String)>, key: &str) -> (r: Option<&'a String>)
    requires
        props_wf(prop_entries(props@)),
    ensures
        match r {
            Some(v) => {
                &&& props_map(prop_entries(props@)).contains_key(key@)
                &&& props_map(prop_entries(props@))[key@] == v@
            },
            None => !props_map(prop_entries(props@)).contains_key(key@),
        },
{
    let k: String = key.to_owned();
    let n = props.len();
    let mut idx: usize = 0;
    while idx < n
        invariant
            props_wf(prop_entries(props@)),
            n == props@.len(),
            idx <= n,
            k@ == key@,
            forall|j: int| 0 <= j < idx ==> prop_entries(props@)[j].0 != key@,
        decreases n - idx,
    {
        if props[idx].0 == k {
            proof {
                lemma_props_map_entry(prop_entries(props@), idx as int);
            }
            return Some(&props[idx].1);
        }
        idx += 1;
    }
    proof {
        lemma_props_map_absent(prop_entries(props@), key@);
    }
    None
}

/// Inserts or overwrites a key in a property list.
pub fn props_set(props: &mut Vec<(String, String)>, key: String, value: String)
    requires
        props_wf(prop_entries(old(props)@)),
    ensures
        props_wf(prop_entries(final(props)@)),
        props_map(prop_entries(final(props)@)) == props_map(
            prop_entries(old(props)@),
        ).insert(key@, value@),
{
    let n = props.len();
    let mut idx: usize = 0;
    while idx < n
        invariant
            props_wf(prop_entries(props@)),
            props@ == old(props)@,
            n == props@.len(),
            idx <= n,
            forall|j: int| 0 <= j < idx ==> prop_entries(props@)[j].0 != key@,
        decreases n - idx,
    {
        if props[idx].0 == key {
            proof {
                lemma_props_map_update(prop_entries(props@), idx as int, value@);
            }
            props[idx] = (key, value);
            proof {
                assert(prop_entries(props@) =~= prop_entries(old(props)@).update(
                    idx as int,
                    (prop_entries(old(props)@)[idx as int].0, value@),
                ));
            }
            return ;
        }
        idx += 1;
    }
    props.push((key, value));
    proof {
        assert(prop_entries(props@) =~= prop_entries(old(props)@).push((key@, value@)));
        assert(prop_entries(props@).drop_last() =~= prop_entries(old(props)@));
        lemma_props_map_absent(prop_entries(old(props)@), key@);
    }
}

} // verus!
