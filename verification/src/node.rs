//! Labeled nodes with an open-ended property bag.

use vstd::prelude::*;

use crate::props::{
    opt_string_view, prop_entries, props_get, props_map, props_set, props_wf,
};

verus! {

/// An identified, labeled entity with a string-keyed property bag.
pub struct Node {
    id: u64,
    label: Option<String>,
    properties: Vec<(String, String)>,
}

/// The mathematical content of a [`Node`].
#[verifier::ext_equal]
pub struct NodeView {
    pub id: u64,
    pub label: Option<Seq<char>>,
    pub props: Seq<(Seq<char>, Seq<char>)>,
}

impl NodeView {
    /// Property keys are pairwise distinct.
    pub open spec fn wf(self) -> bool {
        props_wf(self.props)
    }

    /// The property bag as a map from key to value.
    pub open spec fn prop_map(self) -> Map<Seq<char>, Seq<char>> {
        props_map(self.props)
    }
}

impl View for Node {
    type V = NodeView;

    closed spec fn view(&self) -> NodeView {
        NodeView {
            id: self.id,
            label: opt_string_view(self.label),
            props: prop_entries(self.properties@),
        }
    }
}

impl Node {
    /// Constructs a node with an empty property bag.
    pub fn new(id: u64, label: Option<String>) -> (r: Node)
        ensures
            r@ == (NodeView { id, label: opt_string_view(label), props: Seq::empty() }),
            r@.wf(),
    {
        let r = Node { id, label, properties: Vec::new() };
        proof {
            assert(r@.props =~= Seq::<(Seq<char>, Seq<char>)>::empty());
            assert(r@ =~= (NodeView {
                id,
                label: opt_string_view(label),
                props: Seq::empty(),
            }));
        }
        r
    }

    /// Returns the node's identity.
    pub fn id(&self) -> (r: u64)
        ensures
            r == self@.id,
    {
        self.id
    }

    /// Returns the current label, if any.
    pub fn label(&self) -> (r: Option<&String>)
        ensures
            match r {
                Some(l) => self@.label == Some(l@),
                None => self@.label is None,
            },
    {
        self.label.as_ref()
    }

    /// Inserts or overwrites a property.
    pub fn set_property(&mut self, key: String, value: String)
        requires
            old(self)@.wf(),
        ensures
            final(self)@.wf(),
            final(self)@.id == old(self)@.id,
            final(self)@.label == old(self)@.label,
            final(self)@.prop_map() == old(self)@.prop_map().insert(key@, value@),
    {
        props_set(&mut self.properties, key, value);
    }

    /// Looks a property up; yields nothing for an unset key.
    pub fn get_property(&self, key: &str) -> (r: Option<&String>)
        requires
            self@.wf(),
        ensures
            match r {
                Some(v) => {
                    &&& self@.prop_map().contains_key(key@)
                    &&& self@.prop_map()[key@] == v@
                },
                None => !self@.prop_map().contains_key(key@),
            },
    {
        props_get(&self.properties, key)
    }

    /// The number of properties currently set.
    pub fn property_count(&self) -> (r: usize)
        ensures
            r == self@.props.len(),
    {
        self.properties.len()
    }

    /// Copies the node into a plain persistence record.
    pub fn to_record(&self) -> (r: NodeRecord)
        ensures
            r@ == self@,
    {
        let r = NodeRecord {
            id: self.id,
            label: clone_opt_string(&self.label),
            properties: clone_props(&self.properties),
        };
        proof {
            assert(r@ =~= self@);
        }
        r
    }

    /// Rebuilds a node from a persistence record, as it stands.
    pub fn from_record(r: NodeRecord) -> (n: Node)
        ensures
            n@ == r@,
    {
        Node { id: r.id, label: r.label, properties: r.properties }
    }

    /// True exactly when the property keys are pairwise distinct.
    pub fn check_props(&self) -> (r: bool)
        ensures
            r == self@.wf(),
    {
        check_prop_keys(&self.properties)
    }
}

/// A node as persisted: the same fields, as plain data.
pub struct NodeRecord {
    pub id: u64,
    pub label: Option<String>,
    pub properties: Vec<(String, String)>,
}

impl View for NodeRecord {
    type V = NodeView;

    closed spec fn view(&self) -> NodeView {
        NodeView {
            id: self.id,
            label: opt_string_view(self.label),
            props: prop_entries(self.properties@),
        }
    }
}

/// Copies an optional label.
pub fn clone_opt_string(o: &Option<String>) -> (r: Option<String>)
    ensures
        opt_string_view(r) == opt_string_view(*o),
{
    match o {
        Some(l) => Some(l.clone()),
        None => None,
    }
}

/// Copies a property list entry for entry.
pub fn clone_props(props: &Vec<(String, String)>) -> (r: Vec<(String, String)>)
    ensures
        prop_entries(r@) == prop_entries(props@),
{
    let n = props.len();
    let mut out: Vec<(String, String)> = Vec::new();
    let mut i: usize = 0;
    while i < n
        invariant
            n == props@.len(),
            i <= n,
            out@.len() == i,
            forall|j: int|
                0 <= j < i ==> prop_entries(out@)[j] == prop_entries(props@)[j],
        decreases n - i,
    {
        out.push((props[i].0.clone(), props[i].1.clone()));
        i += 1;
    }
    proof {
        assert(prop_entries(out@) =~= prop_entries(props@));
    }
    out
}

/// True exactly when the keys of a property list are pairwise distinct.
pub fn check_prop_keys(props: &Vec<(String, String)>) -> (r: bool)
    ensures
        r == props_wf(prop_entries(props@)),
{
    let n = props.len();
    let mut i: usize = 0;
    while i < n
        invariant
            n == props@.len(),
            i <= n,
            forall|a: int, b: int|
                0 <= a < b < n && a < i ==> prop_entries(props@)[a].0 != prop_entries(
                    props@,
                )[b].0,
        decreases n - i,
    {
        let mut j: usize = i + 1;
        while j < n
            invariant
                n == props@.len(),
                i < n,
                i < j <= n,
                forall|b: int|
                    i < b < j ==> prop_entries(props@)[i as int].0 != prop_entries(props@)[b].0,
            decreases n - j,
        {
            if props[j].0 == props[i].0 {
                proof {
                    assert(prop_entries(props@)[i as int].0 == prop_entries(props@)[j as int].0);
                }
                return false;
            }
            proof {
                assert(prop_entries(props@)[i as int].0 != prop_entries(props@)[j as int].0);
            }
            j += 1;
        }
        i += 1;
    }
    true
}

} // verus!
