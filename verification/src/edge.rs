//! Directed, weighted edges with their own identity and property bag.

use vstd::prelude::*;

use crate::node::{check_prop_keys, clone_opt_string, clone_props};
use crate::props::{
    opt_string_view, prop_entries, props_get, props_map, props_set, props_wf,
};

verus! {

/// A directed, weighted connection between two node identifiers.
///
/// The weight is a non-negative integer and is fixed at construction.
pub struct Edge {
    id: u64,
    from: u64,
    to: u64,
    weight: u64,
    label: Option<String>,
    properties: Vec<(String, String)>,
}

/// The mathematical content of an [`Edge`].
#[verifier::ext_equal]
pub struct EdgeView {
    pub id: u64,
    pub from: u64,
    pub to: u64,
    pub weight: u64,
    pub label: Option<Seq<char>>,
    pub props: Seq<(Seq<char>, Seq<char>)>,
}

impl EdgeView {
    /// Property keys are pairwise distinct.
    pub open spec fn wf(self) -> bool {
        props_wf(self.props)
    }

    /// The property bag as a map from key to value.
    pub open spec fn prop_map(self) -> Map<Seq<char>, Seq<char>> {
        props_map(self.props)
    }
}

impl View for Edge {
    type V = EdgeView;

    closed spec fn view(&self) -> EdgeView {
        EdgeView {
            id: self.id,
            from: self.from,
            to: self.to,
            weight: self.weight,
            label: opt_string_view(self.label),
            props: prop_entries(self.properties@),
        }
    }
}

impl Edge {
    /// Constructs an edge with an empty property bag.
    pub fn new(id: u64, from: u64, to: u64, weight: u64, label: Option<String>) -> (r: Edge)
        ensures
            r@ == (EdgeView {
                id,
                from,
                to,
                weight,
                label: opt_string_view(label),
                props: Seq::empty(),
            }),
            r@.wf(),
    {
        let r = Edge { id, from, to, weight, label, properties: Vec::new() };
        proof {
            assert(r@.props =~= Seq::<(Seq<char>, Seq<char>)>::empty());
            assert(r@ =~= (EdgeView {
                id,
                from,
                to,
                weight,
                label: opt_string_view(label),
                props: Seq::empty(),
            }));
        }
        r
    }

    /// Returns the edge's identity.
    pub fn id(&self) -> (r: u64)
        ensures
            r == self@.id,
    {
        self.id
    }

    /// Returns the source node identifier.
    pub fn from(&self) -> (r: u64)
        ensures
            r == self@.from,
    {
        self.from
    }

    /// Returns the target node identifier.
    pub fn to(&self) -> (r: u64)
        ensures
            r == self@.to,
    {
        self.to
    }

    /// Returns the weight fixed at construction.
    pub fn weight(&self) -> (r: u64)
        ensures
            r == self@.weight,
    {
        self.weight
    }

    /// Returns the current label, if any.
    pub fn label(&self) -> (r: Option<&String>)
        ensures
            match r {
                Some(l) => self@.label == Some(l@),
                None => self@.label is None,
            },
    {
        self.label.as_ref()
    }

    /// Inserts or overwrites a property.
    pub fn set_property(&mut self, key: String, value: String)
        requires
            old(self)@.wf(),
        ensures
            final(self)@.wf(),
            final(self)@.id == old(self)@.id,
            final(self)@.from == old(self)@.from,
            final(self)@.to == old(self)@.to,
            final(self)@.weight == old(self)@.weight,
            final(self)@.label == old(self)@.label,
            final(self)@.prop_map() == old(self)@.prop_map().insert(key@, value@),
    {
        props_set(&mut self.properties, key, value);
    }

    /// Looks a property up; yields nothing for an unset key.
    pub fn get_property(&self, key: &str) -> (r: Option<&String>)
        requires
            self@.wf(),
        ensures
            match r {
                Some(v) => {
                    &&& self@.prop_map().contains_key(key@)
                    &&& self@.prop_map()[key@] == v@
                },
                None => !self@.prop_map().contains_key(key@),
            },
    {
        props_get(&self.properties, key)
    }

    /// The number of properties currently set.
    pub fn property_count(&self) -> (r: usize)
        ensures
            r == self@.props.len(),
    {
        self.properties.len()
    }

    /// Copies the edge into a plain persistence record.
    pub fn to_record(&self) -> (r: EdgeRecord)
        ensures
            r@ == self@,
    {
        let r = EdgeRecord {
            id: self.id,
            from: self.from,
            to: self.to,
            weight: self.weight,
            label: clone_opt_string(&self.label),
            properties: clone_props(&self.properties),
        };
        proof {
            assert(r@ =~= self@);
        }
        r
    }

    /// Rebuilds an edge from a persistence record, as it stands.
    pub fn from_record(r: EdgeRecord) -> (e: Edge)
        ensures
            e@ == r@,
    {
        Edge {
            id: r.id,
            from: r.from,
            to: r.to,
            weight: r.weight,
            label: r.label,
            properties: r.properties,
        }
    }

    /// True exactly when the property keys are pairwise distinct.
    pub fn check_props(&self) -> (r: bool)
        ensures
            r == self@.wf(),
    {
        check_prop_keys(&self.properties)
    }
}

/// An edge as persisted: the same fields, as plain data.
pub struct EdgeRecord {
    pub id: u64,
    pub from: u64,
    pub to: u64,
    pub weight: u64,
    pub label: Option<String>,
    pub properties: Vec<(String, String)>,
}

impl View for EdgeRecord {
    type V = EdgeView;

    closed spec fn view(&self) -> EdgeView {
        EdgeView {
            id: self.id,
            from: self.from,
            to: self.to,
            weight: self.weight,
            label: opt_string_view(self.label),
            props: prop_entries(self.properties@),
        }
    }
}

} // verus!
