//! An in-memory directed, weighted graph store: labeled nodes and weighted
//! edges with property bags, an insertion-ordered adjacency index, core-node
//! marking, guarded and unconditional deletion, single-source shortest
//! distances, a command interpreter, and snapshot persistence.

use vstd::prelude::*;

pub mod edge;
pub mod graph;
pub mod node;
pub mod numbers;
pub mod props;
pub mod query_parser;
pub mod shortest_path;
pub mod storage;

use crate::graph::{cannot_delete_msg, delete_result, Graph};
use crate::numbers::u64_to_string;
use crate::query_parser::{
    please_deleted_msg, please_failed_msg, tokenize, tokens_of, valid_u64_digits,
};
use vstd::string::StringExecFns;

verus! {

/// The one operation the crate-root command surface accepts: a guarded
/// delete, holding the node id.
pub enum Query {
    PleaseDelete(u64),
}

/// What parsing a crate-root command yields: the node id to delete, or the
/// failure text.
pub open spec fn spec_parse_root(toks: Seq<Seq<char>>) -> Result<u64, Seq<char>> {
    if toks.len() != 3 {
        Err("Invalid command format"@)
    } else if toks[0] == "PLEASE"@ && toks[1] == "DELETE"@ {
        if valid_u64_digits(toks[2]) {
            Ok(crate::numbers::dec_val(toks[2]) as u64)
        } else {
            Err("Invalid node ID"@)
        }
    } else {
        Err("Unsupported command"@)
    }
}

impl Query {
    /// Parses a crate-root command line: exactly `PLEASE DELETE <id>`.
    pub fn parse(s: &str) -> (r: Result<Query, String>)
        ensures
            (match r {
                Ok(q) => {
                    &&& q is PleaseDelete
                    &&& spec_parse_root(tokens_of(s@)) == Ok::<u64, Seq<char>>(q->PleaseDelete_0)
                },
                Err(e) => spec_parse_root(tokens_of(s@)) == Err::<u64, Seq<char>>(e@),
            }),
    {
        let toks = tokenize(s);
        let ghost tv = toks@.map_values(|t: String| t@);
        proof {
            assert(forall|j: int| 0 <= j < toks@.len() ==> tv[j] == (#[trigger] toks@[j])@);
        }
        if toks.len() != 3 {
            Err("Invalid command format".to_owned())
        } else if crate::query_parser::str_eq(toks[0].as_str(), "PLEASE")
            && crate::query_parser::str_eq(toks[1].as_str(), "DELETE") {
            match crate::numbers::parse_u64(toks[2].as_str()) {
                Some(id) => Ok(Query::PleaseDelete(id)),
                None => Err("Invalid node ID".to_owned()),
            }
        } else {
            Err("Unsupported command".to_owned())
        }
    }
}

impl core::str::FromStr for Query {
    type Err = String;

    fn from_str(s: &str) -> Result<Query, String> {
        Query::parse(s)
    }
}

/// Runs a crate-root operation against the graph: a guarded delete, reported
/// as text.
pub fn execute_query(graph: &mut Graph, query: Query) -> (r: Result<String, String>)
    requires
        old(graph)@.wf(),
    ensures
        final(graph)@.wf(),
        (match query {
            Query::PleaseDelete(id) => match r {
                Ok(msg) => {
                    &&& old(graph)@.out_degree(id) == 0
                    &&& msg@ == please_deleted_msg(id)
                    &&& (if old(graph)@.has_node(id) {
                        final(graph)@ == delete_result(old(graph)@, id)
                    } else {
                        final(graph)@ == old(graph)@
                    })
                },
                Err(e) => {
                    &&& old(graph)@.out_degree(id) != 0
                    &&& e@ == please_failed_msg(id, cannot_delete_msg(id))
                    &&& final(graph)@ == old(graph)@
                },
            },
        }),
{
    match query {
        Query::PleaseDelete(id) => {
            match graph.delete_node_please(id) {
                Ok(_) => {
                    let mut msg = "Node ".to_owned();
                    msg.append(u64_to_string(id).as_str());
                    msg.append(" deleted successfully.");
                    proof {
                        assert(msg@ =~= please_deleted_msg(id));
                    }
                    Ok(msg)
                },
                Err(e) => {
                    let mut msg = "Failed to delete node ".to_owned();
                    msg.append(u64_to_string(id).as_str());
                    msg.append(": ");
                    msg.append(e.as_str());
                    proof {
                        assert(msg@ =~= please_failed_msg(id, cannot_delete_msg(id)));
                    }
                    Err(msg)
                },
            }
        },
    }
}

} // verus!
