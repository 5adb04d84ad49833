//! The command interpreter: parsing a line of text into a typed operation and
//! running it against a graph.

use vstd::prelude::*;
use vstd::string::{StrSliceExecFns, StringExecFns};

use crate::graph::{cannot_delete_msg, delete_result, Graph, GraphView};
use crate::node::{Node, NodeView};
use crate::numbers::{all_digits, dec_digits, dec_val, parse_u64, u64_to_string};

verus! {

/// True when `c` separates command tokens.
pub open spec fn is_space(c: char) -> bool {
    c == ' ' || c == '\t' || c == '\n' || c == '\r'
}

/// The tokens of `s` after `cur` has been read as the start of a token:
/// maximal runs of non-separator characters.
pub open spec fn tokens_rec(s: Seq<char>, cur: Seq<char>) -> Seq<Seq<char>>
    decreases s.len(),
{
    if s.len() == 0 {
        if cur.len() == 0 {
            Seq::empty()
        } else {
            seq![cur]
        }
    } else if is_space(s[0]) {
        if cur.len() == 0 {
            tokens_rec(s.drop_first(), Seq::empty())
        } else {
            seq![cur] + tokens_rec(s.drop_first(), Seq::empty())
        }
    } else {
        tokens_rec(s.drop_first(), cur.push(s[0]))
    }
}

/// The whitespace-separated tokens of a command line.
pub open spec fn tokens_of(s: Seq<char>) -> Seq<Seq<char>> {
    tokens_rec(s, Seq::empty())
}

/// True when `t` is a non-empty digit string whose value fits a `u64`.
pub open spec fn valid_u64_digits(t: Seq<char>) -> bool {
    t.len() > 0 && all_digits(t) && dec_val(t) <= u64::MAX
}

/// A typed graph operation.
pub enum Query {
    AddNode(u64, String),
    GetNode(u64),
    DeleteNode(u64),
    PleaseDeleteNode(u64),
}

/// The mathematical content of a [`Query`].
pub enum QueryView {
    AddNode(u64, Seq<char>),
    GetNode(u64),
    DeleteNode(u64),
    PleaseDeleteNode(u64),
}

impl View for Query {
    type V = QueryView;

    closed spec fn view(&self) -> QueryView {
        match self {
            Query::AddNode(id, l) => QueryView::AddNode(*id, l@),
            Query::GetNode(id) => QueryView::GetNode(*id),
            Query::DeleteNode(id) => QueryView::DeleteNode(*id),
            Query::PleaseDeleteNode(id) => QueryView::PleaseDeleteNode(*id),
        }
    }
}

/// What parsing a token list yields: the typed operation, or the failure
/// text.
pub open spec fn spec_parse(toks: Seq<Seq<char>>) -> Result<QueryView, Seq<char>> {
    if toks.len() == 3 && toks[0] == "ADD"@ {
        if valid_u64_digits(toks[1]) {
            Ok(QueryView::AddNode(dec_val(toks[1]) as u64, toks[2]))
        } else {
            Err("Invalid node ID"@)
        }
    } else if toks.len() == 2 && toks[0] == "GET"@ {
        if valid_u64_digits(toks[1]) {
            Ok(QueryView::GetNode(dec_val(toks[1]) as u64))
        } else {
            Err("Invalid node ID"@)
        }
    } else if toks.len() == 2 && toks[0] == "DELETE"@ {
        if valid_u64_digits(toks[1]) {
            Ok(QueryView::DeleteNode(dec_val(toks[1]) as u64))
        } else {
            Err("Invalid node ID"@)
        }
    } else if toks.len() == 3 && toks[0] == "PLEASE"@ && toks[1] == "DELETE"@ {
        if valid_u64_digits(toks[2]) {
            Ok(QueryView::PleaseDeleteNode(dec_val(toks[2]) as u64))
        } else {
            Err("Invalid node ID"@)
        }
    } else {
        Err("Unsupported command"@)
    }
}

/// True when `a` and `b` read the same.
pub fn str_eq(a: &str, b: &str) -> (r: bool)
    ensures
        r == (a@ == b@),
{
    let n = a.unicode_len();
    let m = b.unicode_len();
    if n != m {
        return false;
    }
    let mut i: usize = 0;
    while i < n
        invariant
            n == a@.len(),
            n == b@.len(),
            i <= n,
            forall|j: int| 0 <= j < i ==> a@[j] == b@[j],
        decreases n - i,
    {
        if a.get_char(i) != b.get_char(i) {
            return false;
        }
        i += 1;
    }
    proof {
        assert(a@ =~= b@);
    }
    true
}

/// Splits a command line into its whitespace-separated tokens.
pub fn tokenize(s: &str) -> (r: Vec<String>)
    ensures
        r@.map_values(|t: String| t@) == tokens_of(s@),
{
    let n = s.unicode_len();
    let mut toks: Vec<String> = Vec::new();
    let mut start: usize = 0;
    let mut in_tok: bool = false;
    let mut i: usize = 0;
    proof {
        assert(s@.skip(0) =~= s@);
    }
    while i < n
        invariant
            n == s@.len(),
            i <= n,
            in_tok ==> start < i,
            !in_tok ==> start <= i,
            toks@.map_values(|t: String| t@) + tokens_rec(
                s@.skip(i as int),
                if in_tok {
                    s@.subrange(start as int, i as int)
                } else {
                    Seq::empty()
                },
            ) == tokens_of(s@),
        decreases n - i,
    {
        let ghost cur = if in_tok {
            s@.subrange(start as int, i as int)
        } else {
            Seq::<char>::empty()
        };
        proof {
            assert(s@.skip(i as int)[0] == s@[i as int]);
            assert(s@.skip(i as int).drop_first() =~= s@.skip(i as int + 1));
        }
        let c = s.get_char(i);
        if c == ' ' || c == '\t' || c == '\n' || c == '\r' {
            if in_tok {
                let tok = s.substring_char(start, i).to_owned();
                proof {
                    assert(tok@ == cur);
                    assert(tokens_rec(s@.skip(i as int), cur) == seq![cur] + tokens_rec(
                        s@.skip(i as int + 1),
                        Seq::empty(),
                    ));
                }
                toks.push(tok);
                proof {
                    assert(toks@.map_values(|t: String| t@) + tokens_rec(
                        s@.skip(i as int + 1),
                        Seq::<char>::empty(),
                    ) =~= tokens_of(s@)) by {
                        assert(toks@.drop_last().map_values(|t: String| t@).push(cur)
                            =~= toks@.map_values(|t: String| t@));
                        assert((toks@.drop_last().map_values(|t: String| t@) + (seq![cur]
                            + tokens_rec(s@.skip(i as int + 1), Seq::<char>::empty()))) =~= (
                        toks@.map_values(|t: String| t@) + tokens_rec(
                            s@.skip(i as int + 1),
                            Seq::<char>::empty(),
                        )));
                    }
                }
                in_tok = false;
            }
        } else {
            if !in_tok {
                start = i;
                in_tok = true;
                proof {
                    assert(s@.subrange(i as int, i as int + 1) =~= Seq::<char>::empty().push(
                        s@[i as int],
                    ));
                }
            } else {
                proof {
                    assert(s@.subrange(start as int, i as int + 1) =~= cur.push(s@[i as int]));
                }
            }
        }
        i += 1;
    }
    proof {
        assert(s@.skip(n as int) =~= Seq::<char>::empty());
    }
    if in_tok {
        let tok = s.substring_char(start, n).to_owned();
        proof {
            let cur = s@.subrange(start as int, n as int);
            assert(tok@ == cur);
            assert(tokens_rec(Seq::<char>::empty(), cur) == seq![cur]);
        }
        toks.push(tok);
        proof {
            assert(toks@.drop_last().map_values(|t: String| t@).push(
                s@.subrange(start as int, n as int),
            ) =~= toks@.map_values(|t: String| t@));
            assert(toks@.map_values(|t: String| t@) =~= tokens_of(s@));
        }
    } else {
        proof {
            assert(tokens_rec(Seq::<char>::empty(), Seq::<char>::empty())
                == Seq::<Seq<char>>::empty());
            assert(toks@.map_values(|t: String| t@) + Seq::<Seq<char>>::empty()
                =~= toks@.map_values(|t: String| t@));
        }
    }
    toks
}

impl Query {
    /// Parses a command line: `ADD <id> <label>`, `GET <id>`, `DELETE <id>`
    /// or `PLEASE DELETE <id>`, with a descriptive failure for a malformed
    /// id or an unsupported command.
    pub fn parse(s: &str) -> (r: Result<Query, String>)
        ensures
            (match r {
                Ok(q) => spec_parse(tokens_of(s@)) == Ok::<QueryView, Seq<char>>(q@),
                Err(e) => spec_parse(tokens_of(s@)) == Err::<QueryView, Seq<char>>(e@),
            }),
    {
        let toks = tokenize(s);
        let ghost tv = toks@.map_values(|t: String| t@);
        proof {
            assert(forall|j: int| 0 <= j < toks@.len() ==> tv[j] == (#[trigger] toks@[j])@);
        }
        if toks.len() == 3 && str_eq(toks[0].as_str(), "ADD") {
            match parse_u64(toks[1].as_str()) {
                Some(id) => {
                    let label = toks[2].clone();
                    proof {
                        assert(label@ == tv[2]);
                    }
                    Ok(Query::AddNode(id, label))
                },
                None => Err("Invalid node ID".to_owned()),
            }
        } else if toks.len() == 2 && str_eq(toks[0].as_str(), "GET") {
            match parse_u64(toks[1].as_str()) {
                Some(id) => Ok(Query::GetNode(id)),
                None => Err("Invalid node ID".to_owned()),
            }
        } else if toks.len() == 2 && str_eq(toks[0].as_str(), "DELETE") {
            match parse_u64(toks[1].as_str()) {
                Some(id) => Ok(Query::DeleteNode(id)),
                None => Err("Invalid node ID".to_owned()),
            }
        } else if toks.len() == 3 && str_eq(toks[0].as_str(), "PLEASE") && str_eq(
            toks[1].as_str(),
            "DELETE",
        ) {
            match parse_u64(toks[2].as_str()) {
                Some(id) => Ok(Query::PleaseDeleteNode(id)),
                None => Err("Invalid node ID".to_owned()),
            }
        } else {
            Err("Unsupported command".to_owned())
        }
    }
}

impl core::str::FromStr for Query {
    type Err = String;

    fn from_str(s: &str) -> Result<Query, String> {
        Query::parse(s)
    }
}

/// `"Node <id>"`.
pub open spec fn node_prefix_text(id: u64) -> Seq<char> {
    "Node "@ + dec_digits(id as nat)
}

/// The text reported after a node is added.
pub open spec fn added_msg(id: u64) -> Seq<char> {
    node_prefix_text(id) + " added successfully."@
}

/// The text reporting a node's label.
pub open spec fn get_msg(id: u64, label: Option<Seq<char>>) -> Seq<char> {
    node_prefix_text(id) + ": "@ + (match label {
        Some(l) => l,
        None => "No label"@,
    })
}

/// The failure text for a lookup of an absent node.
pub open spec fn not_found_msg(id: u64) -> Seq<char> {
    node_prefix_text(id) + " not found."@
}

/// The text reported after an unconditional delete.
pub open spec fn deleted_msg(id: u64) -> Seq<char> {
    node_prefix_text(id) + " deleted."@
}

/// The text reported after a successful guarded delete.
pub open spec fn please_deleted_msg(id: u64) -> Seq<char> {
    node_prefix_text(id) + " deleted successfully."@
}

/// The failure text of a guarded delete, wrapping the graph's own message.
pub open spec fn please_failed_msg(id: u64, e: Seq<char>) -> Seq<char> {
    "Failed to delete node "@ + dec_digits(id as nat) + ": "@ + e
}

/// `"Node <id>"` as an owned string.
fn node_prefix(id: u64) -> (r: String)
    ensures
        r@ == node_prefix_text(id),
{
    let mut s = "Node ".to_owned();
    s.append(u64_to_string(id).as_str());
    s
}

/// Runs a typed operation against the graph and reports the outcome as text.
pub fn execute_query(graph: &mut Graph, query: Query) -> (r: Result<String, String>)
    requires
        old(graph)@.wf(),
    ensures
        final(graph)@.wf(),
        (match query@ {
            QueryView::AddNode(id, l) => {
                &&& (match r {
                    Ok(msg) => msg@ == added_msg(id),
                    Err(_) => false,
                })
                &&& final(graph)@.has_node(id)
                &&& final(graph)@.node_at(id) == (NodeView {
                    id,
                    label: Some(l),
                    props: Seq::empty(),
                })
                &&& final(graph)@.edges == old(graph)@.edges
                &&& final(graph)@.adjacency == old(graph)@.adjacency
                &&& final(graph)@.core_nodes == old(graph)@.core_nodes
            },
            QueryView::GetNode(id) => {
                &&& final(graph)@ == old(graph)@
                &&& (match r {
                    Ok(msg) => old(graph)@.has_node(id) && msg@ == get_msg(
                        id,
                        old(graph)@.node_at(id).label,
                    ),
                    Err(e) => !old(graph)@.has_node(id) && e@ == not_found_msg(id),
                })
            },
            QueryView::DeleteNode(id) => {
                &&& (match r {
                    Ok(msg) => msg@ == deleted_msg(id),
                    Err(_) => false,
                })
                &&& (if old(graph)@.has_node(id) {
                    final(graph)@ == delete_result(old(graph)@, id)
                } else {
                    final(graph)@ == old(graph)@
                })
            },
            QueryView::PleaseDeleteNode(id) => {
                &&& (match r {
                    Ok(msg) => {
                        &&& old(graph)@.out_degree(id) == 0
                        &&& msg@ == please_deleted_msg(id)
                        &&& (if old(graph)@.has_node(id) {
                            final(graph)@ == delete_result(old(graph)@, id)
                        } else {
                            final(graph)@ == old(graph)@
                        })
                    },
                    Err(e) => {
                        &&& old(graph)@.out_degree(id) != 0
                        &&& e@ == please_failed_msg(id, cannot_delete_msg(id))
                        &&& final(graph)@ == old(graph)@
                    },
                })
            },
        }),
{
    match query {
        Query::AddNode(id, label) => {
            let node = Node::new(id, Some(label));
            graph.add_node(node);
            let mut msg = node_prefix(id);
            msg.append(" added successfully.");
            proof {
                assert(msg@ =~= added_msg(id));
            }
            Ok(msg)
        },
        Query::GetNode(id) => {
            match graph.get_node(id) {
                Some(node) => {
                    let mut msg = node_prefix(id);
                    msg.append(": ");
                    match node.label() {
                        Some(l) => {
                            msg.append(l.as_str());
                        },
                        None => {
                            msg.append("No label");
                        },
                    }
                    proof {
                        assert(msg@ =~= get_msg(id, graph@.node_at(id).label));
                    }
                    Ok(msg)
                },
                None => {
                    let mut msg = node_prefix(id);
                    msg.append(" not found.");
                    proof {
                        assert(msg@ =~= not_found_msg(id));
                    }
                    Err(msg)
                },
            }
        },
        Query::DeleteNode(id) => {
            graph.delete_node(id);
            let mut msg = node_prefix(id);
            msg.append(" deleted.");
            proof {
                assert(msg@ =~= deleted_msg(id));
            }
            Ok(msg)
        },
        Query::PleaseDeleteNode(id) => {
            match graph.delete_node_please(id) {
                Ok(_) => {
                    let mut msg = node_prefix(id);
                    msg.append(" deleted successfully.");
                    proof {
                        assert(msg@ =~= please_deleted_msg(id));
                    }
                    Ok(msg)
                },
                Err(e) => {
                    let mut msg = "Failed to delete node ".to_owned();
                    msg.append(u64_to_string(id).as_str());
                    msg.append(": ");
                    msg.append(e.as_str());
                    proof {
                        assert(msg@ =~= please_failed_msg(id, cannot_delete_msg(id)));
                    }
                    Err(msg)
                },
            }
        },
    }
}

} // verus!
