use vstd::prelude::*;

use crate::json::{
    join_comma, json_of_host, json_of_node, json_of_value, json_string, node_encodable,
    opt_children_encodable, opt_values_encodable, value_encodable, write_host, write_json_string,
    write_values,
};
use crate::node::{
    contents_of, key_index, lemma_key_index, lookup_segments, lookup_spec, GNode, OSCNode,
};
use crate::oscvalue::{tag_string, type_string, vals_view, GValue};
use crate::text::eq_str;

verus! {

/// What the core tells the serving layer to answer for one request.
#[derive(Debug)]
pub enum OscQueryResponse {
    /// A JSON body to send back.
    Body(String),
    /// The query string names no supported attribute.
    NotSupported,
    /// The path names no node, or the node lacks the asked-for field.
    NotFound,
}

/// Every node a lookup can reach inside an encodable tree is encodable.
pub proof fn lemma_lookup_encodable(g: GNode, segs: Seq<Seq<char>>)
    requires
        node_encodable(g),
        lookup_spec(g, segs) is Some,
    ensures
        node_encodable(lookup_spec(g, segs)->Some_0),
    decreases segs.len(),
{
    if segs.len() == 0 {
    } else {
        let cs = contents_of(g);
        let i = key_index(cs, segs[0]);
        lemma_key_index(cs, segs[0]);
        assert(i >= 0);
        assert(g.contents is Some) by {
            if g.contents is None {
                assert(cs =~= Seq::<(Seq<char>, GNode)>::empty());
            }
        }
        assert(opt_children_encodable(g.contents));
        assert(g.contents->Some_0 == cs);
        assert(node_encodable((g.contents->Some_0[i]).1));
        lemma_lookup_encodable(cs[i].1, segs.drop_first());
    }
}

impl OSCNode {
    /// Answers one request against this tree: the path picks the node, the
    /// query string picks what to say about it.
    ///
    /// Without a query the whole serialized node is the body. `HOST_INFO`,
    /// `VALUE` and `TYPE` each answer with just that part; a node that lacks
    /// the part has nothing to answer, so the reply says the resource is not
    /// found (where serializing it blindly would have had no meaning). Any
    /// other query is unsupported, and a path that names no node is not
    /// found.
    pub fn handle_query(&self, path: String, query: Option<String>) -> (r: OscQueryResponse)
        requires
            node_encodable(self@),
        ensures
            ({
                let found = lookup_spec(self@, lookup_segments(path@));
                match found {
                    None => r is NotFound,
                    Some(g) => match query {
                        None => r matches OscQueryResponse::Body(b) && b@ == json_of_node(g),
                        Some(q) => if q@ == "HOST_INFO"@ {
                            match g.host_info {
                                Some(h) => r matches OscQueryResponse::Body(b) && b@
                                    == json_of_host(h),
                                None => r is NotFound,
                            }
                        } else if q@ == "VALUE"@ {
                            match g.values {
                                Some(vs) => r matches OscQueryResponse::Body(b) && b@
                                    == "{\"VALUE\":["@ + join_comma(
                                    vs.map_values(|v: GValue| json_of_value(v)),
                                ) + "]}"@,
                                None => r is NotFound,
                            }
                        } else if q@ == "TYPE"@ {
                            match g.types {
                                Some(ts) => r matches OscQueryResponse::Body(b) && b@
                                    == json_string(tag_string(ts)),
                                None => r is NotFound,
                            }
                        } else {
                            r is NotSupported
                        },
                    },
                }
            }),
    {
        let ghost a = path@;
        match self.get(path) {
            Err(_) => OscQueryResponse::NotFound,
            Ok(node) => {
                proof {
                    lemma_lookup_encodable(self@, lookup_segments(a));
                }
                match &query {
                    None => OscQueryResponse::Body(node.to_json()),
                    Some(q) => {
                        if eq_str(q.as_str(), "HOST_INFO") {
                            match &node.host_info {
                                Some(h) => {
                                    let mut out = String::new();
                                    write_host(h, &mut out);
                                    proof {
                                        assert(Seq::<char>::empty() + json_of_host(h@)
                                            =~= json_of_host(h@));
                                    }
                                    OscQueryResponse::Body(out)
                                },
                                None => OscQueryResponse::NotFound,
                            }
                        } else if eq_str(q.as_str(), "VALUE") {
                            match &node.value {
                                Some(vs) => {
                                    proof {
                                        assert(node@.values == Some(vals_view(vs@)));
                                        assert forall|t: int|
                                            0 <= t < vs@.len() implies value_encodable(
                                            #[trigger] vals_view(vs@)[t],
                                        ) by {
                                            assert(opt_values_encodable(Some(vals_view(vs@))));
                                            assert(Some(vals_view(vs@))->Some_0 == vals_view(
                                                vs@,
                                            ));
                                            assert(value_encodable(
                                                Some(vals_view(vs@))->Some_0[t],
                                            ));
                                        }
                                    }
                                    let mut out = String::from_str("{\"VALUE\":[");
                                    write_values(vs, &mut out);
                                    out.append("]}");
                                    OscQueryResponse::Body(out)
                                },
                                None => OscQueryResponse::NotFound,
                            }
                        } else if eq_str(q.as_str(), "TYPE") {
                            match &node.osc_type {
                                Some(ts) => {
                                    let tags = type_string(ts);
                                    let mut out = String::new();
                                    write_json_string(tags.as_str(), &mut out);
                                    proof {
                                        assert(Seq::<char>::empty() + json_string(
                                            tag_string(vals_view(ts@)),
                                        ) =~= json_string(tag_string(vals_view(ts@))));
                                    }
                                    OscQueryResponse::Body(out)
                                },
                                None => OscQueryResponse::NotFound,
                            }
                        } else {
                            OscQueryResponse::NotSupported
                        }
                    },
                }
            },
        }
    }
}

} // verus!
