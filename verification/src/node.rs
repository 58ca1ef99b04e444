use vstd::prelude::*;

use crate::error::OscQueryError;
use crate::hostinfo::{GHostInfo, OscHostInfo};
use crate::oscunit::OSCUnit;
use crate::oscvalue::{vals_view, GValue, OscValue};
use crate::parameter::{GParam, GRange, OSCAccess, OscQueryParameter, OscRange};
use crate::text::{
    eq_str, seq_char_lt, split_slash, split_slash_exec, str_lt,
};

verus! {

/// One position in the address tree. At each reachable address the tree
/// accumulates description, access, per-channel type/value/range/unit data,
/// the children by segment name, and (on the root only) the host descriptor.
#[derive(Debug)]
pub struct OSCNode {
    pub description: String,
    pub full_path: String,
    pub access: Option<OSCAccess>,
    pub contents: Option<Vec<(String, OSCNode)>>,
    pub osc_type: Option<Vec<OscValue>>,
    pub value: Option<Vec<OscValue>>,
    pub range: Option<Vec<OscRange>>,
    pub unit: Option<Vec<OSCUnit>>,
    pub host_info: Option<Box<OscHostInfo>>,
}

/// The mathematical shape of a node.
#[verifier::ext_equal]
pub ghost struct GNode {
    pub description: Seq<char>,
    pub full_path: Seq<char>,
    pub access: Option<OSCAccess>,
    pub contents: Option<Seq<(Seq<char>, GNode)>>,
    pub types: Option<Seq<GValue>>,
    pub values: Option<Seq<GValue>>,
    pub ranges: Option<Seq<GRange>>,
    pub units: Option<Seq<OSCUnit>>,
    pub host_info: Option<GHostInfo>,
}

/// The views of a children vector, in order.
pub open spec fn children_view(s: Seq<(String, OSCNode)>) -> Seq<(Seq<char>, GNode)>
    decreases s,
{
    if s.len() == 0 {
        Seq::empty()
    } else {
        children_view(s.drop_last()).push((s.last().0@, node_view(s.last().1)))
    }
}

/// The views of a range vector.
pub open spec fn ranges_view(s: Seq<OscRange>) -> Seq<GRange> {
    s.map_values(|r: OscRange| r@)
}

/// The mathematical shape of a node value.
pub open spec fn node_view(n: OSCNode) -> GNode
    decreases n,
{
    GNode {
        description: n.description@,
        full_path: n.full_path@,
        access: n.access,
        contents: match n.contents {
            Some(v) => Some(children_view(v@)),
            None => None,
        },
        types: match n.osc_type {
            Some(v) => Some(vals_view(v@)),
            None => None,
        },
        values: match n.value {
            Some(v) => Some(vals_view(v@)),
            None => None,
        },
        ranges: match n.range {
            Some(v) => Some(ranges_view(v@)),
            None => None,
        },
        units: match n.unit {
            Some(v) => Some(v@),
            None => None,
        },
        host_info: match n.host_info {
            Some(h) => Some(h@),
            None => None,
        },
    }
}

impl View for OSCNode {
    type V = GNode;

    open spec fn view(&self) -> GNode {
        node_view(*self)
    }
}

/// `children_view` keeps length and maps each pair to its views.
pub proof fn lemma_children_view(s: Seq<(String, OSCNode)>)
    ensures
        children_view(s).len() == s.len(),
        forall|i: int|
            0 <= i < s.len() ==> #[trigger] children_view(s)[i] == (s[i].0@, node_view(s[i].1)),
    decreases s,
{
    if s.len() > 0 {
        lemma_children_view(s.drop_last());
        assert(forall|i: int| 0 <= i < s.len() - 1 ==> #[trigger] s.drop_last()[i] == s[i]);
    }
}

/// The path of the child named `key` under a node whose path is `parent`:
/// the root's name ends in the separator already, every other name needs one.
pub open spec fn child_path(parent: Seq<char>, key: Seq<char>) -> Seq<char> {
    if parent == seq!['/'] {
        parent + key
    } else {
        parent + seq!['/'] + key
    }
}

/// The parallel-sequence shape of one node's channel data: types and values
/// stand together with equal length, and ranges and units never outgrow them.
pub open spec fn channels_wf(g: GNode) -> bool {
    &&& (g.types is Some <==> g.values is Some)
    &&& (g.types is Some ==> g.types->Some_0.len() == g.values->Some_0.len())
    &&& (g.ranges is Some ==> g.types is Some && g.ranges->Some_0.len()
        <= g.types->Some_0.len())
    &&& (g.units is Some ==> g.types is Some && g.units->Some_0.len() <= g.types->Some_0.len())
}

/// Well-formedness of a subtree: children are strictly ordered by name, each
/// child's path extends its parent's by its name, and channel data stays
/// parallel — at every level.
pub open spec fn gnode_wf(g: GNode) -> bool
    decreases g,
{
    &&& channels_wf(g)
    &&& match g.contents {
        Some(cs) => {
            &&& forall|i: int, j: int|
                0 <= i < j < cs.len() ==> seq_char_lt(#[trigger] cs[i].0, #[trigger] cs[j].0)
            &&& forall|i: int|
                0 <= i < cs.len() ==> (#[trigger] cs[i].1).full_path == child_path(
                    g.full_path,
                    cs[i].0,
                )
            &&& forall|i: int| 0 <= i < cs.len() ==> gnode_wf(#[trigger] cs[i].1)
        },
        None => true,
    }
}

/// Well-formedness of a whole tree: a well-formed subtree rooted at `/`.
pub open spec fn root_wf(g: GNode) -> bool {
    &&& gnode_wf(g)
    &&& g.full_path == seq!['/']
}

/// The segments of an address: what stands between the separators, the
/// leading empty piece dropped.
pub open spec fn address_segments(a: Seq<char>) -> Seq<Seq<char>> {
    split_slash(a).drop_first()
}

/// A well-formed address: absolute (it begins with the separator) and
/// without empty segments (no doubled or trailing separator).
pub open spec fn valid_address(a: Seq<char>) -> bool {
    &&& split_slash(a).len() >= 2
    &&& split_slash(a)[0] == Seq::<char>::empty()
    &&& forall|i: int| 1 <= i < split_slash(a).len() ==> #[trigger] split_slash(a)[i].len() > 0
}

/// Index of the first pair in `cs` whose name is `key`, or `-1`.
pub open spec fn key_index(cs: Seq<(Seq<char>, GNode)>, key: Seq<char>) -> int
    decreases cs.len(),
{
    if cs.len() == 0 {
        -1
    } else if cs[0].0 == key {
        0
    } else if key_index(cs.drop_first(), key) < 0 {
        -1
    } else {
        key_index(cs.drop_first(), key) + 1
    }
}

pub proof fn lemma_key_index(cs: Seq<(Seq<char>, GNode)>, key: Seq<char>)
    ensures
        -1 <= key_index(cs, key) < cs.len(),
        key_index(cs, key) >= 0 ==> cs[key_index(cs, key)].0 == key,
        forall|j: int| 0 <= j < key_index(cs, key) ==> (#[trigger] cs[j]).0 != key,
        key_index(cs, key) == -1 ==> forall|j: int|
            0 <= j < cs.len() ==> (#[trigger] cs[j]).0 != key,
    decreases cs.len(),
{
    if cs.len() == 0 {
    } else if cs[0].0 == key {
    } else {
        lemma_key_index(cs.drop_first(), key);
        assert forall|j: int| 0 <= j < key_index(cs, key) implies (#[trigger] cs[j]).0 != key by {
            if j >= 1 {
                assert(cs[j] == cs.drop_first()[j - 1]);
            }
        }
        if key_index(cs, key) == -1 {
            assert forall|j: int| 0 <= j < cs.len() implies (#[trigger] cs[j]).0 != key by {
                if j >= 1 {
                    assert(cs[j] == cs.drop_first()[j - 1]);
                }
            }
        }
    }
}

/// When the names before `i` all differ from `key` and `cs[i]` carries it,
/// `i` is the first index with that name.
pub proof fn lemma_key_index_found(cs: Seq<(Seq<char>, GNode)>, key: Seq<char>, i: int)
    requires
        0 <= i < cs.len(),
        cs[i].0 == key,
        forall|j: int| 0 <= j < i ==> (#[trigger] cs[j]).0 != key,
    ensures
        key_index(cs, key) == i,
    decreases i,
{
    if i == 0 {
    } else {
        assert(cs[0].0 != key);
        assert(cs.drop_first()[i - 1] == cs[i]);
        assert forall|j: int| 0 <= j < i - 1 implies (#[trigger] cs.drop_first()[j]).0 != key by {
            assert(cs.drop_first()[j] == cs[j + 1]);
        }
        lemma_key_index_found(cs.drop_first(), key, i - 1);
    }
}

/// When no name in `cs` is `key`, there is no index to find.
pub proof fn lemma_key_index_absent(cs: Seq<(Seq<char>, GNode)>, key: Seq<char>)
    requires
        forall|j: int| 0 <= j < cs.len() ==> (#[trigger] cs[j]).0 != key,
    ensures
        key_index(cs, key) == -1,
{
    lemma_key_index(cs, key);
    if key_index(cs, key) >= 0 {
        assert(cs[key_index(cs, key)].0 == key);
    }
}

/// `cs` with `(key, node)` standing where the name order puts it: before the
/// first entry whose name is not below `key`.
pub open spec fn insert_sorted(
    cs: Seq<(Seq<char>, GNode)>,
    key: Seq<char>,
    node: GNode,
) -> Seq<(Seq<char>, GNode)>
    decreases cs.len(),
{
    if cs.len() == 0 {
        seq![(key, node)]
    } else if seq_char_lt(key, cs[0].0) {
        seq![(key, node)] + cs
    } else {
        seq![cs[0]] + insert_sorted(cs.drop_first(), key, node)
    }
}

/// A fresh node created on the way to a deeper address: empty description,
/// no access beyond the default, no content.
pub open spec fn empty_gnode(path: Seq<char>) -> GNode {
    GNode {
        description: Seq::empty(),
        full_path: path,
        access: Some(OSCAccess::NoAcces),
        contents: None,
        types: None,
        values: None,
        ranges: None,
        units: None,
        host_info: None,
    }
}

/// A possibly-absent sequence with one more element at its end; appending to
/// an absent sequence creates it.
pub open spec fn push_opt<A>(o: Option<Seq<A>>, x: A) -> Option<Seq<A>> {
    match o {
        Some(s) => Some(s.push(x)),
        None => Some(seq![x]),
    }
}

/// The children of a node, an empty sequence when it has none yet.
pub open spec fn contents_of(g: GNode) -> Seq<(Seq<char>, GNode)> {
    match g.contents {
        Some(cs) => cs,
        None => Seq::empty(),
    }
}

/// The tree after inserting parameter `p` at the address whose remaining
/// segments are `segs`, walking down from `g`.
///
/// With no segment left, `g` is the target: description, access and path are
/// overwritten from the parameter — last write wins — while one channel is
/// appended: the value's own shape onto `types`, the value onto `values`,
/// and the range and unit onto their sequences when the parameter has them.
/// Otherwise the walk descends into the child named by the first segment,
/// creating it (in name order) when it is missing.
pub open spec fn add_spec(g: GNode, p: GParam, segs: Seq<Seq<char>>) -> GNode
    decreases segs.len(),
{
    if segs.len() == 0 {
        GNode {
            description: p.description,
            full_path: p.address,
            access: p.access,
            contents: g.contents,
            types: push_opt(g.types, p.value),
            values: push_opt(g.values, p.value),
            ranges: match p.range {
                Some(r) => push_opt(g.ranges, r),
                None => g.ranges,
            },
            units: match p.unit {
                Some(u) => push_opt(g.units, u),
                None => g.units,
            },
            host_info: g.host_info,
        }
    } else {
        let key = segs[0];
        let cs0 = contents_of(g);
        let cs1 = if key_index(cs0, key) >= 0 {
            cs0
        } else {
            insert_sorted(cs0, key, empty_gnode(child_path(g.full_path, key)))
        };
        let i = key_index(cs1, key);
        GNode {
            contents: Some(cs1.update(i, (key, add_spec(cs1[i].1, p, segs.drop_first())))),
            ..g
        }
    }
}

/// The node the remaining segments lead to from `g`, if every segment names
/// a child on the way down.
pub open spec fn lookup_spec(g: GNode, segs: Seq<Seq<char>>) -> Option<GNode>
    decreases segs.len(),
{
    if segs.len() == 0 {
        Some(g)
    } else {
        let cs = contents_of(g);
        let i = key_index(cs, segs[0]);
        if i >= 0 {
            lookup_spec(cs[i].1, segs.drop_first())
        } else {
            None
        }
    }
}

/// The longest prefix of pieces before an empty one.
pub open spec fn until_empty(parts: Seq<Seq<char>>) -> Seq<Seq<char>>
    decreases parts.len(),
{
    if parts.len() == 0 || parts[0].len() == 0 {
        Seq::empty()
    } else {
        seq![parts[0]] + until_empty(parts.drop_first())
    }
}

/// The segments a lookup path denotes: the pieces after the leading one,
/// cut short at the first empty piece, so that a trailing separator (or a
/// doubled one) ends the walk at the node reached so far.
pub open spec fn lookup_segments(path: Seq<char>) -> Seq<Seq<char>> {
    until_empty(split_slash(path).drop_first())
}

pub proof fn lemma_until_empty(parts: Seq<Seq<char>>)
    ensures
        until_empty(parts).len() <= parts.len(),
        forall|j: int|
            0 <= j < until_empty(parts).len() ==> #[trigger] until_empty(parts)[j] == parts[j]
                && parts[j].len() > 0,
        until_empty(parts).len() < parts.len() ==> parts[until_empty(parts).len() as int].len() == 0,
    decreases parts.len(),
{
    if parts.len() == 0 || parts[0].len() == 0 {
    } else {
        lemma_until_empty(parts.drop_first());
        let u = until_empty(parts);
        assert(u == seq![parts[0]] + until_empty(parts.drop_first()));
        assert forall|j: int| 0 <= j < u.len() implies #[trigger] u[j] == parts[j]
            && parts[j].len() > 0 by {
            if j >= 1 {
                assert(u[j] == until_empty(parts.drop_first())[j - 1]);
                assert(parts.drop_first()[j - 1] == parts[j]);
            }
        }
        if u.len() < parts.len() {
            assert(parts.drop_first()[u.len() - 1] == parts[u.len() as int]);
        }
    }
}

/// Inserting at a scan position splits the sequence there: before it every
/// name is below `key`, at it the name is not below `key` and differs.
pub proof fn lemma_insert_sorted_split(
    cs: Seq<(Seq<char>, GNode)>,
    key: Seq<char>,
    node: GNode,
    idx: int,
)
    requires
        0 <= idx <= cs.len(),
        forall|j: int| 0 <= j < idx ==> seq_char_lt((#[trigger] cs[j]).0, key),
        idx < cs.len() ==> !seq_char_lt(cs[idx].0, key) && cs[idx].0 != key,
    ensures
        insert_sorted(cs, key, node) =~= cs.take(idx) + seq![(key, node)] + cs.skip(idx),
    decreases idx,
{
    if idx == 0 {
        if cs.len() > 0 {
            crate::text::lemma_seq_char_lt_total(cs[0].0, key);
            assert(seq_char_lt(key, cs[0].0));
        }
        assert(cs.take(0) =~= Seq::<(Seq<char>, GNode)>::empty());
        assert(cs.skip(0) =~= cs);
    } else {
        crate::text::lemma_seq_char_lt_asymmetric(cs[0].0, key);
        assert(!seq_char_lt(key, cs[0].0));
        let rest = cs.drop_first();
        assert forall|j: int| 0 <= j < idx - 1 implies seq_char_lt(
            (#[trigger] rest[j]).0,
            key,
        ) by {
            assert(rest[j] == cs[j + 1]);
        }
        if idx - 1 < rest.len() {
            assert(rest[idx - 1] == cs[idx]);
        }
        lemma_insert_sorted_split(rest, key, node, idx - 1);
        assert(insert_sorted(cs, key, node) == seq![cs[0]] + insert_sorted(rest, key, node));
        assert(rest.take(idx - 1) =~= cs.subrange(1, idx));
        assert(rest.skip(idx - 1) =~= cs.skip(idx));
        assert(seq![cs[0]] + (cs.subrange(1, idx) + seq![(key, node)] + cs.skip(idx)) =~= cs.take(
            idx,
        ) + seq![(key, node)] + cs.skip(idx));
    }
}

/// The views of a vector of name/node pairs, as the names see them.
pub open spec fn seg_views(s: Seq<String>) -> Seq<Seq<char>> {
    s.map_values(|x: String| x@)
}

/// First index in `cs` whose name equals `key`, scanning left to right.
fn find_key(cs: &Vec<(String, OSCNode)>, key: &str) -> (r: Option<usize>)
    ensures
        match r {
            Some(j) => {
                &&& (j as int) < cs@.len()
                &&& cs@[j as int].0@ == key@
                &&& forall|t: int| 0 <= t < j ==> (#[trigger] cs@[t]).0@ != key@
            },
            None => forall|t: int| 0 <= t < cs@.len() ==> (#[trigger] cs@[t]).0@ != key@,
        },
{
    let mut j: usize = 0;
    while j < cs.len()
        invariant
            j <= cs@.len(),
            forall|t: int| 0 <= t < j ==> (#[trigger] cs@[t]).0@ != key@,
        decreases cs@.len() - j,
    {
        if eq_str(cs[j].0.as_str(), key) {
            return Some(j);
        }
        j = j + 1;
    }
    None
}

/// First index in `cs` whose name is not below `key`: the slot a new entry
/// named `key` belongs in.
fn find_slot(cs: &Vec<(String, OSCNode)>, key: &str) -> (r: usize)
    ensures
        r <= cs@.len(),
        forall|j: int| 0 <= j < r ==> seq_char_lt((#[trigger] cs@[j]).0@, key@),
        (r as int) < cs@.len() ==> !seq_char_lt(cs@[r as int].0@, key@),
{
    let mut j: usize = 0;
    while j < cs.len()
        invariant
            j <= cs@.len(),
            forall|t: int| 0 <= t < j ==> seq_char_lt((#[trigger] cs@[t]).0@, key@),
        decreases cs@.len() - j,
    {
        if !str_lt(cs[j].0.as_str(), key) {
            return j;
        }
        j = j + 1;
    }
    j
}

impl OSCNode {
    /// The root node: path `/`, no access rights, no content, and the host
    /// descriptor when one is given.
    pub fn root(host_info: Option<Box<OscHostInfo>>) -> (r: Self)
        ensures
            r@ == (GNode {
                description: Seq::<char>::empty(),
                full_path: seq!['/'],
                access: Some(OSCAccess::NoAcces),
                contents: None,
                types: None,
                values: None,
                ranges: None,
                units: None,
                host_info: match host_info {
                    Some(h) => Some(h@),
                    None => None,
                },
            }),
    {
        proof {
            reveal_strlit("/");
            assert("/"@ =~= seq!['/']);
        }
        OSCNode {
            description: String::new(),
            full_path: String::from_str("/"),
            access: Some(OSCAccess::NoAcces),
            contents: None,
            osc_type: None,
            value: None,
            range: None,
            unit: None,
            host_info,
        }
    }

    /// Walks down from this node along `segs[i..]`, creating missing nodes
    /// on the way, and plants the parameter at the end of the walk.
    #[verifier::rlimit(100)]
    fn add_recursion(self, parameter: OscQueryParameter, segs: &Vec<String>, i: usize) -> (r:
        OSCNode)
        requires
            i <= segs@.len(),
        ensures
            r@ == add_spec(self@, parameter@, seg_views(segs@).skip(i as int)),
        decreases segs@.len() - i,
    {
        let ghost g0 = self@;
        let ghost gp = parameter@;
        let ghost rest = seg_views(segs@).skip(i as int);
        let mut me = self;
        if i == segs.len() {
            proof {
                assert(rest =~= Seq::<Seq<char>>::empty());
            }
            me.description = parameter.description;
            me.access = parameter.access;
            me.full_path = parameter.address;
            let tagged = parameter.value.duplicate();
            match &mut me.osc_type {
                Some(v) => v.push(tagged),
                None => me.osc_type = Some(vec![tagged]),
            }
            match &mut me.value {
                Some(v) => v.push(parameter.value),
                None => me.value = Some(vec![parameter.value]),
            }
            if let Some(u) = parameter.unit {
                match &mut me.unit {
                    Some(v) => v.push(u),
                    None => me.unit = Some(vec![u]),
                }
            }
            if let Some(rg) = parameter.range {
                match &mut me.range {
                    Some(v) => v.push(rg),
                    None => me.range = Some(vec![rg]),
                }
            }
            proof {
                match g0.types {
                    Some(ts) => assert(me@.types->Some_0 =~= ts.push(gp.value)),
                    None => assert(me@.types->Some_0 =~= seq![gp.value]),
                }
                match g0.values {
                    Some(vs) => assert(me@.values->Some_0 =~= vs.push(gp.value)),
                    None => assert(me@.values->Some_0 =~= seq![gp.value]),
                }
                if let Some(u) = gp.unit {
                    match g0.units {
                        Some(us) => assert(me@.units->Some_0 =~= us.push(u)),
                        None => assert(me@.units->Some_0 =~= seq![u]),
                    }
                }
                if let Some(rg) = gp.range {
                    match g0.ranges {
                        Some(rs) => assert(me@.ranges->Some_0 =~= rs.push(rg)),
                        None => assert(me@.ranges->Some_0 =~= seq![rg]),
                    }
                }
                assert(me@ =~~= add_spec(g0, gp, rest));
            }
            me
        } else {
            let ghost key_v = segs@[i as int]@;
            proof {
                assert(rest[0] == key_v);
                assert(rest.drop_first() =~= seg_views(segs@).skip(i as int + 1));
            }
            if me.contents.is_none() {
                me.contents = Some(Vec::new());
            }
            let mut taken: Option<Vec<(String, OSCNode)>> = None;
            core::mem::swap(&mut taken, &mut me.contents);
            let mut cs = taken.unwrap();
            let ghost cv0 = children_view(cs@);
            proof {
                lemma_children_view(cs@);
                assert(cv0 == contents_of(g0));
            }
            let idx: usize;
            match find_key(&cs, segs[i].as_str()) {
                Some(j) => {
                    idx = j;
                    proof {
                        lemma_key_index_found(cv0, key_v, j as int);
                    }
                },
                None => {
                    proof {
                        lemma_key_index_absent(cv0, key_v);
                    }
                    idx = find_slot(&cs, segs[i].as_str());
                    let path = child_path_exec(me.full_path.as_str(), segs[i].as_str());
                    let blank = OSCNode {
                        description: String::new(),
                        full_path: path,
                        access: Some(OSCAccess::NoAcces),
                        contents: None,
                        osc_type: None,
                        value: None,
                        range: None,
                        unit: None,
                        host_info: None,
                    };
                    let key_owned = segs[i].clone();
                    let ghost blank_v = blank@;
                    let ghost cs_pre = cs@;
                    proof {
                        assert(blank@ =~~= empty_gnode(child_path(g0.full_path, key_v)));
                        lemma_insert_sorted_split(cv0, key_v, blank_v, idx as int);
                        lemma_children_view_insert(cs_pre, idx as int, (key_owned, blank));
                    }
                    cs.insert(idx, (key_owned, blank));
                    proof {
                        assert(children_view(cs@) =~= insert_sorted(cv0, key_v, blank_v));
                        lemma_key_index_found(children_view(cs@), key_v, idx as int);
                    }
                },
            }
            let ghost cs1 = if key_index(cv0, key_v) >= 0 {
                cv0
            } else {
                insert_sorted(cv0, key_v, empty_gnode(child_path(g0.full_path, key_v)))
            };
            proof {
                assert(children_view(cs@) == cs1);
                assert(key_index(cs1, key_v) == idx as int);
                lemma_children_view(cs@);
            }
            let ghost cs_mid = cs@;
            let (key_back, child) = cs.remove(idx);
            proof {
                assert(child@ == cs1[idx as int].1);
            }
            let child2 = child.add_recursion(parameter, segs, i + 1);
            cs.insert(idx, (key_back, child2));
            proof {
                cs_mid.remove_ensures(idx as int);
                cs_mid.remove(idx as int).insert_ensures(
                    idx as int,
                    (cs_mid[idx as int].0, child2),
                );
                assert(cs@ =~= cs_mid.update(idx as int, (cs_mid[idx as int].0, child2)));
                lemma_children_view_update(cs_mid, idx as int, (cs_mid[idx as int].0, child2));
                assert(cs_mid.update(idx as int, (cs_mid[idx as int].0, child2)) == cs@);
                assert(children_view(cs@) =~= cs1.update(
                    idx as int,
                    (key_v, add_spec(cs1[idx as int].1, gp, rest.drop_first())),
                ));
            }
            me.contents = Some(cs);
            proof {
                assert(me@ =~~= add_spec(g0, gp, rest));
            }
            me
        }
    }

    /// Inserts the parameter at the position its address names, creating the
    /// nodes on the way there; channel data at that address accumulates,
    /// description and access are overwritten. The tree only grows. Always
    /// returns `Ok`: the result stands for symmetry with lookup.
    pub fn add(&mut self, parameter: OscQueryParameter) -> (r: Result<(), OscQueryError>)
        ensures
            r is Ok,
            final(self)@ == add_spec(old(self)@, parameter@, address_segments(parameter.address@)),
    {
        let ghost a = parameter.address@;
        let segs = split_slash_exec(parameter.address.as_str());
        proof {
            crate::text::lemma_split_join(a);
            assert(seg_views(segs@) == split_slash(a));
            assert(seg_views(segs@).skip(1) =~= address_segments(a));
        }
        let mut work = OSCNode::root(None);
        core::mem::swap(self, &mut work);
        let mut done = work.add_recursion(parameter, &segs, 1);
        core::mem::swap(self, &mut done);
        Ok(())
    }

    /// The node `path` leads to, walking one segment at a time; the walk
    /// stops early at a trailing or doubled separator and hands back the node
    /// reached so far. A segment that names no child fails with the path.
    pub fn get(&self, path: String) -> (r: Result<&OSCNode, OscQueryError>)
        ensures
            match r {
                Ok(node) => lookup_spec(self@, lookup_segments(path@)) == Some(node@),
                Err(e) => {
                    &&& lookup_spec(self@, lookup_segments(path@)) is None
                    &&& e matches OscQueryError::BadAddress(p)
                    &&& p@ == path@
                },
            },
    {
        let parts = split_slash_exec(path.as_str());
        let ghost pv = seg_views(parts@);
        let ghost eff = lookup_segments(path@);
        proof {
            crate::text::lemma_split_join(path@);
            assert(pv == split_slash(path@));
            lemma_until_empty(pv.drop_first());
            assert(eff == until_empty(pv.drop_first()));
        }
        let mut cur: &OSCNode = self;
        let mut k: usize = 1;
        proof {
            assert(eff.skip(0) =~= eff);
        }
        loop
            invariant
                1 <= k <= parts@.len(),
                pv == seg_views(parts@),
                pv == split_slash(path@),
                eff == lookup_segments(path@),
                eff == until_empty(pv.drop_first()),
                k - 1 <= eff.len(),
                lookup_spec(self@, eff) == lookup_spec(cur@, eff.skip(k - 1)),
            decreases parts@.len() - k,
        {
            proof {
                lemma_until_empty(pv.drop_first());
            }
            if k == parts.len() {
                proof {
                    assert(eff.len() <= pv.drop_first().len());
                    assert(eff.len() == k - 1);
                    assert(eff.skip(k - 1) =~= Seq::<Seq<char>>::empty());
                }
                return Ok(cur);
            }
            let seg = &parts[k];
            if seg.unicode_len() == 0 {
                proof {
                    assert(pv.drop_first()[k - 1] == pv[k as int]);
                    assert(eff.len() == k - 1);
                    assert(eff.skip(k - 1) =~= Seq::<Seq<char>>::empty());
                }
                return Ok(cur);
            }
            proof {
                assert(pv.drop_first()[k - 1] == pv[k as int]);
                assert(pv[k as int] == seg@);
                if eff.len() == k - 1 {
                    assert(pv.drop_first()[k - 1].len() == 0);
                }
                assert(k - 1 < eff.len());
                assert(eff[k - 1] == seg@);
                assert(eff.skip(k - 1)[0] == eff[k - 1]);
                assert(eff.skip(k - 1).drop_first() =~= eff.skip(k as int));
            }
            match &cur.contents {
                None => {
                    proof {
                        assert(contents_of(cur@) =~= Seq::<(Seq<char>, GNode)>::empty());
                    }
                    return Err(OscQueryError::BadAddress(path));
                },
                Some(v) => {
                    proof {
                        lemma_children_view(v@);
                        assert(contents_of(cur@) == children_view(v@));
                    }
                    match find_key(v, seg.as_str()) {
                        Some(j) => {
                            proof {
                                lemma_key_index_found(children_view(v@), seg@, j as int);
                            }
                            cur = &v[j].1;
                            k = k + 1;
                        },
                        None => {
                            proof {
                                lemma_key_index_absent(children_view(v@), seg@);
                            }
                            return Err(OscQueryError::BadAddress(path));
                        },
                    }
                },
            }
        }
    }
}

/// Splicing a pair into a children vector splices its views into the views.
proof fn lemma_children_view_insert(pre: Seq<(String, OSCNode)>, idx: int, x: (String, OSCNode))
    requires
        0 <= idx <= pre.len(),
    ensures
        children_view(pre.insert(idx, x)) =~= children_view(pre).take(idx) + seq![
            (x.0@, node_view(x.1)),
        ] + children_view(pre).skip(idx),
{
    pre.insert_ensures(idx, x);
    lemma_children_view(pre);
    lemma_children_view(pre.insert(idx, x));
}

/// Replacing a pair in a children vector replaces its views in the views.
proof fn lemma_children_view_update(pre: Seq<(String, OSCNode)>, idx: int, x: (String, OSCNode))
    requires
        0 <= idx < pre.len(),
    ensures
        children_view(pre.update(idx, x)) =~= children_view(pre).update(
            idx,
            (x.0@, node_view(x.1)),
        ),
{
    lemma_children_view(pre);
    lemma_children_view(pre.update(idx, x));
}

/// The path of the child named `key` under `parent`.
fn child_path_exec(parent: &str, key: &str) -> (r: String)
    ensures
        r@ == child_path(parent@, key@),
{
    proof {
        reveal_strlit("/");
        assert("/"@ =~= seq!['/']);
    }
    let mut s = parent.to_owned();
    if !eq_str(parent, "/") {
        s.append("/");
    }
    s.append(key);
    proof {
        assert(s@ =~= child_path(parent@, key@));
    }
    s
}

} // verus!

verus! {

/// Names strictly ordered: what `gnode_wf` asks of one children sequence.
pub open spec fn keys_sorted(cs: Seq<(Seq<char>, GNode)>) -> bool {
    forall|i: int, j: int| 0 <= i < j < cs.len() ==> seq_char_lt(#[trigger] cs[i].0, #[trigger] cs[j].0)
}

/// The child named `key`, if the sequence has one.
pub open spec fn child_at(cs: Seq<(Seq<char>, GNode)>, key: Seq<char>) -> Option<GNode> {
    if key_index(cs, key) >= 0 {
        Some(cs[key_index(cs, key)].1)
    } else {
        None
    }
}

/// Where the sorted insertion of a fresh name puts each entry: everything
/// before the new pair keeps its place and is below the name, everything
/// after moves one place up and is above it.
pub proof fn lemma_insert_sorted_props(cs: Seq<(Seq<char>, GNode)>, key: Seq<char>, node: GNode)
    requires
        keys_sorted(cs),
        forall|j: int| 0 <= j < cs.len() ==> (#[trigger] cs[j]).0 != key,
    ensures
        ({
            let r = insert_sorted(cs, key, node);
            let ki = key_index(r, key);
            &&& r.len() == cs.len() + 1
            &&& 0 <= ki <= cs.len()
            &&& r[ki] == (key, node)
            &&& forall|t: int|
                0 <= t < ki ==> #[trigger] r[t] == cs[t] && seq_char_lt(cs[t].0, key)
            &&& forall|t: int|
                ki < t < r.len() ==> #[trigger] r[t] == cs[t - 1] && seq_char_lt(key, cs[t - 1].0)
        }),
    decreases cs.len(),
{
    let r = insert_sorted(cs, key, node);
    if cs.len() == 0 {
        assert(r =~= seq![(key, node)]);
        assert(key_index(r, key) == 0);
    } else if seq_char_lt(key, cs[0].0) {
        assert(r == seq![(key, node)] + cs);
        assert(r[0].0 == key);
        assert(key_index(r, key) == 0);
        assert forall|t: int| 0 < t < r.len() implies #[trigger] r[t] == cs[t - 1] && seq_char_lt(
            key,
            cs[t - 1].0,
        ) by {
            assert(r[t] == cs[t - 1]);
            if t > 1 {
                crate::text::lemma_seq_char_lt_transitive(key, cs[0].0, cs[t - 1].0);
            }
        }
    } else {
        crate::text::lemma_seq_char_lt_total(key, cs[0].0);
        assert(seq_char_lt(cs[0].0, key));
        let rest = cs.drop_first();
        assert forall|i: int, j: int| 0 <= i < j < rest.len() implies seq_char_lt(
            (#[trigger] rest[i]).0,
            (#[trigger] rest[j]).0,
        ) by {
            assert(rest[i] == cs[i + 1]);
            assert(rest[j] == cs[j + 1]);
        }
        assert forall|j: int| 0 <= j < rest.len() implies (#[trigger] rest[j]).0 != key by {
            assert(rest[j] == cs[j + 1]);
        }
        lemma_insert_sorted_props(rest, key, node);
        let ri = insert_sorted(rest, key, node);
        let ki_rest = key_index(ri, key);
        assert(r == seq![cs[0]] + ri);
        assert(r[0].0 == cs[0].0);
        assert(r.drop_first() =~= ri);
        assert(key_index(r, key) == ki_rest + 1);
        let ki = ki_rest + 1;
        assert forall|t: int| 0 <= t < ki implies #[trigger] r[t] == cs[t] && seq_char_lt(
            cs[t].0,
            key,
        ) by {
            if t > 0 {
                assert(r[t] == ri[t - 1]);
                assert(ri[t - 1] == rest[t - 1]);
                assert(rest[t - 1] == cs[t]);
            }
        }
        assert forall|t: int| ki < t < r.len() implies #[trigger] r[t] == cs[t - 1]
            && seq_char_lt(key, cs[t - 1].0) by {
            assert(r[t] == ri[t - 1]);
            assert(ri[t - 1] == rest[t - 2]);
            assert(rest[t - 2] == cs[t - 1]);
        }
    }
}

/// The one step `add_spec` takes at one level: the children after it hold the
/// new node under `key`, every other name keeps its node, the names gain at
/// most `key`, and the order of names survives.
pub proof fn lemma_add_step(
    cs: Seq<(Seq<char>, GNode)>,
    key: Seq<char>,
    fresh: GNode,
    node: GNode,
    cs1: Seq<(Seq<char>, GNode)>,
    r: Seq<(Seq<char>, GNode)>,
)
    requires
        keys_sorted(cs),
        cs1 == (if key_index(cs, key) >= 0 {
            cs
        } else {
            insert_sorted(cs, key, fresh)
        }),
        r == cs1.update(key_index(cs1, key), (key, node)),
    ensures
        key_index(cs1, key) >= 0,
        child_at(cs1, key) == (if key_index(cs, key) >= 0 {
            child_at(cs, key)
        } else {
            Some(fresh)
        }),
        keys_sorted(r),
        child_at(r, key) == Some(node),
        forall|k: Seq<char>| k != key ==> #[trigger] child_at(r, k) == child_at(cs, k),
        forall|k: Seq<char>|
            (#[trigger] key_index(r, k) >= 0) <==> (k == key || key_index(cs, k) >= 0),
{
    lemma_key_index(cs, key);
    if key_index(cs, key) < 0 {
        lemma_insert_sorted_props(cs, key, fresh);
    }
    lemma_key_index(cs1, key);
    let ki = key_index(cs1, key);
    assert(r.len() == cs1.len());
    assert forall|t: int| 0 <= t < r.len() && t != ki implies #[trigger] r[t] == cs1[t] by {}
    assert(r[ki] == (key, node));

    // order of names survives the update (the name at `ki` is unchanged)
    assert(cs1[ki].0 == key);
    if key_index(cs, key) >= 0 {
        assert(keys_sorted(cs1));
    } else {
        let ii = key_index(insert_sorted(cs, key, fresh), key);
        assert forall|i: int, j: int| 0 <= i < j < cs1.len() implies seq_char_lt(
            (#[trigger] cs1[i]).0,
            (#[trigger] cs1[j]).0,
        ) by {
            if i < ii && j < ii {
                assert(cs1[i] == cs[i] && cs1[j] == cs[j]);
            } else if i < ii && j == ii {
                assert(cs1[i] == cs[i]);
                assert(seq_char_lt(cs[i].0, key));
                assert(cs1[j] == (key, fresh));
            } else if i < ii && j > ii {
                assert(cs1[i] == cs[i] && cs1[j] == cs[j - 1]);
                if i < j - 1 {
                } else {
                    assert(i == j - 1);
                    crate::text::lemma_seq_char_lt_transitive(cs[i].0, key, cs[j - 1].0);
                }
            } else if i == ii {
                assert(cs1[i] == (key, fresh));
                assert(cs1[j] == cs[j - 1]);
                assert(seq_char_lt(key, cs[j - 1].0));
            } else {
                assert(cs1[i] == cs[i - 1] && cs1[j] == cs[j - 1]);
            }
        }
    }
    assert forall|i: int, j: int| 0 <= i < j < r.len() implies seq_char_lt(
        (#[trigger] r[i]).0,
        (#[trigger] r[j]).0,
    ) by {
        assert(r[i].0 == cs1[i].0);
        assert(r[j].0 == cs1[j].0);
        assert(seq_char_lt(cs1[i].0, cs1[j].0));
    }

    // `key_index` in `r` is `ki`, and lookups of other names are unchanged
    lemma_key_index(r, key);
    assert forall|t: int| 0 <= t < ki implies (#[trigger] r[t]).0 != key by {
        lemma_key_index(cs1, key);
        assert(r[t].0 == cs1[t].0);
    }
    lemma_key_index_found(r, key, ki);
    assert(child_at(r, key) == Some(node));

    assert forall|k: Seq<char>| k != key implies #[trigger] child_at(r, k) == child_at(cs, k) by {
        lemma_key_index(cs, k);
        lemma_key_index(r, k);
        if key_index(cs, k) >= 0 {
            let t = key_index(cs, k);
            // the entry moved to a known place in r; find it there
            let t1 = if key_index(cs, key) >= 0 {
                t
            } else {
                if t < key_index(cs1, key) {
                    t
                } else {
                    t + 1
                }
            };
            assert(r[t1] == cs[t]);
            assert forall|s: int| 0 <= s < t1 implies (#[trigger] r[s]).0 != k by {
                if s != ki {
                    // r[s] is an entry of cs standing before cs[t]
                    if key_index(cs, key) >= 0 {
                        assert(r[s] == cs[s]);
                        lemma_key_index(cs, k);
                    } else {
                        let ii = key_index(cs1, key);
                        if s < ii {
                            assert(r[s] == cs[s]);
                        } else {
                            assert(r[s] == cs[s - 1]);
                        }
                    }
                }
            }
            lemma_key_index_found(r, k, t1);
            assert(child_at(r, k) == Some(cs[t].1));
            assert(child_at(cs, k) == Some(cs[t].1));
        } else {
            // k stands nowhere in cs, so nowhere in r either
            assert forall|s: int| 0 <= s < r.len() implies (#[trigger] r[s]).0 != k by {
                if s == ki {
                } else if key_index(cs, key) >= 0 {
                    assert(r[s] == cs[s]);
                } else {
                    let ii = key_index(cs1, key);
                    if s < ii {
                        assert(r[s] == cs[s]);
                    } else {
                        assert(r[s] == cs[s - 1]);
                    }
                }
            }
            lemma_key_index_absent(r, k);
        }
    }

    assert forall|k: Seq<char>|
        (#[trigger] key_index(r, k) >= 0) <==> (k == key || key_index(cs, k) >= 0) by {
        if k == key {
        } else {
            assert(child_at(r, k) == child_at(cs, k));
            lemma_key_index(r, k);
            lemma_key_index(cs, k);
        }
    }
}

} // verus!

verus! {

/// In a sequence with strictly ordered names, each entry is the first with
/// its name.
pub proof fn lemma_sorted_key_index_self(cs: Seq<(Seq<char>, GNode)>, t: int)
    requires
        keys_sorted(cs),
        0 <= t < cs.len(),
    ensures
        key_index(cs, cs[t].0) == t,
{
    assert forall|s: int| 0 <= s < t implies (#[trigger] cs[s]).0 != cs[t].0 by {
        assert(seq_char_lt(cs[s].0, cs[t].0));
        crate::text::lemma_seq_char_lt_asymmetric(cs[s].0, cs[t].0);
    }
    lemma_key_index_found(cs, cs[t].0, t);
}

/// The address reached from `base` by walking down the given segments.
pub open spec fn path_extend(base: Seq<char>, segs: Seq<Seq<char>>) -> Seq<char>
    decreases segs.len(),
{
    if segs.len() == 0 {
        base
    } else {
        path_extend(child_path(base, segs[0]), segs.drop_first())
    }
}

/// Insertion keeps the tree well formed: children stay strictly ordered by
/// name, every node's path stays derivable from its position, and the
/// channel sequences stay parallel. The node's own path does not move.
pub proof fn lemma_add_wf(g: GNode, p: GParam, segs: Seq<Seq<char>>)
    requires
        gnode_wf(g),
        p.address == path_extend(g.full_path, segs),
    ensures
        gnode_wf(add_spec(g, p, segs)),
        add_spec(g, p, segs).full_path == g.full_path,
    decreases segs.len(),
{
    let r = add_spec(g, p, segs);
    if segs.len() == 0 {
        assert(channels_wf(r));
        assert(r.full_path == g.full_path);
        assert(r.contents == g.contents);
        match g.contents {
            Some(cs) => {
                assert forall|i: int| 0 <= i < cs.len() implies gnode_wf(
                    (#[trigger] cs[i]).1,
                ) by {}
                assert(gnode_wf(r));
            },
            None => {
                assert(gnode_wf(r));
            },
        }
    } else {
        let key = segs[0];
        let cs0 = contents_of(g);
        let fresh = empty_gnode(child_path(g.full_path, key));
        let rest = segs.drop_first();
        assert(keys_sorted(cs0)) by {
            match g.contents {
                Some(cs) => {},
                None => {
                    assert(cs0 =~= Seq::<(Seq<char>, GNode)>::empty());
                },
            }
        }
        lemma_key_index(cs0, key);
        let cs1 = if key_index(cs0, key) >= 0 {
            cs0
        } else {
            insert_sorted(cs0, key, fresh)
        };
        let i = key_index(cs1, key);
        let child0 = cs1[i].1;
        let newnode = add_spec(child0, p, rest);
        let rr = cs1.update(i, (key, newnode));
        lemma_add_step(cs0, key, fresh, newnode, cs1, rr);
        assert(cs1[i].1 == (if key_index(cs0, key) >= 0 {
            cs0[key_index(cs0, key)].1
        } else {
            fresh
        })) by {
            lemma_key_index(cs1, key);
            if key_index(cs0, key) >= 0 {
            } else {
                assert(child_at(cs1, key) == Some(fresh));
            }
        }
        // the child we descend into is well formed and its path fits
        assert(gnode_wf(child0) && child0.full_path == child_path(g.full_path, key)) by {
            if key_index(cs0, key) >= 0 {
                let t = key_index(cs0, key);
                assert(g.contents is Some);
                assert(gnode_wf(cs0[t].1));
                assert(cs0[t].1.full_path == child_path(g.full_path, cs0[t].0));
            }
        }
        lemma_add_wf(child0, p, rest);
        assert(r.contents == Some(rr));
        assert(r.full_path == g.full_path);
        assert(channels_wf(r));
        assert(keys_sorted(rr));
        assert forall|t: int| 0 <= t < rr.len() implies gnode_wf((#[trigger] rr[t]).1)
            && rr[t].1.full_path == child_path(r.full_path, rr[t].0) by {
            lemma_sorted_key_index_self(rr, t);
            if rr[t].0 == key {
                assert(child_at(rr, key) == Some(rr[t].1));
                assert(rr[t].1 == newnode);
            } else {
                assert(child_at(rr, rr[t].0) == child_at(cs0, rr[t].0));
                assert(child_at(rr, rr[t].0) == Some(rr[t].1));
                let s = key_index(cs0, rr[t].0);
                lemma_key_index(cs0, rr[t].0);
                assert(s >= 0);
                assert(rr[t].1 == cs0[s].1);
                assert(g.contents is Some) by {
                    if g.contents is None {
                        assert(cs0 =~= Seq::<(Seq<char>, GNode)>::empty());
                    }
                }
                assert(gnode_wf(cs0[s].1));
                assert(cs0[s].1.full_path == child_path(g.full_path, cs0[s].0));
                assert(cs0[s].0 == rr[t].0);
            }
        }
        assert(gnode_wf(r));
    }
}

/// What stands at the inserted address afterwards: description, access and
/// path are the parameter's — last write wins — while one channel was
/// appended to what stood there before (nothing, for a fresh node): the
/// value's shape onto the types, the value onto the values, and the range
/// and unit onto their sequences when the parameter carries them. Children
/// and host descriptor are untouched. In particular the four channel
/// sequences accumulate in insertion order and nothing is ever removed.
pub proof fn lemma_add_then_lookup(g: GNode, p: GParam, segs: Seq<Seq<char>>)
    requires
        gnode_wf(g),
    ensures
        lookup_spec(add_spec(g, p, segs), segs) is Some,
        ({
            let nd = lookup_spec(add_spec(g, p, segs), segs)->Some_0;
            let before = lookup_spec(g, segs);
            &&& nd.description == p.description
            &&& nd.full_path == p.address
            &&& nd.access == p.access
            &&& nd.types == push_opt(
                match before {
                    Some(x) => x.types,
                    None => None,
                },
                p.value,
            )
            &&& nd.values == push_opt(
                match before {
                    Some(x) => x.values,
                    None => None,
                },
                p.value,
            )
            &&& nd.units == (match p.unit {
                Some(u) => push_opt(
                    match before {
                        Some(x) => x.units,
                        None => None,
                    },
                    u,
                ),
                None => (match before {
                    Some(x) => x.units,
                    None => None,
                }),
            })
            &&& nd.ranges == (match p.range {
                Some(rg) => push_opt(
                    match before {
                        Some(x) => x.ranges,
                        None => None,
                    },
                    rg,
                ),
                None => (match before {
                    Some(x) => x.ranges,
                    None => None,
                }),
            })
            &&& nd.contents == (match before {
                Some(x) => x.contents,
                None => None,
            })
            &&& nd.host_info == (match before {
                Some(x) => x.host_info,
                None => None,
            })
        }),
    decreases segs.len(),
{
    let r = add_spec(g, p, segs);
    if segs.len() == 0 {
    } else {
        let key = segs[0];
        let cs0 = contents_of(g);
        let fresh = empty_gnode(child_path(g.full_path, key));
        let rest = segs.drop_first();
        assert(keys_sorted(cs0)) by {
            match g.contents {
                Some(cs) => {},
                None => {
                    assert(cs0 =~= Seq::<(Seq<char>, GNode)>::empty());
                },
            }
        }
        lemma_key_index(cs0, key);
        let cs1 = if key_index(cs0, key) >= 0 {
            cs0
        } else {
            insert_sorted(cs0, key, fresh)
        };
        let i = key_index(cs1, key);
        let child0 = cs1[i].1;
        let newnode = add_spec(child0, p, rest);
        let rr = cs1.update(i, (key, newnode));
        lemma_add_step(cs0, key, fresh, newnode, cs1, rr);
        assert(cs1[i].1 == (if key_index(cs0, key) >= 0 {
            cs0[key_index(cs0, key)].1
        } else {
            fresh
        })) by {
            lemma_key_index(cs1, key);
            if key_index(cs0, key) >= 0 {
            } else {
                assert(child_at(cs1, key) == Some(fresh));
            }
        }
        assert(gnode_wf(child0)) by {
            if key_index(cs0, key) >= 0 {
                assert(g.contents is Some);
                assert(gnode_wf(cs0[key_index(cs0, key)].1));
            }
        }
        lemma_add_then_lookup(child0, p, rest);
        // the walk back down finds the freshly written child
        assert(r.contents == Some(rr));
        assert(contents_of(r) == rr);
        assert(child_at(rr, key) == Some(newnode));
        lemma_key_index(rr, key);
        assert(lookup_spec(r, segs) == lookup_spec(newnode, rest));
        // what stood at the address before relates the same way
        if key_index(cs0, key) >= 0 {
            assert(lookup_spec(g, segs) == lookup_spec(child0, rest));
        } else {
            assert(lookup_spec(g, segs) is None) by {
                lemma_key_index(cs0, key);
            }
            // a fresh node holds nothing at any address below it
            if rest.len() == 0 {
                assert(lookup_spec(child0, rest) == Some(fresh));
            } else {
                assert(contents_of(fresh) =~= Seq::<(Seq<char>, GNode)>::empty());
                assert(lookup_spec(child0, rest) is None);
            }
        }
    }
}

} // verus!

verus! {

/// Walking non-empty segments from a non-root base appends them with
/// separators.
proof fn lemma_path_extend_join(base: Seq<char>, segs: Seq<Seq<char>>)
    requires
        base != seq!['/'],
        segs.len() > 0,
        forall|i: int| 0 <= i < segs.len() ==> (#[trigger] segs[i]).len() > 0,
    ensures
        path_extend(base, segs) == base + seq!['/'] + crate::text::join_slash(segs),
    decreases segs.len(),
{
    let b2 = child_path(base, segs[0]);
    assert(b2 == base + seq!['/'] + segs[0]);
    if segs.len() == 1 {
        assert(crate::text::join_slash(segs) == segs[0]);
        assert(path_extend(base, segs) == path_extend(b2, segs.drop_first()));
        assert(segs.drop_first().len() == 0);
    } else {
        let rest = segs.drop_first();
        assert(b2.len() == base.len() + 1 + segs[0].len());
        assert(segs[0].len() > 0);
        assert(b2 != seq!['/']) by {
            assert(b2.len() >= 2);
        }
        assert forall|i: int| 0 <= i < rest.len() implies (#[trigger] rest[i]).len() > 0 by {
            assert(rest[i] == segs[i + 1]);
        }
        lemma_path_extend_join(b2, rest);
        assert(crate::text::join_slash(segs) == segs[0] + seq!['/'] + crate::text::join_slash(
            rest,
        ));
        assert((base + seq!['/'] + segs[0]) + seq!['/'] + crate::text::join_slash(rest) =~= base
            + seq!['/'] + (segs[0] + seq!['/'] + crate::text::join_slash(rest)));
    }
}

/// Walking non-empty segments down from the root reaches the absolute path
/// they spell.
proof fn lemma_path_extend_root(segs: Seq<Seq<char>>)
    requires
        segs.len() > 0,
        forall|i: int| 0 <= i < segs.len() ==> (#[trigger] segs[i]).len() > 0,
    ensures
        path_extend(seq!['/'], segs) == seq!['/'] + crate::text::join_slash(segs),
    decreases segs.len(),
{
    let b1 = child_path(seq!['/'], segs[0]);
    assert(b1 == seq!['/'] + segs[0]);
    assert(path_extend(seq!['/'], segs) == path_extend(b1, segs.drop_first()));
    if segs.len() == 1 {
        assert(segs.drop_first().len() == 0);
        assert(path_extend(b1, segs.drop_first()) == b1);
        assert(crate::text::join_slash(segs) == segs[0]);
        assert(path_extend(seq!['/'], segs) == seq!['/'] + crate::text::join_slash(segs));
    } else {
        let rest = segs.drop_first();
        assert(b1.len() == 1 + segs[0].len());
        assert(b1 != seq!['/']) by {
            assert(b1.len() >= 2);
        }
        assert forall|i: int| 0 <= i < rest.len() implies (#[trigger] rest[i]).len() > 0 by {
            assert(rest[i] == segs[i + 1]);
        }
        lemma_path_extend_join(b1, rest);
        assert(path_extend(b1, rest) == b1 + seq!['/'] + crate::text::join_slash(rest));
        assert(crate::text::join_slash(segs) == segs[0] + seq!['/'] + crate::text::join_slash(
            rest,
        ));
        assert((seq!['/'] + segs[0]) + seq!['/'] + crate::text::join_slash(rest) =~= seq!['/'] + (
        segs[0] + seq!['/'] + crate::text::join_slash(rest)));
        assert(path_extend(seq!['/'], segs) == seq!['/'] + crate::text::join_slash(segs));
    }
}

/// For a well-formed absolute address the lookup walk and the insert walk
/// use the same segments, and walking them from the root spells the address
/// back out.
pub proof fn lemma_valid_address_segments(a: Seq<char>)
    requires
        valid_address(a),
    ensures
        lookup_segments(a) == address_segments(a),
        address_segments(a).len() > 0,
        forall|i: int|
            0 <= i < address_segments(a).len() ==> (#[trigger] address_segments(a)[i]).len() > 0,
        path_extend(seq!['/'], address_segments(a)) == a,
{
    let parts = split_slash(a);
    let segs = parts.drop_first();
    assert forall|i: int| 0 <= i < segs.len() implies (#[trigger] segs[i]).len() > 0 by {
        assert(segs[i] == parts[i + 1]);
    }
    lemma_until_empty(segs);
    assert(until_empty(segs).len() == segs.len()) by {
        if until_empty(segs).len() < segs.len() {
            assert(segs[until_empty(segs).len() as int].len() == 0);
        }
    }
    assert(lookup_segments(a) =~= segs);
    crate::text::lemma_split_join(a);
    assert(crate::text::join_slash(parts) == a);
    assert(parts.len() >= 2);
    assert(crate::text::join_slash(parts) == parts[0] + seq!['/'] + crate::text::join_slash(
        segs,
    ));
    assert(parts[0] + seq!['/'] + crate::text::join_slash(segs) =~= seq!['/']
        + crate::text::join_slash(segs));
    lemma_path_extend_root(segs);
}

/// Looking up the root path on any tree gives the tree back whole, and so
/// does the empty path.
pub proof fn lemma_lookup_root(g: GNode)
    ensures
        lookup_spec(g, lookup_segments("/"@)) == Some(g),
        lookup_spec(g, lookup_segments(""@)) == Some(g),
{
    reveal_strlit("/");
    reveal_strlit("");
    assert("/"@ =~= seq!['/']);
    assert(""@ =~= Seq::<char>::empty());
    let e = Seq::<char>::empty();
    let s = seq!['/'];
    assert(crate::text::first_occ(e, '/') == -1);
    assert(split_slash(e) =~= seq![e]);
    assert(crate::text::first_occ(s, '/') == 0) by {
        assert(s[0] == '/');
    }
    assert(s.take(0) =~= e);
    assert(s.skip(1) =~= e);
    assert(split_slash(s) == seq![s.take(0)] + split_slash(s.skip(1)));
    assert(split_slash(s) =~= seq![e, e]);
    assert(split_slash(s).drop_first() =~= seq![e]);
    assert(until_empty(seq![e]) =~= Seq::<Seq<char>>::empty());
    assert(lookup_segments("/"@) =~= Seq::<Seq<char>>::empty());
    assert(split_slash(e).drop_first() =~= Seq::<Seq<char>>::empty());
    assert(until_empty(Seq::<Seq<char>>::empty()) =~= Seq::<Seq<char>>::empty());
    assert(lookup_segments(""@) =~= Seq::<Seq<char>>::empty());
}

/// Inserting a parameter with a well-formed absolute address keeps the whole
/// tree well formed: the invariants survive every insertion.
pub proof fn lemma_root_add_wf(g: GNode, p: GParam)
    requires
        root_wf(g),
        valid_address(p.address),
    ensures
        root_wf(add_spec(g, p, address_segments(p.address))),
{
    lemma_valid_address_segments(p.address);
    lemma_add_wf(g, p, address_segments(p.address));
}

/// Looking an address up right after inserting it finds a node whose path is
/// exactly that address.
pub proof fn lemma_lookup_inserted(g: GNode, p: GParam)
    requires
        gnode_wf(g),
        valid_address(p.address),
    ensures
        lookup_spec(add_spec(g, p, address_segments(p.address)), lookup_segments(p.address))
            is Some,
        lookup_spec(
            add_spec(g, p, address_segments(p.address)),
            lookup_segments(p.address),
        )->Some_0.full_path == p.address,
{
    lemma_valid_address_segments(p.address);
    lemma_add_then_lookup(g, p, address_segments(p.address));
}

} // verus!

verus! {

/// Looking a name up past a head that does not carry it is looking it up in
/// the tail.
proof fn lemma_child_at_tail(cs: Seq<(Seq<char>, GNode)>, k: Seq<char>)
    requires
        cs.len() > 0,
        cs[0].0 != k,
    ensures
        child_at(cs.drop_first(), k) == child_at(cs, k),
{
    let tail = cs.drop_first();
    lemma_key_index(cs, k);
    lemma_key_index(tail, k);
    if key_index(tail, k) >= 0 {
        assert(key_index(cs, k) == key_index(tail, k) + 1);
        assert(cs[key_index(tail, k) + 1] == tail[key_index(tail, k)]);
    }
}

/// Two children sequences with strictly ordered names that agree as a
/// mapping are the same sequence: a sorted tree level is determined by what
/// it holds, not by how it was built.
pub proof fn lemma_sorted_assoc_canonical(
    a: Seq<(Seq<char>, GNode)>,
    b: Seq<(Seq<char>, GNode)>,
)
    requires
        keys_sorted(a),
        keys_sorted(b),
        forall|k: Seq<char>| #[trigger] child_at(a, k) == child_at(b, k),
    ensures
        a == b,
    decreases a.len(),
{
    if a.len() == 0 {
        if b.len() > 0 {
            lemma_sorted_key_index_self(b, 0);
            assert(child_at(b, b[0].0) == Some(b[0].1));
            assert(child_at(a, b[0].0) is None);
            assert(child_at(a, b[0].0) == child_at(b, b[0].0));
        }
        assert(a =~= b);
    } else if b.len() == 0 {
        lemma_sorted_key_index_self(a, 0);
        assert(child_at(a, a[0].0) == Some(a[0].1));
        assert(child_at(b, a[0].0) is None);
        assert(child_at(a, a[0].0) == child_at(b, a[0].0));
    } else {
        // the two heads carry the same name
        lemma_sorted_key_index_self(a, 0);
        lemma_sorted_key_index_self(b, 0);
        assert(child_at(a, a[0].0) == Some(a[0].1));
        assert(child_at(b, b[0].0) == Some(b[0].1));
        assert(child_at(b, a[0].0) == Some(a[0].1));
        assert(child_at(a, b[0].0) == Some(b[0].1));
        let j = key_index(b, a[0].0);
        let i = key_index(a, b[0].0);
        lemma_key_index(b, a[0].0);
        lemma_key_index(a, b[0].0);
        assert(j >= 0 && i >= 0);
        assert(a[0].0 == b[0].0) by {
            if j > 0 && i > 0 {
                assert(seq_char_lt(b[0].0, b[j].0));
                assert(b[j].0 == a[0].0);
                assert(seq_char_lt(a[0].0, a[i].0));
                assert(a[i].0 == b[0].0);
                crate::text::lemma_seq_char_lt_asymmetric(b[0].0, a[0].0);
            } else if j == 0 {
                assert(b[0].0 == a[0].0);
            } else {
                assert(a[0].0 == b[0].0);
            }
        }
        assert(key_index(b, a[0].0) == 0);
        assert(a[0].1 == b[0].1) by {
            assert(child_at(b, a[0].0) == Some(b[0].1));
        }
        assert(a[0] == b[0]);
        let ta = a.drop_first();
        let tb = b.drop_first();
        assert forall|s: int, t: int| 0 <= s < t < ta.len() implies seq_char_lt(
            (#[trigger] ta[s]).0,
            (#[trigger] ta[t]).0,
        ) by {
            assert(ta[s] == a[s + 1] && ta[t] == a[t + 1]);
        }
        assert forall|s: int, t: int| 0 <= s < t < tb.len() implies seq_char_lt(
            (#[trigger] tb[s]).0,
            (#[trigger] tb[t]).0,
        ) by {
            assert(tb[s] == b[s + 1] && tb[t] == b[t + 1]);
        }
        assert forall|k: Seq<char>| #[trigger] child_at(ta, k) == child_at(tb, k) by {
            if k == a[0].0 {
                assert forall|s: int| 0 <= s < ta.len() implies (#[trigger] ta[s]).0 != k by {
                    assert(ta[s] == a[s + 1]);
                    assert(seq_char_lt(a[0].0, a[s + 1].0));
                    crate::text::lemma_seq_char_lt_asymmetric(a[0].0, a[s + 1].0);
                }
                assert forall|s: int| 0 <= s < tb.len() implies (#[trigger] tb[s]).0 != k by {
                    assert(tb[s] == b[s + 1]);
                    assert(seq_char_lt(b[0].0, b[s + 1].0));
                    crate::text::lemma_seq_char_lt_asymmetric(b[0].0, b[s + 1].0);
                }
                lemma_key_index_absent(ta, k);
                lemma_key_index_absent(tb, k);
            } else {
                lemma_child_at_tail(a, k);
                lemma_child_at_tail(b, k);
            }
        }
        lemma_sorted_assoc_canonical(ta, tb);
        assert(a =~= b) by {
            assert forall|t: int| 0 <= t < a.len() implies a[t] == b[t] by {
                if t > 0 {
                    assert(a[t] == ta[t - 1]);
                    assert(b[t] == tb[t - 1]);
                }
            }
        }
    }
}

} // verus!

verus! {

/// Writing the parameter into the node itself and inserting below it touch
/// different parts of the node, so the two steps commute.
proof fn lemma_add_terminal_descend_commute(
    g: GNode,
    pt: GParam,
    pd: GParam,
    sd: Seq<Seq<char>>,
)
    requires
        sd.len() > 0,
        pt.address == g.full_path,
    ensures
        add_spec(add_spec(g, pt, Seq::empty()), pd, sd) == add_spec(
            add_spec(g, pd, sd),
            pt,
            Seq::empty(),
        ),
{
    let t1 = add_spec(g, pt, Seq::empty());
    assert(t1.contents == g.contents);
    assert(t1.full_path == g.full_path);
    assert(contents_of(t1) == contents_of(g));
    assert(child_path(t1.full_path, sd[0]) == child_path(g.full_path, sd[0]));
    let a = add_spec(t1, pd, sd);
    let inner2 = add_spec(g, pd, sd);
    let b = add_spec(inner2, pt, Seq::empty());
    assert(inner2.types == g.types && inner2.values == g.values && inner2.ranges == g.ranges
        && inner2.units == g.units && inner2.host_info == g.host_info && inner2.description
        == g.description && inner2.access == g.access && inner2.full_path == g.full_path);
    assert(a.contents == inner2.contents);
    assert(a =~~= b);
}

/// Insertions at different addresses commute: from one well-formed tree,
/// either order of two inserts yields the same tree — and hence the same
/// serialized form, since children always stand in name order.
pub proof fn lemma_add_commutes(
    g: GNode,
    p1: GParam,
    s1: Seq<Seq<char>>,
    p2: GParam,
    s2: Seq<Seq<char>>,
)
    requires
        gnode_wf(g),
        p1.address == path_extend(g.full_path, s1),
        p2.address == path_extend(g.full_path, s2),
        s1 != s2,
    ensures
        add_spec(add_spec(g, p1, s1), p2, s2) == add_spec(add_spec(g, p2, s2), p1, s1),
    decreases s1.len() + s2.len(),
{
    if s1.len() == 0 {
        assert(s2.len() > 0) by {
            if s2.len() == 0 {
                assert(s1 =~= s2);
            }
        }
        lemma_add_terminal_descend_commute(g, p1, p2, s2);
    } else if s2.len() == 0 {
        lemma_add_terminal_descend_commute(g, p2, p1, s1);
    } else {
        let cs0 = contents_of(g);
        assert(keys_sorted(cs0)) by {
            match g.contents {
                Some(cs) => {},
                None => {
                    assert(cs0 =~= Seq::<(Seq<char>, GNode)>::empty());
                },
            }
        }
        let r1 = s1.drop_first();
        let r2 = s2.drop_first();
        if s1[0] == s2[0] {
            let key = s1[0];
            let fresh = empty_gnode(child_path(g.full_path, key));
            lemma_key_index(cs0, key);
            let cs1 = if key_index(cs0, key) >= 0 {
                cs0
            } else {
                insert_sorted(cs0, key, fresh)
            };
            let i = key_index(cs1, key);
            let child0 = cs1[i].1;
            let n1 = add_spec(child0, p1, r1);
            let n2 = add_spec(child0, p2, r2);
            let rr1 = cs1.update(i, (key, n1));
            let rr2 = cs1.update(i, (key, n2));
            lemma_add_step(cs0, key, fresh, n1, cs1, rr1);
            lemma_add_step(cs0, key, fresh, n2, cs1, rr2);
            assert(cs1[i].1 == (if key_index(cs0, key) >= 0 {
                cs0[key_index(cs0, key)].1
            } else {
                fresh
            })) by {
                lemma_key_index(cs1, key);
                if key_index(cs0, key) < 0 {
                    assert(child_at(cs1, key) == Some(fresh));
                }
            }
            assert(gnode_wf(child0) && child0.full_path == child_path(g.full_path, key)) by {
                if key_index(cs0, key) >= 0 {
                    let t = key_index(cs0, key);
                    assert(g.contents is Some);
                    assert(gnode_wf(cs0[t].1));
                    assert(cs0[t].1.full_path == child_path(g.full_path, cs0[t].0));
                }
            }
            assert(r1 != r2) by {
                if r1 == r2 {
                    assert forall|t: int| 0 <= t < s1.len() implies s1[t] == s2[t] by {
                        if t > 0 {
                            assert(s1[t] == r1[t - 1] && s2[t] == r2[t - 1]);
                        }
                    }
                    assert(s1 =~= s2);
                }
            }
            lemma_add_commutes(child0, p1, r1, p2, r2);
            let m = add_spec(n1, p2, r2);
            assert(m == add_spec(n2, p1, r1));
            // first insert, then walk the same child again, in both orders
            let inner1 = add_spec(g, p1, s1);
            assert(inner1.contents == Some(rr1));
            assert(inner1.full_path == g.full_path);
            assert(contents_of(inner1) == rr1);
            let i_a = key_index(rr1, key);
            assert(i_a >= 0) by {
                assert(child_at(rr1, key) == Some(n1));
            }
            assert(rr1[i_a].1 == n1) by {
                assert(child_at(rr1, key) == Some(n1));
            }
            let rr_a = rr1.update(i_a, (key, m));
            assert(add_spec(inner1, p2, s2).contents == Some(rr_a));
            lemma_add_step(rr1, key, fresh, m, rr1, rr_a);
            let inner2 = add_spec(g, p2, s2);
            assert(inner2.contents == Some(rr2));
            assert(contents_of(inner2) == rr2);
            let i_b = key_index(rr2, key);
            assert(i_b >= 0 && rr2[i_b].1 == n2) by {
                assert(child_at(rr2, key) == Some(n2));
            }
            let rr_b = rr2.update(i_b, (key, m));
            assert(add_spec(inner2, p1, s1).contents == Some(rr_b)) by {
                assert(add_spec(rr2[i_b].1, p1, r1) == m);
            }
            lemma_add_step(rr2, key, fresh, m, rr2, rr_b);
            assert forall|k: Seq<char>| #[trigger] child_at(rr_a, k) == child_at(rr_b, k) by {
                if k == key {
                    assert(child_at(rr_a, key) == Some(m));
                    assert(child_at(rr_b, key) == Some(m));
                } else {
                    assert(child_at(rr_a, k) == child_at(rr1, k));
                    assert(child_at(rr1, k) == child_at(cs0, k));
                    assert(child_at(rr_b, k) == child_at(rr2, k));
                    assert(child_at(rr2, k) == child_at(cs0, k));
                }
            }
            lemma_sorted_assoc_canonical(rr_a, rr_b);
            assert(add_spec(add_spec(g, p1, s1), p2, s2) =~~= add_spec(
                add_spec(g, p2, s2),
                p1,
                s1,
            ));
        } else {
            let k1 = s1[0];
            let k2 = s2[0];
            let fresh1 = empty_gnode(child_path(g.full_path, k1));
            let fresh2 = empty_gnode(child_path(g.full_path, k2));
            lemma_key_index(cs0, k1);
            lemma_key_index(cs0, k2);
            let cs1_1 = if key_index(cs0, k1) >= 0 {
                cs0
            } else {
                insert_sorted(cs0, k1, fresh1)
            };
            let i1 = key_index(cs1_1, k1);
            let c01 = cs1_1[i1].1;
            let n1 = add_spec(c01, p1, r1);
            let rr1 = cs1_1.update(i1, (k1, n1));
            lemma_add_step(cs0, k1, fresh1, n1, cs1_1, rr1);
            let cs1_2 = if key_index(cs0, k2) >= 0 {
                cs0
            } else {
                insert_sorted(cs0, k2, fresh2)
            };
            let i2 = key_index(cs1_2, k2);
            let c02 = cs1_2[i2].1;
            let n2 = add_spec(c02, p2, r2);
            let rr2 = cs1_2.update(i2, (k2, n2));
            lemma_add_step(cs0, k2, fresh2, n2, cs1_2, rr2);
            assert(c01 == (if key_index(cs0, k1) >= 0 {
                cs0[key_index(cs0, k1)].1
            } else {
                fresh1
            })) by {
                lemma_key_index(cs1_1, k1);
                if key_index(cs0, k1) < 0 {
                    assert(child_at(cs1_1, k1) == Some(fresh1));
                }
            }
            assert(c02 == (if key_index(cs0, k2) >= 0 {
                cs0[key_index(cs0, k2)].1
            } else {
                fresh2
            })) by {
                lemma_key_index(cs1_2, k2);
                if key_index(cs0, k2) < 0 {
                    assert(child_at(cs1_2, k2) == Some(fresh2));
                }
            }
            // the first order: insert at k1, then at k2 on top of it
            let inner1 = add_spec(g, p1, s1);
            assert(inner1.contents == Some(rr1) && inner1.full_path == g.full_path);
            assert(contents_of(inner1) == rr1);
            assert(child_path(inner1.full_path, k2) == child_path(g.full_path, k2));
            let cs1_a = if key_index(rr1, k2) >= 0 {
                rr1
            } else {
                insert_sorted(rr1, k2, fresh2)
            };
            let i_a = key_index(cs1_a, k2);
            let child_a = cs1_a[i_a].1;
            let rr_a = cs1_a.update(i_a, (k2, add_spec(child_a, p2, r2)));
            lemma_add_step(rr1, k2, fresh2, add_spec(child_a, p2, r2), cs1_a, rr_a);
            assert(add_spec(inner1, p2, s2).contents == Some(rr_a));
            // the child the second insert walks into is untouched by the first
            assert(child_a == c02) by {
                lemma_key_index(cs1_a, k2);
                assert(child_at(cs1_a, k2) == Some(child_a));
                if key_index(rr1, k2) >= 0 {
                    assert(child_at(cs1_a, k2) == child_at(rr1, k2));
                    assert(child_at(rr1, k2) == child_at(cs0, k2));
                    assert(key_index(cs0, k2) >= 0);
                } else {
                    assert(child_at(cs1_a, k2) == Some(fresh2));
                    assert(child_at(rr1, k2) == child_at(cs0, k2));
                    assert(key_index(cs0, k2) < 0) by {
                        lemma_key_index(cs0, k2);
                        if key_index(cs0, k2) >= 0 {
                            assert(child_at(cs0, k2) is Some);
                        }
                    }
                }
            }
            // the second order, symmetrically
            let inner2 = add_spec(g, p2, s2);
            assert(inner2.contents == Some(rr2) && inner2.full_path == g.full_path);
            assert(contents_of(inner2) == rr2);
            assert(child_path(inner2.full_path, k1) == child_path(g.full_path, k1));
            let cs1_b = if key_index(rr2, k1) >= 0 {
                rr2
            } else {
                insert_sorted(rr2, k1, fresh1)
            };
            let i_b = key_index(cs1_b, k1);
            let child_b = cs1_b[i_b].1;
            let rr_b = cs1_b.update(i_b, (k1, add_spec(child_b, p1, r1)));
            lemma_add_step(rr2, k1, fresh1, add_spec(child_b, p1, r1), cs1_b, rr_b);
            assert(add_spec(inner2, p1, s1).contents == Some(rr_b));
            assert(child_b == c01) by {
                lemma_key_index(cs1_b, k1);
                assert(child_at(cs1_b, k1) == Some(child_b));
                if key_index(rr2, k1) >= 0 {
                    assert(child_at(cs1_b, k1) == child_at(rr2, k1));
                    assert(child_at(rr2, k1) == child_at(cs0, k1));
                    assert(key_index(cs0, k1) >= 0);
                } else {
                    assert(child_at(cs1_b, k1) == Some(fresh1));
                    assert(child_at(rr2, k1) == child_at(cs0, k1));
                    assert(key_index(cs0, k1) < 0) by {
                        lemma_key_index(cs0, k1);
                        if key_index(cs0, k1) >= 0 {
                            assert(child_at(cs0, k1) is Some);
                        }
                    }
                }
            }
            // both orders leave the same mapping, and both stand sorted
            assert forall|k: Seq<char>| #[trigger] child_at(rr_a, k) == child_at(rr_b, k) by {
                if k == k2 {
                    assert(child_at(rr_a, k2) == Some(add_spec(c02, p2, r2)));
                    assert(child_at(rr_b, k2) == child_at(rr2, k2));
                    assert(child_at(rr2, k2) == Some(n2));
                } else if k == k1 {
                    assert(child_at(rr_a, k1) == child_at(rr1, k1));
                    assert(child_at(rr1, k1) == Some(n1));
                    assert(child_at(rr_b, k1) == Some(add_spec(c01, p1, r1)));
                } else {
                    assert(child_at(rr_a, k) == child_at(rr1, k));
                    assert(child_at(rr1, k) == child_at(cs0, k));
                    assert(child_at(rr_b, k) == child_at(rr2, k));
                    assert(child_at(rr2, k) == child_at(cs0, k));
                }
            }
            lemma_sorted_assoc_canonical(rr_a, rr_b);
            assert(add_spec(add_spec(g, p1, s1), p2, s2) =~~= add_spec(
                add_spec(g, p2, s2),
                p1,
                s1,
            ));
        }
    }
}

/// Tree determinism: inserting two parameters at different well-formed
/// addresses gives one and the same tree in either order; with children
/// always kept in name order, any set of parameters at distinct addresses
/// yields one tree — and one serialized form — whatever order they arrive in.
/// Two well-formed addresses are the same exactly when their segment
/// sequences are the same.
pub proof fn lemma_address_segments_injective(a1: Seq<char>, a2: Seq<char>)
    requires
        valid_address(a1),
        valid_address(a2),
    ensures
        (address_segments(a1) == address_segments(a2)) <==> (a1 == a2),
{
    lemma_valid_address_segments(a1);
    lemma_valid_address_segments(a2);
}

pub proof fn lemma_root_add_commutes(g: GNode, p1: GParam, p2: GParam)
    requires
        root_wf(g),
        valid_address(p1.address),
        valid_address(p2.address),
        p1.address != p2.address,
    ensures
        add_spec(
            add_spec(g, p1, address_segments(p1.address)),
            p2,
            address_segments(p2.address),
        ) == add_spec(add_spec(g, p2, address_segments(p2.address)), p1, address_segments(p1.address)),
{
    lemma_valid_address_segments(p1.address);
    lemma_valid_address_segments(p2.address);
    lemma_address_segments_injective(p1.address, p2.address);
    lemma_add_commutes(
        g,
        p1,
        address_segments(p1.address),
        p2,
        address_segments(p2.address),
    );
}

} // verus!

verus! {

/// Every node a lookup can reach inside a well-formed tree is well formed.
pub proof fn lemma_lookup_wf(g: GNode, segs: Seq<Seq<char>>)
    requires
        gnode_wf(g),
        lookup_spec(g, segs) is Some,
    ensures
        gnode_wf(lookup_spec(g, segs)->Some_0),
    decreases segs.len(),
{
    if segs.len() == 0 {
    } else {
        let cs = contents_of(g);
        let i = key_index(cs, segs[0]);
        lemma_key_index(cs, segs[0]);
        assert(i >= 0);
        assert(g.contents is Some) by {
            if g.contents is None {
                assert(cs =~= Seq::<(Seq<char>, GNode)>::empty());
            }
        }
        assert(gnode_wf(cs[i].1));
        lemma_lookup_wf(cs[i].1, segs.drop_first());
    }
}

/// Accumulation, spelled out for two inserts at one address: the channel
/// sequences append in insertion order — first parameter first — while the
/// node keeps the second parameter's description, access and path, and the
/// whole tree stays well formed, so the sequences that are present stay
/// parallel (ranges and units correctly shorter where a parameter omitted
/// them).
pub proof fn lemma_two_inserts_accumulate(g: GNode, p1: GParam, p2: GParam)
    requires
        root_wf(g),
        valid_address(p1.address),
        p2.address == p1.address,
    ensures
        ({
            let segs = address_segments(p1.address);
            let t2 = add_spec(add_spec(g, p1, segs), p2, segs);
            let found = lookup_spec(t2, segs);
            let before = lookup_spec(g, segs);
            &&& root_wf(t2)
            &&& found is Some
            &&& gnode_wf(found->Some_0)
            &&& channels_wf(found->Some_0)
            &&& found->Some_0.description == p2.description
            &&& found->Some_0.access == p2.access
            &&& found->Some_0.full_path == p1.address
            &&& found->Some_0.types == push_opt(
                push_opt(
                    match before {
                        Some(x) => x.types,
                        None => None,
                    },
                    p1.value,
                ),
                p2.value,
            )
            &&& found->Some_0.values == push_opt(
                push_opt(
                    match before {
                        Some(x) => x.values,
                        None => None,
                    },
                    p1.value,
                ),
                p2.value,
            )
        }),
{
    let segs = address_segments(p1.address);
    let t1 = add_spec(g, p1, segs);
    let t2 = add_spec(t1, p2, segs);
    lemma_root_add_wf(g, p1);
    lemma_valid_address_segments(p1.address);
    assert(t1.full_path == seq!['/']) by {
        lemma_add_wf(g, p1, segs);
    }
    lemma_root_add_wf(t1, p2);
    lemma_add_then_lookup(g, p1, segs);
    lemma_add_then_lookup(t1, p2, segs);
    let n1 = lookup_spec(t1, segs)->Some_0;
    assert(lookup_spec(t2, segs)->Some_0.types == push_opt(n1.types, p2.value));
    lemma_lookup_wf(t2, segs);
}

} // verus!

verus! {

/// The tree only grows: every node reachable before an insertion is still
/// reachable afterwards, and everything it carried — path, description,
/// access, channel data, host descriptor — is still there untouched, unless
/// the insertion aimed at that very address (where description, access and
/// path are rewritten and the channels gain one entry, losing none).
pub proof fn lemma_add_preserves_nodes(
    g: GNode,
    p: GParam,
    segs: Seq<Seq<char>>,
    q: Seq<Seq<char>>,
)
    requires
        gnode_wf(g),
        lookup_spec(g, q) is Some,
    ensures
        lookup_spec(add_spec(g, p, segs), q) is Some,
        q != segs ==> ({
            let nd = lookup_spec(add_spec(g, p, segs), q)->Some_0;
            let before = lookup_spec(g, q)->Some_0;
            &&& nd.full_path == before.full_path
            &&& nd.description == before.description
            &&& nd.access == before.access
            &&& nd.types == before.types
            &&& nd.values == before.values
            &&& nd.ranges == before.ranges
            &&& nd.units == before.units
            &&& nd.host_info == before.host_info
        }),
    decreases segs.len() + q.len(),
{
    let r = add_spec(g, p, segs);
    if segs.len() == 0 {
        if q.len() == 0 {
            assert(q =~= segs);
        } else {
            // only this node's own fields changed; the walk below it is the same
            assert(contents_of(r) == contents_of(g));
            assert(lookup_spec(r, q) == lookup_spec(g, q));
        }
    } else if q.len() == 0 {
        // the walked-into tree keeps this node's own fields
        assert(lookup_spec(r, q) == Some(r));
    } else {
        let key = segs[0];
        let qk = q[0];
        let cs0 = contents_of(g);
        assert(keys_sorted(cs0)) by {
            match g.contents {
                Some(cs) => {},
                None => {
                    assert(cs0 =~= Seq::<(Seq<char>, GNode)>::empty());
                },
            }
        }
        let fresh = empty_gnode(child_path(g.full_path, key));
        lemma_key_index(cs0, key);
        let cs1 = if key_index(cs0, key) >= 0 {
            cs0
        } else {
            insert_sorted(cs0, key, fresh)
        };
        let i = key_index(cs1, key);
        let child0 = cs1[i].1;
        let newnode = add_spec(child0, p, segs.drop_first());
        let rr = cs1.update(i, (key, newnode));
        lemma_add_step(cs0, key, fresh, newnode, cs1, rr);
        assert(r.contents == Some(rr));
        assert(contents_of(r) == rr);
        let i_g = key_index(cs0, qk);
        lemma_key_index(cs0, qk);
        assert(i_g >= 0);
        lemma_key_index(rr, qk);
        if qk == key {
            // the walk dives into the child that just took the insertion
            assert(key_index(cs0, key) >= 0);
            assert(cs1 == cs0);
            assert(child0 == cs0[i_g].1) by {
                lemma_key_index(cs1, key);
            }
            assert(child_at(rr, key) == Some(newnode));
            assert(rr[key_index(rr, key)].1 == newnode);
            assert(lookup_spec(r, q) == lookup_spec(newnode, q.drop_first()));
            assert(lookup_spec(g, q) == lookup_spec(child0, q.drop_first()));
            assert(gnode_wf(child0)) by {
                assert(g.contents is Some);
                assert(gnode_wf(cs0[i_g].1));
            }
            assert(q.drop_first() != segs.drop_first() || q == segs) by {
                if q.drop_first() == segs.drop_first() && q != segs {
                    assert forall|t: int| 0 <= t < q.len() implies q[t] == segs[t] by {
                        if t > 0 {
                            assert(q[t] == q.drop_first()[t - 1]);
                            assert(segs[t] == segs.drop_first()[t - 1]);
                        }
                    }
                    assert(q =~= segs);
                }
            }
            lemma_add_preserves_nodes(child0, p, segs.drop_first(), q.drop_first());
        } else {
            // the walk dives into a child the insertion never touched
            assert(child_at(rr, qk) == child_at(cs0, qk));
            assert(child_at(cs0, qk) == Some(cs0[i_g].1));
            assert(child_at(rr, qk) is Some);
            assert(key_index(rr, qk) >= 0);
            assert(rr[key_index(rr, qk)].1 == cs0[i_g].1);
            assert(lookup_spec(r, q) == lookup_spec(cs0[i_g].1, q.drop_first()));
            assert(lookup_spec(g, q) == lookup_spec(cs0[i_g].1, q.drop_first()));
        }
    }
}

} // verus!

