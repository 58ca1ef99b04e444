use vstd::prelude::*;

use crate::hostinfo::{GHostInfo, OscHostInfoExtension};
use crate::node::{children_view, lemma_children_view, node_view, GNode, OSCNode};
use crate::oscunit::{unit_str, OSCUnit};
use crate::oscvalue::{tag_string, vals_view, GValue, OscValue};
use crate::parameter::{access_level, GRange, OSCAccess, OscRange};
use crate::text::{dec_int, dec_nat, push_char, write_dec_i64, write_dec_u64};

verus! {

/// The character for one hexadecimal digit.
pub open spec fn hex_digit(d: int) -> char {
    if d < 10 {
        crate::text::dec_digit(d)
    } else if d == 10 {
        'a'
    } else if d == 11 {
        'b'
    } else if d == 12 {
        'c'
    } else if d == 13 {
        'd'
    } else if d == 14 {
        'e'
    } else {
        'f'
    }
}

/// How one character stands inside a JSON string: quote and backslash are
/// escaped, control characters take their short escape when they have one
/// and a `\u00..` escape otherwise, everything else stands as itself.
pub open spec fn json_escaped_char(c: char) -> Seq<char> {
    if c == '"' {
        seq!['\\', '"']
    } else if c == '\\' {
        seq!['\\', '\\']
    } else if c == '\u{08}' {
        seq!['\\', 'b']
    } else if c == '\u{09}' {
        seq!['\\', 't']
    } else if c == '\u{0A}' {
        seq!['\\', 'n']
    } else if c == '\u{0C}' {
        seq!['\\', 'f']
    } else if c == '\u{0D}' {
        seq!['\\', 'r']
    } else if (c as int) < 0x20 {
        seq!['\\', 'u', '0', '0', hex_digit(c as int / 16), hex_digit(c as int % 16)]
    } else {
        seq![c]
    }
}

/// The body of a JSON string: each character escaped as it must be.
pub open spec fn json_escape(s: Seq<char>) -> Seq<char>
    decreases s.len(),
{
    if s.len() == 0 {
        Seq::empty()
    } else {
        json_escaped_char(s[0]) + json_escape(s.drop_first())
    }
}

/// A JSON string: the escaped text between quotes.
pub open spec fn json_string(s: Seq<char>) -> Seq<char> {
    seq!['"'] + json_escape(s) + seq!['"']
}

/// Pieces joined with a comma between them.
pub open spec fn join_comma(parts: Seq<Seq<char>>) -> Seq<char>
    decreases parts.len(),
{
    if parts.len() == 0 {
        Seq::empty()
    } else if parts.len() == 1 {
        parts[0]
    } else {
        join_comma(parts.drop_last()) + seq![','] + parts.last()
    }
}

/// A JSON boolean.
pub open spec fn json_bool(b: bool) -> Seq<char> {
    if b {
        "true"@
    } else {
        "false"@
    }
}

/// A JSON array of numbers, one per byte.
pub open spec fn json_of_bytes(b: Seq<u8>) -> Seq<char> {
    seq!['['] + join_comma(b.map_values(|x: u8| dec_nat(x as nat))) + seq![']']
}

/// The value kinds whose payload has a JSON scalar form: numbers, texts,
/// booleans and byte sequences. A timetag, color, MIDI message, nil or
/// infinitum carries no such scalar and cannot stand in a `VALUE` array.
pub open spec fn value_encodable(v: GValue) -> bool {
    match v {
        GValue::Int(_) => true,
        GValue::Float(_) => true,
        GValue::Str(_) => true,
        GValue::Blob(_) => true,
        GValue::Long(_) => true,
        GValue::Double(_) => true,
        GValue::Char(_) => true,
        GValue::Bool(_) => true,
        _ => false,
    }
}

/// The JSON scalar of one value: its bare payload, the type tag dropped.
pub open spec fn json_of_value(v: GValue) -> Seq<char> {
    match v {
        GValue::Int(i) => dec_int(i as int),
        GValue::Float(t) => t,
        GValue::Str(s) => json_string(s),
        GValue::Blob(b) => json_of_bytes(b),
        GValue::Long(l) => dec_int(l as int),
        GValue::Double(t) => t,
        GValue::Char(c) => json_string(seq![c]),
        GValue::Bool(b) => json_bool(b),
        _ => Seq::empty(),
    }
}

/// One channel's range object: the keys in `MIN`, `MAX`, `VALS` order,
/// unset bounds omitted.
pub open spec fn json_of_range(r: GRange) -> Seq<char> {
    seq!['{'] + join_comma(range_entries(r)) + seq!['}']
}

/// The key/value texts a range object holds, in order.
pub open spec fn range_entries(r: GRange) -> Seq<Seq<char>> {
    (match r.min {
        Some(t) => seq!["\"MIN\":"@ + t],
        None => Seq::empty(),
    }) + (match r.max {
        Some(t) => seq!["\"MAX\":"@ + t],
        None => Seq::empty(),
    }) + (match r.vals {
        Some(t) => seq!["\"VALS\":"@ + t],
        None => Seq::empty(),
    })
}

/// The first half of the `EXTENSIONS` object.
pub open spec fn json_of_ext_front(e: OscHostInfoExtension) -> Seq<char> {
    "{\"ACCESS\":"@ + json_bool(e.access) + ",\"VALUE\":"@ + json_bool(e.value) + ",\"RANGE\":"@
        + json_bool(e.range) + ",\"DESCRIPTION\":"@ + json_bool(e.description) + ",\"TAGS\":"@
        + json_bool(e.tags) + ",\"EXTENDED_TYPE\":"@ + json_bool(e.extended_type)
}

/// The `EXTENSIONS` object: the eleven flags, always all present, in their
/// fixed order.
pub open spec fn json_of_ext(e: OscHostInfoExtension) -> Seq<char> {
    json_of_ext_front(e) + ",\"UNIT\":"@ + json_bool(e.unit) + ",\"CRITICAL\":"@ + json_bool(
        e.critical,
    ) + ",\"CLIPMODE\":"@ + json_bool(e.clipmode) + ",\"LISTEN\":"@ + json_bool(e.listen)
        + ",\"PATH_CHANGED\":"@ + json_bool(e.path_changed) + "}"@
}

/// The `HOST_INFO` object: name, transport address, port, transport kind and
/// the extension flags.
pub open spec fn json_of_host(h: GHostInfo) -> Seq<char> {
    "{\"NAME\":"@ + json_string(h.name) + ",\"OSC_IP\":"@ + json_string(h.osc_ip) + ",\"OSC_PORT\":"@
        + dec_nat(h.osc_port as nat) + ",\"OSC_TRANSPORT\":"@ + json_string(h.osc_trans)
        + ",\"EXTENSIONS\":"@ + json_of_ext(h.extension) + "}"@
}

/// The serialized form of one node: `DESCRIPTION` and `FULL_PATH` always,
/// then each optional field in its fixed order, present exactly when the
/// node carries it.
pub open spec fn json_of_node(g: GNode) -> Seq<char>
    decreases g,
{
    "{\"DESCRIPTION\":"@ + json_string(g.description) + ",\"FULL_PATH\":"@ + json_string(
        g.full_path,
    ) + (match g.access {
        Some(a) => ",\"ACCESS\":"@ + dec_int(access_level(a)),
        None => Seq::empty(),
    }) + (match g.contents {
        Some(cs) => ",\"CONTENTS\":{"@ + json_of_children(cs) + "}"@,
        None => Seq::empty(),
    }) + (match g.types {
        Some(ts) => ",\"TYPE\":"@ + json_string(tag_string(ts)),
        None => Seq::empty(),
    }) + (match g.values {
        Some(vs) => ",\"VALUE\":["@ + join_comma(vs.map_values(|v: GValue| json_of_value(v)))
            + "]"@,
        None => Seq::empty(),
    }) + (match g.ranges {
        Some(rs) => ",\"RANGE\":["@ + join_comma(rs.map_values(|r: GRange| json_of_range(r)))
            + "]"@,
        None => Seq::empty(),
    }) + (match g.units {
        Some(us) => ",\"UNIT\":["@ + join_comma(
            us.map_values(|u: OSCUnit| json_string(unit_str(u))),
        ) + "]"@,
        None => Seq::empty(),
    }) + (match g.host_info {
        Some(h) => ",\"HOST_INFO\":"@ + json_of_host(h),
        None => Seq::empty(),
    }) + "}"@
}

/// The body of the `CONTENTS` object: `"name":<node>` pairs in child order,
/// comma-separated.
pub open spec fn json_of_children(cs: Seq<(Seq<char>, GNode)>) -> Seq<char>
    decreases cs,
{
    if cs.len() == 0 {
        Seq::empty()
    } else if cs.len() == 1 {
        json_string(cs[0].0) + ":"@ + json_of_node(cs[0].1)
    } else {
        json_of_children(cs.drop_last()) + ","@ + json_string(cs.last().0) + ":"@ + json_of_node(
            cs.last().1,
        )
    }
}

/// Whether every value of one (possibly absent) value sequence has a JSON
/// scalar form.
pub open spec fn opt_values_encodable(o: Option<Seq<GValue>>) -> bool {
    match o {
        Some(vs) => forall|i: int| 0 <= i < vs.len() ==> value_encodable(#[trigger] vs[i]),
        None => true,
    }
}

/// Whether every subtree of one (possibly absent) children sequence is
/// encodable.
pub open spec fn opt_children_encodable(o: Option<Seq<(Seq<char>, GNode)>>) -> bool
    decreases o,
{
    match o {
        Some(cs) => forall|i: int| 0 <= i < cs.len() ==> node_encodable((#[trigger] cs[i]).1),
        None => true,
    }
}

/// Whether every value everywhere in the subtree has a JSON scalar form.
pub open spec fn node_encodable(g: GNode) -> bool
    decreases g,
{
    opt_values_encodable(g.values) && opt_children_encodable(g.contents)
}

/// Escaping one more character extends the escaped text.
proof fn lemma_json_escape_push(s: Seq<char>, c: char)
    ensures
        json_escape(s.push(c)) =~= json_escape(s) + json_escaped_char(c),
    decreases s.len(),
{
    reveal_with_fuel(json_escape, 2);
    if s.len() == 0 {
        assert(s.push(c)[0] == c);
        assert(s.push(c).drop_first() =~= Seq::<char>::empty());
        assert(json_escape(s.push(c).drop_first()) =~= Seq::<char>::empty());
        assert(s =~= Seq::<char>::empty());
    } else {
        assert(s.push(c)[0] == s[0]);
        assert(s.push(c).drop_first() =~= s.drop_first().push(c));
        lemma_json_escape_push(s.drop_first(), c);
        assert(json_escape(s.push(c)) =~= json_escaped_char(s[0]) + json_escape(
            s.drop_first().push(c),
        ));
    }
}

/// Joining one more piece appends it after a comma (or alone, to nothing).
proof fn lemma_join_comma_push(parts: Seq<Seq<char>>, x: Seq<char>)
    ensures
        parts.len() == 0 ==> join_comma(parts.push(x)) =~= x,
        parts.len() > 0 ==> join_comma(parts.push(x)) =~= join_comma(parts) + seq![','] + x,
{
    assert(parts.push(x).drop_last() =~= parts);
    assert(parts.push(x).last() == x);
}

fn hex_digit_char(d: u32) -> (c: char)
    requires
        d < 16,
    ensures
        c == hex_digit(d as int),
{
    if d == 0 {
        '0'
    } else if d == 1 {
        '1'
    } else if d == 2 {
        '2'
    } else if d == 3 {
        '3'
    } else if d == 4 {
        '4'
    } else if d == 5 {
        '5'
    } else if d == 6 {
        '6'
    } else if d == 7 {
        '7'
    } else if d == 8 {
        '8'
    } else if d == 9 {
        '9'
    } else if d == 10 {
        'a'
    } else if d == 11 {
        'b'
    } else if d == 12 {
        'c'
    } else if d == 13 {
        'd'
    } else if d == 14 {
        'e'
    } else {
        'f'
    }
}

/// Appends one character in its escaped form.
fn write_escaped_char(c: char, out: &mut String)
    ensures
        final(out)@ =~= old(out)@ + json_escaped_char(c),
{
    if c == '"' {
        push_char(out, '\\');
        push_char(out, '"');
    } else if c == '\\' {
        push_char(out, '\\');
        push_char(out, '\\');
    } else if c == '\u{08}' {
        push_char(out, '\\');
        push_char(out, 'b');
    } else if c == '\u{09}' {
        push_char(out, '\\');
        push_char(out, 't');
    } else if c == '\u{0A}' {
        push_char(out, '\\');
        push_char(out, 'n');
    } else if c == '\u{0C}' {
        push_char(out, '\\');
        push_char(out, 'f');
    } else if c == '\u{0D}' {
        push_char(out, '\\');
        push_char(out, 'r');
    } else if (c as u32) < 0x20 {
        push_char(out, '\\');
        push_char(out, 'u');
        push_char(out, '0');
        push_char(out, '0');
        push_char(out, hex_digit_char((c as u32) / 16));
        push_char(out, hex_digit_char((c as u32) % 16));
    } else {
        push_char(out, c);
    }
}

/// Appends the escaped body of a JSON string.
fn write_escaped(s: &str, out: &mut String)
    ensures
        final(out)@ =~= old(out)@ + json_escape(s@),
{
    let len = s.unicode_len();
    let mut i: usize = 0;
    proof {
        assert(s@.take(0) =~= Seq::<char>::empty());
    }
    while i < len
        invariant
            i <= len,
            len == s@.len(),
            out@ =~= old(out)@ + json_escape(s@.take(i as int)),
        decreases len - i,
    {
        let c = s.get_char(i);
        write_escaped_char(c, out);
        proof {
            assert(s@.take(i + 1) =~= s@.take(i as int).push(s@[i as int]));
            lemma_json_escape_push(s@.take(i as int), s@[i as int]);
        }
        i = i + 1;
    }
    proof {
        assert(s@.take(len as int) =~= s@);
    }
}

/// Appends a whole JSON string, quotes included.
pub(crate) fn write_json_string(s: &str, out: &mut String)
    ensures
        final(out)@ =~= old(out)@ + json_string(s@),
{
    push_char(out, '"');
    write_escaped(s, out);
    push_char(out, '"');
}

/// Appends a byte array as JSON numbers.
fn write_bytes(b: &Vec<u8>, out: &mut String)
    ensures
        final(out)@ =~= old(out)@ + json_of_bytes(b@),
{
    let ghost parts = b@.map_values(|x: u8| dec_nat(x as nat));
    push_char(out, '[');
    let mut i: usize = 0;
    proof {
        assert(b@.take(0).map_values(|x: u8| dec_nat(x as nat))
            =~= Seq::<Seq<char>>::empty());
    }
    while i < b.len()
        invariant
            i <= b@.len(),
            out@ =~= old(out)@.push('[') + join_comma(
                b@.take(i as int).map_values(|x: u8| dec_nat(x as nat)),
            ),
        decreases b@.len() - i,
    {
        if i > 0 {
            push_char(out, ',');
        }
        write_dec_u64(b[i] as u64, out);
        proof {
            let f = |x: u8| dec_nat(x as nat);
            assert(b@.take(i + 1) =~= b@.take(i as int).push(b@[i as int]));
            assert(b@.take(i + 1).map_values(f) =~= b@.take(i as int).map_values(f).push(
                f(b@[i as int]),
            ));
            lemma_join_comma_push(b@.take(i as int).map_values(f), f(b@[i as int]));
            assert(b@.take(i as int).map_values(f).len() == i);
        }
        i = i + 1;
    }
    push_char(out, ']');
    proof {
        assert(b@.take(b@.len() as int) =~= b@);
        assert(final(out)@ =~= old(out)@ + json_of_bytes(b@));
    }
}

/// Appends one value's JSON scalar.
fn write_value(v: &OscValue, out: &mut String)
    requires
        value_encodable(v@),
    ensures
        final(out)@ =~= old(out)@ + json_of_value(v@),
{
    match v {
        OscValue::Int(i) => {
            write_dec_i64(*i as i64, out);
        },
        OscValue::Float(t) => {
            out.append(t.as_str());
        },
        OscValue::Str(s) => {
            write_json_string(s.as_str(), out);
        },
        OscValue::Blob(b) => {
            write_bytes(b, out);
        },
        OscValue::Long(l) => {
            write_dec_i64(*l, out);
        },
        OscValue::Double(t) => {
            out.append(t.as_str());
        },
        OscValue::Char(c) => {
            push_char(out, '"');
            write_escaped_char(*c, out);
            push_char(out, '"');
            proof {
                assert(json_escape(seq![*c]) =~= json_escaped_char(*c) + json_escape(
                    Seq::<char>::empty(),
                )) by {
                    assert(seq![*c].drop_first() =~= Seq::<char>::empty());
                }
                assert(final(out)@ =~= old(out)@ + json_of_value(v@));
            }
        },
        OscValue::Bool(b) => {
            if *b {
                out.append("true");
            } else {
                out.append("false");
            }
        },
        _ => {
            proof {
                assert(false);
            }
        },
    }
}

/// Appends the comma-joined scalars of a value sequence.
pub(crate) fn write_values(vs: &Vec<OscValue>, out: &mut String)
    requires
        forall|i: int| 0 <= i < vs@.len() ==> value_encodable(#[trigger] vals_view(vs@)[i]),
    ensures
        final(out)@ =~= old(out)@ + join_comma(
            vals_view(vs@).map_values(|v: GValue| json_of_value(v)),
        ),
{
    let ghost f = |v: GValue| json_of_value(v);
    let mut i: usize = 0;
    proof {
        assert(vals_view(vs@.take(0)).map_values(f) =~= Seq::<Seq<char>>::empty());
    }
    while i < vs.len()
        invariant
            i <= vs@.len(),
            forall|t: int| 0 <= t < vs@.len() ==> value_encodable(#[trigger] vals_view(vs@)[t]),
            out@ =~= old(out)@ + join_comma(vals_view(vs@.take(i as int)).map_values(f)),
            f == (|v: GValue| json_of_value(v)),
        decreases vs@.len() - i,
    {
        if i > 0 {
            push_char(out, ',');
        }
        proof {
            assert(vals_view(vs@)[i as int] == vs@[i as int]@);
        }
        write_value(&vs[i], out);
        proof {
            assert(vals_view(vs@.take(i + 1)) =~= vals_view(vs@.take(i as int)).push(
                vs@[i as int]@,
            ));
            assert(vals_view(vs@.take(i + 1)).map_values(f) =~= vals_view(
                vs@.take(i as int),
            ).map_values(f).push(f(vs@[i as int]@)));
            lemma_join_comma_push(vals_view(vs@.take(i as int)).map_values(f), f(vs@[i as int]@));
            assert(vals_view(vs@.take(i as int)).map_values(f).len() == i);
        }
        i = i + 1;
    }
    proof {
        assert(vs@.take(vs@.len() as int) =~= vs@);
    }
}

/// Appends one range object.
fn write_range(r: &OscRange, out: &mut String)
    ensures
        final(out)@ =~= old(out)@ + json_of_range(r@),
{
    proof {
        reveal_with_fuel(join_comma, 4);
    }
    push_char(out, '{');
    let mut first = true;
    if let Some(t) = &r.min {
        out.append("\"MIN\":");
        out.append(t.as_str());
        first = false;
    }
    if let Some(t) = &r.max {
        if !first {
            push_char(out, ',');
        }
        out.append("\"MAX\":");
        out.append(t.as_str());
        first = false;
    }
    if let Some(t) = &r.vals {
        if !first {
            push_char(out, ',');
        }
        out.append("\"VALS\":");
        out.append(t.as_str());
    }
    push_char(out, '}');
    proof {
        assert(final(out)@ =~= old(out)@ + json_of_range(r@));
    }
}

/// Appends the comma-joined range objects of a range sequence.
pub(crate) fn write_ranges(rs: &Vec<OscRange>, out: &mut String)
    ensures
        final(out)@ =~= old(out)@ + join_comma(
            crate::node::ranges_view(rs@).map_values(|r: GRange| json_of_range(r)),
        ),
{
    let ghost f = |r: GRange| json_of_range(r);
    let mut i: usize = 0;
    proof {
        assert(crate::node::ranges_view(rs@.take(0)).map_values(f)
            =~= Seq::<Seq<char>>::empty());
    }
    while i < rs.len()
        invariant
            i <= rs@.len(),
            out@ =~= old(out)@ + join_comma(
                crate::node::ranges_view(rs@.take(i as int)).map_values(f),
            ),
            f == (|r: GRange| json_of_range(r)),
        decreases rs@.len() - i,
    {
        if i > 0 {
            push_char(out, ',');
        }
        write_range(&rs[i], out);
        proof {
            assert(crate::node::ranges_view(rs@.take(i + 1)) =~= crate::node::ranges_view(
                rs@.take(i as int),
            ).push(rs@[i as int]@));
            assert(crate::node::ranges_view(rs@.take(i + 1)).map_values(f)
                =~= crate::node::ranges_view(rs@.take(i as int)).map_values(f).push(
                f(rs@[i as int]@),
            ));
            lemma_join_comma_push(
                crate::node::ranges_view(rs@.take(i as int)).map_values(f),
                f(rs@[i as int]@),
            );
            assert(crate::node::ranges_view(rs@.take(i as int)).map_values(f).len() == i);
        }
        i = i + 1;
    }
    proof {
        assert(rs@.take(rs@.len() as int) =~= rs@);
    }
}

/// Appends the comma-joined strings of a unit sequence.
pub(crate) fn write_units(us: &Vec<OSCUnit>, out: &mut String)
    ensures
        final(out)@ =~= old(out)@ + join_comma(
            us@.map_values(|u: OSCUnit| json_string(unit_str(u))),
        ),
{
    let ghost f = |u: OSCUnit| json_string(unit_str(u));
    let mut i: usize = 0;
    proof {
        assert(us@.take(0).map_values(f) =~= Seq::<Seq<char>>::empty());
    }
    while i < us.len()
        invariant
            i <= us@.len(),
            out@ =~= old(out)@ + join_comma(us@.take(i as int).map_values(f)),
            f == (|u: OSCUnit| json_string(unit_str(u))),
        decreases us@.len() - i,
    {
        if i > 0 {
            push_char(out, ',');
        }
        let text = us[i].encode();
        write_json_string(text.as_str(), out);
        proof {
            assert(us@.take(i + 1) =~= us@.take(i as int).push(us@[i as int]));
            assert(us@.take(i + 1).map_values(f) =~= us@.take(i as int).map_values(f).push(
                f(us@[i as int]),
            ));
            lemma_join_comma_push(us@.take(i as int).map_values(f), f(us@[i as int]));
            assert(us@.take(i as int).map_values(f).len() == i);
        }
        i = i + 1;
    }
    proof {
        assert(us@.take(us@.len() as int) =~= us@);
    }
}

/// Appends an access level as its number.
fn write_access(a: &OSCAccess, out: &mut String)
    ensures
        final(out)@ =~= old(out)@ + dec_int(access_level(*a)),
{
    let c = match a {
        OSCAccess::NoAcces => '0',
        OSCAccess::Read => '1',
        OSCAccess::Write => '2',
        OSCAccess::ReadWrite => '3',
    };
    push_char(out, c);
    proof {
        assert(final(out)@ =~= old(out)@ + dec_int(access_level(*a)));
    }
}

/// Appends a JSON boolean.
fn write_bool(b: bool, out: &mut String)
    ensures
        final(out)@ == old(out)@ + json_bool(b),
{
    if b {
        out.append("true");
    } else {
        out.append("false");
    }
}

/// Appends the first half of the `EXTENSIONS` object. The proof tracks the
/// appended text one piece at a time, re-associating as it goes, so that no
/// step looks at the whole object at once.
fn write_ext_front(e: &OscHostInfoExtension, out: &mut String)
    ensures
        final(out)@ == old(out)@ + json_of_ext_front(*e),
{
    let ghost base = old(out)@;
    let ghost mut acc: Seq<char> = Seq::empty();
    out.append("{\"ACCESS\":");
    proof {
        acc = "{\"ACCESS\":"@;
        assert(out@ == base + acc);
    }
    write_bool(e.access, out);
    proof {
        vstd::seq_lib::lemma_concat_associative(base, acc, json_bool(e.access));
        acc = acc + json_bool(e.access);
        assert(out@ == base + acc);
    }
    out.append(",\"VALUE\":");
    proof {
        vstd::seq_lib::lemma_concat_associative(base, acc, ",\"VALUE\":"@);
        acc = acc + ",\"VALUE\":"@;
        assert(out@ == base + acc);
    }
    write_bool(e.value, out);
    proof {
        vstd::seq_lib::lemma_concat_associative(base, acc, json_bool(e.value));
        acc = acc + json_bool(e.value);
        assert(out@ == base + acc);
    }
    out.append(",\"RANGE\":");
    proof {
        vstd::seq_lib::lemma_concat_associative(base, acc, ",\"RANGE\":"@);
        acc = acc + ",\"RANGE\":"@;
        assert(out@ == base + acc);
    }
    write_bool(e.range, out);
    proof {
        vstd::seq_lib::lemma_concat_associative(base, acc, json_bool(e.range));
        acc = acc + json_bool(e.range);
        assert(out@ == base + acc);
    }
    out.append(",\"DESCRIPTION\":");
    proof {
        vstd::seq_lib::lemma_concat_associative(base, acc, ",\"DESCRIPTION\":"@);
        acc = acc + ",\"DESCRIPTION\":"@;
        assert(out@ == base + acc);
    }
    write_bool(e.description, out);
    proof {
        vstd::seq_lib::lemma_concat_associative(base, acc, json_bool(e.description));
        acc = acc + json_bool(e.description);
        assert(out@ == base + acc);
    }
    out.append(",\"TAGS\":");
    proof {
        vstd::seq_lib::lemma_concat_associative(base, acc, ",\"TAGS\":"@);
        acc = acc + ",\"TAGS\":"@;
        assert(out@ == base + acc);
    }
    write_bool(e.tags, out);
    proof {
        vstd::seq_lib::lemma_concat_associative(base, acc, json_bool(e.tags));
        acc = acc + json_bool(e.tags);
        assert(out@ == base + acc);
    }
    out.append(",\"EXTENDED_TYPE\":");
    proof {
        vstd::seq_lib::lemma_concat_associative(base, acc, ",\"EXTENDED_TYPE\":"@);
        acc = acc + ",\"EXTENDED_TYPE\":"@;
        assert(out@ == base + acc);
    }
    write_bool(e.extended_type, out);
    proof {
        vstd::seq_lib::lemma_concat_associative(base, acc, json_bool(e.extended_type));
        acc = acc + json_bool(e.extended_type);
        assert(out@ == base + acc);
        assert(acc == json_of_ext_front(*e));
    }
}

/// Appends the `EXTENSIONS` object, continuing the same piecewise proof.
fn write_ext(e: &OscHostInfoExtension, out: &mut String)
    ensures
        final(out)@ == old(out)@ + json_of_ext(*e),
{
    let ghost base = old(out)@;
    write_ext_front(e, out);
    let ghost mut acc: Seq<char> = json_of_ext_front(*e);
    out.append(",\"UNIT\":");
    proof {
        vstd::seq_lib::lemma_concat_associative(base, acc, ",\"UNIT\":"@);
        acc = acc + ",\"UNIT\":"@;
        assert(out@ == base + acc);
    }
    write_bool(e.unit, out);
    proof {
        vstd::seq_lib::lemma_concat_associative(base, acc, json_bool(e.unit));
        acc = acc + json_bool(e.unit);
        assert(out@ == base + acc);
    }
    out.append(",\"CRITICAL\":");
    proof {
        vstd::seq_lib::lemma_concat_associative(base, acc, ",\"CRITICAL\":"@);
        acc = acc + ",\"CRITICAL\":"@;
        assert(out@ == base + acc);
    }
    write_bool(e.critical, out);
    proof {
        vstd::seq_lib::lemma_concat_associative(base, acc, json_bool(e.critical));
        acc = acc + json_bool(e.critical);
        assert(out@ == base + acc);
    }
    out.append(",\"CLIPMODE\":");
    proof {
        vstd::seq_lib::lemma_concat_associative(base, acc, ",\"CLIPMODE\":"@);
        acc = acc + ",\"CLIPMODE\":"@;
        assert(out@ == base + acc);
    }
    write_bool(e.clipmode, out);
    proof {
        vstd::seq_lib::lemma_concat_associative(base, acc, json_bool(e.clipmode));
        acc = acc + json_bool(e.clipmode);
        assert(out@ == base + acc);
    }
    out.append(",\"LISTEN\":");
    proof {
        vstd::seq_lib::lemma_concat_associative(base, acc, ",\"LISTEN\":"@);
        acc = acc + ",\"LISTEN\":"@;
        assert(out@ == base + acc);
    }
    write_bool(e.listen, out);
    proof {
        vstd::seq_lib::lemma_concat_associative(base, acc, json_bool(e.listen));
        acc = acc + json_bool(e.listen);
        assert(out@ == base + acc);
    }
    out.append(",\"PATH_CHANGED\":");
    proof {
        vstd::seq_lib::lemma_concat_associative(base, acc, ",\"PATH_CHANGED\":"@);
        acc = acc + ",\"PATH_CHANGED\":"@;
        assert(out@ == base + acc);
    }
    write_bool(e.path_changed, out);
    proof {
        vstd::seq_lib::lemma_concat_associative(base, acc, json_bool(e.path_changed));
        acc = acc + json_bool(e.path_changed);
        assert(out@ == base + acc);
    }
    out.append("}");
    proof {
        vstd::seq_lib::lemma_concat_associative(base, acc, "}"@);
        acc = acc + "}"@;
        assert(out@ == base + acc);
        assert(acc == json_of_ext(*e));
    }
}

/// One more child appended to the `CONTENTS` body: after a comma when it is
/// not the first.
proof fn lemma_json_of_children_push(cs: Seq<(Seq<char>, GNode)>, x: (Seq<char>, GNode))
    ensures
        cs.len() == 0 ==> json_of_children(cs.push(x)) == json_string(x.0) + ":"@ + json_of_node(
            x.1,
        ),
        cs.len() > 0 ==> json_of_children(cs.push(x)) == json_of_children(cs) + ","@ + json_string(
            x.0,
        ) + ":"@ + json_of_node(x.1),
{
    assert(cs.push(x).drop_last() =~= cs);
    assert(cs.push(x).last() == x);
}

/// Appends the body of the `CONTENTS` object: the children in order.
fn write_children(cs: &Vec<(String, OSCNode)>, out: &mut String)
    requires
        forall|i: int|
            0 <= i < cs@.len() ==> node_encodable((#[trigger] children_view(cs@)[i]).1),
    ensures
        final(out)@ == old(out)@ + json_of_children(children_view(cs@)),
    decreases cs@,
{
    let ghost base = old(out)@;
    let ghost cv = children_view(cs@);
    proof {
        lemma_children_view(cs@);
    }
    let mut i: usize = 0;
    proof {
        assert(children_view(cs@.take(0)) =~= Seq::<(Seq<char>, GNode)>::empty());
        assert(cv.take(0) =~= Seq::<(Seq<char>, GNode)>::empty());
    }
    while i < cs.len()
        invariant
            i <= cs@.len(),
            cv == children_view(cs@),
            cv.len() == cs@.len(),
            forall|t: int| 0 <= t < cs@.len() ==> #[trigger] cv[t] == (cs@[t].0@, node_view(
                cs@[t].1,
            )),
            forall|t: int| 0 <= t < cs@.len() ==> node_encodable((#[trigger] cv[t]).1),
            out@ == base + json_of_children(cv.take(i as int)),
        decreases cs@.len() - i,
    {
        if i > 0 {
            out.append(",");
        }
        write_json_string(cs[i].0.as_str(), out);
        out.append(":");
        proof {
            assert(cv[i as int] == (cs@[i as int].0@, node_view(cs@[i as int].1)));
            assert(node_encodable(node_view(cs@[i as int].1)));
            assert(decreases_to!(cs@ => cs@[i as int]));
            assert(decreases_to!(cs@[i as int] => cs@[i as int].1));
        }
        write_node(&cs[i].1, out);
        proof {
            assert(cv.take(i + 1) =~= cv.take(i as int).push(cv[i as int]));
            lemma_json_of_children_push(cv.take(i as int), cv[i as int]);
            assert(cv.take(i as int).len() == i);
            assert(out@ =~= base + json_of_children(cv.take(i + 1)));
        }
        i = i + 1;
    }
    proof {
        assert(cv.take(cv.len() as int) =~= cv);
    }
}

/// Appends the serialized form of one node and everything under it.
#[verifier::rlimit(100)]
pub(crate) fn write_node(n: &OSCNode, out: &mut String)
    requires
        node_encodable(node_view(*n)),
    ensures
        final(out)@ == old(out)@ + json_of_node(node_view(*n)),
    decreases *n,
{
    let ghost g = node_view(*n);
    let ghost base = old(out)@;
    let ghost mut acc: Seq<char> = Seq::empty();
    out.append("{\"DESCRIPTION\":");
    proof {
        acc = "{\"DESCRIPTION\":"@;
        assert(out@ == base + acc);
    }
    write_json_string(n.description.as_str(), out);
    proof {
        vstd::seq_lib::lemma_concat_associative(base, acc, json_string(g.description));
        acc = acc + json_string(g.description);
        assert(out@ == base + acc);
    }
    out.append(",\"FULL_PATH\":");
    proof {
        vstd::seq_lib::lemma_concat_associative(base, acc, ",\"FULL_PATH\":"@);
        acc = acc + ",\"FULL_PATH\":"@;
        assert(out@ == base + acc);
    }
    write_json_string(n.full_path.as_str(), out);
    proof {
        vstd::seq_lib::lemma_concat_associative(base, acc, json_string(g.full_path));
        acc = acc + json_string(g.full_path);
        assert(out@ == base + acc);
    }
    match &n.access {
        Some(a) => {
            out.append(",\"ACCESS\":");
            write_access(a, out);
            proof {
                let part = ",\"ACCESS\":"@ + dec_int(access_level(*a));
                vstd::seq_lib::lemma_concat_associative(base, acc, ",\"ACCESS\":"@);
                vstd::seq_lib::lemma_concat_associative(
                    base,
                    acc + ",\"ACCESS\":"@,
                    dec_int(access_level(*a)),
                );
                vstd::seq_lib::lemma_concat_associative(
                    acc,
                    ",\"ACCESS\":"@,
                    dec_int(access_level(*a)),
                );
                acc = acc + part;
                assert(out@ == base + acc);
            }
        },
        None => {
            proof {
                assert(acc + Seq::<char>::empty() =~= acc);
            }
        },
    }
    let ghost acc_access = acc;
    match &n.contents {
        Some(v) => {
            out.append(",\"CONTENTS\":{");
            proof {
                vstd::seq_lib::lemma_concat_associative(base, acc, ",\"CONTENTS\":{"@);
                acc = acc + ",\"CONTENTS\":{"@;
                assert(out@ == base + acc);
                lemma_children_view(v@);
                assert(g.contents == Some(children_view(v@)));
                assert forall|t: int|
                    0 <= t < v@.len() implies node_encodable(
                    (#[trigger] children_view(v@)[t]).1,
                ) by {
                    assert(children_view(v@).len() == v@.len());
                    assert(opt_children_encodable(Some(children_view(v@))));
                    assert(Some(children_view(v@))->Some_0 == children_view(v@));
                    assert(node_encodable((Some(children_view(v@))->Some_0[t]).1));
                }
            }
            write_children(v, out);
            proof {
                vstd::seq_lib::lemma_concat_associative(
                    base,
                    acc,
                    json_of_children(children_view(v@)),
                );
                acc = acc + json_of_children(children_view(v@));
                assert(out@ == base + acc);
            }
            out.append("}");
            proof {
                vstd::seq_lib::lemma_concat_associative(base, acc, "}"@);
                acc = acc + "}"@;
                assert(out@ == base + acc);
                vstd::seq_lib::lemma_concat_associative(
                    acc_access,
                    ",\"CONTENTS\":{"@,
                    json_of_children(children_view(v@)),
                );
                vstd::seq_lib::lemma_concat_associative(
                    acc_access,
                    ",\"CONTENTS\":{"@ + json_of_children(children_view(v@)),
                    "}"@,
                );
                assert(acc == acc_access + (",\"CONTENTS\":{"@ + json_of_children(
                    children_view(v@),
                ) + "}"@));
            }
        },
        None => {
            proof {
                assert(acc + Seq::<char>::empty() =~= acc);
            }
        },
    }
    let ghost acc_contents = acc;
    match &n.osc_type {
        Some(v) => {
            out.append(",\"TYPE\":");
            let tags = crate::oscvalue::type_string(v);
            write_json_string(tags.as_str(), out);
            proof {
                let part = ",\"TYPE\":"@ + json_string(tag_string(vals_view(v@)));
                vstd::seq_lib::lemma_concat_associative(base, acc, ",\"TYPE\":"@);
                vstd::seq_lib::lemma_concat_associative(
                    base,
                    acc + ",\"TYPE\":"@,
                    json_string(tag_string(vals_view(v@))),
                );
                vstd::seq_lib::lemma_concat_associative(
                    acc,
                    ",\"TYPE\":"@,
                    json_string(tag_string(vals_view(v@))),
                );
                acc = acc + part;
                assert(out@ == base + acc);
            }
        },
        None => {
            proof {
                assert(acc + Seq::<char>::empty() =~= acc);
            }
        },
    }
    let ghost acc_type = acc;
    match &n.value {
        Some(v) => {
            out.append(",\"VALUE\":[");
            proof {
                vstd::seq_lib::lemma_concat_associative(base, acc, ",\"VALUE\":["@);
                acc = acc + ",\"VALUE\":["@;
                assert(out@ == base + acc);
            }
            let ghost vals_text = join_comma(
                vals_view(v@).map_values(|x: GValue| json_of_value(x)),
            );
            proof {
                assert(g.values == Some(vals_view(v@)));
                assert forall|t: int|
                    0 <= t < v@.len() implies value_encodable(#[trigger] vals_view(v@)[t]) by {
                    assert(opt_values_encodable(Some(vals_view(v@))));
                    assert(Some(vals_view(v@))->Some_0 == vals_view(v@));
                    assert(value_encodable(Some(vals_view(v@))->Some_0[t]));
                }
            }
            write_values(v, out);
            proof {
                vstd::seq_lib::lemma_concat_associative(base, acc, vals_text);
                acc = acc + vals_text;
                assert(out@ == base + acc);
            }
            out.append("]");
            proof {
                vstd::seq_lib::lemma_concat_associative(base, acc, "]"@);
                acc = acc + "]"@;
                assert(out@ == base + acc);
                vstd::seq_lib::lemma_concat_associative(acc_type, ",\"VALUE\":["@, vals_text);
                vstd::seq_lib::lemma_concat_associative(
                    acc_type,
                    ",\"VALUE\":["@ + vals_text,
                    "]"@,
                );
                assert(acc == acc_type + (",\"VALUE\":["@ + vals_text + "]"@));
            }
        },
        None => {
            proof {
                assert(acc + Seq::<char>::empty() =~= acc);
            }
        },
    }
    let ghost acc_value = acc;
    match &n.range {
        Some(v) => {
            out.append(",\"RANGE\":[");
            proof {
                vstd::seq_lib::lemma_concat_associative(base, acc, ",\"RANGE\":["@);
                acc = acc + ",\"RANGE\":["@;
                assert(out@ == base + acc);
            }
            let ghost ranges_text = join_comma(
                crate::node::ranges_view(v@).map_values(|x: GRange| json_of_range(x)),
            );
            write_ranges(v, out);
            proof {
                vstd::seq_lib::lemma_concat_associative(base, acc, ranges_text);
                acc = acc + ranges_text;
                assert(out@ == base + acc);
            }
            out.append("]");
            proof {
                vstd::seq_lib::lemma_concat_associative(base, acc, "]"@);
                acc = acc + "]"@;
                assert(out@ == base + acc);
                vstd::seq_lib::lemma_concat_associative(acc_value, ",\"RANGE\":["@, ranges_text);
                vstd::seq_lib::lemma_concat_associative(
                    acc_value,
                    ",\"RANGE\":["@ + ranges_text,
                    "]"@,
                );
                assert(acc == acc_value + (",\"RANGE\":["@ + ranges_text + "]"@));
            }
        },
        None => {
            proof {
                assert(acc + Seq::<char>::empty() =~= acc);
            }
        },
    }
    let ghost acc_range = acc;
    match &n.unit {
        Some(v) => {
            out.append(",\"UNIT\":[");
            proof {
                vstd::seq_lib::lemma_concat_associative(base, acc, ",\"UNIT\":["@);
                acc = acc + ",\"UNIT\":["@;
                assert(out@ == base + acc);
            }
            let ghost units_text = join_comma(
                v@.map_values(|u: OSCUnit| json_string(unit_str(u))),
            );
            write_units(v, out);
            proof {
                vstd::seq_lib::lemma_concat_associative(base, acc, units_text);
                acc = acc + units_text;
                assert(out@ == base + acc);
            }
            out.append("]");
            proof {
                vstd::seq_lib::lemma_concat_associative(base, acc, "]"@);
                acc = acc + "]"@;
                assert(out@ == base + acc);
                vstd::seq_lib::lemma_concat_associative(acc_range, ",\"UNIT\":["@, units_text);
                vstd::seq_lib::lemma_concat_associative(
                    acc_range,
                    ",\"UNIT\":["@ + units_text,
                    "]"@,
                );
                assert(acc == acc_range + (",\"UNIT\":["@ + units_text + "]"@));
            }
        },
        None => {
            proof {
                assert(acc + Seq::<char>::empty() =~= acc);
            }
        },
    }
    let ghost acc_unit = acc;
    match &n.host_info {
        Some(h) => {
            out.append(",\"HOST_INFO\":");
            proof {
                vstd::seq_lib::lemma_concat_associative(base, acc, ",\"HOST_INFO\":"@);
                acc = acc + ",\"HOST_INFO\":"@;
                assert(out@ == base + acc);
            }
            write_host(h, out);
            proof {
                vstd::seq_lib::lemma_concat_associative(base, acc, json_of_host(h@));
                acc = acc + json_of_host(h@);
                assert(out@ == base + acc);
                vstd::seq_lib::lemma_concat_associative(
                    acc_unit,
                    ",\"HOST_INFO\":"@,
                    json_of_host(h@),
                );
                assert(acc == acc_unit + (",\"HOST_INFO\":"@ + json_of_host(h@)));
            }
        },
        None => {
            proof {
                assert(acc + Seq::<char>::empty() =~= acc);
            }
        },
    }
    out.append("}");
    proof {
        vstd::seq_lib::lemma_concat_associative(base, acc, "}"@);
        acc = acc + "}"@;
        assert(out@ == base + acc);
        assert(acc == json_of_node(g));
    }
}

fn value_is_encodable(v: &OscValue) -> (r: bool)
    ensures
        r == value_encodable(v@),
{
    match v {
        OscValue::Int(_) => true,
        OscValue::Float(_) => true,
        OscValue::Str(_) => true,
        OscValue::Blob(_) => true,
        OscValue::Long(_) => true,
        OscValue::Double(_) => true,
        OscValue::Char(_) => true,
        OscValue::Bool(_) => true,
        _ => false,
    }
}

/// Whether every node of a children vector has an encodable subtree.
fn children_serializable(cs: &Vec<(String, OSCNode)>) -> (r: bool)
    ensures
        r == opt_children_encodable(Some(children_view(cs@))),
    decreases cs@,
{
    let ghost cv = children_view(cs@);
    proof {
        lemma_children_view(cs@);
    }
    let mut i: usize = 0;
    while i < cs.len()
        invariant
            i <= cs@.len(),
            cv == children_view(cs@),
            cv.len() == cs@.len(),
            forall|t: int| 0 <= t < cs@.len() ==> #[trigger] cv[t] == (cs@[t].0@, node_view(
                cs@[t].1,
            )),
            forall|t: int| 0 <= t < i ==> node_encodable((#[trigger] cv[t]).1),
        decreases cs@.len() - i,
    {
        proof {
            assert(decreases_to!(cs@ => cs@[i as int]));
            assert(decreases_to!(cs@[i as int] => cs@[i as int].1));
        }
        if !cs[i].1.serializable() {
            proof {
                assert(cv[i as int] == (cs@[i as int].0@, node_view(cs@[i as int].1)));
                assert(!node_encodable(cv[i as int].1));
                if opt_children_encodable(Some(cv)) {
                    assert(Some(cv)->Some_0 == cv);
                    assert(node_encodable((Some(cv)->Some_0[i as int]).1));
                }
            }
            return false;
        }
        proof {
            assert(cv[i as int] == (cs@[i as int].0@, node_view(cs@[i as int].1)));
        }
        i = i + 1;
    }
    true
}

/// Whether every value of a value vector has a JSON scalar form.
fn values_encodable_exec(vs: &Vec<OscValue>) -> (r: bool)
    ensures
        r == opt_values_encodable(Some(vals_view(vs@))),
{
    let mut i: usize = 0;
    while i < vs.len()
        invariant
            i <= vs@.len(),
            forall|t: int| 0 <= t < i ==> value_encodable(#[trigger] vals_view(vs@)[t]),
        decreases vs@.len() - i,
    {
        if !value_is_encodable(&vs[i]) {
            proof {
                assert(vals_view(vs@)[i as int] == vs@[i as int]@);
                if opt_values_encodable(Some(vals_view(vs@))) {
                    assert(Some(vals_view(vs@))->Some_0 == vals_view(vs@));
                    assert(value_encodable(Some(vals_view(vs@))->Some_0[i as int]));
                }
            }
            return false;
        }
        proof {
            assert(vals_view(vs@)[i as int] == vs@[i as int]@);
        }
        i = i + 1;
    }
    true
}

impl OSCNode {
    /// Whether every value in this subtree has a JSON scalar form, so that
    /// serialization accepts the tree.
    pub fn serializable(&self) -> (r: bool)
        ensures
            r == node_encodable(self@),
        decreases *self,
    {
        let ghost g = node_view(*self);
        let vals_ok: bool = match &self.value {
            Some(vs) => values_encodable_exec(vs),
            None => true,
        };
        proof {
            assert(vals_ok == opt_values_encodable(g.values));
        }
        let kids_ok: bool = match &self.contents {
            Some(cs) => children_serializable(cs),
            None => true,
        };
        proof {
            assert(kids_ok == opt_children_encodable(g.contents));
        }
        vals_ok && kids_ok
    }

    /// The serialized form of this node and everything under it: the JSON
    /// text the protocol answers with.
    pub fn to_json(&self) -> (r: String)
        requires
            node_encodable(self@),
        ensures
            r@ == json_of_node(self@),
    {
        let mut out = String::new();
        write_node(self, &mut out);
        proof {
            assert(Seq::<char>::empty() + json_of_node(node_view(*self)) =~= json_of_node(
                node_view(*self),
            ));
        }
        out
    }
}

/// Appends the `HOST_INFO` object.
pub(crate) fn write_host(h: &crate::hostinfo::OscHostInfo, out: &mut String)
    ensures
        final(out)@ =~= old(out)@ + json_of_host(h@),
{
    out.append("{\"NAME\":");
    write_json_string(h.name.as_str(), out);
    out.append(",\"OSC_IP\":");
    write_json_string(h.osc_ip.as_str(), out);
    out.append(",\"OSC_PORT\":");
    write_dec_u64(h.osc_port as u64, out);
    out.append(",\"OSC_TRANSPORT\":");
    write_json_string(h.osc_trans.as_str(), out);
    out.append(",\"EXTENSIONS\":");
    write_ext(&h.extension, out);
    out.append("}");
    proof {
        assert(final(out)@ =~= old(out)@ + json_of_host(h@));
    }
}

} // verus!


