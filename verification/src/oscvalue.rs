use vstd::prelude::*;

use crate::error::OscQueryError;
use crate::text::{parse_dec_i64, push_char, text_as_int};

verus! {

/// One typed value carried by a parameter, a closed set of kinds with one
/// arm per supported type tag.
///
/// The tree only stores values and re-emits them in serialized form, so a
/// floating-point payload is carried as its decimal text, exactly as it will
/// stand in the output; callers that start from a machine float render it
/// before handing it in.
#[derive(Debug, Clone, PartialEq)]
pub enum OscValue {
    /// 32-bit integer, tag `i`.
    Int(i32),
    /// 32-bit float, tag `f`, held as its decimal text.
    Float(String),
    /// String, tag `s`.
    Str(String),
    /// Byte blob, tag `b`.
    Blob(Vec<u8>),
    /// Timetag, tag `t`: seconds since 1900 and fractional seconds.
    Time(u32, u32),
    /// 64-bit integer, tag `l`.
    Long(i64),
    /// 64-bit float, tag `d`, held as its decimal text.
    Double(String),
    /// One character, tag `c`.
    Char(char),
    /// RGBA color, tag `r`.
    Color(u8, u8, u8, u8),
    /// MIDI message: port, status, and two data bytes, tag `m`.
    Midi(u8, u8, u8, u8),
    /// Boolean, tag `T`.
    Bool(bool),
    /// No value, tag `N`.
    Nil,
    /// Infinitum, tag `I`.
    Inf,
}

/// The mathematical shape of an `OscValue`: texts and blobs as sequences.
pub ghost enum GValue {
    Int(i32),
    Float(Seq<char>),
    Str(Seq<char>),
    Blob(Seq<u8>),
    Time(u32, u32),
    Long(i64),
    Double(Seq<char>),
    Char(char),
    Color(u8, u8, u8, u8),
    Midi(u8, u8, u8, u8),
    Bool(bool),
    Nil,
    Inf,
}

impl View for OscValue {
    type V = GValue;

    open spec fn view(&self) -> GValue {
        match self {
            OscValue::Int(i) => GValue::Int(*i),
            OscValue::Float(t) => GValue::Float(t@),
            OscValue::Str(s) => GValue::Str(s@),
            OscValue::Blob(b) => GValue::Blob(b@),
            OscValue::Time(s, f) => GValue::Time(*s, *f),
            OscValue::Long(l) => GValue::Long(*l),
            OscValue::Double(t) => GValue::Double(t@),
            OscValue::Char(c) => GValue::Char(*c),
            OscValue::Color(r, g, b, a) => GValue::Color(*r, *g, *b, *a),
            OscValue::Midi(p, s, d1, d2) => GValue::Midi(*p, *s, *d1, *d2),
            OscValue::Bool(b) => GValue::Bool(*b),
            OscValue::Nil => GValue::Nil,
            OscValue::Inf => GValue::Inf,
        }
    }
}

/// The views of a sequence of values.
pub open spec fn vals_view(s: Seq<OscValue>) -> Seq<GValue> {
    s.map_values(|v: OscValue| v@)
}

/// The single-character tag of a value's kind.
pub open spec fn tag_of(v: GValue) -> char {
    match v {
        GValue::Int(_) => 'i',
        GValue::Float(_) => 'f',
        GValue::Str(_) => 's',
        GValue::Blob(_) => 'b',
        GValue::Time(_, _) => 't',
        GValue::Long(_) => 'l',
        GValue::Double(_) => 'd',
        GValue::Char(_) => 'c',
        GValue::Color(_, _, _, _) => 'r',
        GValue::Midi(_, _, _, _) => 'm',
        GValue::Bool(_) => 'T',
        GValue::Nil => 'N',
        GValue::Inf => 'I',
    }
}

/// Whether a character is one of the thirteen supported type tags.
pub open spec fn valid_tag(c: char) -> bool {
    c == 'i' || c == 'f' || c == 's' || c == 'b' || c == 't' || c == 'l' || c == 'd' || c == 'c'
        || c == 'r' || c == 'm' || c == 'T' || c == 'N' || c == 'I'
}

/// The zero-valued placeholder a tag decodes to. Decoding a tag string
/// recovers the type structure only, not the original values.
pub open spec fn placeholder_of(c: char) -> GValue {
    if c == 'i' {
        GValue::Int(0)
    } else if c == 'f' {
        GValue::Float("0.0"@)
    } else if c == 's' {
        GValue::Str(Seq::empty())
    } else if c == 'b' {
        GValue::Blob(Seq::empty())
    } else if c == 't' {
        GValue::Time(2208988800u32, 0)
    } else if c == 'l' {
        GValue::Long(0)
    } else if c == 'd' {
        GValue::Double("0.0"@)
    } else if c == 'c' {
        GValue::Char(' ')
    } else if c == 'r' {
        GValue::Color(0, 0, 0, 0)
    } else if c == 'm' {
        GValue::Midi(0, 0, 0, 0)
    } else if c == 'T' {
        GValue::Bool(true)
    } else if c == 'I' {
        GValue::Inf
    } else {
        GValue::Nil
    }
}

/// The tag string of a sequence of values: one character per value, in order.
pub open spec fn tag_string(vs: Seq<GValue>) -> Seq<char> {
    vs.map_values(|v: GValue| tag_of(v))
}

impl OscValue {
    /// The tag character of this value's kind.
    pub fn tag(&self) -> (c: char)
        ensures
            c == tag_of(self@),
    {
        match self {
            OscValue::Int(_) => 'i',
            OscValue::Float(_) => 'f',
            OscValue::Str(_) => 's',
            OscValue::Blob(_) => 'b',
            OscValue::Time(_, _) => 't',
            OscValue::Long(_) => 'l',
            OscValue::Double(_) => 'd',
            OscValue::Char(_) => 'c',
            OscValue::Color(_, _, _, _) => 'r',
            OscValue::Midi(_, _, _, _) => 'm',
            OscValue::Bool(_) => 'T',
            OscValue::Nil => 'N',
            OscValue::Inf => 'I',
        }
    }

    /// A copy of this value with the same view.
    pub fn duplicate(&self) -> (r: OscValue)
        ensures
            r@ == self@,
    {
        match self {
            OscValue::Int(i) => OscValue::Int(*i),
            OscValue::Float(t) => OscValue::Float(t.clone()),
            OscValue::Str(s) => OscValue::Str(s.clone()),
            OscValue::Blob(b) => OscValue::Blob(clone_bytes(b)),
            OscValue::Time(s, f) => OscValue::Time(*s, *f),
            OscValue::Long(l) => OscValue::Long(*l),
            OscValue::Double(t) => OscValue::Double(t.clone()),
            OscValue::Char(c) => OscValue::Char(*c),
            OscValue::Color(r, g, b, a) => OscValue::Color(*r, *g, *b, *a),
            OscValue::Midi(p, s, d1, d2) => OscValue::Midi(*p, *s, *d1, *d2),
            OscValue::Bool(b) => OscValue::Bool(*b),
            OscValue::Nil => OscValue::Nil,
            OscValue::Inf => OscValue::Inf,
        }
    }
}

fn clone_bytes(b: &Vec<u8>) -> (r: Vec<u8>)
    ensures
        r@ == b@,
{
    let mut out: Vec<u8> = Vec::new();
    let mut i: usize = 0;
    while i < b.len()
        invariant
            i <= b@.len(),
            out@ == b@.take(i as int),
        decreases b@.len() - i,
    {
        out.push(b[i]);
        proof {
            assert(b@.take(i + 1) =~= b@.take(i as int).push(b@[i as int]));
        }
        i = i + 1;
    }
    proof {
        assert(b@.take(b@.len() as int) =~= b@);
    }
    out
}

/// The tag string of a sequence of values, e.g. `"ff"` for two floats.
pub fn type_string(values: &Vec<OscValue>) -> (r: String)
    ensures
        r@ == tag_string(vals_view(values@)),
{
    let mut out = String::new();
    let mut i: usize = 0;
    while i < values.len()
        invariant
            i <= values@.len(),
            out@ == tag_string(vals_view(values@.take(i as int))),
        decreases values@.len() - i,
    {
        push_char(&mut out, values[i].tag());
        proof {
            assert(vals_view(values@.take(i + 1)) =~= vals_view(values@.take(i as int)).push(
                values@[i as int]@,
            ));
            assert(tag_string(vals_view(values@.take(i + 1))) =~= tag_string(
                vals_view(values@.take(i as int)),
            ).push(tag_of(values@[i as int]@)));
        }
        i = i + 1;
    }
    proof {
        assert(values@.take(values@.len() as int) =~= values@);
    }
    out
}

/// Decodes a tag string into the sequence of zero-valued placeholders it
/// describes. An empty string is an error of its own, telling a present but
/// empty field apart from an absent one; the first character outside the tag
/// alphabet fails the decode and is named in the error.
pub fn decode_type_string(s: &str) -> (r: Result<Vec<OscValue>, OscQueryError>)
    ensures
        match r {
            Ok(vs) => {
                &&& s@.len() > 0
                &&& forall|j: int| 0 <= j < s@.len() ==> valid_tag(#[trigger] s@[j])
                &&& vals_view(vs@) == s@.map_values(|c: char| placeholder_of(c))
            },
            Err(e) => {
                ||| (e == OscQueryError::InvalidEmptyTypeString && s@.len() == 0)
                ||| (exists|i: int|
                    0 <= i < s@.len() && !valid_tag(#[trigger] s@[i]) && (forall|j: int|
                        0 <= j < i ==> valid_tag(#[trigger] s@[j])) && e
                        == OscQueryError::UnknownTag(s@[i]))
            },
        },
{
    let len = s.unicode_len();
    if len == 0 {
        return Err(OscQueryError::InvalidEmptyTypeString);
    }
    let mut out: Vec<OscValue> = Vec::new();
    let mut i: usize = 0;
    while i < len
        invariant
            i <= len,
            len == s@.len(),
            forall|j: int| 0 <= j < i ==> valid_tag(#[trigger] s@[j]),
            vals_view(out@) == s@.take(i as int).map_values(|c: char| placeholder_of(c)),
        decreases len - i,
    {
        let c = s.get_char(i);
        let v = match c {
            'i' => OscValue::Int(0),
            'f' => OscValue::Float(String::from_str("0.0")),
            's' => OscValue::Str(String::new()),
            'b' => OscValue::Blob(Vec::new()),
            't' => OscValue::Time(2208988800u32, 0),
            'l' => OscValue::Long(0),
            'd' => OscValue::Double(String::from_str("0.0")),
            'c' => OscValue::Char(' '),
            'r' => OscValue::Color(0, 0, 0, 0),
            'm' => OscValue::Midi(0, 0, 0, 0),
            'T' => OscValue::Bool(true),
            'N' => OscValue::Nil,
            'I' => OscValue::Inf,
            _ => {
                return Err(OscQueryError::UnknownTag(c));
            },
        };
        assert(v@ == placeholder_of(c));
        out.push(v);
        proof {
            assert(vals_view(out@) =~= s@.take(i + 1).map_values(|ch: char| placeholder_of(ch)))
                by {
                assert(s@.take(i + 1) =~= s@.take(i as int).push(s@[i as int]));
                assert(s@.take(i + 1).map_values(|ch: char| placeholder_of(ch)) =~= s@.take(
                    i as int,
                ).map_values(|ch: char| placeholder_of(ch)).push(placeholder_of(s@[i as int])));
            }
        }
        i = i + 1;
    }
    proof {
        assert(s@.take(len as int) =~= s@);
    }
    Ok(out)
}

/// Round trip over the tag alphabet: the placeholder a supported tag decodes
/// to is of the matching kind, so encoding it gives the tag back.
pub proof fn lemma_tag_round_trip(c: char)
    requires
        valid_tag(c),
    ensures
        tag_of(placeholder_of(c)) == c,
{
}

} // verus!

verus! {

/// One raw scalar out of a serialized `VALUE` array, as the transport hands
/// it over: a number as its decimal text, a string's text, a byte array, or
/// a boolean. Which value kind it stands for is not written in it — that is
/// exactly why decoding a `VALUE` array needs the `TYPE` sequence first.
#[derive(Debug, Clone, PartialEq)]
pub enum OscScalar {
    Number(String),
    Text(String),
    Bytes(Vec<u8>),
    Truth(bool),
}

/// The mathematical shape of a raw scalar.
pub ghost enum GScalar {
    Number(Seq<char>),
    Text(Seq<char>),
    Bytes(Seq<u8>),
    Truth(bool),
}

impl View for OscScalar {
    type V = GScalar;

    open spec fn view(&self) -> GScalar {
        match self {
            OscScalar::Number(t) => GScalar::Number(t@),
            OscScalar::Text(t) => GScalar::Text(t@),
            OscScalar::Bytes(b) => GScalar::Bytes(b@),
            OscScalar::Truth(b) => GScalar::Truth(*b),
        }
    }
}

/// The views of a sequence of scalars.
pub open spec fn scalars_view(s: Seq<OscScalar>) -> Seq<GScalar> {
    s.map_values(|x: OscScalar| x@)
}

/// The value one scalar decodes to against one kind, if the shapes fit.
/// Integer kinds ask the number text to spell a canonical integer of the
/// kind's range; the float kinds keep the text as the payload; a character
/// is a one-character text; a kind without a scalar form fits nothing.
pub open spec fn value_of_scalar(kind: GValue, s: GScalar) -> Option<GValue> {
    match (kind, s) {
        (GValue::Int(_), GScalar::Number(t)) => match text_as_int(t) {
            Some(v) => if i32::MIN <= v <= i32::MAX {
                Some(GValue::Int(v as i32))
            } else {
                None
            },
            None => None,
        },
        (GValue::Float(_), GScalar::Number(t)) => Some(GValue::Float(t)),
        (GValue::Str(_), GScalar::Text(t)) => Some(GValue::Str(t)),
        (GValue::Blob(_), GScalar::Bytes(b)) => Some(GValue::Blob(b)),
        (GValue::Long(_), GScalar::Number(t)) => match text_as_int(t) {
            Some(v) => if i64::MIN <= v <= i64::MAX {
                Some(GValue::Long(v as i64))
            } else {
                None
            },
            None => None,
        },
        (GValue::Double(_), GScalar::Number(t)) => Some(GValue::Double(t)),
        (GValue::Char(_), GScalar::Text(t)) => if t.len() == 1 {
            Some(GValue::Char(t[0]))
        } else {
            None
        },
        (GValue::Bool(_), GScalar::Truth(b)) => Some(GValue::Bool(b)),
        _ => None,
    }
}

/// Decodes a `VALUE` array positionally against the kinds its `TYPE` string
/// decoded to: the scalar at each position takes the kind at that position.
/// The scalars alone are not self-describing — a number cannot tell the
/// integer kinds from the float kinds — so this direction exists only as
/// this pairing. Nothing decodes when the counts differ or some scalar does
/// not fit its kind.
pub fn decode_values(kinds: &Vec<OscValue>, scalars: Vec<OscScalar>) -> (r: Option<
    Vec<OscValue>,
>)
    ensures
        match r {
            Some(vs) => {
                &&& scalars@.len() == kinds@.len()
                &&& vs@.len() == kinds@.len()
                &&& forall|j: int|
                    0 <= j < vs@.len() ==> Some(#[trigger] vals_view(vs@)[j]) == value_of_scalar(
                        vals_view(kinds@)[j],
                        scalars_view(scalars@)[j],
                    )
            },
            None => {
                ||| scalars@.len() != kinds@.len()
                ||| exists|j: int|
                    0 <= j < kinds@.len() && value_of_scalar(
                        vals_view(kinds@)[j],
                        #[trigger] scalars_view(scalars@)[j],
                    ) is None
            },
        },
{
    if kinds.len() != scalars.len() {
        return None;
    }
    let mut out: Vec<OscValue> = Vec::new();
    let mut i: usize = 0;
    while i < kinds.len()
        invariant
            i <= kinds@.len(),
            kinds@.len() == scalars@.len(),
            out@.len() == i,
            forall|j: int|
                0 <= j < i ==> Some(#[trigger] vals_view(out@)[j]) == value_of_scalar(
                    vals_view(kinds@)[j],
                    scalars_view(scalars@)[j],
                ),
        decreases kinds@.len() - i,
    {
        proof {
            assert(vals_view(kinds@)[i as int] == kinds@[i as int]@);
            assert(scalars_view(scalars@)[i as int] == scalars@[i as int]@);
        }
        let decoded: Option<OscValue> = match (&kinds[i], &scalars[i]) {
            (OscValue::Int(_), OscScalar::Number(t)) => match parse_dec_i64(t.as_str()) {
                Some(v) => if -2147483648i64 <= v && v <= 2147483647i64 {
                    Some(OscValue::Int(v as i32))
                } else {
                    None
                },
                None => None,
            },
            (OscValue::Float(_), OscScalar::Number(t)) => Some(OscValue::Float(t.clone())),
            (OscValue::Str(_), OscScalar::Text(t)) => Some(OscValue::Str(t.clone())),
            (OscValue::Blob(_), OscScalar::Bytes(b)) => Some(OscValue::Blob(clone_bytes(b))),
            (OscValue::Long(_), OscScalar::Number(t)) => match parse_dec_i64(t.as_str()) {
                Some(v) => Some(OscValue::Long(v)),
                None => None,
            },
            (OscValue::Double(_), OscScalar::Number(t)) => Some(OscValue::Double(t.clone())),
            (OscValue::Char(_), OscScalar::Text(t)) => if t.as_str().unicode_len() == 1 {
                Some(OscValue::Char(t.as_str().get_char(0)))
            } else {
                None
            },
            (OscValue::Bool(_), OscScalar::Truth(b)) => Some(OscValue::Bool(*b)),
            _ => None,
        };
        match decoded {
            Some(v) => {
                proof {
                    assert(Some(v@) == value_of_scalar(kinds@[i as int]@, scalars@[i as int]@));
                }
                let ghost pre = out@;
                out.push(v);
                proof {
                    assert forall|j: int|
                        0 <= j < i + 1 implies Some(#[trigger] vals_view(out@)[j])
                        == value_of_scalar(
                        vals_view(kinds@)[j],
                        scalars_view(scalars@)[j],
                    ) by {
                        assert(vals_view(out@)[j] == out@[j]@);
                        if j < i {
                            assert(out@[j] == pre[j]);
                            assert(vals_view(pre)[j] == pre[j]@);
                        } else {
                            assert(out@[j] == v);
                        }
                    }
                }
            },
            None => {
                proof {
                    assert(value_of_scalar(
                        vals_view(kinds@)[i as int],
                        scalars_view(scalars@)[i as int],
                    ) is None);
                }
                return None;
            },
        }
        i = i + 1;
    }
    Some(out)
}

} // verus!
