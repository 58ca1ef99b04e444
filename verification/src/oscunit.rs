use vstd::prelude::*;

use crate::error::OscQueryError;
use crate::text::{eq_str, find_char, first_occ, lemma_first_occ_found, push_char};

verus! {

/// Units for distance measurements.
#[derive(Debug, Clone, Copy, PartialEq, Eq, Structural)]
pub enum OSCDistance {
    Meter,
    Kilometer,
    Decimeter,
    Centimeter,
    Millimeter,
    Micrometer,
    Nanometer,
    Picometer,
    Inches,
    Feet,
    Miles,
    Pixels,
}

/// Units for angle measurements.
#[derive(Debug, Clone, Copy, PartialEq, Eq, Structural)]
pub enum OSCAngle {
    Degree,
    Radian,
}

/// Units for gain measurements.
#[derive(Debug, Clone, Copy, PartialEq, Eq, Structural)]
pub enum OSCGain {
    Linear,
    Midigain,
    Db,
    DbRaw,
}

/// Units for time and pitch measurements.
#[derive(Debug, Clone, Copy, PartialEq, Eq, Structural)]
pub enum OSCTime {
    Second,
    Bark,
    Bpm,
    Cents,
    Hz,
    Mel,
    Midinote,
    Millisecond,
    Speed,
    Samples,
}

/// Units for speed measurements.
#[derive(Debug, Clone, Copy, PartialEq, Eq, Structural)]
pub enum OSCSpeed {
    MetersPerSeconds,
    MilesPerHour,
    KilometersPerHour,
    Knots,
    FeetPerSecond,
    FeetPerHour,
    PixelsPerSecond,
}

/// A unit: one member of one of the five unit categories. Its canonical
/// string form is `<category>.<member>`, e.g. `distance.cm` or `speed.km/h`.
#[derive(Debug, Clone, Copy, PartialEq, Eq, Structural)]
pub enum OSCUnit {
    Distance(OSCDistance),
    Angle(OSCAngle),
    Gain(OSCGain),
    Time(OSCTime),
    Speed(OSCSpeed),
}

/// The fixed abbreviation of a distance member.
pub open spec fn distance_str(d: OSCDistance) -> Seq<char> {
    match d {
        OSCDistance::Meter => "m"@,
        OSCDistance::Kilometer => "km"@,
        OSCDistance::Decimeter => "dm"@,
        OSCDistance::Centimeter => "cm"@,
        OSCDistance::Millimeter => "mm"@,
        OSCDistance::Micrometer => "um"@,
        OSCDistance::Nanometer => "nm"@,
        OSCDistance::Picometer => "pm"@,
        OSCDistance::Inches => "inch"@,
        OSCDistance::Feet => "feet"@,
        OSCDistance::Miles => "mile"@,
        OSCDistance::Pixels => "pixels"@,
    }
}

/// The fixed abbreviation of an angle member.
pub open spec fn angle_str(a: OSCAngle) -> Seq<char> {
    match a {
        OSCAngle::Degree => "degree"@,
        OSCAngle::Radian => "radian"@,
    }
}

/// The fixed abbreviation of a gain member.
pub open spec fn gain_str(g: OSCGain) -> Seq<char> {
    match g {
        OSCGain::Linear => "linear"@,
        OSCGain::Midigain => "midigain"@,
        OSCGain::Db => "db"@,
        OSCGain::DbRaw => "db-raw"@,
    }
}

/// The fixed abbreviation of a time member.
pub open spec fn time_str(t: OSCTime) -> Seq<char> {
    match t {
        OSCTime::Second => "second"@,
        OSCTime::Bark => "bark"@,
        OSCTime::Bpm => "bpm"@,
        OSCTime::Cents => "cents"@,
        OSCTime::Hz => "hz"@,
        OSCTime::Mel => "mel"@,
        OSCTime::Midinote => "midinote"@,
        OSCTime::Millisecond => "ms"@,
        OSCTime::Speed => "speed"@,
        OSCTime::Samples => "samples"@,
    }
}

/// The fixed abbreviation of a speed member.
pub open spec fn speed_str(s: OSCSpeed) -> Seq<char> {
    match s {
        OSCSpeed::MetersPerSeconds => "m/s"@,
        OSCSpeed::MilesPerHour => "mph"@,
        OSCSpeed::KilometersPerHour => "km/h"@,
        OSCSpeed::Knots => "knots"@,
        OSCSpeed::FeetPerSecond => "ft/s"@,
        OSCSpeed::FeetPerHour => "ft/h"@,
        OSCSpeed::PixelsPerSecond => "pix/s"@,
    }
}

/// The category token of a unit.
pub open spec fn unit_cat_str(u: OSCUnit) -> Seq<char> {
    match u {
        OSCUnit::Distance(_) => "distance"@,
        OSCUnit::Angle(_) => "angle"@,
        OSCUnit::Gain(_) => "gain"@,
        OSCUnit::Time(_) => "time"@,
        OSCUnit::Speed(_) => "speed"@,
    }
}

/// The member token of a unit.
pub open spec fn unit_member_str(u: OSCUnit) -> Seq<char> {
    match u {
        OSCUnit::Distance(d) => distance_str(d),
        OSCUnit::Angle(a) => angle_str(a),
        OSCUnit::Gain(g) => gain_str(g),
        OSCUnit::Time(t) => time_str(t),
        OSCUnit::Speed(s) => speed_str(s),
    }
}

/// The canonical string form of a unit: `<category>.<member>`.
pub open spec fn unit_str(u: OSCUnit) -> Seq<char> {
    unit_cat_str(u) + seq!['.'] + unit_member_str(u)
}

/// The distance member a token decodes to, if any.
pub open spec fn distance_of_str(s: Seq<char>) -> Option<OSCDistance> {
    if s == "m"@ {
        Some(OSCDistance::Meter)
    } else if s == "km"@ {
        Some(OSCDistance::Kilometer)
    } else if s == "dm"@ {
        Some(OSCDistance::Decimeter)
    } else if s == "cm"@ {
        Some(OSCDistance::Centimeter)
    } else if s == "mm"@ {
        Some(OSCDistance::Millimeter)
    } else if s == "um"@ {
        Some(OSCDistance::Micrometer)
    } else if s == "nm"@ {
        Some(OSCDistance::Nanometer)
    } else if s == "pm"@ {
        Some(OSCDistance::Picometer)
    } else if s == "inch"@ {
        Some(OSCDistance::Inches)
    } else if s == "feet"@ {
        Some(OSCDistance::Feet)
    } else if s == "mile"@ {
        Some(OSCDistance::Miles)
    } else if s == "pixels"@ {
        Some(OSCDistance::Pixels)
    } else {
        None
    }
}

/// The angle member a token decodes to, if any.
pub open spec fn angle_of_str(s: Seq<char>) -> Option<OSCAngle> {
    if s == "degree"@ {
        Some(OSCAngle::Degree)
    } else if s == "radian"@ {
        Some(OSCAngle::Radian)
    } else {
        None
    }
}

/// The gain member a token decodes to, if any.
pub open spec fn gain_of_str(s: Seq<char>) -> Option<OSCGain> {
    if s == "linear"@ {
        Some(OSCGain::Linear)
    } else if s == "midigain"@ {
        Some(OSCGain::Midigain)
    } else if s == "db"@ {
        Some(OSCGain::Db)
    } else if s == "db-raw"@ {
        Some(OSCGain::DbRaw)
    } else {
        None
    }
}

/// The time member a token decodes to, if any.
pub open spec fn time_of_str(s: Seq<char>) -> Option<OSCTime> {
    if s == "second"@ {
        Some(OSCTime::Second)
    } else if s == "bark"@ {
        Some(OSCTime::Bark)
    } else if s == "bpm"@ {
        Some(OSCTime::Bpm)
    } else if s == "cents"@ {
        Some(OSCTime::Cents)
    } else if s == "hz"@ {
        Some(OSCTime::Hz)
    } else if s == "mel"@ {
        Some(OSCTime::Mel)
    } else if s == "midinote"@ {
        Some(OSCTime::Midinote)
    } else if s == "ms"@ {
        Some(OSCTime::Millisecond)
    } else if s == "speed"@ {
        Some(OSCTime::Speed)
    } else if s == "samples"@ {
        Some(OSCTime::Samples)
    } else {
        None
    }
}

/// The speed member a token decodes to, if any.
pub open spec fn speed_of_str(s: Seq<char>) -> Option<OSCSpeed> {
    if s == "m/s"@ {
        Some(OSCSpeed::MetersPerSeconds)
    } else if s == "mph"@ {
        Some(OSCSpeed::MilesPerHour)
    } else if s == "km/h"@ {
        Some(OSCSpeed::KilometersPerHour)
    } else if s == "knots"@ {
        Some(OSCSpeed::Knots)
    } else if s == "ft/s"@ {
        Some(OSCSpeed::FeetPerSecond)
    } else if s == "ft/h"@ {
        Some(OSCSpeed::FeetPerHour)
    } else if s == "pix/s"@ {
        Some(OSCSpeed::PixelsPerSecond)
    } else {
        None
    }
}

/// Whether a category token is one of the five known categories.
pub open spec fn unit_cat_known(cat: Seq<char>) -> bool {
    cat == "distance"@ || cat == "angle"@ || cat == "gain"@ || cat == "time"@ || cat == "speed"@
}

/// The unit a (category token, member token) pair decodes to, if any.
pub open spec fn unit_of_parts(cat: Seq<char>, mem: Seq<char>) -> Option<OSCUnit> {
    if cat == "distance"@ {
        match distance_of_str(mem) {
            Some(d) => Some(OSCUnit::Distance(d)),
            None => None,
        }
    } else if cat == "angle"@ {
        match angle_of_str(mem) {
            Some(a) => Some(OSCUnit::Angle(a)),
            None => None,
        }
    } else if cat == "gain"@ {
        match gain_of_str(mem) {
            Some(g) => Some(OSCUnit::Gain(g)),
            None => None,
        }
    } else if cat == "time"@ {
        match time_of_str(mem) {
            Some(t) => Some(OSCUnit::Time(t)),
            None => None,
        }
    } else if cat == "speed"@ {
        match speed_of_str(mem) {
            Some(s) => Some(OSCUnit::Speed(s)),
            None => None,
        }
    } else {
        None
    }
}

/// The part of `s` before its first `.`; all of `s` when it has none.
pub open spec fn dot_prefix(s: Seq<char>) -> Seq<char> {
    if first_occ(s, '.') < 0 {
        s
    } else {
        s.take(first_occ(s, '.'))
    }
}

/// The part of `s` after its first `.`; empty when it has none.
pub open spec fn dot_suffix(s: Seq<char>) -> Seq<char> {
    if first_occ(s, '.') < 0 {
        Seq::empty()
    } else {
        s.skip(first_occ(s, '.') + 1)
    }
}

/// The unit a whole string decodes to: split at the first `.`, then match
/// category and member.
pub open spec fn unit_decode(s: Seq<char>) -> Option<OSCUnit> {
    unit_of_parts(dot_prefix(s), dot_suffix(s))
}

impl OSCDistance {
    /// The fixed abbreviation of this member.
    pub fn token(&self) -> (r: &'static str)
        ensures
            r@ == distance_str(*self),
    {
        match self {
            OSCDistance::Meter => "m",
            OSCDistance::Kilometer => "km",
            OSCDistance::Decimeter => "dm",
            OSCDistance::Centimeter => "cm",
            OSCDistance::Millimeter => "mm",
            OSCDistance::Micrometer => "um",
            OSCDistance::Nanometer => "nm",
            OSCDistance::Picometer => "pm",
            OSCDistance::Inches => "inch",
            OSCDistance::Feet => "feet",
            OSCDistance::Miles => "mile",
            OSCDistance::Pixels => "pixels",
        }
    }
}

impl OSCAngle {
    /// The fixed abbreviation of this member.
    pub fn token(&self) -> (r: &'static str)
        ensures
            r@ == angle_str(*self),
    {
        match self {
            OSCAngle::Degree => "degree",
            OSCAngle::Radian => "radian",
        }
    }
}

impl OSCGain {
    /// The fixed abbreviation of this member.
    pub fn token(&self) -> (r: &'static str)
        ensures
            r@ == gain_str(*self),
    {
        match self {
            OSCGain::Linear => "linear",
            OSCGain::Midigain => "midigain",
            OSCGain::Db => "db",
            OSCGain::DbRaw => "db-raw",
        }
    }
}

impl OSCTime {
    /// The fixed abbreviation of this member.
    pub fn token(&self) -> (r: &'static str)
        ensures
            r@ == time_str(*self),
    {
        match self {
            OSCTime::Second => "second",
            OSCTime::Bark => "bark",
            OSCTime::Bpm => "bpm",
            OSCTime::Cents => "cents",
            OSCTime::Hz => "hz",
            OSCTime::Mel => "mel",
            OSCTime::Midinote => "midinote",
            OSCTime::Millisecond => "ms",
            OSCTime::Speed => "speed",
            OSCTime::Samples => "samples",
        }
    }
}

impl OSCSpeed {
    /// The fixed abbreviation of this member.
    pub fn token(&self) -> (r: &'static str)
        ensures
            r@ == speed_str(*self),
    {
        match self {
            OSCSpeed::MetersPerSeconds => "m/s",
            OSCSpeed::MilesPerHour => "mph",
            OSCSpeed::KilometersPerHour => "km/h",
            OSCSpeed::Knots => "knots",
            OSCSpeed::FeetPerSecond => "ft/s",
            OSCSpeed::FeetPerHour => "ft/h",
            OSCSpeed::PixelsPerSecond => "pix/s",
        }
    }
}

impl OSCUnit {
    fn category_token(&self) -> (r: &'static str)
        ensures
            r@ == unit_cat_str(*self),
    {
        match self {
            OSCUnit::Distance(_) => "distance",
            OSCUnit::Angle(_) => "angle",
            OSCUnit::Gain(_) => "gain",
            OSCUnit::Time(_) => "time",
            OSCUnit::Speed(_) => "speed",
        }
    }

    fn member_token(&self) -> (r: &'static str)
        ensures
            r@ == unit_member_str(*self),
    {
        match self {
            OSCUnit::Distance(d) => d.token(),
            OSCUnit::Angle(a) => a.token(),
            OSCUnit::Gain(g) => g.token(),
            OSCUnit::Time(t) => t.token(),
            OSCUnit::Speed(s) => s.token(),
        }
    }

    /// The canonical string form of this unit, `<category>.<member>`.
    pub fn encode(&self) -> (r: String)
        ensures
            r@ == unit_str(*self),
    {
        let mut s = String::from_str(self.category_token());
        push_char(&mut s, '.');
        s.append(self.member_token());
        proof {
            assert(s@ =~= unit_str(*self));
        }
        s
    }

    /// Decodes `<category>.<member>`. Fails with the category token when the
    /// category is unknown, and with the member token when the category is
    /// known but the member is not.
    pub fn decode(s: &str) -> (r: Result<OSCUnit, OscQueryError>)
        ensures
            match r {
                Ok(u) => unit_decode(s@) == Some(u),
                Err(e) => {
                    &&& unit_decode(s@) is None
                    &&& e matches OscQueryError::UnknownUnitVariant(t)
                    &&& t@ == if unit_cat_known(dot_prefix(s@)) {
                        dot_suffix(s@)
                    } else {
                        dot_prefix(s@)
                    }
                },
            },
    {
        let len = s.unicode_len();
        let pre: &str;
        let suf: &str;
        match find_char(s, '.') {
            Some(d) => {
                proof {
                    crate::text::lemma_first_occ_bounds(s@, '.');
                }
                pre = s.substring_char(0, d);
                suf = s.substring_char(d + 1, len);
            },
            None => {
                pre = s.substring_char(0, len);
                suf = s.substring_char(len, len);
            },
        }
        proof {
            assert(s@.subrange(0, s@.len() as int) =~= s@);
            assert(pre@ == dot_prefix(s@));
            assert(suf@ =~= dot_suffix(s@));
        }
        if eq_str(pre, "distance") {
            match decode_distance(suf) {
                Some(d) => Ok(OSCUnit::Distance(d)),
                None => Err(OscQueryError::UnknownUnitVariant(suf.to_owned())),
            }
        } else if eq_str(pre, "angle") {
            match decode_angle(suf) {
                Some(a) => Ok(OSCUnit::Angle(a)),
                None => Err(OscQueryError::UnknownUnitVariant(suf.to_owned())),
            }
        } else if eq_str(pre, "gain") {
            match decode_gain(suf) {
                Some(g) => Ok(OSCUnit::Gain(g)),
                None => Err(OscQueryError::UnknownUnitVariant(suf.to_owned())),
            }
        } else if eq_str(pre, "time") {
            match decode_time(suf) {
                Some(t) => Ok(OSCUnit::Time(t)),
                None => Err(OscQueryError::UnknownUnitVariant(suf.to_owned())),
            }
        } else if eq_str(pre, "speed") {
            match decode_speed(suf) {
                Some(sp) => Ok(OSCUnit::Speed(sp)),
                None => Err(OscQueryError::UnknownUnitVariant(suf.to_owned())),
            }
        } else {
            Err(OscQueryError::UnknownUnitVariant(pre.to_owned()))
        }
    }
}

fn decode_distance(mem: &str) -> (r: Option<OSCDistance>)
    ensures
        r == distance_of_str(mem@),
{
    if eq_str(mem, "m") {
        Some(OSCDistance::Meter)
    } else if eq_str(mem, "km") {
        Some(OSCDistance::Kilometer)
    } else if eq_str(mem, "dm") {
        Some(OSCDistance::Decimeter)
    } else if eq_str(mem, "cm") {
        Some(OSCDistance::Centimeter)
    } else if eq_str(mem, "mm") {
        Some(OSCDistance::Millimeter)
    } else if eq_str(mem, "um") {
        Some(OSCDistance::Micrometer)
    } else if eq_str(mem, "nm") {
        Some(OSCDistance::Nanometer)
    } else if eq_str(mem, "pm") {
        Some(OSCDistance::Picometer)
    } else if eq_str(mem, "inch") {
        Some(OSCDistance::Inches)
    } else if eq_str(mem, "feet") {
        Some(OSCDistance::Feet)
    } else if eq_str(mem, "mile") {
        Some(OSCDistance::Miles)
    } else if eq_str(mem, "pixels") {
        Some(OSCDistance::Pixels)
    } else {
        None
    }
}

fn decode_angle(mem: &str) -> (r: Option<OSCAngle>)
    ensures
        r == angle_of_str(mem@),
{
    if eq_str(mem, "degree") {
        Some(OSCAngle::Degree)
    } else if eq_str(mem, "radian") {
        Some(OSCAngle::Radian)
    } else {
        None
    }
}

fn decode_gain(mem: &str) -> (r: Option<OSCGain>)
    ensures
        r == gain_of_str(mem@),
{
    if eq_str(mem, "linear") {
        Some(OSCGain::Linear)
    } else if eq_str(mem, "midigain") {
        Some(OSCGain::Midigain)
    } else if eq_str(mem, "db") {
        Some(OSCGain::Db)
    } else if eq_str(mem, "db-raw") {
        Some(OSCGain::DbRaw)
    } else {
        None
    }
}

fn decode_time(mem: &str) -> (r: Option<OSCTime>)
    ensures
        r == time_of_str(mem@),
{
    if eq_str(mem, "second") {
        Some(OSCTime::Second)
    } else if eq_str(mem, "bark") {
        Some(OSCTime::Bark)
    } else if eq_str(mem, "bpm") {
        Some(OSCTime::Bpm)
    } else if eq_str(mem, "cents") {
        Some(OSCTime::Cents)
    } else if eq_str(mem, "hz") {
        Some(OSCTime::Hz)
    } else if eq_str(mem, "mel") {
        Some(OSCTime::Mel)
    } else if eq_str(mem, "midinote") {
        Some(OSCTime::Midinote)
    } else if eq_str(mem, "ms") {
        Some(OSCTime::Millisecond)
    } else if eq_str(mem, "speed") {
        Some(OSCTime::Speed)
    } else if eq_str(mem, "samples") {
        Some(OSCTime::Samples)
    } else {
        None
    }
}

fn decode_speed(mem: &str) -> (r: Option<OSCSpeed>)
    ensures
        r == speed_of_str(mem@),
{
    if eq_str(mem, "m/s") {
        Some(OSCSpeed::MetersPerSeconds)
    } else if eq_str(mem, "mph") {
        Some(OSCSpeed::MilesPerHour)
    } else if eq_str(mem, "km/h") {
        Some(OSCSpeed::KilometersPerHour)
    } else if eq_str(mem, "knots") {
        Some(OSCSpeed::Knots)
    } else if eq_str(mem, "ft/s") {
        Some(OSCSpeed::FeetPerSecond)
    } else if eq_str(mem, "ft/h") {
        Some(OSCSpeed::FeetPerHour)
    } else if eq_str(mem, "pix/s") {
        Some(OSCSpeed::PixelsPerSecond)
    } else {
        None
    }
}

/// Splitting `cat + '.' + mem` at its first dot gives `cat` and `mem` back,
/// provided neither part holds a dot of its own.
proof fn lemma_dot_split_around(cat: Seq<char>, mem: Seq<char>)
    requires
        forall|j: int| 0 <= j < cat.len() ==> cat[j] != '.',
        forall|j: int| 0 <= j < mem.len() ==> mem[j] != '.',
    ensures
        dot_prefix(cat + seq!['.'] + mem) == cat,
        dot_suffix(cat + seq!['.'] + mem) == mem,
{
    let s = cat + seq!['.'] + mem;
    assert(s[cat.len() as int] == '.');
    assert forall|j: int| 0 <= j < cat.len() implies s[j] != '.' by {
        assert(s[j] == cat[j]);
    }
    lemma_first_occ_found(s, '.', 0, cat.len() as int);
    assert(s.skip(0) =~= s);
    assert(first_occ(s, '.') == cat.len());
    assert(s.take(cat.len() as int) =~= cat);
    assert(s.skip(cat.len() as int + 1) =~= mem);
}

/// No member token holds a dot, and each decodes back to its member.
proof fn lemma_distance_tokens(d: OSCDistance)
    ensures
        forall|j: int| 0 <= j < distance_str(d).len() ==> distance_str(d)[j] != '.',
        distance_of_str(distance_str(d)) == Some(d),
{
    reveal_strlit("m");
    reveal_strlit("km");
    reveal_strlit("dm");
    reveal_strlit("cm");
    reveal_strlit("mm");
    reveal_strlit("um");
    reveal_strlit("nm");
    reveal_strlit("pm");
    reveal_strlit("inch");
    reveal_strlit("feet");
    reveal_strlit("mile");
    reveal_strlit("pixels");
    assert("m"@ =~= seq!['m']);
    assert("km"@ =~= seq!['k', 'm']);
    assert("dm"@ =~= seq!['d', 'm']);
    assert("cm"@ =~= seq!['c', 'm']);
    assert("mm"@ =~= seq!['m', 'm']);
    assert("um"@ =~= seq!['u', 'm']);
    assert("nm"@ =~= seq!['n', 'm']);
    assert("pm"@ =~= seq!['p', 'm']);
    assert("inch"@ =~= seq!['i', 'n', 'c', 'h']);
    assert("feet"@ =~= seq!['f', 'e', 'e', 't']);
    assert("mile"@ =~= seq!['m', 'i', 'l', 'e']);
    assert("pixels"@ =~= seq!['p', 'i', 'x', 'e', 'l', 's']);
    match d {
        OSCDistance::Meter => assert(distance_of_str(distance_str(d)) == Some(d)),
        OSCDistance::Kilometer => assert(distance_of_str(distance_str(d)) == Some(d)),
        OSCDistance::Decimeter => assert(distance_of_str(distance_str(d)) == Some(d)),
        OSCDistance::Centimeter => assert(distance_of_str(distance_str(d)) == Some(d)),
        OSCDistance::Millimeter => assert(distance_of_str(distance_str(d)) == Some(d)),
        OSCDistance::Micrometer => assert(distance_of_str(distance_str(d)) == Some(d)),
        OSCDistance::Nanometer => assert(distance_of_str(distance_str(d)) == Some(d)),
        OSCDistance::Picometer => assert(distance_of_str(distance_str(d)) == Some(d)),
        OSCDistance::Inches => assert(distance_of_str(distance_str(d)) == Some(d)),
        OSCDistance::Feet => assert(distance_of_str(distance_str(d)) == Some(d)),
        OSCDistance::Miles => assert(distance_of_str(distance_str(d)) == Some(d)),
        OSCDistance::Pixels => assert(distance_of_str(distance_str(d)) == Some(d)),
    }
}

proof fn lemma_angle_tokens(a: OSCAngle)
    ensures
        forall|j: int| 0 <= j < angle_str(a).len() ==> angle_str(a)[j] != '.',
        angle_of_str(angle_str(a)) == Some(a),
{
    reveal_strlit("degree");
    reveal_strlit("radian");
    assert("degree"@ =~= seq!['d', 'e', 'g', 'r', 'e', 'e']);
    assert("radian"@ =~= seq!['r', 'a', 'd', 'i', 'a', 'n']);
    match a {
        OSCAngle::Degree => assert(angle_of_str(angle_str(a)) == Some(a)),
        OSCAngle::Radian => assert(angle_of_str(angle_str(a)) == Some(a)),
    }
}

proof fn lemma_gain_tokens(g: OSCGain)
    ensures
        forall|j: int| 0 <= j < gain_str(g).len() ==> gain_str(g)[j] != '.',
        gain_of_str(gain_str(g)) == Some(g),
{
    reveal_strlit("linear");
    reveal_strlit("midigain");
    reveal_strlit("db");
    reveal_strlit("db-raw");
    assert("linear"@ =~= seq!['l', 'i', 'n', 'e', 'a', 'r']);
    assert("midigain"@ =~= seq!['m', 'i', 'd', 'i', 'g', 'a', 'i', 'n']);
    assert("db"@ =~= seq!['d', 'b']);
    assert("db-raw"@ =~= seq!['d', 'b', '-', 'r', 'a', 'w']);
    match g {
        OSCGain::Linear => assert(gain_of_str(gain_str(g)) == Some(g)),
        OSCGain::Midigain => assert(gain_of_str(gain_str(g)) == Some(g)),
        OSCGain::Db => assert(gain_of_str(gain_str(g)) == Some(g)),
        OSCGain::DbRaw => assert(gain_of_str(gain_str(g)) == Some(g)),
    }
}

proof fn lemma_time_tokens(t: OSCTime)
    ensures
        forall|j: int| 0 <= j < time_str(t).len() ==> time_str(t)[j] != '.',
        time_of_str(time_str(t)) == Some(t),
{
    reveal_strlit("second");
    reveal_strlit("bark");
    reveal_strlit("bpm");
    reveal_strlit("cents");
    reveal_strlit("hz");
    reveal_strlit("mel");
    reveal_strlit("midinote");
    reveal_strlit("ms");
    reveal_strlit("speed");
    reveal_strlit("samples");
    assert("second"@ =~= seq!['s', 'e', 'c', 'o', 'n', 'd']);
    assert("bark"@ =~= seq!['b', 'a', 'r', 'k']);
    assert("bpm"@ =~= seq!['b', 'p', 'm']);
    assert("cents"@ =~= seq!['c', 'e', 'n', 't', 's']);
    assert("hz"@ =~= seq!['h', 'z']);
    assert("mel"@ =~= seq!['m', 'e', 'l']);
    assert("midinote"@ =~= seq!['m', 'i', 'd', 'i', 'n', 'o', 't', 'e']);
    assert("ms"@ =~= seq!['m', 's']);
    assert("speed"@ =~= seq!['s', 'p', 'e', 'e', 'd']);
    assert("samples"@ =~= seq!['s', 'a', 'm', 'p', 'l', 'e', 's']);
    match t {
        OSCTime::Second => assert(time_of_str(time_str(t)) == Some(t)),
        OSCTime::Bark => assert(time_of_str(time_str(t)) == Some(t)),
        OSCTime::Bpm => assert(time_of_str(time_str(t)) == Some(t)),
        OSCTime::Cents => assert(time_of_str(time_str(t)) == Some(t)),
        OSCTime::Hz => assert(time_of_str(time_str(t)) == Some(t)),
        OSCTime::Mel => assert(time_of_str(time_str(t)) == Some(t)),
        OSCTime::Midinote => assert(time_of_str(time_str(t)) == Some(t)),
        OSCTime::Millisecond => assert(time_of_str(time_str(t)) == Some(t)),
        OSCTime::Speed => assert(time_of_str(time_str(t)) == Some(t)),
        OSCTime::Samples => assert(time_of_str(time_str(t)) == Some(t)),
    }
}

proof fn lemma_speed_tokens(s: OSCSpeed)
    ensures
        forall|j: int| 0 <= j < speed_str(s).len() ==> speed_str(s)[j] != '.',
        speed_of_str(speed_str(s)) == Some(s),
{
    reveal_strlit("m/s");
    reveal_strlit("mph");
    reveal_strlit("km/h");
    reveal_strlit("knots");
    reveal_strlit("ft/s");
    reveal_strlit("ft/h");
    reveal_strlit("pix/s");
    assert("m/s"@ =~= seq!['m', '/', 's']);
    assert("mph"@ =~= seq!['m', 'p', 'h']);
    assert("km/h"@ =~= seq!['k', 'm', '/', 'h']);
    assert("knots"@ =~= seq!['k', 'n', 'o', 't', 's']);
    assert("ft/s"@ =~= seq!['f', 't', '/', 's']);
    assert("ft/h"@ =~= seq!['f', 't', '/', 'h']);
    assert("pix/s"@ =~= seq!['p', 'i', 'x', '/', 's']);
    match s {
        OSCSpeed::MetersPerSeconds => assert(speed_of_str(speed_str(s)) == Some(s)),
        OSCSpeed::MilesPerHour => assert(speed_of_str(speed_str(s)) == Some(s)),
        OSCSpeed::KilometersPerHour => assert(speed_of_str(speed_str(s)) == Some(s)),
        OSCSpeed::Knots => assert(speed_of_str(speed_str(s)) == Some(s)),
        OSCSpeed::FeetPerSecond => assert(speed_of_str(speed_str(s)) == Some(s)),
        OSCSpeed::FeetPerHour => assert(speed_of_str(speed_str(s)) == Some(s)),
        OSCSpeed::PixelsPerSecond => assert(speed_of_str(speed_str(s)) == Some(s)),
    }
}

/// Round trip: decoding the canonical string form of any unit gives the unit
/// back. Injectivity of the encoding follows: no two units share a string.
pub proof fn lemma_unit_round_trip(u: OSCUnit)
    ensures
        unit_decode(unit_str(u)) == Some(u),
{
    reveal_strlit("distance");
    reveal_strlit("angle");
    reveal_strlit("gain");
    reveal_strlit("time");
    reveal_strlit("speed");
    match u {
        OSCUnit::Distance(d) => {
            lemma_distance_tokens(d);
            lemma_dot_split_around("distance"@, distance_str(d));
        },
        OSCUnit::Angle(a) => {
            lemma_angle_tokens(a);
            lemma_dot_split_around("angle"@, angle_str(a));
        },
        OSCUnit::Gain(g) => {
            lemma_gain_tokens(g);
            lemma_dot_split_around("gain"@, gain_str(g));
        },
        OSCUnit::Time(t) => {
            lemma_time_tokens(t);
            lemma_dot_split_around("time"@, time_str(t));
        },
        OSCUnit::Speed(s) => {
            lemma_speed_tokens(s);
            lemma_dot_split_around("speed"@, speed_str(s));
        },
    }
}

/// The canonical string form is injective over the full member set.
pub proof fn lemma_unit_encode_injective(u1: OSCUnit, u2: OSCUnit)
    requires
        unit_str(u1) == unit_str(u2),
    ensures
        u1 == u2,
{
    lemma_unit_round_trip(u1);
    lemma_unit_round_trip(u2);
}

} // verus!
