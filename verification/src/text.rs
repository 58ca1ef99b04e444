use vstd::prelude::*;

verus! {

/// Relies on String::push: appends exactly one character at the end.
#[verifier::external_body]
pub(crate) fn push_char(s: &mut String, c: char)
    ensures
        final(s)@ == old(s)@.push(c),
{
    s.push(c)
}

/// Strict lexicographic order on character sequences, by code point.
///
/// This is the order in which a node's children are kept, and it agrees with
/// the order `BTreeMap<String, _>` iterates in: comparing scalar values
/// character by character orders strings exactly as comparing their UTF-8
/// bytes does.
pub open spec fn seq_char_lt(a: Seq<char>, b: Seq<char>) -> bool
    decreases a.len(),
{
    if b.len() == 0 {
        false
    } else if a.len() == 0 {
        true
    } else if a[0] != b[0] {
        (a[0] as int) < (b[0] as int)
    } else {
        seq_char_lt(a.drop_first(), b.drop_first())
    }
}

pub proof fn lemma_seq_char_lt_total(a: Seq<char>, b: Seq<char>)
    ensures
        seq_char_lt(a, b) || seq_char_lt(b, a) || a == b,
    decreases a.len(),
{
    if b.len() == 0 {
        if a.len() == 0 {
            assert(a =~= b);
        }
    } else if a.len() == 0 {
    } else if a[0] != b[0] {
    } else {
        lemma_seq_char_lt_total(a.drop_first(), b.drop_first());
        if !seq_char_lt(a, b) && !seq_char_lt(b, a) {
            assert(a.drop_first() == b.drop_first());
            assert forall|i: int| 0 <= i < a.len() implies a[i] == b[i] by {
                if i > 0 {
                    assert(a[i] == a.drop_first()[i - 1]);
                    assert(b[i] == b.drop_first()[i - 1]);
                }
            }
            assert(a =~= b);
        }
    }
}

pub proof fn lemma_seq_char_lt_asymmetric(a: Seq<char>, b: Seq<char>)
    requires
        seq_char_lt(a, b),
    ensures
        !seq_char_lt(b, a),
        a != b,
    decreases a.len(),
{
    if b.len() == 0 {
    } else if a.len() == 0 {
        assert(a.len() != b.len());
    } else if a[0] != b[0] {
    } else {
        lemma_seq_char_lt_asymmetric(a.drop_first(), b.drop_first());
        assert(a != b) by {
            if a == b {
                assert(a.drop_first() == b.drop_first());
            }
        }
    }
}

pub proof fn lemma_seq_char_lt_transitive(a: Seq<char>, b: Seq<char>, c: Seq<char>)
    requires
        seq_char_lt(a, b),
        seq_char_lt(b, c),
    ensures
        seq_char_lt(a, c),
    decreases a.len(),
{
    if c.len() == 0 {
    } else if b.len() == 0 {
    } else if a.len() == 0 {
    } else if a[0] == b[0] && b[0] == c[0] {
        lemma_seq_char_lt_transitive(a.drop_first(), b.drop_first(), c.drop_first());
    }
}

/// Compares two strings in the `seq_char_lt` order.
pub fn str_lt(a: &str, b: &str) -> (r: bool)
    ensures
        r == seq_char_lt(a@, b@),
{
    let a_len = a.unicode_len();
    let b_len = b.unicode_len();
    let mut i: usize = 0;
    proof {
        assert(a@.skip(0) =~= a@);
        assert(b@.skip(0) =~= b@);
    }
    loop
        invariant
            i <= a_len,
            i <= b_len,
            a_len == a@.len(),
            b_len == b@.len(),
            seq_char_lt(a@, b@) == seq_char_lt(a@.skip(i as int), b@.skip(i as int)),
        decreases a_len - i,
    {
        proof {
            lemma_skip_step(a@, b@, i as int);
        }
        if i == a_len {
            return b_len > i;
        }
        if i == b_len {
            return false;
        }
        let ca = a.get_char(i);
        let cb = b.get_char(i);
        if ca != cb {
            return (ca as u32) < (cb as u32);
        }
        i = i + 1;
    }
}

/// When the sequences agree at position `i`, dropping one more character on
/// both sides does not change how they compare.
proof fn lemma_skip_step(a: Seq<char>, b: Seq<char>, i: int)
    requires
        0 <= i <= a.len(),
        0 <= i <= b.len(),
    ensures
        i < a.len() && i < b.len() && a[i] == b[i] ==> seq_char_lt(a.skip(i), b.skip(i))
            == seq_char_lt(a.skip(i + 1), b.skip(i + 1)),
{
    if i < a.len() && i < b.len() && a[i] == b[i] {
        assert(a.skip(i).drop_first() =~= a.skip(i + 1));
        assert(b.skip(i).drop_first() =~= b.skip(i + 1));
        assert(a.skip(i)[0] == a[i]);
        assert(b.skip(i)[0] == b[i]);
    }
}

/// The character for one decimal digit.
pub open spec fn dec_digit(d: int) -> char {
    if d == 0 {
        '0'
    } else if d == 1 {
        '1'
    } else if d == 2 {
        '2'
    } else if d == 3 {
        '3'
    } else if d == 4 {
        '4'
    } else if d == 5 {
        '5'
    } else if d == 6 {
        '6'
    } else if d == 7 {
        '7'
    } else if d == 8 {
        '8'
    } else {
        '9'
    }
}

/// The decimal text of a natural number, without leading zeros
/// (`0` itself is written as one digit).
pub open spec fn dec_nat(n: nat) -> Seq<char>
    decreases n,
{
    if n < 10 {
        seq![dec_digit(n as int)]
    } else {
        dec_nat(n / 10).push(dec_digit((n % 10) as int))
    }
}

/// The decimal text of an integer: a minus sign in front of negative values.
pub open spec fn dec_int(n: int) -> Seq<char> {
    if n < 0 {
        seq!['-'] + dec_nat((-n) as nat)
    } else {
        dec_nat(n as nat)
    }
}

fn dec_digit_char(d: u64) -> (c: char)
    requires
        d < 10,
    ensures
        c == dec_digit(d as int),
{
    if d == 0 {
        '0'
    } else if d == 1 {
        '1'
    } else if d == 2 {
        '2'
    } else if d == 3 {
        '3'
    } else if d == 4 {
        '4'
    } else if d == 5 {
        '5'
    } else if d == 6 {
        '6'
    } else if d == 7 {
        '7'
    } else if d == 8 {
        '8'
    } else {
        '9'
    }
}

/// Appends the decimal text of `n` to `out`.
pub fn write_dec_u64(n: u64, out: &mut String)
    ensures
        final(out)@ == old(out)@ + dec_nat(n as nat),
    decreases n,
{
    if n < 10 {
        push_char(out, dec_digit_char(n));
        proof {
            assert(final(out)@ =~= old(out)@ + dec_nat(n as nat));
        }
    } else {
        write_dec_u64(n / 10, out);
        push_char(out, dec_digit_char(n % 10));
        proof {
            assert(final(out)@ =~= old(out)@ + dec_nat(n as nat));
        }
    }
}

/// Appends the decimal text of `n` to `out`, sign included.
pub fn write_dec_i64(n: i64, out: &mut String)
    ensures
        final(out)@ == old(out)@ + dec_int(n as int),
{
    if n >= 0 {
        write_dec_u64(n as u64, out);
    } else {
        let mag: u64 = (-(n + 1)) as u64 + 1;
        assert(mag == -(n as int));
        push_char(out, '-');
        write_dec_u64(mag, out);
        proof {
            assert(final(out)@ =~= old(out)@ + dec_int(n as int));
        }
    }
}

/// Index of the first occurrence of `sep` in `s`, or `-1` when there is none.
pub open spec fn first_occ(s: Seq<char>, sep: char) -> int
    decreases s.len(),
{
    if s.len() == 0 {
        -1
    } else if s[0] == sep {
        0
    } else if first_occ(s.drop_first(), sep) < 0 {
        -1
    } else {
        first_occ(s.drop_first(), sep) + 1
    }
}

/// Index of the first `/` in `s`, or `-1` when there is none.
pub open spec fn first_slash(s: Seq<char>) -> int {
    first_occ(s, '/')
}

pub proof fn lemma_first_occ_bounds(s: Seq<char>, sep: char)
    ensures
        -1 <= first_occ(s, sep) < s.len(),
        first_occ(s, sep) >= 0 ==> s[first_occ(s, sep)] == sep,
        forall|j: int| 0 <= j < first_occ(s, sep) ==> s[j] != sep,
        first_occ(s, sep) == -1 ==> forall|j: int| 0 <= j < s.len() ==> s[j] != sep,
    decreases s.len(),
{
    if s.len() == 0 {
    } else if s[0] == sep {
    } else {
        lemma_first_occ_bounds(s.drop_first(), sep);
        assert forall|j: int| 0 <= j < first_occ(s, sep) implies s[j] != sep by {
            if j >= 1 {
                assert(s[j] == s.drop_first()[j - 1]);
            }
        }
        if first_occ(s, sep) == -1 {
            assert forall|j: int| 0 <= j < s.len() implies s[j] != sep by {
                if j >= 1 {
                    assert(s[j] == s.drop_first()[j - 1]);
                }
            }
        }
    }
}

pub proof fn lemma_first_slash_bounds(s: Seq<char>)
    ensures
        -1 <= first_slash(s) < s.len(),
        first_slash(s) >= 0 ==> s[first_slash(s)] == '/',
        forall|j: int| 0 <= j < first_slash(s) ==> s[j] != '/',
        first_slash(s) == -1 ==> forall|j: int| 0 <= j < s.len() ==> s[j] != '/',
{
    lemma_first_occ_bounds(s, '/');
}

/// The pieces of `s` between its `/` separators, in order. A string without
/// a `/` is one piece; every separator opens a new piece, so leading,
/// trailing and doubled separators produce empty pieces.
pub open spec fn split_slash(s: Seq<char>) -> Seq<Seq<char>>
    decreases s.len(),
    via split_slash_decreases
{
    if first_slash(s) < 0 {
        seq![s]
    } else {
        seq![s.take(first_slash(s))] + split_slash(s.skip(first_slash(s) + 1))
    }
}

#[via_fn]
proof fn split_slash_decreases(s: Seq<char>) {
    lemma_first_slash_bounds(s);
}

/// Joining the pieces with `/` gives the string back, and a split is never
/// empty.
pub proof fn lemma_split_join(s: Seq<char>)
    ensures
        split_slash(s).len() >= 1,
        join_slash(split_slash(s)) == s,
    decreases s.len(),
{
    lemma_first_slash_bounds(s);
    let i = first_slash(s);
    if i >= 0 {
        lemma_split_join(s.skip(i + 1));
        let parts = seq![s.take(i)] + split_slash(s.skip(i + 1));
        assert(parts.drop_first() =~= split_slash(s.skip(i + 1)));
        assert(join_slash(parts) == s.take(i) + seq!['/'] + join_slash(split_slash(s.skip(i + 1))));
        assert(s.take(i) + seq!['/'] + s.skip(i + 1) =~= s);
    }
}

/// The pieces joined back with `/` between them.
pub open spec fn join_slash(parts: Seq<Seq<char>>) -> Seq<char>
    decreases parts.len(),
{
    if parts.len() == 0 {
        Seq::empty()
    } else if parts.len() == 1 {
        parts[0]
    } else {
        parts[0] + seq!['/'] + join_slash(parts.drop_first())
    }
}

/// Splits a string at every `/`.
pub fn split_slash_exec(s: &str) -> (r: Vec<String>)
    ensures
        r@.map_values(|p: String| p@) =~= split_slash(s@),
{
    let len = s.unicode_len();
    let mut parts: Vec<String> = Vec::new();
    let mut start: usize = 0;
    let mut i: usize = 0;
    proof {
        assert(s@.skip(0) =~= s@);
        assert(parts@.map_values(|p: String| p@) =~= Seq::<Seq<char>>::empty());
    }
    while i < len
        invariant
            start <= i <= len,
            len == s@.len(),
            forall|j: int| start <= j < i ==> s@[j] != '/',
            split_slash(s@) =~= parts@.map_values(|p: String| p@)
                + split_slash(s@.skip(start as int)),
        decreases len - i,
    {
        let c = s.get_char(i);
        if c == '/' {
            let piece = s.substring_char(start, i).to_owned();
            proof {
                lemma_first_occ_found(s@, '/', start as int, i as int);
                assert(parts@.push(piece).map_values(|p: String| p@)
                    =~= parts@.map_values(|p: String| p@).push(piece@));
                assert(s@.skip(start as int).take(i - start) =~= s@.subrange(
                    start as int,
                    i as int,
                ));
                assert(s@.skip(start as int).skip(i - start + 1) =~= s@.skip(i as int + 1));
                assert(seq![s@.subrange(start as int, i as int)]
                    + split_slash(s@.skip(i as int + 1))
                    =~= split_slash(s@.skip(start as int)));
            }
            parts.push(piece);
            start = i + 1;
        }
        i = i + 1;
    }
    let last = s.substring_char(start, len).to_owned();
    proof {
        lemma_first_occ_absent(s@, '/', start as int);
        assert(parts@.push(last).map_values(|p: String| p@)
            =~= parts@.map_values(|p: String| p@).push(last@));
        assert(s@.skip(start as int) =~= s@.subrange(start as int, len as int));
    }
    parts.push(last);
    parts
}

/// In the suffix of `s` that begins at `start`, the first `sep` stands at
/// offset `i - start` when `s[i]` is a `sep` and nothing before it is.
pub proof fn lemma_first_occ_found(s: Seq<char>, sep: char, start: int, i: int)
    requires
        0 <= start <= i < s.len(),
        s[i] == sep,
        forall|j: int| start <= j < i ==> s[j] != sep,
    ensures
        first_occ(s.skip(start), sep) == i - start,
    decreases i - start,
{
    if start == i {
        assert(s.skip(start)[0] == sep);
    } else {
        lemma_first_occ_found(s, sep, start + 1, i);
        assert(s.skip(start).drop_first() =~= s.skip(start + 1));
        assert(s.skip(start)[0] == s[start]);
    }
}

/// A suffix without the separator has none to find.
pub proof fn lemma_first_occ_absent(s: Seq<char>, sep: char, start: int)
    requires
        0 <= start <= s.len(),
        forall|j: int| start <= j < s.len() ==> s[j] != sep,
    ensures
        first_occ(s.skip(start), sep) == -1,
{
    lemma_first_occ_bounds(s.skip(start), sep);
    if first_occ(s.skip(start), sep) >= 0 {
        assert(s[start + first_occ(s.skip(start), sep)] == sep);
    }
}

/// Position of the first occurrence of `sep` in `s`, if any.
pub fn find_char(s: &str, sep: char) -> (r: Option<usize>)
    ensures
        match r {
            Some(i) => first_occ(s@, sep) == i as int,
            None => first_occ(s@, sep) == -1,
        },
{
    let len = s.unicode_len();
    let mut i: usize = 0;
    while i < len
        invariant
            i <= len,
            len == s@.len(),
            forall|j: int| 0 <= j < i ==> s@[j] != sep,
        decreases len - i,
    {
        if s.get_char(i) == sep {
            proof {
                lemma_first_occ_found(s@, sep, 0, i as int);
                assert(s@.skip(0) =~= s@);
            }
            return Some(i);
        }
        i = i + 1;
    }
    proof {
        lemma_first_occ_absent(s@, sep, 0);
        assert(s@.skip(0) =~= s@);
    }
    None
}

/// Whether two strings hold the same characters.
pub fn eq_str(a: &str, b: &str) -> (r: bool)
    ensures
        r == (a@ == b@),
{
    let a_len = a.unicode_len();
    let b_len = b.unicode_len();
    if a_len != b_len {
        return false;
    }
    let mut i: usize = 0;
    while i < a_len
        invariant
            i <= a_len,
            a_len == a@.len(),
            a_len == b@.len(),
            forall|j: int| 0 <= j < i ==> a@[j] == b@[j],
        decreases a_len - i,
    {
        if s_get(a, i) != s_get(b, i) {
            return false;
        }
        i = i + 1;
    }
    proof {
        assert(a@ =~= b@);
    }
    true
}

fn s_get(s: &str, i: usize) -> (c: char)
    requires
        i < s@.len(),
    ensures
        c == s@[i as int],
{
    s.get_char(i)
}

} // verus!

verus! {

/// Whether a character is a decimal digit.
pub open spec fn is_dec_digit(c: char) -> bool {
    '0' <= c <= '9'
}

/// The numeric value of one decimal digit character.
pub open spec fn digit_val(c: char) -> int {
    c as int - '0' as int
}

/// The number a string of digit characters spells, most significant first.
pub open spec fn nat_of_digits(s: Seq<char>) -> int
    decreases s.len(),
{
    if s.len() == 0 {
        0
    } else {
        nat_of_digits(s.drop_last()) * 10 + digit_val(s.last())
    }
}

/// The number a canonical decimal natural spells: at least one digit, no
/// leading zero except for `0` itself.
pub open spec fn text_as_nat(s: Seq<char>) -> Option<int> {
    if s.len() > 0 && (forall|i: int| 0 <= i < s.len() ==> is_dec_digit(#[trigger] s[i])) && (
    s.len() == 1 || s[0] != '0') {
        Some(nat_of_digits(s))
    } else {
        None
    }
}

/// The number a canonical decimal integer spells: an optional minus sign —
/// never in front of zero — and then a canonical natural.
pub open spec fn text_as_int(s: Seq<char>) -> Option<int> {
    if s.len() > 0 && s[0] == '-' {
        match text_as_nat(s.drop_first()) {
            Some(n) => if n > 0 {
                Some(-n)
            } else {
                None
            },
            None => None,
        }
    } else {
        text_as_nat(s)
    }
}

/// A digit string spells a number that never shrinks as digits arrive.
proof fn lemma_digits_nonneg(s: Seq<char>)
    requires
        forall|i: int| 0 <= i < s.len() ==> is_dec_digit(#[trigger] s[i]),
    ensures
        nat_of_digits(s) >= 0,
    decreases s.len(),
{
    if s.len() > 0 {
        assert forall|i: int| 0 <= i < s.drop_last().len() implies is_dec_digit(
            #[trigger] s.drop_last()[i],
        ) by {
            assert(s.drop_last()[i] == s[i]);
        }
        lemma_digits_nonneg(s.drop_last());
    }
}

/// The decimal text of a natural is digits throughout, never starts with a
/// zero unless it is `0` itself, and spells the number back.
proof fn lemma_dec_nat_canonical(n: nat)
    ensures
        forall|i: int| 0 <= i < dec_nat(n).len() ==> is_dec_digit(#[trigger] dec_nat(n)[i]),
        dec_nat(n).len() > 0,
        n > 0 ==> dec_nat(n)[0] != '0',
        nat_of_digits(dec_nat(n)) == n,
    decreases n,
{
    if n < 10 {
        assert(dec_nat(n) =~= seq![dec_digit(n as int)]);
        assert(dec_nat(n).drop_last() =~= Seq::<char>::empty());
        assert(dec_nat(n).last() == dec_digit(n as int));
        assert(nat_of_digits(Seq::<char>::empty()) == 0);
        assert(digit_val(dec_digit(n as int)) == n);
        assert(nat_of_digits(dec_nat(n)) == nat_of_digits(dec_nat(n).drop_last()) * 10
            + digit_val(dec_nat(n).last()));
    } else {
        lemma_dec_nat_canonical(n / 10);
        let head = dec_nat(n / 10);
        assert(dec_nat(n) == head.push(dec_digit((n % 10) as int)));
        assert forall|i: int| 0 <= i < dec_nat(n).len() implies is_dec_digit(
            #[trigger] dec_nat(n)[i],
        ) by {
            if i < head.len() {
                assert(dec_nat(n)[i] == head[i]);
            } else {
                assert(dec_nat(n)[i] == dec_digit((n % 10) as int));
            }
        }
        assert(dec_nat(n)[0] == head[0]);
        assert(dec_nat(n).drop_last() =~= head);
        assert(dec_nat(n).last() == dec_digit((n % 10) as int));
        assert(digit_val(dec_digit((n % 10) as int)) == n % 10);
        assert(nat_of_digits(dec_nat(n)) == (n / 10) * 10 + n % 10);
    }
}

/// The printer and the parser agree: the decimal text of any integer parses
/// back to that integer.
pub proof fn lemma_parse_of_print(v: int)
    ensures
        text_as_int(dec_int(v)) == Some(v),
{
    if v < 0 {
        lemma_dec_nat_canonical((-v) as nat);
        let s = dec_int(v);
        assert(s == seq!['-'] + dec_nat((-v) as nat));
        assert(s[0] == '-');
        assert(s.drop_first() =~= dec_nat((-v) as nat));
        assert(text_as_nat(s.drop_first()) == Some(-v));
    } else {
        lemma_dec_nat_canonical(v as nat);
        let s = dec_int(v);
        assert(s == dec_nat(v as nat));
        assert(is_dec_digit(s[0]));
        assert(s[0] != '-') by {
            assert(('-' as int) < ('0' as int));
        }
    }
}

} // verus!

verus! {

/// A digit string's value only grows as more digits arrive at its end.
proof fn lemma_digits_extend(s: Seq<char>, a: int, b: int, c: int)
    requires
        0 <= a <= b <= c <= s.len(),
        forall|j: int| a <= j < c ==> is_dec_digit(#[trigger] s[j]),
    ensures
        nat_of_digits(s.subrange(a, b)) <= nat_of_digits(s.subrange(a, c)),
    decreases c - b,
{
    if b < c {
        lemma_digits_extend(s, a, b, c - 1);
        let head = s.subrange(a, c - 1);
        let whole = s.subrange(a, c);
        assert(whole.drop_last() =~= head);
        assert(whole.last() == s[c - 1]);
        assert forall|j: int| 0 <= j < head.len() implies is_dec_digit(#[trigger] head[j]) by {
            assert(head[j] == s[a + j]);
        }
        lemma_digits_nonneg(head);
        assert(digit_val(s[c - 1]) >= 0);
        assert(nat_of_digits(whole) == nat_of_digits(head) * 10 + digit_val(whole.last()));
    }
}

/// Parses a canonical decimal integer: it accepts exactly the texts that
/// `dec_int` prints for the values that fit in the type, and nothing else —
/// no sign but one leading minus, no leading zero, no minus before zero.
pub fn parse_dec_i64(s: &str) -> (r: Option<i64>)
    ensures
        match text_as_int(s@) {
            Some(v) => if i64::MIN <= v <= i64::MAX {
                r == Some(v as i64)
            } else {
                r is None
            },
            None => r is None,
        },
{
    let len = s.unicode_len();
    if len == 0 {
        return None;
    }
    let neg = s.get_char(0) == '-';
    let start: usize = if neg {
        1
    } else {
        0
    };
    if start == len {
        proof {
            assert(s@.drop_first().len() == 0);
        }
        return None;
    }
    if s.get_char(start) == '0' && len - start > 1 {
        proof {
            if neg {
                assert(s@.drop_first()[0] == s@[1]);
                assert(s@.drop_first().len() > 1);
            }
        }
        return None;
    }
    let limit: u64 = if neg {
        9223372036854775808u64
    } else {
        9223372036854775807u64
    };
    let ghost digits = s@.subrange(start as int, len as int);
    let mut mag: u64 = 0;
    let mut i: usize = start;
    proof {
        assert(s@.subrange(start as int, start as int) =~= Seq::<char>::empty());
    }
    while i < len
        invariant
            start <= i <= len,
            len == s@.len(),
            start == (if neg {
                1usize
            } else {
                0usize
            }),
            neg ==> s@[0] == '-',
            !neg ==> s@[0] != '-',
            limit == (if neg {
                9223372036854775808u64
            } else {
                9223372036854775807u64
            }),
            forall|j: int| start <= j < i ==> is_dec_digit(#[trigger] s@[j]),
            mag as int == nat_of_digits(s@.subrange(start as int, i as int)),
            mag <= limit,
        decreases len - i,
    {
        let c = s.get_char(i);
        let cu = c as u32;
        if cu < 48 || cu > 57 {
            proof {
                assert(!is_dec_digit(s@[i as int])) by {
                    assert(('0' as int) == 48 && ('9' as int) == 57);
                }
                lemma_not_parsed_when_bad_digit(s@, start as int, i as int, neg);
            }
            return None;
        }
        let d: u64 = (cu - 48) as u64;
        proof {
            assert(is_dec_digit(s@[i as int]) && digit_val(s@[i as int]) == d) by {
                assert(('0' as int) == 48 && ('9' as int) == 57);
            }
        }
        let next: u128 = (mag as u128) * 10 + (d as u128);
        proof {
            let grown = s@.subrange(start as int, i as int + 1);
            assert(grown.drop_last() =~= s@.subrange(start as int, i as int));
            assert(grown.last() == s@[i as int]);
            assert(next == nat_of_digits(grown));
        }
        if next > (limit as u128) {
            proof {
                lemma_not_representable_when_prefix_large(
                    s@,
                    start as int,
                    i as int + 1,
                    neg,
                    limit as int,
                );
            }
            return None;
        }
        mag = next as u64;
        i = i + 1;
    }
    if neg && mag == 0 {
        proof {
            assert(s@.drop_first() =~= digits);
            assert(text_as_nat(digits) matches Some(n) ==> n == 0);
        }
        return None;
    }
    proof {
        if neg {
            assert(s@.drop_first() =~= digits);
            assert(digits.len() == 1 || digits[0] != '0') by {
                assert(digits[0] == s@[start as int]);
            }
            assert(text_as_nat(digits) == Some(mag as int));
            assert(text_as_int(s@) == Some(-(mag as int)));
        } else {
            assert(digits =~= s@);
            assert(digits.len() == 1 || digits[0] != '0') by {
                assert(digits[0] == s@[start as int]);
            }
            assert(text_as_int(s@) == Some(mag as int));
        }
    }
    if neg {
        if mag == 9223372036854775808u64 {
            Some(i64::MIN)
        } else {
            Some(-(mag as i64))
        }
    } else {
        Some(mag as i64)
    }
}

/// When some position in the digit part is no digit, nothing parses.
proof fn lemma_not_parsed_when_bad_digit(s: Seq<char>, start: int, i: int, neg: bool)
    requires
        0 <= start <= i < s.len(),
        start == (if neg {
            1int
        } else {
            0int
        }),
        neg ==> s[0] == '-',
        !neg ==> s[0] != '-',
        !is_dec_digit(s[i]),
    ensures
        text_as_int(s) is None,
{
    if neg {
        if text_as_nat(s.drop_first()) is Some {
            assert(is_dec_digit(s.drop_first()[i - 1]));
            assert(s.drop_first()[i - 1] == s[i]);
        }
    } else {
        if text_as_nat(s) is Some {
            assert(is_dec_digit(s[i]));
        }
    }
}

/// When a prefix of the digit part already spells more than the magnitude
/// limit, the whole text spells a value outside the type's range (or spells
/// nothing at all).
proof fn lemma_not_representable_when_prefix_large(
    s: Seq<char>,
    start: int,
    upto: int,
    neg: bool,
    limit: int,
)
    requires
        0 <= start <= upto <= s.len(),
        start == (if neg {
            1int
        } else {
            0int
        }),
        neg ==> s[0] == '-' && limit == 9223372036854775808,
        !neg ==> s[0] != '-' && limit == 9223372036854775807,
        forall|j: int| start <= j < upto ==> is_dec_digit(#[trigger] s[j]),
        nat_of_digits(s.subrange(start, upto)) > limit,
    ensures
        match text_as_int(s) {
            Some(v) => v < -9223372036854775808 || v > 9223372036854775807,
            None => true,
        },
{
    let digits = s.subrange(start, s.len() as int);
    if neg {
        if text_as_nat(s.drop_first()) is Some {
            assert(s.drop_first() =~= digits);
            assert forall|j: int| start <= j < s.len() implies is_dec_digit(
                #[trigger] s[j],
            ) by {
                assert(digits[j - start] == s[j]);
            }
            lemma_digits_extend(s, start, upto, s.len() as int);
            assert(s.subrange(start, s.len() as int) == digits);
            assert(nat_of_digits(digits) > limit);
        }
    } else {
        if text_as_nat(s) is Some {
            assert(s =~= digits);
            lemma_digits_extend(s, start, upto, s.len() as int);
            assert(nat_of_digits(digits) > limit);
        }
    }
}

} // verus!
