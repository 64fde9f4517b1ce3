//! Building and reading the small textual forms the records travel in:
//! JSON strings with escaping, JSON string lists and decimal numbers, the
//! digit-stripping integer read applied to timestamps, and parsers that
//! read those forms back, with lemmas showing the reads invert the
//! writes.

use crate::hexcodec::hex_digit;
use vstd::prelude::*;
use vstd::string::StrSliceExecFns;

verus! {

/// The escape of one character inside a JSON string: quote and backslash
/// get a backslash, control characters a `\u00XX` form, all else stands.
pub open spec fn spec_json_escape_char(c: char) -> Seq<char> {
    if c == '"' {
        seq!['\\', '"']
    } else if c == '\\' {
        seq!['\\', '\\']
    } else if (c as u32) < 32 {
        seq!['\\', 'u', '0', '0', hex_digit(((c as u32) / 16) as u8), hex_digit(
            ((c as u32) % 16) as u8,
        )]
    } else {
        seq![c]
    }
}

/// A character sequence with every character escaped.
pub open spec fn spec_json_escape(s: Seq<char>) -> Seq<char>
    decreases s.len(),
{
    if s.len() == 0 {
        Seq::<char>::empty()
    } else {
        spec_json_escape(s.drop_last()) + spec_json_escape_char(s.last())
    }
}

/// A JSON string literal: quoted, escaped content.
pub open spec fn spec_json_string(s: Seq<char>) -> Seq<char> {
    seq!['"'] + spec_json_escape(s) + seq!['"']
}

/// A comma-separated list of JSON string literals.
pub open spec fn spec_json_string_list(items: Seq<Seq<char>>) -> Seq<char>
    decreases items.len(),
{
    if items.len() == 0 {
        Seq::<char>::empty()
    } else if items.len() == 1 {
        spec_json_string(items[0])
    } else {
        spec_json_string_list(items.drop_last()) + seq![','] + spec_json_string(items.last())
    }
}

/// The decimal digits of a value, most significant first.
pub open spec fn spec_dec_digits(n: nat) -> Seq<char>
    decreases n,
{
    if n < 10 {
        seq![hex_digit(n as u8)]
    } else {
        spec_dec_digits(n / 10) + seq![hex_digit((n % 10) as u8)]
    }
}

/// The decimal form of a signed value: a minus sign before the digits of
/// its magnitude.
pub open spec fn spec_dec_signed(n: int) -> Seq<char> {
    if n < 0 {
        seq!['-'] + spec_dec_digits((-n) as nat)
    } else {
        spec_dec_digits(n as nat)
    }
}

/// Relies on String::push: appends one character.
#[verifier::external_body]
pub(crate) fn string_push(s: &mut String, c: char)
    ensures
        final(s)@ == old(s)@.push(c),
{
    s.push(c);
}

/// The decimal digit character for a value below 10.
fn digit_char(n: u8) -> (r: char)
    requires
        n < 10,
    ensures
        r == hex_digit(n),
{
    match n {
        0 => '0',
        1 => '1',
        2 => '2',
        3 => '3',
        4 => '4',
        5 => '5',
        6 => '6',
        7 => '7',
        8 => '8',
        _ => '9',
    }
}

/// The hex digit character for a value below 16.
fn hex_char(n: u8) -> (r: char)
    requires
        n < 16,
    ensures
        r == hex_digit(n),
{
    match n {
        0 => '0',
        1 => '1',
        2 => '2',
        3 => '3',
        4 => '4',
        5 => '5',
        6 => '6',
        7 => '7',
        8 => '8',
        9 => '9',
        10 => 'a',
        11 => 'b',
        12 => 'c',
        13 => 'd',
        14 => 'e',
        _ => 'f',
    }
}

/// Append one escaped character.
fn append_escaped_char(out: &mut String, c: char)
    ensures
        final(out)@ == old(out)@ + spec_json_escape_char(c),
{
    if c == '"' {
        string_push(out, '\\');
        string_push(out, '"');
    } else if c == '\\' {
        string_push(out, '\\');
        string_push(out, '\\');
    } else if (c as u32) < 32 {
        string_push(out, '\\');
        string_push(out, 'u');
        string_push(out, '0');
        string_push(out, '0');
        string_push(out, hex_char(((c as u32) / 16) as u8));
        string_push(out, hex_char(((c as u32) % 16) as u8));
    } else {
        string_push(out, c);
    }
    proof {
        assert(final(out)@ =~= old(out)@ + spec_json_escape_char(c));
    }
}

/// Append a JSON string literal for `s`.
pub fn append_json_string(out: &mut String, s: &str)
    ensures
        final(out)@ == old(out)@ + spec_json_string(s@),
{
    string_push(out, '"');
    let n = s.unicode_len();
    let mut i: usize = 0;
    while i < n
        invariant
            i <= n,
            n == s@.len(),
            out@ == old(out)@ + seq!['"'] + spec_json_escape(s@.take(i as int)),
        decreases n - i,
    {
        let c = s.get_char(i);
        append_escaped_char(out, c);
        proof {
            assert(s@.take(i + 1).drop_last() =~= s@.take(i as int));
            assert(s@.take(i + 1).last() == s@[i as int]);
        }
        i = i + 1;
    }
    string_push(out, '"');
    proof {
        assert(s@.take(n as int) =~= s@);
        assert(final(out)@ =~= old(out)@ + spec_json_string(s@));
    }
}

/// Append a comma-separated list of JSON string literals.
pub fn append_json_string_list(out: &mut String, items: &Vec<String>)
    ensures
        final(out)@ == old(out)@ + spec_json_string_list(items.deep_view()),
{
    let n = items.len();
    let mut i: usize = 0;
    while i < n
        invariant
            i <= n,
            n == items@.len(),
            out@ == old(out)@ + spec_json_string_list(items.deep_view().take(i as int)),
        decreases n - i,
    {
        if i > 0 {
            string_push(out, ',');
        }
        append_json_string(out, items[i].as_str());
        proof {
            let dv = items.deep_view();
            assert(dv.take(i + 1).drop_last() =~= dv.take(i as int));
            assert(dv.take(i + 1).last() =~= items@[i as int]@);
            if i == 0 {
                assert(spec_json_string_list(dv.take(1)) == spec_json_string(dv.take(1)[0]));
            }
        }
        i = i + 1;
    }
    proof {
        assert(items.deep_view().take(n as int) =~= items.deep_view());
    }
}

/// Append the decimal digits of `n`.
pub fn append_dec_u128(out: &mut String, n: u128)
    ensures
        final(out)@ == old(out)@ + spec_dec_digits(n as nat),
    decreases n,
{
    if n >= 10 {
        append_dec_u128(out, n / 10);
        string_push(out, digit_char((n % 10) as u8));
        proof {
            assert(final(out)@ =~= old(out)@ + spec_dec_digits(n as nat));
        }
    } else {
        string_push(out, digit_char(n as u8));
        proof {
            assert(final(out)@ =~= old(out)@ + spec_dec_digits(n as nat));
        }
    }
}

/// Append the decimal form of a signed value.
pub fn append_dec_i32(out: &mut String, n: i32)
    ensures
        final(out)@ == old(out)@ + spec_dec_signed(n as int),
{
    if n < 0 {
        string_push(out, '-');
        let m = -(n as i64);
        append_dec_u128(out, m as u128);
        proof {
            assert(final(out)@ =~= old(out)@ + spec_dec_signed(n as int));
        }
    } else {
        append_dec_u128(out, n as u128);
    }
}

/// Escaping distributes over concatenation.
pub proof fn lemma_escape_concat(a: Seq<char>, b: Seq<char>)
    ensures
        spec_json_escape(a + b) == spec_json_escape(a) + spec_json_escape(b),
    decreases b.len(),
{
    if b.len() == 0 {
        assert(a + b =~= a);
        assert(spec_json_escape(a) + spec_json_escape(b) =~= spec_json_escape(a));
    } else {
        lemma_escape_concat(a, b.drop_last());
        assert((a + b).drop_last() =~= a + b.drop_last());
        assert((a + b).last() == b.last());
        assert(spec_json_escape(a) + (spec_json_escape(b.drop_last()) + spec_json_escape_char(
            b.last(),
        )) =~= (spec_json_escape(a) + spec_json_escape(b.drop_last())) + spec_json_escape_char(
            b.last(),
        ));
    }
}

/// Read the escaped content of a JSON string starting just after its
/// opening quote: the decoded characters and the position just past the
/// closing quote. `None` if the text ends before an unescaped quote or
/// holds an escape this format never writes.
pub open spec fn spec_parse_string_body(t: Seq<char>, pos: int) -> Option<(Seq<char>, int)>
    decreases t.len() - pos,
{
    if pos < 0 || pos >= t.len() {
        None
    } else if t[pos] == '"' {
        Some((Seq::<char>::empty(), pos + 1))
    } else if t[pos] == '\\' {
        if pos + 1 >= t.len() {
            None
        } else if t[pos + 1] == '"' || t[pos + 1] == '\\' {
            match spec_parse_string_body(t, pos + 2) {
                Some((s, np)) => Some((seq![t[pos + 1]] + s, np)),
                None => None,
            }
        } else if t[pos + 1] == 'u' {
            if pos + 6 > t.len() {
                None
            } else {
                match (crate::hexcodec::hex_char_val(t[pos + 4]), crate::hexcodec::hex_char_val(
                    t[pos + 5],
                )) {
                    (Some(h1), Some(h2)) => {
                        if t[pos + 2] == '0' && t[pos + 3] == '0' {
                            match spec_parse_string_body(t, pos + 6) {
                                Some((s, np)) => Some(
                                    (seq![((16 * h1 + h2) as u8) as char] + s, np),
                                ),
                                None => None,
                            }
                        } else {
                            None
                        }
                    },
                    _ => None,
                }
            }
        } else {
            None
        }
    } else {
        match spec_parse_string_body(t, pos + 1) {
            Some((s, np)) => Some((seq![t[pos]] + s, np)),
            None => None,
        }
    }
}

/// Read a whole JSON string literal at `pos`: its decoded content and the
/// position just past the closing quote.
pub open spec fn spec_parse_json_string(t: Seq<char>, pos: int) -> Option<(Seq<char>, int)> {
    if 0 <= pos < t.len() && t[pos] == '"' {
        spec_parse_string_body(t, pos + 1)
    } else {
        None
    }
}

/// A parsed string body ends after where it began and within the text.
pub proof fn lemma_parse_body_advances(t: Seq<char>, pos: int)
    requires
        spec_parse_string_body(t, pos) is Some,
    ensures
        ({
            let (s, np) = spec_parse_string_body(t, pos)->0;
            pos < np <= t.len()
        }),
    decreases t.len() - pos,
{
    if pos < 0 || pos >= t.len() {
    } else if t[pos] == '"' {
    } else if t[pos] == '\\' {
        if pos + 1 >= t.len() {
        } else if t[pos + 1] == '"' || t[pos + 1] == '\\' {
            lemma_parse_body_advances(t, pos + 2);
        } else if t[pos + 1] == 'u' && pos + 6 <= t.len() {
            lemma_parse_body_advances(t, pos + 6);
        }
    } else {
        lemma_parse_body_advances(t, pos + 1);
    }
}

/// Reading the escape of `x` followed by a closing quote recovers `x`
/// exactly and stops just past that quote.
pub proof fn lemma_parse_body_of_escape(t: Seq<char>, pos: int, x: Seq<char>, tail: Seq<char>)
    requires
        0 <= pos <= t.len(),
        t.skip(pos) == spec_json_escape(x) + seq!['"'] + tail,
    ensures
        spec_parse_string_body(t, pos) == Some((x, t.len() - tail.len())),
    decreases x.len(),
{
    if x.len() == 0 {
        assert(spec_json_escape(x) =~= Seq::<char>::empty());
        assert(t.skip(pos) =~= seq!['"'] + tail);
        assert(t.skip(pos).len() == t.len() - pos);
        assert(t.skip(pos).len() == 1 + tail.len());
        assert(t.skip(pos)[0] == t[pos]);
        assert(t[pos] == '"');
    } else {
        let c = x.first();
        let xs = x.drop_first();
        assert(x =~= seq![c] + xs);
        lemma_escape_concat(seq![c], xs);
        assert(spec_json_escape(seq![c]) =~= spec_json_escape_char(c)) by {
            assert(seq![c].drop_last() =~= Seq::<char>::empty());
            assert(spec_json_escape(Seq::<char>::empty()) =~= Seq::<char>::empty());
            assert(seq![c].last() == c);
        }
        let ec = spec_json_escape_char(c);
        assert(t.skip(pos) =~= ec + (spec_json_escape(xs) + seq!['"'] + tail));
        let k = ec.len() as int;
        assert(forall|j: int| 0 <= j < k ==> t[pos + j] == #[trigger] ec[j]) by {
            assert(forall|j: int| 0 <= j < k ==> t.skip(pos)[j] == #[trigger] ec[j]);
        }
        assert(t.skip(pos + k) =~= spec_json_escape(xs) + seq!['"'] + tail) by {
            assert(forall|j: int|
                0 <= j < t.len() - pos - k ==> #[trigger] t.skip(pos + k)[j] == t.skip(pos)[j + k]);
        }
        lemma_parse_body_of_escape(t, pos + k, xs, tail);
        if c == '"' {
            assert(ec =~= seq!['\\', '"']);
            assert(t[pos] == '\\' && t[pos + 1] == '"');
            assert(seq![t[pos + 1]] + xs =~= x);
        } else if c == '\\' {
            assert(ec =~= seq!['\\', '\\']);
            assert(t[pos] == '\\' && t[pos + 1] == '\\');
            assert(seq![t[pos + 1]] + xs =~= x);
        } else if (c as u32) < 32 {
            let v = c as u32;
            assert(ec =~= seq!['\\', 'u', '0', '0', crate::hexcodec::hex_digit((v / 16) as u8),
                crate::hexcodec::hex_digit((v % 16) as u8)]);
            assert(t[pos] == '\\' && t[pos + 1] == 'u' && t[pos + 2] == '0' && t[pos + 3] == '0');
            crate::hexcodec::lemma_hex_digit_val((v / 16) as u8);
            crate::hexcodec::lemma_hex_digit_val((v % 16) as u8);
            assert(crate::hexcodec::hex_char_val(t[pos + 4]) == Some((v / 16) as u8));
            assert(crate::hexcodec::hex_char_val(t[pos + 5]) == Some((v % 16) as u8));
            assert(16 * ((v / 16) as u8) + ((v % 16) as u8) == v);
            lemma_char_rebuild((v / 16) as u8, (v % 16) as u8, c);
            assert(seq![((16 * ((v / 16) as u8) + ((v % 16) as u8)) as u8) as char] + xs =~= x);
        } else {
            assert(ec =~= seq![c]);
            assert(t[pos] == c);
            assert(t[pos] != '"' && t[pos] != '\\');
            assert(seq![t[pos]] + xs =~= x);
        }
    }
}

/// Splitting a suffix: when the text from `pos` on reads `a` then `b`,
/// the text from `pos + |a|` on reads `b`, and `a` stands at `pos`.
pub proof fn lemma_skip_shift(t: Seq<char>, pos: int, a: Seq<char>, b: Seq<char>)
    requires
        0 <= pos <= t.len(),
        t.skip(pos) == a + b,
    ensures
        t.skip(pos + a.len()) == b,
        forall|j: int| 0 <= j < a.len() ==> t[pos + j] == #[trigger] a[j],
{
    assert(t.skip(pos).len() == t.len() - pos);
    assert forall|j: int| 0 <= j < a.len() implies t[pos + j] == #[trigger] a[j] by {
        assert(t.skip(pos)[j] == t[pos + j]);
        assert((a + b)[j] == a[j]);
    }
    assert(t.skip(pos + a.len()).len() == b.len());
    assert forall|j: int| 0 <= j < b.len() implies t.skip(pos + a.len())[j] == #[trigger] b[j] by {
        assert(t.skip(pos + a.len())[j] == t[pos + a.len() + j]);
        assert(t.skip(pos)[a.len() + j] == t[pos + a.len() + j]);
        assert((a + b)[a.len() + j] == b[j]);
    }
    assert(t.skip(pos + a.len()) =~= b);
}

/// The literal `lit` stands at position `pos` of the text.
pub open spec fn spec_lit_at(t: Seq<char>, pos: int, lit: Seq<char>) -> bool {
    &&& 0 <= pos
    &&& pos + lit.len() <= t.len()
    &&& t.subrange(pos, pos + lit.len()) == lit
}

/// For two or more items, the list opens with its first string, a comma,
/// and the list of the rest.
pub proof fn lemma_list_front(items: Seq<Seq<char>>)
    requires
        items.len() >= 2,
    ensures
        spec_json_string_list(items) == spec_json_string(items[0]) + seq![',']
            + spec_json_string_list(items.drop_first()),
    decreases items.len(),
{
    if items.len() == 2 {
        assert(items.drop_last() =~= seq![items[0]]);
        assert(items.drop_first() =~= seq![items[1]]);
        assert(spec_json_string_list(seq![items[0]]) == spec_json_string(items[0]));
        assert(spec_json_string_list(seq![items[1]]) == spec_json_string(items[1]));
        assert(items.last() == items[1]);
    } else {
        let dl = items.drop_last();
        lemma_list_front(dl);
        assert(items.drop_first().drop_last() =~= dl.drop_first());
        assert(items.drop_first().last() == items.last());
        assert(items.drop_first().len() >= 2);
        assert(dl[0] == items[0]);
        assert(spec_json_string_list(items) == spec_json_string_list(dl) + seq![',']
            + spec_json_string(items.last()));
        assert(spec_json_string_list(items.drop_first()) == spec_json_string_list(dl.drop_first())
            + seq![','] + spec_json_string(items.last()));
        assert(spec_json_string(items[0]) + seq![','] + (spec_json_string_list(dl.drop_first())
            + seq![','] + spec_json_string(items.last())) =~= (spec_json_string(items[0])
            + seq![','] + spec_json_string_list(dl.drop_first())) + seq![','] + spec_json_string(
            items.last(),
        ));
    }
}

/// Read one or more comma-separated string literals followed by the
/// closing bracket: the decoded items and the position just past the
/// bracket.
pub open spec fn spec_parse_string_items(t: Seq<char>, pos: int) -> Option<(Seq<Seq<char>>, int)>
    decreases t.len() - pos,
{
    match spec_parse_json_string(t, pos) {
        None => None,
        Some((s, np)) => {
            if np >= t.len() || np <= pos {
                None
            } else if t[np] == ']' {
                Some((seq![s], np + 1))
            } else if t[np] == ',' {
                match spec_parse_string_items(t, np + 1) {
                    Some((ss, e)) => Some((seq![s] + ss, e)),
                    None => None,
                }
            } else {
                None
            }
        },
    }
}

/// Read a possibly empty bracketed string list from just after its
/// opening bracket.
pub open spec fn spec_parse_string_array(t: Seq<char>, pos: int) -> Option<(Seq<Seq<char>>, int)> {
    if 0 <= pos < t.len() && t[pos] == ']' {
        Some((Seq::<Seq<char>>::empty(), pos + 1))
    } else {
        spec_parse_string_items(t, pos)
    }
}

/// Reading an emitted string list followed by the closing bracket
/// recovers the items exactly and stops just past the bracket.
pub proof fn lemma_parse_array_of_emit(
    t: Seq<char>,
    pos: int,
    items: Seq<Seq<char>>,
    tail: Seq<char>,
)
    requires
        0 <= pos <= t.len(),
        t.skip(pos) == spec_json_string_list(items) + seq![']'] + tail,
    ensures
        spec_parse_string_array(t, pos) == Some((items, t.len() - tail.len())),
    decreases items.len(),
{
    assert(t.skip(pos).len() == t.len() - pos);
    if items.len() == 0 {
        assert(spec_json_string_list(items) =~= Seq::<char>::empty());
        assert(t.skip(pos) =~= seq![']'] + tail);
        assert(t.skip(pos)[0] == t[pos]);
        assert(t[pos] == ']');
    } else {
        let first = items[0];
        let rest_emit: Seq<char> = if items.len() == 1 {
            seq![']'] + tail
        } else {
            seq![','] + spec_json_string_list(items.drop_first()) + seq![']'] + tail
        };
        if items.len() == 1 {
            assert(spec_json_string_list(items) == spec_json_string(first));
            assert(t.skip(pos) =~= spec_json_string(first) + rest_emit);
        } else {
            lemma_list_front(items);
            assert(t.skip(pos) =~= spec_json_string(first) + rest_emit);
        }
        assert(spec_json_string(first) =~= seq!['"'] + (spec_json_escape(first) + seq!['"']));
        assert(t.skip(pos) =~= seq!['"'] + (spec_json_escape(first) + seq!['"'] + rest_emit));
        lemma_skip_shift(
            t,
            pos,
            seq!['"'],
            spec_json_escape(first) + seq!['"'] + rest_emit,
        );
        assert(t[pos + 0] == seq!['"'][0]);
        assert(t[pos] == '"');
        lemma_parse_body_of_escape(t, pos + 1, first, rest_emit);
        let np = t.len() - rest_emit.len();
        assert(spec_parse_json_string(t, pos) == Some((first, np)));
        lemma_parse_body_advances(t, pos + 1);
        assert(pos < np <= t.len());
        lemma_skip_shift(t, pos + 1, spec_json_escape(first) + seq!['"'], rest_emit);
        assert(pos + 1 + (spec_json_escape(first).len() + 1) == np);
        assert(t.skip(np) == rest_emit);
        assert(np < t.len());
        assert(t.skip(np)[0] == t[np]);
        if items.len() == 1 {
            assert(t[np] == ']');
            assert(seq![first] =~= items);
            assert(np + 1 == t.len() - tail.len());
        } else {
            assert(rest_emit[0] == ',') by {
                assert(rest_emit =~= seq![','] + (spec_json_string_list(items.drop_first())
                    + seq![']'] + tail));
            }
            assert(t[np] == ',');
            assert(t[np] != ']');
            assert(t.skip(np) == seq![','] + (spec_json_string_list(items.drop_first())
                + seq![']'] + tail));
            lemma_skip_shift(
                t,
                np,
                seq![','],
                spec_json_string_list(items.drop_first()) + seq![']'] + tail,
            );
            lemma_parse_array_of_emit(t, np + 1, items.drop_first(), tail);
            assert(items.drop_first().len() >= 1);
            assert(spec_json_string_list(items.drop_first()).len() >= 1) by {
                lemma_string_list_nonempty(items.drop_first());
            }
            assert(np + 1 < t.len());
            assert(t.skip(np + 1)[0] == t[np + 1]);
            assert(t[np + 1] == '"') by {
                assert(spec_json_string_list(items.drop_first())[0] == '"') by {
                    lemma_string_list_opens_with_quote(items.drop_first());
                }
            }
            assert(spec_parse_string_array(t, np + 1) == spec_parse_string_items(t, np + 1));
            assert(spec_parse_string_items(t, np + 1) == Some(
                (items.drop_first(), t.len() - tail.len()),
            ));
            assert(seq![first] + items.drop_first() =~= items);
        }
    }
}

/// A list of at least one item is a non-empty text.
proof fn lemma_string_list_nonempty(items: Seq<Seq<char>>)
    requires
        items.len() >= 1,
    ensures
        spec_json_string_list(items).len() >= 2,
    decreases items.len(),
{
    if items.len() > 1 {
        lemma_string_list_nonempty(items.drop_last());
    }
}

/// A list of at least one item opens with a quote.
proof fn lemma_string_list_opens_with_quote(items: Seq<Seq<char>>)
    requires
        items.len() >= 1,
    ensures
        spec_json_string_list(items)[0] == '"',
    decreases items.len(),
{
    if items.len() == 1 {
    } else {
        lemma_string_list_opens_with_quote(items.drop_last());
        lemma_string_list_nonempty(items.drop_last());
    }
}

/// A control character is rebuilt exactly from its two hex nibbles.
proof fn lemma_char_rebuild(h1: u8, h2: u8, c: char)
    requires
        (c as u32) < 32,
        h1 == ((c as u32) / 16) as u8,
        h2 == ((c as u32) % 16) as u8,
    ensures
        (((16 * h1 + h2) as u8) as char) == c,
{
    let v = c as u32;
    vstd::arithmetic::div_mod::lemma_fundamental_div_mod(v as int, 16);
    assert(16 * h1 + h2 == v);
    assert(((16 * h1 + h2) as u8) as u32 == v);
}

/// Whether the literal stands at position `pos` of the text.
pub fn lit_at(t: &str, pos: usize, lit: &str) -> (r: bool)
    requires
        pos <= t@.len(),
        t@.len() <= usize::MAX,
    ensures
        r == spec_lit_at(t@, pos as int, lit@),
{
    let n = t.unicode_len();
    let m = lit.unicode_len();
    if m > n - pos {
        return false;
    }
    let mut j: usize = 0;
    while j < m
        invariant
            j <= m,
            pos + m <= n,
            n == t@.len(),
            m == lit@.len(),
            forall|k: int| 0 <= k < j ==> t@[pos + k] == #[trigger] lit@[k],
        decreases m - j,
    {
        if t.get_char(pos + j) != lit.get_char(j) {
            proof {
                if spec_lit_at(t@, pos as int, lit@) {
                    assert(t@.subrange(pos as int, pos + lit@.len())[j as int] == t@[pos + j]);
                }
            }
            return false;
        }
        j = j + 1;
    }
    proof {
        assert(t@.subrange(pos as int, pos + lit@.len()) =~= lit@);
    }
    true
}

/// The nibble value of a hex digit character.
pub(crate) fn hex_val_char(c: char) -> (r: Option<u8>)
    ensures
        r == crate::hexcodec::hex_char_val(c),
{
    if c == '0' {
        Some(0)
    } else if c == '1' {
        Some(1)
    } else if c == '2' {
        Some(2)
    } else if c == '3' {
        Some(3)
    } else if c == '4' {
        Some(4)
    } else if c == '5' {
        Some(5)
    } else if c == '6' {
        Some(6)
    } else if c == '7' {
        Some(7)
    } else if c == '8' {
        Some(8)
    } else if c == '9' {
        Some(9)
    } else if c == 'a' || c == 'A' {
        Some(10)
    } else if c == 'b' || c == 'B' {
        Some(11)
    } else if c == 'c' || c == 'C' {
        Some(12)
    } else if c == 'd' || c == 'D' {
        Some(13)
    } else if c == 'e' || c == 'E' {
        Some(14)
    } else if c == 'f' || c == 'F' {
        Some(15)
    } else {
        None
    }
}

/// Read the escaped content of a JSON string from just after its opening
/// quote.
fn parse_string_body(t: &str, pos: usize) -> (r: Option<(String, usize)>)
    requires
        pos <= t@.len(),
        t@.len() <= usize::MAX,
    ensures
        match r {
            Some(p) => spec_parse_string_body(t@, pos as int) == Some((p.0@, p.1 as int)) && pos
                < p.1 <= t@.len(),
            None => spec_parse_string_body(t@, pos as int) is None,
        },
    decreases t@.len() - pos,
{
    let n = t.unicode_len();
    if pos >= n {
        return None;
    }
    let c = t.get_char(pos);
    if c == '"' {
        return Some((String::new(), pos + 1));
    }
    if c != '\\' {
        match parse_string_body(t, pos + 1) {
            Some((s, np)) => {
                let mut out = String::new();
                string_push(&mut out, c);
                out.append(s.as_str());
                proof {
                    assert(out@ =~= seq![t@[pos as int]] + s@);
                }
                return Some((out, np));
            },
            None => {
                return None;
            },
        }
    }
    if pos + 1 >= n {
        return None;
    }
    let c1 = t.get_char(pos + 1);
    if c1 == '"' || c1 == '\\' {
        match parse_string_body(t, pos + 2) {
            Some((s, np)) => {
                let mut out = String::new();
                string_push(&mut out, c1);
                out.append(s.as_str());
                proof {
                    assert(out@ =~= seq![t@[pos + 1]] + s@);
                }
                Some((out, np))
            },
            None => None,
        }
    } else if c1 == 'u' {
        if n - pos < 6 {
            return None;
        }
        let h1 = match hex_val_char(t.get_char(pos + 4)) {
            Some(h) => h,
            None => {
                return None;
            },
        };
        let h2 = match hex_val_char(t.get_char(pos + 5)) {
            Some(h) => h,
            None => {
                return None;
            },
        };
        if t.get_char(pos + 2) != '0' || t.get_char(pos + 3) != '0' {
            return None;
        }
        match parse_string_body(t, pos + 6) {
            Some((s, np)) => {
                let mut out = String::new();
                string_push(&mut out, ((16 * h1 + h2) as u8) as char);
                out.append(s.as_str());
                proof {
                    assert(out@ =~= seq![((16 * h1 + h2) as u8) as char] + s@);
                }
                Some((out, np))
            },
            None => None,
        }
    } else {
        None
    }
}

/// Read a whole JSON string literal at `pos`.
pub fn parse_json_string(t: &str, pos: usize) -> (r: Option<(String, usize)>)
    requires
        pos <= t@.len(),
        t@.len() <= usize::MAX,
    ensures
        match r {
            Some(p) => spec_parse_json_string(t@, pos as int) == Some((p.0@, p.1 as int)) && pos
                < p.1 <= t@.len(),
            None => spec_parse_json_string(t@, pos as int) is None,
        },
{
    if pos < t.unicode_len() && t.get_char(pos) == '"' {
        parse_string_body(t, pos + 1)
    } else {
        None
    }
}

/// Read one or more comma-separated string literals and the closing
/// bracket.
fn parse_string_items(t: &str, pos: usize) -> (r: Option<(Vec<String>, usize)>)
    requires
        pos <= t@.len(),
        t@.len() <= usize::MAX,
    ensures
        match r {
            Some(p) => spec_parse_string_items(t@, pos as int) == Some(
                (p.0.deep_view(), p.1 as int),
            ) && pos < p.1 <= t@.len(),
            None => spec_parse_string_items(t@, pos as int) is None,
        },
    decreases t@.len() - pos,
{
    let (s, np) = match parse_json_string(t, pos) {
        Some(p) => p,
        None => {
            return None;
        },
    };
    if np >= t.unicode_len() {
        return None;
    }
    let c = t.get_char(np);
    if c == ']' {
        let mut items: Vec<String> = Vec::new();
        items.push(s);
        proof {
            assert(items.deep_view() =~= seq![items@[0]@]);
        }
        Some((items, np + 1))
    } else if c == ',' {
        match parse_string_items(t, np + 1) {
            Some((mut items, e)) => {
                items.insert(0, s);
                proof {
                    assert(items.deep_view() =~= seq![items@[0]@] + items.deep_view().drop_first());
                    assert(items.deep_view().drop_first() =~= old_items_view(items@));
                }
                Some((items, e))
            },
            None => None,
        }
    } else {
        None
    }
}

/// The views of all entries after the first.
spec fn old_items_view(items: Seq<String>) -> Seq<Seq<char>> {
    items.drop_first().map(|i: int, s: String| s@)
}

/// Read a possibly empty bracketed string list from just after its
/// opening bracket.
pub fn parse_string_array(t: &str, pos: usize) -> (r: Option<(Vec<String>, usize)>)
    requires
        pos <= t@.len(),
        t@.len() <= usize::MAX,
    ensures
        match r {
            Some(p) => spec_parse_string_array(t@, pos as int) == Some(
                (p.0.deep_view(), p.1 as int),
            ) && pos < p.1 <= t@.len(),
            None => spec_parse_string_array(t@, pos as int) is None,
        },
{
    if pos < t.unicode_len() && t.get_char(pos) == ']' {
        let items: Vec<String> = Vec::new();
        proof {
            assert(items.deep_view() =~= Seq::<Seq<char>>::empty());
        }
        Some((items, pos + 1))
    } else {
        parse_string_items(t, pos)
    }
}

/// The position of the first non-digit character at or after `pos`.
pub fn digit_run_end(t: &str, pos: usize) -> (r: usize)
    requires
        pos <= t@.len(),
        t@.len() <= usize::MAX,
    ensures
        r as int == spec_digit_run_end(t@, pos as int),
        pos <= r <= t@.len(),
        forall|k: int| pos <= k < r ==> dec_char_val(t@[k]) is Some,
{
    let n = t.unicode_len();
    let mut i: usize = pos;
    while i < n && dec_val_exec(t.get_char(i)) < 10
        invariant
            pos <= i <= n,
            n == t@.len(),
            spec_digit_run_end(t@, pos as int) == spec_digit_run_end(t@, i as int),
            forall|k: int| pos <= k < i ==> dec_char_val(t@[k]) is Some,
        decreases n - i,
    {
        i = i + 1;
    }
    proof {
        if i < n {
            assert(dec_char_val(t@[i as int]) is None);
        }
    }
    i
}

/// The value of a decimal digit character, or 10 for any other.
fn dec_val_exec(c: char) -> (r: u8)
    ensures
        r < 10 ==> dec_char_val(c) == Some(r),
        r == 10 ==> dec_char_val(c) is None,
        r <= 10,
{
    if c == '0' {
        0
    } else if c == '1' {
        1
    } else if c == '2' {
        2
    } else if c == '3' {
        3
    } else if c == '4' {
        4
    } else if c == '5' {
        5
    } else if c == '6' {
        6
    } else if c == '7' {
        7
    } else if c == '8' {
        8
    } else if c == '9' {
        9
    } else {
        10
    }
}

/// The value of an all-digit range of the text; `None` when it exceeds
/// the accumulator range.
pub fn dec_val_of_range(t: &str, from: usize, to: usize) -> (r: Option<u128>)
    requires
        from <= to <= t@.len(),
        t@.len() <= usize::MAX,
        forall|k: int| from <= k < to ==> dec_char_val(t@[k]) is Some,
    ensures
        match r {
            Some(v) => v as nat == spec_dec_val(t@.subrange(from as int, to as int)),
            None => spec_dec_val(t@.subrange(from as int, to as int)) > u128::MAX,
        },
{
    let mut v: u128 = 0;
    let mut overflow = false;
    let mut i: usize = from;
    proof {
        assert(t@.subrange(from as int, from as int).len() == 0);
    }
    while i < to
        invariant
            from <= i <= to <= t@.len(),
            t@.len() <= usize::MAX,
            forall|k: int| from <= k < to ==> dec_char_val(t@[k]) is Some,
            !overflow ==> v as nat == spec_dec_val(t@.subrange(from as int, i as int)),
            overflow ==> spec_dec_val(t@.subrange(from as int, i as int)) > u128::MAX,
        decreases to - i,
    {
        let d = dec_val_exec(t.get_char(i));
        proof {
            assert(dec_char_val(t@[i as int]) is Some);
            assert(d < 10);
            assert(t@.subrange(from as int, i + 1).drop_last() =~= t@.subrange(
                from as int,
                i as int,
            ));
            assert(t@.subrange(from as int, i + 1).last() == t@[i as int]);
        }
        if !overflow {
            if v > (u128::MAX - (d as u128)) / 10 {
                proof {
                    lemma_step_overflows(v as nat, d as nat);
                }
                overflow = true;
            } else {
                v = v * 10 + (d as u128);
            }
        } else {
            proof {
                let ds = t@.subrange(from as int, i as int);
                assert(spec_dec_val(ds.push(t@[i as int])) >= spec_dec_val(ds)) by {
                    assert(ds.push(t@[i as int]).drop_last() =~= ds);
                }
                assert(t@.subrange(from as int, i + 1) =~= ds.push(t@[i as int]));
            }
        }
        i = i + 1;
    }
    if overflow {
        None
    } else {
        Some(v)
    }
}

/// The value of a decimal digit character; `None` for any other character.
pub open spec fn dec_char_val(c: char) -> Option<u8> {
    if c == '0' {
        Some(0u8)
    } else if c == '1' {
        Some(1u8)
    } else if c == '2' {
        Some(2u8)
    } else if c == '3' {
        Some(3u8)
    } else if c == '4' {
        Some(4u8)
    } else if c == '5' {
        Some(5u8)
    } else if c == '6' {
        Some(6u8)
    } else if c == '7' {
        Some(7u8)
    } else if c == '8' {
        Some(8u8)
    } else if c == '9' {
        Some(9u8)
    } else {
        None
    }
}

/// Reading a decimal digit character gives the value it was written from.
pub proof fn lemma_dec_digit_val(d: u8)
    requires
        d < 10,
    ensures
        dec_char_val(hex_digit(d)) == Some(d),
{
}

/// Every character of a printed number is a decimal digit.
pub proof fn lemma_dec_digits_all_digits(n: nat)
    ensures
        spec_dec_digits(n).len() >= 1,
        forall|i: int|
            0 <= i < spec_dec_digits(n).len() ==> dec_char_val(#[trigger] spec_dec_digits(n)[i])
                is Some,
    decreases n,
{
    if n < 10 {
        lemma_dec_digit_val(n as u8);
    } else {
        lemma_dec_digits_all_digits(n / 10);
        lemma_dec_digit_val((n % 10) as u8);
        assert forall|i: int| 0 <= i < spec_dec_digits(n).len() implies dec_char_val(
            #[trigger] spec_dec_digits(n)[i],
        ) is Some by {
            if i < spec_dec_digits(n / 10).len() {
                assert(spec_dec_digits(n)[i] == spec_dec_digits(n / 10)[i]);
            } else {
                assert(spec_dec_digits(n)[i] == hex_digit((n % 10) as u8));
            }
        }
    }
}

/// Reading back a printed number gives the number.
pub proof fn lemma_dec_val_of_digits(n: nat)
    ensures
        spec_dec_val(spec_dec_digits(n)) == n,
    decreases n,
{
    if n < 10 {
        lemma_dec_digit_val(n as u8);
        assert(spec_dec_digits(n).drop_last() =~= Seq::<char>::empty());
        assert(spec_dec_val(Seq::<char>::empty()) == 0);
        assert(spec_dec_digits(n).last() == hex_digit(n as u8));
    } else {
        lemma_dec_val_of_digits(n / 10);
        lemma_dec_digits_all_digits(n / 10);
        lemma_dec_digit_val((n % 10) as u8);
        assert(spec_dec_digits(n).drop_last() =~= spec_dec_digits(n / 10));
        assert(spec_dec_digits(n).last() == hex_digit((n % 10) as u8));
        vstd::arithmetic::div_mod::lemma_fundamental_div_mod(n as int, 10);
    }
}

/// The position of the first non-digit character at or after `pos`.
pub open spec fn spec_digit_run_end(t: Seq<char>, pos: int) -> int
    decreases t.len() - pos,
{
    if pos < 0 || pos >= t.len() || dec_char_val(t[pos]) is None {
        pos
    } else {
        spec_digit_run_end(t, pos + 1)
    }
}

/// The digit run never moves backwards nor past the text's end.
pub proof fn lemma_digit_run_bounds(t: Seq<char>, pos: int)
    requires
        0 <= pos <= t.len(),
    ensures
        pos <= spec_digit_run_end(t, pos) <= t.len(),
    decreases t.len() - pos,
{
    if pos < t.len() && dec_char_val(t[pos]) is Some {
        lemma_digit_run_bounds(t, pos + 1);
    }
}

/// Scanning a digit string followed by a non-digit stops exactly at the
/// boundary and reads the digits back.
pub proof fn lemma_digit_run_of_emit(t: Seq<char>, pos: int, ds: Seq<char>, tail: Seq<char>)
    requires
        0 <= pos <= t.len(),
        t.skip(pos) == ds + tail,
        forall|i: int| 0 <= i < ds.len() ==> dec_char_val(#[trigger] ds[i]) is Some,
        tail.len() == 0 || dec_char_val(tail[0]) is None,
    ensures
        spec_digit_run_end(t, pos) == pos + ds.len(),
        t.subrange(pos, pos + ds.len()) == ds,
    decreases ds.len(),
{
    lemma_skip_shift(t, pos, ds, tail);
    assert(t.skip(pos).len() == t.len() - pos);
    assert(t.len() - pos == ds.len() + tail.len());
    assert(t.subrange(pos, pos + ds.len()) =~= ds);
    if ds.len() == 0 {
        if pos < t.len() {
            assert(t.skip(pos) =~= tail);
            assert(t.skip(pos)[0] == t[pos]);
            assert(dec_char_val(t[pos]) is None);
        }
    } else {
        assert(pos < t.len()) by {
            assert(t.skip(pos).len() == t.len() - pos);
        }
        assert(t[pos + 0] == ds[0]);
        assert(dec_char_val(t[pos]) is Some);
        assert(t.skip(pos) =~= seq![ds[0]] + (ds.drop_first() + tail));
        lemma_skip_shift(t, pos, seq![ds[0]], ds.drop_first() + tail);
        assert(t.skip(pos + 1) =~= ds.drop_first() + tail);
        assert(forall|i: int|
            0 <= i < ds.drop_first().len() ==> dec_char_val(#[trigger] ds.drop_first()[i])
                is Some) by {
            assert(forall|i: int|
                0 <= i < ds.drop_first().len() ==> ds.drop_first()[i] == ds[i + 1]);
        }
        lemma_digit_run_of_emit(t, pos + 1, ds.drop_first(), tail);
    }
}

/// The decimal digit characters of `s`, in order, everything else dropped.
pub open spec fn spec_digits_of(s: Seq<char>) -> Seq<char>
    decreases s.len(),
{
    if s.len() == 0 {
        Seq::<char>::empty()
    } else if dec_char_val(s.last()) is Some {
        spec_digits_of(s.drop_last()).push(s.last())
    } else {
        spec_digits_of(s.drop_last())
    }
}

/// The value a string of decimal digit characters stands for.
pub open spec fn spec_dec_val(ds: Seq<char>) -> nat
    decreases ds.len(),
{
    if ds.len() == 0 {
        0
    } else {
        (10 * spec_dec_val(ds.drop_last()) + match dec_char_val(ds.last()) {
            Some(d) => d as nat,
            None => 0,
        }) as nat
    }
}

/// The integer read of a timestamp text: drop every character that is not
/// a decimal digit and read the rest as a decimal number. `None` when no
/// digit is left or the value exceeds the target range.
pub fn parse_digits_u128(s: &str) -> (r: Option<u128>)
    ensures
        match r {
            Some(v) => spec_digits_of(s@).len() > 0 && v as nat == spec_dec_val(spec_digits_of(s@)),
            None => spec_digits_of(s@).len() == 0 || spec_dec_val(spec_digits_of(s@)) > u128::MAX,
        },
{
    let n = s.unicode_len();
    let mut v: u128 = 0;
    let mut seen = false;
    let mut overflow = false;
    let mut i: usize = 0;
    while i < n
        invariant
            i <= n,
            n == s@.len(),
            seen == (spec_digits_of(s@.take(i as int)).len() > 0),
            !overflow ==> v as nat == spec_dec_val(spec_digits_of(s@.take(i as int))),
            overflow ==> spec_dec_val(spec_digits_of(s@.take(i as int))) > u128::MAX,
        decreases n - i,
    {
        let c = s.get_char(i);
        proof {
            assert(s@.take(i + 1).drop_last() =~= s@.take(i as int));
            assert(s@.take(i + 1).last() == s@[i as int]);
        }
        let d: u8 = if c == '0' {
            0
        } else if c == '1' {
            1
        } else if c == '2' {
            2
        } else if c == '3' {
            3
        } else if c == '4' {
            4
        } else if c == '5' {
            5
        } else if c == '6' {
            6
        } else if c == '7' {
            7
        } else if c == '8' {
            8
        } else if c == '9' {
            9
        } else {
            10
        };
        if d < 10 {
            proof {
                let ds = spec_digits_of(s@.take(i as int));
                let ch = s@[i as int];
                assert(dec_char_val(ch) == Some(d));
                assert(ds.push(ch).drop_last() =~= ds);
                assert(ds.push(ch).last() == ch);
            }
            seen = true;
            if !overflow {
                if v > (u128::MAX - (d as u128)) / 10 {
                    proof {
                        lemma_step_overflows(v as nat, d as nat);
                    }
                    overflow = true;
                } else {
                    v = v * 10 + (d as u128);
                }
            } else {
                proof {
                    let ds = spec_digits_of(s@.take(i as int));
                    assert(spec_dec_val(ds.push(s@[i as int])) >= spec_dec_val(ds)) by {
                        assert(ds.push(s@[i as int]).drop_last() =~= ds);
                    }
                }
            }
        }
        i = i + 1;
    }
    proof {
        assert(s@.take(n as int) =~= s@);
    }
    if !seen || overflow {
        None
    } else {
        Some(v)
    }
}

/// If one more digit cannot be taken without leaving `u128`, the extended
/// number exceeds `u128`.
proof fn lemma_step_overflows(v: nat, d: nat)
    requires
        d < 10,
        v > (u128::MAX - d) / 10,
    ensures
        10 * v + d > u128::MAX,
{
    let m = (u128::MAX - d) as int;
    vstd::arithmetic::div_mod::lemma_fundamental_div_mod(m, 10);
    assert(m == 10 * (m / 10) + m % 10);
    assert(m % 10 < 10);
    assert(v >= m / 10 + 1);
    assert(10 * v >= 10 * (m / 10 + 1)) by (nonlinear_arith)
        requires
            v >= m / 10 + 1,
    ;
}

} // verus!
