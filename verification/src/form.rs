//! The `application/x-www-form-urlencoded` wire format: joining scope lists,
//! percent-encoding key/value pairs into a query or body string, and decoding
//! such a string back into pairs.

use vstd::prelude::*;
use vstd::string::StrSliceExecFns;
use vstd::string::StringExecFns;
use vstd::utf8::char_is_scalar;
use vstd::utf8::char_u32_cast;
use vstd::utf8::encode_scalar;

verus! {

/// Relies on std's `String::push`: appends the given character to the end of
/// the string.
pub assume_specification[ String::push ](s: &mut String, c: char)
    ensures
        final(s)@ == old(s)@.push(c),
;

/// The view of a sequence of owned string pairs.
pub open spec fn pairs_view(q: Seq<(String, String)>) -> Seq<(Seq<char>, Seq<char>)> {
    q.map_values(|p: (String, String)| (p.0@, p.1@))
}

/// The items joined with a single `,` between neighbours.
pub open spec fn spec_join_comma(items: Seq<Seq<char>>) -> Seq<char>
    decreases items.len(),
{
    if items.len() == 0 {
        Seq::empty()
    } else if items.len() == 1 {
        items[0]
    } else {
        spec_join_comma(items.drop_last()) + seq![','] + items.last()
    }
}

/// An empty list joins to the empty string: asking for no scopes renders as
/// an empty `scope` parameter value.
pub proof fn lemma_join_comma_empty()
    ensures
        spec_join_comma(Seq::<Seq<char>>::empty()) == Seq::<char>::empty(),
{
}

/// Joins the strings with `,`, as a scope list is rendered in requests.
pub fn join_comma(items: &Vec<String>) -> (r: String)
    ensures
        r@ == spec_join_comma(items@.map_values(|s: String| s@)),
{
    let ghost views = items@.map_values(|s: String| s@);
    let mut r = String::new();
    let mut i: usize = 0;
    while i < items.len()
        invariant
            i <= items.len(),
            views == items@.map_values(|s: String| s@),
            r@ == spec_join_comma(views.take(i as int)),
        decreases items.len() - i,
    {
        if i > 0 {
            r.append(",");
        }
        r.append(items[i].as_str());
        proof {
            reveal_strlit(",");
            let t = views.take(i + 1 as int);
            assert(t.drop_last() =~= views.take(i as int));
            assert(t.last() == views[i as int]);
            assert(t[0] == views[0]);
        }
        i = i + 1;
    }
    proof {
        assert(views.take(items@.len() as int) =~= views);
    }
    r
}

/// Digit `d` written as an upper-case hexadecimal character.
pub open spec fn hex_upper(d: u8) -> char
    recommends
        d < 16,
{
    if d < 10 {
        ((d + 0x30) as u8) as char
    } else {
        ((d + 0x37) as u8) as char
    }
}

/// `%XY` for the byte `b`, with upper-case hexadecimal digits.
pub open spec fn percent_byte(b: u8) -> Seq<char> {
    seq!['%', hex_upper(b / 16), hex_upper(b % 16)]
}

/// Each byte rendered as `%XY`, in order.
pub open spec fn percent_bytes(bs: Seq<u8>) -> Seq<char>
    decreases bs.len(),
{
    if bs.len() == 0 {
        Seq::empty()
    } else {
        percent_bytes(bs.drop_last()) + percent_byte(bs.last())
    }
}

/// Characters that form encoding leaves as they are.
pub open spec fn is_form_unreserved(c: char) -> bool {
    ('a' <= c && c <= 'z') || ('A' <= c && c <= 'Z') || ('0' <= c && c <= '9') || c == '*' || c
        == '-' || c == '.' || c == '_'
}

/// The form encoding of one character: space becomes `+`, unreserved
/// characters stand as they are, and every other character is the
/// percent-encoding of its UTF-8 bytes.
pub open spec fn encode_char(c: char) -> Seq<char> {
    if c == ' ' {
        seq!['+']
    } else if is_form_unreserved(c) {
        seq![c]
    } else {
        percent_bytes(encode_scalar(c as u32))
    }
}

/// The form encoding of a string, character by character.
pub open spec fn encode_str(s: Seq<char>) -> Seq<char>
    decreases s.len(),
{
    if s.len() == 0 {
        Seq::empty()
    } else {
        encode_str(s.drop_last()) + encode_char(s.last())
    }
}

/// The form encoding of one `key=value` pair.
pub open spec fn encode_pair(p: (Seq<char>, Seq<char>)) -> Seq<char> {
    encode_str(p.0) + seq!['='] + encode_str(p.1)
}

/// The form encoding of a pair list, pairs joined with `&`.
pub open spec fn spec_encode_form(ps: Seq<(Seq<char>, Seq<char>)>) -> Seq<char>
    decreases ps.len(),
{
    if ps.len() == 0 {
        Seq::empty()
    } else if ps.len() == 1 {
        encode_pair(ps[0])
    } else {
        spec_encode_form(ps.drop_last()) + seq!['&'] + encode_pair(ps.last())
    }
}

/// The upper-case hexadecimal character for a digit below 16.
fn hex_char(d: u8) -> (c: char)
    requires
        d < 16,
    ensures
        c == hex_upper(d),
{
    if d < 10 {
        (d + 0x30) as char
    } else {
        (d + 0x37) as char
    }
}

/// Appends `%XY` for the byte `b`.
fn push_percent_byte(out: &mut String, b: u8)
    ensures
        final(out)@ == old(out)@ + percent_byte(b),
{
    out.push('%');
    out.push(hex_char(b / 16));
    out.push(hex_char(b % 16));
    proof {
        assert(final(out)@ =~= old(out)@ + percent_byte(b));
    }
}

/// Appends the form encoding of one character.
fn push_encoded_char(out: &mut String, c: char)
    ensures
        final(out)@ == old(out)@ + encode_char(c),
{
    if c == ' ' {
        out.push('+');
        proof {
            assert(final(out)@ =~= old(out)@ + encode_char(c));
        }
    } else if (('a' <= c && c <= 'z') || ('A' <= c && c <= 'Z') || ('0' <= c && c <= '9') || c
        == '*' || c == '-' || c == '.' || c == '_') {
        out.push(c);
        proof {
            assert(final(out)@ =~= old(out)@ + encode_char(c));
        }
    } else {
        let n = c as u32;
        proof {
            char_is_scalar(c);
        }
        if n < 0x80 {
            assert((n & 0x7F) < 0x100 && (n & 0x7F) == n) by (bit_vector)
                requires
                    n < 0x80,
            ;
            push_percent_byte(out, (n & 0x7F) as u8);
            proof {
                reveal_with_fuel(percent_bytes, 6);
                assert(encode_scalar(n).drop_last() =~= Seq::<u8>::empty());
                assert(final(out)@ =~= old(out)@ + encode_char(c));
            }
        } else if n < 0x800 {
            assert(((n >> 6) & 0x1F) < 0x100 && (n & 0x3F) < 0x100) by (bit_vector);
            let b0: u8 = 0xC0 | (((n >> 6) & 0x1F) as u8);
            let b1: u8 = 0x80 | ((n & 0x3F) as u8);
            push_percent_byte(out, b0);
            push_percent_byte(out, b1);
            proof {
                reveal_with_fuel(percent_bytes, 6);
                let bs = encode_scalar(n);
                assert(bs.drop_last() =~= seq![bs[0]]);
                assert(bs.drop_last().drop_last() =~= Seq::<u8>::empty());
                assert(final(out)@ =~= old(out)@ + encode_char(c));
            }
        } else if n < 0x10000 {
            assert(((n >> 12) & 0x0F) < 0x100 && ((n >> 6) & 0x3F) < 0x100 && (n & 0x3F)
                < 0x100) by (bit_vector);
            let b0: u8 = 0xE0 | (((n >> 12) & 0x0F) as u8);
            let b1: u8 = 0x80 | (((n >> 6) & 0x3F) as u8);
            let b2: u8 = 0x80 | ((n & 0x3F) as u8);
            push_percent_byte(out, b0);
            push_percent_byte(out, b1);
            push_percent_byte(out, b2);
            proof {
                reveal_with_fuel(percent_bytes, 6);
                let bs = encode_scalar(n);
                assert(bs.drop_last() =~= seq![bs[0], bs[1]]);
                assert(bs.drop_last().drop_last() =~= seq![bs[0]]);
                assert(bs.drop_last().drop_last().drop_last() =~= Seq::<u8>::empty());
                assert(final(out)@ =~= old(out)@ + encode_char(c));
            }
        } else {
            assert(((n >> 18) & 0x7) < 0x100 && ((n >> 12) & 0x3F) < 0x100 && ((n >> 6) & 0x3F)
                < 0x100 && (n & 0x3F) < 0x100) by (bit_vector);
            let b0: u8 = 0xF0 | (((n >> 18) & 0x7) as u8);
            let b1: u8 = 0x80 | (((n >> 12) & 0x3F) as u8);
            let b2: u8 = 0x80 | (((n >> 6) & 0x3F) as u8);
            let b3: u8 = 0x80 | ((n & 0x3F) as u8);
            push_percent_byte(out, b0);
            push_percent_byte(out, b1);
            push_percent_byte(out, b2);
            push_percent_byte(out, b3);
            proof {
                reveal_with_fuel(percent_bytes, 6);
                let bs = encode_scalar(n);
                assert(bs.drop_last() =~= seq![bs[0], bs[1], bs[2]]);
                assert(bs.drop_last().drop_last() =~= seq![bs[0], bs[1]]);
                assert(bs.drop_last().drop_last().drop_last() =~= seq![bs[0]]);
                assert(bs.drop_last().drop_last().drop_last().drop_last() =~= Seq::<u8>::empty());
                assert(final(out)@ =~= old(out)@ + encode_char(c));
            }
        }
    }
}

/// Appends the form encoding of a whole string.
fn push_encoded_str(out: &mut String, s: &str)
    ensures
        final(out)@ == old(out)@ + encode_str(s@),
{
    let len = s.unicode_len();
    let mut i: usize = 0;
    while i < len
        invariant
            i <= len,
            len == s@.len(),
            out@ == old(out)@ + encode_str(s@.take(i as int)),
        decreases len - i,
    {
        let c = s.get_char(i);
        push_encoded_char(out, c);
        proof {
            let t = s@.take(i + 1 as int);
            assert(t.drop_last() =~= s@.take(i as int));
            assert(t.last() == s@[i as int]);
        }
        i = i + 1;
    }
    proof {
        assert(s@.take(s@.len() as int) =~= s@);
    }
}

/// Encodes the pairs as an `application/x-www-form-urlencoded` string.
pub fn encode_form(pairs: &Vec<(String, String)>) -> (r: String)
    ensures
        r@ == spec_encode_form(pairs_view(pairs@)),
{
    let ghost views = pairs_view(pairs@);
    let mut r = String::new();
    let mut i: usize = 0;
    while i < pairs.len()
        invariant
            i <= pairs.len(),
            views == pairs_view(pairs@),
            r@ == spec_encode_form(views.take(i as int)),
        decreases pairs.len() - i,
    {
        if i > 0 {
            r.push('&');
        }
        push_encoded_str(&mut r, pairs[i].0.as_str());
        r.push('=');
        push_encoded_str(&mut r, pairs[i].1.as_str());
        proof {
            let t = views.take(i + 1 as int);
            assert(t.drop_last() =~= views.take(i as int));
            assert(t.last() == views[i as int]);
            assert(t[0] == views[0]);
            assert(r@ =~= spec_encode_form(views.take(i + 1 as int)));
        }
        i = i + 1;
    }
    proof {
        assert(views.take(pairs@.len() as int) =~= views);
    }
    r
}

/// The pieces of `s` between occurrences of `sep`, as Rust's `split` yields
/// them: an empty string has the single empty piece, and a trailing separator
/// ends with an empty piece.
pub open spec fn split_on(s: Seq<char>, sep: char) -> Seq<Seq<char>>
    decreases s.len(),
{
    if s.len() == 0 {
        seq![Seq::empty()]
    } else {
        let prev = split_on(s.drop_last(), sep);
        if s.last() == sep {
            prev.push(Seq::empty())
        } else {
            prev.drop_last().push(prev.last().push(s.last()))
        }
    }
}

/// A character whose code is an upper- or lower-case hexadecimal digit.
pub open spec fn is_hex_digit(c: char) -> bool {
    let n = c as u32;
    (0x30 <= n && n <= 0x39) || (0x41 <= n && n <= 0x46) || (0x61 <= n && n <= 0x66)
}

/// The numeric value of a hexadecimal digit character.
pub open spec fn hex_val(c: char) -> u8
    recommends
        is_hex_digit(c),
{
    let n = c as u32;
    if n <= 0x39 {
        (n - 0x30) as u8
    } else if n <= 0x46 {
        (n - 0x37) as u8
    } else {
        (n - 0x57) as u8
    }
}

/// The character whose code is the byte written as `%hl`.
pub open spec fn percent_decoded_char(h: char, l: char) -> char
    recommends
        is_hex_digit(h),
        is_hex_digit(l),
{
    ((hex_val(h) * 16 + hex_val(l)) as u8) as char
}

/// Percent- and plus-decoding of one form component: `+` becomes a space, a
/// well-formed `%XY` becomes the character with code `XY`, and anything else
/// (a malformed `%` included) stands as it is.
pub open spec fn decode_str(s: Seq<char>) -> Seq<char>
    decreases s.len(),
{
    if s.len() == 0 {
        Seq::empty()
    } else if s[0] == '+' {
        seq![' '] + decode_str(s.drop_first())
    } else if s[0] == '%' && s.len() >= 3 && is_hex_digit(s[1]) && is_hex_digit(s[2]) {
        seq![percent_decoded_char(s[1], s[2])] + decode_str(s.skip(3))
    } else {
        seq![s[0]] + decode_str(s.drop_first())
    }
}

/// The piece split at its first `=`: the part before it and the part after
/// it, or nothing when the piece holds no `=`.
pub open spec fn split_once_eq(p: Seq<char>) -> Option<(Seq<char>, Seq<char>)>
    decreases p.len(),
{
    if p.len() == 0 {
        None
    } else if p[0] == '=' {
        Some((Seq::empty(), p.drop_first()))
    } else {
        match split_once_eq(p.drop_first()) {
            None => None,
            Some(kv) => Some((seq![p[0]] + kv.0, kv.1)),
        }
    }
}

/// One `key=value` piece decoded into a pair; a piece without `=` is a key
/// with an empty value.
pub open spec fn decode_piece(p: Seq<char>) -> (Seq<char>, Seq<char>) {
    match split_once_eq(p) {
        Some(kv) => (decode_str(kv.0), decode_str(kv.1)),
        None => (decode_str(p), Seq::empty()),
    }
}

/// The pieces decoded into pairs, in order, empty pieces dropped.
pub open spec fn decode_pieces(ps: Seq<Seq<char>>) -> Seq<(Seq<char>, Seq<char>)>
    decreases ps.len(),
{
    if ps.len() == 0 {
        Seq::empty()
    } else {
        let rest = decode_pieces(ps.drop_last());
        if ps.last().len() == 0 {
            rest
        } else {
            rest.push(decode_piece(ps.last()))
        }
    }
}

/// An `application/x-www-form-urlencoded` string decoded into its key/value
/// pairs, in order.
pub open spec fn spec_decode_form(s: Seq<char>) -> Seq<(Seq<char>, Seq<char>)> {
    decode_pieces(split_on(s, '&'))
}

/// The view of a vector of owned strings.
pub open spec fn strings_view(q: Seq<String>) -> Seq<Seq<char>> {
    q.map_values(|s: String| s@)
}

/// Splits `s` on every occurrence of `sep`.
pub(crate) fn split_string(s: &str, sep: char) -> (r: Vec<String>)
    ensures
        strings_view(r@) == split_on(s@, sep),
{
    let len = s.unicode_len();
    let mut done: Vec<String> = Vec::new();
    let mut cur = String::new();
    let mut i: usize = 0;
    while i < len
        invariant
            i <= len,
            len == s@.len(),
            strings_view(done@).push(cur@) == split_on(s@.take(i as int), sep),
        decreases len - i,
    {
        let c = s.get_char(i);
        proof {
            let t = s@.take(i + 1 as int);
            assert(t.drop_last() =~= s@.take(i as int));
            assert(t.last() == s@[i as int]);
        }
        if c == sep {
            done.push(cur);
            cur = String::new();
            proof {
                assert(strings_view(done@).push(cur@) =~~= split_on(
                    s@.take(i + 1 as int),
                    sep,
                ));
            }
        } else {
            cur.push(c);
            proof {
                let prev = split_on(s@.take(i as int), sep);
                assert(prev.drop_last() =~~= strings_view(done@));
                assert(strings_view(done@).push(cur@) =~~= split_on(
                    s@.take(i + 1 as int),
                    sep,
                ));
            }
        }
        i = i + 1;
    }
    done.push(cur);
    proof {
        assert(s@.take(s@.len() as int) =~= s@);
        assert(strings_view(done@) =~~= split_on(s@, sep));
    }
    done
}

/// Whether the character is a hexadecimal digit.
fn is_hex(c: char) -> (r: bool)
    ensures
        r == is_hex_digit(c),
{
    let n = c as u32;
    (0x30 <= n && n <= 0x39) || (0x41 <= n && n <= 0x46) || (0x61 <= n && n <= 0x66)
}

/// The numeric value of a hexadecimal digit character.
fn hex_value(c: char) -> (r: u8)
    requires
        is_hex_digit(c),
    ensures
        r == hex_val(c),
        r < 16,
{
    let n = c as u32;
    if n <= 0x39 {
        (n - 0x30) as u8
    } else if n <= 0x46 {
        (n - 0x37) as u8
    } else {
        (n - 0x57) as u8
    }
}

/// Percent- and plus-decodes one form component.
fn decode_component(s: &str) -> (r: String)
    ensures
        r@ == decode_str(s@),
{
    let len = s.unicode_len();
    let mut out = String::new();
    let mut i: usize = 0;
    proof {
        assert(s@.skip(0) =~= s@);
        assert(out@ + decode_str(s@) =~= decode_str(s@));
    }
    while i < len
        invariant
            i <= len,
            len == s@.len(),
            out@ + decode_str(s@.skip(i as int)) == decode_str(s@),
        decreases len - i,
    {
        let c = s.get_char(i);
        proof {
            assert(s@.skip(i as int)[0] == s@[i as int]);
            assert(s@.skip(i as int).drop_first() =~= s@.skip(i + 1 as int));
        }
        if c == '+' {
            out.push(' ');
            i = i + 1;
        } else if c == '%' && len - i >= 3 {
            let h = s.get_char(i + 1);
            let l = s.get_char(i + 2);
            proof {
                assert(s@.skip(i as int)[1] == s@[i + 1 as int]);
                assert(s@.skip(i as int)[2] == s@[i + 2 as int]);
                assert(s@.skip(i as int).skip(3) =~= s@.skip(i + 3 as int));
            }
            if is_hex(h) && is_hex(l) {
                let b: u8 = hex_value(h) * 16 + hex_value(l);
                out.push(b as char);
                i = i + 3;
            } else {
                out.push(c);
                i = i + 1;
            }
        } else {
            out.push(c);
            i = i + 1;
        }
    }
    proof {
        assert(s@.skip(s@.len() as int) =~= Seq::<char>::empty());
    }
    out
}

proof fn lemma_split_once_eq_found(p: Seq<char>, j: int)
    requires
        0 <= j < p.len(),
        p[j] == '=',
        forall|k: int| 0 <= k < j ==> p[k] != '=',
    ensures
        split_once_eq(p) == Some((p.take(j), p.skip(j + 1))),
    decreases j,
{
    if j == 0 {
        assert(p.take(0) =~= Seq::empty());
        assert(p.skip(1) =~= p.drop_first());
    } else {
        lemma_split_once_eq_found(p.drop_first(), j - 1);
        assert(seq![p[0]] + p.drop_first().take(j - 1) =~= p.take(j));
        assert(p.drop_first().skip(j) =~= p.skip(j + 1));
    }
}

proof fn lemma_split_once_eq_none(p: Seq<char>)
    requires
        forall|k: int| 0 <= k < p.len() ==> p[k] != '=',
    ensures
        split_once_eq(p) is None,
    decreases p.len(),
{
    if p.len() > 0 {
        lemma_split_once_eq_none(p.drop_first());
    }
}

/// Decodes one non-empty piece into its key/value pair.
fn decode_pair(p: &str) -> (r: (String, String))
    ensures
        (r.0@, r.1@) == decode_piece(p@),
{
    let len = p.unicode_len();
    let mut j: usize = 0;
    while j < len
        invariant
            j <= len,
            len == p@.len(),
            forall|k: int| 0 <= k < j ==> p@[k] != '=',
        decreases len - j,
    {
        if p.get_char(j) == '=' {
            let key = p.substring_char(0, j);
            let val = p.substring_char(j + 1, len);
            proof {
                lemma_split_once_eq_found(p@, j as int);
                assert(key@ =~= p@.take(j as int));
                assert(val@ =~= p@.skip(j + 1 as int));
            }
            return (decode_component(key), decode_component(val));
        }
        j = j + 1;
    }
    proof {
        lemma_split_once_eq_none(p@);
        reveal_strlit("");
    }
    (decode_component(p), String::new())
}

/// Decodes an `application/x-www-form-urlencoded` string into its key/value
/// pairs, in order.
pub fn decode_form(s: &str) -> (r: Vec<(String, String)>)
    ensures
        pairs_view(r@) == spec_decode_form(s@),
{
    let pieces = split_string(s, '&');
    let ghost piece_views = strings_view(pieces@);
    let mut out: Vec<(String, String)> = Vec::new();
    let mut j: usize = 0;
    while j < pieces.len()
        invariant
            j <= pieces.len(),
            piece_views == strings_view(pieces@),
            pairs_view(out@) == decode_pieces(piece_views.take(j as int)),
        decreases pieces.len() - j,
    {
        proof {
            let t = piece_views.take(j + 1 as int);
            assert(t.drop_last() =~= piece_views.take(j as int));
            assert(t.last() == piece_views[j as int]);
        }
        let piece = &pieces[j];
        if piece.as_str().unicode_len() > 0 {
            let kv = decode_pair(piece.as_str());
            out.push(kv);
            proof {
                assert(pairs_view(out@) =~~= decode_pieces(piece_views.take(j + 1 as int)));
            }
        }
        j = j + 1;
    }
    proof {
        assert(piece_views.take(pieces@.len() as int) =~= piece_views);
    }
    out
}

/// A string with no occurrence of the given character.
pub open spec fn free_of(s: Seq<char>, c: char) -> bool {
    forall|i: int| 0 <= i < s.len() ==> s[i] != c
}

/// Every character of the string is ASCII.
pub open spec fn is_ascii_seq(s: Seq<char>) -> bool {
    forall|i: int| 0 <= i < s.len() ==> (s[i] as u32) < 0x80
}

/// Both components of every pair are ASCII.
pub open spec fn is_ascii_pairs(ps: Seq<(Seq<char>, Seq<char>)>) -> bool {
    forall|i: int|
        0 <= i < ps.len() ==> is_ascii_seq(ps[i].0) && is_ascii_seq(ps[i].1)
}

proof fn lemma_percent_bytes_free(bs: Seq<u8>, c: char)
    requires
        c == '&' || c == '=' || c == '+',
    ensures
        free_of(percent_bytes(bs), c),
    decreases bs.len(),
{
    if bs.len() > 0 {
        lemma_percent_bytes_free(bs.drop_last(), c);
        let b = bs.last();
        assert(percent_byte(b)[0] != c);
        assert(percent_byte(b)[1] != c);
        assert(percent_byte(b)[2] != c);
    }
}

proof fn lemma_encode_char_free(k: char, c: char)
    requires
        c == '&' || c == '=',
    ensures
        free_of(encode_char(k), c),
{
    if k != ' ' && !is_form_unreserved(k) {
        lemma_percent_bytes_free(encode_scalar(k as u32), c);
    }
}

proof fn lemma_encode_str_free(s: Seq<char>, c: char)
    requires
        c == '&' || c == '=',
    ensures
        free_of(encode_str(s), c),
    decreases s.len(),
{
    if s.len() > 0 {
        lemma_encode_str_free(s.drop_last(), c);
        lemma_encode_char_free(s.last(), c);
    }
}

proof fn lemma_encode_str_first(s: Seq<char>)
    requires
        s.len() > 0,
    ensures
        encode_str(s) == encode_char(s[0]) + encode_str(s.drop_first()),
    decreases s.len(),
{
    if s.len() == 1 {
        assert(s.drop_last() =~= Seq::<char>::empty());
        assert(s.drop_first() =~= Seq::<char>::empty());
        assert(encode_str(s) =~= encode_char(s[0]) + encode_str(s.drop_first()));
    } else {
        lemma_encode_str_first(s.drop_last());
        assert(s.drop_last().drop_first() =~= s.drop_first().drop_last());
        assert(s.drop_last()[0] == s[0]);
        assert(s.drop_first().last() == s.last());
        assert(encode_str(s) =~= encode_char(s[0]) + encode_str(s.drop_first()));
    }
}

proof fn lemma_decode_encode_char(k: char, t: Seq<char>)
    requires
        (k as u32) < 0x80,
    ensures
        decode_str(encode_char(k) + t) == seq![k] + decode_str(t),
    decreases 0int,
{
    let s = encode_char(k) + t;
    if k == ' ' {
        assert(s[0] == '+');
        assert(s.drop_first() =~= t);
        assert(decode_str(s) =~= seq![k] + decode_str(t));
    } else if is_form_unreserved(k) {
        assert(s[0] == k);
        assert(s.drop_first() =~= t);
        assert(decode_str(s) =~= seq![k] + decode_str(t));
    } else {
        let n = k as u32;
        char_is_scalar(k);
        assert((n & 0x7F) == n) by (bit_vector)
            requires
                n < 0x80,
        ;
        let b = (n & 0x7F) as u8;
        reveal_with_fuel(percent_bytes, 3);
        assert(encode_scalar(n).drop_last() =~= Seq::<u8>::empty());
        assert(encode_char(k) =~= seq!['%', hex_upper(b / 16), hex_upper(b % 16)]);
        let h = hex_upper(b / 16);
        let l = hex_upper(b % 16);
        assert(s[0] == '%' && s[1] == h && s[2] == l && s.len() >= 3);
        assert(is_hex_digit(h) && is_hex_digit(l));
        assert(hex_val(h) == b / 16 && hex_val(l) == b % 16);
        assert(hex_val(h) * 16 + hex_val(l) == b);
        char_u32_cast(k, n);
        assert(percent_decoded_char(h, l) == k);
        assert(s.skip(3) =~= t);
        assert(decode_str(s) =~= seq![k] + decode_str(t));
    }
}

proof fn lemma_decode_encode_str(s: Seq<char>, t: Seq<char>)
    requires
        is_ascii_seq(s),
    ensures
        decode_str(encode_str(s) + t) == s + decode_str(t),
    decreases s.len(),
{
    if s.len() == 0 {
        assert(encode_str(s) + t =~= t);
        assert(s + decode_str(t) =~= decode_str(t));
    } else {
        lemma_encode_str_first(s);
        assert(encode_str(s) + t =~= encode_char(s[0]) + (encode_str(s.drop_first()) + t));
        lemma_decode_encode_char(s[0], encode_str(s.drop_first()) + t);
        assert(is_ascii_seq(s.drop_first()));
        lemma_decode_encode_str(s.drop_first(), t);
        assert(seq![s[0]] + (s.drop_first() + decode_str(t)) =~= s + decode_str(t));
    }
}

proof fn lemma_split_on_nonempty(s: Seq<char>, sep: char)
    ensures
        split_on(s, sep).len() >= 1,
    decreases s.len(),
{
    if s.len() > 0 {
        lemma_split_on_nonempty(s.drop_last(), sep);
    }
}

proof fn lemma_split_append_free(q: Seq<char>, p: Seq<char>, sep: char)
    requires
        free_of(p, sep),
    ensures
        split_on(q + p, sep) == split_on(q, sep).drop_last().push(split_on(q, sep).last() + p),
    decreases p.len(),
{
    lemma_split_on_nonempty(q, sep);
    if p.len() == 0 {
        assert(q + p =~= q);
        assert(split_on(q, sep).last() + p =~= split_on(q, sep).last());
        assert(split_on(q, sep).drop_last().push(split_on(q, sep).last()) =~~= split_on(q, sep));
    } else {
        lemma_split_append_free(q, p.drop_last(), sep);
        assert((q + p).drop_last() =~= q + p.drop_last());
        assert((q + p).last() == p.last());
        let prev = split_on(q + p.drop_last(), sep);
        lemma_split_on_nonempty(q + p.drop_last(), sep);
        assert(prev.last() == split_on(q, sep).last() + p.drop_last());
        assert(prev.drop_last() =~~= split_on(q, sep).drop_last());
        assert((split_on(q, sep).last() + p.drop_last()).push(p.last()) =~= split_on(
            q,
            sep,
        ).last() + p);
        assert(split_on(q + p, sep) =~~= split_on(q, sep).drop_last().push(
            split_on(q, sep).last() + p,
        ));
    }
}

proof fn lemma_split_append_sep(q: Seq<char>, sep: char)
    ensures
        split_on(q + seq![sep], sep) == split_on(q, sep).push(Seq::empty()),
{
    assert((q + seq![sep]).drop_last() =~= q);
    assert((q + seq![sep]).last() == sep);
}

proof fn lemma_encode_pair_free_amp(p: (Seq<char>, Seq<char>))
    ensures
        free_of(encode_pair(p), '&'),
{
    lemma_encode_str_free(p.0, '&');
    lemma_encode_str_free(p.1, '&');
}

proof fn lemma_split_encode_form(ps: Seq<(Seq<char>, Seq<char>)>)
    requires
        ps.len() >= 1,
    ensures
        split_on(spec_encode_form(ps), '&') == ps.map_values(
            |p: (Seq<char>, Seq<char>)| encode_pair(p),
        ),
    decreases ps.len(),
{
    let m = ps.map_values(|p: (Seq<char>, Seq<char>)| encode_pair(p));
    lemma_encode_pair_free_amp(ps.last());
    if ps.len() == 1 {
        let ep = encode_pair(ps[0]);
        assert(Seq::<char>::empty() + ep =~= ep);
        lemma_split_append_free(Seq::empty(), ep, '&');
        assert(split_on(Seq::<char>::empty(), '&').last() =~= Seq::<char>::empty());
        assert(split_on(Seq::<char>::empty(), '&').last() + ep =~= ep);
        assert(split_on(spec_encode_form(ps), '&') =~~= m);
    } else {
        lemma_split_encode_form(ps.drop_last());
        let efdl = spec_encode_form(ps.drop_last());
        let ep = encode_pair(ps.last());
        assert(efdl + seq!['&'] + ep =~= (efdl + seq!['&']) + ep);
        lemma_split_append_sep(efdl, '&');
        lemma_split_append_free(efdl + seq!['&'], ep, '&');
        let withsep = split_on(efdl + seq!['&'], '&');
        assert(withsep.last() =~= Seq::<char>::empty());
        assert(withsep.last() + ep =~= ep);
        assert(withsep.drop_last() =~~= split_on(efdl, '&'));
        assert(split_on(spec_encode_form(ps), '&') =~~= split_on(efdl, '&').push(ep));
        assert(m.drop_last() =~~= ps.drop_last().map_values(
            |p: (Seq<char>, Seq<char>)| encode_pair(p),
        ));
        assert(split_on(spec_encode_form(ps), '&') =~~= m);
    }
}

proof fn lemma_decode_piece_encoded(p: (Seq<char>, Seq<char>))
    requires
        is_ascii_seq(p.0),
        is_ascii_seq(p.1),
    ensures
        decode_piece(encode_pair(p)) == p,
{
    let ek = encode_str(p.0);
    let ev = encode_str(p.1);
    let s = encode_pair(p);
    let j = ek.len() as int;
    lemma_encode_str_free(p.0, '=');
    assert(s[j] == '=');
    assert(forall|k: int| 0 <= k < j ==> s[k] == ek[k] && s[k] != '=');
    lemma_split_once_eq_found(s, j);
    assert(s.take(j) =~= ek);
    assert(s.skip(j + 1) =~= ev);
    lemma_decode_encode_str(p.0, Seq::empty());
    lemma_decode_encode_str(p.1, Seq::empty());
    assert(ek + Seq::<char>::empty() =~= ek);
    assert(ev + Seq::<char>::empty() =~= ev);
    assert(p.0 + decode_str(Seq::<char>::empty()) =~= p.0);
    assert(p.1 + decode_str(Seq::<char>::empty()) =~= p.1);
}

proof fn lemma_decode_pieces_encoded(ps: Seq<(Seq<char>, Seq<char>)>)
    requires
        is_ascii_pairs(ps),
    ensures
        decode_pieces(ps.map_values(|p: (Seq<char>, Seq<char>)| encode_pair(p))) == ps,
    decreases ps.len(),
{
    let m = ps.map_values(|p: (Seq<char>, Seq<char>)| encode_pair(p));
    if ps.len() == 0 {
        assert(m =~~= Seq::<Seq<char>>::empty());
        assert(decode_pieces(m) =~~= ps);
    } else {
        assert(m.drop_last() =~~= ps.drop_last().map_values(
            |p: (Seq<char>, Seq<char>)| encode_pair(p),
        ));
        assert(is_ascii_pairs(ps.drop_last()));
        lemma_decode_pieces_encoded(ps.drop_last());
        assert(m.last() == encode_pair(ps.last()));
        assert(m.last().len() >= 1);
        lemma_decode_piece_encoded(ps.last());
        assert(decode_pieces(m) =~~= ps);
    }
}

/// The form codec round-trips: encoding pairs of ASCII strings and decoding
/// the result yields the same pairs again.
pub proof fn lemma_form_round_trip(ps: Seq<(Seq<char>, Seq<char>)>)
    requires
        is_ascii_pairs(ps),
    ensures
        spec_decode_form(spec_encode_form(ps)) == ps,
{
    if ps.len() == 0 {
        reveal_with_fuel(decode_pieces, 3);
        assert(spec_encode_form(ps) =~= Seq::<char>::empty());
        assert(split_on(Seq::<char>::empty(), '&') =~~= seq![Seq::<char>::empty()]);
        assert(seq![Seq::<char>::empty()].drop_last() =~~= Seq::<Seq<char>>::empty());
        assert(spec_decode_form(spec_encode_form(ps)) =~~= ps);
    } else {
        lemma_split_encode_form(ps);
        lemma_decode_pieces_encoded(ps);
    }
}

} // verus!

