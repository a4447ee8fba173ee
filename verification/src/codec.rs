//! The wire and payload grammar.
//!
//! The provider answers a lookup with a JSON array, of one of two shapes:
//! sense objects `{"fl": string, "shortdef": [string, ...]}` for an exact
//! match, or plain strings (spelling suggestions) for a non-match.  The
//! store persists a definition as the same sense-array text.  This module
//! defines the canonical form of those documents — compact, no whitespace
//! between tokens, with the shortest escape for every character — as spec
//! functions, and gives verified encoders and decoders against them.
//!
//! The encoders produce exactly the canonical text of their argument.  The
//! decoders accept canonical text and answer `None` on anything else, so
//! whatever a decoder accepts is the encoding of what it returns.

use vstd::prelude::*;

use crate::defs::ProviderReply;
use crate::defs::Sense;
use crate::defs::SenseModel;

verus! {

/// The lower-case hexadecimal digit for a value below sixteen.
pub open spec fn hex_digit(v: int) -> char {
    if v == 0 {
        '0'
    } else if v == 1 {
        '1'
    } else if v == 2 {
        '2'
    } else if v == 3 {
        '3'
    } else if v == 4 {
        '4'
    } else if v == 5 {
        '5'
    } else if v == 6 {
        '6'
    } else if v == 7 {
        '7'
    } else if v == 8 {
        '8'
    } else if v == 9 {
        '9'
    } else if v == 10 {
        'a'
    } else if v == 11 {
        'b'
    } else if v == 12 {
        'c'
    } else if v == 13 {
        'd'
    } else if v == 14 {
        'e'
    } else {
        'f'
    }
}

/// The canonical escape of one character inside a JSON string: quote,
/// backslash and the common control characters get their two-character
/// escape, the remaining control characters `\u00` and two hex digits,
/// every other character stands as itself.
pub open spec fn esc_char(c: char) -> Seq<char> {
    if c == '"' {
        seq!['\\', '"']
    } else if c == '\\' {
        seq!['\\', '\\']
    } else if c == '\n' {
        seq!['\\', 'n']
    } else if c == '\t' {
        seq!['\\', 't']
    } else if c == '\r' {
        seq!['\\', 'r']
    } else if (c as u32) < 32 {
        seq!['\\', 'u', '0', '0', hex_digit(c as u32 as int / 16), hex_digit(c as u32 as int % 16)]
    } else {
        seq![c]
    }
}

/// The characters between the quotes of the canonical JSON string for `s`.
pub open spec fn encode_string_body(s: Seq<char>) -> Seq<char>
    decreases s.len(),
{
    if s.len() == 0 {
        Seq::empty()
    } else {
        encode_string_body(s.drop_last()) + esc_char(s.last())
    }
}

/// The canonical JSON string for `s`: quoted, every character escaped
/// canonically.
pub open spec fn encode_string(s: Seq<char>) -> Seq<char> {
    seq!['"'] + encode_string_body(s) + seq!['"']
}

/// The comma-separated canonical JSON strings for `ss`.
pub open spec fn encode_string_items(ss: Seq<Seq<char>>) -> Seq<char>
    decreases ss.len(),
{
    if ss.len() == 0 {
        Seq::empty()
    } else if ss.len() == 1 {
        encode_string(ss[0])
    } else {
        encode_string(ss[0]) + seq![','] + encode_string_items(ss.drop_first())
    }
}

/// The canonical JSON array of strings for `ss`; the shape of a suggestion
/// list.
pub open spec fn encode_string_array(ss: Seq<Seq<char>>) -> Seq<char> {
    seq!['['] + encode_string_items(ss) + seq![']']
}

/// The canonical JSON object for one sense:
/// `{"fl":<tag>,"shortdef":<definitions>}`.
pub open spec fn encode_sense(m: SenseModel) -> Seq<char> {
    seq!['{', '"', 'f', 'l', '"', ':'] + encode_string(m.fl) + seq![
        ',',
        '"',
        's',
        'h',
        'o',
        'r',
        't',
        'd',
        'e',
        'f',
        '"',
        ':',
    ] + encode_string_array(m.shortdef) + seq!['}']
}

/// The comma-separated canonical sense objects for `ms`.
pub open spec fn encode_sense_items(ms: Seq<SenseModel>) -> Seq<char>
    decreases ms.len(),
{
    if ms.len() == 0 {
        Seq::empty()
    } else if ms.len() == 1 {
        encode_sense(ms[0])
    } else {
        encode_sense(ms[0]) + seq![','] + encode_sense_items(ms.drop_first())
    }
}

/// The canonical JSON array of sense objects for `ms`; the shape of a
/// definition, both as the provider sends it and as the store persists it.
pub open spec fn encode_senses(ms: Seq<SenseModel>) -> Seq<char> {
    seq!['['] + encode_sense_items(ms) + seq![']']
}

/// The string body of a concatenation is the concatenation of the bodies.
proof fn lemma_body_concat(a: Seq<char>, b: Seq<char>)
    ensures
        encode_string_body(a + b) == encode_string_body(a) + encode_string_body(b),
    decreases b.len(),
{
    if b.len() == 0 {
        assert(a + b =~= a);
        assert(encode_string_body(a) + encode_string_body(b) =~= encode_string_body(a));
    } else {
        assert((a + b).drop_last() =~= a + b.drop_last());
        assert((a + b).last() == b.last());
        lemma_body_concat(a, b.drop_last());
        assert(encode_string_body(a + b) =~= encode_string_body(a) + encode_string_body(b));
    }
}

/// Peeling the first character off a string body.
proof fn lemma_body_first(s: Seq<char>)
    requires
        s.len() > 0,
    ensures
        encode_string_body(s) == esc_char(s[0]) + encode_string_body(s.drop_first()),
{
    assert(seq![s[0]] + s.drop_first() =~= s);
    lemma_body_concat(seq![s[0]], s.drop_first());
    assert(seq![s[0]].drop_last() =~= Seq::<char>::empty());
    assert(encode_string_body(Seq::<char>::empty()) == Seq::<char>::empty());
    assert(seq![s[0]].last() == s[0]);
    assert(encode_string_body(seq![s[0]]) =~= esc_char(s[0]));
}

/// Appending one string to a comma-separated item list.
proof fn lemma_string_items_snoc(ss: Seq<Seq<char>>, x: Seq<char>)
    ensures
        encode_string_items(ss.push(x)) == if ss.len() == 0 {
            encode_string(x)
        } else {
            encode_string_items(ss) + seq![','] + encode_string(x)
        },
    decreases ss.len(),
{
    let p = ss.push(x);
    if ss.len() == 0 {
        assert(p[0] == x);
    } else if ss.len() == 1 {
        assert(p.drop_first() =~= seq![x]);
        assert(seq![x][0] == x);
        assert(encode_string_items(seq![x]) == encode_string(x));
        assert(p[0] == ss[0]);
        assert(encode_string_items(p) =~= encode_string_items(ss) + seq![','] + encode_string(x));
    } else {
        assert(p.drop_first() =~= ss.drop_first().push(x));
        lemma_string_items_snoc(ss.drop_first(), x);
        assert(p[0] == ss[0]);
        assert(encode_string_items(p) =~= encode_string_items(ss) + seq![','] + encode_string(x));
    }
}

/// Appending one sense to a comma-separated item list.
proof fn lemma_sense_items_snoc(ms: Seq<SenseModel>, x: SenseModel)
    ensures
        encode_sense_items(ms.push(x)) == if ms.len() == 0 {
            encode_sense(x)
        } else {
            encode_sense_items(ms) + seq![','] + encode_sense(x)
        },
    decreases ms.len(),
{
    let p = ms.push(x);
    if ms.len() == 0 {
        assert(p[0] == x);
    } else if ms.len() == 1 {
        assert(p.drop_first() =~= seq![x]);
        assert(seq![x][0] == x);
        assert(encode_sense_items(seq![x]) == encode_sense(x));
        assert(p[0] == ms[0]);
        assert(encode_sense_items(p) =~= encode_sense_items(ms) + seq![','] + encode_sense(x));
    } else {
        assert(p.drop_first() =~= ms.drop_first().push(x));
        lemma_sense_items_snoc(ms.drop_first(), x);
        assert(p[0] == ms[0]);
        assert(encode_sense_items(p) =~= encode_sense_items(ms) + seq![','] + encode_sense(x));
    }
}

/// The lower-case hexadecimal digit for `v`, executable form.
fn hex_digit_char(v: u8) -> (c: char)
    requires
        v < 16,
    ensures
        c == hex_digit(v as int),
{
    if v == 0 {
        '0'
    } else if v == 1 {
        '1'
    } else if v == 2 {
        '2'
    } else if v == 3 {
        '3'
    } else if v == 4 {
        '4'
    } else if v == 5 {
        '5'
    } else if v == 6 {
        '6'
    } else if v == 7 {
        '7'
    } else if v == 8 {
        '8'
    } else if v == 9 {
        '9'
    } else if v == 10 {
        'a'
    } else if v == 11 {
        'b'
    } else if v == 12 {
        'c'
    } else if v == 13 {
        'd'
    } else if v == 14 {
        'e'
    } else {
        'f'
    }
}

/// Appends the canonical escape of `c`.
fn push_escaped(out: &mut Vec<char>, c: char)
    ensures
        final(out)@ == old(out)@ + esc_char(c),
{
    let ghost pre = out@;
    if c == '"' {
        out.push('\\');
        out.push('"');
    } else if c == '\\' {
        out.push('\\');
        out.push('\\');
    } else if c == '\n' {
        out.push('\\');
        out.push('n');
    } else if c == '\t' {
        out.push('\\');
        out.push('t');
    } else if c == '\r' {
        out.push('\\');
        out.push('r');
    } else if (c as u32) < 32 {
        let v = c as u32;
        out.push('\\');
        out.push('u');
        out.push('0');
        out.push('0');
        out.push(hex_digit_char((v / 16) as u8));
        out.push(hex_digit_char((v % 16) as u8));
    } else {
        out.push(c);
    }
    proof {
        assert(out@ =~= pre + esc_char(c));
    }
}

/// Appends the canonical JSON string for `s`.
fn push_json_string(out: &mut Vec<char>, s: &str)
    ensures
        final(out)@ == old(out)@ + encode_string(s@),
{
    let ghost pre = out@;
    out.push('"');
    let n = s.unicode_len();
    let mut i: usize = 0;
    while i < n
        invariant
            i <= n,
            n == s@.len(),
            out@ == pre + seq!['"'] + encode_string_body(s@.take(i as int)),
        decreases n - i,
    {
        let c = s.get_char(i);
        push_escaped(out, c);
        proof {
            assert(s@.take(i + 1).drop_last() =~= s@.take(i as int));
            assert(s@.take(i + 1).last() == s@[i as int]);
            assert(out@ =~= pre + seq!['"'] + encode_string_body(s@.take(i + 1)));
        }
        i += 1;
    }
    out.push('"');
    proof {
        assert(s@.take(n as int) =~= s@);
        assert(out@ =~= pre + encode_string(s@));
    }
}

/// Appends the canonical JSON array of the strings in `ss`.
fn push_string_array(out: &mut Vec<char>, ss: &Vec<String>)
    ensures
        final(out)@ == old(out)@ + encode_string_array(ss.deep_view()),
{
    let ghost pre = out@;
    let ghost model = ss.deep_view();
    out.push('[');
    let mut i: usize = 0;
    while i < ss.len()
        invariant
            i <= ss.len(),
            model == ss.deep_view(),
            model.len() == ss@.len(),
            out@ == pre + seq!['['] + encode_string_items(model.take(i as int)),
        decreases ss.len() - i,
    {
        if i > 0 {
            out.push(',');
        }
        push_json_string(out, ss[i].as_str());
        proof {
            lemma_string_items_snoc(model.take(i as int), model[i as int]);
            assert(model.take(i as int).push(model[i as int]) =~= model.take(i + 1));
            assert(model[i as int] == ss@[i as int]@);
            assert(out@ =~= pre + seq!['['] + encode_string_items(model.take(i + 1)));
        }
        i += 1;
    }
    out.push(']');
    proof {
        assert(model.take(model.len() as int) =~= model);
        assert(out@ =~= pre + encode_string_array(model));
    }
}

/// Appends the canonical JSON object for one sense.
fn push_sense(out: &mut Vec<char>, s: &Sense)
    ensures
        final(out)@ == old(out)@ + encode_sense(s@),
{
    let ghost pre = out@;
    out.push('{');
    out.push('"');
    out.push('f');
    out.push('l');
    out.push('"');
    out.push(':');
    push_json_string(out, s.fl.as_str());
    out.push(',');
    out.push('"');
    out.push('s');
    out.push('h');
    out.push('o');
    out.push('r');
    out.push('t');
    out.push('d');
    out.push('e');
    out.push('f');
    out.push('"');
    out.push(':');
    push_string_array(out, &s.shortdef);
    out.push('}');
    proof {
        assert(out@ =~= pre + encode_sense(s@));
    }
}

/// Appends the canonical JSON array of the senses in `defs`.
fn push_senses(out: &mut Vec<char>, defs: &Vec<Sense>)
    ensures
        final(out)@ == old(out)@ + encode_senses(defs.deep_view()),
{
    let ghost pre = out@;
    let ghost model = defs.deep_view();
    out.push('[');
    let mut i: usize = 0;
    while i < defs.len()
        invariant
            i <= defs.len(),
            model == defs.deep_view(),
            model.len() == defs@.len(),
            out@ == pre + seq!['['] + encode_sense_items(model.take(i as int)),
        decreases defs.len() - i,
    {
        if i > 0 {
            out.push(',');
        }
        push_sense(out, &defs[i]);
        proof {
            lemma_sense_items_snoc(model.take(i as int), model[i as int]);
            assert(model.take(i as int).push(model[i as int]) =~= model.take(i + 1));
            assert(model[i as int] == defs@[i as int]@);
            assert(out@ =~= pre + seq!['['] + encode_sense_items(model.take(i + 1)));
        }
        i += 1;
    }
    out.push(']');
    proof {
        assert(model.take(model.len() as int) =~= model);
        assert(out@ =~= pre + encode_senses(model));
    }
}

/// Relies on `String::push`: appends one character to the string.
#[verifier::external_body]
fn push_char(s: &mut String, c: char)
    ensures
        final(s)@ == old(s)@.push(c),
{
    s.push(c)
}

/// Builds a string from a character vector.
fn chars_to_string(v: &Vec<char>) -> (r: String)
    ensures
        r@ == v@,
{
    let mut out = String::new();
    let mut i: usize = 0;
    while i < v.len()
        invariant
            i <= v.len(),
            out@ == v@.take(i as int),
        decreases v.len() - i,
    {
        push_char(&mut out, v[i]);
        proof {
            assert(v@.take(i + 1) =~= v@.take(i as int).push(v@[i as int]));
        }
        i += 1;
    }
    proof {
        assert(v@.take(v@.len() as int) =~= v@);
    }
    out
}

/// The characters of a string, in order.
fn str_to_chars(s: &str) -> (r: Vec<char>)
    ensures
        r@ == s@,
{
    let n = s.unicode_len();
    let mut out: Vec<char> = Vec::new();
    let mut i: usize = 0;
    while i < n
        invariant
            i <= n,
            n == s@.len(),
            out@ == s@.take(i as int),
        decreases n - i,
    {
        out.push(s.get_char(i));
        proof {
            assert(s@.take(i + 1) =~= s@.take(i as int).push(s@[i as int]));
        }
        i += 1;
    }
    proof {
        assert(s@.take(n as int) =~= s@);
    }
    out
}

/// The canonical serialized text of a definition: the JSON sense array the
/// store persists for a word.
pub fn encode_definitions(defs: &Vec<Sense>) -> (r: String)
    ensures
        r@ == encode_senses(defs.deep_view()),
{
    let mut out: Vec<char> = Vec::new();
    push_senses(&mut out, defs);
    chars_to_string(&out)
}

/// The canonical JSON array of suggestion strings.
pub fn encode_suggestions(words: &Vec<String>) -> (r: String)
    ensures
        r@ == encode_string_array(words.deep_view()),
{
    let mut out: Vec<char> = Vec::new();
    push_string_array(&mut out, words);
    chars_to_string(&out)
}

} // verus!

verus! {

/// The value of a lower-case hexadecimal digit, if `c` is one.
fn hex_val(c: char) -> (r: Option<u8>)
    ensures
        match r {
            Some(v) => v < 16 && c == hex_digit(v as int),
            None => forall|x: int| 0 <= x < 16 ==> c != hex_digit(x),
        },
{
    if c == '0' {
        Some(0)
    } else if c == '1' {
        Some(1)
    } else if c == '2' {
        Some(2)
    } else if c == '3' {
        Some(3)
    } else if c == '4' {
        Some(4)
    } else if c == '5' {
        Some(5)
    } else if c == '6' {
        Some(6)
    } else if c == '7' {
        Some(7)
    } else if c == '8' {
        Some(8)
    } else if c == '9' {
        Some(9)
    } else if c == 'a' {
        Some(10)
    } else if c == 'b' {
        Some(11)
    } else if c == 'c' {
        Some(12)
    } else if c == 'd' {
        Some(13)
    } else if c == 'e' {
        Some(14)
    } else if c == 'f' {
        Some(15)
    } else {
        None
    }
}

/// No two values share a hexadecimal digit.
proof fn lemma_hex_digit_injective(a: int, b: int)
    requires
        0 <= a < 16,
        0 <= b < 16,
        hex_digit(a) == hex_digit(b),
    ensures
        a == b,
{
}

/// Extending a canonical prefix by one character.
proof fn lemma_take_snoc(gs: Seq<char>, k: int)
    requires
        0 <= k < gs.len(),
    ensures
        gs.take(k + 1) == gs.take(k).push(gs[k]),
        encode_string_body(gs.take(k + 1)) == encode_string_body(gs.take(k)) + esc_char(gs[k]),
{
    assert(gs.take(k + 1) =~= gs.take(k).push(gs[k]));
    assert(gs.take(k + 1).drop_last() =~= gs.take(k));
    assert(gs.take(k + 1).last() == gs[k]);
}

/// A canonical JSON string followed by `grest`, split at the `k`-th
/// character of its content.
proof fn lemma_string_view(vv: Seq<char>, i: int, gs: Seq<char>, grest: Seq<char>, k: int)
    requires
        0 <= i <= vv.len(),
        vv.skip(i) == encode_string(gs) + grest,
        0 <= k < gs.len(),
    ensures
        vv.skip(i) =~= seq!['"'] + encode_string_body(gs.take(k)) + esc_char(gs[k])
            + encode_string_body(gs.skip(k + 1)) + seq!['"'] + grest,
        encode_string_body(gs) == encode_string_body(gs.take(k)) + esc_char(gs[k])
            + encode_string_body(gs.skip(k + 1)),
{
    assert(gs.take(k) + gs.skip(k) =~= gs);
    lemma_body_concat(gs.take(k), gs.skip(k));
    lemma_body_first(gs.skip(k));
    assert(gs.skip(k)[0] == gs[k]);
    assert(gs.skip(k).drop_first() =~= gs.skip(k + 1));
    assert(encode_string_body(gs) =~= encode_string_body(gs.take(k)) + esc_char(gs[k])
        + encode_string_body(gs.skip(k + 1)));
    assert(vv.skip(i) =~= seq!['"'] + encode_string_body(gs.take(k)) + esc_char(gs[k])
        + encode_string_body(gs.skip(k + 1)) + seq!['"'] + grest);
}

/// Reads a JSON string starting at `i`; yields the string and the index
/// just past its closing quote.
fn parse_string_at(v: &Vec<char>, i: usize, Ghost(w): Ghost<Option<(Seq<char>, Seq<char>)>>) -> (r:
    Option<(String, usize)>)
    requires
        i <= v@.len(),
        w matches Some(q) ==> v@.skip(i as int) == encode_string(q.0) + q.1,
    ensures
        r matches Some(p) ==> i < p.1 <= v@.len(),
        w matches Some(q) ==> (r matches Some(p) && p.0@ == q.0 && p.1 == i + encode_string(
            q.0,
        ).len()),
{
    let ghost gpair = match w {
        Some(q) => q,
        None => (Seq::<char>::empty(), Seq::<char>::empty()),
    };
    let ghost gs = gpair.0;
    let ghost grest = gpair.1;
    if i >= v.len() {
        proof {
            if w is Some {
                assert(v@.skip(i as int).len() == 0);
                assert((encode_string(gs) + grest).len() >= 2);
                assert(false);
            }
        }
        return None;
    }
    if v[i] != '"' {
        proof {
            if w is Some {
                assert(v@[i as int] == v@.skip(i as int)[0]);
                assert(encode_string(gs)[0] == '"');
                assert((encode_string(gs) + grest)[0] == '"');
                assert(false);
            }
        }
        return None;
    }
    let mut j: usize = i + 1;
    let mut acc: Vec<char> = Vec::new();
    let ghost mut k: int = 0;
    while j < v.len()
        invariant
            i < j <= v@.len(),
            w is Some ==> w == Some((gs, grest)),
            w is Some ==> v@.skip(i as int) == encode_string(gs) + grest,
            w is Some ==> 0 <= k <= gs.len(),
            w is Some ==> acc@ == gs.take(k),
            w is Some ==> j == i + 1 + encode_string_body(gs.take(k)).len(),
        decreases v@.len() - j,
    {
        let c = v[j];
        proof {
            if w is Some {
                if k < gs.len() {
                    lemma_string_view(v@, i as int, gs, grest, k);
                    assert(v@[j as int] == v@.skip(i as int)[j - i]);
                    assert(v@[j as int] == esc_char(gs[k])[0]);
                } else {
                    assert(gs.take(k) =~= gs);
                    assert(v@[j as int] == v@.skip(i as int)[j - i]);
                    assert(v@[j as int] == '"');
                }
            }
        }
        if c == '"' {
            proof {
                if w is Some {
                    if k < gs.len() {
                        assert(esc_char(gs[k])[0] != '"');
                        assert(false);
                    }
                    assert(k == gs.len());
                    assert(gs.take(k) == gs);
                    assert(acc@ =~= gs);
                    assert(j == i + 1 + encode_string_body(gs).len());
                    assert(encode_string(gs).len() == 2 + encode_string_body(gs).len());
                    assert(j + 1 == i + encode_string(gs).len());
                }
            }
            return Some((chars_to_string(&acc), j + 1));
        } else if c == '\\' {
            proof {
                if w is Some {
                    assert(k < gs.len());
                    assert(esc_char(gs[k])[0] == '\\');
                    assert(esc_char(gs[k]).len() >= 2);
                    assert(v@[j + 1] == v@.skip(i as int)[j + 1 - i]);
                    assert(v@[j + 1] == esc_char(gs[k])[1]);
                    assert(v@.skip(i as int).len() == v@.len() - i);
                    assert(v@.len() - i >= 1 + encode_string_body(gs.take(k)).len() + esc_char(
                        gs[k],
                    ).len() + 1);
                }
            }
            if j + 1 >= v.len() {
                proof {
                    if w is Some {
                        assert(false);
                    }
                }
                return None;
            }
            let e = v[j + 1];
            if e == '"' {
                proof {
                    if w is Some {
                        assert(gs[k] == '"');
                        lemma_take_snoc(gs, k);
                        k = k + 1;
                    }
                }
                acc.push('"');
                j += 2;
            } else if e == '\\' {
                proof {
                    if w is Some {
                        assert(gs[k] == '\\');
                        lemma_take_snoc(gs, k);
                        k = k + 1;
                    }
                }
                acc.push('\\');
                j += 2;
            } else if e == 'n' {
                proof {
                    if w is Some {
                        assert(gs[k] == '\n');
                        lemma_take_snoc(gs, k);
                        k = k + 1;
                    }
                }
                acc.push('\n');
                j += 2;
            } else if e == 't' {
                proof {
                    if w is Some {
                        assert(gs[k] == '\t');
                        lemma_take_snoc(gs, k);
                        k = k + 1;
                    }
                }
                acc.push('\t');
                j += 2;
            } else if e == 'r' {
                proof {
                    if w is Some {
                        assert(gs[k] == '\r');
                        lemma_take_snoc(gs, k);
                        k = k + 1;
                    }
                }
                acc.push('\r');
                j += 2;
            } else if e == 'u' {
                proof {
                    if w is Some {
                        assert((gs[k] as u32) < 32);
                        assert(esc_char(gs[k]).len() == 6);
                        assert(v@.len() - j >= 7);
                        assert(v@[j + 2] == v@.skip(i as int)[j + 2 - i]);
                        assert(v@[j + 3] == v@.skip(i as int)[j + 3 - i]);
                        assert(v@[j + 4] == v@.skip(i as int)[j + 4 - i]);
                        assert(v@[j + 5] == v@.skip(i as int)[j + 5 - i]);
                        assert(v@[j + 2] == esc_char(gs[k])[2]);
                        assert(v@[j + 3] == esc_char(gs[k])[3]);
                        assert(v@[j + 4] == esc_char(gs[k])[4]);
                        assert(v@[j + 5] == esc_char(gs[k])[5]);
                        assert(v@[j + 4] == hex_digit(gs[k] as u32 as int / 16));
                        assert(v@[j + 5] == hex_digit(gs[k] as u32 as int % 16));
                    }
                }
                if v.len() - j < 6 {
                    proof {
                        if w is Some {
                            assert(false);
                        }
                    }
                    return None;
                }
                if v[j + 2] != '0' {
                    proof {
                        if w is Some {
                            assert(esc_char(gs[k])[2] == '0');
                            assert(false);
                        }
                    }
                    return None;
                }
                if v[j + 3] != '0' {
                    proof {
                        if w is Some {
                            assert(esc_char(gs[k])[3] == '0');
                            assert(false);
                        }
                    }
                    return None;
                }
                let h1 = hex_val(v[j + 4]);
                let h2 = hex_val(v[j + 5]);
                match (h1, h2) {
                    (Some(a), Some(b)) => {
                        let pushed = (a * 16 + b) as char;
                        proof {
                            if w is Some {
                                let gv = gs[k] as u32 as int;
                                lemma_hex_digit_injective(a as int, gv / 16);
                                lemma_hex_digit_injective(b as int, gv % 16);
                                assert(a as int == gv / 16);
                                assert(b as int == gv % 16);
                                assert(a * 16 + b == gv);
                                assert(pushed as u32 == gs[k] as u32);
                                vstd::utf8::char_u32_cast(gs[k], gs[k] as u32);
                                vstd::utf8::char_u32_cast(pushed, pushed as u32);
                                assert(pushed == gs[k]);
                                lemma_take_snoc(gs, k);
                                k = k + 1;
                            }
                        }
                        acc.push(pushed);
                        j += 6;
                    },
                    _ => {
                        proof {
                            if w is Some {
                                assert(v@[j + 4] == hex_digit(gs[k] as u32 as int / 16));
                                assert(0 <= gs[k] as u32 as int / 16 < 16);
                                assert(0 <= gs[k] as u32 as int % 16 < 16);
                                assert(h1 is Some);
                                assert(h2 is Some);
                                assert(false);
                            }
                        }
                        return None;
                    },
                }
            } else {
                proof {
                    if w is Some {
                        assert(esc_char(gs[k])[1] == e);
                        assert(false);
                    }
                }
                return None;
            }
        } else {
            proof {
                if w is Some {
                    assert(k < gs.len());
                    assert(esc_char(gs[k])[0] == c);
                    assert(c != '\\');
                    assert(gs[k] == c);
                    lemma_take_snoc(gs, k);
                    k = k + 1;
                }
            }
            acc.push(c);
            j += 1;
        }
    }
    proof {
        if w is Some {
            assert(gs.take(k) + gs.skip(k) =~= gs);
            lemma_body_concat(gs.take(k), gs.skip(k));
            assert(encode_string_body(gs.take(k)).len() <= encode_string_body(gs).len());
            assert(v@.skip(i as int).len() == v@.len() - i);
            assert(j <= i + 1 + encode_string_body(gs).len());
            assert(v@.len() >= i + 2 + encode_string_body(gs).len());
            assert(false);
        }
    }
    None
}

/// Reads the characters of `pat` verbatim at `i`; yields the index just
/// past them.
fn expect_lit(v: &Vec<char>, i: usize, pat: &Vec<char>) -> (r: Option<usize>)
    requires
        i <= v@.len(),
    ensures
        r matches Some(j) ==> i <= j <= v@.len() && j == i + pat@.len(),
        (i + pat@.len() <= v@.len() && v@.subrange(i as int, i + pat@.len()) == pat@) ==> r
            is Some,
{
    if v.len() - i < pat.len() {
        return None;
    }
    let mut k: usize = 0;
    while k < pat.len()
        invariant
            k <= pat@.len(),
            i + pat@.len() <= v@.len(),
            v@.len() <= usize::MAX,
        decreases pat@.len() - k,
    {
        if v[i + k] != pat[k] {
            proof {
                if v@.subrange(i as int, i + pat@.len()) == pat@ {
                    assert(v@.subrange(i as int, i + pat@.len())[k as int] == v@[i + k]);
                    assert(false);
                }
            }
            return None;
        }
        k += 1;
    }
    Some(i + pat.len())
}

/// A comma-separated item list, split at its `m`-th item.
proof fn lemma_string_items_split(ss: Seq<Seq<char>>, m: int)
    requires
        0 <= m < ss.len(),
    ensures
        encode_string_items(ss) == (if m == 0 {
            Seq::<char>::empty()
        } else {
            encode_string_items(ss.take(m)) + seq![',']
        }) + encode_string(ss[m]) + (if m + 1 < ss.len() {
            seq![','] + encode_string_items(ss.skip(m + 1))
        } else {
            Seq::<char>::empty()
        }),
    decreases m,
{
    let df = ss.drop_first();
    if m == 0 {
        if ss.len() == 1 {
            assert(encode_string_items(ss) =~= Seq::<char>::empty() + encode_string(ss[0])
                + Seq::<char>::empty());
        } else {
            assert(df =~= ss.skip(1));
            assert(encode_string_items(ss) =~= Seq::<char>::empty() + encode_string(ss[0]) + (seq![
                ','
            ] + encode_string_items(ss.skip(1))));
        }
    } else {
        lemma_string_items_split(df, m - 1);
        assert(df[m - 1] == ss[m]);
        assert(df.skip(m) =~= ss.skip(m + 1));
        if m == 1 {
            assert(encode_string_items(ss.take(1)) == encode_string(ss[0]));
            if m + 1 < ss.len() {
                assert(encode_string_items(ss) =~= (encode_string_items(ss.take(1)) + seq![','])
                    + encode_string(ss[1]) + (seq![','] + encode_string_items(ss.skip(2))));
            } else {
                assert(encode_string_items(ss) =~= (encode_string_items(ss.take(1)) + seq![','])
                    + encode_string(ss[1]) + Seq::<char>::empty());
            }
        } else {
            assert(ss.take(m).drop_first() =~= df.take(m - 1));
            assert(ss.take(m)[0] == ss[0]);
            assert(ss.take(m).len() == m);
            assert(encode_string_items(ss.take(m)) =~= encode_string(ss[0]) + seq![',']
                + encode_string_items(df.take(m - 1)));
            if m + 1 < ss.len() {
                assert(encode_string_items(ss) =~= (encode_string_items(ss.take(m)) + seq![','])
                    + encode_string(ss[m]) + (seq![','] + encode_string_items(ss.skip(m + 1))));
            } else {
                assert(encode_string_items(ss) =~= (encode_string_items(ss.take(m)) + seq![','])
                    + encode_string(ss[m]) + Seq::<char>::empty());
            }
        }
    }
}

/// Reads a JSON array of strings starting at `i`; yields the strings and
/// the index just past the closing bracket.
fn parse_string_array_at(v: &Vec<char>, i: usize, Ghost(w): Ghost<
    Option<(Seq<Seq<char>>, Seq<char>)>,
>) -> (r: Option<(Vec<String>, usize)>)
    requires
        i <= v@.len(),
        w matches Some(q) ==> v@.skip(i as int) == encode_string_array(q.0) + q.1,
    ensures
        r matches Some(p) ==> i < p.1 <= v@.len(),
        w matches Some(q) ==> (r matches Some(p) && p.0.deep_view() == q.0 && p.1 == i
            + encode_string_array(q.0).len()),
{
    let ghost gpair = match w {
        Some(q) => q,
        None => (Seq::<Seq<char>>::empty(), Seq::<char>::empty()),
    };
    let ghost gss = gpair.0;
    let ghost grest = gpair.1;
    proof {
        if w is Some {
            assert(v@.skip(i as int).len() == v@.len() - i);
            if gss.len() > 0 {
                lemma_string_items_split(gss, 0);
                assert(encode_string_items(gss)[0] == encode_string(gss[0])[0]);
                assert(encode_string(gss[0])[0] == '"');
            }
        }
    }
    if i >= v.len() {
        proof {
            if w is Some {
                assert((encode_string_array(gss) + grest).len() >= 2);
                assert(false);
            }
        }
        return None;
    }
    if v[i] != '[' {
        proof {
            if w is Some {
                assert(v@[i as int] == v@.skip(i as int)[0]);
                assert(encode_string_array(gss)[0] == '[');
                assert(false);
            }
        }
        return None;
    }
    if i + 1 < v.len() && v[i + 1] == ']' {
        let empty_out: Vec<String> = Vec::new();
        proof {
            if w is Some {
                assert(v@[i + 1] == v@.skip(i as int)[1]);
                if gss.len() > 0 {
                    assert(v@.skip(i as int)[1] == encode_string_items(gss)[0]);
                    assert(false);
                }
                assert(empty_out.deep_view() =~= gss);
                assert(encode_string_array(gss).len() == 2);
            }
        }
        return Some((empty_out, i + 2));
    }
    proof {
        if w is Some {
            if gss.len() == 0 {
                assert(v@.skip(i as int).len() >= 2);
                assert(v@.skip(i as int)[1] == ']');
                assert(v@[i + 1] == ']');
                assert(i + 1 < v@.len());
                assert(false);
            }
        }
    }
    let mut j: usize = i + 1;
    let mut out: Vec<String> = Vec::new();
    let ghost mut m: int = 0;
    loop
        invariant
            i < j <= v@.len(),
            w is Some ==> w == Some((gss, grest)),
            w is Some ==> v@.skip(i as int) == encode_string_array(gss) + grest,
            w is Some ==> 0 <= m < gss.len(),
            w is Some ==> out.deep_view() == gss.take(m),
            w is Some ==> j == i + 1 + (if m == 0 {
                0int
            } else {
                (encode_string_items(gss.take(m)).len() + 1) as int
            }),
        decreases v@.len() - j,
    {
        let ghost gtail = if m + 1 < gss.len() {
            seq![','] + encode_string_items(gss.skip(m + 1)) + seq![']'] + grest
        } else {
            seq![']'] + grest
        };
        proof {
            if w is Some {
                lemma_string_items_split(gss, m);
                assert(v@.skip(j as int) =~= v@.skip(i as int).skip(j - i));
                assert(v@.skip(j as int) =~= encode_string(gss[m]) + gtail);
            }
        }
        let ghost wit = if w is Some {
            Some((gss[m], gtail))
        } else {
            None
        };
        match parse_string_at(v, j, Ghost(wit)) {
            None => {
                proof {
                    if w is Some {
                        assert(false);
                    }
                }
                return None;
            },
            Some((s, j2)) => {
                out.push(s);
                proof {
                    if w is Some {
                        assert(out.deep_view() =~= gss.take(m + 1));
                    }
                }
                let ghost jold: usize = j;
                j = j2;
                proof {
                    if w is Some {
                        assert(v@.skip(j as int) =~= v@.skip(jold as int).skip(
                            encode_string(gss[m]).len() as int,
                        ));
                        assert(v@.skip(j as int) =~= gtail);
                        assert(gtail.len() >= 1);
                        assert(j < v@.len());
                        assert(v@[j as int] == gtail[0]);
                    }
                }
            },
        }
        if j < v.len() && v[j] == ',' {
            proof {
                if w is Some {
                    if m + 1 == gss.len() {
                        assert(v@[j as int] == ']');
                        assert(false);
                    }
                    lemma_string_items_snoc(gss.take(m), gss[m]);
                    assert(gss.take(m).push(gss[m]) =~= gss.take(m + 1));
                    m = m + 1;
                }
            }
            j += 1;
        } else if j < v.len() && v[j] == ']' {
            proof {
                if w is Some {
                    if m + 1 < gss.len() {
                        assert(v@[j as int] == ',');
                        assert(false);
                    }
                    lemma_string_items_snoc(gss.take(m), gss[m]);
                    assert(gss.take(m).push(gss[m]) =~= gss.take(m + 1));
                    assert(gss.take(m + 1) =~= gss);
                    assert(out.deep_view() == gss);
                    assert(j + 1 == i + 2 + encode_string_items(gss).len());
                }
            }
            return Some((out, j + 1));
        } else {
            proof {
                if w is Some {
                    assert(v@[j as int] == gtail[0]);
                    assert(false);
                }
            }
            return None;
        }
    }
}

/// Reads one sense object `{"fl":<string>,"shortdef":<string array>}`
/// starting at `i`.
fn parse_sense_at(v: &Vec<char>, i: usize, Ghost(w): Ghost<Option<(SenseModel, Seq<char>)>>) -> (r:
    Option<(Sense, usize)>)
    requires
        i <= v@.len(),
        w matches Some(q) ==> v@.skip(i as int) == encode_sense(q.0) + q.1,
    ensures
        r matches Some(p) ==> i < p.1 <= v@.len(),
        w matches Some(q) ==> (r matches Some(p) && p.0@ == q.0 && p.1 == i + encode_sense(
            q.0,
        ).len()),
{
    let ghost gpair = match w {
        Some(q) => q,
        None => (
            SenseModel { fl: Seq::<char>::empty(), shortdef: Seq::<Seq<char>>::empty() },
            Seq::<char>::empty(),
        ),
    };
    let ghost gm = gpair.0;
    let ghost grest = gpair.1;
    let fl_key = vec!['{', '"', 'f', 'l', '"', ':'];
    let sd_key = vec![',', '"', 's', 'h', 'o', 'r', 't', 'd', 'e', 'f', '"', ':'];
    proof {
        if w is Some {
            assert(fl_key@ =~= seq!['{', '"', 'f', 'l', '"', ':']);
            assert(v@.skip(i as int).len() == v@.len() - i);
            assert(i + 6 <= v@.len());
            assert(v@.subrange(i as int, i + 6) =~= fl_key@);
        }
    }
    let j0 = match expect_lit(v, i, &fl_key) {
        None => {
            proof {
                if w is Some {
                    assert(false);
                }
            }
            return None;
        },
        Some(j) => j,
    };
    let ghost rest1 = seq![',', '"', 's', 'h', 'o', 'r', 't', 'd', 'e', 'f', '"', ':']
        + encode_string_array(gm.shortdef) + seq!['}'] + grest;
    proof {
        if w is Some {
            assert(v@.skip(j0 as int) =~= v@.skip(i as int).skip(6));
            assert(v@.skip(j0 as int) =~= encode_string(gm.fl) + rest1);
        }
    }
    let ghost wit1 = if w is Some {
        Some((gm.fl, rest1))
    } else {
        None
    };
    let (fl, j1) = match parse_string_at(v, j0, Ghost(wit1)) {
        None => {
            proof {
                if w is Some {
                    assert(false);
                }
            }
            return None;
        },
        Some(p) => p,
    };
    proof {
        if w is Some {
            assert(sd_key@ =~= seq![',', '"', 's', 'h', 'o', 'r', 't', 'd', 'e', 'f', '"', ':']);
            assert(v@.skip(j1 as int) =~= v@.skip(j0 as int).skip(encode_string(gm.fl).len() as int));
            assert(v@.skip(j1 as int) =~= rest1);
            assert(j1 + 12 <= v@.len());
            assert(v@.subrange(j1 as int, j1 + 12) =~= sd_key@);
        }
    }
    let j2 = match expect_lit(v, j1, &sd_key) {
        None => {
            proof {
                if w is Some {
                    assert(false);
                }
            }
            return None;
        },
        Some(j) => j,
    };
    let ghost rest2 = seq!['}'] + grest;
    proof {
        if w is Some {
            assert(v@.skip(j2 as int) =~= v@.skip(j1 as int).skip(12));
            assert(v@.skip(j2 as int) =~= encode_string_array(gm.shortdef) + rest2);
        }
    }
    let ghost wit2 = if w is Some {
        Some((gm.shortdef, rest2))
    } else {
        None
    };
    let (shortdef, j3) = match parse_string_array_at(v, j2, Ghost(wit2)) {
        None => {
            proof {
                if w is Some {
                    assert(false);
                }
            }
            return None;
        },
        Some(p) => p,
    };
    proof {
        if w is Some {
            assert(v@.skip(j3 as int) =~= v@.skip(j2 as int).skip(
                encode_string_array(gm.shortdef).len() as int,
            ));
            assert(v@.skip(j3 as int) =~= rest2);
            assert(j3 < v@.len());
            assert(v@[j3 as int] == v@.skip(j3 as int)[0]);
            assert(rest2[0] == '}');
            assert(v@[j3 as int] == '}');
        }
    }
    if j3 < v.len() && v[j3] == '}' {
        let sense = Sense { fl, shortdef };
        proof {
            if w is Some {
                assert(sense@ == gm);
                assert(j3 + 1 == i + encode_sense(gm).len());
            }
        }
        Some((sense, j3 + 1))
    } else {
        proof {
            if w is Some {
                assert(false);
            }
        }
        None
    }
}

/// A comma-separated sense item list, split at its `m`-th item.
proof fn lemma_sense_items_split(ms: Seq<SenseModel>, m: int)
    requires
        0 <= m < ms.len(),
    ensures
        encode_sense_items(ms) == (if m == 0 {
            Seq::<char>::empty()
        } else {
            encode_sense_items(ms.take(m)) + seq![',']
        }) + encode_sense(ms[m]) + (if m + 1 < ms.len() {
            seq![','] + encode_sense_items(ms.skip(m + 1))
        } else {
            Seq::<char>::empty()
        }),
    decreases m,
{
    let df = ms.drop_first();
    if m == 0 {
        if ms.len() == 1 {
            assert(encode_sense_items(ms) =~= Seq::<char>::empty() + encode_sense(ms[0])
                + Seq::<char>::empty());
        } else {
            assert(df =~= ms.skip(1));
            assert(encode_sense_items(ms) =~= Seq::<char>::empty() + encode_sense(ms[0]) + (seq![
                ','
            ] + encode_sense_items(ms.skip(1))));
        }
    } else {
        lemma_sense_items_split(df, m - 1);
        assert(df[m - 1] == ms[m]);
        assert(df.skip(m) =~= ms.skip(m + 1));
        if m == 1 {
            assert(encode_sense_items(ms.take(1)) == encode_sense(ms[0]));
            if m + 1 < ms.len() {
                assert(encode_sense_items(ms) =~= (encode_sense_items(ms.take(1)) + seq![','])
                    + encode_sense(ms[1]) + (seq![','] + encode_sense_items(ms.skip(2))));
            } else {
                assert(encode_sense_items(ms) =~= (encode_sense_items(ms.take(1)) + seq![','])
                    + encode_sense(ms[1]) + Seq::<char>::empty());
            }
        } else {
            assert(ms.take(m).drop_first() =~= df.take(m - 1));
            assert(ms.take(m)[0] == ms[0]);
            assert(ms.take(m).len() == m);
            assert(encode_sense_items(ms.take(m)) =~= encode_sense(ms[0]) + seq![',']
                + encode_sense_items(df.take(m - 1)));
            if m + 1 < ms.len() {
                assert(encode_sense_items(ms) =~= (encode_sense_items(ms.take(m)) + seq![','])
                    + encode_sense(ms[m]) + (seq![','] + encode_sense_items(ms.skip(m + 1))));
            } else {
                assert(encode_sense_items(ms) =~= (encode_sense_items(ms.take(m)) + seq![','])
                    + encode_sense(ms[m]) + Seq::<char>::empty());
            }
        }
    }
}

/// Reads a whole document as a JSON array of sense objects.
fn parse_senses_doc(v: &Vec<char>, Ghost(w): Ghost<Option<Seq<SenseModel>>>) -> (r: Option<
    Vec<Sense>,
>)
    requires
        w matches Some(ms) ==> v@ == encode_senses(ms),
    ensures
        w matches Some(ms) ==> (r matches Some(d) && d.deep_view() == ms),
{
    let ghost gms = match w {
        Some(ms) => ms,
        None => Seq::<SenseModel>::empty(),
    };
    proof {
        if w is Some {
            if gms.len() > 0 {
                lemma_sense_items_split(gms, 0);
                assert(encode_sense_items(gms)[0] == encode_sense(gms[0])[0]);
                assert(encode_sense(gms[0])[0] == '{');
                assert(v@[1] == encode_sense_items(gms)[0]);
            }
        }
    }
    if v.len() < 2 {
        proof {
            if w is Some {
                assert(encode_senses(gms).len() >= 2);
                assert(false);
            }
        }
        return None;
    }
    if v[0] != '[' {
        proof {
            if w is Some {
                assert(encode_senses(gms)[0] == '[');
                assert(false);
            }
        }
        return None;
    }
    if v.len() == 2 && v[1] == ']' {
        let empty_out: Vec<Sense> = Vec::new();
        proof {
            if w is Some {
                if gms.len() > 0 {
                    assert(v@[1] == '{');
                    assert(false);
                }
                assert(empty_out.deep_view() =~= gms);
            }
        }
        return Some(empty_out);
    }
    proof {
        if w is Some {
            if gms.len() == 0 {
                assert(encode_senses(gms) =~= seq!['[', ']']);
                assert(v@.len() == 2);
                assert(v@[1] == ']');
                assert(false);
            }
        }
    }
    let mut j: usize = 1;
    let mut out: Vec<Sense> = Vec::new();
    let ghost mut m: int = 0;
    loop
        invariant
            1 <= j <= v@.len(),
            w is Some ==> w == Some(gms),
            w is Some ==> v@ == encode_senses(gms),
            w is Some ==> 0 <= m < gms.len(),
            w is Some ==> out.deep_view() == gms.take(m),
            w is Some ==> j == 1 + (if m == 0 {
                0int
            } else {
                (encode_sense_items(gms.take(m)).len() + 1) as int
            }),
        decreases v@.len() - j,
    {
        let ghost gtail = if m + 1 < gms.len() {
            seq![','] + encode_sense_items(gms.skip(m + 1)) + seq![']']
        } else {
            seq![']']
        };
        proof {
            if w is Some {
                lemma_sense_items_split(gms, m);
                assert(v@.skip(j as int) =~= encode_sense(gms[m]) + gtail);
            }
        }
        let ghost wit = if w is Some {
            Some((gms[m], gtail))
        } else {
            None
        };
        match parse_sense_at(v, j, Ghost(wit)) {
            None => {
                proof {
                    if w is Some {
                        assert(false);
                    }
                }
                return None;
            },
            Some((s, j2)) => {
                out.push(s);
                proof {
                    if w is Some {
                        assert(out.deep_view() =~= gms.take(m + 1));
                    }
                }
                let ghost jold: usize = j;
                j = j2;
                proof {
                    if w is Some {
                        assert(v@.skip(j as int) =~= v@.skip(jold as int).skip(
                            encode_sense(gms[m]).len() as int,
                        ));
                        assert(v@.skip(j as int) =~= gtail);
                        assert(j < v@.len());
                        assert(v@[j as int] == gtail[0]);
                    }
                }
            },
        }
        if j < v.len() && v[j] == ',' {
            proof {
                if w is Some {
                    if m + 1 == gms.len() {
                        assert(v@[j as int] == ']');
                        assert(false);
                    }
                    lemma_sense_items_snoc(gms.take(m), gms[m]);
                    assert(gms.take(m).push(gms[m]) =~= gms.take(m + 1));
                    m = m + 1;
                }
            }
            j += 1;
        } else if j < v.len() && v[j] == ']' {
            proof {
                if w is Some {
                    if m + 1 < gms.len() {
                        assert(v@[j as int] == ',');
                        assert(false);
                    }
                    lemma_sense_items_snoc(gms.take(m), gms[m]);
                    assert(gms.take(m).push(gms[m]) =~= gms.take(m + 1));
                    assert(gms.take(m + 1) =~= gms);
                    assert(out.deep_view() == gms);
                    assert(j + 1 == v@.len());
                }
            }
            if j + 1 == v.len() {
                return Some(out);
            } else {
                proof {
                    if w is Some {
                        assert(false);
                    }
                }
                return None;
            }
        } else {
            proof {
                if w is Some {
                    assert(false);
                }
            }
            return None;
        }
    }
}

/// Reads a whole document as a JSON array of strings.
fn parse_strings_doc(v: &Vec<char>, Ghost(w): Ghost<Option<Seq<Seq<char>>>>) -> (r: Option<
    Vec<String>,
>)
    requires
        w matches Some(ws) ==> v@ == encode_string_array(ws),
    ensures
        w matches Some(ws) ==> (r matches Some(d) && d.deep_view() == ws),
{
    let ghost gws = match w {
        Some(ws) => ws,
        None => Seq::<Seq<char>>::empty(),
    };
    proof {
        if w is Some {
            assert(v@.skip(0) =~= v@);
            assert(encode_string_array(gws) + Seq::<char>::empty() =~= encode_string_array(gws));
        }
    }
    let ghost wit = if w is Some {
        Some((gws, Seq::<char>::empty()))
    } else {
        None
    };
    match parse_string_array_at(v, 0, Ghost(wit)) {
        None => {
            proof {
                if w is Some {
                    assert(false);
                }
            }
            None
        },
        Some((out, j)) => {
            if j == v.len() {
                Some(out)
            } else {
                proof {
                    if w is Some {
                        assert(j == encode_string_array(gws).len());
                        assert(false);
                    }
                }
                None
            }
        },
    }
}

/// Compares two character vectors.
fn vec_char_eq(a: &Vec<char>, b: &Vec<char>) -> (r: bool)
    ensures
        r == (a@ == b@),
{
    if a.len() != b.len() {
        proof {
            assert(a@ != b@) by {
                if a@ == b@ {
                    assert(a@.len() == b@.len());
                }
            }
        }
        return false;
    }
    let mut i: usize = 0;
    while i < a.len()
        invariant
            i <= a@.len(),
            a@.len() == b@.len(),
            forall|k: int| 0 <= k < i ==> a@[k] == b@[k],
        decreases a@.len() - i,
    {
        if a[i] != b[i] {
            return false;
        }
        i += 1;
    }
    proof {
        assert(a@ =~= b@);
    }
    true
}

/// Decodes a stored or received definition payload.  Answers `Some`
/// exactly when the text is the canonical sense-array encoding of a
/// definition list, and then of the one list with that encoding: decoding
/// what [`encode_definitions`] produced gives back exactly its argument.
pub fn decode_definitions(s: &str) -> (r: Option<Vec<Sense>>)
    ensures
        r matches Some(d) ==> s@ == encode_senses(d.deep_view()),
        (exists|ms: Seq<SenseModel>| s@ == encode_senses(ms)) <==> r is Some,
        r matches Some(d) ==> forall|ms: Seq<SenseModel>|
            s@ == encode_senses(ms) ==> d.deep_view() == ms,
{
    let chars = str_to_chars(s);
    let ghost wit = if exists|ms: Seq<SenseModel>| s@ == encode_senses(ms) {
        Some(choose|ms: Seq<SenseModel>| s@ == encode_senses(ms))
    } else {
        None
    };
    match parse_senses_doc(&chars, Ghost(wit)) {
        None => {
            proof {
                if wit is Some {
                    assert(false);
                }
            }
            None
        },
        Some(d) => {
            let mut re: Vec<char> = Vec::new();
            push_senses(&mut re, &d);
            if vec_char_eq(&re, &chars) {
                proof {
                    assert forall|ms: Seq<SenseModel>|
                        s@ == encode_senses(ms) implies d.deep_view() == ms by {
                        lemma_encode_senses_injective(d.deep_view(), ms);
                    }
                }
                Some(d)
            } else {
                proof {
                    if wit is Some {
                        assert(false);
                    }
                }
                None
            }
        },
    }
}

/// Decodes a suggestion-list body.  Answers `Some` exactly when the text
/// is the canonical string-array encoding of a suggestion list, and then of
/// the one list with that encoding.
pub fn decode_suggestions(s: &str) -> (r: Option<Vec<String>>)
    ensures
        r matches Some(d) ==> s@ == encode_string_array(d.deep_view()),
        (exists|ws: Seq<Seq<char>>| s@ == encode_string_array(ws)) <==> r is Some,
        r matches Some(d) ==> forall|ws: Seq<Seq<char>>|
            s@ == encode_string_array(ws) ==> d.deep_view() == ws,
{
    let chars = str_to_chars(s);
    let ghost wit = if exists|ws: Seq<Seq<char>>| s@ == encode_string_array(ws) {
        Some(choose|ws: Seq<Seq<char>>| s@ == encode_string_array(ws))
    } else {
        None
    };
    match parse_strings_doc(&chars, Ghost(wit)) {
        None => {
            proof {
                if wit is Some {
                    assert(false);
                }
            }
            None
        },
        Some(d) => {
            let mut re: Vec<char> = Vec::new();
            push_string_array(&mut re, &d);
            if vec_char_eq(&re, &chars) {
                proof {
                    assert forall|ws: Seq<Seq<char>>|
                        s@ == encode_string_array(ws) implies d.deep_view() == ws by {
                        lemma_encode_string_array_injective(d.deep_view(), ws);
                    }
                }
                Some(d)
            } else {
                proof {
                    if wit is Some {
                        assert(false);
                    }
                }
                None
            }
        },
    }
}

/// Canonical escapes form a prefix code: equal streams begin with equal
/// escapes.
proof fn lemma_esc_prefix(a: char, b: char, r1: Seq<char>, r2: Seq<char>)
    requires
        esc_char(a) + r1 == esc_char(b) + r2,
    ensures
        a == b,
        r1 == r2,
{
    let ea = esc_char(a);
    let eb = esc_char(b);
    assert((ea + r1)[0] == ea[0]);
    assert((eb + r2)[0] == eb[0]);
    assert(ea[0] == eb[0]);
    if ea.len() == 1 && eb.len() == 1 {
        assert(a == ea[0]);
        assert(b == eb[0]);
        assert(r1 =~= (ea + r1).skip(1));
        assert(r2 =~= (eb + r2).skip(1));
    } else if ea.len() == 1 {
        assert(a == ea[0]);
        assert(a != '\\');
        assert(eb[0] == '\\');
        assert(false);
    } else if eb.len() == 1 {
        assert(b == eb[0]);
        assert(b != '\\');
        assert(ea[0] == '\\');
        assert(false);
    } else {
        assert((ea + r1).len() == (eb + r2).len());
        assert((ea + r1)[1] == ea[1]);
        assert((eb + r2)[1] == eb[1]);
        assert(ea[1] == eb[1]);
        if ea.len() == 2 && eb.len() == 2 {
            assert(a == b);
            assert(r1 =~= (ea + r1).skip(2));
            assert(r2 =~= (eb + r2).skip(2));
        } else if ea.len() == 2 {
            assert(eb[1] == 'u');
            assert(ea[1] == '"' || ea[1] == '\\' || ea[1] == 'n' || ea[1] == 't' || ea[1] == 'r');
            assert(false);
        } else if eb.len() == 2 {
            assert(ea[1] == 'u');
            assert(eb[1] == '"' || eb[1] == '\\' || eb[1] == 'n' || eb[1] == 't' || eb[1] == 'r');
            assert(false);
        } else {
            let va = a as u32 as int;
            let vb = b as u32 as int;
            assert((ea + r1)[4] == ea[4]);
            assert((eb + r2)[4] == eb[4]);
            assert((ea + r1)[5] == ea[5]);
            assert((eb + r2)[5] == eb[5]);
            assert(hex_digit(va / 16) == hex_digit(vb / 16));
            assert(hex_digit(va % 16) == hex_digit(vb % 16));
            lemma_hex_digit_injective(va / 16, vb / 16);
            lemma_hex_digit_injective(va % 16, vb % 16);
            assert(va == vb);
            vstd::utf8::char_u32_cast(a, a as u32);
            vstd::utf8::char_u32_cast(b, b as u32);
            assert(a == b);
            assert(r1 =~= (ea + r1).skip(6));
            assert(r2 =~= (eb + r2).skip(6));
        }
    }
}

/// String bodies form a prefix code up to the closing quote: no escape
/// starts with a quote, so equal streams that end each body with a quote
/// carry equal bodies.
proof fn lemma_body_prefix(s1: Seq<char>, s2: Seq<char>, t1: Seq<char>, t2: Seq<char>)
    requires
        encode_string_body(s1) + t1 == encode_string_body(s2) + t2,
        t1.len() > 0,
        t1[0] == '"',
        t2.len() > 0,
        t2[0] == '"',
    ensures
        s1 == s2,
        t1 == t2,
    decreases s1.len(),
{
    let b1 = encode_string_body(s1);
    let b2 = encode_string_body(s2);
    if s1.len() == 0 && s2.len() == 0 {
        assert(t1 =~= b1 + t1);
        assert(t2 =~= b2 + t2);
        assert(s1 =~= s2);
    } else if s1.len() == 0 {
        lemma_body_first(s2);
        assert((b2 + t2)[0] == esc_char(s2[0])[0]);
        assert(esc_char(s2[0])[0] != '"');
        assert((b1 + t1)[0] == t1[0]);
        assert(false);
    } else if s2.len() == 0 {
        lemma_body_first(s1);
        assert((b1 + t1)[0] == esc_char(s1[0])[0]);
        assert(esc_char(s1[0])[0] != '"');
        assert((b2 + t2)[0] == t2[0]);
        assert(false);
    } else {
        lemma_body_first(s1);
        lemma_body_first(s2);
        assert(esc_char(s1[0]) + (encode_string_body(s1.drop_first()) + t1) =~= b1 + t1);
        assert(esc_char(s2[0]) + (encode_string_body(s2.drop_first()) + t2) =~= b2 + t2);
        lemma_esc_prefix(
            s1[0],
            s2[0],
            encode_string_body(s1.drop_first()) + t1,
            encode_string_body(s2.drop_first()) + t2,
        );
        lemma_body_prefix(s1.drop_first(), s2.drop_first(), t1, t2);
        assert(s1 =~= seq![s1[0]] + s1.drop_first());
        assert(s2 =~= seq![s2[0]] + s2.drop_first());
    }
}

/// Canonical JSON strings form a prefix code.
proof fn lemma_string_prefix(s1: Seq<char>, s2: Seq<char>, u1: Seq<char>, u2: Seq<char>)
    requires
        encode_string(s1) + u1 == encode_string(s2) + u2,
    ensures
        s1 == s2,
        u1 == u2,
{
    let b1 = encode_string_body(s1);
    let b2 = encode_string_body(s2);
    assert(b1 + (seq!['"'] + u1) =~= (encode_string(s1) + u1).skip(1));
    assert(b2 + (seq!['"'] + u2) =~= (encode_string(s2) + u2).skip(1));
    lemma_body_prefix(s1, s2, seq!['"'] + u1, seq!['"'] + u2);
    assert(u1 =~= (seq!['"'] + u1).skip(1));
    assert(u2 =~= (seq!['"'] + u2).skip(1));
}

/// Comma-separated canonical strings, closed by a bracket, form a prefix
/// code.
proof fn lemma_string_items_prefix(ss1: Seq<Seq<char>>, ss2: Seq<Seq<char>>, u1: Seq<char>, u2: Seq<
    char,
>)
    requires
        encode_string_items(ss1) + seq![']'] + u1 == encode_string_items(ss2) + seq![']'] + u2,
    ensures
        ss1 == ss2,
        u1 == u2,
    decreases ss1.len(),
{
    let t1 = encode_string_items(ss1);
    let t2 = encode_string_items(ss2);
    if ss1.len() == 0 && ss2.len() == 0 {
        assert(ss1 =~= ss2);
        assert(u1 =~= (t1 + seq![']'] + u1).skip(1));
        assert(u2 =~= (t2 + seq![']'] + u2).skip(1));
    } else if ss1.len() == 0 {
        lemma_string_items_split(ss2, 0);
        assert((t2 + seq![']'] + u2)[0] == encode_string(ss2[0])[0]);
        assert((t1 + seq![']'] + u1)[0] == ']');
        assert(false);
    } else if ss2.len() == 0 {
        lemma_string_items_split(ss1, 0);
        assert((t1 + seq![']'] + u1)[0] == encode_string(ss1[0])[0]);
        assert((t2 + seq![']'] + u2)[0] == ']');
        assert(false);
    } else {
        let d1 = ss1.drop_first();
        let d2 = ss2.drop_first();
        let r1 = if ss1.len() > 1 {
            seq![','] + encode_string_items(d1) + seq![']'] + u1
        } else {
            seq![']'] + u1
        };
        let r2 = if ss2.len() > 1 {
            seq![','] + encode_string_items(d2) + seq![']'] + u2
        } else {
            seq![']'] + u2
        };
        assert(encode_string(ss1[0]) + r1 =~= t1 + seq![']'] + u1);
        assert(encode_string(ss2[0]) + r2 =~= t2 + seq![']'] + u2);
        lemma_string_prefix(ss1[0], ss2[0], r1, r2);
        assert(r1[0] == r2[0]);
        if ss1.len() > 1 && ss2.len() > 1 {
            assert(encode_string_items(d1) + seq![']'] + u1 =~= r1.skip(1));
            assert(encode_string_items(d2) + seq![']'] + u2 =~= r2.skip(1));
            lemma_string_items_prefix(d1, d2, u1, u2);
            assert(ss1 =~= seq![ss1[0]] + d1);
            assert(ss2 =~= seq![ss2[0]] + d2);
        } else if ss1.len() > 1 {
            assert(r1[0] == ',');
            assert(r2[0] == ']');
            assert(false);
        } else if ss2.len() > 1 {
            assert(r1[0] == ']');
            assert(r2[0] == ',');
            assert(false);
        } else {
            assert(ss1 =~= seq![ss1[0]]);
            assert(ss2 =~= seq![ss2[0]]);
            assert(u1 =~= r1.skip(1));
            assert(u2 =~= r2.skip(1));
        }
    }
}

/// Canonical string arrays form a prefix code.
proof fn lemma_string_array_prefix(ss1: Seq<Seq<char>>, ss2: Seq<Seq<char>>, u1: Seq<char>, u2: Seq<
    char,
>)
    requires
        encode_string_array(ss1) + u1 == encode_string_array(ss2) + u2,
    ensures
        ss1 == ss2,
        u1 == u2,
{
    assert(encode_string_items(ss1) + seq![']'] + u1 =~= (encode_string_array(ss1) + u1).skip(1));
    assert(encode_string_items(ss2) + seq![']'] + u2 =~= (encode_string_array(ss2) + u2).skip(1));
    lemma_string_items_prefix(ss1, ss2, u1, u2);
}

/// The canonical string-array text determines the strings: the encoder is
/// injective, so decoding an encoded suggestion list gives back exactly
/// that list.
pub proof fn lemma_encode_string_array_injective(ss1: Seq<Seq<char>>, ss2: Seq<Seq<char>>)
    requires
        encode_string_array(ss1) == encode_string_array(ss2),
    ensures
        ss1 == ss2,
{
    assert(encode_string_array(ss1) + Seq::<char>::empty() =~= encode_string_array(ss1));
    assert(encode_string_array(ss2) + Seq::<char>::empty() =~= encode_string_array(ss2));
    lemma_string_array_prefix(ss1, ss2, Seq::<char>::empty(), Seq::<char>::empty());
}

/// Canonical sense objects form a prefix code.
proof fn lemma_sense_prefix(m1: SenseModel, m2: SenseModel, u1: Seq<char>, u2: Seq<char>)
    requires
        encode_sense(m1) + u1 == encode_sense(m2) + u2,
    ensures
        m1 == m2,
        u1 == u2,
{
    let key2 = seq![',', '"', 's', 'h', 'o', 'r', 't', 'd', 'e', 'f', '"', ':'];
    let r1 = key2 + encode_string_array(m1.shortdef) + seq!['}'] + u1;
    let r2 = key2 + encode_string_array(m2.shortdef) + seq!['}'] + u2;
    assert(encode_string(m1.fl) + r1 =~= (encode_sense(m1) + u1).skip(6));
    assert(encode_string(m2.fl) + r2 =~= (encode_sense(m2) + u2).skip(6));
    lemma_string_prefix(m1.fl, m2.fl, r1, r2);
    assert(encode_string_array(m1.shortdef) + (seq!['}'] + u1) =~= r1.skip(12));
    assert(encode_string_array(m2.shortdef) + (seq!['}'] + u2) =~= r2.skip(12));
    lemma_string_array_prefix(m1.shortdef, m2.shortdef, seq!['}'] + u1, seq!['}'] + u2);
    assert(u1 =~= (seq!['}'] + u1).skip(1));
    assert(u2 =~= (seq!['}'] + u2).skip(1));
}

/// Comma-separated canonical senses, closed by a bracket, form a prefix
/// code.
#[verifier::rlimit(60)]
proof fn lemma_sense_items_prefix(ms1: Seq<SenseModel>, ms2: Seq<SenseModel>, u1: Seq<char>, u2: Seq<
    char,
>)
    requires
        encode_sense_items(ms1) + seq![']'] + u1 == encode_sense_items(ms2) + seq![']'] + u2,
    ensures
        ms1 == ms2,
        u1 == u2,
    decreases ms1.len(),
{
    let t1 = encode_sense_items(ms1);
    let t2 = encode_sense_items(ms2);
    if ms1.len() == 0 && ms2.len() == 0 {
        assert(ms1 =~= ms2);
        assert(u1 =~= (t1 + seq![']'] + u1).skip(1));
        assert(u2 =~= (t2 + seq![']'] + u2).skip(1));
    } else if ms1.len() == 0 {
        lemma_sense_items_split(ms2, 0);
        assert((t2 + seq![']'] + u2)[0] == encode_sense(ms2[0])[0]);
        assert((t1 + seq![']'] + u1)[0] == ']');
        assert(false);
    } else if ms2.len() == 0 {
        lemma_sense_items_split(ms1, 0);
        assert((t1 + seq![']'] + u1)[0] == encode_sense(ms1[0])[0]);
        assert((t2 + seq![']'] + u2)[0] == ']');
        assert(false);
    } else {
        let d1 = ms1.drop_first();
        let d2 = ms2.drop_first();
        let r1 = if ms1.len() > 1 {
            seq![','] + encode_sense_items(d1) + seq![']'] + u1
        } else {
            seq![']'] + u1
        };
        let r2 = if ms2.len() > 1 {
            seq![','] + encode_sense_items(d2) + seq![']'] + u2
        } else {
            seq![']'] + u2
        };
        assert(encode_sense(ms1[0]) + r1 =~= t1 + seq![']'] + u1);
        assert(encode_sense(ms2[0]) + r2 =~= t2 + seq![']'] + u2);
        lemma_sense_prefix(ms1[0], ms2[0], r1, r2);
        assert(r1[0] == r2[0]);
        if ms1.len() > 1 && ms2.len() > 1 {
            assert(encode_sense_items(d1) + seq![']'] + u1 =~= r1.skip(1));
            assert(encode_sense_items(d2) + seq![']'] + u2 =~= r2.skip(1));
            lemma_sense_items_prefix(d1, d2, u1, u2);
            assert(ms1 =~= seq![ms1[0]] + d1);
            assert(ms2 =~= seq![ms2[0]] + d2);
        } else if ms1.len() > 1 {
            assert(r1[0] == ',');
            assert(r2[0] == ']');
            assert(false);
        } else if ms2.len() > 1 {
            assert(r1[0] == ']');
            assert(r2[0] == ',');
            assert(false);
        } else {
            assert(ms1 =~= seq![ms1[0]]);
            assert(ms2 =~= seq![ms2[0]]);
            assert(u1 =~= r1.skip(1));
            assert(u2 =~= r2.skip(1));
        }
    }
}

/// The canonical sense-array text determines the senses: the encoder is
/// injective, so decoding an encoded definition gives back exactly that
/// definition.
pub proof fn lemma_encode_senses_injective(ms1: Seq<SenseModel>, ms2: Seq<SenseModel>)
    requires
        encode_senses(ms1) == encode_senses(ms2),
    ensures
        ms1 == ms2,
{
    assert(encode_sense_items(ms1) + seq![']'] + Seq::<char>::empty() =~= encode_senses(ms1).skip(
        1,
    ));
    assert(encode_sense_items(ms2) + seq![']'] + Seq::<char>::empty() =~= encode_senses(ms2).skip(
        1,
    ));
    lemma_sense_items_prefix(ms1, ms2, Seq::<char>::empty(), Seq::<char>::empty());
}

/// A non-empty sense array never encodes to the two-character empty array.
proof fn lemma_senses_nonempty_len(ms: Seq<SenseModel>)
    requires
        ms.len() > 0,
    ensures
        encode_senses(ms).len() > 2,
{
    assert(encode_sense(ms[0]).len() >= 23);
    if ms.len() == 1 {
        assert(encode_sense_items(ms) == encode_sense(ms[0]));
    } else {
        assert(encode_sense_items(ms) == encode_sense(ms[0]) + seq![','] + encode_sense_items(
            ms.drop_first(),
        ));
    }
}

/// Interprets a provider response body, trying the sense-array shape first
/// and falling back to the suggestion-array shape, per the provider's
/// schema-polymorphic contract.  A match is a non-empty canonical sense
/// array; an empty array or a canonical string array means "no exact match,
/// here are the close ones".  A body in neither shape is a provider
/// failure.
pub fn interpret_provider_body(s: &str) -> (r: ProviderReply)
    ensures
        r matches ProviderReply::Found(d) ==> s@ == encode_senses(d.deep_view()) && d@.len() > 0,
        r matches ProviderReply::NotFound(ww) ==> s@ == encode_string_array(ww.deep_view()) && !(
        exists|ms: Seq<SenseModel>| ms.len() > 0 && s@ == encode_senses(ms)),
        r is Failed ==> !(exists|ms: Seq<SenseModel>| ms.len() > 0 && s@ == encode_senses(ms)) && !(
        exists|ws: Seq<Seq<char>>| s@ == encode_string_array(ws)),
{
    match decode_definitions(s) {
        Some(d) => {
            if d.len() > 0 {
                ProviderReply::Found(d)
            } else {
                proof {
                    assert(d.deep_view() =~= Seq::<SenseModel>::empty());
                    assert(encode_senses(d.deep_view()) =~= seq!['[', ']']);
                    assert(encode_string_array(Seq::<Seq<char>>::empty()) =~= seq!['[', ']']);
                    assert(s@ == encode_string_array(Seq::<Seq<char>>::empty()));
                    if exists|ms: Seq<SenseModel>| ms.len() > 0 && s@ == encode_senses(ms) {
                        let ms = choose|ms: Seq<SenseModel>|
                            ms.len() > 0 && s@ == encode_senses(ms);
                        lemma_senses_nonempty_len(ms);
                        assert(false);
                    }
                }
                match decode_suggestions(s) {
                    Some(ww) => ProviderReply::NotFound(ww),
                    None => {
                        proof {
                            assert(false);
                        }
                        ProviderReply::Failed
                    },
                }
            }
        },
        None => {
            proof {
                if exists|ms: Seq<SenseModel>| ms.len() > 0 && s@ == encode_senses(ms) {
                    let ms = choose|ms: Seq<SenseModel>| ms.len() > 0 && s@ == encode_senses(ms);
                    assert(false);
                }
            }
            match decode_suggestions(s) {
                Some(ww) => ProviderReply::NotFound(ww),
                None => ProviderReply::Failed,
            }
        },
    }
}

/// Turns the outcome of one provider call into a reply for the lookup
/// core: a failed call (network error, timeout, non-success status) is a
/// failure whatever the body; a successful call is judged by its body
/// alone, per [`interpret_provider_body`].
pub fn provider_reply_of_call(success: bool, body: &str) -> (r: ProviderReply)
    ensures
        !success ==> r is Failed,
        r matches ProviderReply::Found(d) ==> success && body@ == encode_senses(d.deep_view())
            && d@.len() > 0,
        r matches ProviderReply::NotFound(ww) ==> success && body@ == encode_string_array(
            ww.deep_view(),
        ),
        success && r is Failed ==> !(exists|ms: Seq<SenseModel>|
            ms.len() > 0 && body@ == encode_senses(ms)) && !(exists|ws: Seq<Seq<char>>|
            body@ == encode_string_array(ws)),
{
    if success {
        interpret_provider_body(body)
    } else {
        ProviderReply::Failed
    }
}

} // verus!
