//! The two artifact generators.
//!
//! Both are deterministic transforms from an output set to the exact text of
//! one generated file. The JSON artifact folds the outputs into a flat
//! key/value object where a later occurrence of a key overwrites an earlier
//! one; the type-binding artifact emits one declaration line per output in
//! original order, duplicates retained. The asymmetry is deliberate and kept.

use vstd::prelude::*;
use vstd::string::*;

use crate::outputs::Output;
use crate::outputs::OutputSet;

verus! {

/// One declaration line of the type-binding artifact.
pub open spec fn typings_line(key: Seq<char>) -> Seq<char> {
    key + ": string,\n"@
}

/// The concatenated declaration lines: one per output, in original order,
/// duplicate keys repeated.
pub open spec fn typings_body(outs: Seq<Output>) -> Seq<char>
    decreases outs.len(),
{
    if outs.len() == 0 {
        Seq::empty()
    } else {
        typings_body(outs.drop_last()) + typings_line(outs.last().key@)
    }
}

/// The whole type-binding artifact: the lines wrapped in the fixed module
/// template.
pub open spec fn typings_artifact_spec(outs: Seq<Output>) -> Seq<char> {
    "declare module NodeJs { interface ProcessEnv { "@ + typings_body(outs) + " } }"@
}

/// Generates the type-binding artifact for an output set.
pub fn typings_artifact(outputs: &OutputSet) -> (r: String)
    ensures
        r@ == typings_artifact_spec(outputs@),
{
    let mut body = String::new();
    let mut idx: usize = 0;
    while idx < outputs.len()
        invariant
            idx <= outputs.len(),
            body@ == typings_body(outputs@.take(idx as int)),
        decreases outputs.len() - idx,
    {
        body.append(outputs[idx].key.as_str());
        body.append(": string,\n");
        proof {
            let taken = outputs@.take(idx as int + 1);
            assert(taken.drop_last() =~= outputs@.take(idx as int));
            assert(taken.last() == outputs@[idx as int]);
            assert(body@ =~= typings_body(taken));
        }
        idx += 1;
    }
    proof {
        assert(outputs@.take(outputs@.len() as int) =~= outputs@);
    }
    let mut r = String::from_str("declare module NodeJs { interface ProcessEnv { ");
    r.append(body.as_str());
    r.append(" } }");
    r
}

/// Whether some pair in `pairs` has the key `k`.
pub open spec fn has_key(pairs: Seq<(Seq<char>, Seq<char>)>, k: Seq<char>) -> bool {
    exists|i: int| 0 <= i < pairs.len() && pairs[i].0 == k
}

/// `pairs` with every pair keyed `k` given the value `v`.
pub open spec fn set_key(
    pairs: Seq<(Seq<char>, Seq<char>)>,
    k: Seq<char>,
    v: Seq<char>,
) -> Seq<(Seq<char>, Seq<char>)> {
    pairs.map_values(
        |p: (Seq<char>, Seq<char>)|
            if p.0 == k {
                (k, v)
            } else {
                p
            },
    )
}

/// The fold of an output set into key/value pairs: keys keep the position of
/// their first occurrence, and a later occurrence of a key overwrites the
/// value — last write wins.
pub open spec fn fold_pairs(outs: Seq<Output>) -> Seq<(Seq<char>, Seq<char>)>
    decreases outs.len(),
{
    if outs.len() == 0 {
        Seq::empty()
    } else {
        let rest = fold_pairs(outs.drop_last());
        let k = outs.last().key@;
        let v = outs.last().value@;
        if has_key(rest, k) {
            set_key(rest, k, v)
        } else {
            rest.push((k, v))
        }
    }
}

/// The pairs that a vector of owned strings stands for.
pub open spec fn pairs_view(s: Seq<(String, String)>) -> Seq<(Seq<char>, Seq<char>)> {
    s.map_values(|p: (String, String)| (p.0@, p.1@))
}

/// Folds an output set into its key/value pairs, last write per key winning.
pub fn fold_outputs(outputs: &OutputSet) -> (r: Vec<(String, String)>)
    ensures
        pairs_view(r@) == fold_pairs(outputs@),
{
    let mut acc: Vec<(String, String)> = Vec::new();
    let mut idx: usize = 0;
    while idx < outputs.len()
        invariant
            idx <= outputs.len(),
            pairs_view(acc@) == fold_pairs(outputs@.take(idx as int)),
        decreases outputs.len() - idx,
    {
        let key = &outputs[idx].key;
        let val = &outputs[idx].value;
        let mut updated: Vec<(String, String)> = Vec::new();
        let mut found = false;
        let mut j: usize = 0;
        while j < acc.len()
            invariant
                j <= acc.len(),
                found == has_key(pairs_view(acc@.take(j as int)), key@),
                pairs_view(updated@) =~= set_key(pairs_view(acc@.take(j as int)), key@, val@),
            decreases acc.len() - j,
        {
            let ghost updated0 = updated@;
            if acc[j].0 == *key {
                updated.push((key.clone(), val.clone()));
                found = true;
            } else {
                updated.push((acc[j].0.clone(), acc[j].1.clone()));
            }
            proof {
                let prev = pairs_view(acc@.take(j as int));
                let now = pairs_view(acc@.take(j as int + 1));
                assert(pairs_view(updated0).len() == updated0.len());
                assert(set_key(prev, key@, val@).len() == prev.len());
                assert(updated0.len() == j as int);
                assert(now =~= prev.push((acc@[j as int].0@, acc@[j as int].1@)));
                if acc@[j as int].0@ == key@ {
                    assert(now[j as int].0 == key@);
                    assert(has_key(now, key@));
                } else {
                    if has_key(now, key@) {
                        let w = choose|w: int| 0 <= w < now.len() && now[w].0 == key@;
                        assert(w != j as int);
                        assert(prev[w].0 == key@);
                        assert(has_key(prev, key@));
                    }
                    if has_key(prev, key@) {
                        let w = choose|w: int| 0 <= w < prev.len() && prev[w].0 == key@;
                        assert(now[w].0 == key@);
                        assert(has_key(now, key@));
                    }
                }
                let u = pairs_view(updated@);
                let s = set_key(now, key@, val@);
                assert(updated@ == updated0.push((updated@[j as int].0, updated@[j as int].1)));
                assert(u.len() == s.len());
                assert forall|t: int| 0 <= t < u.len() implies u[t] == s[t] by {
                    assert(u[t] == (updated@[t].0@, updated@[t].1@));
                    assert(s[t] == (if now[t].0 == key@ {
                        (key@, val@)
                    } else {
                        now[t]
                    }));
                    if t < j as int {
                        assert(updated@[t] == updated0[t]);
                        assert(pairs_view(updated0)[t] == (updated0[t].0@, updated0[t].1@));
                        assert(pairs_view(updated0)[t] == set_key(prev, key@, val@)[t]);
                        assert(now[t] == prev[t]);
                    } else {
                        assert(now[t] == (acc@[j as int].0@, acc@[j as int].1@));
                    }
                }
                assert(u =~= s);
            }
            j += 1;
        }
        proof {
            assert(acc@.take(acc@.len() as int) =~= acc@);
        }
        if !found {
            updated.push((key.clone(), val.clone()));
            proof {
                assert(set_key(pairs_view(acc@), key@, val@) =~= pairs_view(acc@));
            }
        }
        acc = updated;
        proof {
            let taken = outputs@.take(idx as int + 1);
            assert(taken.drop_last() =~= outputs@.take(idx as int));
            assert(taken.last() == outputs@[idx as int]);
            assert(pairs_view(acc@) =~= fold_pairs(taken));
        }
        idx += 1;
    }
    proof {
        assert(outputs@.take(outputs@.len() as int) =~= outputs@);
    }
    acc
}

/// The lower-case hexadecimal digit for a value below sixteen.
pub open spec fn hex_digit(d: int) -> char {
    if d == 0 {
        '0'
    } else if d == 1 {
        '1'
    } else if d == 2 {
        '2'
    } else if d == 3 {
        '3'
    } else if d == 4 {
        '4'
    } else if d == 5 {
        '5'
    } else if d == 6 {
        '6'
    } else if d == 7 {
        '7'
    } else if d == 8 {
        '8'
    } else if d == 9 {
        '9'
    } else if d == 10 {
        'a'
    } else if d == 11 {
        'b'
    } else if d == 12 {
        'c'
    } else if d == 13 {
        'd'
    } else if d == 14 {
        'e'
    } else {
        'f'
    }
}

/// The value of a lower-case hexadecimal digit, or -1 for any other
/// character.
pub open spec fn hex_val(c: char) -> int {
    if c == '0' {
        0
    } else if c == '1' {
        1
    } else if c == '2' {
        2
    } else if c == '3' {
        3
    } else if c == '4' {
        4
    } else if c == '5' {
        5
    } else if c == '6' {
        6
    } else if c == '7' {
        7
    } else if c == '8' {
        8
    } else if c == '9' {
        9
    } else if c == 'a' {
        10
    } else if c == 'b' {
        11
    } else if c == 'c' {
        12
    } else if c == 'd' {
        13
    } else if c == 'e' {
        14
    } else if c == 'f' {
        15
    } else {
        -1
    }
}

/// The character with a given code point.
pub open spec fn char_of_code(v: int) -> char {
    (v as u32) as char
}

/// How one character is written inside a JSON string: quote, backslash and
/// the common control characters get their short escapes, every other
/// control character below U+0020 its `\u00XX` form — what the JSON grammar
/// requires — and every remaining character stands for itself.
pub open spec fn json_escape_char(c: char) -> Seq<char> {
    if c == '"' {
        seq!['\\', '"']
    } else if c == '\\' {
        seq!['\\', '\\']
    } else if c == '\n' {
        seq!['\\', 'n']
    } else if c == '\r' {
        seq!['\\', 'r']
    } else if c == '\t' {
        seq!['\\', 't']
    } else if (c as u32) < 32 {
        seq!['\\', 'u', '0', '0', hex_digit(((c as u32) / 16) as int), hex_digit(
            ((c as u32) % 16) as int,
        )]
    } else {
        seq![c]
    }
}

/// The escaped body of a JSON string.
pub open spec fn json_escape(s: Seq<char>) -> Seq<char>
    decreases s.len(),
{
    if s.len() == 0 {
        Seq::empty()
    } else {
        json_escape_char(s[0]) + json_escape(s.drop_first())
    }
}

/// Escaping a string one character longer appends that character's escape.
pub proof fn lemma_escape_push(s: Seq<char>, c: char)
    ensures
        json_escape(s.push(c)) == json_escape(s) + json_escape_char(c),
    decreases s.len(),
{
    if s.len() == 0 {
        assert(s.push(c)[0] == c);
        assert(s.push(c).drop_first() =~= Seq::<char>::empty());
        assert(json_escape(s.push(c)) == json_escape_char(c) + json_escape(
            Seq::<char>::empty(),
        ));
        assert(json_escape(Seq::<char>::empty()) == Seq::<char>::empty());
        assert(json_escape_char(c) + Seq::<char>::empty() =~= json_escape_char(c));
        assert(json_escape(s) + json_escape_char(c) =~= json_escape_char(c));
    } else {
        lemma_escape_push(s.drop_first(), c);
        assert(s.push(c).drop_first() =~= s.drop_first().push(c));
        assert(s.push(c)[0] == s[0]);
        assert(json_escape(s.push(c)) == json_escape_char(s[0]) + (json_escape(s.drop_first())
            + json_escape_char(c)));
        assert(json_escape_char(s[0]) + (json_escape(s.drop_first()) + json_escape_char(c))
            =~= (json_escape_char(s[0]) + json_escape(s.drop_first())) + json_escape_char(c));
        assert(json_escape(s.push(c)) =~= json_escape(s) + json_escape_char(c));
    }
}

/// A quoted, escaped JSON string.
pub open spec fn json_string(s: Seq<char>) -> Seq<char> {
    seq!['"'] + json_escape(s) + seq!['"']
}

/// One `"key":"value"` member of the JSON object.
pub open spec fn json_member(p: (Seq<char>, Seq<char>)) -> Seq<char> {
    json_string(p.0) + seq![':'] + json_string(p.1)
}

/// The comma-separated members of the JSON object, in pair order.
pub open spec fn json_members(pairs: Seq<(Seq<char>, Seq<char>)>) -> Seq<char>
    decreases pairs.len(),
{
    if pairs.len() == 0 {
        Seq::empty()
    } else if pairs.len() == 1 {
        json_member(pairs[0])
    } else {
        json_member(pairs[0]) + seq![','] + json_members(pairs.drop_first())
    }
}

/// Writing one more member appends a comma (except to an empty object body)
/// and the member's text.
pub proof fn lemma_members_push(pairs: Seq<(Seq<char>, Seq<char>)>, p: (Seq<char>, Seq<char>))
    ensures
        pairs.len() == 0 ==> json_members(pairs.push(p)) == json_member(p),
        pairs.len() > 0 ==> json_members(pairs.push(p)) == json_members(pairs) + seq![',']
            + json_member(p),
    decreases pairs.len(),
{
    if pairs.len() == 0 {
        assert(pairs.push(p)[0] == p);
    } else if pairs.len() == 1 {
        assert(pairs.push(p)[0] == pairs[0]);
        assert(pairs.push(p).drop_first() =~= seq![p]);
        assert(json_members(seq![p]) == json_member(p));
        assert(json_members(pairs.push(p)) =~= json_members(pairs) + seq![','] + json_member(p));
    } else {
        lemma_members_push(pairs.drop_first(), p);
        assert(pairs.push(p).drop_first() =~= pairs.drop_first().push(p));
        assert(pairs.push(p)[0] == pairs[0]);
        assert(json_members(pairs.push(p)) == json_member(pairs[0]) + seq![','] + json_members(
            pairs.drop_first().push(p),
        ));
        assert(json_members(pairs.push(p)) =~= json_members(pairs) + seq![','] + json_member(p));
    }
}

/// The whole JSON artifact for a sequence of key/value pairs: one flat
/// object, string keys to string values.
pub open spec fn json_object(pairs: Seq<(Seq<char>, Seq<char>)>) -> Seq<char> {
    seq!['{'] + json_members(pairs) + seq!['}']
}

/// The JSON artifact of an output set: its outputs folded last-write-wins,
/// then written as one flat object.
pub open spec fn json_artifact_spec(outs: Seq<Output>) -> Seq<char> {
    json_object(fold_pairs(outs))
}

/// Relies on String::push: it appends exactly the one character.
#[verifier::external_body]
fn push_char(s: &mut String, c: char)
    ensures
        final(s)@ == old(s)@ + seq![c],
{
    s.push(c);
}

/// The lower-case hexadecimal digit character for a value below sixteen.
fn hex_char(d: u32) -> (r: char)
    requires
        d < 16,
    ensures
        r == hex_digit(d as int),
{
    if d == 0 {
        '0'
    } else if d == 1 {
        '1'
    } else if d == 2 {
        '2'
    } else if d == 3 {
        '3'
    } else if d == 4 {
        '4'
    } else if d == 5 {
        '5'
    } else if d == 6 {
        '6'
    } else if d == 7 {
        '7'
    } else if d == 8 {
        '8'
    } else if d == 9 {
        '9'
    } else if d == 10 {
        'a'
    } else if d == 11 {
        'b'
    } else if d == 12 {
        'c'
    } else if d == 13 {
        'd'
    } else if d == 14 {
        'e'
    } else {
        'f'
    }
}

/// Appends `"` + the escaped text + `"` to `out`.
fn append_json_string(out: &mut String, s: &String)
    ensures
        final(out)@ == old(out)@ + json_string(s@),
{
    push_char(out, '"');
    let ghost start = out@;
    let n = s.as_str().unicode_len();
    let mut i: usize = 0;
    while i < n
        invariant
            i <= n,
            n == s@.len(),
            out@ == start + json_escape(s@.take(i as int)),
        decreases n - i,
    {
        let c = s.as_str().get_char(i);
        let ghost out0 = out@;
        if c == '"' {
            push_char(out, '\\');
            push_char(out, '"');
        } else if c == '\\' {
            push_char(out, '\\');
            push_char(out, '\\');
        } else if c == '\n' {
            push_char(out, '\\');
            push_char(out, 'n');
        } else if c == '\r' {
            push_char(out, '\\');
            push_char(out, 'r');
        } else if c == '\t' {
            push_char(out, '\\');
            push_char(out, 't');
        } else if (c as u32) < 32 {
            push_char(out, '\\');
            push_char(out, 'u');
            push_char(out, '0');
            push_char(out, '0');
            push_char(out, hex_char((c as u32) / 16));
            push_char(out, hex_char((c as u32) % 16));
        } else {
            push_char(out, c);
        }
        proof {
            lemma_escape_push(s@.take(i as int), c);
            assert(s@.take(i as int + 1) =~= s@.take(i as int).push(c));
            assert(out@ =~= out0 + json_escape_char(c));
            assert(out@ =~= start + json_escape(s@.take(i as int + 1)));
        }
        i += 1;
    }
    proof {
        assert(s@.take(s@.len() as int) =~= s@);
    }
    push_char(out, '"');
    proof {
        assert(out@ =~= old(out)@ + json_string(s@));
    }
}

/// Generates the JSON artifact for an output set: the outputs folded into a
/// flat object, a later occurrence of a key overwriting an earlier one.
pub fn json_artifact(outputs: &OutputSet) -> (r: String)
    ensures
        r@ == json_artifact_spec(outputs@),
{
    let pairs = fold_outputs(outputs);
    let mut r = String::new();
    push_char(&mut r, '{');
    let mut idx: usize = 0;
    while idx < pairs.len()
        invariant
            idx <= pairs.len(),
            pairs_view(pairs@) == fold_pairs(outputs@),
            r@ == seq!['{'] + json_members(pairs_view(pairs@).take(idx as int)),
        decreases pairs.len() - idx,
    {
        let ghost r0 = r@;
        if idx > 0 {
            push_char(&mut r, ',');
        }
        append_json_string(&mut r, &pairs[idx].0);
        push_char(&mut r, ':');
        append_json_string(&mut r, &pairs[idx].1);
        proof {
            let pv = pairs_view(pairs@);
            assert(pv.take(idx as int + 1) =~= pv.take(idx as int).push(pv[idx as int]));
            lemma_members_push(pv.take(idx as int), pv[idx as int]);
            assert(pv[idx as int] == (pairs@[idx as int].0@, pairs@[idx as int].1@));
            assert(r@ =~= seq!['{'] + json_members(pv.take(idx as int + 1)));
        }
        idx += 1;
    }
    proof {
        let pv = pairs_view(pairs@);
        assert(pv.take(pv.len() as int) =~= pv);
    }
    push_char(&mut r, '}');
    proof {
        assert(r@ =~= json_object(fold_pairs(outputs@)));
    }
    r
}

/// The character that an escape code stands for, when it is one this format
/// writes.
pub open spec fn unescape_code(c: char) -> Option<char> {
    if c == '"' {
        Some('"')
    } else if c == '\\' {
        Some('\\')
    } else if c == 'n' {
        Some('\n')
    } else if c == 'r' {
        Some('\r')
    } else if c == 't' {
        Some('\t')
    } else {
        None
    }
}

/// Reads the body of a JSON string in `s` from position `i` (just after the
/// opening quote) up to its closing quote: the unescaped content, and the
/// position just after the closing quote.
pub open spec fn parse_string_body(s: Seq<char>, i: int) -> Option<(Seq<char>, int)>
    decreases s.len() - i,
{
    if i < 0 || i >= s.len() {
        None
    } else if s[i] == '"' {
        Some((Seq::empty(), i + 1))
    } else if s[i] == '\\' {
        if i + 1 >= s.len() {
            None
        } else if s[i + 1] == 'u' {
            if i + 5 >= s.len() {
                None
            } else if s[i + 2] == '0' && s[i + 3] == '0' && hex_val(s[i + 4]) >= 0 && hex_val(
                s[i + 5],
            ) >= 0 {
                match parse_string_body(s, i + 6) {
                    None => None,
                    Some(t) => Some(
                        (seq![char_of_code(16 * hex_val(s[i + 4]) + hex_val(s[i + 5]))] + t.0, t.1),
                    ),
                }
            } else {
                None
            }
        } else {
            match unescape_code(s[i + 1]) {
                None => None,
                Some(u) => match parse_string_body(s, i + 2) {
                    None => None,
                    Some(t) => Some((seq![u] + t.0, t.1)),
                },
            }
        }
    } else {
        match parse_string_body(s, i + 1) {
            None => None,
            Some(t) => Some((seq![s[i]] + t.0, t.1)),
        }
    }
}

/// Reads one `"key":"value"` member of an object from position `i`: the
/// pair, and the position just after it.
pub open spec fn parse_member_at(s: Seq<char>, i: int) -> Option<((Seq<char>, Seq<char>), int)> {
    if 0 <= i < s.len() && s[i] == '"' {
        match parse_string_body(s, i + 1) {
            None => None,
            Some(k) => {
                if 0 <= k.1 && k.1 + 1 < s.len() && s[k.1] == ':' && s[k.1 + 1] == '"' {
                    match parse_string_body(s, k.1 + 2) {
                        None => None,
                        Some(v) => Some(((k.0, v.0), v.1)),
                    }
                } else {
                    None
                }
            },
        }
    } else {
        None
    }
}

/// Reads a whole object body — comma-separated members — and yields the
/// pairs in the order they stand.
pub open spec fn parse_members_list(body: Seq<char>) -> Option<Seq<(Seq<char>, Seq<char>)>>
    decreases body.len(),
{
    if body.len() == 0 {
        Some(Seq::empty())
    } else {
        match parse_member_at(body, 0) {
            None => None,
            Some(m) => {
                if m.1 == body.len() {
                    Some(seq![m.0])
                } else if 0 <= m.1 && m.1 < body.len() && body[m.1] == ',' {
                    match parse_members_list(body.subrange(m.1 + 1, body.len() as int)) {
                        None => None,
                        Some(rest) => Some(seq![m.0] + rest),
                    }
                } else {
                    None
                }
            },
        }
    }
}

/// Decodes a flat JSON object of string keys and string values back into
/// its key/value pairs, in the order they stand in the text.
pub open spec fn decode_object(s: Seq<char>) -> Option<Seq<(Seq<char>, Seq<char>)>> {
    if s.len() >= 2 && s[0] == '{' && s[s.len() - 1] == '}' {
        parse_members_list(s.subrange(1, s.len() - 1))
    } else {
        None
    }
}

proof fn lemma_parse_escaped(s: Seq<char>, i: int, k: Seq<char>)
    requires
        0 <= i,
        i + json_escape(k).len() + 1 <= s.len(),
        s.subrange(i, i + json_escape(k).len() + 1) == json_escape(k).push('"'),
    ensures
        parse_string_body(s, i) == Some((k, i + json_escape(k).len() + 1)),
    decreases k.len(),
{
    let e = json_escape(k);
    assert forall|t: int| 0 <= t < e.len() + 1 implies s[i + t] == e.push('"')[t] by {
        assert(s.subrange(i, i + e.len() + 1)[t] == s[i + t]);
    }
    if k.len() == 0 {
        assert(s[i + 0] == e.push('"')[0]);
        assert(e.push('"')[0] == '"');
        assert(s[i] == '"');
    } else {
        let c = k[0];
        let ec = json_escape_char(c);
        let k2 = k.drop_first();
        let e2 = json_escape(k2);
        assert(e == ec + e2);
        let i2 = i + ec.len();
        assert forall|t: int| 0 <= t < e2.len() + 1 implies s.subrange(
            i2,
            i2 + e2.len() + 1,
        )[t] == e2.push('"')[t] by {
            assert(s.subrange(i2, i2 + e2.len() + 1)[t] == s[i + (ec.len() + t)]);
            assert(s[i + (ec.len() + t)] == e.push('"')[ec.len() + t]);
        }
        assert(s.subrange(i2, i2 + e2.len() + 1) =~= e2.push('"'));
        lemma_parse_escaped(s, i2, k2);
        if c == '"' || c == '\\' || c == '\n' || c == '\r' || c == '\t' {
            assert(ec.len() == 2 && ec[0] == '\\');
            assert(s[i + 0] == e.push('"')[0]);
            assert(e.push('"')[0] == ec[0]);
            assert(s[i] == '\\');
            assert(s[i + 1] == e.push('"')[1]);
            assert(e.push('"')[1] == ec[1]);
            assert(unescape_code(ec[1]) == Some(c));
            assert(parse_string_body(s, i) == Some((seq![c] + k2, i2 + e2.len() + 1)));
        } else if (c as u32) < 32 {
            let hi = ((c as u32) / 16) as int;
            let lo = ((c as u32) % 16) as int;
            assert(ec.len() == 6);
            assert(s[i + 0] == e.push('"')[0]);
            assert(e.push('"')[0] == ec[0]);
            assert(s[i] == '\\');
            assert(s[i + 1] == e.push('"')[1]);
            assert(e.push('"')[1] == ec[1]);
            assert(s[i + 1] == 'u');
            assert(s[i + 2] == e.push('"')[2]);
            assert(e.push('"')[2] == ec[2]);
            assert(s[i + 3] == e.push('"')[3]);
            assert(e.push('"')[3] == ec[3]);
            assert(s[i + 4] == e.push('"')[4]);
            assert(e.push('"')[4] == ec[4]);
            assert(s[i + 5] == e.push('"')[5]);
            assert(e.push('"')[5] == ec[5]);
            assert(0 <= hi < 2);
            assert(0 <= lo < 16);
            assert(hex_val(hex_digit(hi)) == hi);
            assert(hex_val(hex_digit(lo)) == lo);
            assert(16 * hex_val(s[i + 4]) + hex_val(s[i + 5]) == (c as u32) as int);
            vstd::utf8::char_u32_cast(c, c as u32);
            assert((((c as u32) as int) as u32) == c as u32);
            assert(char_of_code((c as u32) as int) == c);
            assert(parse_string_body(s, i) == Some((seq![c] + k2, i2 + e2.len() + 1)));
        } else {
            assert(ec == seq![c]);
            assert(s[i + 0] == e.push('"')[0]);
            assert(e.push('"')[0] == ec[0]);
            assert(s[i] == c);
            assert(parse_string_body(s, i) == Some((seq![c] + k2, i2 + e2.len() + 1)));
        }
        assert(seq![c] + k2 =~= k);
    }
}

proof fn lemma_parse_member_encoded(s: Seq<char>, i: int, p: (Seq<char>, Seq<char>))
    requires
        0 <= i,
        i + json_member(p).len() <= s.len(),
        s.subrange(i, i + json_member(p).len()) == json_member(p),
    ensures
        parse_member_at(s, i) == Some((p, i + json_member(p).len())),
{
    let m = json_member(p);
    let ek = json_escape(p.0);
    let ev = json_escape(p.1);
    assert forall|t: int| 0 <= t < m.len() implies s[i + t] == m[t] by {
        assert(s.subrange(i, i + m.len())[t] == s[i + t]);
    }
    assert(m == (seq!['"'] + ek + seq!['"']) + seq![':'] + (seq!['"'] + ev + seq!['"']));
    assert(m.len() == ek.len() + ev.len() + 5);
    assert(m[0] == '"');
    assert(s[i] == '"');
    assert forall|t: int| 0 <= t < ek.len() + 1 implies s.subrange(
        i + 1,
        i + 1 + ek.len() + 1,
    )[t] == ek.push('"')[t] by {
        assert(s.subrange(i + 1, i + 1 + ek.len() + 1)[t] == s[i + (1 + t)]);
        assert(s[i + (1 + t)] == m[1 + t]);
        assert(m[1 + t] == ek.push('"')[t]);
    }
    assert(s.subrange(i + 1, i + 1 + ek.len() + 1) =~= ek.push('"'));
    lemma_parse_escaped(s, i + 1, p.0);
    let a = i + 1 + ek.len() + 1;
    assert(m[ek.len() as int + 2] == ':');
    assert(s[a] == ':');
    assert(m[ek.len() as int + 3] == '"');
    assert(s[a + 1] == '"');
    assert forall|t: int| 0 <= t < ev.len() + 1 implies s.subrange(
        a + 2,
        a + 2 + ev.len() + 1,
    )[t] == ev.push('"')[t] by {
        assert(s.subrange(a + 2, a + 2 + ev.len() + 1)[t] == s[i + (ek.len() + 4 + t)]);
        assert(s[i + (ek.len() + 4 + t)] == m[ek.len() + 4 + t]);
        assert(m[ek.len() + 4 + t] == ev.push('"')[t]);
    }
    assert(s.subrange(a + 2, a + 2 + ev.len() + 1) =~= ev.push('"'));
    lemma_parse_escaped(s, a + 2, p.1);
    assert(parse_member_at(s, i) == Some(((p.0, p.1), a + 2 + ev.len() + 1)));
    assert((p.0, p.1) == p);
}

proof fn lemma_parse_members_encoded(pairs: Seq<(Seq<char>, Seq<char>)>)
    ensures
        parse_members_list(json_members(pairs)) == Some(pairs),
    decreases pairs.len(),
{
    let body = json_members(pairs);
    if pairs.len() == 0 {
        assert(Some(Seq::<(Seq<char>, Seq<char>)>::empty()) == Some(pairs));
    } else if pairs.len() == 1 {
        assert(body == json_member(pairs[0]));
        assert(body.subrange(0, body.len() as int) =~= body);
        lemma_parse_member_encoded(body, 0, pairs[0]);
        assert(json_member(pairs[0]).len() >= 5);
        assert(parse_members_list(body) == Some(seq![pairs[0]]));
        assert(seq![pairs[0]] =~= pairs);
    } else {
        let p0 = pairs[0];
        let rest = pairs.drop_first();
        let m0 = json_member(p0);
        assert(body == m0 + seq![','] + json_members(rest));
        assert(body.subrange(0, m0.len() as int) =~= m0);
        lemma_parse_member_encoded(body, 0, p0);
        assert(body[m0.len() as int] == ',');
        assert(m0.len() < body.len());
        assert(body.subrange(m0.len() as int + 1, body.len() as int) =~= json_members(rest));
        lemma_parse_members_encoded(rest);
        assert(parse_members_list(body) == Some(seq![p0] + rest));
        assert(seq![p0] + rest =~= pairs);
    }
}

/// Round-trip law for the JSON artifact: decoding the artifact of any output
/// set yields exactly the folded key/value pairs, in their order — the
/// artifact loses nothing and invents nothing.
pub proof fn lemma_json_artifact_round_trip(outs: Seq<Output>)
    ensures
        decode_object(json_artifact_spec(outs)) == Some(fold_pairs(outs)),
{
    let pairs = fold_pairs(outs);
    let s = json_object(pairs);
    assert(s[0] == '{');
    assert(s[s.len() - 1] == '}');
    assert(s.subrange(1, s.len() - 1) =~= json_members(pairs));
    lemma_parse_members_encoded(pairs);
}

/// A key occurs in the fold of an output set exactly when some output has
/// that key.
pub proof fn lemma_fold_keys(outs: Seq<Output>, k: Seq<char>)
    ensures
        has_key(fold_pairs(outs), k) <==> exists|i: int|
            0 <= i < outs.len() && outs[i].key@ == k,
    decreases outs.len(),
{
    if outs.len() == 0 {
    } else {
        lemma_fold_keys(outs.drop_last(), k);
        let rest = fold_pairs(outs.drop_last());
        let kl = outs.last().key@;
        let vl = outs.last().value@;
        assert forall|t: int| 0 <= t < rest.len() implies set_key(rest, kl, vl)[t].0
            == rest[t].0 by {}
        if has_key(rest, kl) {
            assert(fold_pairs(outs) == set_key(rest, kl, vl));
            if has_key(rest, k) {
                let w = choose|w: int| 0 <= w < rest.len() && rest[w].0 == k;
                assert(set_key(rest, kl, vl)[w].0 == k);
                assert(has_key(fold_pairs(outs), k));
            }
            if has_key(fold_pairs(outs), k) {
                let w = choose|w: int|
                    0 <= w < fold_pairs(outs).len() && fold_pairs(outs)[w].0 == k;
                assert(rest[w].0 == k);
                assert(has_key(rest, k));
            }
            if exists|i: int| 0 <= i < outs.len() && outs[i].key@ == k {
                let w = choose|i: int| 0 <= i < outs.len() && outs[i].key@ == k;
                if w < outs.len() - 1 {
                    assert(outs.drop_last()[w].key@ == k);
                } else {
                    assert(k == kl);
                }
            }
        } else {
            assert(fold_pairs(outs) == rest.push((kl, vl)));
            if has_key(fold_pairs(outs), k) {
                let w = choose|w: int|
                    0 <= w < fold_pairs(outs).len() && fold_pairs(outs)[w].0 == k;
                if w < rest.len() {
                    assert(has_key(rest, k));
                } else {
                    assert(k == kl);
                    assert(outs[outs.len() - 1].key@ == k);
                }
            }
            if has_key(rest, k) {
                let w = choose|w: int| 0 <= w < rest.len() && rest[w].0 == k;
                assert(fold_pairs(outs)[w].0 == k);
                assert(has_key(fold_pairs(outs), k));
            }
            if k == kl {
                assert(fold_pairs(outs)[rest.len() as int].0 == k);
                assert(has_key(fold_pairs(outs), k));
            }
            if exists|i: int| 0 <= i < outs.len() && outs[i].key@ == k {
                let w = choose|i: int| 0 <= i < outs.len() && outs[i].key@ == k;
                if w < outs.len() - 1 {
                    assert(outs.drop_last()[w].key@ == k);
                } else {
                    assert(k == kl);
                }
            }
        }
        assert forall|i: int| 0 <= i < outs.len() - 1 implies outs.drop_last()[i] == outs[i] by {}
    }
}

/// When every key of an output set is distinct, the fold keeps every pair
/// as it stands: nothing is overwritten.
pub proof fn lemma_fold_unique_keys(outs: Seq<Output>)
    requires
        forall|i: int, j: int| 0 <= i < j < outs.len() ==> outs[i].key@ != outs[j].key@,
    ensures
        fold_pairs(outs) == outs.map_values(|o: Output| (o.key@, o.value@)),
    decreases outs.len(),
{
    if outs.len() > 0 {
        let prefix = outs.drop_last();
        lemma_fold_unique_keys(prefix);
        lemma_fold_keys(prefix, outs.last().key@);
        assert forall|i: int| 0 <= i < prefix.len() implies prefix[i].key@ != outs.last().key@ by {
            assert(prefix[i] == outs[i]);
        }
        assert(!has_key(fold_pairs(prefix), outs.last().key@));
        assert(fold_pairs(outs) =~= outs.map_values(|o: Output| (o.key@, o.value@)));
    }
}

/// Round-trip law for output sets with unique keys: decoding the JSON
/// artifact yields exactly the outputs' own key/value pairs, in order.
pub proof fn lemma_round_trip_unique_keys(outs: Seq<Output>)
    requires
        forall|i: int, j: int| 0 <= i < j < outs.len() ==> outs[i].key@ != outs[j].key@,
    ensures
        decode_object(json_artifact_spec(outs)) == Some(
            outs.map_values(|o: Output| (o.key@, o.value@)),
        ),
{
    lemma_json_artifact_round_trip(outs);
    lemma_fold_unique_keys(outs);
}

} // verus!
