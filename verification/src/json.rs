//! The JSON snapshot format: a verified encoder and parser for the store's
//! value model. The snapshot of a store is a single JSON object whose keys
//! are the store keys; every variant round-trips with full fidelity.
//!
//! The encoder emits the compact form: no whitespace between tokens, and
//! string literals escape exactly the quote and the backslash. The parser
//! also accepts whitespace between tokens and the usual single-character
//! escapes, and is proved to invert the encoder.

use vstd::prelude::*;
use vstd::string::StrSliceExecFns;

use crate::store::StoreError;
use crate::value::{is_number_char, wf_value, SpecValue, Value};

verus! {

// ---------------------------------------------------------------------------
// The encoding, as spec functions.
// ---------------------------------------------------------------------------

/// The escape of one character inside a JSON string literal: the quote and
/// the backslash get a backslash prefix, every other character stands as
/// itself.
pub open spec fn escape_char(c: char) -> Seq<char> {
    if c == '"' {
        seq!['\\', '"']
    } else if c == '\\' {
        seq!['\\', '\\']
    } else {
        seq![c]
    }
}

/// The body of a JSON string literal: each character escaped, in order.
pub open spec fn escape_string(s: Seq<char>) -> Seq<char>
    decreases s.len(),
{
    if s.len() == 0 {
        Seq::empty()
    } else {
        escape_char(s[0]) + escape_string(s.drop_first())
    }
}

/// A whole JSON string literal: the escaped body between quotes.
pub open spec fn quoted(s: Seq<char>) -> Seq<char> {
    seq!['"'] + escape_string(s) + seq!['"']
}

/// The JSON text of a value.
pub open spec fn json_of(v: SpecValue) -> Seq<char>
    decreases v,
{
    match v {
        SpecValue::String(s) => quoted(s),
        SpecValue::Number(t) => t,
        SpecValue::Bool(b) => if b {
            seq!['t', 'r', 'u', 'e']
        } else {
            seq!['f', 'a', 'l', 's', 'e']
        },
        SpecValue::Null => seq!['n', 'u', 'l', 'l'],
        SpecValue::Array(elems) => seq!['['] + json_of_items(elems) + seq![']'],
        SpecValue::Object(fields) => seq!['{'] + json_of_fields(fields) + seq!['}'],
    }
}

/// The comma-separated JSON texts of the elements of an array.
pub open spec fn json_of_items(elems: Seq<SpecValue>) -> Seq<char>
    decreases elems,
{
    if elems.len() == 0 {
        Seq::empty()
    } else {
        json_of(elems[0]) + json_of_items_rest(elems.drop_first())
    }
}

/// The remaining elements of an array, each preceded by a comma.
pub open spec fn json_of_items_rest(elems: Seq<SpecValue>) -> Seq<char>
    decreases elems,
{
    if elems.len() == 0 {
        Seq::empty()
    } else {
        seq![','] + json_of(elems[0]) + json_of_items_rest(elems.drop_first())
    }
}

/// The JSON text of one object field: the quoted key, a colon, the value.
pub open spec fn json_of_field(f: (Seq<char>, SpecValue)) -> Seq<char>
    decreases f,
{
    quoted(f.0) + seq![':'] + json_of(f.1)
}

/// The comma-separated JSON texts of the fields of an object.
pub open spec fn json_of_fields(fields: Seq<(Seq<char>, SpecValue)>) -> Seq<char>
    decreases fields,
{
    if fields.len() == 0 {
        Seq::empty()
    } else {
        json_of_field(fields[0]) + json_of_fields_rest(fields.drop_first())
    }
}

/// The remaining fields of an object, each preceded by a comma.
pub open spec fn json_of_fields_rest(fields: Seq<(Seq<char>, SpecValue)>) -> Seq<char>
    decreases fields,
{
    if fields.len() == 0 {
        Seq::empty()
    } else {
        seq![','] + json_of_field(fields[0]) + json_of_fields_rest(fields.drop_first())
    }
}

// ---------------------------------------------------------------------------
// The parse, as spec functions. Each one consumes a prefix of its input and
// yields what it read together with the unread suffix, or `None` when the
// input is malformed.
// ---------------------------------------------------------------------------

/// The character an escape sequence `\c` stands for, if `c` is one of the
/// escapes the parser accepts.
pub open spec fn unescape_char(c: char) -> Option<char> {
    if c == '"' {
        Some('"')
    } else if c == '\\' {
        Some('\\')
    } else if c == '/' {
        Some('/')
    } else if c == 'n' {
        Some('\n')
    } else if c == 't' {
        Some('\t')
    } else if c == 'r' {
        Some('\r')
    } else {
        None
    }
}

/// The number of leading number characters of `s`.
pub open spec fn num_run(s: Seq<char>) -> int
    decreases s.len(),
{
    if s.len() == 0 || !is_number_char(s[0]) {
        0
    } else {
        1 + num_run(s.drop_first())
    }
}

/// The leading number run is never negative and never longer than the
/// text.
pub proof fn lemma_num_run_bounds(s: Seq<char>)
    ensures
        0 <= num_run(s) <= s.len(),
    decreases s.len(),
{
    if !(s.len() == 0 || !is_number_char(s[0])) {
        lemma_num_run_bounds(s.drop_first());
    }
}

/// True of the characters JSON treats as insignificant whitespace
/// between tokens.
pub open spec fn is_ws_char(c: char) -> bool {
    c == ' ' || c == '\t' || c == '\n' || c == '\r'
}

/// The text with its leading whitespace removed.
pub open spec fn drop_ws(s: Seq<char>) -> Seq<char>
    decreases s.len(),
{
    if s.len() > 0 && is_ws_char(s[0]) {
        drop_ws(s.drop_first())
    } else {
        s
    }
}

/// Parses the body of a string literal, the opening quote already
/// consumed, up to and including the closing quote.
pub open spec fn spec_parse_string(s: Seq<char>) -> Option<(Seq<char>, Seq<char>)>
    decreases s.len(),
{
    if s.len() == 0 {
        None
    } else if s[0] == '"' {
        Some((Seq::empty(), s.drop_first()))
    } else if s[0] == '\\' {
        if s.len() < 2 {
            None
        } else {
            match unescape_char(s[1]) {
                Some(c) => match spec_parse_string(s.skip(2)) {
                    Some((t, r)) => Some((seq![c] + t, r)),
                    None => None,
                },
                None => None,
            }
        }
    } else {
        match spec_parse_string(s.drop_first()) {
            Some((t, r)) => Some((seq![s[0]] + t, r)),
            None => None,
        }
    }
}

/// Parses one JSON value from the head of `s`.
pub open spec fn spec_parse_value(s: Seq<char>) -> Option<(SpecValue, Seq<char>)>
    decreases s.len(), 0nat,
{
    let s1 = drop_ws(s);
    if s1.len() > s.len() {
        None
    } else if s1.len() == 0 {
        None
    } else if s1[0] == '"' {
        match spec_parse_string(s1.drop_first()) {
            Some((t, r)) => Some((SpecValue::String(t), r)),
            None => None,
        }
    } else if s1[0] == 't' {
        if s1.len() >= 4 && s1.subrange(0, 4) == seq!['t', 'r', 'u', 'e'] {
            Some((SpecValue::Bool(true), s1.skip(4)))
        } else {
            None
        }
    } else if s1[0] == 'f' {
        if s1.len() >= 5 && s1.subrange(0, 5) == seq!['f', 'a', 'l', 's', 'e'] {
            Some((SpecValue::Bool(false), s1.skip(5)))
        } else {
            None
        }
    } else if s1[0] == 'n' {
        if s1.len() >= 4 && s1.subrange(0, 4) == seq!['n', 'u', 'l', 'l'] {
            Some((SpecValue::Null, s1.skip(4)))
        } else {
            None
        }
    } else if s1[0] == '[' {
        let t = s1.drop_first();
        let t1 = drop_ws(t);
        if t1.len() > t.len() {
            None
        } else if t1.len() > 0 && t1[0] == ']' {
            Some((SpecValue::Array(Seq::empty()), t1.drop_first()))
        } else {
            match spec_parse_items(t) {
                Some((vs, r)) => Some((SpecValue::Array(vs), r)),
                None => None,
            }
        }
    } else if s1[0] == '{' {
        let t = s1.drop_first();
        let t1 = drop_ws(t);
        if t1.len() > t.len() {
            None
        } else if t1.len() > 0 && t1[0] == '}' {
            Some((SpecValue::Object(Seq::empty()), t1.drop_first()))
        } else {
            match spec_parse_fields(t) {
                Some((fs, r)) => Some((SpecValue::Object(fs), r)),
                None => None,
            }
        }
    } else if ('0' <= s1[0] && s1[0] <= '9') || s1[0] == '-' {
        let n = num_run(s1);
        Some((SpecValue::Number(s1.take(n)), s1.skip(n)))
    } else {
        None
    }
}

/// Parses the elements of a nonempty array, the opening bracket already
/// consumed, up to and including the closing bracket.
pub open spec fn spec_parse_items(s: Seq<char>) -> Option<(Seq<SpecValue>, Seq<char>)>
    decreases s.len(), 1nat,
{
    match spec_parse_value(s) {
        None => None,
        Some((v, r)) => {
            let r1 = drop_ws(r);
            if r.len() >= s.len() || r1.len() > r.len() {
                None
            } else if r1.len() > 0 && r1[0] == ',' {
                match spec_parse_items(r1.drop_first()) {
                    Some((vs, rr)) => Some((seq![v] + vs, rr)),
                    None => None,
                }
            } else if r1.len() > 0 && r1[0] == ']' {
                Some((seq![v], r1.drop_first()))
            } else {
                None
            }
        },
    }
}

/// Parses the fields of a nonempty object, the opening brace already
/// consumed, up to and including the closing brace.
pub open spec fn spec_parse_fields(s: Seq<char>) -> Option<
    (Seq<(Seq<char>, SpecValue)>, Seq<char>),
>
    decreases s.len(), 1nat,
{
    let f = drop_ws(s);
    if f.len() > s.len() {
        None
    } else if f.len() == 0 || f[0] != '"' {
        None
    } else {
        match spec_parse_string(f.drop_first()) {
            None => None,
            Some((k, r1)) => {
                let a = drop_ws(r1);
                if r1.len() >= s.len() || a.len() > r1.len() {
                    None
                } else if a.len() == 0 || a[0] != ':' {
                    None
                } else {
                    match spec_parse_value(a.drop_first()) {
                        None => None,
                        Some((v, r2)) => {
                            let b = drop_ws(r2);
                            if r2.len() >= s.len() || b.len() > r2.len() {
                                None
                            } else if b.len() > 0 && b[0] == ',' {
                                match spec_parse_fields(b.drop_first()) {
                                    Some((fs, rr)) => Some((seq![(k, v)] + fs, rr)),
                                    None => None,
                                }
                            } else if b.len() > 0 && b[0] == '}' {
                                Some((seq![(k, v)], b.drop_first()))
                            } else {
                                None
                            }
                        },
                    }
                }
            },
        }
    }
}

/// What loading a JSON snapshot text yields: the fields of the top-level
/// object, provided the whole input is exactly one JSON object.
pub open spec fn json_snapshot_entries(s: Seq<char>) -> Option<Seq<(Seq<char>, SpecValue)>> {
    match spec_parse_value(s) {
        Some(pr) => match pr.0 {
            SpecValue::Object(fields) => if drop_ws(pr.1).len() == 0 {
                Some(fields)
            } else {
                None
            },
            _ => None,
        },
        None => None,
    }
}

// ---------------------------------------------------------------------------
// The encoder, as verified executable code.
// ---------------------------------------------------------------------------

/// Appends the JSON string literal for `s` to `out`.
#[verifier::loop_isolation(false)]
pub fn encode_string(s: &String, out: &mut Vec<char>)
    ensures
        final(out)@ == old(out)@ + quoted(s@),
{
    let n = s.as_str().unicode_len();
    out.push('"');
    proof {
        assert(s@.skip(0) =~= s@);
        assert(out@ + escape_string(s@) + seq!['"'] =~= old(out)@ + quoted(s@));
    }
    let mut i: usize = 0;
    while i < n
        invariant
            i <= n,
            out@ + escape_string(s@.skip(i as int)) + seq!['"'] == old(out)@ + quoted(s@),
        decreases n - i,
    {
        let c = s.as_str().get_char(i);
        proof {
            assert(s@.skip(i as int)[0] == s@[i as int]);
            assert(s@.skip(i as int).drop_first() =~= s@.skip(i + 1));
        }
        let ghost pre = out@;
        if c == '"' || c == '\\' {
            out.push('\\');
            out.push(c);
            proof {
                assert(out@ =~= pre + escape_char(c));
            }
        } else {
            out.push(c);
            proof {
                assert(out@ =~= pre + escape_char(c));
            }
        }
        proof {
            assert(out@ + escape_string(s@.skip(i + 1)) + seq!['"'] =~= pre + escape_string(
                s@.skip(i as int),
            ) + seq!['"']);
        }
        i += 1;
    }
    proof {
        assert(escape_string(s@.skip(n as int)) =~= Seq::<char>::empty());
    }
    out.push('"');
    proof {
        assert(out@ =~= old(out)@ + quoted(s@));
    }
}

/// Appends the JSON text of `v` to `out`.
#[verifier::loop_isolation(false)]
pub fn encode_value(v: &Value, out: &mut Vec<char>)
    ensures
        final(out)@ == old(out)@ + json_of(v@),
    decreases v,
{
    match v {
        Value::String(s) => {
            encode_string(s, out);
        },
        Value::Number(t) => {
            let n = t.as_str().unicode_len();
            let mut i: usize = 0;
            while i < n
                invariant
                    i <= n,
                    out@ + t@.skip(i as int) == old(out)@ + t@,
                decreases n - i,
            {
                let c = t.as_str().get_char(i);
                proof {
                    assert(t@.skip(i as int) =~= seq![t@[i as int]] + t@.skip(i + 1));
                }
                let ghost pre = out@;
                out.push(c);
                proof {
                    assert(out@ + t@.skip(i + 1) =~= pre + t@.skip(i as int));
                }
                i += 1;
            }
            proof {
                assert(t@.skip(n as int) =~= Seq::<char>::empty());
                assert(out@ =~= old(out)@ + t@);
            }
        },
        Value::Bool(b) => {
            if *b {
                out.push('t');
                out.push('r');
                out.push('u');
                out.push('e');
                proof {
                    assert(out@ =~= old(out)@ + seq!['t', 'r', 'u', 'e']);
                }
            } else {
                out.push('f');
                out.push('a');
                out.push('l');
                out.push('s');
                out.push('e');
                proof {
                    assert(out@ =~= old(out)@ + seq!['f', 'a', 'l', 's', 'e']);
                }
            }
        },
        Value::Null => {
            out.push('n');
            out.push('u');
            out.push('l');
            out.push('l');
            proof {
                assert(out@ =~= old(out)@ + seq!['n', 'u', 'l', 'l']);
            }
        },
        Value::Array(a) => {
            let ghost elems = crate::value::view_list(a@);
            proof {
                crate::value::lemma_view_list(a@);
            }
            out.push('[');
            let n = a.len();
            if n == 0 {
                out.push(']');
                proof {
                    assert(json_of_items(elems) =~= Seq::<char>::empty());
                    assert(out@ =~= old(out)@ + json_of(v@));
                }
            } else {
                encode_value(&a[0], out);
                proof {
                    assert(elems.skip(1) =~= elems.drop_first());
                    assert(out@ + json_of_items_rest(elems.skip(1)) + seq![']'] =~= old(out)@
                        + seq!['['] + json_of_items(elems) + seq![']']);
                }
                let mut i: usize = 1;
                while i < n
                    invariant
                        1 <= i <= n,
                        out@ + json_of_items_rest(elems.skip(i as int)) + seq![']'] == old(
                            out,
                        )@ + seq!['['] + json_of_items(elems) + seq![']'],
                    decreases n - i,
                {
                    let ghost pre = out@;
                    out.push(',');
                    encode_value(&a[i], out);
                    proof {
                        assert(elems.skip(i as int)[0] == elems[i as int]);
                        assert(elems.skip(i as int).drop_first() =~= elems.skip(i + 1));
                        assert(json_of_items_rest(elems.skip(i as int)) == seq![','] + json_of(
                            elems[i as int],
                        ) + json_of_items_rest(elems.skip(i + 1)));
                        assert(out@ + json_of_items_rest(elems.skip(i + 1)) + seq![']'] =~= pre
                            + json_of_items_rest(elems.skip(i as int)) + seq![']']);
                    }
                    i += 1;
                }
                proof {
                    assert(json_of_items_rest(elems.skip(n as int)) =~= Seq::<char>::empty());
                }
                out.push(']');
                proof {
                    assert(out@ =~= old(out)@ + seq!['['] + json_of_items(elems) + seq![']']);
                    assert(out@ =~= old(out)@ + json_of(v@));
                }
            }
        },
        Value::Object(o) => {
            encode_object(o, out);
        },
    }
}

/// Appends the JSON object text for a sequence of fields to `out`: the
/// fields between braces, each a quoted key, a colon and the value.
#[verifier::loop_isolation(false)]
pub fn encode_object(o: &Vec<(String, Value)>, out: &mut Vec<char>)
    ensures
        final(out)@ == old(out)@ + seq!['{'] + json_of_fields(crate::value::view_fields(o@))
            + seq!['}'],
    decreases o,
{
    let ghost fields = crate::value::view_fields(o@);
    proof {
        crate::value::lemma_view_fields(o@);
    }
    out.push('{');
    let n = o.len();
    if n == 0 {
        proof {
            assert(json_of_fields(fields) =~= Seq::<char>::empty());
        }
        out.push('}');
        proof {
            assert(out@ =~= old(out)@ + seq!['{'] + json_of_fields(fields) + seq!['}']);
        }
    } else {
        encode_string(&o[0].0, out);
        out.push(':');
        encode_value(&o[0].1, out);
        proof {
            assert(fields.skip(1) =~= fields.drop_first());
            assert(json_of_field(fields[0]) == quoted(fields[0].0) + seq![':'] + json_of(
                fields[0].1,
            ));
            assert(out@ + json_of_fields_rest(fields.skip(1)) + seq!['}'] =~= old(out)@ + seq![
                '{',
            ] + json_of_fields(fields) + seq!['}']);
        }
        let mut i: usize = 1;
        while i < n
            invariant
                1 <= i <= n,
                out@ + json_of_fields_rest(fields.skip(i as int)) + seq!['}'] == old(out)@
                    + seq!['{'] + json_of_fields(fields) + seq!['}'],
            decreases n - i,
        {
            let ghost pre = out@;
            out.push(',');
            encode_string(&o[i].0, out);
            out.push(':');
            encode_value(&o[i].1, out);
            proof {
                assert(fields.skip(i as int)[0] == fields[i as int]);
                assert(fields.skip(i as int).drop_first() =~= fields.skip(i + 1));
                assert(json_of_fields_rest(fields.skip(i as int)) == seq![','] + json_of_field(
                    fields[i as int],
                ) + json_of_fields_rest(fields.skip(i + 1)));
                assert(out@ + json_of_fields_rest(fields.skip(i + 1)) + seq!['}'] =~= pre
                    + json_of_fields_rest(fields.skip(i as int)) + seq!['}']);
            }
            i += 1;
        }
        proof {
            assert(json_of_fields_rest(fields.skip(n as int)) =~= Seq::<char>::empty());
        }
        out.push('}');
        proof {
            assert(out@ =~= old(out)@ + seq!['{'] + json_of_fields(fields) + seq!['}']);
        }
    }
}

// ---------------------------------------------------------------------------
// The parser, as verified executable code. Each function is proved to
// return exactly what its spec-level counterpart describes.
// ---------------------------------------------------------------------------

/// The loop state of the string parser: what was read so far plus what the
/// unread part parses to is what the whole input parses to.
spec fn string_progress(whole: Seq<char>, acc: Seq<char>, cur: Seq<char>) -> bool {
    match spec_parse_string(cur) {
        Some(pr) => spec_parse_string(whole) == Some((acc + pr.0, pr.1)),
        None => spec_parse_string(whole) is None,
    }
}

/// The loop state of the array parser.
spec fn items_progress(whole: Seq<char>, acc: Seq<SpecValue>, cur: Seq<char>) -> bool {
    match spec_parse_items(cur) {
        Some(pr) => spec_parse_items(whole) == Some((acc + pr.0, pr.1)),
        None => spec_parse_items(whole) is None,
    }
}

/// The loop state of the object parser.
spec fn fields_progress(
    whole: Seq<char>,
    acc: Seq<(Seq<char>, SpecValue)>,
    cur: Seq<char>,
) -> bool {
    match spec_parse_fields(cur) {
        Some(pr) => spec_parse_fields(whole) == Some((acc + pr.0, pr.1)),
        None => spec_parse_fields(whole) is None,
    }
}

/// The character an escape stands for, executably.
fn unescape_exec(c: char) -> (r: Option<char>)
    ensures
        r == unescape_char(c),
{
    if c == '"' {
        Some('"')
    } else if c == '\\' {
        Some('\\')
    } else if c == '/' {
        Some('/')
    } else if c == 'n' {
        Some('\n')
    } else if c == 't' {
        Some('\t')
    } else if c == 'r' {
        Some('\r')
    } else {
        None
    }
}

/// Parses a string literal body beginning at `pos` (the opening quote
/// already consumed), returning its characters and the position after the
/// closing quote.
#[verifier::loop_isolation(false)]
fn parse_string_at(chars: &Vec<char>, pos: usize) -> (r: Result<(Vec<char>, usize), StoreError>)
    requires
        pos <= chars@.len(),
    ensures
        match spec_parse_string(chars@.skip(pos as int)) {
            Some(pr) => r is Ok && (r->Ok_0).0@ == pr.0 && pos < (r->Ok_0).1 <= chars@.len()
                && chars@.skip((r->Ok_0).1 as int) == pr.1,
            None => r is Err && r->Err_0 == StoreError::ParseError,
        },
{
    let ghost whole = chars@.skip(pos as int);
    let mut acc: Vec<char> = Vec::new();
    let mut cur: usize = pos;
    proof {
        match spec_parse_string(whole) {
            Some(pr) => {
                assert(acc@ + pr.0 =~= pr.0);
            },
            None => {},
        }
    }
    loop
        invariant
            pos <= cur <= chars@.len(),
            string_progress(whole, acc@, chars@.skip(cur as int)),
        decreases chars@.len() - cur,
    {
        if cur >= chars.len() {
            return Err(StoreError::ParseError);
        }
        let c = chars[cur];
        proof {
            assert(chars@.skip(cur as int)[0] == c);
        }
        if c == '"' {
            proof {
                assert(chars@.skip(cur as int).drop_first() =~= chars@.skip(cur + 1));
                assert(acc@ + Seq::<char>::empty() =~= acc@);
            }
            return Ok((acc, cur + 1));
        } else if c == '\\' {
            if cur + 1 >= chars.len() {
                proof {
                    assert(chars@.skip(cur as int).len() < 2);
                }
                return Err(StoreError::ParseError);
            }
            let c2 = chars[cur + 1];
            proof {
                assert(chars@.skip(cur as int)[1] == c2);
            }
            match unescape_exec(c2) {
                None => {
                    return Err(StoreError::ParseError);
                },
                Some(u) => {
                    let ghost acc0 = acc@;
                    acc.push(u);
                    proof {
                        assert(chars@.skip(cur as int).skip(2) =~= chars@.skip(cur + 2));
                        match spec_parse_string(chars@.skip(cur + 2)) {
                            Some(pr) => {
                                assert(acc0 + (seq![u] + pr.0) =~= acc@ + pr.0);
                            },
                            None => {},
                        }
                    }
                    cur = cur + 2;
                },
            }
        } else {
            let ghost acc0 = acc@;
            acc.push(c);
            proof {
                assert(chars@.skip(cur as int).drop_first() =~= chars@.skip(cur + 1));
                match spec_parse_string(chars@.skip(cur + 1)) {
                    Some(pr) => {
                        assert(acc0 + (seq![c] + pr.0) =~= acc@ + pr.0);
                    },
                    None => {},
                }
            }
            cur = cur + 1;
        }
    }
}

/// Whether `c` is insignificant whitespace, executably.
fn is_ws_exec(c: char) -> (r: bool)
    ensures
        r == is_ws_char(c),
{
    c == ' ' || c == '\t' || c == '\n' || c == '\r'
}

/// The position of the first non-whitespace character at or after `pos`.
#[verifier::loop_isolation(false)]
pub fn skip_ws_at(chars: &Vec<char>, pos: usize) -> (r: usize)
    requires
        pos <= chars@.len(),
    ensures
        pos <= r <= chars@.len(),
        chars@.skip(r as int) == drop_ws(chars@.skip(pos as int)),
{
    let mut cur: usize = pos;
    while cur < chars.len() && is_ws_exec(chars[cur])
        invariant
            pos <= cur <= chars@.len(),
            drop_ws(chars@.skip(pos as int)) == drop_ws(chars@.skip(cur as int)),
        decreases chars@.len() - cur,
    {
        proof {
            assert(chars@.skip(cur as int)[0] == chars@[cur as int]);
            assert(chars@.skip(cur as int).drop_first() =~= chars@.skip(cur + 1));
        }
        cur = cur + 1;
    }
    proof {
        if cur < chars@.len() {
            assert(chars@.skip(cur as int)[0] == chars@[cur as int]);
        }
        assert(drop_ws(chars@.skip(cur as int)) == chars@.skip(cur as int));
    }
    cur
}

/// Parses one JSON value beginning at `pos` (leading whitespace allowed),
/// returning it and the position after its last character.
#[verifier::loop_isolation(false)]
#[verifier::rlimit(100)]
pub fn parse_value_at(chars: &Vec<char>, pos: usize) -> (r: Result<(Value, usize), StoreError>)
    requires
        pos <= chars@.len(),
    ensures
        match spec_parse_value(chars@.skip(pos as int)) {
            Some(pr) => r is Ok && (r->Ok_0).0@ == pr.0 && pos < (r->Ok_0).1 <= chars@.len()
                && chars@.skip((r->Ok_0).1 as int) == pr.1,
            None => r is Err && r->Err_0 == StoreError::ParseError,
        },
    decreases chars@.len() - pos,
{
    let ghost s = chars@.skip(pos as int);
    let pos1 = skip_ws_at(chars, pos);
    let ghost s1 = chars@.skip(pos1 as int);
    proof {
        assert(s1 == drop_ws(s));
        assert(s1.len() <= s.len());
    }
    if pos1 >= chars.len() {
        return Err(StoreError::ParseError);
    }
    let c = chars[pos1];
    proof {
        assert(s1[0] == c);
    }
    if c == '"' {
        proof {
            assert(s1.drop_first() =~= chars@.skip(pos1 + 1));
        }
        match parse_string_at(chars, pos1 + 1) {
            Ok((body, p)) => {
                let text = crate::value::chars_to_string(&body);
                Ok((Value::String(text), p))
            },
            Err(e) => Err(e),
        }
    } else if c == 't' {
        if chars.len() - pos1 >= 4 && chars[pos1 + 1] == 'r' && chars[pos1 + 2] == 'u'
            && chars[pos1 + 3] == 'e' {
            proof {
                assert(s1.subrange(0, 4) =~= seq!['t', 'r', 'u', 'e']);
                assert(s1.skip(4) =~= chars@.skip(pos1 + 4));
            }
            Ok((Value::Bool(true), pos1 + 4))
        } else {
            proof {
                if s1.len() >= 4 && s1.subrange(0, 4) == seq!['t', 'r', 'u', 'e'] {
                    assert(s1.subrange(0, 4)[1] == s1[1] && s1.subrange(0, 4)[2] == s1[2]
                        && s1.subrange(0, 4)[3] == s1[3]);
                    assert(false);
                }
            }
            Err(StoreError::ParseError)
        }
    } else if c == 'f' {
        if chars.len() - pos1 >= 5 && chars[pos1 + 1] == 'a' && chars[pos1 + 2] == 'l'
            && chars[pos1 + 3] == 's' && chars[pos1 + 4] == 'e' {
            proof {
                assert(s1.subrange(0, 5) =~= seq!['f', 'a', 'l', 's', 'e']);
                assert(s1.skip(5) =~= chars@.skip(pos1 + 5));
            }
            Ok((Value::Bool(false), pos1 + 5))
        } else {
            proof {
                if s1.len() >= 5 && s1.subrange(0, 5) == seq!['f', 'a', 'l', 's', 'e'] {
                    assert(s1.subrange(0, 5)[1] == s1[1] && s1.subrange(0, 5)[2] == s1[2]
                        && s1.subrange(0, 5)[3] == s1[3] && s1.subrange(0, 5)[4] == s1[4]);
                    assert(false);
                }
            }
            Err(StoreError::ParseError)
        }
    } else if c == 'n' {
        if chars.len() - pos1 >= 4 && chars[pos1 + 1] == 'u' && chars[pos1 + 2] == 'l'
            && chars[pos1 + 3] == 'l' {
            proof {
                assert(s1.subrange(0, 4) =~= seq!['n', 'u', 'l', 'l']);
                assert(s1.skip(4) =~= chars@.skip(pos1 + 4));
            }
            Ok((Value::Null, pos1 + 4))
        } else {
            proof {
                if s1.len() >= 4 && s1.subrange(0, 4) == seq!['n', 'u', 'l', 'l'] {
                    assert(s1.subrange(0, 4)[1] == s1[1] && s1.subrange(0, 4)[2] == s1[2]
                        && s1.subrange(0, 4)[3] == s1[3]);
                    assert(false);
                }
            }
            Err(StoreError::ParseError)
        }
    } else if c == '[' {
        let ghost t = s1.drop_first();
        proof {
            assert(t =~= chars@.skip(pos1 + 1));
        }
        let q = skip_ws_at(chars, pos1 + 1);
        let ghost t1 = chars@.skip(q as int);
        proof {
            assert(t1 == drop_ws(t));
            assert(t1.len() <= t.len());
        }
        if q < chars.len() && chars[q] == ']' {
            let vals: Vec<Value> = Vec::new();
            proof {
                assert(t1[0] == ']');
                assert(t1.drop_first() =~= chars@.skip(q + 1));
                crate::value::lemma_view_list(vals@);
                assert(crate::value::view_list(vals@) =~= Seq::<SpecValue>::empty());
            }
            Ok((Value::Array(vals), q + 1))
        } else {
            proof {
                if t1.len() > 0 {
                    assert(t1[0] == chars@[q as int]);
                }
                assert(!(t1.len() > 0 && t1[0] == ']'));
            }
            let mut vals: Vec<Value> = Vec::new();
            let mut cur: usize = pos1 + 1;
            proof {
                crate::value::lemma_view_list(vals@);
                match spec_parse_items(t) {
                    Some(pr) => {
                        assert(crate::value::view_list(vals@) + pr.0 =~= pr.0);
                    },
                    None => {},
                }
            }
            loop
                invariant
                    pos < cur <= chars@.len(),
                    items_progress(t, crate::value::view_list(vals@), chars@.skip(cur as int)),
                decreases chars@.len() - cur,
            {
                let ghost cur_t = chars@.skip(cur as int);
                let ghost acc0 = crate::value::view_list(vals@);
                match parse_value_at(chars, cur) {
                    Err(_) => {
                        return Err(StoreError::ParseError);
                    },
                    Ok((v, p)) => {
                        let ghost pv = v@;
                        proof {
                            crate::value::lemma_view_list_push(vals@, v);
                        }
                        vals.push(v);
                        let p1 = skip_ws_at(chars, p);
                        let ghost r1 = chars@.skip(p1 as int);
                        proof {
                            assert(crate::value::view_list(vals@) =~= acc0.push(pv));
                            assert(chars@.skip(p as int).len() < cur_t.len());
                            assert(r1 == drop_ws(chars@.skip(p as int)));
                            assert(r1.len() <= chars@.skip(p as int).len());
                        }
                        if p1 < chars.len() && chars[p1] == ',' {
                            proof {
                                assert(r1[0] == ',');
                                assert(r1.drop_first() =~= chars@.skip(p1 + 1));
                                match spec_parse_items(chars@.skip(p1 + 1)) {
                                    Some(pr2) => {
                                        assert(spec_parse_items(cur_t) == Some(
                                            (seq![pv] + pr2.0, pr2.1),
                                        ));
                                        assert(acc0 + (seq![pv] + pr2.0) =~= acc0.push(pv)
                                            + pr2.0);
                                    },
                                    None => {
                                        assert(spec_parse_items(cur_t) is None);
                                    },
                                }
                            }
                            cur = p1 + 1;
                        } else if p1 < chars.len() && chars[p1] == ']' {
                            proof {
                                assert(r1[0] == ']');
                                assert(r1.drop_first() =~= chars@.skip(p1 + 1));
                                assert(spec_parse_items(cur_t) == Some(
                                    (seq![pv], chars@.skip(p1 + 1)),
                                ));
                                assert(acc0 + seq![pv] =~= acc0.push(pv));
                                assert(spec_parse_items(t) == Some(
                                    (crate::value::view_list(vals@), chars@.skip(p1 + 1)),
                                ));
                            }
                            return Ok((Value::Array(vals), p1 + 1));
                        } else {
                            proof {
                                if p1 < chars@.len() {
                                    assert(r1[0] == chars@[p1 as int]);
                                } else {
                                    assert(r1.len() == 0);
                                }
                                assert(spec_parse_items(cur_t) is None);
                            }
                            return Err(StoreError::ParseError);
                        }
                    },
                }
            }
        }
    } else if c == '{' {
        let ghost t = s1.drop_first();
        proof {
            assert(t =~= chars@.skip(pos1 + 1));
        }
        let q = skip_ws_at(chars, pos1 + 1);
        let ghost t1 = chars@.skip(q as int);
        proof {
            assert(t1 == drop_ws(t));
            assert(t1.len() <= t.len());
        }
        if q < chars.len() && chars[q] == '}' {
            let flds: Vec<(String, Value)> = Vec::new();
            proof {
                assert(t1[0] == '}');
                assert(t1.drop_first() =~= chars@.skip(q + 1));
                crate::value::lemma_view_fields(flds@);
                assert(crate::value::view_fields(flds@) =~= Seq::<
                    (Seq<char>, SpecValue),
                >::empty());
            }
            Ok((Value::Object(flds), q + 1))
        } else {
            proof {
                if t1.len() > 0 {
                    assert(t1[0] == chars@[q as int]);
                }
                assert(!(t1.len() > 0 && t1[0] == '}'));
            }
            let mut flds: Vec<(String, Value)> = Vec::new();
            let mut cur: usize = pos1 + 1;
            proof {
                crate::value::lemma_view_fields(flds@);
                match spec_parse_fields(t) {
                    Some(pr) => {
                        assert(crate::value::view_fields(flds@) + pr.0 =~= pr.0);
                    },
                    None => {},
                }
            }
            loop
                invariant
                    pos < cur <= chars@.len(),
                    fields_progress(
                        t,
                        crate::value::view_fields(flds@),
                        chars@.skip(cur as int),
                    ),
                decreases chars@.len() - cur,
            {
                let ghost cur_t = chars@.skip(cur as int);
                let ghost acc0 = crate::value::view_fields(flds@);
                let cur1 = skip_ws_at(chars, cur);
                let ghost f = chars@.skip(cur1 as int);
                proof {
                    assert(f == drop_ws(cur_t));
                    assert(f.len() <= cur_t.len());
                }
                if cur1 >= chars.len() {
                    return Err(StoreError::ParseError);
                }
                if chars[cur1] != '"' {
                    proof {
                        assert(f[0] == chars@[cur1 as int]);
                    }
                    return Err(StoreError::ParseError);
                }
                proof {
                    assert(f[0] == '"');
                    assert(f.drop_first() =~= chars@.skip(cur1 + 1));
                }
                match parse_string_at(chars, cur1 + 1) {
                    Err(_) => {
                        return Err(StoreError::ParseError);
                    },
                    Ok((kbody, p1)) => {
                        let ghost kv = kbody@;
                        let pa = skip_ws_at(chars, p1);
                        let ghost a = chars@.skip(pa as int);
                        proof {
                            assert(chars@.skip(p1 as int).len() < cur_t.len());
                            assert(a == drop_ws(chars@.skip(p1 as int)));
                            assert(a.len() <= chars@.skip(p1 as int).len());
                        }
                        if !(pa < chars.len() && chars[pa] == ':') {
                            proof {
                                if pa < chars@.len() {
                                    assert(a[0] == chars@[pa as int]);
                                } else {
                                    assert(a.len() == 0);
                                }
                                assert(spec_parse_fields(cur_t) is None);
                            }
                            return Err(StoreError::ParseError);
                        }
                        proof {
                            assert(a[0] == ':');
                            assert(a.drop_first() =~= chars@.skip(pa + 1));
                        }
                        match parse_value_at(chars, pa + 1) {
                            Err(_) => {
                                return Err(StoreError::ParseError);
                            },
                            Ok((v, p2)) => {
                                let ghost pv = v@;
                                let key = crate::value::chars_to_string(&kbody);
                                proof {
                                    crate::value::lemma_view_fields_push(flds@, key, v);
                                }
                                flds.push((key, v));
                                let pb = skip_ws_at(chars, p2);
                                let ghost b = chars@.skip(pb as int);
                                proof {
                                    assert(crate::value::view_fields(flds@) =~= acc0.push(
                                        (kv, pv),
                                    ));
                                    assert(chars@.skip(p2 as int).len() < cur_t.len());
                                    assert(b == drop_ws(chars@.skip(p2 as int)));
                                    assert(b.len() <= chars@.skip(p2 as int).len());
                                }
                                if pb < chars.len() && chars[pb] == ',' {
                                    proof {
                                        assert(b[0] == ',');
                                        assert(b.drop_first() =~= chars@.skip(pb + 1));
                                        match spec_parse_fields(chars@.skip(pb + 1)) {
                                            Some(pr2) => {
                                                assert(spec_parse_fields(cur_t) == Some(
                                                    (seq![(kv, pv)] + pr2.0, pr2.1),
                                                ));
                                                assert(acc0 + (seq![(kv, pv)] + pr2.0)
                                                    =~= acc0.push((kv, pv)) + pr2.0);
                                            },
                                            None => {
                                                assert(spec_parse_fields(cur_t) is None);
                                            },
                                        }
                                    }
                                    cur = pb + 1;
                                } else if pb < chars.len() && chars[pb] == '}' {
                                    proof {
                                        assert(b[0] == '}');
                                        assert(b.drop_first() =~= chars@.skip(pb + 1));
                                        assert(spec_parse_fields(cur_t) == Some(
                                            (seq![(kv, pv)], chars@.skip(pb + 1)),
                                        ));
                                        assert(acc0 + seq![(kv, pv)] =~= acc0.push((kv, pv)));
                                        assert(spec_parse_fields(t) == Some(
                                            (
                                                crate::value::view_fields(flds@),
                                                chars@.skip(pb + 1),
                                            ),
                                        ));
                                    }
                                    return Ok((Value::Object(flds), pb + 1));
                                } else {
                                    proof {
                                        if pb < chars@.len() {
                                            assert(b[0] == chars@[pb as int]);
                                        } else {
                                            assert(b.len() == 0);
                                        }
                                        assert(spec_parse_fields(cur_t) is None);
                                    }
                                    return Err(StoreError::ParseError);
                                }
                            },
                        }
                    },
                }
            }
        }
    } else if ('0' <= c && c <= '9') || c == '-' {
        let mut cur: usize = pos1;
        while cur < chars.len() && crate::value::check_number_char(chars[cur])
            invariant
                pos1 <= cur <= chars@.len(),
                num_run(s1) == cur - pos1 + num_run(chars@.skip(cur as int)),
            decreases chars@.len() - cur,
        {
            proof {
                assert(chars@.skip(cur as int)[0] == chars@[cur as int]);
                assert(chars@.skip(cur as int).drop_first() =~= chars@.skip(cur + 1));
            }
            cur = cur + 1;
        }
        proof {
            if cur < chars@.len() {
                assert(chars@.skip(cur as int)[0] == chars@[cur as int]);
                assert(num_run(chars@.skip(cur as int)) == 0);
            } else {
                assert(chars@.skip(cur as int).len() == 0);
            }
            assert(num_run(s1) == cur - pos1);
            assert(is_number_char(s1[0]));
            lemma_num_run_bounds(s1.drop_first());
            assert(cur > pos1);
        }
        let mut body: Vec<char> = Vec::new();
        let mut i: usize = pos1;
        while i < cur
            invariant
                pos1 <= i <= cur <= chars@.len(),
                body@ == chars@.subrange(pos1 as int, i as int),
            decreases cur - i,
        {
            body.push(chars[i]);
            proof {
                assert(body@ =~= chars@.subrange(pos1 as int, i + 1));
            }
            i = i + 1;
        }
        let text = crate::value::chars_to_string(&body);
        proof {
            assert(s1.take(num_run(s1)) =~= chars@.subrange(pos1 as int, cur as int));
            assert(s1.skip(num_run(s1)) =~= chars@.skip(cur as int));
        }
        Ok((Value::Number(text), cur))
    } else {
        Err(StoreError::ParseError)
    }
}

// ---------------------------------------------------------------------------
// Round trip: the parser inverts the encoder.
// ---------------------------------------------------------------------------

/// The JSON text of a well-formed value is nonempty and never begins with
/// a closing bracket or brace, a comma or a colon.
pub proof fn lemma_json_of_nonempty(v: SpecValue)
    requires
        wf_value(v),
    ensures
        json_of(v).len() > 0,
        json_of(v)[0] != ']',
        json_of(v)[0] != '}',
        json_of(v)[0] != ',',
        json_of(v)[0] != ':',
        !is_ws_char(json_of(v)[0]),
{
    match v {
        SpecValue::Number(t) => {
            assert(is_number_char(t[0]));
        },
        _ => {},
    }
}

/// Appending text that does not begin with a number character to a run of
/// number characters leaves the length of the leading number run alone.
pub proof fn lemma_num_run_concat(t: Seq<char>, rest: Seq<char>)
    requires
        forall|i: int| 0 <= i < t.len() ==> is_number_char(#[trigger] t[i]),
        rest.len() == 0 || !is_number_char(rest[0]),
    ensures
        num_run(t + rest) == t.len(),
    decreases t.len(),
{
    if t.len() == 0 {
        assert(t + rest =~= rest);
    } else {
        assert((t + rest)[0] == t[0]);
        assert((t + rest).drop_first() =~= t.drop_first() + rest);
        lemma_num_run_concat(t.drop_first(), rest);
    }
}

/// Parsing the escaped body of a string, a closing quote and any suffix
/// yields the original string and that suffix.
pub proof fn lemma_parse_string_escape(s: Seq<char>, rest: Seq<char>)
    ensures
        spec_parse_string(escape_string(s) + seq!['"'] + rest) == Some((s, rest)),
    decreases s.len(),
{
    let input = escape_string(s) + seq!['"'] + rest;
    if s.len() == 0 {
        assert(input =~= seq!['"'] + rest);
        assert(input[0] == '"');
        assert(input.drop_first() =~= rest);
        assert(s =~= Seq::<char>::empty());
    } else {
        let c = s[0];
        let tail_input = escape_string(s.drop_first()) + seq!['"'] + rest;
        lemma_parse_string_escape(s.drop_first(), rest);
        assert(escape_string(s) == escape_char(c) + escape_string(s.drop_first()));
        if c == '"' || c == '\\' {
            assert(escape_char(c) =~= seq!['\\', c]);
            assert(input =~= seq!['\\', c] + tail_input);
            assert(input[0] == '\\');
            assert(input.len() >= 2);
            assert(input[1] == c);
            assert(unescape_char(c) == Some(c));
            assert(input.skip(2) =~= tail_input);
            assert(seq![c] + s.drop_first() =~= s);
        } else {
            assert(escape_char(c) =~= seq![c]);
            assert(input =~= seq![c] + tail_input);
            assert(input[0] == c);
            assert(input.drop_first() =~= tail_input);
            assert(seq![c] + s.drop_first() =~= s);
        }
    }
}

/// Parsing the JSON text of a well-formed value followed by any suffix
/// that does not begin with a number character yields the value and that
/// suffix.
#[verifier::rlimit(60)]
pub proof fn lemma_parse_of_encode(v: SpecValue, rest: Seq<char>)
    requires
        wf_value(v),
        rest.len() == 0 || !is_number_char(rest[0]),
    ensures
        spec_parse_value(json_of(v) + rest) == Some((v, rest)),
    decreases v, 0nat,
{
    let input = json_of(v) + rest;
    lemma_json_of_nonempty(v);
    assert(input[0] == json_of(v)[0]);
    assert(drop_ws(input) == input);
    match v {
        SpecValue::String(s) => {
            assert(input =~= seq!['"'] + (escape_string(s) + seq!['"'] + rest));
            assert(input[0] == '"');
            assert(input.drop_first() =~= escape_string(s) + seq!['"'] + rest);
            lemma_parse_string_escape(s, rest);
        },
        SpecValue::Number(t) => {
            assert(input =~= t + rest);
            assert(input[0] == t[0]);
            assert(is_number_char(t[0]));
            lemma_num_run_concat(t, rest);
            assert(num_run(input) == t.len());
            assert(input.take(t.len() as int) =~= t);
            assert(input.skip(t.len() as int) =~= rest);
        },
        SpecValue::Bool(b) => {
            if b {
                assert(input =~= seq!['t', 'r', 'u', 'e'] + rest);
                assert(input[0] == 't');
                assert(input.len() >= 4);
                assert(input.subrange(0, 4) =~= seq!['t', 'r', 'u', 'e']);
                assert(input.skip(4) =~= rest);
            } else {
                assert(input =~= seq!['f', 'a', 'l', 's', 'e'] + rest);
                assert(input[0] == 'f');
                assert(input.len() >= 5);
                assert(input.subrange(0, 5) =~= seq!['f', 'a', 'l', 's', 'e']);
                assert(input.skip(5) =~= rest);
            }
        },
        SpecValue::Null => {
            assert(input =~= seq!['n', 'u', 'l', 'l'] + rest);
            assert(input[0] == 'n');
            assert(input.len() >= 4);
            assert(input.subrange(0, 4) =~= seq!['n', 'u', 'l', 'l']);
            assert(input.skip(4) =~= rest);
        },
        SpecValue::Array(elems) => {
            assert(input[0] == '[');
            let t = input.drop_first();
            if elems.len() == 0 {
                assert(t =~= seq![']'] + rest);
                assert(t[0] == ']');
                assert(drop_ws(t) == t);
                assert(t.drop_first() =~= rest);
                assert(elems =~= Seq::<SpecValue>::empty());
            } else {
                crate::value::lemma_wf_list(elems);
                assert(wf_value(elems[0]));
                lemma_json_of_nonempty(elems[0]);
                assert(t =~= json_of_items(elems) + seq![']'] + rest);
                assert(t[0] == json_of(elems[0])[0]);
                assert(t.len() > 0 && t[0] != ']');
                assert(drop_ws(t) == t);
                lemma_parse_items_of_encode(elems, rest);
            }
        },
        SpecValue::Object(fields) => {
            assert(input[0] == '{');
            let t = input.drop_first();
            if fields.len() == 0 {
                assert(t =~= seq!['}'] + rest);
                assert(t[0] == '}');
                assert(drop_ws(t) == t);
                assert(t.drop_first() =~= rest);
                assert(fields =~= Seq::<(Seq<char>, SpecValue)>::empty());
            } else {
                crate::value::lemma_wf_fields(fields);
                assert(t =~= json_of_fields(fields) + seq!['}'] + rest);
                assert(t[0] == '"');
                assert(drop_ws(t) == t);
                assert(!(drop_ws(t).len() > 0 && drop_ws(t)[0] == '}'));
                lemma_parse_fields_of_encode(fields, rest);
            }
        },
    }
}

/// Parsing the encoded elements of a nonempty array, the closing bracket
/// and any suffix yields the elements and that suffix.
pub proof fn lemma_parse_items_of_encode(elems: Seq<SpecValue>, rest: Seq<char>)
    requires
        elems.len() > 0,
        forall|i: int| 0 <= i < elems.len() ==> wf_value(#[trigger] elems[i]),
    ensures
        spec_parse_items(json_of_items(elems) + seq![']'] + rest) == Some((elems, rest)),
    decreases elems, 1nat,
{
    let e0 = elems[0];
    let s = json_of_items(elems) + seq![']'] + rest;
    lemma_json_of_nonempty(e0);
    if elems.len() == 1 {
        assert(json_of_items(elems) =~= json_of(e0));
        assert(s =~= json_of(e0) + (seq![']'] + rest));
        lemma_parse_of_encode(e0, seq![']'] + rest);
        let r = seq![']'] + rest;
        assert(spec_parse_value(s) == Some((e0, r)));
        assert(r.len() < s.len());
        assert(r[0] == ']');
        assert(drop_ws(r) == r);
        assert(r.drop_first() =~= rest);
        assert(seq![e0] =~= elems);
    } else {
        let tail = elems.drop_first();
        assert(tail.len() > 0);
        assert(tail[0] == elems[1]);
        assert(json_of_items_rest(tail) =~= seq![','] + json_of_items(tail)) by {
            assert(tail.drop_first() =~= elems.drop_first().drop_first());
        }
        let after = json_of_items(tail) + seq![']'] + rest;
        assert(s =~= json_of(e0) + (seq![','] + after));
        lemma_parse_of_encode(e0, seq![','] + after);
        let r = seq![','] + after;
        assert(spec_parse_value(s) == Some((e0, r)));
        assert(r.len() < s.len());
        assert(r[0] == ',');
        assert(drop_ws(r) == r);
        assert(r.drop_first() =~= after);
        lemma_parse_items_of_encode(tail, rest);
        assert(spec_parse_items(after) == Some((tail, rest)));
        assert(seq![e0] + tail =~= elems);
    }
}

/// Parsing the encoded fields of a nonempty object, the closing brace and
/// any suffix yields the fields and that suffix.
pub proof fn lemma_parse_fields_of_encode(fields: Seq<(Seq<char>, SpecValue)>, rest: Seq<char>)
    requires
        fields.len() > 0,
        forall|i: int| 0 <= i < fields.len() ==> wf_value((#[trigger] fields[i]).1),
    ensures
        spec_parse_fields(json_of_fields(fields) + seq!['}'] + rest) == Some((fields, rest)),
    decreases fields, 1nat,
{
    let f0 = fields[0];
    let k = f0.0;
    let v = f0.1;
    let s = json_of_fields(fields) + seq!['}'] + rest;
    lemma_json_of_nonempty(v);
    if fields.len() == 1 {
        let after = seq!['}'] + rest;
        let r1 = seq![':'] + (json_of(v) + after);
        assert(json_of_fields(fields) =~= json_of_field(f0));
        assert(s =~= seq!['"'] + (escape_string(k) + seq!['"'] + r1));
        assert(s[0] == '"');
        assert(drop_ws(s) == s);
        assert(s.drop_first() =~= escape_string(k) + seq!['"'] + r1);
        lemma_parse_string_escape(k, r1);
        assert(spec_parse_string(s.drop_first()) == Some((k, r1)));
        assert(r1.len() < s.len());
        assert(r1[0] == ':');
        assert(drop_ws(r1) == r1);
        assert(r1.drop_first() =~= json_of(v) + after);
        lemma_parse_of_encode(v, after);
        assert(spec_parse_value(r1.drop_first()) == Some((v, after)));
        assert(after.len() < s.len());
        assert(after[0] == '}');
        assert(drop_ws(after) == after);
        assert(after.drop_first() =~= rest);
        assert((k, v) == f0);
        assert(seq![(k, v)] =~= fields);
    } else {
        let tail = fields.drop_first();
        assert(tail.len() > 0);
        assert(json_of_fields_rest(tail) =~= seq![','] + json_of_fields(tail)) by {
            assert(tail.drop_first() =~= fields.drop_first().drop_first());
        }
        let deeper = json_of_fields(tail) + seq!['}'] + rest;
        let after = seq![','] + deeper;
        let r1 = seq![':'] + (json_of(v) + after);
        assert(s =~= seq!['"'] + (escape_string(k) + seq!['"'] + r1));
        assert(s[0] == '"');
        assert(drop_ws(s) == s);
        assert(s.drop_first() =~= escape_string(k) + seq!['"'] + r1);
        lemma_parse_string_escape(k, r1);
        assert(spec_parse_string(s.drop_first()) == Some((k, r1)));
        assert(r1.len() < s.len());
        assert(r1[0] == ':');
        assert(drop_ws(r1) == r1);
        assert(r1.drop_first() =~= json_of(v) + after);
        lemma_parse_of_encode(v, after);
        assert(spec_parse_value(r1.drop_first()) == Some((v, after)));
        assert(after.len() < s.len());
        assert(after[0] == ',');
        assert(drop_ws(after) == after);
        assert(after.drop_first() =~= deeper);
        lemma_parse_fields_of_encode(tail, rest);
        assert(spec_parse_fields(deeper) == Some((tail, rest)));
        assert((k, v) == f0);
        assert(seq![(k, v)] + tail =~= fields);
    }
}

} // verus!
