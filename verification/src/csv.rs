//! The CSV snapshot format: header row `Key,Value`, then one row per
//! entry. The value column holds the textual rendering of the value, so a
//! reloaded CSV snapshot carries every value as a string: the format is
//! deliberately lossy on read, and the round-trip law states exactly that
//! coercion.
//!
//! Fields containing a comma, a quote or a line break are quoted, with
//! inner quotes doubled, and the parser undoes that quoting.

use vstd::prelude::*;

use crate::json::json_of;
use crate::store::StoreError;
use crate::value::{SpecValue, Value};

verus! {

// ---------------------------------------------------------------------------
// The encoding, as spec functions.
// ---------------------------------------------------------------------------

/// True of the characters that separate fields or rows.
pub open spec fn is_sep_char(c: char) -> bool {
    c == ',' || c == '\n' || c == '\r'
}

/// True when a field's text must be quoted: it contains a separator or a
/// quote.
pub open spec fn needs_quote(s: Seq<char>) -> bool {
    exists|i: int| 0 <= i < s.len() && (is_sep_char(#[trigger] s[i]) || s[i] == '"')
}

/// The body of a quoted field: every quote doubled.
pub open spec fn csv_escape(s: Seq<char>) -> Seq<char>
    decreases s.len(),
{
    if s.len() == 0 {
        Seq::empty()
    } else {
        (if s[0] == '"' {
            seq!['"', '"']
        } else {
            seq![s[0]]
        }) + csv_escape(s.drop_first())
    }
}

/// The text of one field: quoted exactly when quoting is needed.
pub open spec fn csv_field_text(s: Seq<char>) -> Seq<char> {
    if needs_quote(s) {
        seq!['"'] + csv_escape(s) + seq!['"']
    } else {
        s
    }
}

/// The textual rendering of a value in a CSV cell: the raw text for a
/// string, the decimal text for a number, `true`/`false`/`null` for the
/// others, and the JSON text for arrays and objects.
pub open spec fn csv_render(v: SpecValue) -> Seq<char> {
    match v {
        SpecValue::String(t) => t,
        _ => json_of(v),
    }
}

/// The row of one entry: both fields, a comma, a line break.
pub open spec fn csv_row(e: (Seq<char>, SpecValue)) -> Seq<char> {
    csv_field_text(e.0) + seq![','] + csv_field_text(csv_render(e.1)) + seq!['\n']
}

/// The rows of a sequence of entries, in order.
pub open spec fn csv_rows(entries: Seq<(Seq<char>, SpecValue)>) -> Seq<char>
    decreases entries.len(),
{
    if entries.len() == 0 {
        Seq::empty()
    } else {
        csv_row(entries[0]) + csv_rows(entries.drop_first())
    }
}

/// The header row.
pub open spec fn csv_header() -> Seq<char> {
    seq!['K', 'e', 'y', ',', 'V', 'a', 'l', 'u', 'e', '\n']
}

/// A whole CSV snapshot: the header row, then one row per entry.
pub open spec fn csv_text(entries: Seq<(Seq<char>, SpecValue)>) -> Seq<char> {
    csv_header() + csv_rows(entries)
}

// ---------------------------------------------------------------------------
// The parse, as spec functions.
// ---------------------------------------------------------------------------

/// The number of leading characters of `s` before a separator.
pub open spec fn unq_run(s: Seq<char>) -> int
    decreases s.len(),
{
    if s.len() == 0 || is_sep_char(s[0]) {
        0
    } else {
        1 + unq_run(s.drop_first())
    }
}

/// Parses the body of a quoted field, the opening quote already consumed,
/// up to and including the closing quote. Doubled quotes stand for one
/// quote; an unclosed field is malformed.
pub open spec fn spec_parse_quoted(s: Seq<char>) -> Option<(Seq<char>, Seq<char>)>
    decreases s.len(),
{
    if s.len() == 0 {
        None
    } else if s[0] == '"' {
        if s.len() >= 2 && s[1] == '"' {
            match spec_parse_quoted(s.skip(2)) {
                Some((t, r)) => Some((seq!['"'] + t, r)),
                None => None,
            }
        } else {
            Some((Seq::empty(), s.drop_first()))
        }
    } else {
        match spec_parse_quoted(s.drop_first()) {
            Some((t, r)) => Some((seq![s[0]] + t, r)),
            None => None,
        }
    }
}

/// Parses one field: a quoted field must be followed by a separator or the
/// end of the input; an unquoted field runs to the next separator.
pub open spec fn spec_parse_field(s: Seq<char>) -> Option<(Seq<char>, Seq<char>)> {
    if s.len() > 0 && s[0] == '"' {
        match spec_parse_quoted(s.drop_first()) {
            Some((t, r)) => if r.len() == 0 || is_sep_char(r[0]) {
                Some((t, r))
            } else {
                None
            },
            None => None,
        }
    } else {
        Some((s.take(unq_run(s)), s.skip(unq_run(s))))
    }
}

/// Parses one row: fields separated by commas, ended by a line break
/// (`\n` or `\r\n`) or the end of the input.
pub open spec fn spec_parse_record(s: Seq<char>) -> Option<(Seq<Seq<char>>, Seq<char>)>
    decreases s.len(),
{
    match spec_parse_field(s) {
        None => None,
        Some((f, r)) => if r.len() > s.len() {
            None
        } else if r.len() == 0 {
            Some((seq![f], r))
        } else if r[0] == ',' {
            match spec_parse_record(r.drop_first()) {
                Some((fs, rr)) => Some((seq![f] + fs, rr)),
                None => None,
            }
        } else if r[0] == '\n' {
            Some((seq![f], r.drop_first()))
        } else if r[0] == '\r' {
            if r.len() >= 2 && r[1] == '\n' {
                Some((seq![f], r.skip(2)))
            } else {
                Some((seq![f], r.drop_first()))
            }
        } else {
            None
        },
    }
}

/// Parses every row of the input.
pub open spec fn spec_parse_rows(s: Seq<char>) -> Option<Seq<Seq<Seq<char>>>>
    decreases s.len(),
{
    if s.len() == 0 {
        Some(Seq::empty())
    } else {
        match spec_parse_record(s) {
            None => None,
            Some((fs, r)) => if r.len() >= s.len() {
                None
            } else {
                match spec_parse_rows(r) {
                    Some(rows) => Some(seq![fs] + rows),
                    None => None,
                }
            },
        }
    }
}

/// The entries a sequence of data rows describes: each row with at least
/// two fields contributes its first field as the key and its second as a
/// string value; shorter rows are skipped.
pub open spec fn csv_data_entries(rows: Seq<Seq<Seq<char>>>) -> Seq<(Seq<char>, SpecValue)>
    decreases rows.len(),
{
    if rows.len() == 0 {
        Seq::empty()
    } else {
        (if rows[0].len() >= 2 {
            seq![(rows[0][0], SpecValue::String(rows[0][1]))]
        } else {
            Seq::empty()
        }) + csv_data_entries(rows.drop_first())
    }
}

/// What loading a CSV snapshot text yields: the entries of every data row
/// after the header, or nothing when a row is malformed.
pub open spec fn csv_snapshot_entries(s: Seq<char>) -> Option<Seq<(Seq<char>, SpecValue)>> {
    match spec_parse_rows(s) {
        None => None,
        Some(rows) => if rows.len() == 0 {
            Some(Seq::empty())
        } else {
            Some(csv_data_entries(rows.drop_first()))
        },
    }
}

// ---------------------------------------------------------------------------
// The encoder, as verified executable code.
// ---------------------------------------------------------------------------

/// Appends the characters of `s` to `out`.
#[verifier::loop_isolation(false)]
fn append_chars(s: &String, out: &mut Vec<char>)
    ensures
        final(out)@ == old(out)@ + s@,
{
    let n = s.as_str().unicode_len();
    let mut i: usize = 0;
    while i < n
        invariant
            i <= n,
            n == s@.len(),
            out@ + s@.skip(i as int) == old(out)@ + s@,
        decreases n - i,
    {
        let c = s.as_str().get_char(i);
        proof {
            assert(s@.skip(i as int) =~= seq![s@[i as int]] + s@.skip(i + 1));
        }
        let ghost pre = out@;
        out.push(c);
        proof {
            assert(out@ + s@.skip(i + 1) =~= pre + s@.skip(i as int));
        }
        i += 1;
    }
    proof {
        assert(s@.skip(n as int) =~= Seq::<char>::empty());
        assert(out@ =~= old(out)@ + s@);
    }
}

/// Appends the CSV cell rendering of `v` to `out`.
fn append_render(v: &Value, out: &mut Vec<char>)
    ensures
        final(out)@ == old(out)@ + csv_render(v@),
{
    match v {
        Value::String(s) => {
            append_chars(s, out);
        },
        _ => {
            crate::json::encode_value(v, out);
            proof {
                assert(csv_render(v@) == json_of(v@));
            }
        },
    }
}

/// Whether a field's text must be quoted, executably.
#[verifier::loop_isolation(false)]
fn needs_quote_exec(cell: &Vec<char>) -> (r: bool)
    ensures
        r == needs_quote(cell@),
{
    let n = cell.len();
    let mut i: usize = 0;
    while i < n
        invariant
            i <= n,
            forall|j: int| 0 <= j < i ==> !(is_sep_char(#[trigger] cell@[j]) || cell@[j]
                == '"'),
        decreases n - i,
    {
        let c = cell[i];
        if c == ',' || c == '\n' || c == '\r' || c == '"' {
            proof {
                assert(is_sep_char(cell@[i as int]) || cell@[i as int] == '"');
            }
            return true;
        }
        i += 1;
    }
    proof {
        if needs_quote(cell@) {
            let j = choose|j: int|
                0 <= j < cell@.len() && (is_sep_char(#[trigger] cell@[j]) || cell@[j] == '"');
        }
    }
    false
}

/// Appends the (possibly quoted) field text of `cell` to `out`.
#[verifier::loop_isolation(false)]
fn append_field(cell: &Vec<char>, out: &mut Vec<char>)
    ensures
        final(out)@ == old(out)@ + csv_field_text(cell@),
{
    let n = cell.len();
    if needs_quote_exec(cell) {
        out.push('"');
        proof {
            assert(cell@.skip(0) =~= cell@);
            assert(out@ + csv_escape(cell@) + seq!['"'] =~= old(out)@ + csv_field_text(
                cell@,
            ));
        }
        let mut i: usize = 0;
        while i < n
            invariant
                i <= n,
                out@ + csv_escape(cell@.skip(i as int)) + seq!['"'] == old(out)@
                    + csv_field_text(cell@),
            decreases n - i,
        {
            let c = cell[i];
            proof {
                assert(cell@.skip(i as int)[0] == c);
                assert(cell@.skip(i as int).drop_first() =~= cell@.skip(i + 1));
            }
            let ghost pre = out@;
            if c == '"' {
                out.push('"');
                out.push('"');
                proof {
                    assert(out@ =~= pre + seq!['"', '"']);
                }
            } else {
                out.push(c);
                proof {
                    assert(out@ =~= pre + seq![c]);
                }
            }
            proof {
                assert(out@ + csv_escape(cell@.skip(i + 1)) + seq!['"'] =~= pre + csv_escape(
                    cell@.skip(i as int),
                ) + seq!['"']);
            }
            i += 1;
        }
        proof {
            assert(csv_escape(cell@.skip(n as int)) =~= Seq::<char>::empty());
        }
        out.push('"');
        proof {
            assert(out@ =~= old(out)@ + csv_field_text(cell@));
        }
    } else {
        let mut i: usize = 0;
        while i < n
            invariant
                i <= n,
                out@ + cell@.skip(i as int) == old(out)@ + cell@,
            decreases n - i,
        {
            proof {
                assert(cell@.skip(i as int) =~= seq![cell@[i as int]] + cell@.skip(i + 1));
            }
            let ghost pre = out@;
            out.push(cell[i]);
            proof {
                assert(out@ + cell@.skip(i + 1) =~= pre + cell@.skip(i as int));
            }
            i += 1;
        }
        proof {
            assert(cell@.skip(n as int) =~= Seq::<char>::empty());
            assert(out@ =~= old(out)@ + cell@);
        }
    }
}

/// The whole CSV snapshot of a sequence of entries, as characters.
#[verifier::loop_isolation(false)]
pub fn csv_snapshot_chars(entries: &Vec<(String, Value)>) -> (r: Vec<char>)
    ensures
        r@ == csv_text(crate::value::view_fields(entries@)),
{
    let ghost fields = crate::value::view_fields(entries@);
    proof {
        crate::value::lemma_view_fields(entries@);
    }
    let mut out: Vec<char> = Vec::new();
    out.push('K');
    out.push('e');
    out.push('y');
    out.push(',');
    out.push('V');
    out.push('a');
    out.push('l');
    out.push('u');
    out.push('e');
    out.push('\n');
    proof {
        assert(out@ =~= csv_header());
        assert(fields.skip(0) =~= fields);
        assert(out@ + csv_rows(fields) =~= csv_text(fields));
    }
    let n = entries.len();
    let mut i: usize = 0;
    while i < n
        invariant
            i <= n,
            out@ + csv_rows(fields.skip(i as int)) == csv_text(fields),
        decreases n - i,
    {
        let ghost pre = out@;
        let kc = crate::value::str_to_chars(entries[i].0.as_str());
        append_field(&kc, &mut out);
        out.push(',');
        let mut cell: Vec<char> = Vec::new();
        append_render(&entries[i].1, &mut cell);
        append_field(&cell, &mut out);
        out.push('\n');
        proof {
            assert(fields.skip(i as int)[0] == fields[i as int]);
            assert(fields.skip(i as int).drop_first() =~= fields.skip(i + 1));
            assert(csv_rows(fields.skip(i as int)) == csv_row(fields[i as int]) + csv_rows(
                fields.skip(i + 1),
            ));
            assert(out@ =~= pre + csv_row(fields[i as int]));
            assert(out@ + csv_rows(fields.skip(i + 1)) =~= pre + csv_rows(
                fields.skip(i as int),
            ));
        }
        i += 1;
    }
    proof {
        assert(csv_rows(fields.skip(n as int)) =~= Seq::<char>::empty());
        assert(out@ =~= csv_text(fields));
    }
    out
}

// ---------------------------------------------------------------------------
// The parser, as verified executable code.
// ---------------------------------------------------------------------------

/// The parsed fields of a row of cells, viewed as character sequences.
pub open spec fn cells_view(s: Seq<Vec<char>>) -> Seq<Seq<char>> {
    Seq::new(s.len(), |i: int| s[i]@)
}

/// Whether `c` separates fields or rows, executably.
fn is_sep_exec(c: char) -> (r: bool)
    ensures
        r == is_sep_char(c),
{
    c == ',' || c == '\n' || c == '\r'
}

/// The loop state of the quoted-field parser.
spec fn quoted_progress(whole: Seq<char>, acc: Seq<char>, cur: Seq<char>) -> bool {
    match spec_parse_quoted(cur) {
        Some(pr) => spec_parse_quoted(whole) == Some((acc + pr.0, pr.1)),
        None => spec_parse_quoted(whole) is None,
    }
}

/// Parses a quoted field body beginning at `pos` (the opening quote
/// already consumed), returning its characters and the position after the
/// closing quote.
#[verifier::loop_isolation(false)]
fn parse_quoted_at(chars: &Vec<char>, pos: usize) -> (r: Result<(Vec<char>, usize), StoreError>)
    requires
        pos <= chars@.len(),
    ensures
        match spec_parse_quoted(chars@.skip(pos as int)) {
            Some(pr) => r is Ok && (r->Ok_0).0@ == pr.0 && pos < (r->Ok_0).1 <= chars@.len()
                && chars@.skip((r->Ok_0).1 as int) == pr.1,
            None => r is Err && r->Err_0 == StoreError::ParseError,
        },
{
    let ghost whole = chars@.skip(pos as int);
    let mut acc: Vec<char> = Vec::new();
    let mut cur: usize = pos;
    proof {
        match spec_parse_quoted(whole) {
            Some(pr) => {
                assert(acc@ + pr.0 =~= pr.0);
            },
            None => {},
        }
    }
    loop
        invariant
            pos <= cur <= chars@.len(),
            quoted_progress(whole, acc@, chars@.skip(cur as int)),
        decreases chars@.len() - cur,
    {
        if cur >= chars.len() {
            return Err(StoreError::ParseError);
        }
        let c = chars[cur];
        proof {
            assert(chars@.skip(cur as int)[0] == c);
        }
        if c == '"' {
            if cur + 1 < chars.len() && chars[cur + 1] == '"' {
                let ghost acc0 = acc@;
                acc.push('"');
                proof {
                    assert(chars@.skip(cur as int)[1] == '"');
                    assert(chars@.skip(cur as int).skip(2) =~= chars@.skip(cur + 2));
                    match spec_parse_quoted(chars@.skip(cur + 2)) {
                        Some(pr) => {
                            assert(acc0 + (seq!['"'] + pr.0) =~= acc@ + pr.0);
                        },
                        None => {},
                    }
                }
                cur = cur + 2;
            } else {
                proof {
                    if chars@.skip(cur as int).len() >= 2 {
                        assert(chars@.skip(cur as int)[1] == chars@[cur + 1]);
                    }
                    assert(chars@.skip(cur as int).drop_first() =~= chars@.skip(cur + 1));
                    assert(acc@ + Seq::<char>::empty() =~= acc@);
                }
                return Ok((acc, cur + 1));
            }
        } else {
            let ghost acc0 = acc@;
            acc.push(c);
            proof {
                assert(chars@.skip(cur as int).drop_first() =~= chars@.skip(cur + 1));
                match spec_parse_quoted(chars@.skip(cur + 1)) {
                    Some(pr) => {
                        assert(acc0 + (seq![c] + pr.0) =~= acc@ + pr.0);
                    },
                    None => {},
                }
            }
            cur = cur + 1;
        }
    }
}

/// Parses one field beginning at `pos`, returning its characters and the
/// position of the separator (or end of input) that follows it.
#[verifier::loop_isolation(false)]
fn parse_field_at(chars: &Vec<char>, pos: usize) -> (r: Result<(Vec<char>, usize), StoreError>)
    requires
        pos <= chars@.len(),
    ensures
        match spec_parse_field(chars@.skip(pos as int)) {
            Some(pr) => r is Ok && (r->Ok_0).0@ == pr.0 && pos <= (r->Ok_0).1 <= chars@.len()
                && chars@.skip((r->Ok_0).1 as int) == pr.1,
            None => r is Err && r->Err_0 == StoreError::ParseError,
        },
{
    let ghost s = chars@.skip(pos as int);
    if pos < chars.len() && chars[pos] == '"' {
        proof {
            assert(s[0] == '"');
            assert(s.drop_first() =~= chars@.skip(pos + 1));
        }
        match parse_quoted_at(chars, pos + 1) {
            Err(_) => Err(StoreError::ParseError),
            Ok((body, p)) => {
                if p >= chars.len() {
                    proof {
                        assert(chars@.skip(p as int).len() == 0);
                    }
                    Ok((body, p))
                } else if is_sep_exec(chars[p]) {
                    proof {
                        assert(chars@.skip(p as int)[0] == chars@[p as int]);
                    }
                    Ok((body, p))
                } else {
                    proof {
                        assert(chars@.skip(p as int)[0] == chars@[p as int]);
                    }
                    Err(StoreError::ParseError)
                }
            },
        }
    } else {
        proof {
            if pos < chars@.len() {
                assert(s[0] == chars@[pos as int]);
            }
        }
        let mut cur: usize = pos;
        let mut body: Vec<char> = Vec::new();
        while cur < chars.len() && !is_sep_exec(chars[cur])
            invariant
                pos <= cur <= chars@.len(),
                unq_run(s) == cur - pos + unq_run(chars@.skip(cur as int)),
                body@ == chars@.subrange(pos as int, cur as int),
            decreases chars@.len() - cur,
        {
            proof {
                assert(chars@.skip(cur as int)[0] == chars@[cur as int]);
                assert(chars@.skip(cur as int).drop_first() =~= chars@.skip(cur + 1));
            }
            body.push(chars[cur]);
            proof {
                assert(body@ =~= chars@.subrange(pos as int, cur + 1));
            }
            cur = cur + 1;
        }
        proof {
            if cur < chars@.len() {
                assert(chars@.skip(cur as int)[0] == chars@[cur as int]);
                assert(unq_run(chars@.skip(cur as int)) == 0);
            } else {
                assert(chars@.skip(cur as int).len() == 0);
            }
            assert(unq_run(s) == cur - pos);
            assert(s.take(unq_run(s)) =~= chars@.subrange(pos as int, cur as int));
            assert(s.skip(unq_run(s)) =~= chars@.skip(cur as int));
        }
        Ok((body, cur))
    }
}

/// The loop state of the record parser.
spec fn record_progress(whole: Seq<char>, acc: Seq<Seq<char>>, cur: Seq<char>) -> bool {
    match spec_parse_record(cur) {
        Some(pr) => spec_parse_record(whole) == Some((acc + pr.0, pr.1)),
        None => spec_parse_record(whole) is None,
    }
}

/// Parses one row beginning at `pos`, returning its fields and the
/// position after the row's terminator.
#[verifier::loop_isolation(false)]
pub fn parse_record_at(chars: &Vec<char>, pos: usize) -> (r: Result<
    (Vec<Vec<char>>, usize),
    StoreError,
>)
    requires
        pos <= chars@.len(),
    ensures
        match spec_parse_record(chars@.skip(pos as int)) {
            Some(pr) => r is Ok && cells_view((r->Ok_0).0@) == pr.0 && pos <= (r->Ok_0).1
                <= chars@.len() && chars@.skip((r->Ok_0).1 as int) == pr.1 && (pos
                < chars@.len() ==> pos < (r->Ok_0).1),
            None => r is Err && r->Err_0 == StoreError::ParseError,
        },
{
    let ghost whole = chars@.skip(pos as int);
    let mut cells: Vec<Vec<char>> = Vec::new();
    let mut cur: usize = pos;
    proof {
        match spec_parse_record(whole) {
            Some(pr) => {
                assert(cells_view(cells@) + pr.0 =~= pr.0);
            },
            None => {},
        }
    }
    loop
        invariant
            pos <= cur <= chars@.len(),
            record_progress(whole, cells_view(cells@), chars@.skip(cur as int)),
        decreases chars@.len() - cur,
    {
        let ghost cur_t = chars@.skip(cur as int);
        let ghost acc0 = cells_view(cells@);
        match parse_field_at(chars, cur) {
            Err(_) => {
                return Err(StoreError::ParseError);
            },
            Ok((cell, p)) => {
                let ghost cv = cell@;
                cells.push(cell);
                proof {
                    assert(cells_view(cells@) =~= acc0.push(cv));
                    assert(chars@.skip(p as int).len() <= cur_t.len());
                }
                if p >= chars.len() {
                    proof {
                        assert(chars@.skip(p as int).len() == 0);
                        assert(spec_parse_record(cur_t) == Some(
                            (seq![cv], chars@.skip(p as int)),
                        ));
                        assert(acc0 + seq![cv] =~= acc0.push(cv));
                        assert(pos < chars@.len() ==> pos < p);
                    }
                    return Ok((cells, p));
                }
                let c = chars[p];
                proof {
                    assert(chars@.skip(p as int)[0] == c);
                }
                if c == ',' {
                    proof {
                        assert(chars@.skip(p as int).drop_first() =~= chars@.skip(p + 1));
                        match spec_parse_record(chars@.skip(p + 1)) {
                            Some(pr2) => {
                                assert(spec_parse_record(cur_t) == Some(
                                    (seq![cv] + pr2.0, pr2.1),
                                ));
                                assert(acc0 + (seq![cv] + pr2.0) =~= acc0.push(cv) + pr2.0);
                            },
                            None => {
                                assert(spec_parse_record(cur_t) is None);
                            },
                        }
                    }
                    cur = p + 1;
                } else if c == '\n' {
                    proof {
                        assert(chars@.skip(p as int).drop_first() =~= chars@.skip(p + 1));
                        assert(spec_parse_record(cur_t) == Some(
                            (seq![cv], chars@.skip(p + 1)),
                        ));
                        assert(acc0 + seq![cv] =~= acc0.push(cv));
                    }
                    return Ok((cells, p + 1));
                } else if c == '\r' {
                    if p + 1 < chars.len() && chars[p + 1] == '\n' {
                        proof {
                            assert(chars@.skip(p as int)[1] == '\n');
                            assert(chars@.skip(p as int).skip(2) =~= chars@.skip(p + 2));
                            assert(spec_parse_record(cur_t) == Some(
                                (seq![cv], chars@.skip(p + 2)),
                            ));
                            assert(acc0 + seq![cv] =~= acc0.push(cv));
                        }
                        return Ok((cells, p + 2));
                    } else {
                        proof {
                            if chars@.skip(p as int).len() >= 2 {
                                assert(chars@.skip(p as int)[1] == chars@[p + 1]);
                            }
                            assert(chars@.skip(p as int).drop_first() =~= chars@.skip(p + 1));
                            assert(spec_parse_record(cur_t) == Some(
                                (seq![cv], chars@.skip(p + 1)),
                            ));
                            assert(acc0 + seq![cv] =~= acc0.push(cv));
                        }
                        return Ok((cells, p + 1));
                    }
                } else {
                    proof {
                        assert(spec_parse_record(cur_t) is None);
                    }
                    return Err(StoreError::ParseError);
                }
            },
        }
    }
}

// ---------------------------------------------------------------------------
// Round trip: the parser inverts the encoder, up to the documented
// coercion of every value to its textual rendering.
// ---------------------------------------------------------------------------

/// The row a single entry encodes to, as parsed fields.
pub open spec fn row_of(e: (Seq<char>, SpecValue)) -> Seq<Seq<char>> {
    seq![e.0, csv_render(e.1)]
}

/// The rows a sequence of entries encodes to, as parsed fields.
pub open spec fn rows_of(entries: Seq<(Seq<char>, SpecValue)>) -> Seq<Seq<Seq<char>>> {
    Seq::new(entries.len(), |i: int| row_of(entries[i]))
}

/// An entry with its value coerced to the string of its rendering: what a
/// CSV round trip preserves of it.
pub open spec fn coerce_entry(e: (Seq<char>, SpecValue)) -> (Seq<char>, SpecValue) {
    (e.0, SpecValue::String(csv_render(e.1)))
}

/// All entries coerced.
pub open spec fn coerce_entries(entries: Seq<(Seq<char>, SpecValue)>) -> Seq<
    (Seq<char>, SpecValue),
> {
    Seq::new(entries.len(), |i: int| coerce_entry(entries[i]))
}

/// Parsing a quoted field body followed by the closing quote and a suffix
/// that does not begin with a quote yields the field and that suffix.
pub proof fn lemma_parse_quoted_escape(x: Seq<char>, rest: Seq<char>)
    requires
        rest.len() == 0 || rest[0] != '"',
    ensures
        spec_parse_quoted(csv_escape(x) + seq!['"'] + rest) == Some((x, rest)),
    decreases x.len(),
{
    let input = csv_escape(x) + seq!['"'] + rest;
    if x.len() == 0 {
        assert(input =~= seq!['"'] + rest);
        assert(input[0] == '"');
        assert(input.len() < 2 || input[1] != '"');
        assert(input.drop_first() =~= rest);
        assert(x =~= Seq::<char>::empty());
    } else {
        let c = x[0];
        let tail = csv_escape(x.drop_first()) + seq!['"'] + rest;
        lemma_parse_quoted_escape(x.drop_first(), rest);
        if c == '"' {
            assert(input =~= seq!['"', '"'] + tail);
            assert(input[0] == '"' && input.len() >= 2 && input[1] == '"');
            assert(input.skip(2) =~= tail);
            assert(seq!['"'] + x.drop_first() =~= x);
        } else {
            assert(input =~= seq![c] + tail);
            assert(input[0] == c);
            assert(input.drop_first() =~= tail);
            assert(seq![c] + x.drop_first() =~= x);
        }
    }
}

/// Appending a suffix that begins with a separator to text without
/// separators leaves the length of the leading unquoted run alone.
pub proof fn lemma_unq_run_concat(x: Seq<char>, rest: Seq<char>)
    requires
        forall|i: int| 0 <= i < x.len() ==> !is_sep_char(#[trigger] x[i]),
        rest.len() == 0 || is_sep_char(rest[0]),
    ensures
        unq_run(x + rest) == x.len(),
    decreases x.len(),
{
    if x.len() == 0 {
        assert(x + rest =~= rest);
    } else {
        assert((x + rest)[0] == x[0]);
        assert((x + rest).drop_first() =~= x.drop_first() + rest);
        lemma_unq_run_concat(x.drop_first(), rest);
    }
}

/// Parsing an encoded field followed by a separator or the end of the
/// input yields the field text and the suffix.
pub proof fn lemma_parse_field_of(x: Seq<char>, rest: Seq<char>)
    requires
        rest.len() == 0 || is_sep_char(rest[0]),
    ensures
        spec_parse_field(csv_field_text(x) + rest) == Some((x, rest)),
{
    let s = csv_field_text(x) + rest;
    if needs_quote(x) {
        assert(s =~= seq!['"'] + (csv_escape(x) + seq!['"'] + rest));
        assert(s[0] == '"');
        assert(s.drop_first() =~= csv_escape(x) + seq!['"'] + rest);
        lemma_parse_quoted_escape(x, rest);
    } else {
        assert forall|i: int| 0 <= i < x.len() implies !is_sep_char(#[trigger] x[i]) && x[i]
            != '"' by {
            if is_sep_char(x[i]) || x[i] == '"' {
                assert(needs_quote(x));
            }
        }
        assert(s =~= x + rest);
        if x.len() == 0 {
            assert(s =~= rest);
            if s.len() > 0 {
                assert(s[0] == rest[0]);
                assert(s[0] != '"');
                assert(unq_run(s) == 0);
            }
            assert(s.take(0) =~= x);
            assert(s.skip(0) =~= rest);
        } else {
            assert(s[0] == x[0]);
            assert(s[0] != '"');
            lemma_unq_run_concat(x, rest);
            assert(unq_run(s) == x.len());
            assert(s.take(x.len() as int) =~= x);
            assert(s.skip(x.len() as int) =~= rest);
        }
    }
}

/// Parsing a two-field row followed by a suffix yields the two fields and
/// that suffix.
pub proof fn lemma_parse_record_two(a: Seq<char>, b: Seq<char>, rest: Seq<char>)
    ensures
        spec_parse_record(
            csv_field_text(a) + seq![','] + csv_field_text(b) + seq!['\n'] + rest,
        ) == Some((seq![a, b], rest)),
{
    let s = csv_field_text(a) + seq![','] + csv_field_text(b) + seq!['\n'] + rest;
    let sb = csv_field_text(b) + seq!['\n'] + rest;
    let ra = seq![','] + sb;
    assert(s =~= csv_field_text(a) + ra);
    lemma_parse_field_of(a, ra);
    assert(spec_parse_field(s) == Some((a, ra)));
    assert(ra.len() <= s.len());
    assert(ra[0] == ',');
    assert(ra.drop_first() =~= sb);
    let rb = seq!['\n'] + rest;
    assert(sb =~= csv_field_text(b) + rb);
    lemma_parse_field_of(b, rb);
    assert(spec_parse_field(sb) == Some((b, rb)));
    assert(rb.len() <= sb.len());
    assert(rb[0] == '\n');
    assert(rb.drop_first() =~= rest);
    assert(spec_parse_record(sb) == Some((seq![b], rest)));
    assert(seq![a] + seq![b] =~= seq![a, b]);
}

/// Parsing the encoded rows of a sequence of entries yields one parsed
/// row per entry and consumes the whole input.
pub proof fn lemma_parse_rows_of(entries: Seq<(Seq<char>, SpecValue)>)
    ensures
        spec_parse_rows(csv_rows(entries)) == Some(rows_of(entries)),
    decreases entries.len(),
{
    if entries.len() == 0 {
        assert(rows_of(entries) =~= Seq::<Seq<Seq<char>>>::empty());
    } else {
        let e0 = entries[0];
        let tail = entries.drop_first();
        let s = csv_rows(entries);
        assert(s == csv_row(e0) + csv_rows(tail));
        assert(s =~= csv_field_text(e0.0) + seq![','] + csv_field_text(csv_render(e0.1))
            + seq!['\n'] + csv_rows(tail));
        lemma_parse_record_two(e0.0, csv_render(e0.1), csv_rows(tail));
        assert(spec_parse_record(s) == Some((seq![e0.0, csv_render(e0.1)], csv_rows(tail))));
        assert(csv_row(e0).len() >= 2);
        assert(s.len() >= 2 + csv_rows(tail).len());
        lemma_parse_rows_of(tail);
        assert(seq![row_of(e0)] + rows_of(tail) =~= rows_of(entries));
    }
}

/// The entries read back from the rows a sequence of entries encodes to
/// are exactly the coerced entries.
pub proof fn lemma_data_entries_of(entries: Seq<(Seq<char>, SpecValue)>)
    ensures
        csv_data_entries(rows_of(entries)) == coerce_entries(entries),
    decreases entries.len(),
{
    if entries.len() == 0 {
        assert(csv_data_entries(rows_of(entries)) =~= coerce_entries(entries));
    } else {
        let tail = entries.drop_first();
        assert(rows_of(entries).drop_first() =~= rows_of(tail));
        lemma_data_entries_of(tail);
        assert(rows_of(entries)[0] == row_of(entries[0]));
        assert(row_of(entries[0]).len() == 2);
        assert(row_of(entries[0])[0] == entries[0].0);
        assert(row_of(entries[0])[1] == csv_render(entries[0].1));
        assert(csv_data_entries(rows_of(entries)) =~= coerce_entries(entries));
    }
}

/// The entry a single row contributes: one entry when it has at least two
/// fields, none otherwise.
pub open spec fn row_entry(row: Seq<Seq<char>>) -> Seq<(Seq<char>, SpecValue)> {
    if row.len() >= 2 {
        seq![(row[0], SpecValue::String(row[1]))]
    } else {
        Seq::empty()
    }
}

/// Reading entries out of rows commutes with appending a row.
pub proof fn lemma_csv_data_entries_push(rows: Seq<Seq<Seq<char>>>, row: Seq<Seq<char>>)
    ensures
        csv_data_entries(rows.push(row)) == csv_data_entries(rows) + row_entry(row),
    decreases rows.len(),
{
    if rows.len() == 0 {
        assert(rows.push(row)[0] == row);
        assert(rows.push(row).drop_first() =~= Seq::<Seq<Seq<char>>>::empty());
        assert(csv_data_entries(rows.push(row).drop_first()) == Seq::<
            (Seq<char>, SpecValue),
        >::empty());
        assert(csv_data_entries(rows.push(row)) == row_entry(row) + csv_data_entries(
            rows.push(row).drop_first(),
        ));
        assert(csv_data_entries(rows) == Seq::<(Seq<char>, SpecValue)>::empty());
        assert(csv_data_entries(rows.push(row)) =~= csv_data_entries(rows) + row_entry(row));
    } else {
        assert(rows.push(row)[0] == rows[0]);
        assert(rows.push(row).drop_first() =~= rows.drop_first().push(row));
        lemma_csv_data_entries_push(rows.drop_first(), row);
        assert(csv_data_entries(rows) == row_entry(rows[0]) + csv_data_entries(
            rows.drop_first(),
        ));
        assert(csv_data_entries(rows.push(row)) == row_entry(rows[0]) + (csv_data_entries(
            rows.drop_first(),
        ) + row_entry(row)));
        assert(csv_data_entries(rows.push(row)) =~= csv_data_entries(rows) + row_entry(row));
    }
}

/// For entries whose values are all strings, the coercion changes
/// nothing: a CSV round trip reproduces such a store exactly.
pub proof fn lemma_coerce_strings_identity(entries: Seq<(Seq<char>, SpecValue)>)
    requires
        forall|i: int| 0 <= i < entries.len() ==> (#[trigger] entries[i]).1 is String,
    ensures
        coerce_entries(entries) == entries,
{
    assert forall|i: int| 0 <= i < entries.len() implies coerce_entries(entries)[i] == (
    #[trigger] entries[i]) by {
        let e = entries[i];
        assert(e.1 is String);
        assert(csv_render(e.1) == e.1->String_0);
        assert(coerce_entry(e) =~= e);
    }
    assert(coerce_entries(entries) =~= entries);
}

/// Loading the CSV snapshot of any sequence of entries yields exactly
/// those entries with every value coerced to the string of its rendering.
pub proof fn lemma_csv_snapshot_round_trip(entries: Seq<(Seq<char>, SpecValue)>)
    ensures
        csv_snapshot_entries(csv_text(entries)) == Some(coerce_entries(entries)),
{
    let hk = seq!['K', 'e', 'y'];
    let hv = seq!['V', 'a', 'l', 'u', 'e'];
    assert(!needs_quote(hk)) by {
        if needs_quote(hk) {
            let i = choose|i: int|
                0 <= i < hk.len() && (is_sep_char(#[trigger] hk[i]) || hk[i] == '"');
            assert(i == 0 || i == 1 || i == 2);
        }
    }
    assert(!needs_quote(hv)) by {
        if needs_quote(hv) {
            let i = choose|i: int|
                0 <= i < hv.len() && (is_sep_char(#[trigger] hv[i]) || hv[i] == '"');
            assert(0 <= i < 5);
        }
    }
    let s = csv_text(entries);
    assert(s =~= csv_field_text(hk) + seq![','] + csv_field_text(hv) + seq!['\n'] + csv_rows(
        entries,
    ));
    lemma_parse_record_two(hk, hv, csv_rows(entries));
    assert(spec_parse_record(s) == Some((seq![hk, hv], csv_rows(entries))));
    assert(s.len() == 10 + csv_rows(entries).len());
    lemma_parse_rows_of(entries);
    assert(spec_parse_rows(s) == Some(seq![seq![hk, hv]] + rows_of(entries)));
    assert((seq![seq![hk, hv]] + rows_of(entries)).drop_first() =~= rows_of(entries));
    lemma_data_entries_of(entries);
}

} // verus!
