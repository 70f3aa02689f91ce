//! The value model: the closed set of storable data shapes.

use vstd::prelude::*;
use vstd::string::StrSliceExecFns;

verus! {

/// A storable value: a string, a number (held as its decimal text, so that
/// integer and fractional numbers are carried alike), a boolean, null, an
/// ordered array of values, or an object mapping string keys to values in
/// insertion order.
///
/// Values are plain data: they are compared structurally and copied out of
/// the store on read.
#[derive(Debug, PartialEq, Eq)]
pub enum Value {
    String(String),
    Number(String),
    Bool(bool),
    Null,
    Array(Vec<Value>),
    Object(Vec<(String, Value)>),
}

/// The mathematical shape of a [`Value`]: the same variants over sequences
/// of characters instead of heap strings. Contracts and laws are stated
/// over this type.
#[verifier::ext_equal]
pub enum SpecValue {
    String(Seq<char>),
    Number(Seq<char>),
    Bool(bool),
    Null,
    Array(Seq<SpecValue>),
    Object(Seq<(Seq<char>, SpecValue)>),
}

/// The mathematical shape of a value.
pub open spec fn view_of(v: Value) -> SpecValue
    decreases v,
{
    match v {
        Value::String(s) => SpecValue::String(s@),
        Value::Number(t) => SpecValue::Number(t@),
        Value::Bool(b) => SpecValue::Bool(b),
        Value::Null => SpecValue::Null,
        Value::Array(a) => SpecValue::Array(view_list(a@)),
        Value::Object(o) => SpecValue::Object(view_fields(o@)),
    }
}

/// The mathematical shapes of a sequence of values, in order.
pub open spec fn view_list(s: Seq<Value>) -> Seq<SpecValue>
    decreases s,
{
    if s.len() == 0 {
        Seq::empty()
    } else {
        seq![view_of(s[0])] + view_list(s.drop_first())
    }
}

/// The mathematical shapes of a sequence of key-value fields, in order.
pub open spec fn view_fields(s: Seq<(String, Value)>) -> Seq<(Seq<char>, SpecValue)>
    decreases s,
{
    if s.len() == 0 {
        Seq::empty()
    } else {
        seq![(s[0].0@, view_of(s[0].1))] + view_fields(s.drop_first())
    }
}

/// [`view_list`] maps the view over the sequence pointwise.
pub proof fn lemma_view_list(s: Seq<Value>)
    ensures
        view_list(s).len() == s.len(),
        forall|i: int| 0 <= i < s.len() ==> view_list(s)[i] == view_of(#[trigger] s[i]),
    decreases s.len(),
{
    if s.len() > 0 {
        lemma_view_list(s.drop_first());
        assert forall|i: int| 0 <= i < s.len() implies view_list(s)[i] == view_of(
            #[trigger] s[i],
        ) by {
            if i > 0 {
                assert(view_list(s)[i] == view_list(s.drop_first())[i - 1]);
                assert(s.drop_first()[i - 1] == s[i]);
            }
        }
    }
}

/// [`view_fields`] maps the view over the fields pointwise.
pub proof fn lemma_view_fields(s: Seq<(String, Value)>)
    ensures
        view_fields(s).len() == s.len(),
        forall|i: int| 0 <= i < s.len()
            ==> view_fields(s)[i] == ((#[trigger] s[i]).0@, view_of(s[i].1)),
    decreases s.len(),
{
    if s.len() > 0 {
        lemma_view_fields(s.drop_first());
        assert forall|i: int| 0 <= i < s.len() implies view_fields(s)[i] == ((
        #[trigger] s[i]).0@, view_of(s[i].1)) by {
            if i > 0 {
                assert(view_fields(s)[i] == view_fields(s.drop_first())[i - 1]);
                assert(s.drop_first()[i - 1] == s[i]);
            }
        }
    }
}

/// Viewing fields commutes with removing one of them.
pub proof fn lemma_view_fields_remove(s: Seq<(String, Value)>, i: int)
    requires
        0 <= i < s.len(),
    ensures
        view_fields(s.remove(i)) =~= view_fields(s).remove(i),
{
    lemma_view_fields(s);
    lemma_view_fields(s.remove(i));
    assert forall|j: int| 0 <= j < view_fields(s.remove(i)).len() implies view_fields(
        s.remove(i),
    )[j] == view_fields(s).remove(i)[j] by {
        if j < i {
            assert(s.remove(i)[j] == s[j]);
            assert(view_fields(s).remove(i)[j] == view_fields(s)[j]);
        } else {
            assert(s.remove(i)[j] == s[j + 1]);
            assert(view_fields(s).remove(i)[j] == view_fields(s)[j + 1]);
        }
    }
}

/// Viewing fields commutes with appending one.
pub proof fn lemma_view_fields_push(s: Seq<(String, Value)>, k: String, v: Value)
    ensures
        view_fields(s.push((k, v))) =~= view_fields(s).push((k@, view_of(v))),
{
    lemma_view_fields(s);
    lemma_view_fields(s.push((k, v)));
    assert forall|j: int| 0 <= j < view_fields(s.push((k, v))).len() implies view_fields(
        s.push((k, v)),
    )[j] == view_fields(s).push((k@, view_of(v)))[j] by {
        if j < s.len() {
            assert(s.push((k, v))[j] == s[j]);
        } else {
            assert(s.push((k, v))[j] == (k, v));
        }
    }
}

/// Viewing a list of values commutes with appending one.
pub proof fn lemma_view_list_push(s: Seq<Value>, v: Value)
    ensures
        view_list(s.push(v)) =~= view_list(s).push(view_of(v)),
{
    lemma_view_list(s);
    lemma_view_list(s.push(v));
    assert forall|j: int| 0 <= j < view_list(s.push(v)).len() implies view_list(s.push(v))[j]
        == view_list(s).push(view_of(v))[j] by {
        if j < s.len() {
            assert(s.push(v)[j] == s[j]);
        } else {
            assert(s.push(v)[j] == v);
        }
    }
}

/// Relies on `String: FromIterator<char>` from std: collecting characters
/// yields the string made of exactly those characters in order.
#[verifier::external_body]
pub fn chars_to_string(v: &Vec<char>) -> (r: String)
    ensures
        r@ == v@,
{
    v.iter().collect()
}

/// The characters of a string slice, in order, as a vector.
pub fn str_to_chars(s: &str) -> (r: Vec<char>)
    ensures
        r@ == s@,
{
    let n = s.unicode_len();
    let mut out: Vec<char> = Vec::new();
    let mut i: usize = 0;
    while i < n
        invariant
            n == s@.len(),
            i <= n,
            out@ == s@.take(i as int),
        decreases n - i,
    {
        out.push(s.get_char(i));
        proof {
            assert(out@ =~= s@.take(i + 1));
        }
        i += 1;
    }
    proof {
        assert(s@.take(n as int) =~= s@);
    }
    out
}

impl View for Value {
    type V = SpecValue;

    open spec fn view(&self) -> SpecValue {
        view_of(*self)
    }
}

impl Clone for Value {
    /// A deep copy: the copy has the same mathematical shape as the
    /// original, so a caller that mutates it cannot disturb the value it
    /// was copied from.
    #[verifier::loop_isolation(false)]
    fn clone(&self) -> (r: Self)
        ensures
            r@ == self@,
        decreases self,
    {
        match self {
            Value::String(s) => Value::String(s.clone()),
            Value::Number(t) => Value::Number(t.clone()),
            Value::Bool(b) => Value::Bool(*b),
            Value::Null => Value::Null,
            Value::Array(a) => {
                let mut elems: Vec<Value> = Vec::new();
                let mut i: usize = 0;
                while i < a.len()
                    invariant
                        i <= a.len(),
                        elems@.len() == i as int,
                        forall|j: int| 0 <= j < i ==> elems@[j]@ == a@[j]@,
                    decreases a.len() - i,
                {
                    elems.push(a[i].clone());
                    i += 1;
                }
                let r = Value::Array(elems);
                proof {
                    lemma_view_list(elems@);
                    lemma_view_list(a@);
                    assert forall|k: int| 0 <= k < elems@.len() implies view_list(elems@)[k]
                        == view_list(a@)[k] by {
                        assert(elems@[k]@ == a@[k]@);
                    }
                    assert(view_list(elems@) =~= view_list(a@));
                }
                r
            },
            Value::Object(o) => {
                let mut fields: Vec<(String, Value)> = Vec::new();
                let mut i: usize = 0;
                while i < o.len()
                    invariant
                        i <= o.len(),
                        fields@.len() == i as int,
                        forall|j: int| 0 <= j < i
                            ==> (#[trigger] fields@[j]).0@ == o@[j].0@ && fields@[j].1@
                            == o@[j].1@,
                    decreases o.len() - i,
                {
                    let key = o[i].0.clone();
                    let val = o[i].1.clone();
                    fields.push((key, val));
                    i += 1;
                }
                let r = Value::Object(fields);
                proof {
                    lemma_view_fields(fields@);
                    lemma_view_fields(o@);
                    assert forall|k: int| 0 <= k < fields@.len() implies view_fields(fields@)[k]
                        == view_fields(o@)[k] by {
                        assert(fields@[k].0@ == o@[k].0@ && fields@[k].1@ == o@[k].1@);
                    }
                    assert(view_fields(fields@) =~= view_fields(o@));
                }
                r
            },
        }
    }
}

/// True of the characters that may occur in the decimal text of a number.
pub open spec fn is_number_char(c: char) -> bool {
    ('0' <= c && c <= '9') || c == '-' || c == '+' || c == '.' || c == 'e' || c == 'E'
}

/// True of a sequence of characters that is a well-formed decimal text for
/// a [`Value::Number`]: nonempty, made of number characters only, and
/// beginning with a digit or a minus sign.
pub open spec fn is_number_text(t: Seq<char>) -> bool {
    &&& t.len() > 0
    &&& forall|i: int| 0 <= i < t.len() ==> is_number_char(#[trigger] t[i])
    &&& (('0' <= t[0] && t[0] <= '9') || t[0] == '-')
}

/// Well-formedness of a value: every number it contains, at any depth,
/// carries a well-formed decimal text. Every value built through the
/// checked constructors is well formed.
pub open spec fn wf_value(v: SpecValue) -> bool
    decreases v,
{
    match v {
        SpecValue::String(_) => true,
        SpecValue::Number(t) => is_number_text(t),
        SpecValue::Bool(_) => true,
        SpecValue::Null => true,
        SpecValue::Array(elems) => wf_list(elems),
        SpecValue::Object(fields) => wf_fields(fields),
    }
}

/// Well-formedness of every value in a sequence.
pub open spec fn wf_list(s: Seq<SpecValue>) -> bool
    decreases s,
{
    if s.len() == 0 {
        true
    } else {
        wf_value(s[0]) && wf_list(s.drop_first())
    }
}

/// Well-formedness of every value of a sequence of fields.
pub open spec fn wf_fields(s: Seq<(Seq<char>, SpecValue)>) -> bool
    decreases s,
{
    if s.len() == 0 {
        true
    } else {
        wf_value(s[0].1) && wf_fields(s.drop_first())
    }
}

/// [`wf_list`] holds exactly when every element is well formed.
pub proof fn lemma_wf_list(s: Seq<SpecValue>)
    ensures
        wf_list(s) <==> (forall|i: int| 0 <= i < s.len() ==> wf_value(#[trigger] s[i])),
    decreases s.len(),
{
    if s.len() > 0 {
        lemma_wf_list(s.drop_first());
        if wf_list(s) {
            assert forall|i: int| 0 <= i < s.len() implies wf_value(#[trigger] s[i]) by {
                if i > 0 {
                    assert(s.drop_first()[i - 1] == s[i]);
                }
            }
        }
        if forall|i: int| 0 <= i < s.len() ==> wf_value(#[trigger] s[i]) {
            assert forall|i: int| 0 <= i < s.drop_first().len() implies wf_value(
                #[trigger] s.drop_first()[i],
            ) by {
                assert(s.drop_first()[i] == s[i + 1]);
            }
            assert(wf_value(s[0]) && wf_list(s.drop_first()));
        }
    }
}

/// [`wf_fields`] holds exactly when every field's value is well formed.
pub proof fn lemma_wf_fields(s: Seq<(Seq<char>, SpecValue)>)
    ensures
        wf_fields(s) <==> (forall|i: int|
            0 <= i < s.len() ==> wf_value((#[trigger] s[i]).1)),
    decreases s.len(),
{
    if s.len() > 0 {
        lemma_wf_fields(s.drop_first());
        if wf_fields(s) {
            assert forall|i: int| 0 <= i < s.len() implies wf_value((#[trigger] s[i]).1) by {
                if i > 0 {
                    assert(s.drop_first()[i - 1] == s[i]);
                }
            }
        }
        if forall|i: int| 0 <= i < s.len() ==> wf_value((#[trigger] s[i]).1) {
            assert forall|i: int| 0 <= i < s.drop_first().len() implies wf_value((
            #[trigger] s.drop_first()[i]).1) by {
                assert(s.drop_first()[i] == s[i + 1]);
            }
            assert(wf_value(s[0].1) && wf_fields(s.drop_first()));
        }
    }
}

/// Exec test of [`is_number_char`].
pub fn check_number_char(c: char) -> (r: bool)
    ensures
        r == is_number_char(c),
{
    ('0' <= c && c <= '9') || c == '-' || c == '+' || c == '.' || c == 'e' || c == 'E'
}

/// Exec test of [`is_number_text`].
pub fn check_number_text(t: &str) -> (r: bool)
    ensures
        r == is_number_text(t@),
{
    let n = t.unicode_len();
    if n == 0 {
        return false;
    }
    let first = t.get_char(0);
    if !(('0' <= first && first <= '9') || first == '-') {
        return false;
    }
    let mut i: usize = 0;
    while i < n
        invariant
            n == t@.len(),
            i <= n,
            forall|j: int| 0 <= j < i ==> is_number_char(#[trigger] t@[j]),
        decreases n - i,
    {
        if !check_number_char(t.get_char(i)) {
            return false;
        }
        i += 1;
    }
    true
}

impl Value {
    /// Builds a number value from its decimal text, returning it exactly
    /// when the text is a well-formed number text and `None` otherwise.
    pub fn number_from_text(text: String) -> (r: Option<Value>)
        ensures
            is_number_text(text@) ==> r == Some(Value::Number(text)),
            !is_number_text(text@) ==> r is None,
    {
        if check_number_text(text.as_str()) {
            Some(Value::Number(text))
        } else {
            None
        }
    }

    /// Exec test of [`wf_value`]: whether every number this value contains
    /// carries a well-formed decimal text.
    #[verifier::loop_isolation(false)]
    pub fn check_wf(&self) -> (r: bool)
        ensures
            r == wf_value(self@),
        decreases self,
    {
        match self {
            Value::String(_) => true,
            Value::Number(t) => check_number_text(t.as_str()),
            Value::Bool(_) => true,
            Value::Null => true,
            Value::Array(a) => {
                let ghost elems = view_list(a@);
                proof {
                    lemma_view_list(a@);
                }
                let n = a.len();
                let mut i: usize = 0;
                while i < n
                    invariant
                        i <= n,
                        forall|j: int| 0 <= j < i ==> wf_value(#[trigger] elems[j]),
                    decreases n - i,
                {
                    if !a[i].check_wf() {
                        proof {
                            assert(elems[i as int] == view_of(a@[i as int]));
                            assert(!wf_value(elems[i as int]));
                            lemma_wf_list(elems);
                            assert(!wf_value(self@));
                        }
                        return false;
                    }
                    i += 1;
                }
                proof {
                    lemma_wf_list(elems);
                }
                true
            },
            Value::Object(o) => {
                let ghost fields = view_fields(o@);
                proof {
                    lemma_view_fields(o@);
                }
                let n = o.len();
                let mut i: usize = 0;
                while i < n
                    invariant
                        i <= n,
                        forall|j: int| 0 <= j < i ==> wf_value(#[trigger] fields[j].1),
                    decreases n - i,
                {
                    if !o[i].1.check_wf() {
                        proof {
                            assert(fields[i as int] == (o@[i as int].0@, view_of(
                                o@[i as int].1,
                            )));
                            assert(!wf_value(fields[i as int].1));
                            lemma_wf_fields(fields);
                            assert(!wf_value(self@));
                        }
                        return false;
                    }
                    i += 1;
                }
                proof {
                    lemma_wf_fields(fields);
                }
                true
            },
        }
    }
}

} // verus!
