//! The key-value store: a mapping from string keys to values with
//! insert/lookup/delete and exact contracts over a `Map` view.

use vstd::prelude::*;

use crate::csv::{csv_data_entries, csv_snapshot_entries, csv_text, spec_parse_record,
    spec_parse_rows};
use crate::fileformat::FileFormat;
use crate::json::{json_of, json_snapshot_entries};
use crate::value::{view_fields, view_of, wf_fields, wf_value, SpecValue, Value};

verus! {

/// The failure conditions of saving and loading a snapshot. File-system
/// failures are surfaced as [`StoreError::IOError`] by the code that
/// performs the I/O around the library; in-memory encoding and decoding
/// produce the other two.
#[derive(Clone, Copy, PartialEq, Eq, Structural, Debug)]
pub enum StoreError {
    /// The snapshot file was missing, unreadable or unwritable.
    IOError,
    /// The snapshot text was malformed for the chosen format.
    ParseError,
    /// A value could not be serialized.
    EncodeError,
}

/// True when no two entries share a key.
pub open spec fn distinct_keys(s: Seq<(Seq<char>, SpecValue)>) -> bool {
    forall|i: int, j: int| 0 <= i < j < s.len() ==> (#[trigger] s[i]).0 != (#[trigger] s[j]).0
}

/// True when some entry carries the key `k`.
pub open spec fn has_key(s: Seq<(Seq<char>, SpecValue)>, k: Seq<char>) -> bool {
    exists|i: int| 0 <= i < s.len() && (#[trigger] s[i]).0 == k
}

/// The index of an entry carrying the key `k`.
pub open spec fn key_index(s: Seq<(Seq<char>, SpecValue)>, k: Seq<char>) -> int {
    choose|i: int| 0 <= i < s.len() && (#[trigger] s[i]).0 == k
}

/// The mapping described by a sequence of entries; a later entry for a key
/// overrides an earlier one.
pub open spec fn map_of_entries(s: Seq<(Seq<char>, SpecValue)>) -> Map<Seq<char>, SpecValue>
    decreases s.len(),
{
    if s.len() == 0 {
        Map::empty()
    } else {
        map_of_entries(s.drop_last()).insert(s.last().0, s.last().1)
    }
}

/// The mapping of a sequence of entries holds exactly the keys of its
/// entries.
pub proof fn lemma_map_of_entries_domain(s: Seq<(Seq<char>, SpecValue)>)
    ensures
        forall|k: Seq<char>| #[trigger]
            map_of_entries(s).contains_key(k) <==> has_key(s, k),
    decreases s.len(),
{
    if s.len() > 0 {
        lemma_map_of_entries_domain(s.drop_last());
        assert forall|k: Seq<char>| #[trigger]
            map_of_entries(s).contains_key(k) implies has_key(s, k) by {
            if k == s.last().0 {
                assert(s[s.len() - 1].0 == k);
            } else {
                assert(map_of_entries(s.drop_last()).contains_key(k));
                assert(has_key(s.drop_last(), k));
                let i = choose|i: int|
                    0 <= i < s.drop_last().len() && (#[trigger] s.drop_last()[i]).0 == k;
                assert(s.drop_last()[i] == s[i]);
                assert(s[i].0 == k);
            }
        }
        assert forall|k: Seq<char>| has_key(s, k) implies #[trigger]
            map_of_entries(s).contains_key(k) by {
            let i = choose|i: int| 0 <= i < s.len() && (#[trigger] s[i]).0 == k;
            if i < s.len() - 1 {
                assert(s.drop_last()[i] == s[i]);
                assert(has_key(s.drop_last(), k));
                assert(map_of_entries(s.drop_last()).contains_key(k));
            } else {
                assert(k == s.last().0);
            }
        }
    }
}

/// In a sequence of entries with pairwise distinct keys, the mapping sends
/// the key of each entry to that entry's value.
pub proof fn lemma_map_of_entries_index(s: Seq<(Seq<char>, SpecValue)>, i: int)
    requires
        distinct_keys(s),
        0 <= i < s.len(),
    ensures
        map_of_entries(s).contains_key(s[i].0),
        map_of_entries(s)[s[i].0] == s[i].1,
    decreases s.len(),
{
    if i == s.len() - 1 {
    } else {
        assert(s.drop_last()[i] == s[i]);
        lemma_map_of_entries_index(s.drop_last(), i);
        assert(s[i].0 != s.last().0);
    }
}

/// Removing the entry that carries a key removes exactly that key from the
/// mapping.
pub proof fn lemma_map_of_entries_remove(s: Seq<(Seq<char>, SpecValue)>, i: int)
    requires
        distinct_keys(s),
        0 <= i < s.len(),
    ensures
        map_of_entries(s.remove(i)) =~= map_of_entries(s).remove(s[i].0),
    decreases s.len(),
{
    lemma_map_of_entries_domain(s);
    lemma_map_of_entries_domain(s.drop_last());
    if i == s.len() - 1 {
        assert(s.remove(i) =~= s.drop_last());
        assert(!has_key(s.drop_last(), s[i].0));
        assert(map_of_entries(s.drop_last()) =~= map_of_entries(s).remove(s[i].0));
    } else {
        assert(s.remove(i).last() == s.last());
        assert(s.remove(i).drop_last() =~= s.drop_last().remove(i));
        assert(s.drop_last()[i] == s[i]);
        lemma_map_of_entries_remove(s.drop_last(), i);
        assert(s[i].0 != s.last().0);
        assert(map_of_entries(s.remove(i)) =~= map_of_entries(s.drop_last().remove(i)).insert(
            s.last().0,
            s.last().1,
        ));
        assert(map_of_entries(s.drop_last().remove(i)).insert(s.last().0, s.last().1)
            =~= map_of_entries(s).remove(s[i].0));
    }
}

/// A sequence of entries with pairwise distinct keys describes a mapping
/// with exactly one key per entry.
pub proof fn lemma_map_of_entries_len(s: Seq<(Seq<char>, SpecValue)>)
    requires
        distinct_keys(s),
    ensures
        map_of_entries(s).dom().finite(),
        map_of_entries(s).dom().len() == s.len(),
    decreases s.len(),
{
    if s.len() == 0 {
        assert(map_of_entries(s).dom() =~= Set::<Seq<char>>::empty());
    } else {
        assert forall|i: int, j: int|
            0 <= i < j < s.drop_last().len() implies (#[trigger] s.drop_last()[i]).0 != (
        #[trigger] s.drop_last()[j]).0 by {
            assert(s.drop_last()[i] == s[i]);
            assert(s.drop_last()[j] == s[j]);
        }
        lemma_map_of_entries_len(s.drop_last());
        lemma_map_of_entries_domain(s.drop_last());
        let k = s.last().0;
        assert(!has_key(s.drop_last(), k)) by {
            if has_key(s.drop_last(), k) {
                let j = choose|j: int|
                    0 <= j < s.drop_last().len() && (#[trigger] s.drop_last()[j]).0 == k;
                assert(s[j].0 == s[s.len() - 1].0);
            }
        }
        assert(!map_of_entries(s.drop_last()).dom().contains(k));
        assert(map_of_entries(s).dom() =~= map_of_entries(s.drop_last()).dom().insert(k));
    }
}

/// Law: setting a key and then getting it yields the value just set, for
/// every store content, key and value. Stated over the store's `Map` view,
/// which [`KeyValueStore::set`] and [`KeyValueStore::get`] are contracted
/// against.
pub proof fn lemma_set_then_get(m: Map<Seq<char>, SpecValue>, k: Seq<char>, v: SpecValue)
    ensures
        m.insert(k, v).contains_key(k),
        m.insert(k, v)[k] == v,
{
}

/// Law: removing a key makes it absent, removing an absent key changes
/// nothing, and a removal never touches any other key.
pub proof fn lemma_remove_then_get(m: Map<Seq<char>, SpecValue>, k: Seq<char>)
    ensures
        !m.remove(k).contains_key(k),
        !m.contains_key(k) ==> m.remove(k) == m,
        forall|k2: Seq<char>| k2 != k ==> (m.remove(k).contains_key(k2) <==> m.contains_key(
            k2,
        )),
        forall|k2: Seq<char>| k2 != k && m.contains_key(k2) ==> m.remove(k)[k2] == m[k2],
{
    if !m.contains_key(k) {
        assert(m.remove(k) =~= m);
    }
}

/// Law: overwriting a key keeps only the later value; setting it twice is
/// the same as setting it once to the second value.
pub proof fn lemma_overwrite(
    m: Map<Seq<char>, SpecValue>,
    k: Seq<char>,
    v1: SpecValue,
    v2: SpecValue,
)
    ensures
        m.insert(k, v1).insert(k, v2)[k] == v2,
        m.insert(k, v1).insert(k, v2) == m.insert(k, v2),
{
    assert(m.insert(k, v1).insert(k, v2) =~= m.insert(k, v2));
}

/// Law: the JSON snapshot round-trips with full fidelity. For any
/// well-formed entries, loading the text that saving produces yields
/// exactly the same entries, and therefore the same mapping. Combined
/// with the contracts of [`KeyValueStore::save_to_string`] and
/// [`KeyValueStore::load_from_string`], this says that
/// `load(save(store))` reproduces an equal store.
pub proof fn lemma_json_round_trip(entries: Seq<(Seq<char>, SpecValue)>)
    requires
        wf_fields(entries),
    ensures
        json_snapshot_entries(json_of(SpecValue::Object(entries))) == Some(entries),
{
    crate::json::lemma_parse_of_encode(SpecValue::Object(entries), Seq::<char>::empty());
    assert(json_of(SpecValue::Object(entries)) + Seq::<char>::empty() =~= json_of(
        SpecValue::Object(entries),
    ));
}

/// Law: the CSV snapshot round-trips up to the documented coercion. For
/// any entries, loading the text that saving produces yields the same
/// keys, each value replaced by the string of its textual rendering; for
/// a store holding only string values that is the identical mapping (see
/// [`crate::csv::lemma_coerce_strings_identity`]).
pub proof fn lemma_csv_round_trip(entries: Seq<(Seq<char>, SpecValue)>)
    ensures
        csv_snapshot_entries(csv_text(entries)) == Some(crate::csv::coerce_entries(entries)),
{
    crate::csv::lemma_csv_snapshot_round_trip(entries);
}

/// The key-value store: a mapping from string keys to [`Value`] instances,
/// held as a sequence of entries whose keys are pairwise distinct. Its
/// abstract content is the [`Map`] from key characters to value shapes.
#[derive(Debug)]
pub struct KeyValueStore {
    entries: Vec<(String, Value)>,
}

/// Returns a freshly created, empty store.
pub fn get_store() -> (r: KeyValueStore)
    ensures
        r.wf(),
        r@ =~= Map::<Seq<char>, SpecValue>::empty(),
        r.entries_view() =~= Seq::<(Seq<char>, SpecValue)>::empty(),
{
    KeyValueStore::new()
}

impl KeyValueStore {
    /// The store's entries in insertion order, as key characters paired
    /// with value shapes.
    pub closed spec fn entries_view(&self) -> Seq<(Seq<char>, SpecValue)> {
        view_fields(self.entries@)
    }

    /// Well-formedness: no two entries share a key, so every key maps to
    /// exactly one value. Constructors establish it and every method
    /// preserves it.
    pub open spec fn wf(&self) -> bool {
        distinct_keys(self.entries_view())
    }

    /// Finds the index of the entry carrying `key`, if any.
    fn find_index(&self, key: &String) -> (r: Option<usize>)
        requires
            self.wf(),
        ensures
            match r {
                Some(i) => i < self.entries_view().len() && self.entries_view()[i as int].0
                    == key@ && i == key_index(self.entries_view(), key@),
                None => !has_key(self.entries_view(), key@),
            },
    {
        proof {
            crate::value::lemma_view_fields(self.entries@);
        }
        let n = self.entries.len();
        let mut i: usize = 0;
        while i < n
            invariant
                n == self.entries@.len(),
                i <= n,
                distinct_keys(self.entries_view()),
                self.entries_view().len() == n,
                forall|j: int| 0 <= j < i ==> (#[trigger] self.entries_view()[j]).0 != key@,
                forall|j: int| 0 <= j < n
                    ==> (#[trigger] self.entries_view()[j]) == (
                    self.entries@[j].0@,
                    view_of(self.entries@[j].1),
                ),
            decreases n - i,
        {
            if self.entries[i].0 == *key {
                proof {
                    assert(self.entries_view()[i as int].0 == key@);
                    assert(has_key(self.entries_view(), key@));
                    let w = key_index(self.entries_view(), key@);
                    assert(0 <= w < self.entries_view().len() && self.entries_view()[w].0
                        == key@);
                    assert(w == i as int);
                }
                return Some(i);
            }
            i += 1;
        }
        proof {
            assert forall|j: int| 0 <= j < self.entries_view().len() implies (
            #[trigger] self.entries_view()[j]).0 != key@ by {}
        }
        None
    }

    /// Inserts or overwrites: after the call the store maps `key` to
    /// `value` and every other key to what it mapped to before. The entry
    /// order is pinned too: an existing entry for the key is dropped and
    /// the new entry appended.
    pub fn set(&mut self, key: String, value: Value)
        requires
            old(self).wf(),
        ensures
            final(self).wf(),
            final(self)@ == old(self)@.insert(key@, value@),
            final(self).entries_view() == if has_key(old(self).entries_view(), key@) {
                old(self).entries_view().remove(
                    key_index(old(self).entries_view(), key@),
                ).push((key@, value@))
            } else {
                old(self).entries_view().push((key@, value@))
            },
    {
        let ghost s0 = self.entries_view();
        let ghost e0 = self.entries@;
        let found = self.find_index(&key);
        if let Some(i) = found {
            proof {
                crate::value::lemma_view_fields(self.entries@);
            }
            self.entries.remove(i);
            proof {
                crate::value::lemma_view_fields_remove(e0, i as int);
                assert(self.entries_view() =~= s0.remove(i as int));
                assert forall|p: int, q: int|
                    0 <= p < q < s0.remove(i as int).len() implies (#[trigger] s0.remove(
                    i as int,
                )[p]).0 != (#[trigger] s0.remove(i as int)[q]).0 by {}
                assert(!has_key(s0.remove(i as int), key@)) by {
                    if has_key(s0.remove(i as int), key@) {
                        let j = choose|j: int|
                            0 <= j < s0.remove(i as int).len() && (#[trigger] s0.remove(
                                i as int,
                            )[j]).0 == key@;
                    }
                }
                lemma_map_of_entries_remove(s0, i as int);
            }
        }
        let ghost s1 = self.entries_view();
        let ghost e1 = self.entries@;
        let ghost k0 = key@;
        let ghost v0 = value@;
        proof {
            assert(distinct_keys(s1));
            assert(!has_key(s1, k0));
        }
        self.entries.push((key, value));
        proof {
            crate::value::lemma_view_fields_push(e1, key, value);
            assert(self.entries_view() =~= s1.push((k0, v0)));
            assert forall|p: int, q: int|
                0 <= p < q < s1.push((k0, v0)).len() implies (#[trigger] s1.push(
                (k0, v0),
            )[p]).0 != (#[trigger] s1.push((k0, v0))[q]).0 by {
                if q == s1.len() as int {
                    assert(s1.push((k0, v0))[p] == s1[p]);
                    assert(s1[p].0 != k0) by {
                        if s1[p].0 == k0 {
                            assert(has_key(s1, k0));
                        }
                    }
                }
            }
            assert(s1.push((k0, v0)).drop_last() =~= s1);
            assert(s1.push((k0, v0)).last() == (k0, v0));
            assert(self@ =~= map_of_entries(s1).insert(k0, v0));
            if has_key(s0, k0) {
                lemma_map_of_entries_domain(s0);
                assert(map_of_entries(s1) == map_of_entries(s0).remove(k0));
                assert(self@ =~= old(self)@.insert(k0, v0));
            } else {
                assert(self@ =~= old(self)@.insert(k0, v0));
            }
        }
    }

    /// Pure lookup: returns a copy of the value currently stored under
    /// `key`, or `None` exactly when the key is absent.
    pub fn get(&self, key: String) -> (r: Option<Value>)
        requires
            self.wf(),
        ensures
            match r {
                Some(v) => self@.contains_key(key@) && v@ == self@[key@],
                None => !self@.contains_key(key@),
            },
    {
        proof {
            lemma_map_of_entries_domain(self.entries_view());
        }
        let found = self.find_index(&key);
        match found {
            Some(i) => {
                proof {
                    lemma_map_of_entries_index(self.entries_view(), i as int);
                    crate::value::lemma_view_fields(self.entries@);
                }
                Some(self.entries[i].1.clone())
            },
            None => None,
        }
    }

    /// Deletes the entry for `key` if present; removing an absent key is a
    /// silent no-op that leaves every entry unchanged.
    pub fn remove(&mut self, key: &String)
        requires
            old(self).wf(),
        ensures
            final(self).wf(),
            final(self)@ == old(self)@.remove(key@),
            final(self).entries_view() == if has_key(old(self).entries_view(), key@) {
                old(self).entries_view().remove(key_index(old(self).entries_view(), key@))
            } else {
                old(self).entries_view()
            },
    {
        proof {
            lemma_map_of_entries_domain(self.entries_view());
        }
        let ghost s0 = self.entries_view();
        let ghost e0 = self.entries@;
        let found = self.find_index(key);
        if let Some(i) = found {
            proof {
                crate::value::lemma_view_fields(self.entries@);
            }
            self.entries.remove(i);
            proof {
                crate::value::lemma_view_fields_remove(e0, i as int);
                assert(self.entries_view() =~= s0.remove(i as int));
                assert forall|p: int, q: int|
                    0 <= p < q < s0.remove(i as int).len() implies (#[trigger] s0.remove(
                    i as int,
                )[p]).0 != (#[trigger] s0.remove(i as int)[q]).0 by {}
                lemma_map_of_entries_remove(s0, i as int);
            }
        } else {
            proof {
                assert(self@ =~= old(self)@.remove(key@));
            }
        }
    }

    /// Serializes the whole mapping to the chosen format's snapshot text.
    /// A JSON snapshot is the store as one JSON object and requires every
    /// number's decimal text to be well formed, else the encode error is
    /// surfaced; a CSV snapshot always succeeds and renders every value as
    /// text.
    #[verifier::loop_isolation(false)]
    pub fn save_to_string(&self, format: &FileFormat) -> (r: Result<String, StoreError>)
        ensures
            *format == FileFormat::JSON && wf_fields(self.entries_view()) ==> r is Ok && (
            r->Ok_0)@ == json_of(SpecValue::Object(self.entries_view())),
            *format == FileFormat::JSON && !wf_fields(self.entries_view()) ==> r is Err
                && r->Err_0 == StoreError::EncodeError,
            *format == FileFormat::CSV ==> r is Ok && (r->Ok_0)@ == csv_text(
                self.entries_view(),
            ),
    {
        match format {
            FileFormat::JSON => {
                let ghost fields = self.entries_view();
                proof {
                    crate::value::lemma_view_fields(self.entries@);
                    crate::value::lemma_wf_fields(fields);
                }
                let n = self.entries.len();
                let mut i: usize = 0;
                while i < n
                    invariant
                        i <= n,
                        n == self.entries@.len(),
                        fields == self.entries_view(),
                        forall|j: int| 0 <= j < i ==> wf_value((#[trigger] fields[j]).1),
                    decreases n - i,
                {
                    if !self.entries[i].1.check_wf() {
                        proof {
                            assert(!wf_value(fields[i as int].1));
                        }
                        return Err(StoreError::EncodeError);
                    }
                    i += 1;
                }
                let mut out: Vec<char> = Vec::new();
                crate::json::encode_object(&self.entries, &mut out);
                proof {
                    assert(out@ =~= json_of(SpecValue::Object(fields)));
                }
                Ok(crate::value::chars_to_string(&out))
            },
            FileFormat::CSV => {
                let out = crate::csv::csv_snapshot_chars(&self.entries);
                Ok(crate::value::chars_to_string(&out))
            },
        }
    }

    /// Builds a fresh store holding the given fields, inserted first to
    /// last, so that a later field for a key overrides an earlier one.
    #[verifier::loop_isolation(false)]
    fn from_fields(flds: Vec<(String, Value)>) -> (r: KeyValueStore)
        ensures
            r.wf(),
            r@ == map_of_entries(crate::value::view_fields(flds@)),
            distinct_keys(crate::value::view_fields(flds@)) ==> r.entries_view()
                == crate::value::view_fields(flds@),
    {
        let ghost fields = crate::value::view_fields(flds@);
        proof {
            crate::value::lemma_view_fields(flds@);
        }
        let mut st = KeyValueStore::new();
        let n = flds.len();
        let mut i: usize = 0;
        while i < n
            invariant
                i <= n,
                st.wf(),
                st@ == map_of_entries(fields.take(i as int)),
                distinct_keys(fields) ==> st.entries_view() == fields.take(i as int),
            decreases n - i,
        {
            let key = flds[i].0.clone();
            let val = flds[i].1.clone();
            let ghost pre_ents = st.entries_view();
            proof {
                assert(key@ == fields[i as int].0);
                assert(val@ == fields[i as int].1);
                if distinct_keys(fields) {
                    assert(!has_key(pre_ents, key@)) by {
                        if has_key(pre_ents, key@) {
                            let j = choose|j: int|
                                0 <= j < pre_ents.len() && (#[trigger] pre_ents[j]).0 == key@;
                            assert(fields.take(i as int)[j] == fields[j]);
                            assert(fields[j].0 == fields[i as int].0);
                        }
                    }
                }
            }
            st.set(key, val);
            proof {
                assert(fields.take(i + 1).drop_last() =~= fields.take(i as int));
                assert(fields.take(i + 1).last() == fields[i as int]);
                assert(st@ == map_of_entries(fields.take(i + 1)));
                if distinct_keys(fields) {
                    assert(st.entries_view() =~= fields.take(i + 1));
                }
            }
            i += 1;
        }
        proof {
            assert(fields.take(n as int) =~= fields);
        }
        st
    }

    /// Parses a snapshot text in the chosen format and returns a freshly
    /// constructed store holding exactly the parsed entries; malformed
    /// content is rejected with a parse error. Loading never merges into
    /// an existing store.
    pub fn load_from_string(content: &str, format: &FileFormat) -> (r: Result<
        KeyValueStore,
        StoreError,
    >)
        ensures
            *format == FileFormat::JSON ==> match json_snapshot_entries(content@) {
                Some(fields) => r is Ok && (r->Ok_0).wf() && (r->Ok_0)@ == map_of_entries(
                    fields,
                ) && (distinct_keys(fields) ==> (r->Ok_0).entries_view() == fields),
                None => r is Err && r->Err_0 == StoreError::ParseError,
            },
            *format == FileFormat::CSV ==> match csv_snapshot_entries(content@) {
                Some(ents) => r is Ok && (r->Ok_0).wf() && (r->Ok_0)@ == map_of_entries(ents),
                None => r is Err && r->Err_0 == StoreError::ParseError,
            },
    {
        let chars = crate::value::str_to_chars(content);
        match format {
            FileFormat::JSON => {
                proof {
                    assert(chars@.skip(0) =~= content@);
                }
                match crate::json::parse_value_at(&chars, 0) {
                    Err(_) => Err(StoreError::ParseError),
                    Ok((v, p)) => {
                        let ghost sv = v@;
                        let pend = crate::json::skip_ws_at(&chars, p);
                        if pend < chars.len() {
                            proof {
                                assert(crate::json::drop_ws(chars@.skip(p as int)).len() > 0);
                            }
                            Err(StoreError::ParseError)
                        } else {
                            match v {
                                Value::Object(flds) => {
                                    proof {
                                        assert(sv == SpecValue::Object(
                                            crate::value::view_fields(flds@),
                                        ));
                                    }
                                    Ok(Self::from_fields(flds))
                                },
                                _ => {
                                    proof {
                                        assert(!(sv is Object));
                                    }
                                    Err(StoreError::ParseError)
                                },
                            }
                        }
                    },
                }
            },
            FileFormat::CSV => Self::load_from_csv_chars(chars),
        }
    }

    /// Reads a CSV snapshot: skips the header row, takes one entry per
    /// data row with at least two fields (the second field becoming a
    /// string value), and skips shorter rows.
    #[verifier::loop_isolation(false)]
    fn load_from_csv_chars(chars: Vec<char>) -> (r: Result<KeyValueStore, StoreError>)
        ensures
            match csv_snapshot_entries(chars@) {
                Some(ents) => r is Ok && (r->Ok_0).wf() && (r->Ok_0)@ == map_of_entries(ents),
                None => r is Err && r->Err_0 == StoreError::ParseError,
            },
    {
        let mut st = KeyValueStore::new();
        let mut pos: usize = 0;
        let mut seen_header = false;
        let ghost mut rows_done: Seq<Seq<Seq<char>>> = Seq::empty();
        proof {
            assert(chars@.skip(0) =~= chars@);
            match spec_parse_rows(chars@) {
                Some(rs) => {
                    assert(rows_done + rs =~= rs);
                },
                None => {},
            }
        }
        loop
            invariant
                pos <= chars@.len(),
                seen_header <==> rows_done.len() > 0,
                st.wf(),
                rows_done.len() == 0 ==> st@ == Map::<Seq<char>, SpecValue>::empty(),
                rows_done.len() > 0 ==> st@ == map_of_entries(
                    csv_data_entries(rows_done.drop_first()),
                ),
                match spec_parse_rows(chars@.skip(pos as int)) {
                    Some(rs) => spec_parse_rows(chars@) == Some(rows_done + rs),
                    None => spec_parse_rows(chars@) is None,
                },
            decreases chars@.len() - pos,
        {
            if pos >= chars.len() {
                proof {
                    assert(chars@.skip(pos as int).len() == 0);
                    assert(rows_done + Seq::<Seq<Seq<char>>>::empty() =~= rows_done);
                    assert(spec_parse_rows(chars@) == Some(rows_done));
                }
                return Ok(st);
            }
            match crate::csv::parse_record_at(&chars, pos) {
                Err(_) => {
                    return Err(StoreError::ParseError);
                },
                Ok((cells, p)) => {
                    let ghost row = crate::csv::cells_view(cells@);
                    let ghost rows_done0 = rows_done;
                    proof {
                        assert(pos < p);
                    }
                    if !seen_header {
                        seen_header = true;
                        proof {
                            rows_done = rows_done.push(row);
                            assert(rows_done.drop_first() =~= Seq::<Seq<Seq<char>>>::empty());
                        }
                    } else {
                        let ghost ents0 = csv_data_entries(rows_done.drop_first());
                        if cells.len() >= 2 {
                            let key = crate::value::chars_to_string(&cells[0]);
                            let val = Value::String(crate::value::chars_to_string(&cells[1]));
                            st.set(key, val);
                            proof {
                                rows_done = rows_done.push(row);
                                assert(rows_done.drop_first() =~= rows_done0.drop_first().push(
                                    row,
                                ));
                                crate::csv::lemma_csv_data_entries_push(
                                    rows_done0.drop_first(),
                                    row,
                                );
                                assert(row.len() >= 2);
                                assert(row[0] == cells@[0]@);
                                assert(row[1] == cells@[1]@);
                                let e = (row[0], SpecValue::String(row[1]));
                                assert(csv_data_entries(rows_done.drop_first()) =~= ents0.push(
                                    e,
                                ));
                                assert(ents0.push(e).drop_last() =~= ents0);
                                assert(st@ == map_of_entries(
                                    csv_data_entries(rows_done.drop_first()),
                                ));
                            }
                        } else {
                            proof {
                                rows_done = rows_done.push(row);
                                assert(rows_done.drop_first() =~= rows_done0.drop_first().push(
                                    row,
                                ));
                                crate::csv::lemma_csv_data_entries_push(
                                    rows_done0.drop_first(),
                                    row,
                                );
                                assert(row.len() < 2);
                                assert(csv_data_entries(rows_done.drop_first())
                                    =~= csv_data_entries(rows_done0.drop_first()));
                            }
                        }
                    }
                    proof {
                        let s_old = chars@.skip(pos as int);
                        assert(spec_parse_record(s_old) == Some((row, chars@.skip(p as int))));
                        match spec_parse_rows(chars@.skip(p as int)) {
                            Some(rs2) => {
                                assert(spec_parse_rows(s_old) == Some(seq![row] + rs2));
                                assert(rows_done0 + (seq![row] + rs2) =~= rows_done0.push(row)
                                    + rs2);
                            },
                            None => {
                                assert(spec_parse_rows(s_old) is None);
                            },
                        }
                    }
                    pos = p;
                },
            }
        }
    }

    /// The number of entries currently stored; in a well-formed store
    /// that is also the number of keys the mapping holds.
    pub fn len(&self) -> (r: usize)
        ensures
            r == self.entries_view().len(),
            self.wf() ==> self@.dom().finite() && r == self@.dom().len(),
    {
        proof {
            crate::value::lemma_view_fields(self.entries@);
            if self.wf() {
                lemma_map_of_entries_len(self.entries_view());
            }
        }
        self.entries.len()
    }

    /// Creates an empty store.
    fn new() -> (r: Self)
        ensures
            r.wf(),
            r@ =~= Map::<Seq<char>, SpecValue>::empty(),
            r.entries_view() =~= Seq::<(Seq<char>, SpecValue)>::empty(),
    {
        let v: Vec<(String, Value)> = Vec::new();
        proof {
            crate::value::lemma_view_fields(v@);
        }
        let r = KeyValueStore { entries: v };
        r
    }
}

impl View for KeyValueStore {
    type V = Map<Seq<char>, SpecValue>;

    open spec fn view(&self) -> Map<Seq<char>, SpecValue> {
        map_of_entries(self.entries_view())
    }
}

} // verus!
