//! JSON values and the `--fields` filter over them.
//!
//! The library's own JSON type: what the filter reads of a JSON document,
//! with numbers kept as their text.

use vstd::prelude::*;
use crate::text::{index_of, split_char, split_on_char, str_eq, trim, trim_str};

verus! {

/// A JSON value.  Objects list their entries in insertion order, each key
/// once.
#[derive(Debug, PartialEq)]
pub enum JsonValue {
    Null,
    Bool(bool),
    /// A number, as written.
    Number(String),
    Str(String),
    Array(Vec<JsonValue>),
    Object(Vec<(String, JsonValue)>),
}

/// The mathematical value of a [`JsonValue`].
pub enum JsonView {
    Null,
    Bool(bool),
    Number(Seq<char>),
    Str(Seq<char>),
    Array(Seq<JsonView>),
    Object(Seq<(Seq<char>, JsonView)>),
}

/// The view of a JSON value.
pub open spec fn jv(v: JsonValue) -> JsonView
    decreases v, 0nat,
{
    match v {
        JsonValue::Null => JsonView::Null,
        JsonValue::Bool(b) => JsonView::Bool(b),
        JsonValue::Number(n) => JsonView::Number(n@),
        JsonValue::Str(s) => JsonView::Str(s@),
        JsonValue::Array(items) => JsonView::Array(items_view(items@, items@.len())),
        JsonValue::Object(es) => JsonView::Object(entries_view(es@, es@.len())),
    }
}

/// The views of the first `n` items.
pub open spec fn items_view(items: Seq<JsonValue>, n: nat) -> Seq<JsonView>
    decreases items, n,
{
    if n == 0 || n > items.len() {
        Seq::empty()
    } else {
        items_view(items, (n - 1) as nat).push(jv(items[n - 1]))
    }
}

/// The views of the first `n` entries.
pub open spec fn entries_view(es: Seq<(String, JsonValue)>, n: nat) -> Seq<(Seq<char>, JsonView)>
    decreases es, n,
{
    if n == 0 || n > es.len() {
        Seq::empty()
    } else {
        entries_view(es, (n - 1) as nat).push((es[n - 1].0@, jv(es[n - 1].1)))
    }
}

proof fn lemma_items_view(items: Seq<JsonValue>, n: nat)
    requires
        n <= items.len(),
    ensures
        items_view(items, n).len() == n,
        forall|i: int| 0 <= i < n ==> #[trigger] items_view(items, n)[i] == jv(items[i]),
    decreases n,
{
    if n > 0 {
        lemma_items_view(items, (n - 1) as nat);
    }
}

proof fn lemma_entries_view(es: Seq<(String, JsonValue)>, n: nat)
    requires
        n <= es.len(),
    ensures
        entries_view(es, n).len() == n,
        forall|i: int|
            0 <= i < n ==> #[trigger] entries_view(es, n)[i] == (es[i].0@, jv(es[i].1)),
    decreases n,
{
    if n > 0 {
        lemma_entries_view(es, (n - 1) as nat);
    }
}

impl JsonValue {
    /// A copy of this value.
    pub fn duplicate(&self) -> (r: JsonValue)
        ensures
            jv(r) == jv(*self),
        decreases self,
    {
        match self {
            JsonValue::Null => JsonValue::Null,
            JsonValue::Bool(b) => JsonValue::Bool(*b),
            JsonValue::Number(n) => JsonValue::Number(n.clone()),
            JsonValue::Str(s) => JsonValue::Str(s.clone()),
            JsonValue::Array(items) => {
                let mut out: Vec<JsonValue> = Vec::new();
                let mut i: usize = 0;
                while i < items.len()
                    invariant
                        *self == JsonValue::Array(*items),
                        i <= items@.len(),
                        out@.len() == i,
                        forall|j: int| 0 <= j < i ==> jv(#[trigger] out@[j]) == jv(items@[j]),
                    decreases items@.len() - i,
                {
                    proof {
                        assert(decreases_to!(*self => (*self)->Array_0));
                        assert(decreases_to!(*items => items@));
                        assert(decreases_to!(items@ => items@[i as int]));
                    }
                    let c = items[i].duplicate();
                    out.push(c);
                    i = i + 1;
                }
                proof {
                    lemma_items_view(out@, out@.len());
                    lemma_items_view(items@, items@.len());
                    assert(items_view(out@, out@.len()) =~= items_view(items@, items@.len()));
                }
                JsonValue::Array(out)
            },
            JsonValue::Object(es) => {
                let mut out: Vec<(String, JsonValue)> = Vec::new();
                let mut i: usize = 0;
                while i < es.len()
                    invariant
                        *self == JsonValue::Object(*es),
                        i <= es@.len(),
                        out@.len() == i,
                        forall|j: int|
                            0 <= j < i ==> (#[trigger] out@[j]).0@ == es@[j].0@ && jv(out@[j].1)
                                == jv(es@[j].1),
                    decreases es@.len() - i,
                {
                    proof {
                        assert(decreases_to!(*self => (*self)->Object_0));
                        assert(decreases_to!(*es => es@));
                        assert(decreases_to!(es@ => es@[i as int]));
                        assert(decreases_to!(es@[i as int] => es@[i as int].1));
                    }
                    let c = es[i].1.duplicate();
                    out.push((es[i].0.clone(), c));
                    i = i + 1;
                }
                proof {
                    lemma_entries_view(out@, out@.len());
                    lemma_entries_view(es@, es@.len());
                    assert(entries_view(out@, out@.len()) =~= entries_view(es@, es@.len()));
                }
                JsonValue::Object(out)
            },
        }
    }
}


/// Index of the first entry with key `k`.
pub open spec fn entry_index(es: Seq<(Seq<char>, JsonView)>, k: Seq<char>) -> Option<int>
    decreases es.len(),
{
    if es.len() == 0 {
        None
    } else if es[0].0 == k {
        Some(0)
    } else {
        match entry_index(es.drop_first(), k) {
            Some(i) => Some(i + 1),
            None => None,
        }
    }
}

proof fn lemma_entry_index_is(es: Seq<(Seq<char>, JsonView)>, k: Seq<char>, p: int)
    requires
        0 <= p <= es.len(),
        forall|j: int| 0 <= j < p ==> (#[trigger] es[j]).0 != k,
    ensures
        p < es.len() && es[p].0 == k ==> entry_index(es, k) == Some(p),
        p == es.len() ==> entry_index(es, k) is None,
    decreases p,
{
    if p > 0 {
        assert forall|j: int| 0 <= j < p - 1 implies (#[trigger] es.drop_first()[j]).0 != k by {
            assert(es.drop_first()[j] == es[j + 1]);
        }
        lemma_entry_index_is(es.drop_first(), k, p - 1);
    }
}

proof fn lemma_entry_index_bound(es: Seq<(Seq<char>, JsonView)>, k: Seq<char>)
    ensures
        entry_index(es, k) matches Some(i) ==> 0 <= i < es.len() && es[i].0 == k,
    decreases es.len(),
{
    if es.len() > 0 && es[0].0 != k {
        lemma_entry_index_bound(es.drop_first(), k);
    }
}

/// `Value::get` with a key: the value of the entry with that key of an
/// object; nothing for any other kind of value.
pub open spec fn json_get(v: JsonView, k: Seq<char>) -> Option<JsonView> {
    match v {
        JsonView::Object(es) => match entry_index(es, k) {
            Some(i) => if 0 <= i < es.len() {
                Some(es[i].1)
            } else {
                None
            },
            None => None,
        },
        _ => None,
    }
}

/// Object insertion: replaces the value of an existing key in place, else
/// adds the entry at the end.
pub open spec fn obj_insert(es: Seq<(Seq<char>, JsonView)>, k: Seq<char>, v: JsonView) -> Seq<
    (Seq<char>, JsonView),
> {
    match entry_index(es, k) {
        Some(i) => es.update(i, (k, v)),
        None => es.push((k, v)),
    }
}

/// `str::splitn(2, c)`: the text before the first `c` and the rest.
pub open spec fn split_once(s: Seq<char>, c: char) -> Seq<Seq<char>> {
    match index_of(s, c) {
        Some(i) => seq![s.take(i), s.skip(i + 1)],
        None => seq![s],
    }
}

/// The entries that picking the first `n` dot-paths of `fields` from `v`
/// yields: for each path whose first key `v` has, that key with its whole
/// value, or with the rest of the path picked from it (from each item when
/// the value is an array).
pub open spec fn pick_entries(v: JsonView, fields: Seq<Seq<char>>, n: nat) -> Seq<
    (Seq<char>, JsonView),
>
    decreases v, n,
{
    if n == 0 || n > fields.len() {
        Seq::empty()
    } else {
        let acc = pick_entries(v, fields, (n - 1) as nat);
        let parts = split_once(fields[n - 1], '.');
        let key = parts[0];
        match v {
            JsonView::Object(es) => match entry_index(es, key) {
                Some(i) => if 0 <= i < es.len() {
                    let val = es[i].1;
                    if parts.len() == 2 {
                        match val {
                            JsonView::Array(items) => obj_insert(
                                acc,
                                key,
                                JsonView::Array(pick_each(items, seq![parts[1]], items.len())),
                            ),
                            _ => obj_insert(
                                acc,
                                key,
                                JsonView::Object(pick_entries(val, seq![parts[1]], 1)),
                            ),
                        }
                    } else {
                        obj_insert(acc, key, val)
                    }
                } else {
                    acc
                },
                None => acc,
            },
            _ => acc,
        }
    }
}

/// `fields` picked from each of the first `m` items.
pub open spec fn pick_each(items: Seq<JsonView>, fields: Seq<Seq<char>>, m: nat) -> Seq<JsonView>
    decreases items, m,
{
    if m == 0 || m > items.len() {
        Seq::empty()
    } else {
        pick_each(items, fields, (m - 1) as nat).push(
            JsonView::Object(pick_entries(items[m - 1], fields, fields.len())),
        )
    }
}

/// What picking dot-paths from a value yields: always an object.
pub open spec fn pick_spec(v: JsonView, fields: Seq<Seq<char>>) -> JsonView {
    JsonView::Object(pick_entries(v, fields, fields.len()))
}

proof fn lemma_entries_push(es: Seq<(String, JsonValue)>, e: (String, JsonValue))
    ensures
        entries_view(es.push(e), es.len() + 1) == entries_view(es, es.len()).push(
            (e.0@, jv(e.1)),
        ),
{
    lemma_entries_view(es, es.len());
    lemma_entries_view(es.push(e), es.len() + 1);
    assert(entries_view(es.push(e), es.len() + 1) =~= entries_view(es, es.len()).push(
        (e.0@, jv(e.1)),
    ));
}

/// The position of the entry with key `k`.
fn entry_position(es: &Vec<(String, JsonValue)>, k: &str) -> (r: Option<usize>)
    ensures
        r matches Some(i) ==> i < es@.len() && entry_index(entries_view(es@, es@.len()), k@)
            == Some(i as int),
        r is None ==> entry_index(entries_view(es@, es@.len()), k@) is None,
{
    let ghost ev = entries_view(es@, es@.len());
    proof {
        lemma_entries_view(es@, es@.len());
    }
    let mut j: usize = 0;
    while j < es.len()
        invariant
            ev == entries_view(es@, es@.len()),
            ev.len() == es@.len(),
            forall|i: int| 0 <= i < es@.len() ==> #[trigger] ev[i] == (es@[i].0@, jv(es@[i].1)),
            j <= es@.len(),
            forall|i: int| 0 <= i < j ==> (#[trigger] ev[i]).0 != k@,
        decreases es@.len() - j,
    {
        if str_eq(es[j].0.as_str(), k) {
            proof {
                lemma_entry_index_is(ev, k@, j as int);
            }
            return Some(j);
        }
        j = j + 1;
    }
    proof {
        lemma_entry_index_is(ev, k@, j as int);
    }
    None
}

/// Inserts an entry into an object's entries.
fn insert_entry(es: &mut Vec<(String, JsonValue)>, k: String, v: JsonValue)
    ensures
        entries_view(final(es)@, final(es)@.len()) == obj_insert(
            entries_view(old(es)@, old(es)@.len()),
            k@,
            jv(v),
        ),
{
    let ghost ev = entries_view(es@, es@.len());
    proof {
        lemma_entries_view(es@, es@.len());
    }
    match entry_position(es, k.as_str()) {
        Some(i) => {
            let ghost kv = k@;
            let ghost vv = jv(v);
            es.set(i, (k, v));
            proof {
                lemma_entries_view(es@, es@.len());
                assert(entries_view(es@, es@.len()) =~= ev.update(i as int, (kv, vv)));
                assert(entry_index(ev, kv) == Some(i as int));
            }
        },
        None => {
            let ghost old_es = es@;
            es.push((k, v));
            proof {
                lemma_entries_push(old_es, (k, v));
                assert(entry_index(ev, k@) is None);
                assert(entries_view(es@, es@.len()) == ev.push((k@, jv(v))));
            }
        },
    }
}

/// Splits a dot-path at its first `.`.
fn split_once_dot(f: &str) -> (parts: Vec<&str>)
    ensures
        parts.deep_view() == split_once(f@, '.'),
{
    let n = f.unicode_len();
    let mut i: usize = 0;
    while i < n && f.get_char(i) != '.'
        invariant
            n == f@.len(),
            i <= n,
            forall|j: int| 0 <= j < i ==> f@[j] != '.',
        decreases n - i,
    {
        i = i + 1;
    }
    proof {
        crate::text::lemma_index_of_is(f@, '.', i as int);
    }
    let mut parts: Vec<&str> = Vec::new();
    if i == n {
        parts.push(f);
        assert(parts.deep_view() =~= seq![f@]);
    } else {
        let a = f.substring_char(0, i);
        let b = f.substring_char(i + 1, n);
        parts.push(a);
        parts.push(b);
        assert(parts.deep_view() =~= seq![f@.take(i as int), f@.skip(i + 1)]);
    }
    parts
}

/// Picks the given dot-paths from a JSON value into a new object.
pub fn pick(value: &JsonValue, fields: &[&str]) -> (r: JsonValue)
    ensures
        jv(r) == pick_spec(jv(*value), fields.deep_view()),
    decreases *value, 1nat,
{
    let ghost fv = fields.deep_view();
    let ghost vv = jv(*value);
    let mut res: Vec<(String, JsonValue)> = Vec::new();
    let mut k: usize = 0;
    assert(entries_view(res@, 0) =~= pick_entries(vv, fv, 0));
    while k < fields.len()
        invariant
            fv == fields.deep_view(),
            fv.len() == fields@.len(),
            vv == jv(*value),
            k <= fields@.len(),
            entries_view(res@, res@.len()) == pick_entries(vv, fv, k as nat),
        decreases fields@.len() - k,
    {
        let parts = split_once_dot(fields[k]);
        let ghost pv = parts.deep_view();
        let ghost acc = pick_entries(vv, fv, k as nat);
        assert(pv.len() == parts@.len());
        assert(fv[k as int] == fields@[k as int]@);
        assert(pv == split_once(fv[k as int], '.'));
        let key = parts[0];
        match value {
            JsonValue::Object(es) => {
                let ghost ev = entries_view(es@, es@.len());
                proof {
                    lemma_entries_view(es@, es@.len());
                    lemma_entry_index_bound(ev, key@);
                    assert(vv == JsonView::Object(ev));
                }
                match entry_position(es, key) {
                    Some(i) => {
                        let val = &es[i].1;
                        proof {
                            assert(decreases_to!(*value => (*value)->Object_0));
                            assert(decreases_to!((*value)->Object_0 => (*value)->Object_0@));
                            assert(decreases_to!((*value)->Object_0@ => (*value)->Object_0@[i as int]));
                            assert(decreases_to!((*value)->Object_0@[i as int] => (*value)->Object_0@[i as int].1));
                            assert(ev[i as int].1 == jv(*val));
                        }
                        if parts.len() == 2 {
                            let rest = parts[1];
                            match val {
                                JsonValue::Array(items) => {
                                    proof {
                                        lemma_items_view(items@, items@.len());
                                    }
                                    let nested = pick_items(items, rest);
                                    let ghost nv = jv(JsonValue::Array(nested));
                                    insert_entry(&mut res, String::from_str(key), JsonValue::Array(nested));
                                    assert(pick_entries(vv, fv, (k + 1) as nat) == obj_insert(acc, key@, nv));
                                },
                                _ => {
                                    let inner = pick_one(val, rest);
                                    let ghost nv = jv(inner);
                                    insert_entry(&mut res, String::from_str(key), inner);
                                    assert(pick_entries(vv, fv, (k + 1) as nat) == obj_insert(acc, key@, nv));
                                },
                            }
                        } else {
                            let d = val.duplicate();
                            let ghost nv = jv(d);
                            insert_entry(&mut res, String::from_str(key), d);
                            assert(pick_entries(vv, fv, (k + 1) as nat) == obj_insert(acc, key@, nv));
                        }
                    },
                    None => {
                        assert(pick_entries(vv, fv, (k + 1) as nat) == acc);
                    },
                }
            },
            _ => {
                assert(pick_entries(vv, fv, (k + 1) as nat) == acc);
            },
        }
        k = k + 1;
    }
    JsonValue::Object(res)
}

/// Picks one dot-path from a value.
fn pick_one(val: &JsonValue, rest: &str) -> (r: JsonValue)
    ensures
        jv(r) == JsonView::Object(pick_entries(jv(*val), seq![rest@], 1)),
    decreases *val, 2nat,
{
    let one = [rest];
    let sl: &[&str] = &one;
    let r = pick(val, sl);
    assert(sl.deep_view() =~= seq![rest@]) by {
        assert(sl@.len() == 1);
        assert(sl@[0] == rest);
    }
    r
}

/// Picks one dot-path from each item of an array.
fn pick_items(items: &Vec<JsonValue>, rest: &str) -> (r: Vec<JsonValue>)
    ensures
        items_view(r@, r@.len()) == pick_each(
            items_view(items@, items@.len()),
            seq![rest@],
            items@.len(),
        ),
    decreases *items, 0nat,
{
    let ghost iv = items_view(items@, items@.len());
    proof {
        lemma_items_view(items@, items@.len());
    }
    let mut out: Vec<JsonValue> = Vec::new();
    let mut j: usize = 0;
    while j < items.len()
        invariant
            iv == items_view(items@, items@.len()),
            iv.len() == items@.len(),
            forall|i: int| 0 <= i < items@.len() ==> #[trigger] iv[i] == jv(items@[i]),
            j <= items@.len(),
            out@.len() == j,
            items_view(out@, j as nat) == pick_each(iv, seq![rest@], j as nat),
        decreases items@.len() - j,
    {
        proof {
            assert(decreases_to!(*items => items@));
            assert(decreases_to!(items@ => items@[j as int]));
        }
        let p = pick_one(&items[j], rest);
        let ghost old_out = out@;
        out.push(p);
        proof {
            lemma_items_view(old_out, j as nat);
            lemma_items_view(out@, (j + 1) as nat);
            assert(items_view(out@, (j + 1) as nat) =~= items_view(old_out, j as nat).push(jv(p)));
            assert(pick_entries(iv[j as int], seq![rest@], 1) == pick_entries(
                iv[j as int],
                seq![rest@],
                seq![rest@].len(),
            ));
        }
        j = j + 1;
    }
    out
}

/// Trims each comma-separated piece of a `--fields` argument.
fn field_list(fields_str: &str) -> (fs: Vec<&str>)
    ensures
        fs.deep_view() == split_char(fields_str@, ',').map_values(|p: Seq<char>| trim(p)),
{
    let parts = split_on_char(fields_str, ',');
    let ghost pv = parts.deep_view();
    let mut fs: Vec<&str> = Vec::new();
    let mut i: usize = 0;
    while i < parts.len()
        invariant
            pv == parts.deep_view(),
            pv == split_char(fields_str@, ','),
            i <= parts@.len(),
            fs.deep_view() =~= pv.take(i as int).map_values(|p: Seq<char>| trim(p)),
        decreases parts@.len() - i,
    {
        let ghost old_fs = fs.deep_view();
        let t = trim_str(parts[i]);
        fs.push(t);
        assert(fs.deep_view() =~= old_fs.push(trim(pv[i as int])));
        assert(pv.take(i + 1).map_values(|p: Seq<char>| trim(p)) =~= pv.take(i as int).map_values(
            |p: Seq<char>| trim(p),
        ).push(trim(pv[i as int])));
        i = i + 1;
    }
    assert(pv.take(i as int) =~= pv);
    fs
}

/// The reply envelope: `{"ok": ok, "data": data}`.
pub open spec fn envelope_spec(ok: bool, data: JsonView) -> JsonView {
    JsonView::Object(seq![("ok"@, JsonView::Bool(ok)), ("data"@, data)])
}

/// What `--fields` keeps of a reply: the paths picked from each item of
/// an array, from an object, and a value of any other kind whole; wrapped
/// in the envelope.
pub open spec fn filter_spec(v: JsonView, fields_str: Seq<char>, ok: bool) -> JsonView {
    let fields = split_char(fields_str, ',').map_values(|p: Seq<char>| trim(p));
    let data = match v {
        JsonView::Array(items) => JsonView::Array(pick_each(items, fields, items.len())),
        JsonView::Object(_) => pick_spec(v, fields),
        _ => v,
    };
    envelope_spec(ok, data)
}

fn envelope(ok: bool, data: JsonValue) -> (r: JsonValue)
    ensures
        jv(r) == envelope_spec(ok, jv(data)),
{
    let mut es: Vec<(String, JsonValue)> = Vec::new();
    let ghost e0 = es@;
    es.push((String::from_str("ok"), JsonValue::Bool(ok)));
    let ghost e1 = es@;
    let ghost dv = jv(data);
    es.push((String::from_str("data"), data));
    proof {
        lemma_entries_view(es@, 2);
        assert(entries_view(es@, 2) =~= seq![("ok"@, JsonView::Bool(ok)), ("data"@, dv)]);
    }
    JsonValue::Object(es)
}

/// Filters a reply to the comma-separated dot-paths of `fields_str` and
/// wraps it with the given `ok` status.
pub fn filter_fields_with_status(value: &JsonValue, fields_str: &str, ok: bool) -> (r: JsonValue)
    ensures
        jv(r) == filter_spec(jv(*value), fields_str@, ok),
{
    let fs = field_list(fields_str);
    let ghost fv = fs.deep_view();
    let data = match value {
        JsonValue::Array(items) => {
            let ghost iv = items_view(items@, items@.len());
            proof {
                lemma_items_view(items@, items@.len());
            }
            let mut out: Vec<JsonValue> = Vec::new();
            let mut j: usize = 0;
            while j < items.len()
                invariant
                    iv == items_view(items@, items@.len()),
                    iv.len() == items@.len(),
                    forall|i: int| 0 <= i < items@.len() ==> #[trigger] iv[i] == jv(items@[i]),
                    fv == fs.deep_view(),
                    j <= items@.len(),
                    out@.len() == j,
                    items_view(out@, j as nat) == pick_each(iv, fv, j as nat),
                decreases items@.len() - j,
            {
                let p = pick(&items[j], fs.as_slice());
                let ghost old_out = out@;
                out.push(p);
                proof {
                    lemma_items_view(old_out, j as nat);
                    lemma_items_view(out@, (j + 1) as nat);
                    assert(items_view(out@, (j + 1) as nat) =~= items_view(old_out, j as nat).push(
                        jv(p),
                    ));
                }
                j = j + 1;
            }
            JsonValue::Array(out)
        },
        JsonValue::Object(_) => pick(value, fs.as_slice()),
        _ => value.duplicate(),
    };
    envelope(ok, data)
}

/// The reply for `data`: the `--fields` filter when one is given, else the
/// whole of `data`, wrapped with the `ok` status.
pub open spec fn reply_spec(data: JsonView, fields: Option<Seq<char>>, ok: bool) -> JsonView {
    match fields {
        Some(f) => filter_spec(data, f, ok),
        None => envelope_spec(ok, data),
    }
}

/// Builds the JSON reply for `data`, filtered by `--fields` when given.
pub fn json_reply(data: JsonValue, fields: Option<&str>, ok: bool) -> (r: JsonValue)
    ensures
        jv(r) == reply_spec(jv(data), fields.deep_view(), ok),
{
    match fields {
        Some(f) => filter_fields_with_status(&data, f, ok),
        None => envelope(ok, data),
    }
}


/// No key occurs twice.
pub open spec fn keys_unique(es: Seq<(Seq<char>, JsonView)>) -> bool {
    forall|i: int, j: int| 0 <= i < j < es.len() ==> #[trigger] es[i].0 != #[trigger] es[j].0
}

/// Every key is the first segment of one of the first `n` dot-paths, and a
/// key that `v` has.
pub open spec fn keys_from_fields(
    es: Seq<(Seq<char>, JsonView)>,
    v: JsonView,
    fields: Seq<Seq<char>>,
    n: int,
) -> bool {
    forall|i: int|
        0 <= i < es.len() ==> exists|f: int|
            0 <= f < n && #[trigger] es[i].0 == split_once(fields[f], '.')[0] && json_get(
                v,
                es[i].0,
            ) is Some
}

proof fn lemma_obj_insert(es: Seq<(Seq<char>, JsonView)>, k: Seq<char>, x: JsonView)
    requires
        keys_unique(es),
    ensures
        keys_unique(obj_insert(es, k, x)),
        forall|i: int|
            0 <= i < obj_insert(es, k, x).len() ==> (#[trigger] obj_insert(es, k, x)[i].0 == k
                || exists|j: int| 0 <= j < es.len() && es[j].0 == obj_insert(es, k, x)[i].0),
{
    lemma_entry_index_bound(es, k);
    let r = obj_insert(es, k, x);
    match entry_index(es, k) {
        Some(p) => {
            assert forall|i: int, j: int| 0 <= i < j < r.len() implies #[trigger] r[i].0
                != #[trigger] r[j].0 by {
                assert(es[i].0 != es[j].0);
            }
            assert forall|i: int| 0 <= i < r.len() implies (#[trigger] r[i].0 == k || exists|j: int|
                0 <= j < es.len() && es[j].0 == r[i].0) by {
                if i != p {
                    assert(es[i].0 == r[i].0);
                }
            }
        },
        None => {
            crate::fields::lemma_entry_index_none(es, k);
            assert forall|i: int, j: int| 0 <= i < j < r.len() implies #[trigger] r[i].0
                != #[trigger] r[j].0 by {
                if j == es.len() {
                    assert(r[i] == es[i]);
                }
            }
            assert forall|i: int| 0 <= i < r.len() implies (#[trigger] r[i].0 == k || exists|j: int|
                0 <= j < es.len() && es[j].0 == r[i].0) by {
                if i < es.len() {
                    assert(es[i].0 == r[i].0);
                }
            }
        },
    }
}

proof fn lemma_entry_index_none(es: Seq<(Seq<char>, JsonView)>, k: Seq<char>)
    requires
        entry_index(es, k) is None,
    ensures
        forall|j: int| 0 <= j < es.len() ==> (#[trigger] es[j]).0 != k,
    decreases es.len(),
{
    if es.len() > 0 {
        lemma_entry_index_none(es.drop_first(), k);
        assert forall|j: int| 0 <= j < es.len() implies (#[trigger] es[j]).0 != k by {
            if j > 0 {
                assert(es[j] == es.drop_first()[j - 1]);
            }
        }
    }
}

/// Some entry has key `k`.
pub open spec fn has_key(es: Seq<(Seq<char>, JsonView)>, k: Seq<char>) -> bool {
    exists|i: int| 0 <= i < es.len() && (#[trigger] es[i]).0 == k
}

/// The first segment of dot-path `f` of `fields`.
pub open spec fn first_key(fields: Seq<Seq<char>>, f: int) -> Seq<char> {
    split_once(fields[f], '.')[0]
}

proof fn lemma_obj_insert_has(es: Seq<(Seq<char>, JsonView)>, k: Seq<char>, x: JsonView)
    ensures
        has_key(obj_insert(es, k, x), k),
        forall|k2: Seq<char>| has_key(es, k2) ==> #[trigger] has_key(obj_insert(es, k, x), k2),
{
    lemma_entry_index_bound(es, k);
    let r = obj_insert(es, k, x);
    match entry_index(es, k) {
        Some(p) => {
            assert(r[p].0 == k);
            assert forall|k2: Seq<char>| has_key(es, k2) implies #[trigger] has_key(r, k2) by {
                let i = choose|i: int| 0 <= i < es.len() && (#[trigger] es[i]).0 == k2;
                assert(r[i].0 == k2);
            }
        },
        None => {
            assert(r[es.len() as int].0 == k);
            assert forall|k2: Seq<char>| has_key(es, k2) implies #[trigger] has_key(r, k2) by {
                let i = choose|i: int| 0 <= i < es.len() && (#[trigger] es[i]).0 == k2;
                assert(r[i] == es[i]);
            }
        },
    }
}

proof fn lemma_pick_covers(v: JsonView, fields: Seq<Seq<char>>, n: nat)
    requires
        n <= fields.len(),
    ensures
        forall|f: int|
            0 <= f < n && json_get(v, #[trigger] first_key(fields, f)) is Some ==> has_key(
                pick_entries(v, fields, n),
                first_key(fields, f),
            ),
    decreases n,
{
    if n > 0 {
        lemma_pick_covers(v, fields, (n - 1) as nat);
        let acc = pick_entries(v, fields, (n - 1) as nat);
        let parts = split_once(fields[n - 1], '.');
        let key = parts[0];
        let r = pick_entries(v, fields, n);
        match v {
            JsonView::Object(es) => {
                lemma_entry_index_bound(es, key);
                match entry_index(es, key) {
                    Some(p) => {
                        let x = if parts.len() == 2 {
                            match es[p].1 {
                                JsonView::Array(items) => JsonView::Array(
                                    pick_each(items, seq![parts[1]], items.len()),
                                ),
                                _ => JsonView::Object(pick_entries(es[p].1, seq![parts[1]], 1)),
                            }
                        } else {
                            es[p].1
                        };
                        assert(r == obj_insert(acc, key, x));
                        lemma_obj_insert_has(acc, key, x);
                        assert forall|f: int|
                            0 <= f < n && json_get(v, #[trigger] first_key(fields, f)) is Some
                                implies has_key(r, first_key(fields, f)) by {
                            if f < n - 1 {
                                assert(has_key(acc, first_key(fields, f)));
                            }
                        }
                    },
                    None => {
                        assert(r == acc);
                        assert forall|f: int|
                            0 <= f < n && json_get(v, #[trigger] first_key(fields, f)) is Some
                                implies has_key(r, first_key(fields, f)) by {
                            if f == n - 1 {
                                assert(json_get(v, key) is None);
                            }
                        }
                    },
                }
            },
            _ => {},
        }
    }
}

/// Picking dot-paths gives an object with each key once, and exactly the
/// keys of the value picked from that are the first segment of a path.
pub proof fn lemma_pick_keys(v: JsonView, fields: Seq<Seq<char>>, n: nat)
    requires
        n <= fields.len(),
    ensures
        keys_unique(pick_entries(v, fields, n)),
        keys_from_fields(pick_entries(v, fields, n), v, fields, n as int),
        forall|f: int|
            0 <= f < n && json_get(v, #[trigger] first_key(fields, f)) is Some ==> has_key(
                pick_entries(v, fields, n),
                first_key(fields, f),
            ),
    decreases n,
{
    lemma_pick_covers(v, fields, n);
    if n > 0 {
        lemma_pick_keys(v, fields, (n - 1) as nat);
        let acc = pick_entries(v, fields, (n - 1) as nat);
        let parts = split_once(fields[n - 1], '.');
        let key = parts[0];
        let r = pick_entries(v, fields, n);
        if r != acc {
            match v {
                JsonView::Object(es) => {
                    lemma_entry_index_bound(es, key);
                    let p = entry_index(es, key)->0;
                    let x = if parts.len() == 2 {
                        match es[p].1 {
                            JsonView::Array(items) => JsonView::Array(
                                pick_each(items, seq![parts[1]], items.len()),
                            ),
                            _ => JsonView::Object(pick_entries(es[p].1, seq![parts[1]], 1)),
                        }
                    } else {
                        es[p].1
                    };
                    assert(r == obj_insert(acc, key, x));
                    lemma_obj_insert(acc, key, x);
                    assert(json_get(v, key) is Some);
                    assert forall|i: int| 0 <= i < r.len() implies exists|f: int|
                        0 <= f < n && #[trigger] r[i].0 == split_once(fields[f], '.')[0] && json_get(
                            v,
                            r[i].0,
                        ) is Some by {
                        if r[i].0 == key {
                            assert(r[i].0 == split_once(fields[n - 1], '.')[0]);
                        } else {
                            let j = choose|j: int| 0 <= j < acc.len() && acc[j].0 == r[i].0;
                            let f = choose|f: int|
                                0 <= f < n - 1 && #[trigger] acc[j].0 == split_once(fields[f], '.')[0]
                                    && json_get(v, acc[j].0) is Some;
                            assert(r[i].0 == split_once(fields[f], '.')[0]);
                        }
                    }
                },
                _ => {},
            }
        } else {
            assert forall|i: int| 0 <= i < r.len() implies exists|f: int|
                0 <= f < n && #[trigger] r[i].0 == split_once(fields[f], '.')[0] && json_get(
                    v,
                    r[i].0,
                ) is Some by {
                let f = choose|f: int|
                    0 <= f < n - 1 && #[trigger] acc[i].0 == split_once(fields[f], '.')[0]
                        && json_get(v, acc[i].0) is Some;
            }
        }
    }
}

/// The dot-paths of a `--fields` list: its comma-separated pieces,
/// trimmed.
pub open spec fn field_paths(fields_str: Seq<char>) -> Seq<Seq<char>> {
    split_char(fields_str, ',').map_values(|p: Seq<char>| trim(p))
}

proof fn lemma_pick_each(items: Seq<JsonView>, fields: Seq<Seq<char>>, m: nat)
    requires
        m <= items.len(),
    ensures
        pick_each(items, fields, m).len() == m,
        forall|i: int| 0 <= i < m ==> #[trigger] pick_each(items, fields, m)[i] == pick_spec(items[i], fields),
    decreases m,
{
    if m > 0 {
        lemma_pick_each(items, fields, (m - 1) as nat);
        let a = pick_each(items, fields, (m - 1) as nat);
        assert forall|i: int| 0 <= i < m implies #[trigger] pick_each(items, fields, m)[i] == pick_spec(
            items[i],
            fields,
        ) by {
            if i < m - 1 {
                assert(pick_each(items, fields, m)[i] == a[i]);
            }
        }
    }
}

/// Filtering a reply wraps it in an envelope of two entries, `ok` with
/// the given status and `data`.  The data of an array has the array's
/// length, its item `i` being the fields picked from item `i` of the input;
/// the data of an object is the fields picked from it; any other value is
/// kept whole.  The fields are the comma-separated pieces of the list,
/// trimmed.
pub proof fn lemma_filter_shape(v: JsonView, fields_str: Seq<char>, ok: bool)
    ensures
        match filter_spec(v, fields_str, ok) {
            JsonView::Object(es) => {
                &&& es.len() == 2
                &&& es[0] == ("ok"@, JsonView::Bool(ok))
                &&& es[1].0 == "data"@
                &&& match v {
                    JsonView::Array(items) => match es[1].1 {
                        JsonView::Array(out) => {
                            &&& out.len() == items.len()
                            &&& forall|i: int|
                                0 <= i < items.len() ==> #[trigger] out[i] == pick_spec(
                                    items[i],
                                    field_paths(fields_str),
                                )
                        },
                        _ => false,
                    },
                    JsonView::Object(_) => es[1].1 == pick_spec(v, field_paths(fields_str)),
                    _ => es[1].1 == v,
                }
            },
            _ => false,
        },
{
    let fields = split_char(fields_str, ',').map_values(|p: Seq<char>| trim(p));
    assert(fields =~= field_paths(fields_str));
    match v {
        JsonView::Array(items) => {
            lemma_pick_each(items, fields, items.len());
        },
        _ => {},
    }
}

} // verus!
