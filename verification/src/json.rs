//! The JSON form of a diff: a small JSON document model, the document that
//! describes a diff, and its pretty-printed text.
use crate::diff::{owned, CellChange, ChangeView, DiffResult, DiffRow, DiffView, ModifiedRow, ModifiedView};
use crate::text::push_str;
use vstd::prelude::*;

verus! {

/// A JSON document built of strings, arrays and objects; an object keeps its
/// entries in the order they were added.
#[derive(Debug)]
pub enum JsonValue {
    Str(String),
    Arr(Vec<JsonValue>),
    Obj(Vec<(String, JsonValue)>),
}

/// A `JsonValue` over character sequences.
pub enum JsonView {
    Str(Seq<char>),
    Arr(Seq<JsonView>),
    Obj(Seq<(Seq<char>, JsonView)>),
}

impl JsonValue {
    /// The value over character sequences.
    pub open spec fn json_view(self) -> JsonView
        decreases self, 1int,
    {
        match self {
            JsonValue::Str(s) => JsonView::Str(s@),
            JsonValue::Arr(xs) => JsonView::Arr(json_views(xs@)),
            JsonValue::Obj(es) => JsonView::Obj(entry_views(es@)),
        }
    }
}

/// The views of the items of an array, in order.
pub open spec fn json_views(xs: Seq<JsonValue>) -> Seq<JsonView>
    decreases xs, 0int,
{
    if xs.len() == 0 {
        Seq::<JsonView>::empty()
    } else {
        json_views(xs.drop_last()).push(xs.last().json_view())
    }
}

/// The views of the entries of an object, in order.
pub open spec fn entry_views(es: Seq<(String, JsonValue)>) -> Seq<(Seq<char>, JsonView)>
    decreases es, 0int,
{
    if es.len() == 0 {
        Seq::<(Seq<char>, JsonView)>::empty()
    } else {
        entry_views(es.drop_last()).push((es.last().0@, es.last().1.json_view()))
    }
}

impl View for JsonValue {
    type V = JsonView;

    open spec fn view(&self) -> JsonView {
        self.json_view()
    }
}

/// An entry whose value is a string.
pub open spec fn str_entry(name: Seq<char>, value: Seq<char>) -> (Seq<char>, JsonView) {
    (name, JsonView::Str(value))
}

/// An object pairing each name with the value at its place, as far as both
/// lists go.
pub open spec fn row_json(names: Seq<Seq<char>>, values: Seq<Seq<char>>) -> JsonView {
    let n = if names.len() < values.len() {
        names.len()
    } else {
        values.len()
    };
    JsonView::Obj(Seq::new(n, |i: int| str_entry(names[i], values[i])))
}

/// One changed cell: its column, its old value and its new value.
pub open spec fn change_json(c: ChangeView) -> JsonView {
    JsonView::Obj(
        seq![
            str_entry("column"@, c.column),
            str_entry("old"@, c.old_value),
            str_entry("new"@, c.new_value),
        ],
    )
}

/// One modified row: its key, keyed by the key columns, and its changes.
pub open spec fn modified_json(key_columns: Seq<Seq<char>>, m: ModifiedView) -> JsonView {
    JsonView::Obj(
        seq![
            ("key"@, row_json(key_columns, m.key)),
            ("changes"@, JsonView::Arr(m.changes.map_values(|c: ChangeView| change_json(c)))),
        ],
    )
}

/// The rows present on one side only, each as an object keyed by header.
pub open spec fn rows_json(headers: Seq<Seq<char>>, rows: Seq<Seq<Seq<char>>>) -> JsonView {
    JsonView::Arr(rows.map_values(|r: Seq<Seq<char>>| row_json(headers, r)))
}

/// The document that describes a diff: the added rows, the removed rows and
/// the modified rows.
pub open spec fn spec_diff_json(d: DiffView) -> JsonView {
    JsonView::Obj(
        seq![
            ("added"@, rows_json(d.headers, d.added)),
            ("removed"@, rows_json(d.headers, d.removed)),
            (
                "modified"@,
                JsonView::Arr(
                    d.modified.map_values(|m: ModifiedView| modified_json(d.key_columns, m)),
                ),
            ),
        ],
    )
}

/// The entries of an object; none for any other value.
pub open spec fn entries_of(v: JsonView) -> Seq<(Seq<char>, JsonView)> {
    match v {
        JsonView::Obj(es) => es,
        _ => Seq::empty(),
    }
}

/// The items of an array; none for any other value.
pub open spec fn items_of(v: JsonView) -> Seq<JsonView> {
    match v {
        JsonView::Arr(xs) => xs,
        _ => Seq::empty(),
    }
}

/// `row` as an object: each of `names` mapped to the string at its place, as
/// far as both lists go.
pub open spec fn is_row_object(v: JsonView, names: Seq<Seq<char>>, row: Seq<Seq<char>>) -> bool {
    &&& v is Obj
    &&& entries_of(v).len() == if names.len() < row.len() {
        names.len()
    } else {
        row.len()
    }
    &&& forall|j: int|
        0 <= j < entries_of(v).len() ==> #[trigger] entries_of(v)[j] == (
            names[j],
            JsonView::Str(row[j]),
        )
}

/// The JSON document of a diff has exactly the entries `added`, `removed` and
/// `modified`, in that order, each an array with one object per row of that
/// kind, in order. An added or removed row maps each header to the value at
/// its place (as far as both go).
pub proof fn lemma_diff_json_rows(d: DiffView)
    ensures
        spec_diff_json(d) is Obj,
        entries_of(spec_diff_json(d)).len() == 3,
        entries_of(spec_diff_json(d))[0].0 == "added"@,
        entries_of(spec_diff_json(d))[1].0 == "removed"@,
        entries_of(spec_diff_json(d))[2].0 == "modified"@,
        entries_of(spec_diff_json(d))[0].1 is Arr,
        entries_of(spec_diff_json(d))[1].1 is Arr,
        entries_of(spec_diff_json(d))[2].1 is Arr,
        items_of(entries_of(spec_diff_json(d))[0].1).len() == d.added.len(),
        items_of(entries_of(spec_diff_json(d))[1].1).len() == d.removed.len(),
        items_of(entries_of(spec_diff_json(d))[2].1).len() == d.modified.len(),
        forall|i: int|
            0 <= i < d.added.len() ==> is_row_object(
                #[trigger] items_of(entries_of(spec_diff_json(d))[0].1)[i],
                d.headers,
                d.added[i],
            ),
        forall|i: int|
            0 <= i < d.removed.len() ==> is_row_object(
                #[trigger] items_of(entries_of(spec_diff_json(d))[1].1)[i],
                d.headers,
                d.removed[i],
            ),
{
}

/// Each modified row of the JSON document is an object of its `key`, which maps
/// each key column to the row's key value at its place, and its `changes`: one
/// object per recorded cell change, in order, giving the change's column, old
/// value and new value.
pub proof fn lemma_diff_json_modified(d: DiffView, i: int)
    requires
        0 <= i < d.modified.len(),
    ensures
        ({
            let row = items_of(entries_of(spec_diff_json(d))[2].1)[i];
            let m = d.modified[i];
            let cs = items_of(entries_of(row)[1].1);
            &&& row is Obj
            &&& entries_of(row).len() == 2
            &&& entries_of(row)[0].0 == "key"@
            &&& entries_of(row)[1].0 == "changes"@
            &&& is_row_object(entries_of(row)[0].1, d.key_columns, m.key)
            &&& entries_of(row)[1].1 is Arr
            &&& cs.len() == m.changes.len()
            &&& forall|j: int|
                0 <= j < cs.len() ==> #[trigger] cs[j] == JsonView::Obj(
                    seq![
                        ("column"@, JsonView::Str(m.changes[j].column)),
                        ("old"@, JsonView::Str(m.changes[j].old_value)),
                        ("new"@, JsonView::Str(m.changes[j].new_value)),
                    ],
                )
        }),
{
}

proof fn lemma_json_views_push(xs: Seq<JsonValue>, x: JsonValue)
    ensures
        json_views(xs.push(x)) == json_views(xs).push(x@),
{
    assert(xs.push(x).drop_last() =~= xs);
}

proof fn lemma_entry_views_push(es: Seq<(String, JsonValue)>, e: (String, JsonValue))
    ensures
        entry_views(es.push(e)) == entry_views(es).push((e.0@, e.1@)),
{
    assert(es.push(e).drop_last() =~= es);
}

/// An object of string entries pairing `names` with `values`.
fn row_value(names: &Vec<String>, values: &Vec<String>) -> (v: JsonValue)
    ensures
        v@ == row_json(names.deep_view(), values.deep_view()),
{
    let n: usize = if names.len() < values.len() {
        names.len()
    } else {
        values.len()
    };
    let ghost target = Seq::new(
        n as nat,
        |i: int| str_entry(names.deep_view()[i], values.deep_view()[i]),
    );
    let mut es: Vec<(String, JsonValue)> = Vec::new();
    let mut i: usize = 0;
    while i < n
        invariant
            n <= names@.len(),
            n <= values@.len(),
            i <= n,
            target.len() == n,
            target == Seq::new(
                n as nat,
                |i: int| str_entry(names.deep_view()[i], values.deep_view()[i]),
            ),
            entry_views(es@) == target.take(i as int),
        decreases n - i,
    {
        let e = (names[i].clone(), JsonValue::Str(values[i].clone()));
        proof {
            lemma_entry_views_push(es@, e);
        }
        es.push(e);
        assert(target.take(i + 1) =~= target.take(i as int).push(target[i as int]));
        i = i + 1;
    }
    assert(target.take(n as int) =~= target);
    JsonValue::Obj(es)
}

/// One changed cell as an object.
fn change_value(c: &CellChange) -> (v: JsonValue)
    ensures
        v@ == change_json(c@),
{
    let mut es: Vec<(String, JsonValue)> = Vec::new();
    let e = (owned("column"), JsonValue::Str(c.column.clone()));
    proof {
        lemma_entry_views_push(es@, e);
    }
    es.push(e);
    let e = (owned("old"), JsonValue::Str(c.old_value.clone()));
    proof {
        lemma_entry_views_push(es@, e);
    }
    es.push(e);
    let e = (owned("new"), JsonValue::Str(c.new_value.clone()));
    proof {
        lemma_entry_views_push(es@, e);
    }
    es.push(e);
    assert(entry_views(es@) =~= seq![
        str_entry("column"@, c@.column),
        str_entry("old"@, c@.old_value),
        str_entry("new"@, c@.new_value),
    ]);
    JsonValue::Obj(es)
}

/// One modified row as an object of its key and its changes.
fn modified_value(key_columns: &Vec<String>, m: &ModifiedRow) -> (v: JsonValue)
    ensures
        v@ == modified_json(key_columns.deep_view(), m@),
{
    let ghost target = m@.changes.map_values(|c: ChangeView| change_json(c));
    let mut xs: Vec<JsonValue> = Vec::new();
    let mut i: usize = 0;
    while i < m.changes.len()
        invariant
            i <= m.changes@.len(),
            target == m@.changes.map_values(|c: ChangeView| change_json(c)),
            m@.changes == m.changes@.map_values(|c: CellChange| c@),
            target.len() == m.changes@.len(),
            json_views(xs@) == target.take(i as int),
        decreases m.changes@.len() - i,
    {
        let x = change_value(&m.changes[i]);
        proof {
            lemma_json_views_push(xs@, x);
        }
        xs.push(x);
        assert(target.take(i + 1) =~= target.take(i as int).push(target[i as int]));
        i = i + 1;
    }
    assert(target.take(i as int) =~= target);
    let mut es: Vec<(String, JsonValue)> = Vec::new();
    let e = (owned("key"), row_value(key_columns, &m.key));
    proof {
        lemma_entry_views_push(es@, e);
    }
    es.push(e);
    let e = (owned("changes"), JsonValue::Arr(xs));
    proof {
        lemma_entry_views_push(es@, e);
    }
    es.push(e);
    assert(entry_views(es@) =~= seq![
        ("key"@, row_json(key_columns.deep_view(), m@.key)),
        ("changes"@, JsonView::Arr(target)),
    ]);
    JsonValue::Obj(es)
}

/// The rows of one side as an array of objects keyed by header.
fn rows_value(headers: &Vec<String>, rows: &Vec<DiffRow>) -> (v: JsonValue)
    ensures
        v@ == rows_json(headers.deep_view(), rows@.map_values(|r: DiffRow| r@)),
{
    let ghost rs = rows@.map_values(|r: DiffRow| r@);
    let ghost target = rs.map_values(|r: Seq<Seq<char>>| row_json(headers.deep_view(), r));
    let mut xs: Vec<JsonValue> = Vec::new();
    let mut i: usize = 0;
    while i < rows.len()
        invariant
            i <= rows@.len(),
            rs == rows@.map_values(|r: DiffRow| r@),
            target == rs.map_values(|r: Seq<Seq<char>>| row_json(headers.deep_view(), r)),
            target.len() == rows@.len(),
            json_views(xs@) == target.take(i as int),
        decreases rows@.len() - i,
    {
        let x = row_value(headers, &rows[i].values);
        proof {
            lemma_json_views_push(xs@, x);
        }
        xs.push(x);
        assert(target.take(i + 1) =~= target.take(i as int).push(target[i as int]));
        i = i + 1;
    }
    assert(target.take(i as int) =~= target);
    JsonValue::Arr(xs)
}

/// The document that describes a diff (see `spec_diff_json`).
pub fn diff_json(result: &DiffResult) -> (v: JsonValue)
    ensures
        v@ == spec_diff_json(result@),
{
    let added = rows_value(&result.headers, &result.added);
    let removed = rows_value(&result.headers, &result.removed);
    let ghost target = result@.modified.map_values(
        |m: ModifiedView| modified_json(result@.key_columns, m),
    );
    let mut xs: Vec<JsonValue> = Vec::new();
    let mut i: usize = 0;
    while i < result.modified.len()
        invariant
            i <= result.modified@.len(),
            target == result@.modified.map_values(
                |m: ModifiedView| modified_json(result@.key_columns, m),
            ),
            target.len() == result.modified@.len(),
            json_views(xs@) == target.take(i as int),
        decreases result.modified@.len() - i,
    {
        let x = modified_value(&result.key_columns, &result.modified[i]);
        proof {
            lemma_json_views_push(xs@, x);
        }
        xs.push(x);
        assert(target.take(i + 1) =~= target.take(i as int).push(target[i as int]));
        i = i + 1;
    }
    assert(target.take(i as int) =~= target);
    let mut es: Vec<(String, JsonValue)> = Vec::new();
    let e = (owned("added"), added);
    proof {
        lemma_entry_views_push(es@, e);
    }
    es.push(e);
    let e = (owned("removed"), removed);
    proof {
        lemma_entry_views_push(es@, e);
    }
    es.push(e);
    let e = (owned("modified"), JsonValue::Arr(xs));
    proof {
        lemma_entry_views_push(es@, e);
    }
    es.push(e);
    assert(entry_views(es@) =~= seq![
        ("added"@, rows_json(result@.headers, result@.added)),
        ("removed"@, rows_json(result@.headers, result@.removed)),
        ("modified"@, JsonView::Arr(target)),
    ]);
    JsonValue::Obj(es)
}

/// `serde_json::Value`, the document type that the pretty printer takes.
#[verifier::external_type_specification]
#[verifier::external_body]
pub struct ExSerdeValue(serde_json::Value);

/// The same document as a `serde_json::Value`: each string, array and object
/// becomes the `serde_json` value of the same kind, the object entries added
/// in order to a `serde_json::Map` (which keeps one entry per name).
#[verifier::external_body]
fn serde_value_of(v: &JsonValue) -> serde_json::Value {
    match v {
        JsonValue::Str(s) => serde_json::Value::String(s.clone()),
        JsonValue::Arr(xs) => serde_json::Value::Array(xs.iter().map(serde_value_of).collect()),
        JsonValue::Obj(es) => serde_json::Value::Object(
            es.iter().map(|(k, x)| (k.clone(), serde_value_of(x))).collect(),
        ),
    }
}

/// The pretty-printed JSON text of a document, as `serde_json` writes it
/// (two-space indentation; object entries in the order of its `Map`).
pub uninterp spec fn json_pretty_text(v: JsonView) -> Seq<char>;

/// `serde_json`'s pretty printer (`Display` of `serde_json::Value` with the
/// alternate flag, which runs the same `to_writer_pretty` serializer as
/// `serde_json::to_string_pretty`). The contract claims only that the text is
/// a function of the document, named `json_pretty_text`; what that text is
/// stays unstated here. Serializing a `Value` cannot fail: its map keys are
/// strings and the output goes to a `String`.
#[verifier::external_body]
pub(crate) fn json_pretty(v: &JsonValue) -> (s: String)
    ensures
        s@ == json_pretty_text(v@),
{
    format!("{:#}", serde_value_of(v))
}

/// Format a diff result as JSON: the document of `spec_diff_json`,
/// pretty-printed, and a newline.
pub fn format_json(result: &DiffResult) -> (s: String)
    ensures
        s@ == json_pretty_text(spec_diff_json(result@)) + "\n"@,
{
    let v = diff_json(result);
    let mut s = json_pretty(&v);
    push_str(&mut s, "\n");
    s
}

} // verus!
