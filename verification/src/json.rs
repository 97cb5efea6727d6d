//! JSON documents: the library's own value type, its Markdown rendering,
//! and the parse through `serde_json`.

use vstd::prelude::*;
use crate::text::{chars_of, concat_all, push_range, push_str, repeat};

verus! {

/// A JSON value as the renderer sees it. Numbers keep the text that
/// `serde_json` prints for them, arrays and objects their compact JSON
/// text too (a table cell holding one shows that text).
pub enum JsonSpec {
    Null,
    Bool(bool),
    Number(Seq<char>),
    Str(Seq<char>),
    Array(Seq<JsonSpec>, Seq<char>),
    Object(Seq<(Seq<char>, JsonSpec)>, Seq<char>),
}

/// A parsed JSON value. An object keeps its entries in `serde_json`'s
/// iteration order; a number, array or object keeps its JSON text.
#[derive(Debug)]
pub enum JsonValue {
    Null,
    Bool(bool),
    /// The number and its JSON text.
    Number(String),
    Str(String),
    /// The items and the array's compact JSON text.
    Array(Vec<JsonValue>, String),
    /// The entries and the object's compact JSON text.
    Object(Vec<(String, JsonValue)>, String),
}

/// The value `v` stands for.
pub open spec fn json_of(v: JsonValue) -> JsonSpec
    decreases v,
{
    match v {
        JsonValue::Null => JsonSpec::Null,
        JsonValue::Bool(b) => JsonSpec::Bool(b),
        JsonValue::Number(t) => JsonSpec::Number(t@),
        JsonValue::Str(s) => JsonSpec::Str(s@),
        JsonValue::Array(items, t) => JsonSpec::Array(
            Seq::new(
                items.len() as nat,
                |i: int|
                    if 0 <= i < items.len() {
                        json_of(items@[i])
                    } else {
                        JsonSpec::Null
                    },
            ),
            t@,
        ),
        JsonValue::Object(entries, t) => JsonSpec::Object(
            Seq::new(
                entries.len() as nat,
                |i: int|
                    if 0 <= i < entries.len() {
                        (entries@[i].0@, json_of(entries@[i].1))
                    } else {
                        (seq![], JsonSpec::Null)
                    },
            ),
            t@,
        ),
    }
}

/// The indentation of nesting depth `d`: two spaces per level.
pub open spec fn pad(d: nat) -> Seq<char> {
    repeat("  "@, d)
}

/// Whether `v` is an array or an object.
pub open spec fn is_container(v: JsonSpec) -> bool {
    v is Array || v is Object
}

/// The text of a value in a line or a table cell: a string as it is, null as
/// nothing, a boolean as `true`/`false`, anything else as its JSON text.
pub open spec fn scalar_text(v: JsonSpec) -> Seq<char> {
    match v {
        JsonSpec::Null => seq![],
        JsonSpec::Bool(b) => if b {
            "true"@
        } else {
            "false"@
        },
        JsonSpec::Number(t) => t,
        JsonSpec::Str(s) => s,
        JsonSpec::Array(_, t) => t,
        JsonSpec::Object(_, t) => t,
    }
}

/// The value of the first entry named `k`, if any.
pub open spec fn lookup(entries: Seq<(Seq<char>, JsonSpec)>, k: Seq<char>) -> Option<JsonSpec>
    decreases entries.len(),
{
    if entries.len() == 0 {
        None
    } else if entries[0].0 == k {
        Some(entries[0].1)
    } else {
        lookup(entries.drop_first(), k)
    }
}

/// The keys of the entries, in order.
pub open spec fn keys(entries: Seq<(Seq<char>, JsonSpec)>) -> Seq<Seq<char>> {
    entries.map_values(|e: (Seq<char>, JsonSpec)| e.0)
}

/// The table cells of the object row `row` under the columns `cols`: the
/// text of each column's value, empty where the row has none.
pub open spec fn row_cells(row: JsonSpec, cols: Seq<Seq<char>>) -> Seq<Seq<char>> {
    cols.map_values(
        |c: Seq<char>|
            match row {
                JsonSpec::Object(es, _) => match lookup(es, c) {
                    Some(x) => scalar_text(x),
                    None => seq![],
                },
                _ => seq![],
            },
    )
}

/// Whether every item is an object.
pub open spec fn all_objects(items: Seq<JsonSpec>) -> bool {
    forall|i: int| 0 <= i < items.len() ==> (#[trigger] items[i]) is Object
}

/// The Markdown table of a non-empty array of objects: the columns are the
/// keys of the first object.
pub open spec fn object_table(items: Seq<JsonSpec>) -> Seq<char> {
    let cols = match items[0] {
        JsonSpec::Object(es, _) => keys(es),
        _ => seq![],
    };
    crate::converters::header_text(cols) + concat_all(
        items.map_values(|row: JsonSpec| crate::converters::row_text(row_cells(row, cols))),
    )
}

/// The lines of an object's entries at depth `d`: a container value under
/// its `**key**` item, any other value after it.
pub open spec fn object_pieces(es: Seq<(Seq<char>, JsonSpec)>, d: nat) -> Seq<Seq<char>>
    decreases es,
{
    Seq::new(
        es.len(),
        |i: int|
            if 0 <= i < es.len() {
                if is_container(es[i].1) {
                    pad(d) + "- **"@ + es[i].0 + "**\n"@ + render(es[i].1, d + 1)
                } else {
                    pad(d) + "- **"@ + es[i].0 + "**: "@ + scalar_text(es[i].1) + "\n"@
                }
            } else {
                seq![]
            },
    )
}

/// The lines of an array's items at depth `d`: a container under a bare
/// `-` item, any other value after `- `.
pub open spec fn array_pieces(xs: Seq<JsonSpec>, d: nat) -> Seq<Seq<char>>
    decreases xs,
{
    Seq::new(
        xs.len(),
        |i: int|
            if 0 <= i < xs.len() {
                if is_container(xs[i]) {
                    pad(d) + "-\n"@ + render(xs[i], d + 1)
                } else {
                    pad(d) + "- "@ + scalar_text(xs[i]) + "\n"@
                }
            } else {
                seq![]
            },
    )
}

/// The Markdown of `v` at nesting depth `d`: an object as a list of
/// `**key**` items, an array of objects as a table, another array as a list,
/// and a scalar as a line.
pub open spec fn render(v: JsonSpec, d: nat) -> Seq<char>
    decreases v,
{
    match v {
        JsonSpec::Object(es, _) => concat_all(object_pieces(es, d)),
        JsonSpec::Array(items, _) => if items.len() > 0 && all_objects(items) {
            object_table(items)
        } else {
            concat_all(array_pieces(items, d))
        },
        _ => pad(d) + scalar_text(v) + "\n"@,
    }
}

} // verus!

verus! {

/// `serde_json::Value`, as an opaque type.
#[verifier::external_type_specification]
#[verifier::external_body]
pub struct ExSerdeJsonValue(serde_json::Value);

/// A name for what `serde_json::from_str::<serde_json::Value>` gives for
/// `text`: the value, or the message of its error.
pub uninterp spec fn json_parse(text: Seq<char>) -> Result<JsonSpec, Seq<char>>;

/// A name for the value that a `serde_json::Value` holds, with the JSON
/// text of its numbers, arrays and objects and its objects' entries in
/// iteration order.
pub uninterp spec fn json_tree(v: serde_json::Value) -> JsonSpec;

/// Which variant a JSON value is.
#[derive(PartialEq, Eq, Structural, Clone, Copy, Debug)]
pub enum JsonKind {
    Null,
    Bool,
    Number,
    Str,
    Array,
    Object,
}

/// The items of an array (empty for anything else).
pub open spec fn items_of(j: JsonSpec) -> Seq<JsonSpec> {
    match j {
        JsonSpec::Array(items, _) => items,
        _ => seq![],
    }
}

/// The entries of an object (empty for anything else).
pub open spec fn entries_of(j: JsonSpec) -> Seq<(Seq<char>, JsonSpec)> {
    match j {
        JsonSpec::Object(es, _) => es,
        _ => seq![],
    }
}

/// The variant of `j`.
pub open spec fn kind_of(j: JsonSpec) -> JsonKind {
    match j {
        JsonSpec::Null => JsonKind::Null,
        JsonSpec::Bool(_) => JsonKind::Bool,
        JsonSpec::Number(_) => JsonKind::Number,
        JsonSpec::Str(_) => JsonKind::Str,
        JsonSpec::Array(_, _) => JsonKind::Array,
        JsonSpec::Object(_, _) => JsonKind::Object,
    }
}

/// Parses `text` with `serde_json::from_str` into a `serde_json::Value`;
/// the outcome is `json_parse(text)`, an error as its message.
#[verifier::external_body]
fn parse_value(text: &str) -> (r: Result<serde_json::Value, String>)
    ensures
        match r {
            Ok(v) => json_parse(text@) == Ok::<JsonSpec, Seq<char>>(json_tree(v)),
            Err(e) => json_parse(text@) == Err::<JsonSpec, Seq<char>>(e@),
        },
{
    serde_json::from_str::<serde_json::Value>(text).map_err(|e| e.to_string())
}

/// The variant of a `serde_json::Value` (a match on its variants).
#[verifier::external_body]
fn value_kind(v: &serde_json::Value) -> (k: JsonKind)
    ensures
        k == kind_of(json_tree(*v)),
{
    match v {
        serde_json::Value::Null => JsonKind::Null,
        serde_json::Value::Bool(_) => JsonKind::Bool,
        serde_json::Value::Number(_) => JsonKind::Number,
        serde_json::Value::String(_) => JsonKind::Str,
        serde_json::Value::Array(_) => JsonKind::Array,
        serde_json::Value::Object(_) => JsonKind::Object,
    }
}

/// The boolean of a `Value::Bool` (`serde_json::Value::as_bool`).
#[verifier::external_body]
fn value_bool(v: &serde_json::Value) -> (b: bool)
    requires
        json_tree(*v) is Bool,
    ensures
        json_tree(*v) == JsonSpec::Bool(b),
{
    v.as_bool().unwrap()
}

/// The string of a `Value::String` (`serde_json::Value::as_str`).
#[verifier::external_body]
fn value_str(v: &serde_json::Value) -> (s: String)
    requires
        json_tree(*v) is Str,
    ensures
        json_tree(*v) == JsonSpec::Str(s@),
{
    v.as_str().unwrap().to_string()
}

/// The JSON text of a number, array or object (`Display` of
/// `serde_json::Value`, as `to_string` gives it).
#[verifier::external_body]
fn value_text(v: &serde_json::Value) -> (t: String)
    ensures
        json_tree(*v) matches JsonSpec::Number(x) ==> x == t@,
        json_tree(*v) matches JsonSpec::Array(_, x) ==> x == t@,
        json_tree(*v) matches JsonSpec::Object(_, x) ==> x == t@,
{
    v.to_string()
}

/// The number of items of a `Value::Array` (`as_array`, then `len`).
#[verifier::external_body]
fn value_array_len(v: &serde_json::Value) -> (n: usize)
    requires
        json_tree(*v) is Array,
    ensures
        n == items_of(json_tree(*v)).len(),
{
    v.as_array().unwrap().len()
}

/// Item `i` of a `Value::Array` (`as_array`, then indexing).
#[verifier::external_body]
fn value_array_item(v: &serde_json::Value, i: usize) -> (x: &serde_json::Value)
    requires
        json_tree(*v) is Array,
        i < items_of(json_tree(*v)).len(),
    ensures
        json_tree(*x) == items_of(json_tree(*v))[i as int],
{
    &v.as_array().unwrap()[i]
}

/// The number of entries of a `Value::Object` (`as_object`, then `len`).
#[verifier::external_body]
fn value_object_len(v: &serde_json::Value) -> (n: usize)
    requires
        json_tree(*v) is Object,
    ensures
        n == entries_of(json_tree(*v)).len(),
{
    v.as_object().unwrap().len()
}

/// Entry `i`, in iteration order, of a `Value::Object` (`as_object`, then
/// `iter().nth(i)`), its key copied.
#[verifier::external_body]
fn value_object_entry(v: &serde_json::Value, i: usize) -> (r: (String, &serde_json::Value))
    requires
        json_tree(*v) is Object,
        i < entries_of(json_tree(*v)).len(),
    ensures
        entries_of(json_tree(*v))[i as int] == (r.0@, json_tree(*r.1)),
{
    let (k, x) = v.as_object().unwrap().iter().nth(i).unwrap();
    (k.clone(), x)
}

} // verus!

verus! {

/// Converts a `serde_json::Value` into the library's `JsonValue`.
pub(crate) fn to_json_value(v: &serde_json::Value) -> (r: JsonValue)
    ensures
        json_of(r) == json_tree(*v),
    decreases json_tree(*v),
{
    let ghost tree = json_tree(*v);
    match value_kind(v) {
        JsonKind::Null => JsonValue::Null,
        JsonKind::Bool => JsonValue::Bool(value_bool(v)),
        JsonKind::Number => JsonValue::Number(value_text(v)),
        JsonKind::Str => JsonValue::Str(value_str(v)),
        JsonKind::Array => {
            let n = value_array_len(v);
            let mut items: Vec<JsonValue> = Vec::new();
            let mut i: usize = 0;
            while i < n
                invariant
                    tree == json_tree(*v),
                    tree is Array,
                    n == items_of(tree).len(),
                    i <= n,
                    items.len() == i,
                    forall|j: int| 0 <= j < i ==> json_of(#[trigger] items@[j]) == items_of(tree)[j],
                decreases n - i,
            {
                let x = value_array_item(v, i);
                proof {
                    assert(decreases_to!(tree => items_of(tree)[i as int]));
                }
                let item = to_json_value(x);
                items.push(item);
                i = i + 1;
            }
            let t = value_text(v);
            let r = JsonValue::Array(items, t);
            assert(json_of(r) =~= tree) by {
                if let JsonSpec::Array(xs, _) = json_of(r) {
                    assert(xs =~= items_of(tree));
                }
            }
            r
        },
        JsonKind::Object => {
            let n = value_object_len(v);
            let mut entries: Vec<(String, JsonValue)> = Vec::new();
            let mut i: usize = 0;
            while i < n
                invariant
                    tree == json_tree(*v),
                    tree is Object,
                    n == entries_of(tree).len(),
                    i <= n,
                    entries.len() == i,
                    forall|j: int|
                        0 <= j < i ==> (#[trigger] entries@[j]).0@ == entries_of(tree)[j].0 && json_of(
                            entries@[j].1,
                        ) == entries_of(tree)[j].1,
                decreases n - i,
            {
                let (k, x) = value_object_entry(v, i);
                proof {
                    assert(decreases_to!(tree => entries_of(tree)[i as int].1));
                }
                let val = to_json_value(x);
                entries.push((k, val));
                i = i + 1;
            }
            let t = value_text(v);
            let r = JsonValue::Object(entries, t);
            assert(json_of(r) =~= tree) by {
                if let JsonSpec::Object(es, _) = json_of(r) {
                    assert(es =~= entries_of(tree));
                }
            }
            r
        },
    }
}

} // verus!

verus! {

/// The text of a value in a line or a table cell.
fn fmt_scalar(v: &JsonValue) -> (s: Vec<char>)
    ensures
        s@ == scalar_text(json_of(*v)),
{
    match v {
        JsonValue::Null => Vec::new(),
        JsonValue::Bool(b) => if *b {
            chars_of("true")
        } else {
            chars_of("false")
        },
        JsonValue::Number(t) => chars_of(t.as_str()),
        JsonValue::Str(t) => chars_of(t.as_str()),
        JsonValue::Array(_, t) => chars_of(t.as_str()),
        JsonValue::Object(_, t) => chars_of(t.as_str()),
    }
}

/// Whether `v` is an array or an object.
fn container(v: &JsonValue) -> (b: bool)
    ensures
        b == is_container(json_of(*v)),
{
    match v {
        JsonValue::Array(_, _) => true,
        JsonValue::Object(_, _) => true,
        _ => false,
    }
}

/// The value of the first entry named `k`.
fn lookup_entry<'a>(entries: &'a Vec<(String, JsonValue)>, k: &String) -> (r: Option<&'a JsonValue>)
    ensures
        match lookup(entries_view(entries@), k@) {
            Some(x) => r is Some && json_of(*r->0) == x,
            None => r is None,
        },
{
    let ghost es = entries_view(entries@);
    let mut i: usize = 0;
    assert(es.skip(0) =~= es);
    while i < entries.len()
        invariant
            i <= entries.len(),
            es == entries_view(entries@),
            lookup(es.skip(i as int), k@) == lookup(es, k@),
        decreases entries.len() - i,
    {
        assert(es.skip(i as int).drop_first() =~= es.skip(i + 1));
        if entries[i].0 == *k {
            return Some(&entries[i].1);
        }
        i = i + 1;
    }
    None
}

/// The entries as the value stands for them.
pub open spec fn entries_view(entries: Seq<(String, JsonValue)>) -> Seq<(Seq<char>, JsonSpec)> {
    Seq::new(entries.len(), |i: int| (entries[i].0@, json_of(entries[i].1)))
}

/// The items as the value stands for them.
pub open spec fn items_view(items: Seq<JsonValue>) -> Seq<JsonSpec> {
    Seq::new(items.len(), |i: int| json_of(items[i]))
}

/// Appends the Markdown of `v` at the depth `d` whose indentation is `indent`.
fn render_json(v: &JsonValue, indent: &Vec<char>, Ghost(d): Ghost<nat>, out: &mut Vec<char>)
    requires
        indent@ == pad(d),
    ensures
        final(out)@ == old(out)@ + render(json_of(*v), d),
    decreases json_of(*v),
{
    let ghost j = json_of(*v);
    let ghost start = out@;
    match v {
        JsonValue::Object(entries, _) => {
            let ghost es = entries_view(entries@);
            assert(j == JsonSpec::Object(es, j->Object_1)) by {
                assert(es =~= entries_of(j));
            }
            let ghost pieces = object_pieces(es, d);
            let mut inner = indent.clone();
            push_str(&mut inner, "  ");
            assert(inner@ == pad(d + 1));
            let mut i: usize = 0;
            assert(pieces.take(0) =~= Seq::<Seq<char>>::empty());
            while i < entries.len()
                invariant
                    i <= entries.len(),
                    es == entries_view(entries@),
                    j == json_of(*v),
                    j == JsonSpec::Object(es, j->Object_1),
                    indent@ == pad(d),
                    inner@ == pad(d + 1),
                    pieces == object_pieces(es, d),
                    pieces.len() == es.len(),
                    forall|k: int| 0 <= k < es.len() ==> #[trigger] pieces[k] == (if is_container(es[k].1) {
                            pad(d) + "- **"@ + es[k].0 + "**\n"@ + render(es[k].1, d + 1)
                        } else {
                            pad(d) + "- **"@ + es[k].0 + "**: "@ + scalar_text(es[k].1) + "\n"@
                        }),
                    out@ == start + concat_all(pieces.take(i as int)),
                decreases entries.len() - i,
            {
                let ghost before = out@;
                let key = &entries[i].0;
                let val = &entries[i].1;
                push_range(out, indent, 0, indent.len());
                push_str(out, "- **");
                push_str(out, key.as_str());
                if container(val) {
                    push_str(out, "**\n");
                    proof {
                        assert(entries_of(j) == es);
                        assert(decreases_to!(j => entries_of(j)[i as int].1));
                    }
                    render_json(val, &inner, Ghost(d + 1), out);
                } else {
                    push_str(out, "**: ");
                    let t = fmt_scalar(val);
                    push_range(out, &t, 0, t.len());
                    push_str(out, "\n");
                    assert(t@.subrange(0, t.len() as int) =~= t@);
                }
                assert(indent@.subrange(0, indent.len() as int) =~= indent@);
                assert(pieces.take(i + 1).drop_last() =~= pieces.take(i as int));
                assert(out@ =~= start + concat_all(pieces.take(i + 1)));
                i = i + 1;
            }
            assert(pieces.take(i as int) =~= pieces);
            assert(render(j, d) == concat_all(pieces));
        },
        JsonValue::Array(items, _) => {
            let ghost xs = items_view(items@);
            assert(j == JsonSpec::Array(xs, j->Array_1)) by {
                assert(xs =~= items_of(j));
            }
            let mut all = true;
            let mut k: usize = 0;
            while k < items.len()
                invariant
                    k <= items.len(),
                    xs == items_view(items@),
                    all == (forall|m: int| 0 <= m < k ==> (#[trigger] xs[m]) is Object),
                decreases items.len() - k,
            {
                assert(xs[k as int] == json_of(items@[k as int]));
                if !(match &items[k] {
                    JsonValue::Object(_, _) => true,
                    _ => false,
                }) {
                    all = false;
                }
                k = k + 1;
            }
            if items.len() > 0 && all {
                push_object_table(items, out);
            } else {
                let ghost pieces = array_pieces(xs, d);
                let mut inner = indent.clone();
                push_str(&mut inner, "  ");
                assert(inner@ == pad(d + 1));
                let mut i: usize = 0;
                assert(pieces.take(0) =~= Seq::<Seq<char>>::empty());
                while i < items.len()
                    invariant
                        i <= items.len(),
                        xs == items_view(items@),
                        j == json_of(*v),
                        j == JsonSpec::Array(xs, j->Array_1),
                        indent@ == pad(d),
                        inner@ == pad(d + 1),
                        pieces == array_pieces(xs, d),
                        pieces.len() == xs.len(),
                        forall|m: int| 0 <= m < xs.len() ==> #[trigger] pieces[m] == (if is_container(xs[m]) {
                                pad(d) + "-\n"@ + render(xs[m], d + 1)
                            } else {
                                pad(d) + "- "@ + scalar_text(xs[m]) + "\n"@
                            }),
                        out@ == start + concat_all(pieces.take(i as int)),
                    decreases items.len() - i,
                {
                    let item = &items[i];
                    push_range(out, indent, 0, indent.len());
                    if container(item) {
                        push_str(out, "-\n");
                        proof {
                            assert(items_of(j) == xs);
                            assert(decreases_to!(j => items_of(j)[i as int]));
                        }
                        render_json(item, &inner, Ghost(d + 1), out);
                    } else {
                        push_str(out, "- ");
                        let t = fmt_scalar(item);
                        push_range(out, &t, 0, t.len());
                        push_str(out, "\n");
                        assert(t@.subrange(0, t.len() as int) =~= t@);
                    }
                    assert(indent@.subrange(0, indent.len() as int) =~= indent@);
                    assert(pieces.take(i + 1).drop_last() =~= pieces.take(i as int));
                    assert(out@ =~= start + concat_all(pieces.take(i + 1)));
                    i = i + 1;
                }
                assert(pieces.take(i as int) =~= pieces);
            }
        },
        _ => {
            push_range(out, indent, 0, indent.len());
            let t = fmt_scalar(v);
            push_range(out, &t, 0, t.len());
            push_str(out, "\n");
            assert(indent@.subrange(0, indent.len() as int) =~= indent@);
            assert(t@.subrange(0, t.len() as int) =~= t@);
            assert(out@ =~= start + render(j, d));
        },
    }
}

} // verus!

verus! {

/// Appends the Markdown table of a non-empty array of objects.
fn push_object_table(items: &Vec<JsonValue>, out: &mut Vec<char>)
    requires
        items.len() > 0,
        all_objects(items_view(items@)),
    ensures
        final(out)@ == old(out)@ + object_table(items_view(items@)),
{
    let ghost xs = items_view(items@);
    let ghost start = out@;
    assert(xs[0] is Object);
    let mut cols: Vec<String> = Vec::new();
    match &items[0] {
        JsonValue::Object(es, _) => {
            let mut k: usize = 0;
            while k < es.len()
                invariant
                    k <= es.len(),
                    cols.len() == k,
                    forall|m: int| 0 <= m < k ==> (#[trigger] cols@[m])@ == es@[m].0@,
                decreases es.len() - k,
            {
                cols.push(es[k].0.clone());
                k = k + 1;
            }
            assert(cols.deep_view() =~= keys(entries_of(xs[0])));
        },
        _ => {
            assert(false);
        },
    }
    let ghost cv = cols.deep_view();
    assert(cv == keys(entries_of(xs[0])));
    let h = crate::converters::header_to_md(&cols);
    push_str(out, h.as_str());
    let ghost head = out@;
    let ghost rows = xs.map_values(
        |row: JsonSpec| crate::converters::row_text(row_cells(row, cv)),
    );
    let mut i: usize = 0;
    assert(rows.take(0) =~= Seq::<Seq<char>>::empty());
    while i < items.len()
        invariant
            i <= items.len(),
            xs == items_view(items@),
            cv == cols.deep_view(),
            rows == xs.map_values(|row: JsonSpec| crate::converters::row_text(row_cells(row, cv))),
            out@ == head + concat_all(rows.take(i as int)),
        decreases items.len() - i,
    {
        let mut cells: Vec<String> = Vec::new();
        let mut k: usize = 0;
        let ghost want = row_cells(xs[i as int], cv);
        while k < cols.len()
            invariant
                k <= cols.len(),
                i < items.len(),
                xs == items_view(items@),
                cv == cols.deep_view(),
                want == row_cells(xs[i as int], cv),
                cells.len() == k,
                forall|m: int| 0 <= m < k ==> (#[trigger] cells@[m])@ == want[m],
            decreases cols.len() - k,
        {
            let cell = match &items[i] {
                JsonValue::Object(es, _) => match lookup_entry(es, &cols[k]) {
                    Some(x) => crate::text::string_of(&fmt_scalar(x)),
                    None => String::new(),
                },
                _ => String::new(),
            };
            proof {
                match items@[i as int] {
                    JsonValue::Object(es, _) => {
                        assert(entries_view(es@) =~= entries_of(xs[i as int]));
                    },
                    _ => {},
                }
            }
            cells.push(cell);
            k = k + 1;
        }
        assert(cells.deep_view() =~= want);
        let r = crate::converters::row_to_md(&cells);
        let ghost before = out@;
        push_str(out, r.as_str());
        assert(rows.take(i + 1).drop_last() =~= rows.take(i as int));
        assert(out@ =~= head + concat_all(rows.take(i + 1)));
        i = i + 1;
    }
    assert(rows.take(i as int) =~= rows);
    assert(out@ =~= start + object_table(xs));
}

/// The Markdown of a JSON value: objects as lists of `**key**` items,
/// arrays of objects as tables, other arrays as lists, scalars as lines.
pub fn json_value_to_md(v: &JsonValue) -> (md: String)
    ensures
        md@ == render(json_of(*v), 0),
{
    let indent: Vec<char> = Vec::new();
    let mut out: Vec<char> = Vec::new();
    assert(indent@ =~= pad(0));
    render_json(v, &indent, Ghost(0), &mut out);
    assert(out@ =~= render(json_of(*v), 0));
    crate::text::string_of(&out)
}

/// What converting the JSON text `text` gives: the parse error's message,
/// or the Markdown of the value.
pub open spec fn json_result(text: Seq<char>) -> Result<Seq<char>, Seq<char>> {
    match json_parse(crate::text::trim(text)) {
        Ok(j) => Ok(render(j, 0)),
        Err(e) => Err(e),
    }
}

/// JSON to Markdown: an array of objects becomes a table, anything else an
/// indented list. The text is trimmed before parsing.
pub fn json_to_md(text: &str) -> (r: Result<String, String>)
    ensures
        crate::converters::text_result(r) == json_result(text@),
{
    let v = chars_of(text);
    let a = crate::text::trim_start_at(&v, 0, v.len());
    let b = crate::text::trim_end_at(&v, a, v.len());
    assert(v@.subrange(0, v.len() as int) =~= v@);
    let mut t: Vec<char> = Vec::new();
    push_range(&mut t, &v, a, b);
    let ts = crate::text::string_of(&t);
    match parse_value(ts.as_str()) {
        Ok(value) => {
            let jv = to_json_value(&value);
            Ok(json_value_to_md(&jv))
        },
        Err(e) => Err(e),
    }
}

} // verus!
