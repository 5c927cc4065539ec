//! The value tree produced by the parser, its mathematical model, and the two
//! text renderings of a value.
use vstd::prelude::*;
use crate::json_parser::grammar::{false_text, null_text, true_text};
use crate::json_parser::grammar::has_key;
use crate::text::{append_int, int_text, push_char};

verus! {

/// A number: a 128-bit signed integer, or a decimal literal with a point.
///
/// A literal with a point is kept as the text that was read, so that no
/// precision is lost; it is always a well-formed floating-point literal
/// (see [`crate::json_parser::grammar::is_float_text`]).
#[derive(Debug, PartialEq)]
pub enum JsonNum {
    Int(i128),
    Float(String),
}

/// A parsed value.
///
/// An object is a list of (key, value) entries with distinct keys, in the
/// order in which the keys first appeared.
#[derive(Debug, PartialEq)]
pub enum JsonValue {
    Null,
    Bool(bool),
    Num(JsonNum),
    String(String),
    Array(Vec<JsonValue>),
    Obj(Vec<(String, JsonValue)>),
}

/// The mathematical model of a [`JsonValue`].
pub enum Json {
    Null,
    Bool(bool),
    Int(int),
    Float(Seq<char>),
    Str(Seq<char>),
    Array(Seq<Json>),
    Object(Seq<(Seq<char>, Json)>),
}

/// The model of a value.
pub open spec fn json_view(v: JsonValue) -> Json
    decreases v,
{
    match v {
        JsonValue::Null => Json::Null,
        JsonValue::Bool(b) => Json::Bool(b),
        JsonValue::Num(JsonNum::Int(i)) => Json::Int(i as int),
        JsonValue::Num(JsonNum::Float(t)) => Json::Float(t@),
        JsonValue::String(t) => Json::Str(t@),
        JsonValue::Array(items) => Json::Array(items_view(items@)),
        JsonValue::Obj(entries) => Json::Object(entries_view(entries@)),
    }
}

/// The models of a sequence of values.
pub open spec fn items_view(s: Seq<JsonValue>) -> Seq<Json>
    decreases s,
{
    if s.len() == 0 {
        Seq::empty()
    } else {
        items_view(s.drop_last()).push(json_view(s.last()))
    }
}

/// The models of a sequence of object entries.
pub open spec fn entries_view(s: Seq<(String, JsonValue)>) -> Seq<(Seq<char>, Json)>
    decreases s,
{
    if s.len() == 0 {
        Seq::empty()
    } else {
        entries_view(s.drop_last()).push((s.last().0@, json_view(s.last().1)))
    }
}

pub proof fn lemma_items_view(s: Seq<JsonValue>)
    ensures
        items_view(s).len() == s.len(),
        forall|i: int| 0 <= i < s.len() ==> #[trigger] items_view(s)[i] == json_view(s[i]),
    decreases s.len(),
{
    if s.len() > 0 {
        lemma_items_view(s.drop_last());
    }
}

pub proof fn lemma_items_view_push(s: Seq<JsonValue>, x: JsonValue)
    ensures
        items_view(s.push(x)) == items_view(s).push(json_view(x)),
{
    assert(s.push(x).drop_last() =~= s);
}

pub proof fn lemma_entries_view(s: Seq<(String, JsonValue)>)
    ensures
        entries_view(s).len() == s.len(),
        forall|i: int|
            0 <= i < s.len() ==> #[trigger] entries_view(s)[i] == (s[i].0@, json_view(s[i].1)),
    decreases s.len(),
{
    if s.len() > 0 {
        lemma_entries_view(s.drop_last());
    }
}

pub proof fn lemma_entries_view_push(s: Seq<(String, JsonValue)>, x: (String, JsonValue))
    ensures
        entries_view(s.push(x)) == entries_view(s).push((x.0@, json_view(x.1))),
{
    assert(s.push(x).drop_last() =~= s);
}

pub proof fn lemma_entries_view_update(s: Seq<(String, JsonValue)>, i: int, x: (String, JsonValue))
    requires
        0 <= i < s.len(),
    ensures
        entries_view(s.update(i, x)) == entries_view(s).update(i, (x.0@, json_view(x.1))),
{
    let t = s.update(i, x);
    lemma_entries_view(s);
    lemma_entries_view(t);
    assert(entries_view(t) =~= entries_view(s).update(i, (x.0@, json_view(x.1))));
}

impl View for JsonValue {
    type V = Json;

    open spec fn view(&self) -> Json {
        json_view(*self)
    }
}

/// `t` between double quotes, as it is; nothing is escaped.
pub open spec fn quoted(t: Seq<char>) -> Seq<char> {
    seq!['"'] + t + seq!['"']
}

/// The compact text of a value, with `w` in every gap between the tokens of
/// an array or an object (after an opening bracket, around each comma and
/// colon, and before a closing bracket). With `w` empty this is the compact
/// text of [`JsonValue::encode`].
pub open spec fn spaced_text(v: Json, w: Seq<char>) -> Seq<char>
    decreases v,
{
    match v {
        Json::Null => null_text(),
        Json::Bool(b) => if b {
            true_text()
        } else {
            false_text()
        },
        Json::Int(i) => int_text(i),
        Json::Float(t) => t,
        Json::Str(t) => quoted(t),
        Json::Array(items) => if items.len() == 0 {
            seq!['['] + w + seq![']']
        } else {
            seq!['['] + w + spaced_items(items, w) + w + seq![']']
        },
        Json::Object(entries) => if entries.len() == 0 {
            seq!['{'] + w + seq!['}']
        } else {
            seq!['{'] + w + spaced_entries(entries, w) + w + seq!['}']
        },
    }
}

/// The texts of `items` separated by commas, with `w` around each comma.
pub open spec fn spaced_items(items: Seq<Json>, w: Seq<char>) -> Seq<char>
    decreases items,
{
    if items.len() == 0 {
        Seq::empty()
    } else if items.len() == 1 {
        spaced_text(items[0], w)
    } else {
        spaced_items(items.drop_last(), w) + w + seq![','] + w + spaced_text(items.last(), w)
    }
}

/// The texts of `entries` (quoted key, colon, value) separated by commas,
/// with `w` around each comma and colon.
pub open spec fn spaced_entries(entries: Seq<(Seq<char>, Json)>, w: Seq<char>) -> Seq<char>
    decreases entries,
{
    if entries.len() == 0 {
        Seq::empty()
    } else if entries.len() == 1 {
        quoted(entries[0].0) + w + seq![':'] + w + spaced_text(entries[0].1, w)
    } else {
        spaced_entries(entries.drop_last(), w) + w + seq![','] + w + quoted(entries.last().0) + w
            + seq![':'] + w + spaced_text(entries.last().1, w)
    }
}

/// The compact text of a value: no whitespace between tokens.
pub open spec fn encode_text(v: Json) -> Seq<char> {
    spaced_text(v, Seq::empty())
}

/// The readable text of a value. Arrays and objects separate their parts with
/// `", "`; one with ten parts or more puts its parts on lines of five, each
/// line indented by three spaces, between a line break after the opening
/// bracket and one before the closing bracket.
pub open spec fn display_text(v: Json) -> Seq<char>
    decreases v,
{
    match v {
        Json::Null => null_text(),
        Json::Bool(b) => if b {
            true_text()
        } else {
            false_text()
        },
        Json::Int(i) => int_text(i),
        Json::Float(t) => t,
        Json::Str(t) => quoted(t),
        Json::Array(items) => seq!['['] + line_break(items.len() >= 10) + display_items(
            items,
            items.len() as int,
        ) + line_break(items.len() >= 10) + seq![']'],
        Json::Object(entries) => seq!['{'] + line_break(entries.len() >= 10) + display_entries(
            entries,
            entries.len() as int,
        ) + line_break(entries.len() >= 10) + seq!['}'],
    }
}

/// A line break if `large` holds, else nothing.
pub open spec fn line_break(large: bool) -> Seq<char> {
    if large {
        seq!['\n']
    } else {
        Seq::empty()
    }
}

/// The readable text of part `i` (with text `t`) of an array or object of
/// `n` parts, with what precedes and follows it.
pub open spec fn display_part(t: Seq<char>, i: int, n: int) -> Seq<char> {
    let large = n >= 10;
    let indent = if large && i % 5 == 0 {
        seq![' ', ' ', ' ']
    } else {
        Seq::empty()
    };
    let after = if i != n - 1 {
        seq![',', ' '] + line_break(large && (i + 1) % 5 == 0)
    } else {
        Seq::empty()
    };
    indent + t + after
}

/// The readable texts of `items`, the first parts of an array of `n` parts.
pub open spec fn display_items(items: Seq<Json>, n: int) -> Seq<char>
    decreases items,
{
    if items.len() == 0 {
        Seq::empty()
    } else {
        display_items(items.drop_last(), n) + display_part(
            display_text(items.last()),
            items.len() - 1,
            n,
        )
    }
}

/// The readable texts of `entries` (quoted key, colon, value), the first
/// parts of an object of `n` parts.
pub open spec fn display_entries(entries: Seq<(Seq<char>, Json)>, n: int) -> Seq<char>
    decreases entries,
{
    if entries.len() == 0 {
        Seq::empty()
    } else {
        display_entries(entries.drop_last(), n) + display_part(
            quoted(entries.last().0) + seq![':'] + display_text(entries.last().1),
            entries.len() - 1,
            n,
        )
    }
}

/// Appends what comes before part `i` of `n`: the indentation of a line.
fn open_part(out: &mut String, i: usize, n: usize)
    ensures
        final(out)@ == old(out)@ + (if n >= 10 && i % 5 == 0 {
            seq![' ', ' ', ' ']
        } else {
            Seq::empty()
        }),
{
    if n >= 10 && i % 5 == 0 {
        proof {
            reveal_strlit("   ");
        }
        out.append("   ");
    }
    assert(final(out)@ =~= old(out)@ + (if n >= 10 && i % 5 == 0 {
        seq![' ', ' ', ' ']
    } else {
        Seq::empty()
    }));
}

/// Appends what comes after part `i` of `n`: a separator, and a line break
/// after every fifth part of a large array or object.
fn close_part(out: &mut String, i: usize, n: usize)
    requires
        i < n,
    ensures
        final(out)@ == old(out)@ + (if i != n - 1 {
            seq![',', ' '] + line_break(n >= 10 && (i + 1) % 5 == 0)
        } else {
            Seq::empty()
        }),
{
    if i != n - 1 {
        proof {
            reveal_strlit(", ");
        }
        out.append(", ");
        if n >= 10 && (i + 1) % 5 == 0 {
            push_char(out, '\n');
        }
    }
    assert(final(out)@ =~= old(out)@ + (if i != n - 1 {
        seq![',', ' '] + line_break(n >= 10 && (i + 1) % 5 == 0)
    } else {
        Seq::empty()
    }));
}

/// Appends a quoted object key and its colon.
fn append_key(out: &mut String, key: &String)
    ensures
        final(out)@ == old(out)@ + quoted(key@) + seq![':'],
{
    push_char(out, '"');
    out.append(key.as_str());
    push_char(out, '"');
    push_char(out, ':');
    assert(final(out)@ =~= old(out)@ + quoted(key@) + seq![':']);
}

proof fn lemma_display_items_step(js: Seq<Json>, i: int, n: int)
    requires
        0 <= i < js.len(),
    ensures
        display_items(js.take(i + 1), n) == display_items(js.take(i), n) + display_part(
            display_text(js[i]),
            i,
            n,
        ),
{
    let next = js.take(i + 1);
    assert(next.drop_last() =~= js.take(i));
    assert(next.last() == js[i]);
}

/// Appends the readable text of an array.
fn display_array(items: &Vec<JsonValue>, out: &mut String)
    ensures
        final(out)@ == old(out)@ + display_text(Json::Array(items_view(items@))),
    decreases items,
{
    let ghost js = items_view(items@);
    proof {
        lemma_items_view(items@);
    }
    let n = items.len();
    push_char(out, '[');
    if n >= 10 {
        push_char(out, '\n');
    }
    let ghost start = out@;
    assert(start =~= old(out)@ + seq!['['] + line_break(n >= 10));
    let mut i: usize = 0;
    while i < n
        invariant
            n == items.len(),
            js == items_view(items@),
            js.len() == n,
            forall|j: int| 0 <= j < n ==> #[trigger] js[j] == json_view(items@[j]),
            i <= n,
            out@ == start + display_items(js.take(i as int), n as int),
        decreases n - i,
    {
        open_part(out, i, n);
        items[i].display_into(out);
        close_part(out, i, n);
        proof {
            lemma_display_items_step(js, i as int, n as int);
            assert(out@ =~= start + display_items(js.take(i + 1), n as int));
        }
        i = i + 1;
    }
    if n >= 10 {
        push_char(out, '\n');
    }
    push_char(out, ']');
    proof {
        assert(js.take(js.len() as int) =~= js);
        assert(out@ =~= old(out)@ + display_text(Json::Array(js)));
    }
}

proof fn lemma_display_entries_step(es: Seq<(Seq<char>, Json)>, i: int, n: int)
    requires
        0 <= i < es.len(),
    ensures
        display_entries(es.take(i + 1), n) == display_entries(es.take(i), n) + display_part(
            quoted(es[i].0) + seq![':'] + display_text(es[i].1),
            i,
            n,
        ),
{
    let next = es.take(i + 1);
    assert(next.drop_last() =~= es.take(i));
    assert(next.last() == es[i]);
}

/// Appends the readable text of an object.
fn display_object(entries: &Vec<(String, JsonValue)>, out: &mut String)
    ensures
        final(out)@ == old(out)@ + display_text(Json::Object(entries_view(entries@))),
    decreases entries,
{
    let ghost es = entries_view(entries@);
    proof {
        lemma_entries_view(entries@);
    }
    let n = entries.len();
    push_char(out, '{');
    if n >= 10 {
        push_char(out, '\n');
    }
    let ghost start = out@;
    assert(start =~= old(out)@ + seq!['{'] + line_break(n >= 10));
    let mut i: usize = 0;
    while i < n
        invariant
            n == entries.len(),
            es == entries_view(entries@),
            es.len() == n,
            forall|j: int|
                0 <= j < n ==> #[trigger] es[j] == (entries@[j].0@, json_view(entries@[j].1)),
            i <= n,
            out@ == start + display_entries(es.take(i as int), n as int),
        decreases n - i,
    {
        open_part(out, i, n);
        append_key(out, &entries[i].0);
        entries[i].1.display_into(out);
        close_part(out, i, n);
        proof {
            lemma_display_entries_step(es, i as int, n as int);
            assert(out@ =~= start + display_entries(es.take(i + 1), n as int));
        }
        i = i + 1;
    }
    if n >= 10 {
        push_char(out, '\n');
    }
    push_char(out, '}');
    proof {
        assert(es.take(es.len() as int) =~= es);
        assert(out@ =~= old(out)@ + display_text(Json::Object(es)));
    }
}

proof fn lemma_spaced_items_step(js: Seq<Json>, i: int, w: Seq<char>)
    requires
        0 <= i < js.len(),
    ensures
        spaced_items(js.take(i + 1), w) == if i == 0 {
            spaced_text(js[0], w)
        } else {
            spaced_items(js.take(i), w) + w + seq![','] + w + spaced_text(js[i], w)
        },
{
    let next = js.take(i + 1);
    assert(next.drop_last() =~= js.take(i));
    assert(next.last() == js[i]);
}

/// Appends the compact text of an array.
fn encode_array(items: &Vec<JsonValue>, out: &mut String)
    ensures
        final(out)@ == old(out)@ + encode_text(Json::Array(items_view(items@))),
    decreases items,
{
    let ghost e: Seq<char> = Seq::empty();
    let ghost js = items_view(items@);
    proof {
        lemma_items_view(items@);
    }
    push_char(out, '[');
    let ghost start = out@;
    let mut i: usize = 0;
    while i < items.len()
        invariant
            e == Seq::<char>::empty(),
            js == items_view(items@),
            js.len() == items.len(),
            forall|j: int| 0 <= j < items.len() ==> #[trigger] js[j] == json_view(items@[j]),
            i <= items.len(),
            out@ == start + spaced_items(js.take(i as int), e),
        decreases items.len() - i,
    {
        if i > 0 {
            push_char(out, ',');
        }
        items[i].encode_into(out);
        proof {
            lemma_spaced_items_step(js, i as int, e);
            assert(out@ =~= start + spaced_items(js.take(i + 1), e));
        }
        i = i + 1;
    }
    push_char(out, ']');
    proof {
        assert(js.take(js.len() as int) =~= js);
        assert(out@ =~= old(out)@ + encode_text(Json::Array(js)));
    }
}

proof fn lemma_spaced_entries_step(es: Seq<(Seq<char>, Json)>, i: int, w: Seq<char>)
    requires
        0 <= i < es.len(),
    ensures
        spaced_entries(es.take(i + 1), w) == if i == 0 {
            quoted(es[0].0) + w + seq![':'] + w + spaced_text(es[0].1, w)
        } else {
            spaced_entries(es.take(i), w) + w + seq![','] + w + quoted(es[i].0) + w + seq![':']
                + w + spaced_text(es[i].1, w)
        },
{
    let next = es.take(i + 1);
    assert(next.drop_last() =~= es.take(i));
    assert(next.last() == es[i]);
}

/// Appends the compact text of an object.
fn encode_object(entries: &Vec<(String, JsonValue)>, out: &mut String)
    ensures
        final(out)@ == old(out)@ + encode_text(Json::Object(entries_view(entries@))),
    decreases entries,
{
    let ghost e: Seq<char> = Seq::empty();
    let ghost es = entries_view(entries@);
    proof {
        lemma_entries_view(entries@);
    }
    push_char(out, '{');
    let ghost start = out@;
    let mut i: usize = 0;
    while i < entries.len()
        invariant
            e == Seq::<char>::empty(),
            es == entries_view(entries@),
            es.len() == entries.len(),
            forall|j: int|
                0 <= j < entries.len() ==> #[trigger] es[j] == (
                    entries@[j].0@,
                    json_view(entries@[j].1),
                ),
            i <= entries.len(),
            out@ == start + spaced_entries(es.take(i as int), e),
        decreases entries.len() - i,
    {
        if i > 0 {
            push_char(out, ',');
        }
        append_key(out, &entries[i].0);
        entries[i].1.encode_into(out);
        proof {
            lemma_spaced_entries_step(es, i as int, e);
            assert(out@ =~= start + spaced_entries(es.take(i + 1), e));
        }
        i = i + 1;
    }
    push_char(out, '}');
    proof {
        assert(es.take(es.len() as int) =~= es);
        assert(out@ =~= old(out)@ + encode_text(Json::Object(es)));
    }
}

impl JsonValue {
    /// The readable text of the value (see [`display_text`]). Strings are
    /// quoted as they are, so this text does not always read back.
    pub fn to_display_string(&self) -> (r: String)
        ensures
            r@ == display_text(self@),
    {
        let mut out = String::new();
        self.display_into(&mut out);
        assert(out@ =~= display_text(self@));
        out
    }

    /// Appends the readable text of the value.
    pub fn display_into(&self, out: &mut String)
        ensures
            final(out)@ == old(out)@ + display_text(self@),
        decreases self,
    {
        match self {
            JsonValue::Array(items) => display_array(items, out),
            JsonValue::Obj(entries) => display_object(entries, out),
            _ => self.encode_into(out),
        }
    }

    /// The compact text of the value: no whitespace is inserted, strings are
    /// quoted as they are (an embedded quote is not escaped), and a
    /// floating-point number is written as the literal it was read from.
    pub fn encode(&self) -> (r: String)
        ensures
            r@ == encode_text(self@),
    {
        let mut out = String::new();
        self.encode_into(&mut out);
        assert(out@ =~= encode_text(self@));
        out
    }

    /// Appends the compact text of the value.
    pub fn encode_into(&self, out: &mut String)
        ensures
            final(out)@ == old(out)@ + encode_text(self@),
        decreases self,
    {
        match self {
            JsonValue::Null => {
                proof {
                    reveal_strlit("null");
                }
                out.append("null");
            },
            JsonValue::Bool(b) => {
                proof {
                    reveal_strlit("true");
                    reveal_strlit("false");
                }
                if *b {
                    out.append("true");
                } else {
                    out.append("false");
                }
            },
            JsonValue::Num(JsonNum::Int(i)) => {
                append_int(out, *i);
            },
            JsonValue::Num(JsonNum::Float(t)) => {
                out.append(t.as_str());
            },
            JsonValue::String(t) => {
                push_char(out, '"');
                out.append(t.as_str());
                push_char(out, '"');
                assert(final(out)@ =~= old(out)@ + quoted(t@));
            },
            JsonValue::Array(items) => encode_array(items, out),
            JsonValue::Obj(entries) => encode_object(entries, out),
        }
    }
}

/// Whether the first entry with key `k` binds it to `v`.
pub open spec fn binds(entries: Seq<(Seq<char>, Json)>, k: Seq<char>, v: Json) -> bool {
    exists|i: int|
        0 <= i < entries.len() && entries[i] == (k, v) && forall|j: int|
            0 <= j < i ==> #[trigger] entries[j].0 != k
}

/// The value that a failed lookup gives.
const NULL: JsonValue = JsonValue::Null;

/// A missing value is null.
impl Default for JsonValue {
    fn default() -> (r: JsonValue)
        ensures
            r@ == Json::Null,
    {
        JsonValue::Null
    }
}

impl JsonValue {
    /// Element `index` of an array; null for any other kind of value.
    pub fn at(&self, index: usize) -> (r: &JsonValue)
        requires
            self matches JsonValue::Array(items) ==> index < items.len(),
        ensures
            match self@ {
                Json::Array(items) => r@ == items[index as int],
                _ => r@ == Json::Null,
            },
    {
        match self {
            JsonValue::Array(items) => {
                proof {
                    lemma_items_view(items@);
                }
                &items[index]
            },
            _ => &NULL,
        }
    }

    /// The value bound to `key` in an object (by its first entry with that
    /// key, should there be several); null for any other kind of value.
    pub fn get(&self, key: &str) -> (r: &JsonValue)
        requires
            self matches JsonValue::Obj(entries) ==> has_key(entries_view(entries@), key@),
        ensures
            match self@ {
                Json::Object(entries) => binds(entries, key@, r@),
                _ => r@ == Json::Null,
            },
    {
        match self {
            JsonValue::Obj(entries) => {
                proof {
                    lemma_entries_view(entries@);
                }
                let wanted = String::from_str(key);
                let mut i: usize = 0;
                while i < entries.len()
                    invariant
                        self@ == Json::Object(entries_view(entries@)),
                        wanted@ == key@,
                        has_key(entries_view(entries@), key@),
                        entries_view(entries@).len() == entries.len(),
                        forall|j: int|
                            0 <= j < entries.len() ==> #[trigger] entries_view(entries@)[j] == (
                                entries@[j].0@,
                                json_view(entries@[j].1),
                            ),
                        i <= entries.len(),
                        forall|j: int| 0 <= j < i ==> entries@[j].0@ != key@,
                    decreases entries.len() - i,
                {
                    if entries[i].0 == wanted {
                        let r = &entries[i].1;
                        proof {
                            let es = entries_view(entries@);
                            assert(es[i as int] == (key@, r@));
                            assert(forall|j: int| 0 <= j < i ==> #[trigger] es[j].0 != key@);
                            assert(binds(es, key@, r@));
                        }
                        return r;
                    }
                    i = i + 1;
                }
                proof {
                    let j = choose|j: int|
                        0 <= j < entries_view(entries@).len() && #[trigger] entries_view(
                            entries@,
                        )[j].0 == key@;
                    assert(entries@[j].0@ == key@);
                }
                &NULL
            },
            _ => &NULL,
        }
    }

    /// The integer of an integer value.
    pub fn unwrap_int(&self) -> (r: i128)
        requires
            self matches JsonValue::Num(JsonNum::Int(_)),
        ensures
            self@ == Json::Int(r as int),
    {
        match self {
            JsonValue::Num(n) => n.unwrap_int(),
            _ => 0,
        }
    }

    /// The truth value of a boolean value.
    pub fn unwrap_bool(&self) -> (r: bool)
        requires
            self is Bool,
        ensures
            self@ == Json::Bool(r),
    {
        match self {
            JsonValue::Bool(b) => *b,
            _ => false,
        }
    }

    /// The text of a string value.
    pub fn unwrap_string(&self) -> (r: &str)
        requires
            self is String,
        ensures
            self@ == Json::Str(r@),
    {
        match self {
            JsonValue::String(t) => t.as_str(),
            _ => "",
        }
    }
}

impl JsonNum {
    /// The integer of an integer.
    pub fn unwrap_int(&self) -> (r: i128)
        requires
            self is Int,
        ensures
            *self == JsonNum::Int(r),
    {
        match self {
            JsonNum::Int(i) => *i,
            JsonNum::Float(_) => 0,
        }
    }

    /// The literal of a number with a point, as it was read.
    pub fn float_text(&self) -> (r: &str)
        requires
            self is Float,
        ensures
            *self matches JsonNum::Float(t) && t@ == r@,
    {
        match self {
            JsonNum::Float(t) => t.as_str(),
            JsonNum::Int(_) => "",
        }
    }
}

} // verus!
