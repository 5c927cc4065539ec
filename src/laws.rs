//! Properties that relate several functions of the library: reading back
//! what the encoder writes, whitespace between tokens, case of the boolean
//! literals, and inputs made of whitespace alone.
use vstd::prelude::*;
use crate::json_parser::grammar::{
    lower_code, all_digits, char_at, lemma_skip_ws, parse_array, parse_object, chars_match, has_key, insert_entry, literal_at, digits_value, false_text, int_text_value, is_digit, is_float_text,
    is_number_char, is_ws, keys_unique, lemma_value_after_ws, null_text, number_end,
    parse_elements, parse_members, parse_string, parse_string_body, parse_text, parse_value,
    skip_ws, true_text, unsigned_part,
};
use crate::text::{digit_char, int_text, nat_text};
use crate::error::Result;
use crate::json_parser::parse_outcome;
use crate::values::{JsonValue, encode_text, quoted, spaced_entries, spaced_items, spaced_text, Json};

verus! {

/// Whether `w` holds only whitespace.
pub open spec fn all_ws(w: Seq<char>) -> bool {
    forall|i: int| 0 <= i < w.len() ==> is_ws(#[trigger] w[i])
}

/// Whether `t` holds no double quote and no backslash: such a text reads back
/// as itself between quotes.
pub open spec fn plain_text(t: Seq<char>) -> bool {
    forall|i: int| 0 <= i < t.len() ==> #[trigger] t[i] != '"' && t[i] != '\\'
}

/// Whether `x` stands in `s` from position `q` on.
pub open spec fn text_at(s: Seq<char>, q: int, x: Seq<char>) -> bool {
    &&& 0 <= q
    &&& q + x.len() <= s.len()
    &&& forall|i: int| 0 <= i < x.len() ==> #[trigger] s[q + i] == x[i]
}

proof fn lemma_text_at_part(s: Seq<char>, q: int, x: Seq<char>, off: int, y: Seq<char>)
    requires
        text_at(s, q, x),
        0 <= off,
        off + y.len() <= x.len(),
        x.subrange(off, off + y.len()) == y,
    ensures
        text_at(s, q + off, y),
{
    assert forall|i: int| 0 <= i < y.len() implies #[trigger] s[q + off + i] == y[i] by {
        assert(s[q + (off + i)] == x[off + i]);
        assert(x.subrange(off, off + y.len())[i] == x[off + i]);
    }
}

/// A run of whitespace followed by something else is skipped whole.
proof fn lemma_skip_run(s: Seq<char>, q: int, w: Seq<char>)
    requires
        all_ws(w),
        text_at(s, q, w),
        q + w.len() < s.len(),
        !is_ws(s[q + w.len()]),
    ensures
        skip_ws(s, q) == q + w.len(),
    decreases w.len(),
{
    if w.len() > 0 {
        assert(s[q + 0] == w[0]);
        assert(text_at(s, q + 1, w.drop_first())) by {
            assert forall|i: int| 0 <= i < w.len() - 1 implies #[trigger] s[q + 1 + i]
                == w.drop_first()[i] by {
                assert(s[q + (i + 1)] == w[i + 1]);
            }
        }
        lemma_skip_run(s, q + 1, w.drop_first());
    }
}

/// A run of number characters followed by something else is scanned whole.
proof fn lemma_number_run(s: Seq<char>, q: int, t: Seq<char>)
    requires
        forall|i: int| 0 <= i < t.len() ==> is_number_char(#[trigger] t[i]),
        text_at(s, q, t),
        q + t.len() < s.len() ==> !is_number_char(s[q + t.len()]),
    ensures
        number_end(s, q) == q + t.len(),
    decreases t.len(),
{
    if t.len() > 0 {
        assert(s[q + 0] == t[0]);
        assert(text_at(s, q + 1, t.drop_first())) by {
            assert forall|i: int| 0 <= i < t.len() - 1 implies #[trigger] s[q + 1 + i]
                == t.drop_first()[i] by {
                assert(s[q + (i + 1)] == t[i + 1]);
            }
        }
        lemma_number_run(s, q + 1, t.drop_first());
    }
}

proof fn lemma_nat_text(n: nat)
    ensures
        nat_text(n).len() >= 1,
        all_digits(nat_text(n)),
        digits_value(nat_text(n)) == n,
    decreases n,
{
    let d = (n % 10) as int;
    assert(digit_char(d) as int == '0' as int + d);
    if n >= 10 {
        lemma_nat_text(n / 10);
        let t = nat_text(n);
        assert(t.drop_last() =~= nat_text(n / 10));
        assert(t.last() == digit_char(d));
        assert(n == (n / 10) * 10 + n % 10) by (nonlinear_arith);
        assert(digits_value(t) == digits_value(t.drop_last()) * 10 + (t.last() as int - '0' as int));
        assert(all_digits(t)) by {
            assert forall|i: int| 0 <= i < t.len() implies is_digit(#[trigger] t[i]) by {
                if i < t.len() - 1 {
                    assert(t[i] == nat_text(n / 10)[i]);
                }
            }
        }
    } else {
        assert(nat_text(n).drop_last() =~= Seq::<char>::empty());
        assert(digits_value(Seq::<char>::empty()) == 0);
    }
}

/// The decimal text of an `i128` reads back as the same integer.
proof fn lemma_int_text(i: int)
    requires
        i128::MIN <= i <= i128::MAX,
    ensures
        int_text_value(int_text(i)) == Some(i),
        int_text(i).len() >= 1,
        !int_text(i).contains('.'),
        forall|k: int| 0 <= k < int_text(i).len() ==> is_number_char(#[trigger] int_text(i)[k]),
{
    let t = int_text(i);
    if i < 0 {
        let m = (-i) as nat;
        lemma_nat_text(m);
        assert(unsigned_part(t) =~= nat_text(m));
        assert forall|k: int| 0 <= k < t.len() implies is_number_char(#[trigger] t[k]) by {
            if k > 0 {
                assert(t[k] == nat_text(m)[k - 1]);
            }
        }
    } else {
        lemma_nat_text(i as nat);
        assert(nat_text(i as nat)[0] != '-');
        assert(unsigned_part(t) =~= t);
        assert forall|k: int| 0 <= k < t.len() implies is_number_char(#[trigger] t[k]) by {
            assert(is_digit(t[k]));
        }
    }
    if t.contains('.') {
        let k = choose|k: int| 0 <= k < t.len() && t[k] == '.';
        assert(is_number_char(t[k]));
        if i < 0 {
            if k > 0 {
                assert(t[k] == nat_text((-i) as nat)[k - 1]);
            }
        } else {
            assert(is_digit(t[k]));
        }
    }
}

/// A float literal is made of number characters.
proof fn lemma_float_chars(t: Seq<char>)
    requires
        is_float_text(t),
    ensures
        t.len() >= 1,
        t.contains('.'),
        forall|k: int| 0 <= k < t.len() ==> is_number_char(#[trigger] t[k]),
{
    let d = unsigned_part(t);
    let k = choose|k: int|
        0 <= k < d.len() && d[k] == '.' && forall|i: int|
            0 <= i < d.len() && i != k ==> is_digit(#[trigger] d[i]);
    let off: int = if t.len() > 0 && t[0] == '-' {
        1
    } else {
        0
    };
    assert(t[k + off] == d[k]);
    assert forall|j: int| 0 <= j < t.len() implies is_number_char(#[trigger] t[j]) by {
        if j >= off {
            assert(t[j] == d[j - off]);
            if j - off != k {
                assert(is_digit(d[j - off]));
            }
        }
    }
}

/// A quoted plain text reads back as the text.
proof fn lemma_string_text(s: Seq<char>, q: int, t: Seq<char>)
    requires
        plain_text(t),
        text_at(s, q, quoted(t)),
    ensures
        parse_string(s, q) == Some((t, q + t.len() + 2)),
{
    assert(s[q + 0] == quoted(t)[0]);
    lemma_string_body_text(s, q, t, 0);
    assert(t.take(0) =~= Seq::<char>::empty());
}

proof fn lemma_string_body_text(s: Seq<char>, q: int, t: Seq<char>, i: int)
    requires
        plain_text(t),
        text_at(s, q, quoted(t)),
        0 <= i <= t.len(),
    ensures
        parse_string_body(s, q + 1 + i, t.take(i)) == Some((t, q + t.len() + 2)),
    decreases t.len() - i,
{
    assert(s[q + (1 + i)] == quoted(t)[1 + i]);
    if i < t.len() {
        assert(quoted(t)[1 + i] == t[i]);
        assert(t.take(i).push(t[i]) =~= t.take(i + 1));
        lemma_string_body_text(s, q, t, i + 1);
    } else {
        assert(t.take(i) =~= t);
    }
}

/// Whether `v` is a value that the parser can produce: integers fit in an
/// `i128`, point literals are well formed, and no object repeats a key.
pub open spec fn well_formed(v: Json) -> bool
    decreases v,
{
    match v {
        Json::Int(i) => i128::MIN <= i <= i128::MAX,
        Json::Float(t) => is_float_text(t),
        Json::Array(items) => forall|i: int| 0 <= i < items.len() ==> well_formed(#[trigger] items[i]),
        Json::Object(entries) => keys_unique(entries) && forall|i: int|
            0 <= i < entries.len() ==> well_formed(#[trigger] entries[i].1),
        _ => true,
    }
}

/// Whether no string and no key inside `v` holds a double quote or a
/// backslash (which the encoder writes as they are).
pub open spec fn quote_free(v: Json) -> bool
    decreases v,
{
    match v {
        Json::Str(t) => plain_text(t),
        Json::Array(items) => forall|i: int| 0 <= i < items.len() ==> quote_free(#[trigger] items[i]),
        Json::Object(entries) => forall|i: int|
            #![trigger entries[i]]
            0 <= i < entries.len() ==> plain_text(entries[i].0) && quote_free(entries[i].1),
        _ => true,
    }
}

/// The first character of a value's text is the one that selects its
/// production.
proof fn lemma_first_char(v: Json, w: Seq<char>)
    requires
        well_formed(v),
    ensures
        spaced_text(v, w).len() >= 1,
        ({
            let c = spaced_text(v, w)[0];
            match v {
                Json::Null => c == 'n',
                Json::Bool(b) => c == if b {
                    't'
                } else {
                    'f'
                },
                Json::Int(_) => is_number_char(c),
                Json::Float(_) => is_number_char(c),
                Json::Str(_) => c == '"',
                Json::Array(_) => c == '[',
                Json::Object(_) => c == '{',
            }
        }),
{
    match v {
        Json::Int(i) => {
            lemma_int_text(i);
        },
        Json::Float(t) => {
            lemma_float_chars(t);
        },
        _ => {},
    }
}

/// The items' text, first item first.
proof fn lemma_spaced_items_cons(items: Seq<Json>, w: Seq<char>)
    requires
        items.len() >= 2,
    ensures
        spaced_items(items, w) == spaced_text(items[0], w) + w + seq![','] + w + spaced_items(
            items.drop_first(),
            w,
        ),
    decreases items.len(),
{
    let rest = items.drop_first();
    if items.len() == 2 {
        assert(items.drop_last().len() == 1);
        assert(rest.len() == 1);
        assert(spaced_items(rest, w) == spaced_text(rest[0], w));
        assert(spaced_items(items.drop_last(), w) == spaced_text(items[0], w));
    } else {
        lemma_spaced_items_cons(items.drop_last(), w);
        assert(items.drop_last().drop_first() =~= rest.drop_last());
        assert(rest.last() == items.last());
    }
}

/// The entries' text, first entry first.
proof fn lemma_spaced_entries_cons(entries: Seq<(Seq<char>, Json)>, w: Seq<char>)
    requires
        entries.len() >= 2,
    ensures
        spaced_entries(entries, w) == quoted(entries[0].0) + w + seq![':'] + w + spaced_text(
            entries[0].1,
            w,
        ) + w + seq![','] + w + spaced_entries(entries.drop_first(), w),
    decreases entries.len(),
{
    let rest = entries.drop_first();
    if entries.len() == 2 {
        assert(entries.drop_last().len() == 1);
        assert(rest.len() == 1);
        assert(spaced_entries(rest, w) == quoted(rest[0].0) + w + seq![':'] + w + spaced_text(
            rest[0].1,
            w,
        ));
        assert(spaced_entries(entries.drop_last(), w) == quoted(entries[0].0) + w + seq![':'] + w
            + spaced_text(entries[0].1, w));
        assert(spaced_entries(entries, w) =~= quoted(entries[0].0) + w + seq![':'] + w
            + spaced_text(entries[0].1, w) + w + seq![','] + w + spaced_entries(rest, w));
    } else {
        lemma_spaced_entries_cons(entries.drop_last(), w);
        assert(entries.drop_last().drop_first() =~= rest.drop_last());
        assert(rest.last() == entries.last());
        assert(spaced_entries(entries, w) =~= quoted(entries[0].0) + w + seq![':'] + w
            + spaced_text(entries[0].1, w) + w + seq![','] + w + spaced_entries(rest, w));
    }
}

proof fn lemma_items_first(items: Seq<Json>, w: Seq<char>)
    requires
        items.len() >= 1,
        well_formed(items[0]),
    ensures
        spaced_items(items, w).len() >= 1,
        spaced_items(items, w)[0] == spaced_text(items[0], w)[0],
{
    lemma_first_char(items[0], w);
    if items.len() >= 2 {
        lemma_spaced_items_cons(items, w);
    }
}

/// The text of a number, string or literal, followed by something that
/// cannot continue a number, reads back as the value.
proof fn lemma_scalar_text(s: Seq<char>, q: int, v: Json, w: Seq<char>)
    requires
        !(v is Array),
        !(v is Object),
        well_formed(v),
        quote_free(v),
        text_at(s, q, spaced_text(v, w)),
        q + spaced_text(v, w).len() < s.len() ==> !is_number_char(
            s[q + spaced_text(v, w).len()],
        ),
    ensures
        parse_value(s, q) == Some((v, q + spaced_text(v, w).len())),
{
    let x = spaced_text(v, w);
    let n = x.len() as int;
    lemma_first_char(v, w);
    assert(s[q + 0] == x[0]);
    assert(skip_ws(s, q) == q);
    match v {
        Json::Null => {
            assert(literal_at(s, q, null_text(), false));
        },
        Json::Bool(b) => {
            if b {
                assert(literal_at(s, q, true_text(), true));
            } else {
                assert(literal_at(s, q, false_text(), true));
            }
        },
        Json::Int(i) => {
            lemma_int_text(i);
            lemma_number_run(s, q, x);
            assert forall|k: int| 0 <= k < n implies #[trigger] s.subrange(q, q + n)[k] == x[k] by {
                assert(s[q + k] == x[k]);
            }
            assert(s.subrange(q, q + n) =~= x);
        },
        Json::Float(t) => {
            lemma_float_chars(t);
            lemma_number_run(s, q, x);
            assert forall|k: int| 0 <= k < n implies #[trigger] s.subrange(q, q + n)[k] == x[k] by {
                assert(s[q + k] == x[k]);
            }
            assert(s.subrange(q, q + n) =~= x);
        },
        Json::Str(t) => {
            lemma_string_text(s, q, t);
        },
        _ => {},
    }
}

/// The text of a value, followed by something that cannot continue a
/// number, reads back as the value.
proof fn lemma_value_text(s: Seq<char>, q: int, v: Json, w: Seq<char>)
    requires
        well_formed(v),
        quote_free(v),
        all_ws(w),
        text_at(s, q, spaced_text(v, w)),
        q + spaced_text(v, w).len() < s.len() ==> !is_number_char(
            s[q + spaced_text(v, w).len()],
        ),
    ensures
        parse_value(s, q) == Some((v, q + spaced_text(v, w).len())),
    decreases v, 2int,
{
    match v {
        Json::Array(_) => lemma_array_text(s, q, v, w),
        Json::Object(_) => lemma_object_text(s, q, v, w),
        _ => lemma_scalar_text(s, q, v, w),
    }
}

/// The text of an array reads back as the array.
proof fn lemma_array_text(s: Seq<char>, q: int, v: Json, w: Seq<char>)
    requires
        v is Array,
        well_formed(v),
        quote_free(v),
        all_ws(w),
        text_at(s, q, spaced_text(v, w)),
    ensures
        parse_value(s, q) == Some((v, q + spaced_text(v, w).len())),
    decreases v, 1int,
{
    let items = v->Array_0;
    let wl = w.len() as int;
    let x = spaced_text(v, w);
    let n = x.len() as int;
    assert(s[q + 0] == x[0]);
    assert(skip_ws(s, q) == q);
    assert(x.subrange(1, 1 + wl) =~= w);
    lemma_text_at_part(s, q, x, 1, w);
    let r = q + 1 + wl;
    assert(s[q + (1 + wl)] == x[1 + wl]);
    if items.len() == 0 {
        lemma_skip_run(s, q + 1, w);
        assert(items =~= Seq::<Json>::empty());
    } else {
        let a = spaced_items(items, w);
        assert(well_formed(items[0]));
        lemma_items_first(items, w);
        lemma_first_char(items[0], w);
        lemma_skip_run(s, q + 1, w);
        let y = a + w + seq![']'];
        assert(x.subrange(1 + wl, n) =~= y);
        lemma_text_at_part(s, q, x, 1 + wl, y);
        assert forall|i: int| 0 <= i < items.len() implies well_formed(#[trigger] items[i])
            && quote_free(items[i]) by {}
        lemma_elements_text(s, r, items, Seq::empty(), w);
        assert(Seq::<Json>::empty() + items =~= items);
    }
}

/// The text of an object with distinct keys reads back as the object.
proof fn lemma_object_text(s: Seq<char>, q: int, v: Json, w: Seq<char>)
    requires
        v is Object,
        well_formed(v),
        quote_free(v),
        all_ws(w),
        text_at(s, q, spaced_text(v, w)),
    ensures
        parse_value(s, q) == Some((v, q + spaced_text(v, w).len())),
    decreases v, 1int,
{
    let entries = v->Object_0;
    let wl = w.len() as int;
    let x = spaced_text(v, w);
    let n = x.len() as int;
    assert(s[q + 0] == x[0]);
    assert(skip_ws(s, q) == q);
    assert(x.subrange(1, 1 + wl) =~= w);
    lemma_text_at_part(s, q, x, 1, w);
    let r = q + 1 + wl;
    assert(s[q + (1 + wl)] == x[1 + wl]);
    if entries.len() == 0 {
        lemma_skip_run(s, q + 1, w);
        assert(entries =~= Seq::<(Seq<char>, Json)>::empty());
    } else {
        let e = spaced_entries(entries, w);
        lemma_entries_first(entries, w);
        lemma_skip_run(s, q + 1, w);
        let y = e + w + seq!['}'];
        assert(x.subrange(1 + wl, n) =~= y);
        lemma_text_at_part(s, q, x, 1 + wl, y);
        assert(Seq::<(Seq<char>, Json)>::empty() + entries =~= entries);
        lemma_members_text(s, r, entries, Seq::empty(), w);
    }
}

proof fn lemma_entries_first(entries: Seq<(Seq<char>, Json)>, w: Seq<char>)
    requires
        entries.len() >= 1,
    ensures
        spaced_entries(entries, w).len() >= 1,
        spaced_entries(entries, w)[0] == '"',
{
    if entries.len() >= 2 {
        lemma_spaced_entries_cons(entries, w);
    }
}

/// After a value inside an array or object: whitespace, then `sep`, then
/// (when `more`) whitespace and the text `z` of the next part.
proof fn lemma_after_part(s: Seq<char>, q: int, w: Seq<char>, sep: char, z: Seq<char>, more: bool)
    requires
        all_ws(w),
        !is_ws(sep),
        !is_number_char(sep),
        more ==> z.len() >= 1 && !is_ws(z[0]),
        text_at(s, q, if more {
            w + seq![sep] + w + z
        } else {
            w + seq![sep]
        }),
    ensures
        skip_ws(s, q) == q + w.len(),
        char_at(s, q + w.len()) == Some(sep),
        !is_number_char(s[q]),
        more ==> skip_ws(s, q + w.len() + 1) == q + 2 * w.len() + 1,
        more ==> text_at(s, q + 2 * w.len() + 1, z),
{
    let wl = w.len() as int;
    let x = if more {
        w + seq![sep] + w + z
    } else {
        w + seq![sep]
    };
    assert(x.subrange(0, wl) =~= w);
    lemma_text_at_part(s, q, x, 0, w);
    assert(s[q + wl] == x[wl]);
    lemma_skip_run(s, q, w);
    assert(s[q + 0] == x[0]);
    if more {
        assert(x.subrange(wl + 1, 2 * wl + 1) =~= w);
        lemma_text_at_part(s, q, x, wl + 1, w);
        assert(s[q + (2 * wl + 1)] == x[2 * wl + 1]);
        lemma_skip_run(s, q + wl + 1, w);
        assert(x.subrange(2 * wl + 1, x.len() as int) =~= z);
        lemma_text_at_part(s, q, x, 2 * wl + 1, z);
    }
}

/// The text of array elements, then the closing bracket, reads back as the
/// elements.
proof fn lemma_elements_text(s: Seq<char>, q: int, items: Seq<Json>, acc: Seq<Json>, w: Seq<char>)
    requires
        items.len() >= 1,
        forall|i: int| 0 <= i < items.len() ==> well_formed(#[trigger] items[i]) && quote_free(items[i]),
        all_ws(w),
        text_at(s, q, spaced_items(items, w) + w + seq![']']),
    ensures
        parse_elements(s, q, acc) == Some(
            (Json::Array(acc + items), q + spaced_items(items, w).len() + w.len() + 1),
        ),
    decreases items, 0int,
{
    let wl = w.len() as int;
    let t0 = spaced_text(items[0], w);
    let m = t0.len() as int;
    let a = spaced_items(items, w);
    let y = a + w + seq![']'];
    assert(well_formed(items[0]) && quote_free(items[0]));
    lemma_first_char(items[0], w);
    if items.len() == 1 {
        assert(a == t0);
        assert(y.subrange(0, m) =~= t0);
        lemma_text_at_part(s, q, y, 0, t0);
        assert(y.subrange(m, y.len() as int) =~= w + seq![']']);
        lemma_text_at_part(s, q, y, m, w + seq![']']);
        lemma_after_part(s, q + m, w, ']', Seq::empty(), false);
        lemma_value_text(s, q, items[0], w);
        assert(acc.push(items[0]) =~= acc + items);
    } else {
        let rest = items.drop_first();
        let r = spaced_items(rest, w);
        let z = r + w + seq![']'];
        lemma_spaced_items_cons(items, w);
        assert(y =~= t0 + (w + seq![','] + w + z));
        assert(y.subrange(0, m) =~= t0);
        lemma_text_at_part(s, q, y, 0, t0);
        assert(y.subrange(m, y.len() as int) =~= w + seq![','] + w + z);
        lemma_text_at_part(s, q, y, m, w + seq![','] + w + z);
        assert(well_formed(rest[0]));
        lemma_items_first(rest, w);
        lemma_first_char(rest[0], w);
        lemma_after_part(s, q + m, w, ',', z, true);
        lemma_value_text(s, q, items[0], w);
        assert forall|i: int| 0 <= i < rest.len() implies well_formed(#[trigger] rest[i])
            && quote_free(rest[i]) by {
            assert(rest[i] == items[i + 1]);
        }
        lemma_elements_text(s, q + m + 2 * wl + 1, rest, acc.push(items[0]), w);
        assert(acc.push(items[0]) + rest =~= acc + items);
    }
}

/// A quoted key, whitespace, a colon and whitespace: the key reads back, and
/// the value is looked for where `z` starts.
proof fn lemma_key_text(s: Seq<char>, q: int, k: Seq<char>, w: Seq<char>, z: Seq<char>)
    requires
        plain_text(k),
        all_ws(w),
        z.len() >= 1,
        !is_ws(z[0]),
        text_at(s, q, quoted(k) + w + seq![':'] + w + z),
    ensures
        parse_string(s, q) == Some((k, q + k.len() + 2)),
        skip_ws(s, q + k.len() + 2) == q + k.len() + 2 + w.len(),
        char_at(s, q + k.len() + 2 + w.len()) == Some(':'),
        skip_ws(s, q + k.len() + 3 + w.len()) == q + k.len() + 3 + 2 * w.len(),
        text_at(s, q + k.len() + 3 + 2 * w.len(), z),
{
    let kq = quoted(k);
    let kl = kq.len() as int;
    let x = kq + w + seq![':'] + w + z;
    assert(x.subrange(0, kl) =~= kq);
    lemma_text_at_part(s, q, x, 0, kq);
    lemma_string_text(s, q, k);
    assert(x.subrange(kl, x.len() as int) =~= w + seq![':'] + w + z);
    lemma_text_at_part(s, q, x, kl, w + seq![':'] + w + z);
    lemma_after_part(s, q + kl, w, ':', z, true);
}

/// One member of an object, as the grammar reads it.
proof fn lemma_members_step(
    s: Seq<char>,
    q: int,
    acc: Seq<(Seq<char>, Json)>,
    k: Seq<char>,
    v: Json,
    kl: int,
    wl: int,
    tl: int,
    more: bool,
)
    requires
        kl >= 2,
        wl >= 0,
        tl >= 1,
        parse_string(s, q) == Some((k, q + kl)),
        skip_ws(s, q + kl) == q + kl + wl,
        char_at(s, q + kl + wl) == Some(':'),
        parse_value(s, q + kl + wl + 1) == Some((v, q + kl + 2 * wl + 1 + tl)),
        skip_ws(s, q + kl + 2 * wl + 1 + tl) == q + kl + 3 * wl + 1 + tl,
        char_at(s, q + kl + 3 * wl + 1 + tl) == Some(
            if more {
                ','
            } else {
                '}'
            },
        ),
        more ==> skip_ws(s, q + kl + 3 * wl + 2 + tl) == q + kl + 4 * wl + 2 + tl,
    ensures
        parse_members(s, q, acc) == if more {
            parse_members(s, q + kl + 4 * wl + 2 + tl, insert_entry(acc, k, v))
        } else {
            Some((Json::Object(insert_entry(acc, k, v)), q + kl + 3 * wl + 2 + tl))
        },
{
}

/// A key that no entry has yet goes at the end.
proof fn lemma_insert_new(acc: Seq<(Seq<char>, Json)>, entries: Seq<(Seq<char>, Json)>)
    requires
        entries.len() >= 1,
        keys_unique(acc + entries),
    ensures
        insert_entry(acc, entries[0].0, entries[0].1) == acc.push(entries[0]),
        acc.push(entries[0]) + entries.drop_first() == acc + entries,
{
    let k0 = entries[0].0;
    assert(!has_key(acc, k0)) by {
        assert forall|i: int| 0 <= i < acc.len() implies #[trigger] acc[i].0 != k0 by {
            assert((acc + entries)[i] == acc[i]);
            assert((acc + entries)[acc.len() as int] == entries[0]);
        }
    }
    assert(acc.push(entries[0]) + entries.drop_first() =~= acc + entries);
}

/// What follows the value of the first member: whitespace, then a comma and
/// the other members, or the closing brace.
spec fn member_tail(entries: Seq<(Seq<char>, Json)>, w: Seq<char>) -> Seq<char> {
    if entries.len() >= 2 {
        w + seq![','] + w + (spaced_entries(entries.drop_first(), w) + w + seq!['}'])
    } else {
        w + seq!['}']
    }
}

proof fn lemma_members_layout(entries: Seq<(Seq<char>, Json)>, w: Seq<char>)
    requires
        entries.len() >= 1,
    ensures
        spaced_entries(entries, w) + w + seq!['}'] == quoted(entries[0].0) + w + seq![':'] + w + (
        spaced_text(entries[0].1, w) + member_tail(entries, w)),
{
    if entries.len() >= 2 {
        lemma_spaced_entries_cons(entries, w);
    }
    assert(spaced_entries(entries, w) + w + seq!['}'] =~= quoted(entries[0].0) + w + seq![':'] + w
        + (spaced_text(entries[0].1, w) + member_tail(entries, w)));
}

/// The text of object members, then the closing brace, reads back as the
/// members, when no key repeats.
#[verifier::rlimit(40)]
proof fn lemma_members_text(
    s: Seq<char>,
    q: int,
    entries: Seq<(Seq<char>, Json)>,
    acc: Seq<(Seq<char>, Json)>,
    w: Seq<char>,
)
    requires
        entries.len() >= 1,
        forall|i: int| 0 <= i < entries.len() ==> well_formed(#[trigger] entries[i].1),
        forall|i: int|
            #![trigger entries[i]]
            0 <= i < entries.len() ==> plain_text(entries[i].0) && quote_free(entries[i].1),
        keys_unique(acc + entries),
        all_ws(w),
        text_at(s, q, spaced_entries(entries, w) + w + seq!['}']),
    ensures
        parse_members(s, q, acc) == Some(
            (Json::Object(acc + entries), q + spaced_entries(entries, w).len() + w.len() + 1),
        ),
    decreases entries, 0int,
{
    let wl = w.len() as int;
    let k0 = entries[0].0;
    let v0 = entries[0].1;
    let kq = quoted(k0);
    let kl = kq.len() as int;
    let t0 = spaced_text(v0, w);
    let tl = t0.len() as int;
    assert(well_formed(v0));
    assert(quote_free(v0) && plain_text(k0));
    lemma_first_char(v0, w);
    let more = entries.len() >= 2;
    let rest = entries.drop_first();
    let z = if more {
        spaced_entries(rest, w) + w + seq!['}']
    } else {
        Seq::empty()
    };
    let tail = member_tail(entries, w);
    if more {
        lemma_entries_first(rest, w);
    }
    lemma_members_layout(entries, w);
    lemma_key_text(s, q, k0, w, t0 + tail);
    let vq = q + kl + 2 * wl + 1;
    lemma_value_after_ws(s, q + kl + wl + 1);
    assert((t0 + tail).subrange(0, tl) =~= t0);
    lemma_text_at_part(s, vq, t0 + tail, 0, t0);
    assert((t0 + tail).subrange(tl, (t0 + tail).len() as int) =~= tail);
    lemma_text_at_part(s, vq, t0 + tail, tl, tail);
    if more {
        lemma_after_part(s, vq + tl, w, ',', z, true);
    } else {
        lemma_after_part(s, vq + tl, w, '}', z, false);
    }
    lemma_value_text(s, vq, v0, w);
    lemma_members_step(s, q, acc, k0, v0, kl, wl, tl, more);
    lemma_insert_new(acc, entries);
    if more {
        assert forall|i: int| 0 <= i < rest.len() implies well_formed(#[trigger] rest[i].1) by {
            assert(rest[i] == entries[i + 1]);
        }
        assert forall|i: int| #![trigger rest[i]]
            0 <= i < rest.len() implies plain_text(rest[i].0) && quote_free(rest[i].1) by {
            assert(rest[i] == entries[i + 1]);
            assert(plain_text(entries[i + 1].0) && quote_free(entries[i + 1].1));
        }
        lemma_members_text(s, vq + tl + 2 * wl + 1, rest, acc.push(entries[0]), w);
    } else {
        assert(acc.push(entries[0]) =~= acc + entries);
    }
}

/// Binding a key keeps the keys distinct.
proof fn lemma_insert_keeps_keys_unique(acc: Seq<(Seq<char>, Json)>, k: Seq<char>, v: Json)
    requires
        keys_unique(acc),
    ensures
        keys_unique(insert_entry(acc, k, v)),
{
    let r = insert_entry(acc, k, v);
    if has_key(acc, k) {
        let i = choose|i: int| 0 <= i < acc.len() && #[trigger] acc[i].0 == k;
        assert forall|a: int, b: int| 0 <= a < b < r.len() implies #[trigger] r[a].0 != #[trigger] r[b].0 by {
            assert(r[a].0 == acc[a].0);
            assert(r[b].0 == acc[b].0);
        }
    } else {
        assert forall|a: int, b: int| 0 <= a < b < r.len() implies #[trigger] r[a].0 != #[trigger] r[b].0 by {
            if b == acc.len() {
                assert(r[a].0 == acc[a].0);
            } else {
                assert(r[a] == acc[a]);
                assert(r[b] == acc[b]);
            }
        }
    }
}

/// Every value the grammar reads is well formed.
proof fn lemma_value_well_formed(s: Seq<char>, p: int)
    ensures
        parse_value(s, p) matches Some((v, _)) ==> well_formed(v),
    decreases s.len() - p, 2int,
{
    let q = skip_ws(s, p);
    lemma_skip_ws(s, p);
    if 0 <= q < s.len() {
        let c = s[q];
        if c == '[' {
            lemma_array_well_formed(s, q);
        } else if c == '{' {
            lemma_object_well_formed(s, q);
        }
    }
}

proof fn lemma_array_well_formed(s: Seq<char>, q: int)
    ensures
        parse_array(s, q) matches Some((v, _)) ==> well_formed(v),
    decreases s.len() - q, 1int,
{
    let r = skip_ws(s, q + 1);
    lemma_skip_ws(s, q + 1);
    if char_at(s, q) == Some('[') && char_at(s, r) != Some(']') {
        lemma_elements_well_formed(s, r, Seq::empty());
    }
}

proof fn lemma_elements_well_formed(s: Seq<char>, p: int, acc: Seq<Json>)
    requires
        forall|i: int| 0 <= i < acc.len() ==> well_formed(#[trigger] acc[i]),
    ensures
        parse_elements(s, p, acc) matches Some((v, _)) ==> well_formed(v),
    decreases s.len() - p, 3int,
{
    lemma_value_well_formed(s, p);
    if let Some((v, r)) = parse_value(s, p) {
        let t = skip_ws(s, r);
        let acc2 = acc.push(v);
        assert forall|i: int| 0 <= i < acc2.len() implies well_formed(#[trigger] acc2[i]) by {
            if i < acc.len() {
                assert(acc2[i] == acc[i]);
            }
        }
        if t > p && char_at(s, t) == Some(',') {
            lemma_skip_ws(s, t + 1);
            lemma_elements_well_formed(s, skip_ws(s, t + 1), acc2);
        }
    }
}

proof fn lemma_object_well_formed(s: Seq<char>, q: int)
    ensures
        parse_object(s, q) matches Some((v, _)) ==> well_formed(v),
    decreases s.len() - q, 1int,
{
    let r = skip_ws(s, q + 1);
    lemma_skip_ws(s, q + 1);
    if char_at(s, q) == Some('{') && char_at(s, r) != Some('}') {
        lemma_members_well_formed(s, r, Seq::empty());
    }
}

proof fn lemma_members_well_formed(s: Seq<char>, p: int, acc: Seq<(Seq<char>, Json)>)
    requires
        keys_unique(acc),
        forall|i: int| 0 <= i < acc.len() ==> well_formed(#[trigger] acc[i].1),
    ensures
        parse_members(s, p, acc) matches Some((v, _)) ==> well_formed(v),
    decreases s.len() - p, 3int,
{
    if let Some((k, r1)) = parse_string(s, p) {
        let r2 = skip_ws(s, r1);
        crate::json_parser::grammar::lemma_string_end(s, p);
        lemma_skip_ws(s, r1);
        if char_at(s, r2) == Some(':') {
            lemma_value_well_formed(s, r2 + 1);
            if let Some((v, r3)) = parse_value(s, r2 + 1) {
                let t = skip_ws(s, r3);
                let acc2 = insert_entry(acc, k, v);
                lemma_insert_keeps_keys_unique(acc, k, v);
                assert forall|i: int| 0 <= i < acc2.len() implies well_formed(#[trigger] acc2[i].1) by {
                    if has_key(acc, k) {
                        let j = choose|j: int| 0 <= j < acc.len() && #[trigger] acc[j].0 == k;
                        if i != j {
                            assert(acc2[i] == acc[i]);
                        }
                    } else if i < acc.len() {
                        assert(acc2[i] == acc[i]);
                    }
                }
                if t > p && char_at(s, t) == Some(',') {
                    lemma_skip_ws(s, t + 1);
                    lemma_members_well_formed(s, skip_ws(s, t + 1), acc2);
                }
            }
        }
    }
}

/// A value's text with whitespace before it, after it, and in every gap
/// between tokens (the same run `w` in each gap) reads back as the value,
/// for every well-formed value whose strings and keys hold no double quote
/// and no backslash.
pub proof fn lemma_whitespace_insensitive(v: Json, w: Seq<char>, before: Seq<char>, after: Seq<char>)
    requires
        well_formed(v),
        quote_free(v),
        all_ws(w),
        all_ws(before),
        all_ws(after),
    ensures
        parse_text(before + spaced_text(v, w) + after) == Some(v),
{
    let x = spaced_text(v, w);
    let s = before + x + after;
    let b = before.len() as int;
    lemma_first_char(v, w);
    assert(text_at(s, 0, before)) by {
        assert forall|i: int| 0 <= i < before.len() implies #[trigger] s[0 + i] == before[i] by {
            assert(s[i] == before[i]);
        }
    }
    assert(s[0 + b] == x[0]);
    lemma_skip_run(s, 0, before);
    lemma_value_after_ws(s, 0);
    assert(text_at(s, b, x)) by {
        assert forall|i: int| 0 <= i < x.len() implies #[trigger] s[b + i] == x[i] by {}
    }
    if b + x.len() < s.len() {
        assert(s[b + x.len()] == after[0]);
    }
    lemma_value_text(s, b, v, w);
}

/// Reading back the compact text of a well-formed value gives the value
/// again, when its strings and keys hold no double quote and no backslash
/// (the encoder writes those as they are).
pub proof fn lemma_encode_round_trip(v: Json)
    requires
        well_formed(v),
        quote_free(v),
    ensures
        parse_text(encode_text(v)) == Some(v),
{
    let e = Seq::<char>::empty();
    lemma_whitespace_insensitive(v, e, e, e);
    assert(e + spaced_text(v, e) + e =~= encode_text(v));
}

/// Every value that the parser reads from a text is well formed, so a value
/// read from a text, whose strings and keys hold no double quote and no
/// backslash, reads back from its compact text as itself.
pub proof fn lemma_parse_encode_round_trip(s: Seq<char>)
    ensures
        parse_text(s) matches Some(v) ==> well_formed(v),
        parse_text(s) matches Some(v) ==> (quote_free(v) ==> parse_text(encode_text(v)) == Some(
            v,
        )),
{
    lemma_value_well_formed(s, 0);
    if let Some(v) = parse_text(s) {
        if quote_free(v) {
            lemma_encode_round_trip(v);
        }
    }
}

/// Parsing depends on the text alone: two results that both meet the
/// contract of [`crate::json_parser::parse`] for the same text are both
/// values with the same model, or both errors with the same message.
pub proof fn lemma_parse_deterministic(s: Seq<char>, r1: Result<JsonValue>, r2: Result<JsonValue>)
    requires
        parse_outcome(s, r1),
        parse_outcome(s, r2),
    ensures
        r1 is Ok <==> r2 is Ok,
        r1 matches Ok(a) ==> (r2 matches Ok(b) && a@ == b@),
        r1 matches Err(a) ==> (r2 matches Err(b) && a.0@ == b.0@),
{
}

/// A text of whitespace alone (or nothing) reads as null.
pub proof fn lemma_blank_is_null(t: Seq<char>)
    requires
        all_ws(t),
    ensures
        parse_text(t) == Some(Json::Null),
{
    lemma_skip_ws(t, 0);
}

/// The four letters of `true`, each in either ASCII case, read as true.
pub proof fn lemma_true_any_case(t: Seq<char>)
    requires
        t.len() == 4,
        forall|i: int| 0 <= i < 4 ==> lower_code(#[trigger] t[i]) == lower_code(true_text()[i]),
    ensures
        parse_text(t) == Some(Json::Bool(true)),
{
    assert(lower_code(t[0]) == lower_code(true_text()[0]));
    assert(skip_ws(t, 0) == 0);
    assert(literal_at(t, 0, true_text(), true)) by {
        assert forall|i: int| 0 <= i < 4 implies chars_match(#[trigger] t[0 + i], true_text()[i], true) by {
            assert(t[0 + i] == t[i]);
        }
    }
}

/// The five letters of `false`, each in either ASCII case, read as false.
pub proof fn lemma_false_any_case(t: Seq<char>)
    requires
        t.len() == 5,
        forall|i: int| 0 <= i < 5 ==> lower_code(#[trigger] t[i]) == lower_code(false_text()[i]),
    ensures
        parse_text(t) == Some(Json::Bool(false)),
{
    assert(lower_code(t[0]) == lower_code(false_text()[0]));
    assert(skip_ws(t, 0) == 0);
    assert(literal_at(t, 0, false_text(), true)) by {
        assert forall|i: int| 0 <= i < 5 implies chars_match(#[trigger] t[0 + i], false_text()[i], true) by {
            assert(t[0 + i] == t[i]);
        }
    }
}

/// `null` is read in lower case only: a text whose first character that is
/// not whitespace is `N` does not parse.
pub proof fn lemma_null_is_lower_case(t: Seq<char>)
    requires
        skip_ws(t, 0) < t.len(),
        t[skip_ws(t, 0)] == 'N',
    ensures
        parse_text(t) is None,
{
    lemma_skip_ws(t, 0);
}

} // verus!
