//! The text form of values: numbers as plain decimals, strings in quotes with
//! escapes, arrays in brackets, and objects in braces with their entries in
//! the ascending order of their names.
use crate::number::decimal_text;
use crate::text::{
    chars_of, lemma_text_order_total, sort_strings, sorted, string_of, text_order, texts,
};
use crate::value::{lemma_values_view, values_view, Json, Object, Value};
use vstd::prelude::*;
use vstd::relations::sorted_by;
use vstd::seq_lib::lemma_sorted_unique;

verus! {

/// The digit of a number below sixteen in base sixteen, in lower case.
pub open spec fn hex_digit(n: int) -> char {
    if n < 10 {
        (48 + n) as char
    } else {
        (87 + n) as char
    }
}

/// A character as it stands in a quoted string: quotes and backslashes get a
/// backslash, control characters their short escape or, where they have none,
/// their code in four digits of base sixteen.
pub open spec fn escaped_char(c: char) -> Seq<char> {
    let code = c as u32;
    if c == '"' {
        seq!['\\', '"']
    } else if c == '\\' {
        seq!['\\', '\\']
    } else if code == 8 {
        seq!['\\', 'b']
    } else if code == 12 {
        seq!['\\', 'f']
    } else if code == 10 {
        seq!['\\', 'n']
    } else if code == 13 {
        seq!['\\', 'r']
    } else if code == 9 {
        seq!['\\', 't']
    } else if code < 32 {
        seq!['\\', 'u', '0', '0', hex_digit(code as int / 16), hex_digit(code as int % 16)]
    } else {
        seq![c]
    }
}

/// A text with each character as it stands in a quoted string.
pub open spec fn escaped(s: Seq<char>) -> Seq<char>
    decreases s.len(),
{
    if s.len() == 0 {
        Seq::empty()
    } else {
        escaped(s.drop_last()) + escaped_char(s.last())
    }
}

/// A text as a quoted string.
pub open spec fn quoted(s: Seq<char>) -> Seq<char> {
    seq!['"'] + escaped(s) + seq!['"']
}

/// Whether `keys` holds the names of `m`, each once, in ascending order.
pub open spec fn is_sorted_keys(keys: Seq<Seq<char>>, m: Map<Seq<char>, Json>) -> bool {
    &&& sorted_by(keys, text_order())
    &&& keys.no_duplicates()
    &&& keys.to_set() == m.dom()
}

/// The names of a map in ascending order.
pub open spec fn sorted_keys(m: Map<Seq<char>, Json>) -> Seq<Seq<char>> {
    choose|keys: Seq<Seq<char>>| is_sorted_keys(keys, m)
}

/// The text form of a value.
pub open spec fn json_text(v: Json) -> Seq<char>
    decreases v, 0nat,
{
    match v {
        Json::Null => seq!['n', 'u', 'l', 'l'],
        Json::Bool(b) => if b {
            seq!['t', 'r', 'u', 'e']
        } else {
            seq!['f', 'a', 'l', 's', 'e']
        },
        Json::Number(d) => decimal_text(d),
        Json::String(s) => quoted(s),
        Json::Array(items) => seq!['['] + items_text(items, items.len()) + seq![']'],
        Json::Object(m) => seq!['{'] + entries_text(m, sorted_keys(m), sorted_keys(m).len())
            + seq!['}'],
    }
}

/// The text forms of the first `n` items with commas between them.
pub open spec fn items_text(items: Seq<Json>, n: nat) -> Seq<char>
    decreases items, n,
{
    if n == 0 || n > items.len() {
        Seq::empty()
    } else if n == 1 {
        json_text(items[0])
    } else {
        items_text(items, (n - 1) as nat) + seq![','] + json_text(items[n - 1])
    }
}

/// The text form of the entry of `m` under `key`: the name in quotes, a colon,
/// and the text form of the value.
pub open spec fn entry_text(m: Map<Seq<char>, Json>, key: Seq<char>) -> Seq<char>
    decreases m, 0nat,
{
    if m.dom().finite() && m.contains_key(key) {
        quoted(key) + seq![':'] + json_text(m[key])
    } else {
        Seq::empty()
    }
}

/// The text forms of the entries under the first `n` keys with commas between
/// them.
pub open spec fn entries_text(m: Map<Seq<char>, Json>, keys: Seq<Seq<char>>, n: nat) -> Seq<char>
    decreases m, n + 1,
{
    if n == 0 || n > keys.len() {
        Seq::empty()
    } else if n == 1 {
        entry_text(m, keys[0])
    } else {
        entries_text(m, keys, (n - 1) as nat) + seq![','] + entry_text(m, keys[n - 1])
    }
}

/// Two sequences without repetition that hold the same items hold each as
/// often as the other.
proof fn lemma_same_multiset(a: Seq<Seq<char>>, b: Seq<Seq<char>>)
    requires
        a.no_duplicates(),
        b.no_duplicates(),
        a.to_set() == b.to_set(),
    ensures
        a.to_multiset() == b.to_multiset(),
{
    a.lemma_multiset_has_no_duplicates();
    b.lemma_multiset_has_no_duplicates();
    assert forall|x: Seq<char>| a.to_multiset().count(x) == b.to_multiset().count(x) by {
        vstd::seq_lib::to_multiset_contains(a, x);
        vstd::seq_lib::to_multiset_contains(b, x);
        assert(a.contains(x) <==> a.to_set().contains(x));
        assert(b.contains(x) <==> b.to_set().contains(x));
        assert(a.to_multiset().contains(x) <==> a.to_multiset().count(x) > 0);
        assert(b.to_multiset().contains(x) <==> b.to_multiset().count(x) > 0);
    }
    assert(a.to_multiset() =~= b.to_multiset());
}

/// The names of a map in ascending order are what sorting any arrangement of
/// its names gives.
pub proof fn lemma_sorted_keys(m: Map<Seq<char>, Json>, names: Seq<Seq<char>>)
    requires
        names.no_duplicates(),
        names.to_set() == m.dom(),
    ensures
        sorted_keys(m) == sorted(names),
        is_sorted_keys(sorted(names), m),
{
    let keys = sorted(names);
    lemma_text_order_total();
    names.lemma_sort_by_ensures(text_order());
    names.lemma_multiset_has_no_duplicates();
    keys.lemma_multiset_has_no_duplicates_conv();
    assert forall|x: Seq<char>| keys.contains(x) <==> names.contains(x) by {
        vstd::seq_lib::to_multiset_contains(keys, x);
        vstd::seq_lib::to_multiset_contains(names, x);
    }
    assert(keys.to_set() =~= names.to_set());
    assert(is_sorted_keys(keys, m));
    let chosen = sorted_keys(m);
    assert(is_sorted_keys(chosen, m));
    lemma_same_multiset(chosen, keys);
    lemma_sorted_unique(chosen, keys, text_order());
}

fn hex_char(n: u32) -> (r: char)
    requires
        n < 16,
    ensures
        r == hex_digit(n as int),
{
    if n < 10 {
        ((48 + n) as u8) as char
    } else {
        ((87 + n) as u8) as char
    }
}

/// Appends a character as it stands in a quoted string.
fn push_escaped_char(out: &mut Vec<char>, c: char)
    ensures
        final(out)@ == old(out)@ + escaped_char(c),
{
    let code: u32 = c as u32;
    if c == '"' {
        out.push('\\');
        out.push('"');
    } else if c == '\\' {
        out.push('\\');
        out.push('\\');
    } else if code == 8 {
        out.push('\\');
        out.push('b');
    } else if code == 12 {
        out.push('\\');
        out.push('f');
    } else if code == 10 {
        out.push('\\');
        out.push('n');
    } else if code == 13 {
        out.push('\\');
        out.push('r');
    } else if code == 9 {
        out.push('\\');
        out.push('t');
    } else if code < 32 {
        out.push('\\');
        out.push('u');
        out.push('0');
        out.push('0');
        out.push(hex_char(code / 16));
        out.push(hex_char(code % 16));
    } else {
        out.push(c);
    }
    proof {
        assert(out@ =~= old(out)@ + escaped_char(c));
    }
}

/// Appends a text as a quoted string.
fn push_quoted(out: &mut Vec<char>, text: &str)
    ensures
        final(out)@ == old(out)@ + quoted(text@),
{
    let chars = chars_of(text);
    out.push('"');
    let mut i: usize = 0;
    proof {
        assert(chars@.take(0) =~= Seq::<char>::empty());
        assert(out@ =~= old(out)@ + seq!['"'] + escaped(chars@.take(0)));
    }
    while i < chars.len()
        invariant
            i <= chars.len(),
            out@ == old(out)@ + seq!['"'] + escaped(chars@.take(i as int)),
        decreases chars.len() - i,
    {
        let ghost before = out@;
        push_escaped_char(out, chars[i]);
        proof {
            assert(chars@.take(i + 1).drop_last() =~= chars@.take(i as int));
            assert(out@ =~= old(out)@ + seq!['"'] + escaped(chars@.take(i + 1)));
        }
        i += 1;
    }
    out.push('"');
    proof {
        assert(chars@.take(chars.len() as int) =~= chars@);
        assert(out@ =~= old(out)@ + quoted(text@));
    }
}

/// Appends the characters of a text.
fn push_text(out: &mut Vec<char>, text: &str)
    ensures
        final(out)@ == old(out)@ + text@,
{
    let chars = chars_of(text);
    let mut i: usize = 0;
    proof {
        assert(out@ =~= old(out)@ + chars@.take(0));
    }
    while i < chars.len()
        invariant
            i <= chars.len(),
            out@ == old(out)@ + chars@.take(i as int),
        decreases chars.len() - i,
    {
        out.push(chars[i]);
        proof {
            assert(out@ =~= old(out)@ + chars@.take(i + 1));
        }
        i += 1;
    }
    proof {
        assert(chars@.take(chars.len() as int) =~= chars@);
    }
}

/// The names of an object in ascending order.
fn sorted_names(object: &Object) -> (r: Vec<String>)
    ensures
        texts(r@) == sorted_keys(object@),
        is_sorted_keys(texts(r@), object@),
{
    let n = object.len();
    let mut names: Vec<String> = Vec::new();
    let mut i: usize = 0;
    while i < n
        invariant
            i <= n,
            n == object.names().len(),
            names.len() == i,
            forall|j: int| 0 <= j < i ==> (#[trigger] names[j])@ == object.names()[j],
        decreases n - i,
    {
        names.push(object.key_at(i).clone());
        i += 1;
    }
    proof {
        assert(texts(names@) =~= object.names());
        assert(object.names().to_set() =~= object@.dom());
        lemma_sorted_keys(object@, object.names());
    }
    sort_strings(&mut names);
    names
}

/// Appends the text form of a value.
pub fn write_value(v: &Value, out: &mut Vec<char>)
    ensures
        final(out)@ == old(out)@ + json_text(v@),
    decreases v@,
{
    match v {
        Value::Null => {
            out.push('n');
            out.push('u');
            out.push('l');
            out.push('l');
            proof {
                assert(out@ =~= old(out)@ + json_text(v@));
            }
        },
        Value::Bool(b) => {
            if *b {
                out.push('t');
                out.push('r');
                out.push('u');
                out.push('e');
            } else {
                out.push('f');
                out.push('a');
                out.push('l');
                out.push('s');
                out.push('e');
            }
            proof {
                assert(out@ =~= old(out)@ + json_text(v@));
            }
        },
        Value::Number(n) => {
            let text = n.to_text();
            push_text(out, text.as_str());
        },
        Value::String(s) => {
            push_quoted(out, s.as_str());
        },
        Value::Array(items) => {
            out.push('[');
            let ghost views = values_view(items@);
            proof {
                lemma_values_view(items@);
                assert(out@ =~= old(out)@ + seq!['['] + items_text(views, 0));
            }
            let mut i: usize = 0;
            while i < items.len()
                invariant
                    i <= items.len(),
                    views == values_view(items@),
                    views.len() == items.len(),
                    v@ == Json::Array(views),
                    forall|j: int| 0 <= j < items.len() ==> #[trigger] views[j] == items[j]@,
                    out@ == old(out)@ + seq!['['] + items_text(views, i as nat),
                decreases items.len() - i,
            {
                if i > 0 {
                    out.push(',');
                }
                let ghost before = out@;
                proof {
                    assert(v@->Array_0[i as int] == items[i as int]@);
                }
                write_value(&items[i], out);
                proof {
                    assert(out@ =~= old(out)@ + seq!['['] + items_text(views, (i + 1) as nat));
                }
                i += 1;
            }
            out.push(']');
            proof {
                assert(out@ =~= old(out)@ + json_text(v@));
            }
        },
        Value::Object(object) => {
            let keys = sorted_names(object);
            let n = object.len();
            out.push('{');
            let ghost names = texts(keys@);
            proof {
                assert(out@ =~= old(out)@ + seq!['{'] + entries_text(object@, names, 0));
            }
            let mut i: usize = 0;
            while i < keys.len()
                invariant
                    i <= keys.len(),
                    names == texts(keys@),
                    names == sorted_keys(object@),
                    v@ == Json::Object(object@),
                    object@.dom().finite(),
                    out@ == old(out)@ + seq!['{'] + entries_text(object@, names, i as nat),
                decreases keys.len() - i,
            {
                if i > 0 {
                    out.push(',');
                }
                let ghost before = out@;
                match object.get(keys[i].as_str()) {
                    Some(value) => {
                        push_quoted(out, keys[i].as_str());
                        out.push(':');
                        proof {
                            assert(v@->Object_0[names[i as int]] == value@);
                        }
                        write_value(value, out);
                        proof {
                            assert(out@ =~= before + entry_text(object@, names[i as int]));
                        }
                    },
                    None => {
                        proof {
                            assert(out@ =~= before + entry_text(object@, names[i as int]));
                        }
                    },
                }
                proof {
                    assert(out@ =~= old(out)@ + seq!['{'] + entries_text(
                        object@,
                        names,
                        (i + 1) as nat,
                    ));
                }
                i += 1;
            }
            out.push('}');
            proof {
                assert(out@ =~= old(out)@ + json_text(v@));
            }
        },
    }
}

impl Value {
    /// The text form of the value.
    pub fn to_text(&self) -> (r: String)
        ensures
            r@ == json_text(self@),
    {
        let mut out: Vec<char> = Vec::new();
        write_value(self, &mut out);
        proof {
            assert(out@ =~= json_text(self@));
        }
        string_of(&out)
    }
}

} // verus!
