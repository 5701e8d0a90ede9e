//! JSON objects, one to a line.
//!
//! A line is made of pieces: text, and numbers that are written out when the line is
//! printed.

use vstd::prelude::*;

use crate::number::Double;
use crate::text::{append_signed, decimal, law_decimal_is_digits, signed_decimal};

verus! {

/// A value of an object's field.
#[derive(Debug)]
pub enum Value {
    Text(String),
    Integer(i32),
    Boolean(bool),
    Number(Double),
}

/// A field of an object.
#[derive(Debug)]
pub struct Field {
    pub name: &'static str,
    pub value: Value,
}

/// A piece of a line.
#[derive(Debug, PartialEq, Eq)]
pub enum JsonPiece {
    Text(String),
    Number(Double),
}

/// What a value stands for.
pub enum ValueView {
    Text(Seq<char>),
    Integer(int),
    Boolean(bool),
    Number(Double),
}

/// What a piece stands for.
pub enum PieceView {
    Text(Seq<char>),
    Number(Double),
}

impl View for Value {
    type V = ValueView;

    open spec fn view(&self) -> ValueView {
        match self {
            Value::Text(s) => ValueView::Text(s@),
            Value::Integer(n) => ValueView::Integer(*n as int),
            Value::Boolean(b) => ValueView::Boolean(*b),
            Value::Number(x) => ValueView::Number(*x),
        }
    }
}

impl View for Field {
    type V = (Seq<char>, ValueView);

    open spec fn view(&self) -> (Seq<char>, ValueView) {
        (self.name@, self.value@)
    }
}

impl View for JsonPiece {
    type V = PieceView;

    open spec fn view(&self) -> PieceView {
        match self {
            JsonPiece::Text(s) => PieceView::Text(s@),
            JsonPiece::Number(x) => PieceView::Number(*x),
        }
    }
}

/// A hexadecimal digit, in lower case.
pub open spec fn hex_digit(d: int) -> char {
    if d < 10 {
        (48 + d) as char
    } else {
        (87 + d) as char
    }
}

/// A character inside a JSON string: quotes, backslashes and control characters are
/// escaped.
pub open spec fn escaped_char(c: char) -> Seq<char> {
    let code = c as int;
    if code == 0x22 {
        seq!['\\', '"']
    } else if code == 0x5c {
        seq!['\\', '\\']
    } else if code == 0x08 {
        seq!['\\', 'b']
    } else if code == 0x09 {
        seq!['\\', 't']
    } else if code == 0x0a {
        seq!['\\', 'n']
    } else if code == 0x0c {
        seq!['\\', 'f']
    } else if code == 0x0d {
        seq!['\\', 'r']
    } else if code < 0x20 {
        seq!['\\', 'u', '0', '0', hex_digit(code / 16), hex_digit(code % 16)]
    } else {
        seq![c]
    }
}

pub open spec fn escaped(s: Seq<char>) -> Seq<char>
    decreases s.len(),
{
    if s.len() == 0 {
        Seq::empty()
    } else {
        escaped(s.drop_last()) + escaped_char(s.last())
    }
}

/// A JSON string, with its quotes.
pub open spec fn json_string(s: Seq<char>) -> Seq<char> {
    seq!['"'] + escaped(s) + seq!['"']
}

/// Calls `serde_json::to_string` on a `str`.
///
/// Trusted: it succeeds, and gives the string in quotes, with quotes, backslashes
/// and control characters escaped and everything else left as it is.
#[verifier::external_body]
fn quoted(s: &str) -> (r: String)
    ensures
        r@ == json_string(s@),
{
    serde_json::to_string(s).unwrap()
}

/// How a value is written.
pub open spec fn value_piece(v: ValueView) -> PieceView {
    match v {
        ValueView::Text(s) => PieceView::Text(json_string(s)),
        ValueView::Integer(n) => PieceView::Text(signed_decimal(n)),
        ValueView::Boolean(b) => PieceView::Text(
            if b {
                "true"@
            } else {
                "false"@
            },
        ),
        ValueView::Number(x) => PieceView::Number(x),
    }
}

/// What stands before the value of field `i`.
pub open spec fn name_piece(i: int, name: Seq<char>) -> PieceView {
    PieceView::Text(
        (if i == 0 {
            "{"@
        } else {
            ","@
        }) + json_string(name) + ":"@,
    )
}

/// The line of an object with the given fields: for each its name and its value.
pub open spec fn line_of(fields: Seq<(Seq<char>, ValueView)>) -> Seq<PieceView> {
    object_start(fields).push(
        PieceView::Text(
            if fields.len() == 0 {
                "{}"@
            } else {
                "}"@
            },
        ),
    )
}

/// An object that is not yet closed.
pub open spec fn object_start(fields: Seq<(Seq<char>, ValueView)>) -> Seq<PieceView>
    decreases fields.len(),
{
    if fields.len() == 0 {
        Seq::empty()
    } else {
        let i = fields.len() - 1;
        object_start(fields.drop_last()).push(name_piece(i, fields[i].0)).push(value_piece(fields[i].1))
    }
}

pub open spec fn views_of<T: View>(items: Seq<T>) -> Seq<T::V> {
    items.map_values(|x: T| x@)
}

fn write_value(v: &Value) -> (p: JsonPiece)
    ensures
        p@ == value_piece(v@),
{
    match v {
        Value::Text(s) => JsonPiece::Text(quoted(s.as_str())),
        Value::Integer(n) => {
            let mut s: String = String::new();
            append_signed(&mut s, *n);
            assert(s@ == signed_decimal(*n as int));
            JsonPiece::Text(s)
        },
        Value::Boolean(b) => {
            let mut s: String = String::new();
            if *b {
                s.append("true");
                assert(s@ == "true"@);
            } else {
                s.append("false");
                assert(s@ == "false"@);
            }
            JsonPiece::Text(s)
        },
        Value::Number(x) => JsonPiece::Number(*x),
    }
}

/// Writes an object as a line, without the line's end.
pub fn write_object(fields: &Vec<Field>) -> (line: Vec<JsonPiece>)
    ensures
        views_of(line@) == line_of(views_of(fields@)),
{
    let ghost all = views_of(fields@);
    let mut line: Vec<JsonPiece> = Vec::new();
    let mut i: usize = 0;
    assert(all.take(0) == Seq::<(Seq<char>, ValueView)>::empty());
    assert(views_of(line@) == Seq::<PieceView>::empty());
    while i < fields.len()
        invariant
            i <= fields.len(),
            all == views_of(fields@),
            views_of(line@) == object_start(all.take(i as int)),
        decreases fields.len() - i,
    {
        let mut s: String = String::new();
        if i == 0 {
            s.append("{");
            assert(s@ == "{"@);
        } else {
            s.append(",");
            assert(s@ == ","@);
        }
        let name: String = quoted(fields[i].name);
        s.append(name.as_str());
        s.append(":");
        let ghost before = line@;
        let value: JsonPiece = write_value(&fields[i].value);
        line.push(JsonPiece::Text(s));
        line.push(value);
        proof {
            let now = all.take(i + 1);
            assert(now.drop_last() == all.take(i as int));
            assert(now[i as int] == fields[i as int]@);
            assert(views_of(line@) == views_of(before).push(name_piece(i as int, now[i as int].0)).push(
                value_piece(now[i as int].1),
            ));
        }
        i = i + 1;
    }
    assert(all.take(i as int) == all);
    let ghost before = line@;
    let mut s: String = String::new();
    if i == 0 {
        s.append("{}");
        assert(s@ == "{}"@);
    } else {
        s.append("}");
        assert(s@ == "}"@);
    }
    line.push(JsonPiece::Text(s));
    assert(views_of(line@) == line_of(all));
    line
}

/// No control character, and so no end of a line.
pub open spec fn is_one_line(s: Seq<char>) -> bool {
    forall|i: int| 0 <= i < s.len() ==> (#[trigger] s[i]) as int >= 0x20
}

pub open spec fn piece_is_one_line(p: PieceView) -> bool {
    p matches PieceView::Text(s) ==> is_one_line(s)
}

proof fn lemma_escaped_char_is_one_line(c: char)
    ensures
        is_one_line(escaped_char(c)),
{
    let code = c as int;
    if code < 0x20 {
        assert(0 <= code / 16 < 2 && 0 <= code % 16 < 16);
        assert(hex_digit(code / 16) as int >= 0x20);
        assert(hex_digit(code % 16) as int >= 0x20);
    }
    let e = escaped_char(c);
    assert forall|i: int| 0 <= i < e.len() implies (#[trigger] e[i]) as int >= 0x20 by {}
}

proof fn lemma_escaped_is_one_line(s: Seq<char>)
    ensures
        is_one_line(escaped(s)),
        is_one_line(json_string(s)),
    decreases s.len(),
{
    if s.len() > 0 {
        lemma_escaped_is_one_line(s.drop_last());
        lemma_escaped_char_is_one_line(s.last());
    }
}

proof fn lemma_value_is_one_line(v: ValueView)
    ensures
        piece_is_one_line(value_piece(v)),
{
    reveal_strlit("true");
    reveal_strlit("false");
    match v {
        ValueView::Text(s) => {
            lemma_escaped_is_one_line(s);
        },
        ValueView::Integer(n) => {
            law_decimal_is_digits(if n < 0 {
                (-n) as nat
            } else {
                n as nat
            });
        },
        _ => {},
    }
}

proof fn lemma_start_is_one_line(fields: Seq<(Seq<char>, ValueView)>)
    ensures
        forall|k: int| 0 <= k < object_start(fields).len() ==> piece_is_one_line(#[trigger] object_start(fields)[k]),
    decreases fields.len(),
{
    if fields.len() > 0 {
        let i = fields.len() - 1;
        lemma_start_is_one_line(fields.drop_last());
        lemma_escaped_is_one_line(fields[i].0);
        lemma_value_is_one_line(fields[i].1);
        reveal_strlit("{");
        reveal_strlit(",");
        reveal_strlit(":");
        assert(piece_is_one_line(name_piece(i, fields[i].0)));
        let before = object_start(fields.drop_last());
        let all = object_start(fields);
        assert forall|k: int| 0 <= k < all.len() implies piece_is_one_line(#[trigger] all[k]) by {
            if k < before.len() {
                assert(all[k] == before[k]);
            }
        }
    }
}

/// An object is written on one line, whatever its fields hold.
pub proof fn law_object_is_one_line(fields: Seq<(Seq<char>, ValueView)>)
    ensures
        forall|k: int| 0 <= k < line_of(fields).len() ==> piece_is_one_line(#[trigger] line_of(fields)[k]),
{
    lemma_start_is_one_line(fields);
    reveal_strlit("}");
    reveal_strlit("{}");
}

proof fn lemma_start(fields: Seq<(Seq<char>, ValueView)>, i: int)
    requires
        0 <= i < fields.len(),
    ensures
        object_start(fields).len() == 2 * fields.len(),
        object_start(fields)[2 * i] == name_piece(i, fields[i].0),
        object_start(fields)[2 * i + 1] == value_piece(fields[i].1),
    decreases fields.len(),
{
    let rest = fields.drop_last();
    if rest.len() > 0 {
        lemma_start(
            rest,
            if i < rest.len() {
                i
            } else {
                0
            },
        );
    } else {
        assert(object_start(rest) == Seq::<PieceView>::empty());
    }
}

/// An object is written field by field, in order: a brace or a comma, the name in quotes
/// and a colon; then the value. A brace ends it.
pub proof fn lemma_line(fields: Seq<(Seq<char>, ValueView)>, i: int)
    requires
        0 <= i < fields.len(),
    ensures
        line_of(fields).len() == 2 * fields.len() + 1,
        line_of(fields)[2 * i] == PieceView::Text(
            if i == 0 {
                "{"@ + json_string(fields[i].0) + ":"@
            } else {
                ","@ + json_string(fields[i].0) + ":"@
            },
        ),
        line_of(fields)[2 * i + 1] == value_piece(fields[i].1),
        line_of(fields)[2 * fields.len() as int] == PieceView::Text("}"@),
{
    lemma_start(fields, i);
}

/// An object without fields is a pair of braces. Any other is written field by field, in
/// order: a brace or a comma, the name in quotes and a colon; then the value, a text in
/// quotes, an integer in decimal, a switch as `true` or `false`, and any other number as
/// it is. A brace ends it.
pub proof fn law_object_holds_its_fields(fields: Vec<Field>, line: Vec<JsonPiece>, i: int)
    requires
        call_ensures(write_object, (&fields,), line),
    ensures
        fields.len() == 0 ==> line.len() == 1 && line@[0]@ == PieceView::Text("{}"@),
        0 <= i < fields.len() ==> {
            &&& line.len() == 2 * fields.len() + 1
            &&& line@[2 * i]@ == PieceView::Text(
                if i == 0 {
                    "{"@ + json_string(fields@[i].name@) + ":"@
                } else {
                    ","@ + json_string(fields@[i].name@) + ":"@
                },
            )
            &&& match fields@[i].value {
                Value::Text(s) => line@[2 * i + 1]@ == PieceView::Text(json_string(s@)),
                Value::Integer(n) => if n < 0 {
                    line@[2 * i + 1]@ == PieceView::Text(seq!['-'] + decimal((-n) as nat))
                } else {
                    line@[2 * i + 1]@ == PieceView::Text(decimal(n as nat))
                },
                Value::Boolean(b) => line@[2 * i + 1]@ == PieceView::Text(
                    if b {
                        "true"@
                    } else {
                        "false"@
                    },
                ),
                Value::Number(x) => line@[2 * i + 1] == JsonPiece::Number(x),
            }
            &&& line@[2 * fields.len() as int]@ == PieceView::Text("}"@)
        },
{
    let all = views_of(fields@);
    let views = views_of(line@);
    assert(views.len() == line.len());
    assert(forall|k: int| 0 <= k < line.len() ==> #[trigger] line@[k]@ == views[k]);
    if 0 <= i < fields.len() {
        assert(all[i] == fields@[i]@);
        lemma_line(all, i);
        let piece = line@[2 * i + 1];
        assert(piece@ == views[2 * i + 1]);
    }
}

/// What a string stands for once its escapes are undone.
pub open spec fn unescaped(s: Seq<char>) -> Seq<char>
    decreases s.len(),
{
    if s.len() == 0 {
        Seq::empty()
    } else if s[0] != '\\' {
        seq![s[0]] + unescaped(s.skip(1))
    } else if s.len() >= 6 && s[1] == 'u' {
        seq![(16 * hex_value(s[4]) + hex_value(s[5])) as char] + unescaped(s.skip(6))
    } else if s.len() >= 2 {
        seq![named(s[1])] + unescaped(s.skip(2))
    } else {
        s
    }
}

/// The value of a hexadecimal digit.
pub open spec fn hex_value(c: char) -> int {
    if c as int <= 57 {
        c as int - 48
    } else {
        c as int - 87
    }
}

/// The character that an escape of one letter stands for.
pub open spec fn named(c: char) -> char {
    if c == 'b' {
        0x08 as char
    } else if c == 't' {
        0x09 as char
    } else if c == 'n' {
        0x0a as char
    } else if c == 'f' {
        0x0c as char
    } else if c == 'r' {
        0x0d as char
    } else {
        c
    }
}

proof fn lemma_unescape_first(c: char, rest: Seq<char>)
    ensures
        unescaped(escaped_char(c) + rest) == seq![c] + unescaped(rest),
{
    let e = escaped_char(c);
    let all = e + rest;
    let code = c as int;
    assert(all.skip(e.len() as int) == rest);
    if code == 0x22 || code == 0x5c || code == 0x08 || code == 0x09 || code == 0x0a || code == 0x0c || code == 0x0d {
        assert(all[0] == '\\' && all[1] == e[1]);
        assert(all.len() >= 2);
        assert(e[1] != 'u');
        assert(named(e[1]) == c);
    } else if code < 0x20 {
        assert(0 <= code / 16 < 2 && 0 <= code % 16 < 16);
        assert(all[0] == '\\' && all[1] == 'u' && all[4] == e[4] && all[5] == e[5]);
        assert(hex_value(e[4]) == code / 16 && hex_value(e[5]) == code % 16);
        assert((16 * (code / 16) + code % 16) as char == c);
    } else {
        assert(all[0] == c);
    }
}

proof fn lemma_unescape(s: Seq<char>, rest: Seq<char>)
    ensures
        unescaped(escaped(s) + rest) == s + unescaped(rest),
    decreases s.len(),
{
    if s.len() == 0 {
        assert(escaped(s) + rest == rest);
        assert(s + unescaped(rest) == unescaped(rest));
    } else {
        let (front, last) = (s.drop_last(), s.last());
        lemma_unescape_first(last, rest);
        lemma_unescape(front, escaped_char(last) + rest);
        assert(escaped(s) + rest == escaped(front) + (escaped_char(last) + rest));
        assert(s + unescaped(rest) == front + (seq![last] + unescaped(rest)));
    }
}

/// A text is read back as it was written: undoing the escapes between the quotes gives
/// it again.
pub proof fn law_text_is_read_back(s: Seq<char>)
    ensures
        json_string(s).len() >= 2,
        json_string(s)[0] == '"',
        json_string(s).last() == '"',
        unescaped(json_string(s).subrange(1, json_string(s).len() - 1)) == s,
{
    let e = escaped(s);
    assert(json_string(s).subrange(1, json_string(s).len() - 1) == e);
    lemma_unescape(s, Seq::empty());
    assert(e + Seq::<char>::empty() == e);
    assert(s + unescaped(Seq::empty()) == s);
}

} // verus!
