//! JSON text as a reader sees it: values out of bytes, and how the pieces of
//! written text read back.
use vstd::prelude::*;
use vstd::utf8::{is_ascii_chars, is_ascii_chars_encode_utf8};

use crate::serialize::json_text::{
    commas, escaped, escaped_byte, get_quoted, joined, law_quoted_round_trip, list, num, quoted,
    utf8,
};
use crate::serialize::stream::{holds_at, lemma_holds_byte, lemma_holds_two};
use crate::serialize::text::{decimal, decimal_value, law_decimal, signed_decimal};

verus! {

/// A JSON value.  A number is kept as its text; an object keeps its members in
/// the order in which they stand.
pub enum JsonValue {
    Number(Seq<u8>),
    Text(Seq<u8>),
    List(Seq<JsonValue>),
    Object(Seq<(Seq<u8>, JsonValue)>),
}

// --- reading ---

/// The byte can stand in a number.
pub open spec fn is_number_byte(b: u8) -> bool {
    48 <= b <= 57 || b == 43 || b == 45 || b == 46 || b == 69 || b == 101
}

/// Where the run of number bytes that starts at the position ends.
pub open spec fn number_end(bytes: Seq<u8>, pos: int) -> int
    decreases bytes.len() - pos,
{
    if 0 <= pos < bytes.len() && is_number_byte(bytes[pos]) {
        number_end(bytes, pos + 1)
    } else {
        pos
    }
}

/// The byte at the position, or -1 where there is none.
pub open spec fn byte_at(bytes: Seq<u8>, pos: int) -> int {
    if 0 <= pos < bytes.len() {
        bytes[pos] as int
    } else {
        -1
    }
}

/// The value that starts at the position, and where it ends.
pub open spec fn get_value(bytes: Seq<u8>, pos: int) -> Option<(JsonValue, int)>
    decreases bytes.len() - pos, 1int,
{
    let b = byte_at(bytes, pos);
    if b == 34 {
        match get_quoted(bytes, pos) {
            Some((s, end)) => Some((JsonValue::Text(s), end)),
            None => None,
        }
    } else if b == 91 {
        if byte_at(bytes, pos + 1) == 93 {
            Some((JsonValue::List(Seq::empty()), pos + 2))
        } else {
            match get_items(bytes, pos + 1) {
                Some((items, end)) => Some((JsonValue::List(items), end)),
                None => None,
            }
        }
    } else if b == 123 {
        if byte_at(bytes, pos + 1) == 125 {
            Some((JsonValue::Object(Seq::empty()), pos + 2))
        } else {
            match get_members(bytes, pos + 1) {
                Some((members, end)) => Some((JsonValue::Object(members), end)),
                None => None,
            }
        }
    } else if b >= 0 && is_number_byte(b as u8) {
        let end = number_end(bytes, pos);
        Some((JsonValue::Number(bytes.subrange(pos, end)), end))
    } else {
        None
    }
}

/// The items of a list from the position on, up to the closing bracket.
pub open spec fn get_items(bytes: Seq<u8>, pos: int) -> Option<(Seq<JsonValue>, int)>
    decreases bytes.len() - pos, 2int,
{
    if pos < 0 || pos >= bytes.len() {
        None
    } else {
        match get_value(bytes, pos) {
            None => None,
            Some((v, end)) => if byte_at(bytes, end) == 93 {
                Some((seq![v], end + 1))
            } else if byte_at(bytes, end) == 44 && end > pos {
                match get_items(bytes, end + 1) {
                    None => None,
                    Some((rest, last)) => Some((seq![v] + rest, last)),
                }
            } else {
                None
            },
        }
    }
}

/// The members of an object from the position on, up to the closing brace.
pub open spec fn get_members(bytes: Seq<u8>, pos: int) -> Option<
    (Seq<(Seq<u8>, JsonValue)>, int),
>
    decreases bytes.len() - pos, 2int,
{
    if pos < 0 || pos >= bytes.len() {
        None
    } else {
        match get_quoted(bytes, pos) {
            None => None,
            Some((name, colon)) => if colon <= pos || byte_at(bytes, colon) != 58 {
                None
            } else {
                match get_value(bytes, colon + 1) {
                    None => None,
                    Some((v, end)) => if byte_at(bytes, end) == 125 {
                        Some((seq![(name, v)], end + 1))
                    } else if byte_at(bytes, end) == 44 && end > pos {
                        match get_members(bytes, end + 1) {
                            None => None,
                            Some((rest, last)) => Some((seq![(name, v)] + rest, last)),
                        }
                    } else {
                        None
                    },
                }
            },
        }
    }
}

/// The value of a whole text.
pub open spec fn parsed(bytes: Seq<u8>) -> Option<JsonValue> {
    match get_value(bytes, 0) {
        Some((v, end)) => if end == bytes.len() {
            Some(v)
        } else {
            None
        },
        None => None,
    }
}

// --- what a value holds ---

/// The first member of that name.
pub open spec fn first_named(members: Seq<(Seq<u8>, JsonValue)>, name: Seq<u8>) -> Option<JsonValue>
    decreases members.len(),
{
    if members.len() == 0 {
        None
    } else if members[0].0 == name {
        Some(members[0].1)
    } else {
        first_named(members.skip(1), name)
    }
}

/// The member of an object that has that name.
pub open spec fn member(v: JsonValue, name: Seq<char>) -> Option<JsonValue> {
    match v {
        JsonValue::Object(members) => first_named(members, utf8(name)),
        _ => None,
    }
}

/// The bytes as characters.
pub open spec fn letters(raw: Seq<u8>) -> Seq<char> {
    Seq::new(raw.len(), |i: int| raw[i] as char)
}

/// The bytes are decimal digits, one at least.
pub open spec fn all_digits(raw: Seq<u8>) -> bool {
    raw.len() > 0 && forall|i: int| 0 <= i < raw.len() ==> 48 <= #[trigger] raw[i] <= 57
}

/// The whole number that the text of a number stands for.
pub open spec fn whole(raw: Seq<u8>) -> Option<int> {
    if all_digits(raw) {
        Some(decimal_value(letters(raw)))
    } else if raw.len() > 0 && raw[0] == 45 && all_digits(raw.skip(1)) {
        Some(-decimal_value(letters(raw.skip(1))))
    } else {
        None
    }
}

/// The whole number that a value is.
pub open spec fn as_int(v: JsonValue) -> Option<int> {
    match v {
        JsonValue::Number(raw) => whole(raw),
        _ => None,
    }
}

/// The items of a list, each read.
pub open spec fn read_list<T>(v: JsonValue, read: spec_fn(JsonValue) -> Option<T>) -> Option<
    Seq<T>,
> {
    match v {
        JsonValue::List(items) => if forall|i: int|
            0 <= i < items.len() ==> read(#[trigger] items[i]) is Some {
            Some(Seq::new(items.len(), |i: int| read(items[i])->0))
        } else {
            None
        },
        _ => None,
    }
}

// --- how written text reads back ---

/// No number goes on at the position.
pub open spec fn ends_token(bytes: Seq<u8>, pos: int) -> bool {
    byte_at(bytes, pos) < 0 || !is_number_byte(bytes[pos])
}

/// Wherever the text stands, unless more digits follow, a reader finds the
/// value there, and its end at the end of the text.
#[verifier::opaque]
pub open spec fn reads_as(text: Seq<u8>, v: JsonValue) -> bool {
    &&& text.len() > 0
    &&& text[0] != 93
    &&& forall|bytes: Seq<u8>, pos: int| #[trigger]
        holds_at(bytes, pos, text) && ends_token(bytes, pos + text.len()) ==> get_value(bytes, pos)
            == Some((v, pos + text.len()))
}

/// The text holds these items and the closing bracket.
#[verifier::opaque]
pub open spec fn reads_as_items(text: Seq<u8>, items: Seq<JsonValue>) -> bool {
    &&& text.len() > 0
    &&& text[0] != 93
    &&& forall|bytes: Seq<u8>, pos: int| #[trigger]
        holds_at(bytes, pos, text) ==> get_items(bytes, pos) == Some((items, pos + text.len()))
}

/// The text holds these members and the closing brace.
#[verifier::opaque]
pub open spec fn reads_as_members(text: Seq<u8>, members: Seq<(Seq<u8>, JsonValue)>) -> bool {
    &&& text.len() > 0
    &&& text[0] == 34
    &&& forall|bytes: Seq<u8>, pos: int| #[trigger]
        holds_at(bytes, pos, text) ==> get_members(bytes, pos) == Some((members, pos + text.len()))
}

proof fn lemma_number_end(bytes: Seq<u8>, pos: int, text: Seq<u8>, i: int)
    requires
        holds_at(bytes, pos, text),
        0 <= i <= text.len(),
        forall|k: int| 0 <= k < text.len() ==> is_number_byte(#[trigger] text[k]),
        ends_token(bytes, pos + text.len()),
    ensures
        number_end(bytes, pos + i) == pos + text.len(),
    decreases text.len() - i,
{
    if i < text.len() {
        lemma_holds_byte(bytes, pos, text, i);
        lemma_number_end(bytes, pos, text, i + 1);
    }
}

/// A row of number bytes reads as a number.
pub proof fn lemma_number_reads(text: Seq<u8>)
    requires
        text.len() > 0,
        forall|k: int| 0 <= k < text.len() ==> is_number_byte(#[trigger] text[k]),
    ensures
        reads_as(text, JsonValue::Number(text)),
{
    reveal(reads_as);
    assert forall|bytes: Seq<u8>, pos: int| #[trigger]
        holds_at(bytes, pos, text) && ends_token(bytes, pos + text.len()) implies get_value(
        bytes,
        pos,
    ) == Some((JsonValue::Number(text), pos + text.len())) by {
        lemma_holds_byte(bytes, pos, text, 0);
        lemma_number_end(bytes, pos, text, 0);
    }
}

/// A quoted text reads as the text.
pub proof fn lemma_text_reads(s: Seq<u8>)
    ensures
        reads_as(quoted(s), JsonValue::Text(s)),
        quoted(s)[0] == 34,
{
    reveal(reads_as);
    let text = quoted(s);
    assert forall|bytes: Seq<u8>, pos: int| #[trigger]
        holds_at(bytes, pos, text) && ends_token(bytes, pos + text.len()) implies get_value(
        bytes,
        pos,
    ) == Some((JsonValue::Text(s), pos + text.len())) by {
        lemma_holds_byte(bytes, pos, text, 0);
        law_quoted_round_trip(bytes, pos, s);
    }
}

/// The last item of a list.
pub proof fn lemma_last_item(text: Seq<u8>, v: JsonValue)
    requires
        reads_as(text, v),
    ensures
        reads_as_items(text + seq![93u8], seq![v]),
{
    reveal(reads_as);
    reveal(reads_as_items);
    let whole = text + seq![93u8];
    assert forall|bytes: Seq<u8>, pos: int| #[trigger]
        holds_at(bytes, pos, whole) implies get_items(bytes, pos) == Some(
        (seq![v], pos + whole.len()),
    ) by {
        lemma_holds_two(bytes, pos, text, seq![93u8]);
        lemma_holds_byte(bytes, pos + text.len(), seq![93u8], 0);
    }
}

/// An item before others.
pub proof fn lemma_more_items(text: Seq<u8>, v: JsonValue, rest: Seq<u8>, items: Seq<JsonValue>)
    requires
        reads_as(text, v),
        reads_as_items(rest, items),
    ensures
        reads_as_items(text + seq![44u8] + rest, seq![v] + items),
{
    reveal(reads_as);
    reveal(reads_as_items);
    let whole = text + seq![44u8] + rest;
    assert forall|bytes: Seq<u8>, pos: int| #[trigger]
        holds_at(bytes, pos, whole) implies get_items(bytes, pos) == Some(
        (seq![v] + items, pos + whole.len()),
    ) by {
        lemma_holds_two(bytes, pos, text + seq![44u8], rest);
        lemma_holds_two(bytes, pos, text, seq![44u8]);
        lemma_holds_byte(bytes, pos + text.len(), seq![44u8], 0);
    }
}

/// Items in brackets.
pub proof fn lemma_items_in_brackets(text: Seq<u8>, items: Seq<JsonValue>)
    requires
        reads_as_items(text, items),
    ensures
        reads_as(seq![91u8] + text, JsonValue::List(items)),
{
    reveal(reads_as);
    reveal(reads_as_items);
    let whole = seq![91u8] + text;
    assert forall|bytes: Seq<u8>, pos: int| #[trigger]
        holds_at(bytes, pos, whole) && ends_token(bytes, pos + whole.len()) implies get_value(
        bytes,
        pos,
    ) == Some((JsonValue::List(items), pos + whole.len())) by {
        lemma_holds_two(bytes, pos, seq![91u8], text);
        lemma_holds_byte(bytes, pos, seq![91u8], 0);
        lemma_holds_byte(bytes, pos + 1, text, 0);
    }
}

/// No items.
pub proof fn lemma_no_items()
    ensures
        reads_as(seq![91u8, 93u8], JsonValue::List(Seq::empty())),
{
    reveal(reads_as);
    let whole = seq![91u8, 93u8];
    assert forall|bytes: Seq<u8>, pos: int| #[trigger]
        holds_at(bytes, pos, whole) && ends_token(bytes, pos + whole.len()) implies get_value(
        bytes,
        pos,
    ) == Some((JsonValue::List(Seq::empty()), pos + whole.len())) by {
        lemma_holds_byte(bytes, pos, whole, 0);
        lemma_holds_byte(bytes, pos, whole, 1);
    }
}

/// A name and the colon behind it.
pub open spec fn named(name: Seq<u8>) -> Seq<u8> {
    quoted(name) + seq![58u8]
}

/// The last member of an object.
pub proof fn lemma_last_member(name: Seq<u8>, text: Seq<u8>, v: JsonValue)
    requires
        reads_as(text, v),
    ensures
        reads_as_members(named(name) + text + seq![125u8], seq![(name, v)]),
{
    reveal(reads_as);
    reveal(reads_as_members);
    let whole = named(name) + text + seq![125u8];
    assert forall|bytes: Seq<u8>, pos: int| #[trigger]
        holds_at(bytes, pos, whole) implies get_members(bytes, pos) == Some(
        (seq![(name, v)], pos + whole.len()),
    ) by {
        lemma_holds_two(bytes, pos, named(name) + text, seq![125u8]);
        lemma_holds_byte(bytes, pos + (named(name) + text).len(), seq![125u8], 0);
        lemma_holds_two(bytes, pos, named(name), text);
        lemma_holds_two(bytes, pos, quoted(name), seq![58u8]);
        lemma_holds_byte(bytes, pos + quoted(name).len(), seq![58u8], 0);
        law_quoted_round_trip(bytes, pos, name);
    }
}

/// A member before others.
pub proof fn lemma_more_members(
    name: Seq<u8>,
    text: Seq<u8>,
    v: JsonValue,
    rest: Seq<u8>,
    members: Seq<(Seq<u8>, JsonValue)>,
)
    requires
        reads_as(text, v),
        reads_as_members(rest, members),
    ensures
        reads_as_members(named(name) + text + seq![44u8] + rest, seq![(name, v)] + members),
{
    reveal(reads_as);
    reveal(reads_as_members);
    let head = named(name) + text;
    let whole = head + seq![44u8] + rest;
    assert forall|bytes: Seq<u8>, pos: int| #[trigger]
        holds_at(bytes, pos, whole) implies get_members(bytes, pos) == Some(
        (seq![(name, v)] + members, pos + whole.len()),
    ) by {
        lemma_holds_two(bytes, pos, head + seq![44u8], rest);
        lemma_holds_two(bytes, pos, head, seq![44u8]);
        lemma_holds_byte(bytes, pos + head.len(), seq![44u8], 0);
        lemma_holds_two(bytes, pos, named(name), text);
        lemma_holds_two(bytes, pos, quoted(name), seq![58u8]);
        lemma_holds_byte(bytes, pos + quoted(name).len(), seq![58u8], 0);
        law_quoted_round_trip(bytes, pos, name);
    }
}

/// Members in braces.
pub proof fn lemma_members_in_braces(text: Seq<u8>, members: Seq<(Seq<u8>, JsonValue)>)
    requires
        reads_as_members(text, members),
    ensures
        reads_as(seq![123u8] + text, JsonValue::Object(members)),
{
    reveal(reads_as);
    reveal(reads_as_members);
    let whole = seq![123u8] + text;
    assert forall|bytes: Seq<u8>, pos: int| #[trigger]
        holds_at(bytes, pos, whole) && ends_token(bytes, pos + whole.len()) implies get_value(
        bytes,
        pos,
    ) == Some((JsonValue::Object(members), pos + whole.len())) by {
        lemma_holds_two(bytes, pos, seq![123u8], text);
        lemma_holds_byte(bytes, pos, seq![123u8], 0);
        lemma_holds_byte(bytes, pos + 1, text, 0);
    }
}

/// No members.
pub proof fn lemma_no_members()
    ensures
        reads_as(seq![123u8, 125u8], JsonValue::Object(Seq::empty())),
{
    reveal(reads_as);
    let whole = seq![123u8, 125u8];
    assert forall|bytes: Seq<u8>, pos: int| #[trigger]
        holds_at(bytes, pos, whole) && ends_token(bytes, pos + whole.len()) implies get_value(
        bytes,
        pos,
    ) == Some((JsonValue::Object(Seq::empty()), pos + whole.len())) by {
        lemma_holds_byte(bytes, pos, whole, 0);
        lemma_holds_byte(bytes, pos, whole, 1);
    }
}

// --- literals, numbers, lists and objects as they are written ---

/// ASCII text is its characters.
pub proof fn lemma_ascii(s: Seq<char>)
    requires
        is_ascii_chars(s),
    ensures
        utf8(s).len() == s.len(),
        forall|i: int| 0 <= i < s.len() ==> #[trigger] utf8(s)[i] == s[i] as u8,
{
    reveal(utf8);
    is_ascii_chars_encode_utf8(s);
}

/// The punctuation.
pub proof fn lemma_marks()
    ensures
        utf8("["@) == seq![91u8],
        utf8("]"@) == seq![93u8],
        utf8("{"@) == seq![123u8],
        utf8("}"@) == seq![125u8],
        utf8(","@) == seq![44u8],
{
    reveal_strlit("[");
    reveal_strlit("]");
    reveal_strlit("{");
    reveal_strlit("}");
    reveal_strlit(",");
    lemma_ascii("["@);
    lemma_ascii("]"@);
    lemma_ascii("{"@);
    lemma_ascii("}"@);
    lemma_ascii(","@);
    assert(utf8("["@) =~= seq![91u8]);
    assert(utf8("]"@) =~= seq![93u8]);
    assert(utf8("{"@) =~= seq![123u8]);
    assert(utf8("}"@) =~= seq![125u8]);
    assert(utf8(","@) =~= seq![44u8]);
}

/// No byte of the text needs an escape.
pub open spec fn is_plain(s: Seq<u8>) -> bool {
    forall|i: int| 0 <= i < s.len() ==> #[trigger] s[i] >= 32 && s[i] != 34 && s[i] != 92
}

proof fn lemma_plain(s: Seq<u8>, i: int)
    requires
        is_plain(s),
        0 <= i <= s.len(),
    ensures
        escaped(s, i) == s.skip(i),
    decreases s.len() - i,
{
    if i < s.len() {
        lemma_plain(s, i + 1);
        assert(escaped_byte(s[i]) =~= seq![s[i]]);
        assert(seq![s[i]] + s.skip(i + 1) =~= s.skip(i));
    } else {
        assert(s.skip(i) =~= Seq::empty());
    }
}

/// The characters of a name that needs no escape.
pub open spec fn is_name(name: Seq<char>) -> bool {
    forall|i: int|
        0 <= i < name.len() ==> ' ' <= #[trigger] name[i] <= '~' && name[i] != '"' && name[i]
            != '\\'
}

/// Text that needs no escape is written as it is, between quotes.
pub proof fn law_plain_text_is_written_as_it_is(s: Seq<u8>)
    requires
        is_plain(s),
    ensures
        quoted(s) == seq![34u8] + s + seq![34u8],
{
    lemma_plain(s, 0);
    assert(s.skip(0) =~= s);
    assert(quoted(s) =~= seq![34u8] + s + seq![34u8]);
}

/// A literal that ends with a name in quotes and a colon.
pub proof fn lemma_literal(lit: Seq<char>, before: Seq<char>, name: Seq<char>)
    requires
        is_name(name),
        is_ascii_chars(before),
        lit == before + seq!['"'] + name + seq!['"', ':'],
    ensures
        utf8(lit) == utf8(before) + named(utf8(name)),
{
    lemma_ascii(name);
    lemma_ascii(before);
    lemma_ascii(lit);
    lemma_plain(utf8(name), 0);
    assert(utf8(name).skip(0) =~= utf8(name));
    assert(utf8(lit) =~= utf8(before) + named(utf8(name)));
}

/// The value of a whole number.
pub open spec fn number(n: int) -> JsonValue {
    JsonValue::Number(num(n))
}

/// A whole number reads back.
pub proof fn lemma_number(n: int)
    ensures
        reads_as(num(n), number(n)),
        as_int(number(n)) == Some(n),
{
    let size = if n < 0 {
        -n
    } else {
        n
    };
    let digits = decimal(size);
    law_decimal(size);
    reveal_strlit("-");
    lemma_ascii(digits);
    lemma_ascii(signed_decimal(n));
    let raw = utf8(digits);
    assert(letters(raw) =~= digits);
    assert(all_digits(raw));
    if n < 0 {
        assert(num(n).skip(1) =~= raw);
        assert(num(n)[0] == 45);
    } else {
        assert(num(n) =~= raw);
    }
    assert forall|k: int| 0 <= k < num(n).len() implies is_number_byte(#[trigger] num(n)[k]) by {
        if n < 0 && k > 0 {
            assert(num(n)[k] == raw[k - 1]);
        }
    }
    lemma_number_reads(num(n));
}

/// The items from the `i`th on, with commas between them and the closing mark
/// behind them.
spec fn row(texts: Seq<Seq<u8>>, i: int, mark: u8) -> Seq<u8>
    decreases texts.len() - i,
{
    if i + 1 >= texts.len() {
        texts[i] + seq![mark]
    } else {
        texts[i] + seq![44u8] + row(texts, i + 1, mark)
    }
}

proof fn lemma_row(texts: Seq<Seq<u8>>, i: int, mark: u8)
    requires
        0 <= i < texts.len(),
    ensures
        commas(texts) + seq![mark] == joined(texts, i) + (if i > 0 {
            seq![44u8]
        } else {
            Seq::empty()
        }) + row(texts, i, mark),
    decreases texts.len() - i,
{
    lemma_marks();
    let before = joined(texts, i) + (if i > 0 {
        seq![44u8]
    } else {
        Seq::empty()
    });
    assert(joined(texts, i + 1) =~= before + texts[i]);
    if i + 1 < texts.len() {
        lemma_row(texts, i + 1, mark);
        assert(before + row(texts, i, mark) =~= joined(texts, i + 1) + seq![44u8] + row(
            texts,
            i + 1,
            mark,
        ));
    } else {
        assert(before + row(texts, i, mark) =~= commas(texts) + seq![mark]);
    }
}

proof fn lemma_item_row(texts: Seq<Seq<u8>>, vals: Seq<JsonValue>, i: int)
    requires
        0 <= i < texts.len(),
        texts.len() == vals.len(),
        forall|k: int| 0 <= k < texts.len() ==> reads_as(#[trigger] texts[k], vals[k]),
    ensures
        reads_as_items(row(texts, i, 93u8), vals.skip(i)),
    decreases texts.len() - i,
{
    assert(reads_as(texts[i], vals[i]));
    if i + 1 < texts.len() {
        lemma_item_row(texts, vals, i + 1);
        lemma_more_items(texts[i], vals[i], row(texts, i + 1, 93u8), vals.skip(i + 1));
        assert(seq![vals[i]] + vals.skip(i + 1) =~= vals.skip(i));
    } else {
        lemma_last_item(texts[i], vals[i]);
        assert(seq![vals[i]] =~= vals.skip(i));
    }
}

/// A list reads as the list of its items.
pub proof fn lemma_list_reads(texts: Seq<Seq<u8>>, vals: Seq<JsonValue>)
    requires
        texts.len() == vals.len(),
        forall|k: int| 0 <= k < texts.len() ==> reads_as(#[trigger] texts[k], vals[k]),
    ensures
        reads_as(list(texts), JsonValue::List(vals)),
{
    lemma_marks();
    if texts.len() == 0 {
        lemma_no_items();
        assert(list(texts) =~= seq![91u8, 93u8]);
        assert(vals =~= Seq::empty());
    } else {
        lemma_row(texts, 0, 93u8);
        lemma_item_row(texts, vals, 0);
        lemma_items_in_brackets(row(texts, 0, 93u8), vals.skip(0));
        assert(vals.skip(0) =~= vals);
        assert(list(texts) =~= seq![91u8] + row(texts, 0, 93u8));
    }
}

/// A list of two reads as the list of the two.
pub proof fn lemma_pair_reads(a: Seq<u8>, x: JsonValue, b: Seq<u8>, y: JsonValue)
    requires
        reads_as(a, x),
        reads_as(b, y),
    ensures
        reads_as(
            utf8("["@) + a + utf8(","@) + b + utf8("]"@),
            JsonValue::List(seq![x, y]),
        ),
{
    lemma_marks();
    lemma_last_item(b, y);
    lemma_more_items(a, x, b + seq![93u8], seq![y]);
    let text = a + seq![44u8] + (b + seq![93u8]);
    lemma_items_in_brackets(text, seq![x] + seq![y]);
    assert(seq![x] + seq![y] =~= seq![x, y]);
    assert(utf8("["@) + a + utf8(","@) + b + utf8("]"@) =~= seq![91u8] + text);
}

/// The text of each member is its name and the text of its value.
pub open spec fn are_members(
    texts: Seq<Seq<u8>>,
    members: Seq<(Seq<u8>, JsonValue)>,
    inner: Seq<Seq<u8>>,
) -> bool {
    &&& texts.len() == members.len()
    &&& texts.len() == inner.len()
    &&& forall|k: int|
        0 <= k < texts.len() ==> {
            &&& #[trigger] texts[k] == named(members[k].0) + inner[k]
            &&& reads_as(inner[k], members[k].1)
        }
}

proof fn lemma_member_row(
    texts: Seq<Seq<u8>>,
    members: Seq<(Seq<u8>, JsonValue)>,
    inner: Seq<Seq<u8>>,
    i: int,
)
    requires
        0 <= i < texts.len(),
        are_members(texts, members, inner),
    ensures
        reads_as_members(row(texts, i, 125u8), members.skip(i)),
    decreases texts.len() - i,
{
    assert(texts[i] == named(members[i].0) + inner[i]);
    if i + 1 < texts.len() {
        lemma_member_row(texts, members, inner, i + 1);
        lemma_more_members(
            members[i].0,
            inner[i],
            members[i].1,
            row(texts, i + 1, 125u8),
            members.skip(i + 1),
        );
        assert(seq![(members[i].0, members[i].1)] + members.skip(i + 1) =~= members.skip(i));
    } else {
        lemma_last_member(members[i].0, inner[i], members[i].1);
        assert(seq![(members[i].0, members[i].1)] =~= members.skip(i));
    }
}

/// Members between braces read as the object of them.
pub proof fn lemma_object_reads(
    texts: Seq<Seq<u8>>,
    members: Seq<(Seq<u8>, JsonValue)>,
    inner: Seq<Seq<u8>>,
)
    requires
        are_members(texts, members, inner),
    ensures
        reads_as(utf8("{"@) + commas(texts) + utf8("}"@), JsonValue::Object(members)),
{
    lemma_marks();
    let text = utf8("{"@) + commas(texts) + utf8("}"@);
    if texts.len() == 0 {
        lemma_no_members();
        assert(text =~= seq![123u8, 125u8]);
        assert(members =~= Seq::empty());
    } else {
        lemma_row(texts, 0, 125u8);
        lemma_member_row(texts, members, inner, 0);
        lemma_members_in_braces(row(texts, 0, 125u8), members.skip(0));
        assert(members.skip(0) =~= members);
        assert(text =~= seq![123u8] + row(texts, 0, 125u8));
    }
}

/// A text that reads as a value is parsed to it.
pub proof fn lemma_parsed(text: Seq<u8>, v: JsonValue)
    requires
        reads_as(text, v),
    ensures
        parsed(text) == Some(v),
{
    reveal(reads_as);
    assert(text.subrange(0, text.len() as int) =~= text);
    assert(holds_at(text, 0, text));
}

/// A member is found under its name, where none before it has that name.
pub proof fn lemma_first_named(members: Seq<(Seq<u8>, JsonValue)>, name: Seq<u8>, i: int)
    requires
        0 <= i < members.len(),
        members[i].0 == name,
        forall|k: int| 0 <= k < i ==> (#[trigger] members[k]).0 != name,
    ensures
        first_named(members, name) == Some(members[i].1),
    decreases i,
{
    if i > 0 {
        assert(members[0].0 != name);
        let rest = members.skip(1);
        assert forall|k: int| 0 <= k < i - 1 implies (#[trigger] rest[k]).0 != name by {
            assert(members[k + 1].0 != name);
        }
        lemma_first_named(rest, name, i - 1);
    }
}

/// No member is found under a name that none has.
pub proof fn lemma_none_named(members: Seq<(Seq<u8>, JsonValue)>, name: Seq<u8>)
    requires
        forall|k: int| 0 <= k < members.len() ==> (#[trigger] members[k]).0 != name,
    ensures
        first_named(members, name) == None::<JsonValue>,
    decreases members.len(),
{
    if members.len() > 0 {
        assert(members[0].0 != name);
        let rest = members.skip(1);
        assert forall|k: int| 0 <= k < rest.len() implies (#[trigger] rest[k]).0 != name by {
            assert(members[k + 1].0 != name);
        }
        lemma_none_named(rest, name);
    }
}

/// A list whose items read back reads back.
pub proof fn lemma_read_list<T>(
    vals: Seq<JsonValue>,
    read: spec_fn(JsonValue) -> Option<T>,
    xs: Seq<T>,
)
    requires
        vals.len() == xs.len(),
        forall|i: int| 0 <= i < vals.len() ==> read(#[trigger] vals[i]) == Some(xs[i]),
    ensures
        read_list(JsonValue::List(vals), read) == Some(xs),
{
    assert(Seq::new(vals.len(), |i: int| read(vals[i])->0) =~= xs);
}

} // verus!
