//! The lock file: the members of a workspace and their resolved
//! dependencies, as text.
//!
//! A lock file holds one record for each member:
//!
//! ```text
//! [[packages]]
//! name = "app"
//! id = "app 0.1.0 (path+file:///work/app)"
//! dependencies = ["log 0.4.0 (registry+https://example.org/index)"]
//!
//! ```
//!
//! Each record ends with an empty line. Inside the quotes a quote is written
//! `\"`, a backslash `\\` and a line feed `\n`; every other byte stands for
//! itself. Only text written exactly so is a lock file.

use crate::error::{ErrorView, SkeletonError};
use crate::package::{Package, PackageId, PackageView};
use crate::text::text_from_utf8;
use crate::views::views;
use crate::workspace::{lock_records, Workspace};
use vstd::prelude::*;
use vstd::utf8::{
    decode_utf8, encode_utf8, encode_utf8_decode_utf8, encode_utf8_valid_utf8, valid_utf8,
};

verus! {

/// The quote that encloses a text.
pub const QUOTE: u8 = 0x22;

/// The backslash that begins an escape.
pub const BACKSLASH: u8 = 0x5c;

/// The line feed.
pub const LINE_FEED: u8 = 0x0a;

/// The letter that stands for a line feed behind a backslash.
pub const LETTER_N: u8 = 0x6e;

/// The comma between the texts of a list.
pub const COMMA: u8 = 0x2c;

/// The space behind that comma.
pub const SPACE: u8 = 0x20;

/// The bracket that closes a list.
pub const BRACKET: u8 = 0x5d;

/// How a byte is written inside quotes.
pub open spec fn escape_byte(byte: u8) -> Seq<u8> {
    if byte == QUOTE {
        seq![BACKSLASH, QUOTE]
    } else if byte == BACKSLASH {
        seq![BACKSLASH, BACKSLASH]
    } else if byte == LINE_FEED {
        seq![BACKSLASH, LETTER_N]
    } else {
        seq![byte]
    }
}

/// The byte that is written as a backslash and `byte`.
pub open spec fn unescape_byte(byte: u8) -> Option<u8> {
    if byte == QUOTE {
        Some(QUOTE)
    } else if byte == BACKSLASH {
        Some(BACKSLASH)
    } else if byte == LETTER_N {
        Some(LINE_FEED)
    } else {
        None
    }
}

/// How a text is written inside quotes.
pub open spec fn escape(text: Seq<u8>) -> Seq<u8>
    decreases text.len(),
{
    if text.len() == 0 {
        Seq::empty()
    } else {
        escape(text.drop_last()) + escape_byte(text.last())
    }
}

/// A text in quotes.
pub open spec fn quoted(text: Seq<u8>) -> Seq<u8> {
    seq![QUOTE] + escape(text) + seq![QUOTE]
}

/// Whether the bytes `part` stand in `bytes` from position `pos` on.
pub open spec fn has_at(bytes: Seq<u8>, pos: int, part: Seq<u8>) -> bool {
    &&& 0 <= pos
    &&& pos + part.len() <= bytes.len()
    &&& bytes.subrange(pos, pos + part.len()) == part
}

/// The position behind `part`, where `part` stands in `bytes` at `pos`.
pub open spec fn expect(bytes: Seq<u8>, pos: int, part: Seq<u8>) -> Option<int> {
    if has_at(bytes, pos, part) {
        Some(pos + part.len())
    } else {
        None
    }
}

/// The text that is written in `bytes` from `pos` up to the closing quote,
/// and the position behind that quote.
pub open spec fn parse_text(bytes: Seq<u8>, pos: int) -> Option<(Seq<u8>, int)>
    decreases bytes.len() - pos,
{
    if pos < 0 || pos >= bytes.len() {
        None
    } else if bytes[pos] == QUOTE {
        Some((Seq::empty(), pos + 1))
    } else if bytes[pos] == LINE_FEED {
        None
    } else if bytes[pos] == BACKSLASH {
        if pos + 1 >= bytes.len() {
            None
        } else {
            match (unescape_byte(bytes[pos + 1]), parse_text(bytes, pos + 2)) {
                (Some(byte), Some((rest, end))) => Some((seq![byte] + rest, end)),
                _ => None,
            }
        }
    } else {
        match parse_text(bytes, pos + 1) {
            Some((rest, end)) => Some((seq![bytes[pos]] + rest, end)),
            None => None,
        }
    }
}

/// The text that is written in quotes in `bytes` at `pos`, and the position
/// behind the closing quote.
pub open spec fn parse_quoted(bytes: Seq<u8>, pos: int) -> Option<(Seq<u8>, int)> {
    if 0 <= pos < bytes.len() && bytes[pos] == QUOTE {
        parse_text(bytes, pos + 1)
    } else {
        None
    }
}

/// Two parts stand one behind the other where their concatenation stands.
pub proof fn lemma_has_at_concat(bytes: Seq<u8>, pos: int, first: Seq<u8>, second: Seq<u8>)
    ensures
        has_at(bytes, pos, first + second) <==> has_at(bytes, pos, first) && has_at(
            bytes,
            pos + first.len(),
            second,
        ),
{
    let both = first + second;
    if has_at(bytes, pos, both) {
        assert(bytes.subrange(pos, pos + first.len()) =~= both.subrange(0, first.len() as int));
        assert(both.subrange(0, first.len() as int) =~= first);
        assert(bytes.subrange(pos + first.len(), pos + first.len() + second.len())
            =~= both.subrange(first.len() as int, both.len() as int));
        assert(both.subrange(first.len() as int, both.len() as int) =~= second);
    }
    if has_at(bytes, pos, first) && has_at(bytes, pos + first.len(), second) {
        assert(bytes.subrange(pos, pos + both.len()) =~= bytes.subrange(pos, pos + first.len())
            + bytes.subrange(pos + first.len(), pos + first.len() + second.len()));
    }
}

/// Written inside quotes, a text is its first byte and then the rest.
pub proof fn lemma_escape_first(text: Seq<u8>)
    requires
        text.len() > 0,
    ensures
        escape(text) == escape_byte(text[0]) + escape(text.drop_first()),
    decreases text.len(),
{
    if text.len() == 1 {
        assert(text.drop_last() =~= Seq::<u8>::empty());
        assert(text.drop_first() =~= Seq::<u8>::empty());
        assert(escape(text.drop_last()) =~= Seq::<u8>::empty());
        assert(escape(text) =~= escape_byte(text[0]) + escape(text.drop_first()));
    } else {
        lemma_escape_first(text.drop_last());
        assert(text.drop_last().drop_first() =~= text.drop_first().drop_last());
        assert(text.drop_first().last() == text.last());
        assert(escape(text) =~= escape_byte(text[0]) + escape(text.drop_first()));
    }
}

/// Reading what `escape` wrote, up to the closing quote, gives the text
/// back.
pub proof fn lemma_parse_escaped(bytes: Seq<u8>, pos: int, text: Seq<u8>)
    requires
        has_at(bytes, pos, escape(text) + seq![QUOTE]),
    ensures
        parse_text(bytes, pos) == Some((text, pos + escape(text).len() + 1)),
    decreases text.len(),
{
    if text.len() == 0 {
        assert(escape(text) + seq![QUOTE] =~= seq![QUOTE]);
        assert(bytes.subrange(pos, pos + 1)[0] == QUOTE);
    } else {
        let head = escape_byte(text[0]);
        let rest = text.drop_first();
        lemma_escape_first(text);
        assert(escape(text) + seq![QUOTE] =~= head + (escape(rest) + seq![QUOTE]));
        lemma_has_at_concat(bytes, pos, head, escape(rest) + seq![QUOTE]);
        lemma_parse_escaped(bytes, pos + head.len(), rest);
        assert(bytes.subrange(pos, pos + head.len())[0] == head[0]);
        if head.len() == 2 {
            assert(bytes.subrange(pos, pos + head.len())[1] == head[1]);
        }
        assert(seq![text[0]] + rest =~= text);
    }
}

/// Reading a text in quotes gives the text back.
pub proof fn lemma_parse_quoted(bytes: Seq<u8>, pos: int, text: Seq<u8>)
    requires
        has_at(bytes, pos, quoted(text)),
    ensures
        parse_quoted(bytes, pos) == Some((text, pos + quoted(text).len())),
{
    assert(quoted(text) =~= seq![QUOTE] + (escape(text) + seq![QUOTE]));
    lemma_has_at_concat(bytes, pos, seq![QUOTE], escape(text) + seq![QUOTE]);
    assert(bytes.subrange(pos, pos + 1)[0] == QUOTE);
    lemma_parse_escaped(bytes, pos + 1, text);
}

/// How the texts of a list are written, without the brackets.
pub open spec fn list_items(items: Seq<Seq<u8>>) -> Seq<u8>
    decreases items.len(),
{
    if items.len() == 0 {
        Seq::empty()
    } else if items.len() == 1 {
        quoted(items[0])
    } else {
        list_items(items.drop_last()) + seq![COMMA, SPACE] + quoted(items.last())
    }
}

/// How a list of texts is written, from behind the opening bracket on.
pub open spec fn list(items: Seq<Seq<u8>>) -> Seq<u8> {
    list_items(items) + seq![BRACKET]
}

/// The texts of a list that has at least one, written in `bytes` from `pos`
/// on, and the position behind the closing bracket.
pub open spec fn parse_items(bytes: Seq<u8>, pos: int) -> Option<(Seq<Seq<u8>>, int)>
    decreases bytes.len() - pos,
{
    match parse_quoted(bytes, pos) {
        None => None,
        Some((item, next)) => if next <= pos || next >= bytes.len() {
            None
        } else if bytes[next] == BRACKET {
            Some((seq![item], next + 1))
        } else if has_at(bytes, next, seq![COMMA, SPACE]) {
            match parse_items(bytes, next + 2) {
                Some((rest, end)) => Some((seq![item] + rest, end)),
                None => None,
            }
        } else {
            None
        },
    }
}

/// The texts of the list that is written in `bytes` from `pos` on, behind
/// the opening bracket, and the position behind the closing bracket.
pub open spec fn parse_list(bytes: Seq<u8>, pos: int) -> Option<(Seq<Seq<u8>>, int)> {
    if 0 <= pos < bytes.len() && bytes[pos] == BRACKET {
        Some((Seq::empty(), pos + 1))
    } else {
        parse_items(bytes, pos)
    }
}

/// A list is written as its first text and then the rest.
pub proof fn lemma_list_items_first(items: Seq<Seq<u8>>)
    requires
        items.len() > 1,
    ensures
        list_items(items) == quoted(items[0]) + seq![COMMA, SPACE] + list_items(
            items.drop_first(),
        ),
    decreases items.len(),
{
    if items.len() == 2 {
        assert(items.drop_last().len() == 1);
        assert(items.drop_first().len() == 1);
        assert(items.drop_last()[0] == items[0]);
        assert(items.drop_first()[0] == items.last());
        assert(list_items(items.drop_last()) == quoted(items[0]));
        assert(list_items(items.drop_first()) == quoted(items.last()));
    } else {
        lemma_list_items_first(items.drop_last());
        assert(items.drop_last().drop_first() =~= items.drop_first().drop_last());
        assert(items.drop_first().last() == items.last());
        assert(items.drop_last()[0] == items[0]);
        assert(list_items(items) =~= quoted(items[0]) + seq![COMMA, SPACE] + list_items(
            items.drop_first(),
        ));
    }
}

/// Reading the texts of a written list gives the texts back.
pub proof fn lemma_parse_items(bytes: Seq<u8>, pos: int, items: Seq<Seq<u8>>)
    requires
        items.len() > 0,
        has_at(bytes, pos, list(items)),
    ensures
        parse_items(bytes, pos) == Some((items, pos + list(items).len())),
    decreases items.len(),
{
    let first = quoted(items[0]);
    if items.len() == 1 {
        lemma_has_at_concat(bytes, pos, first, seq![BRACKET]);
        lemma_parse_quoted(bytes, pos, items[0]);
        assert(bytes.subrange(pos + first.len(), pos + first.len() + 1)[0] == BRACKET);
        assert(seq![items[0]] =~= items);
    } else {
        let rest = items.drop_first();
        lemma_list_items_first(items);
        assert(list(items) =~= first + (seq![COMMA, SPACE] + list(rest)));
        lemma_has_at_concat(bytes, pos, first, seq![COMMA, SPACE] + list(rest));
        lemma_has_at_concat(bytes, pos + first.len(), seq![COMMA, SPACE], list(rest));
        lemma_parse_quoted(bytes, pos, items[0]);
        assert(bytes.subrange(pos + first.len(), pos + first.len() + 2)[0] == COMMA);
        lemma_parse_items(bytes, pos + first.len() + 2, rest);
        assert(seq![items[0]] + rest =~= items);
    }
}

/// Reading a written list gives the texts back.
pub proof fn lemma_parse_list(bytes: Seq<u8>, pos: int, items: Seq<Seq<u8>>)
    requires
        has_at(bytes, pos, list(items)),
    ensures
        parse_list(bytes, pos) == Some((items, pos + list(items).len())),
{
    if items.len() == 0 {
        assert(list(items) =~= seq![BRACKET]);
        assert(bytes.subrange(pos, pos + 1)[0] == BRACKET);
        assert(items =~= Seq::<Seq<u8>>::empty());
    } else {
        let first = quoted(items[0]);
        if items.len() > 1 {
            lemma_list_items_first(items);
        }
        assert(list(items)[0] == QUOTE);
        assert(bytes.subrange(pos, pos + list(items).len())[0] == QUOTE);
        lemma_parse_items(bytes, pos, items);
    }
}

/// A record before its texts are encoded, or after they were read and
/// before they are decoded.
pub struct RawRecord {
    pub name: Seq<u8>,
    pub id: Seq<u8>,
    pub dependencies: Seq<Seq<u8>>,
}

/// What a record begins with, up to the name.
pub open spec fn name_key() -> Seq<u8> {
    encode_utf8("[[packages]]\nname = "@)
}

/// What stands between the name and the identifier.
pub open spec fn id_key() -> Seq<u8> {
    encode_utf8("\nid = "@)
}

/// What stands between the identifier and the dependencies.
pub open spec fn dependencies_key() -> Seq<u8> {
    encode_utf8("\ndependencies = ["@)
}

/// What a record ends with.
pub open spec fn record_end() -> Seq<u8> {
    encode_utf8("\n\n"@)
}

/// How a record is written.
pub open spec fn raw_record(record: RawRecord) -> Seq<u8> {
    name_key() + quoted(record.name) + id_key() + quoted(record.id) + dependencies_key() + list(
        record.dependencies,
    ) + record_end()
}

/// The record that is written in `bytes` at `pos`, and the position behind
/// it.
pub open spec fn parse_raw_record(bytes: Seq<u8>, pos: int) -> Option<(RawRecord, int)> {
    match expect(bytes, pos, name_key()) {
        None => None,
        Some(at_name) => match parse_quoted(bytes, at_name) {
            None => None,
            Some((name, after_name)) => match expect(bytes, after_name, id_key()) {
                None => None,
                Some(at_id) => match parse_quoted(bytes, at_id) {
                    None => None,
                    Some((id, after_id)) => match expect(bytes, after_id, dependencies_key()) {
                        None => None,
                        Some(at_list) => match parse_list(bytes, at_list) {
                            None => None,
                            Some((dependencies, after_list)) => match expect(
                                bytes,
                                after_list,
                                record_end(),
                            ) {
                                None => None,
                                Some(end) => Some((RawRecord { name, id, dependencies }, end)),
                            },
                        },
                    },
                },
            },
        },
    }
}

/// Reading a written record gives the record back.
pub proof fn lemma_parse_raw_record(bytes: Seq<u8>, pos: int, record: RawRecord)
    requires
        has_at(bytes, pos, raw_record(record)),
    ensures
        parse_raw_record(bytes, pos) == Some((record, pos + raw_record(record).len())),
{
    let a = name_key();
    let b = quoted(record.name);
    let c = id_key();
    let d = quoted(record.id);
    let e = dependencies_key();
    let f = list(record.dependencies);
    let g = record_end();
    assert(raw_record(record) =~= a + (b + (c + (d + (e + (f + g))))));
    lemma_has_at_concat(bytes, pos, a, b + (c + (d + (e + (f + g)))));
    let p1 = pos + a.len();
    lemma_has_at_concat(bytes, p1, b, c + (d + (e + (f + g))));
    let p2 = p1 + b.len();
    lemma_has_at_concat(bytes, p2, c, d + (e + (f + g)));
    let p3 = p2 + c.len();
    lemma_has_at_concat(bytes, p3, d, e + (f + g));
    let p4 = p3 + d.len();
    lemma_has_at_concat(bytes, p4, e, f + g);
    let p5 = p4 + e.len();
    lemma_has_at_concat(bytes, p5, f, g);
    lemma_parse_quoted(bytes, p1, record.name);
    lemma_parse_quoted(bytes, p3, record.id);
    lemma_parse_list(bytes, p5, record.dependencies);
}

/// The encodings of a sequence of texts.
pub open spec fn encode_all(texts: Seq<Seq<char>>) -> Seq<Seq<u8>> {
    Seq::new(texts.len(), |i: int| encode_utf8(texts[i]))
}

/// The texts that a sequence of encodings stands for.
pub open spec fn decode_all(texts: Seq<Seq<u8>>) -> Seq<Seq<char>> {
    Seq::new(texts.len(), |i: int| decode_utf8(texts[i]))
}

/// Whether each of the byte strings is the encoding of a text.
pub open spec fn all_valid(texts: Seq<Seq<u8>>) -> bool {
    forall|i: int| 0 <= i < texts.len() ==> valid_utf8(#[trigger] texts[i])
}

/// A package with its texts encoded.
pub open spec fn encoded(package: PackageView) -> RawRecord {
    RawRecord {
        name: encode_utf8(package.name),
        id: encode_utf8(package.id),
        dependencies: encode_all(package.dependencies),
    }
}

/// The package that a record stands for; `None` where one of its byte
/// strings is not the encoding of a text.
pub open spec fn decoded(record: RawRecord) -> Option<PackageView> {
    if valid_utf8(record.name) && valid_utf8(record.id) && all_valid(record.dependencies) {
        Some(
            PackageView {
                name: decode_utf8(record.name),
                id: decode_utf8(record.id),
                dependencies: decode_all(record.dependencies),
            },
        )
    } else {
        None
    }
}

/// Decoding an encoded package gives the package back.
pub proof fn lemma_decoded_encoded(package: PackageView)
    ensures
        decoded(encoded(package)) == Some(package),
{
    broadcast use encode_utf8_valid_utf8, encode_utf8_decode_utf8;

    assert(decode_all(encode_all(package.dependencies)) =~= package.dependencies);
}

/// How the record of a package is written.
pub open spec fn format_record(package: PackageView) -> Seq<u8> {
    raw_record(encoded(package))
}

/// The package whose record is written in `bytes` at `pos`, and the
/// position behind the record.
pub open spec fn parse_record(bytes: Seq<u8>, pos: int) -> Option<(PackageView, int)> {
    match parse_raw_record(bytes, pos) {
        None => None,
        Some((record, end)) => match decoded(record) {
            None => None,
            Some(package) => Some((package, end)),
        },
    }
}

/// How a lock file with the given records is written.
pub open spec fn format_lock(records: Seq<PackageView>) -> Seq<u8>
    decreases records.len(),
{
    if records.len() == 0 {
        Seq::empty()
    } else {
        format_lock(records.drop_last()) + format_record(records.last())
    }
}

/// The records that are written in `bytes` from `pos` to the end.
pub open spec fn parse_records(bytes: Seq<u8>, pos: int) -> Option<Seq<PackageView>>
    decreases bytes.len() - pos,
{
    if pos == bytes.len() {
        Some(Seq::empty())
    } else {
        match parse_record(bytes, pos) {
            None => None,
            Some((record, next)) => if next <= pos {
                None
            } else {
                match parse_records(bytes, next) {
                    None => None,
                    Some(rest) => Some(seq![record] + rest),
                }
            },
        }
    }
}

/// The records of the lock file `bytes`; `None` where `bytes` is no lock
/// file.
pub open spec fn parse_lock(bytes: Seq<u8>) -> Option<Seq<PackageView>> {
    parse_records(bytes, 0)
}

/// A lock file is written as its first record and then the rest.
pub proof fn lemma_format_lock_first(records: Seq<PackageView>)
    requires
        records.len() > 0,
    ensures
        format_lock(records) == format_record(records[0]) + format_lock(records.drop_first()),
    decreases records.len(),
{
    if records.len() == 1 {
        assert(records.drop_last() =~= Seq::<PackageView>::empty());
        assert(records.drop_first() =~= Seq::<PackageView>::empty());
        assert(format_lock(records) =~= format_record(records[0]) + format_lock(
            records.drop_first(),
        ));
    } else {
        lemma_format_lock_first(records.drop_last());
        assert(records.drop_last().drop_first() =~= records.drop_first().drop_last());
        assert(records.drop_first().last() == records.last());
        assert(format_lock(records) =~= format_record(records[0]) + format_lock(
            records.drop_first(),
        ));
    }
}

/// Reading written records gives the records back.
pub proof fn lemma_parse_records(bytes: Seq<u8>, pos: int, records: Seq<PackageView>)
    requires
        has_at(bytes, pos, format_lock(records)),
        pos + format_lock(records).len() == bytes.len(),
    ensures
        parse_records(bytes, pos) == Some(records),
    decreases records.len(),
{
    if records.len() == 0 {
        assert(records =~= Seq::<PackageView>::empty());
    } else {
        let first = format_record(records[0]);
        let rest = records.drop_first();
        lemma_format_lock_first(records);
        lemma_has_at_concat(bytes, pos, first, format_lock(rest));
        lemma_parse_raw_record(bytes, pos, encoded(records[0]));
        lemma_decoded_encoded(records[0]);
        assert(quoted(encoded(records[0]).name).len() >= 2);
        assert(first.len() >= 2);
        lemma_parse_records(bytes, pos + first.len(), rest);
        assert(seq![records[0]] + rest =~= records);
    }
}

/// Reading a written lock file gives its records back.
pub proof fn lemma_parse_format(records: Seq<PackageView>)
    ensures
        parse_lock(format_lock(records)) == Some(records),
{
    let bytes = format_lock(records);
    assert(bytes.subrange(0, bytes.len() as int) =~= bytes);
    lemma_parse_records(bytes, 0, records);
}

/// What `parse_text` read stands in the bytes as `escape` writes it.
pub proof fn lemma_text_as_written(bytes: Seq<u8>, pos: int)
    requires
        parse_text(bytes, pos) is Some,
    ensures
        ({
            let (text, end) = parse_text(bytes, pos)->Some_0;
            has_at(bytes, pos, escape(text) + seq![QUOTE]) && end == pos + escape(text).len() + 1
        }),
    decreases bytes.len() - pos,
{
    let (text, end) = parse_text(bytes, pos)->Some_0;
    if bytes[pos] == QUOTE {
        assert(escape(text) + seq![QUOTE] =~= seq![QUOTE]);
        assert(bytes.subrange(pos, pos + 1) =~= seq![QUOTE]);
    } else if bytes[pos] == BACKSLASH {
        let byte = unescape_byte(bytes[pos + 1])->Some_0;
        let (rest, after) = parse_text(bytes, pos + 2)->Some_0;
        lemma_text_as_written(bytes, pos + 2);
        assert(text == seq![byte] + rest);
        lemma_escape_first(text);
        assert(text.drop_first() =~= rest);
        assert(escape_byte(byte) =~= seq![BACKSLASH, bytes[pos + 1]]);
        assert(bytes.subrange(pos, pos + 2) =~= escape_byte(byte));
        lemma_has_at_concat(bytes, pos, escape_byte(byte), escape(rest) + seq![QUOTE]);
        assert(escape(text) + seq![QUOTE] =~= escape_byte(byte) + (escape(rest) + seq![QUOTE]));
    } else {
        let byte = bytes[pos];
        let (rest, after) = parse_text(bytes, pos + 1)->Some_0;
        lemma_text_as_written(bytes, pos + 1);
        assert(text == seq![byte] + rest);
        lemma_escape_first(text);
        assert(text.drop_first() =~= rest);
        assert(bytes.subrange(pos, pos + 1) =~= escape_byte(byte));
        lemma_has_at_concat(bytes, pos, escape_byte(byte), escape(rest) + seq![QUOTE]);
        assert(escape(text) + seq![QUOTE] =~= escape_byte(byte) + (escape(rest) + seq![QUOTE]));
    }
}

/// What `parse_quoted` read stands in the bytes as `quoted` writes it.
pub proof fn lemma_quoted_as_written(bytes: Seq<u8>, pos: int)
    requires
        parse_quoted(bytes, pos) is Some,
    ensures
        ({
            let (text, end) = parse_quoted(bytes, pos)->Some_0;
            has_at(bytes, pos, quoted(text)) && end == pos + quoted(text).len()
        }),
{
    let (text, end) = parse_quoted(bytes, pos)->Some_0;
    lemma_text_as_written(bytes, pos + 1);
    assert(bytes.subrange(pos, pos + 1) =~= seq![QUOTE]);
    lemma_has_at_concat(bytes, pos, seq![QUOTE], escape(text) + seq![QUOTE]);
    assert(quoted(text) =~= seq![QUOTE] + (escape(text) + seq![QUOTE]));
}

/// What `parse_items` read stands in the bytes as `list` writes it.
pub proof fn lemma_items_as_written(bytes: Seq<u8>, pos: int)
    requires
        parse_items(bytes, pos) is Some,
    ensures
        ({
            let (items, end) = parse_items(bytes, pos)->Some_0;
            items.len() > 0 && has_at(bytes, pos, list(items)) && end == pos + list(items).len()
        }),
    decreases bytes.len() - pos,
{
    let (items, end) = parse_items(bytes, pos)->Some_0;
    let (item, next) = parse_quoted(bytes, pos)->Some_0;
    lemma_quoted_as_written(bytes, pos);
    if bytes[next] == BRACKET {
        assert(bytes.subrange(next, next + 1) =~= seq![BRACKET]);
        lemma_has_at_concat(bytes, pos, quoted(item), seq![BRACKET]);
        assert(items[0] == item);
    } else {
        let (rest, after) = parse_items(bytes, next + 2)->Some_0;
        lemma_items_as_written(bytes, next + 2);
        assert(items == seq![item] + rest);
        assert(items.drop_first() =~= rest);
        assert(items[0] == item);
        lemma_list_items_first(items);
        assert(list(items) =~= quoted(item) + (seq![COMMA, SPACE] + list(rest)));
        lemma_has_at_concat(bytes, next, seq![COMMA, SPACE], list(rest));
        lemma_has_at_concat(bytes, pos, quoted(item), seq![COMMA, SPACE] + list(rest));
    }
}

/// What `parse_list` read stands in the bytes as `list` writes it.
pub proof fn lemma_list_as_written(bytes: Seq<u8>, pos: int)
    requires
        parse_list(bytes, pos) is Some,
    ensures
        ({
            let (items, end) = parse_list(bytes, pos)->Some_0;
            has_at(bytes, pos, list(items)) && end == pos + list(items).len()
        }),
{
    if 0 <= pos < bytes.len() && bytes[pos] == BRACKET {
        let (items, end) = parse_list(bytes, pos)->Some_0;
        assert(list(items) =~= seq![BRACKET]);
        assert(bytes.subrange(pos, pos + 1) =~= seq![BRACKET]);
    } else {
        lemma_items_as_written(bytes, pos);
    }
}

/// What `parse_raw_record` read stands in the bytes as `raw_record` writes
/// it.
pub proof fn lemma_raw_record_as_written(bytes: Seq<u8>, pos: int)
    requires
        parse_raw_record(bytes, pos) is Some,
    ensures
        ({
            let (record, end) = parse_raw_record(bytes, pos)->Some_0;
            has_at(bytes, pos, raw_record(record)) && end == pos + raw_record(record).len()
        }),
{
    let (record, end) = parse_raw_record(bytes, pos)->Some_0;
    let a = name_key();
    let b = quoted(record.name);
    let c = id_key();
    let d = quoted(record.id);
    let e = dependencies_key();
    let f = list(record.dependencies);
    let g = record_end();
    let p1 = pos + a.len();
    lemma_quoted_as_written(bytes, p1);
    let p2 = p1 + b.len();
    let p3 = p2 + c.len();
    lemma_quoted_as_written(bytes, p3);
    let p4 = p3 + d.len();
    let p5 = p4 + e.len();
    lemma_list_as_written(bytes, p5);
    lemma_has_at_concat(bytes, p5, f, g);
    lemma_has_at_concat(bytes, p4, e, f + g);
    lemma_has_at_concat(bytes, p3, d, e + (f + g));
    lemma_has_at_concat(bytes, p2, c, d + (e + (f + g)));
    lemma_has_at_concat(bytes, p1, b, c + (d + (e + (f + g))));
    lemma_has_at_concat(bytes, pos, a, b + (c + (d + (e + (f + g)))));
    assert(raw_record(record) =~= a + (b + (c + (d + (e + (f + g))))));
}

/// Encoding a decoded record gives the record back.
pub proof fn lemma_encoded_decoded(record: RawRecord)
    requires
        decoded(record) is Some,
    ensures
        encoded(decoded(record)->Some_0) == record,
{
    broadcast use vstd::utf8::decode_utf8_encode_utf8;

    let package = decoded(record)->Some_0;
    assert(encode_all(package.dependencies) =~= record.dependencies) by {
        assert forall|i: int| 0 <= i < record.dependencies.len() implies encode_utf8(
            decode_utf8(record.dependencies[i]),
        ) == record.dependencies[i] by {
            assert(valid_utf8(record.dependencies[i]));
        }
    }
}

/// What `parse_records` read stands in the bytes as `format_lock` writes
/// it, up to the end.
pub proof fn lemma_records_as_written(bytes: Seq<u8>, pos: int)
    requires
        0 <= pos <= bytes.len(),
        parse_records(bytes, pos) is Some,
    ensures
        has_at(bytes, pos, format_lock(parse_records(bytes, pos)->Some_0)),
        pos + format_lock(parse_records(bytes, pos)->Some_0).len() == bytes.len(),
    decreases bytes.len() - pos,
{
    let records = parse_records(bytes, pos)->Some_0;
    if pos == bytes.len() {
        assert(bytes.subrange(pos, pos) =~= Seq::<u8>::empty());
    } else {
        let (record, next) = parse_record(bytes, pos)->Some_0;
        let (raw, end) = parse_raw_record(bytes, pos)->Some_0;
        let rest = parse_records(bytes, next)->Some_0;
        lemma_raw_record_as_written(bytes, pos);
        lemma_encoded_decoded(raw);
        lemma_records_as_written(bytes, next);
        assert(records == seq![record] + rest);
        assert(records.drop_first() =~= rest);
        lemma_format_lock_first(records);
        lemma_has_at_concat(bytes, pos, format_record(record), format_lock(rest));
    }
}

/// Only what `format_lock` writes is a lock file: the bytes that are read
/// as a sequence of records are those that `format_lock` writes for these
/// records.
pub proof fn lemma_format_parse(bytes: Seq<u8>)
    requires
        parse_lock(bytes) is Some,
    ensures
        format_lock(parse_lock(bytes)->Some_0) == bytes,
{
    lemma_records_as_written(bytes, 0);
    assert(bytes.subrange(0, bytes.len() as int) =~= bytes);
}

/// The name of the lock file in the root directory of a workspace.
pub const LOCKFILE_NAME: &'static str = "Skeleton.lock";

/// The members of a workspace, as a lock file records them.
#[derive(Debug)]
pub struct Lockfile {
    /// The records, in the order of the file.
    pub packages: Vec<Package>,
}

impl View for Lockfile {
    type V = Seq<PackageView>;

    open spec fn view(&self) -> Seq<PackageView> {
        views(self.packages@)
    }
}

/// Appends `part` to `out`.
fn push_bytes(out: &mut Vec<u8>, part: &[u8])
    ensures
        final(out)@ == old(out)@ + part@,
{
    let mut i: usize = 0;
    assert(out@ =~= old(out)@ + part@.take(0));
    while i < part.len()
        invariant
            i <= part@.len(),
            out@ == old(out)@ + part@.take(i as int),
        decreases part@.len() - i,
    {
        out.push(part[i]);
        assert(out@ =~= old(out)@ + part@.take(i + 1));
        i = i + 1;
    }
    assert(part@.take(i as int) =~= part@);
}

/// Appends `text` to `out` as it is written inside quotes.
fn push_escaped(out: &mut Vec<u8>, text: &[u8])
    ensures
        final(out)@ == old(out)@ + escape(text@),
{
    let mut i: usize = 0;
    assert(out@ =~= old(out)@ + escape(text@.take(0)));
    while i < text.len()
        invariant
            i <= text@.len(),
            out@ == old(out)@ + escape(text@.take(i as int)),
        decreases text@.len() - i,
    {
        let byte = text[i];
        let ghost before = out@;
        assert(text@.take(i + 1).drop_last() =~= text@.take(i as int));
        assert(text@.take(i + 1).last() == byte);
        if byte == QUOTE {
            out.push(BACKSLASH);
            out.push(QUOTE);
        } else if byte == BACKSLASH {
            out.push(BACKSLASH);
            out.push(BACKSLASH);
        } else if byte == LINE_FEED {
            out.push(BACKSLASH);
            out.push(LETTER_N);
        } else {
            out.push(byte);
        }
        assert(out@ =~= before + escape_byte(byte));
        assert(out@ =~= old(out)@ + escape(text@.take(i + 1)));
        i = i + 1;
    }
    assert(text@.take(i as int) =~= text@);
}

/// Appends `text` to `out`, in quotes.
fn push_quoted(out: &mut Vec<u8>, text: &[u8])
    ensures
        final(out)@ == old(out)@ + quoted(text@),
{
    out.push(QUOTE);
    push_escaped(out, text);
    out.push(QUOTE);
    assert(out@ =~= old(out)@ + quoted(text@));
}

/// Appends the list of the identifiers to `out`, from behind the opening
/// bracket on.
fn push_list(out: &mut Vec<u8>, ids: &Vec<PackageId>)
    ensures
        final(out)@ == old(out)@ + list(encode_all(views(ids@))),
{
    let ghost items = encode_all(views(ids@));
    let mut i: usize = 0;
    assert(out@ =~= old(out)@ + list_items(items.take(0)));
    while i < ids.len()
        invariant
            i <= ids@.len(),
            items == encode_all(views(ids@)),
            out@ == old(out)@ + list_items(items.take(i as int)),
        decreases ids@.len() - i,
    {
        let ghost before = out@;
        assert(items.take(i + 1).drop_last() =~= items.take(i as int));
        assert(items.take(i + 1).last() == encode_utf8(ids@[i as int]@));
        if i > 0 {
            out.push(COMMA);
            out.push(SPACE);
            assert(out@ =~= before + seq![COMMA, SPACE]);
        }
        push_quoted(out, ids[i].as_str().as_bytes());
        assert(out@ =~= old(out)@ + list_items(items.take(i + 1)));
        i = i + 1;
    }
    assert(items.take(i as int) =~= items);
    out.push(BRACKET);
    assert(out@ =~= old(out)@ + list(items));
}

/// Appends the record of `package` to `out`.
fn push_record(out: &mut Vec<u8>, package: &Package)
    ensures
        final(out)@ == old(out)@ + format_record(package@),
{
    push_bytes(out, "[[packages]]\nname = ".as_bytes());
    push_quoted(out, package.name.as_str().as_bytes());
    push_bytes(out, "\nid = ".as_bytes());
    push_quoted(out, package.id.as_str().as_bytes());
    push_bytes(out, "\ndependencies = [".as_bytes());
    push_list(out, &package.dependencies);
    push_bytes(out, "\n\n".as_bytes());
    assert(out@ =~= old(out)@ + format_record(package@));
}

/// The position behind `part`, where `part` stands in `bytes` at `pos`.
fn expect_at(bytes: &[u8], pos: usize, part: &[u8]) -> (next: Option<usize>)
    requires
        pos <= bytes@.len(),
    ensures
        match next {
            Some(next) => expect(bytes@, pos as int, part@) == Some(next as int),
            None => expect(bytes@, pos as int, part@) is None,
        },
{
    if part.len() > bytes.len() - pos {
        return None;
    }
    let mut i: usize = 0;
    while i < part.len()
        invariant
            i <= part@.len(),
            pos + part@.len() <= bytes@.len() <= usize::MAX,
            forall|j: int| 0 <= j < i ==> bytes@[pos + j] == part@[j],
        decreases part@.len() - i,
    {
        if bytes[pos + i] != part[i] {
            assert(bytes@.subrange(pos as int, pos + part@.len())[i as int] != part@[i as int]);
            return None;
        }
        i = i + 1;
    }
    assert(bytes@.subrange(pos as int, pos + part@.len()) =~= part@);
    Some(pos + part.len())
}

/// The text that is written in `bytes` from `pos` up to the closing quote,
/// and the position behind that quote.
fn read_text(bytes: &[u8], pos: usize) -> (found: Option<(Vec<u8>, usize)>)
    requires
        pos <= bytes@.len(),
    ensures
        match found {
            Some((text, end)) => parse_text(bytes@, pos as int) == Some((text@, end as int))
                && pos < end <= bytes@.len(),
            None => parse_text(bytes@, pos as int) is None,
        },
{
    let mut text: Vec<u8> = Vec::new();
    let mut at: usize = pos;
    loop
        invariant
            pos <= at <= bytes@.len(),
            parse_text(bytes@, pos as int) == match parse_text(bytes@, at as int) {
                Some((rest, end)) => Some((text@ + rest, end)),
                None => None,
            },
        decreases bytes@.len() - at,
    {
        if at >= bytes.len() {
            return None;
        }
        let byte = bytes[at];
        if byte == QUOTE {
            assert(text@ + Seq::<u8>::empty() =~= text@);
            return Some((text, at + 1));
        } else if byte == LINE_FEED {
            return None;
        } else if byte == BACKSLASH {
            if at + 1 >= bytes.len() {
                return None;
            }
            let escaped = bytes[at + 1];
            let plain = if escaped == QUOTE {
                QUOTE
            } else if escaped == BACKSLASH {
                BACKSLASH
            } else if escaped == LETTER_N {
                LINE_FEED
            } else {
                return None;
            };
            proof {
                if let Some((rest, end)) = parse_text(bytes@, at + 2) {
                    assert(text@ + (seq![plain] + rest) =~= text@.push(plain) + rest);
                }
            }
            text.push(plain);
            at = at + 2;
        } else {
            proof {
                if let Some((rest, end)) = parse_text(bytes@, at + 1) {
                    assert(text@ + (seq![byte] + rest) =~= text@.push(byte) + rest);
                }
            }
            text.push(byte);
            at = at + 1;
        }
    }
}

/// The text that is written in quotes in `bytes` at `pos`, and the position
/// behind the closing quote.
fn read_quoted(bytes: &[u8], pos: usize) -> (found: Option<(Vec<u8>, usize)>)
    requires
        pos <= bytes@.len(),
    ensures
        match found {
            Some((text, end)) => parse_quoted(bytes@, pos as int) == Some((text@, end as int))
                && pos < end <= bytes@.len(),
            None => parse_quoted(bytes@, pos as int) is None,
        },
{
    if pos < bytes.len() && bytes[pos] == QUOTE {
        read_text(bytes, pos + 1)
    } else {
        None
    }
}

/// The texts of the list that is written in `bytes` from `pos` on, behind
/// the opening bracket, and the position behind the closing bracket.
fn read_list(bytes: &[u8], pos: usize) -> (found: Option<(Vec<Vec<u8>>, usize)>)
    requires
        pos <= bytes@.len(),
    ensures
        match found {
            Some((items, end)) => parse_list(bytes@, pos as int) == Some(
                (views(items@), end as int),
            ) && pos < end <= bytes@.len(),
            None => parse_list(bytes@, pos as int) is None,
        },
{
    let mut items: Vec<Vec<u8>> = Vec::new();
    if pos < bytes.len() && bytes[pos] == BRACKET {
        assert(views(items@) =~= Seq::<Seq<u8>>::empty());
        return Some((items, pos + 1));
    }
    let mut at: usize = pos;
    assert(views(items@) =~= Seq::<Seq<u8>>::empty());
    assert forall|rest: Seq<Seq<u8>>| #[trigger] (Seq::<Seq<u8>>::empty() + rest) == rest by {
        assert(Seq::<Seq<u8>>::empty() + rest =~= rest);
    }
    loop
        invariant
            pos <= at <= bytes@.len() <= usize::MAX,
            parse_list(bytes@, pos as int) == parse_items(bytes@, pos as int),
            parse_items(bytes@, pos as int) == match parse_items(bytes@, at as int) {
                Some((rest, end)) => Some((views(items@) + rest, end)),
                None => None,
            },
        decreases bytes@.len() - at,
    {
        match read_quoted(bytes, at) {
            None => {
                return None;
            },
            Some((item, next)) => {
                let ghost before = views(items@);
                if next >= bytes.len() {
                    return None;
                }
                if bytes[next] == BRACKET {
                    items.push(item);
                    assert(views(items@) =~= before + seq![item@]);
                    return Some((items, next + 1));
                }
                if bytes.len() - next >= 2 && bytes[next] == COMMA && bytes[next + 1] == SPACE {
                    assert(bytes@.subrange(next as int, next + 2) =~= seq![COMMA, SPACE]);
                    proof {
                        if let Some((rest, end)) = parse_items(bytes@, next + 2) {
                            assert(before + (seq![item@] + rest) =~= before.push(item@) + rest);
                        }
                    }
                    items.push(item);
                    assert(views(items@) =~= before.push(item@));
                    at = next + 2;
                } else {
                    proof {
                        if has_at(bytes@, next as int, seq![COMMA, SPACE]) {
                            let part = bytes@.subrange(next as int, next + 2);
                            assert(part[0] == COMMA);
                            assert(part[1] == SPACE);
                        }
                    }
                    return None;
                }
            },
        }
    }
}

/// The identifiers that the byte strings are the encodings of; `None` where
/// one of them is not an encoding.
fn decode_ids(items: &Vec<Vec<u8>>) -> (found: Option<Vec<PackageId>>)
    ensures
        match found {
            Some(ids) => all_valid(views(items@)) && views(ids@) == decode_all(views(items@)),
            None => !all_valid(views(items@)),
        },
{
    let mut ids: Vec<PackageId> = Vec::new();
    let mut i: usize = 0;
    while i < items.len()
        invariant
            i <= items@.len(),
            ids@.len() == i,
            forall|j: int| 0 <= j < i ==> valid_utf8(#[trigger] views(items@)[j]),
            forall|j: int| 0 <= j < i ==> #[trigger] ids@[j]@ == decode_utf8(items@[j]@),
        decreases items@.len() - i,
    {
        match text_from_utf8(items[i].as_slice()) {
            None => {
                assert(!valid_utf8(views(items@)[i as int]));
                return None;
            },
            Some(text) => {
                proof {
                    encode_utf8_decode_utf8(text@);
                }
                ids.push(PackageId::from(text));
            },
        }
        i = i + 1;
    }
    assert(views(ids@) =~= decode_all(views(items@)));
    Some(ids)
}

/// The package whose record is written in `bytes` at `pos`, and the
/// position behind the record.
fn read_record(bytes: &[u8], pos: usize) -> (found: Option<(Package, usize)>)
    requires
        pos <= bytes@.len(),
    ensures
        match found {
            Some((package, end)) => parse_record(bytes@, pos as int) == Some(
                (package@, end as int),
            ) && pos < end <= bytes@.len(),
            None => parse_record(bytes@, pos as int) is None,
        },
{
    let at_name = match expect_at(bytes, pos, "[[packages]]\nname = ".as_bytes()) {
        Some(next) => next,
        None => {
            return None;
        },
    };
    let (name, after_name) = match read_quoted(bytes, at_name) {
        Some(found) => found,
        None => {
            return None;
        },
    };
    let at_id = match expect_at(bytes, after_name, "\nid = ".as_bytes()) {
        Some(next) => next,
        None => {
            return None;
        },
    };
    let (id, after_id) = match read_quoted(bytes, at_id) {
        Some(found) => found,
        None => {
            return None;
        },
    };
    let at_list = match expect_at(bytes, after_id, "\ndependencies = [".as_bytes()) {
        Some(next) => next,
        None => {
            return None;
        },
    };
    let (items, after_list) = match read_list(bytes, at_list) {
        Some(found) => found,
        None => {
            return None;
        },
    };
    let end = match expect_at(bytes, after_list, "\n\n".as_bytes()) {
        Some(next) => next,
        None => {
            return None;
        },
    };
    let ghost raw = RawRecord { name: name@, id: id@, dependencies: views(items@) };
    assert(parse_raw_record(bytes@, pos as int) == Some((raw, end as int)));
    let name = match text_from_utf8(name.as_slice()) {
        Some(text) => text,
        None => {
            return None;
        },
    };
    let id = match text_from_utf8(id.as_slice()) {
        Some(text) => text,
        None => {
            return None;
        },
    };
    let dependencies = match decode_ids(&items) {
        Some(ids) => ids,
        None => {
            return None;
        },
    };
    proof {
        encode_utf8_decode_utf8(name@);
        encode_utf8_decode_utf8(id@);
    }
    let package = Package { name, id: PackageId::from(id), dependencies };
    Some((package, end))
}

impl Lockfile {
    /// The lock file, as it is written.
    pub fn to_bytes(&self) -> (bytes: Vec<u8>)
        ensures
            bytes@ == format_lock(self@),
    {
        let mut bytes: Vec<u8> = Vec::new();
        let mut i: usize = 0;
        assert(self@.take(0) =~= Seq::<PackageView>::empty());
        while i < self.packages.len()
            invariant
                i <= self.packages@.len(),
                bytes@ == format_lock(self@.take(i as int)),
            decreases self.packages@.len() - i,
        {
            assert(self@.take(i + 1).drop_last() =~= self@.take(i as int));
            assert(self@.take(i + 1).last() == self.packages@[i as int]@);
            push_record(&mut bytes, &self.packages[i]);
            i = i + 1;
        }
        assert(self@.take(i as int) =~= self@);
        bytes
    }
}

/// Writes the lock file of a workspace: a record for each member, in
/// ascending order of identifier.
pub fn serialize(workspace: &Workspace) -> (bytes: Vec<u8>)
    ensures
        bytes@ == format_lock(lock_records(workspace@)),
{
    workspace.to_lockfile().to_bytes()
}

/// Reads a lock file.
///
/// Succeeds on the bytes that `to_bytes` writes for some records, and gives
/// these records; fails on all other bytes.
pub fn deserialize(bytes: &[u8]) -> (read: Result<Lockfile, SkeletonError>)
    ensures
        match read {
            Ok(lockfile) => parse_lock(bytes@) == Some(lockfile@) && format_lock(lockfile@)
                == bytes@,
            Err(error) => {
                &&& parse_lock(bytes@) is None
                &&& error@ == ErrorView::CorruptLockfile
                &&& forall|records: Seq<PackageView>| #[trigger] format_lock(records) != bytes@
            },
        },
{
    let read = read_records(bytes);
    proof {
        match read {
            Ok(_) => {
                lemma_format_parse(bytes@);
            },
            Err(_) => {
                assert forall|records: Seq<PackageView>| #[trigger]
                    format_lock(records) != bytes@ by {
                    lemma_parse_format(records);
                }
            },
        }
    }
    read
}

/// Reads the records of a lock file, one after the other.
fn read_records(bytes: &[u8]) -> (read: Result<Lockfile, SkeletonError>)
    ensures
        match read {
            Ok(lockfile) => parse_lock(bytes@) == Some(lockfile@),
            Err(error) => parse_lock(bytes@) is None && error@ == ErrorView::CorruptLockfile,
        },
{
    let mut packages: Vec<Package> = Vec::new();
    let mut at: usize = 0;
    assert(views(packages@) =~= Seq::<PackageView>::empty());
    assert forall|rest: Seq<PackageView>| #[trigger] (Seq::<PackageView>::empty() + rest)
        == rest by {
        assert(Seq::<PackageView>::empty() + rest =~= rest);
    }
    while at < bytes.len()
        invariant
            at <= bytes@.len(),
            parse_lock(bytes@) == match parse_records(bytes@, at as int) {
                Some(rest) => Some(views(packages@) + rest),
                None => None,
            },
        decreases bytes@.len() - at,
    {
        match read_record(bytes, at) {
            None => {
                return Err(SkeletonError::CorruptLockfile);
            },
            Some((package, next)) => {
                let ghost before = views(packages@);
                proof {
                    if let Some(rest) = parse_records(bytes@, next as int) {
                        assert(before + (seq![package@] + rest) =~= before.push(package@) + rest);
                    }
                }
                packages.push(package);
                assert(views(packages@) =~= before.push(package@));
                at = next;
            },
        }
    }
    assert(views(packages@) + Seq::<PackageView>::empty() =~= views(packages@));
    Ok(Lockfile { packages })
}

} // verus!
