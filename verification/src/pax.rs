//! The records of a pax extended header.
//!
//! A record is written `"%d %s=%s\n"`: its length in decimal digits, a space, a keyword, `=`, a
//! value and a newline. The length counts every byte of the record, its own digits and the
//! newline among them.
use crate::bytes::{
    find_byte, first_at, lemma_first_at, lemma_first_at_unique, opens_with, same_bytes,
};
use crate::error::EntryError;
use crate::read::concat;
use core::str::Utf8Error;
use vstd::prelude::*;
use vstd::slice::slice_subrange;
use vstd::utf8::{decode_utf8, valid_utf8};

verus! {

/// The space between a record's length and its keyword.
pub const SPACE: u8 = 0x20;

/// The sign between a record's keyword and its value.
pub const EQUALS: u8 = 0x3d;

/// The end of a record.
pub const NEWLINE: u8 = 0x0a;

/// The digit `0`.
pub const ZERO: u8 = 0x30;

/// The digit `9`.
pub const NINE: u8 = 0x39;

/// The meaning of one record.
pub struct Record {
    pub key: Seq<u8>,
    pub value: Seq<u8>,
}

/// Whether a text is made of decimal digits, at least one.
pub open spec fn is_decimal(text: Seq<u8>) -> bool {
    text.len() > 0 && forall|i: int| 0 <= i < text.len() ==> ZERO <= #[trigger] text[i] <= NINE
}

/// The number that decimal digits write.
pub open spec fn decimal_value(text: Seq<u8>) -> nat
    decreases text.len(),
{
    if text.len() == 0 {
        0
    } else {
        10 * decimal_value(text.drop_last()) + (text.last() - ZERO) as nat
    }
}

/// Whether `text` is exactly one record with this keyword and value. A keyword holds no `=`.
pub open spec fn is_record(text: Seq<u8>, key: Seq<u8>, value: Seq<u8>) -> bool {
    exists|digits: Seq<u8>| #[trigger] is_record_with(text, digits, key, value)
}

/// Whether `text` is one record, with its length written by `digits`.
pub open spec fn is_record_with(
    text: Seq<u8>,
    digits: Seq<u8>,
    key: Seq<u8>,
    value: Seq<u8>,
) -> bool {
    &&& is_decimal(digits)
    &&& decimal_value(digits) == text.len()
    &&& !key.contains(EQUALS)
    &&& text == digits.push(SPACE) + key.push(EQUALS) + value.push(NEWLINE)
}

/// The record that `data` opens with, and its length. There is none if `data` does not open with
/// a record.
pub open spec fn first_record(data: Seq<u8>) -> Option<(Record, int)> {
    let space = first_at(data, SPACE);
    let digits = data.take(space);
    let len = decimal_value(digits);
    if space < data.len() && is_decimal(digits) && space + 2 <= len <= data.len() && data[len - 1]
        == NEWLINE {
        let body = data.subrange(space + 1, len - 1);
        let equals = first_at(body, EQUALS);
        if equals < body.len() {
            Some((Record { key: body.take(equals), value: body.skip(equals + 1) }, len as int))
        } else {
            None
        }
    } else {
        None
    }
}

/// The records of an extended header, up to the first place where there is none.
pub open spec fn records(data: Seq<u8>) -> Seq<Record>
    decreases data.len(),
{
    match first_record(data) {
        Some((record, len)) => if 0 < len <= data.len() {
            seq![record] + records(data.skip(len))
        } else {
            Seq::empty()
        },
        None => Seq::empty(),
    }
}

/// Whether an extended header is made of records alone.
pub open spec fn well_formed(data: Seq<u8>) -> bool
    decreases data.len(),
{
    data.len() == 0 || match first_record(data) {
        Some((_, len)) => 0 < len <= data.len() && well_formed(data.skip(len)),
        None => false,
    }
}

/// The value of the last record with the given keyword.
pub open spec fn last_value(list: Seq<Record>, key: Seq<u8>) -> Option<Seq<u8>>
    decreases list.len(),
{
    if list.len() == 0 {
        None
    } else if list.last().key == key {
        Some(list.last().value)
    } else {
        last_value(list.drop_last(), key)
    }
}

/// The records whose keyword opens with `prefix`, with the rest of the keyword.
pub open spec fn with_prefix(list: Seq<Record>, prefix: Seq<u8>) -> Seq<Record>
    decreases list.len(),
{
    if list.len() == 0 {
        Seq::empty()
    } else {
        let front = with_prefix(list.drop_last(), prefix);
        let last = list.last();
        if prefix.is_prefix_of(last.key) {
            front.push(Record { key: last.key.skip(prefix.len() as int), value: last.value })
        } else {
            front
        }
    }
}

/// The length of a record lies within the data.
pub proof fn lemma_first_record(data: Seq<u8>)
    ensures
        first_record(data) matches Some((_, len)) ==> 0 < len <= data.len(),
{
    lemma_first_at(data, SPACE);
}

/// A record read from the front of any data is found with its keyword and value, whatever follows.
pub proof fn law_record_is_read(
    text: Seq<u8>,
    key: Seq<u8>,
    value: Seq<u8>,
    rest: Seq<u8>,
)
    requires
        is_record(text, key, value),
    ensures
        first_record(text + rest) == Some((Record { key, value }, text.len() as int)),
{
    let digits = choose|digits: Seq<u8>| #[trigger] is_record_with(text, digits, key, value);
    let data = text + rest;
    assert forall|i: int| 0 <= i < digits.len() implies data[i] != SPACE by {
        assert(data[i] == digits[i]);
    }
    assert(data[digits.len() as int] == SPACE);
    lemma_first_at_unique(data, SPACE, digits.len() as int);
    assert(data.take(digits.len() as int) =~= digits);
    let len = text.len();
    assert(data[len - 1] == NEWLINE);
    let body = data.subrange(digits.len() as int + 1, len - 1);
    assert(body =~= key.push(EQUALS) + value);
    assert forall|i: int| 0 <= i < key.len() implies body[i] != EQUALS by {
        assert(body[i] == key[i]);
        assert(key.contains(key[i]));
    }
    lemma_first_at_unique(body, EQUALS, key.len() as int);
    assert(body.take(key.len() as int) =~= key);
    assert(body.skip(key.len() as int + 1) =~= value);
}

/// What is read as a record is written as one.
pub proof fn law_read_is_record(data: Seq<u8>)
    ensures
        first_record(data) matches Some((record, len)) ==> is_record(
            data.take(len),
            record.key,
            record.value,
        ),
{
    if let Some((record, len)) = first_record(data) {
        let space = first_at(data, SPACE);
        lemma_first_at(data, SPACE);
        let digits = data.take(space);
        let body = data.subrange(space + 1, len - 1);
        lemma_first_at(body, EQUALS);
        let equals = first_at(body, EQUALS);
        assert(!record.key.contains(EQUALS)) by {
            if record.key.contains(EQUALS) {
                let i = choose|i: int| 0 <= i < record.key.len() && record.key[i] == EQUALS;
                assert(body[i] == EQUALS);
            }
        }
        assert(data.take(len) =~= digits.push(SPACE) + record.key.push(EQUALS) + record.value.push(
            NEWLINE,
        ));
        assert(is_record_with(data.take(len), digits, record.key, record.value));
    }
}

/// A record that follows other records is read after them.
pub proof fn lemma_record_is_added(data: Seq<u8>, text: Seq<u8>, key: Seq<u8>, value: Seq<u8>)
    requires
        well_formed(data),
        is_record(text, key, value),
    ensures
        well_formed(data + text),
        records(data + text) == records(data).push(Record { key, value }),
    decreases data.len(),
{
    let whole = data + text;
    let added = Record { key, value };
    if data.len() == 0 {
        let none = Seq::<u8>::empty();
        law_record_is_read(text, key, value, none);
        assert(whole =~= text);
        assert(text + none =~= text);
        assert(text.skip(text.len() as int) =~= none);
        lemma_first_at(none, SPACE);
        assert(first_record(none) is None);
        lemma_first_record(data);
        assert(records(none) =~= Seq::empty());
        assert(data =~= none);
        lemma_first_record(text);
        assert(records(whole) =~= seq![added]);
        assert(records(data).push(added) =~= seq![added]);
    } else {
        lemma_first_record(data);
        law_read_is_record(data);
        let (record, len) = first_record(data).unwrap();
        let rest = data.skip(len);
        law_record_is_read(data.take(len), record.key, record.value, rest + text);
        assert(data.take(len) + (rest + text) =~= whole);
        assert(whole.skip(len) =~= rest + text);
        lemma_record_is_added(rest, text, key, value);
        assert(records(whole) =~= records(data).push(added));
    }
}

/// Of several records with one keyword the last one counts: a record added at the end decides the
/// value of its keyword, and that of no other.
pub proof fn law_last_record_wins(
    data: Seq<u8>,
    text: Seq<u8>,
    key: Seq<u8>,
    value: Seq<u8>,
    other: Seq<u8>,
)
    requires
        well_formed(data),
        is_record(text, key, value),
        other != key,
    ensures
        well_formed(data + text),
        last_value(records(data + text), key) == Some(value),
        last_value(records(data + text), other) == last_value(records(data), other),
{
    lemma_record_is_added(data, text, key, value);
    let list = records(data).push(Record { key, value });
    assert(list.drop_last() =~= records(data));
}

/// Each further digit makes ten times as much of the number and adds its own worth; the digits `0`
/// to `9` are worth zero to nine.
pub proof fn law_decimal_digits(text: Seq<u8>, digit: u8)
    requires
        0x30 <= digit <= 0x39,
    ensures
        decimal_value(text.push(digit)) == 10 * decimal_value(text) + (digit - 0x30),
        decimal_value(seq![digit]) == digit - 0x30,
        decimal_value(Seq::empty()) == 0,
        is_decimal(text.push(digit)) <==> text.len() == 0 || is_decimal(text),
        !is_decimal(Seq::empty()),
{
    let long = text.push(digit);
    assert(long.drop_last() =~= text);
    let one = seq![digit];
    assert(one.drop_last() =~= Seq::empty());
    assert(decimal_value(one.drop_last()) == 0);
    assert(one.last() == digit);
    if text.len() == 0 || is_decimal(text) {
        assert forall|i: int| 0 <= i < long.len() implies ZERO <= #[trigger] long[i] <= NINE by {
            if i < text.len() {
                assert(text[i] == long[i]);
            }
        }
    }
    if is_decimal(long) && text.len() > 0 {
        assert forall|i: int| 0 <= i < text.len() implies ZERO <= #[trigger] text[i] <= NINE by {
            assert(long[i] == text[i]);
        }
    }
}

/// A byte that is no digit makes no number, wherever it stands.
pub proof fn law_decimal_is_digits(text: Seq<u8>)
    ensures
        is_decimal(text) <==> text.len() > 0 && forall|i: int|
            0 <= i < text.len() ==> 0x30 <= #[trigger] text[i] <= 0x39,
{
}

/// A record as it is written, its length in digits, a space, a keyword without `=`, a `=`, a value
/// and a newline, is read with this keyword and this value, whatever bytes the value holds and
/// whatever follows the record.
pub proof fn law_written_record_is_read(
    digits: Seq<u8>,
    key: Seq<u8>,
    value: Seq<u8>,
    rest: Seq<u8>,
)
    requires
        digits.len() > 0,
        forall|i: int| 0 <= i < digits.len() ==> 0x30 <= #[trigger] digits[i] <= 0x39,
        !key.contains(0x3d),
        decimal_value(digits) == digits.len() + key.len() + value.len() + 3,
    ensures
        ({
            let text = digits.push(0x20) + key.push(0x3d) + value.push(0x0a);
            &&& first_record(text + rest) == Some((Record { key, value }, text.len() as int))
            &&& records(text + rest) == seq![Record { key, value }] + records(rest)
            &&& well_formed(text + rest) == well_formed(rest)
        }),
{
    let text = digits.push(0x20) + key.push(0x3d) + value.push(0x0a);
    assert(is_record_with(text, digits, key, value));
    law_record_is_read(text, key, value, rest);
    assert((text + rest).skip(text.len() as int) =~= rest);
}

/// What is read as a record is written as one at the front of the data, with nothing left out.
pub proof fn law_read_record_is_written(data: Seq<u8>)
    ensures
        first_record(data) matches Some((record, len)) ==> 0 < len <= data.len() && exists|
            digits: Seq<u8>,
        |
            data.take(len) == #[trigger] digits.push(0x20) + record.key.push(0x3d)
                + record.value.push(0x0a) && is_decimal(digits) && decimal_value(digits) == len
                && !record.key.contains(0x3d),
{
    lemma_first_record(data);
    law_read_is_record(data);
    if let Some((record, len)) = first_record(data) {
        let digits = choose|digits: Seq<u8>| #[trigger]
            is_record_with(data.take(len), digits, record.key, record.value);
        assert(data.take(len) == digits.push(0x20) + record.key.push(0x3d) + record.value.push(
            0x0a,
        ));
    }
}

/// Whether texts are records, one each, with these keywords and values.
pub open spec fn write_records(texts: Seq<Seq<u8>>, list: Seq<Record>) -> bool {
    texts.len() == list.len() && forall|i: int|
        0 <= i < texts.len() ==> is_record(#[trigger] texts[i], list[i].key, list[i].value)
}

/// Records written one after the other are read as they were written, all of them, in their order.
pub proof fn law_all_records_are_read(texts: Seq<Seq<u8>>, list: Seq<Record>)
    requires
        write_records(texts, list),
    ensures
        well_formed(concat(texts)),
        records(concat(texts)) == list,
    decreases texts.len(),
{
    if texts.len() == 0 {
        assert(concat(texts) =~= Seq::empty());
        lemma_first_record(concat(texts));
        assert(records(concat(texts)) =~= list);
    } else {
        let rest = texts.drop_first();
        let later = list.drop_first();
        assert forall|i: int| 0 <= i < rest.len() implies is_record(
            #[trigger] rest[i],
            later[i].key,
            later[i].value,
        ) by {
            assert(is_record(texts[i + 1], list[i + 1].key, list[i + 1].value));
        }
        law_all_records_are_read(rest, later);
        assert(is_record(texts[0], list[0].key, list[0].value));
        law_record_is_read(texts[0], list[0].key, list[0].value, concat(rest));
        lemma_first_record(concat(texts));
        assert(concat(texts).skip(texts[0].len() as int) =~= concat(rest));
        assert(records(concat(texts)) =~= list) by {
            assert(list[0] == (Record { key: list[0].key, value: list[0].value }));
            assert(seq![list[0]] + later =~= list);
        }
    }
}

/// Data is well-formed only if it is records written one after the other, those that are read from
/// it, and nothing else.
pub proof fn law_well_formed_is_records(data: Seq<u8>)
    requires
        well_formed(data),
    ensures
        exists|texts: Seq<Seq<u8>>|
            #[trigger] write_records(texts, records(data)) && concat(texts) == data,
    decreases data.len(),
{
    lemma_first_record(data);
    if data.len() == 0 {
        let texts = Seq::<Seq<u8>>::empty();
        assert(records(data) =~= Seq::empty());
        assert(write_records(texts, records(data)));
        assert(concat(texts) =~= data);
    } else {
        law_read_is_record(data);
        let (record, len) = first_record(data).unwrap();
        let rest = data.skip(len);
        law_well_formed_is_records(rest);
        let later = choose|texts: Seq<Seq<u8>>|
            #[trigger] write_records(texts, records(rest)) && concat(texts) == rest;
        let texts = seq![data.take(len)] + later;
        assert(texts.drop_first() =~= later);
        assert forall|i: int| 0 <= i < texts.len() implies is_record(
            #[trigger] texts[i],
            records(data)[i].key,
            records(data)[i].value,
        ) by {
            if i > 0 {
                let r = records(rest)[i - 1];
                assert(is_record(later[i - 1], r.key, r.value));
            }
        }
        assert(write_records(texts, records(data)));
        assert(concat(texts) =~= data);
    }
}

/// The value of a keyword is that of its last record: there is one exactly if some record has the
/// keyword.
pub proof fn law_value_is_of_the_last_record(list: Seq<Record>, key: Seq<u8>)
    ensures
        match last_value(list, key) {
            Some(value) => exists|i: int|
                0 <= i < list.len() && #[trigger] list[i] == (Record { key, value })
                    && forall|j: int| i < j < list.len() ==> (#[trigger] list[j]).key != key,
            None => forall|i: int| 0 <= i < list.len() ==> (#[trigger] list[i]).key != key,
        },
    decreases list.len(),
{
    if list.len() > 0 {
        let front = list.drop_last();
        let last = list.len() - 1;
        if list.last().key == key {
            assert(list[last] == (Record { key, value: list.last().value }));
        } else {
            law_value_is_of_the_last_record(front, key);
            if let Some(value) = last_value(front, key) {
                let i = choose|i: int|
                    0 <= i < front.len() && #[trigger] front[i] == (Record { key, value })
                        && forall|j: int| i < j < front.len() ==> (#[trigger] front[j]).key != key;
                assert(list[i] == (Record { key, value }));
                assert forall|j: int| i < j < list.len() implies (#[trigger] list[j]).key
                    != key by {
                    if j < front.len() {
                        assert(front[j].key != key);
                    }
                }
            } else {
                assert forall|i: int| 0 <= i < list.len() implies (#[trigger] list[i]).key
                    != key by {
                    if i < front.len() {
                        assert(front[i].key != key);
                    }
                }
            }
        }
    }
}

/// Picking records by the front of their keyword goes record by record: one whose keyword opens
/// with it is kept with the rest of its keyword and its whole value, and no other is, and the order
/// stays.
pub proof fn law_with_prefix_goes_by_record(a: Seq<Record>, b: Seq<Record>, prefix: Seq<u8>)
    ensures
        with_prefix(a + b, prefix) == with_prefix(a, prefix) + with_prefix(b, prefix),
        with_prefix(Seq::empty(), prefix).len() == 0,
        forall|rest: Seq<u8>, value: Seq<u8>|
            #![trigger with_prefix(seq![Record { key: prefix + rest, value }], prefix)]
            with_prefix(seq![Record { key: prefix + rest, value }], prefix) == seq![
                Record { key: rest, value },
            ],
        forall|record: Record|
            !prefix.is_prefix_of(record.key) ==> #[trigger] with_prefix(
                seq![record],
                prefix,
            ).len() == 0,
    decreases b.len(),
{
    if b.len() == 0 {
        assert(a + b =~= a);
        assert(with_prefix(a, prefix) + with_prefix(b, prefix) =~= with_prefix(a, prefix));
    } else {
        law_with_prefix_goes_by_record(a, b.drop_last(), prefix);
        assert((a + b).drop_last() =~= a + b.drop_last());
        assert((a + b).last() == b.last());
        assert(with_prefix(a + b, prefix) =~= with_prefix(a, prefix) + with_prefix(b, prefix));
    }
    assert forall|rest: Seq<u8>, value: Seq<u8>|
        #![trigger with_prefix(seq![Record { key: prefix + rest, value }], prefix)]
        with_prefix(seq![Record { key: prefix + rest, value }], prefix) == seq![
            Record { key: rest, value },
        ] by {
        let key = prefix + rest;
        let one = seq![Record { key, value }];
        assert(prefix =~= key.subrange(0, prefix.len() as int));
        assert(key.skip(prefix.len() as int) =~= rest);
        assert(one.drop_last() =~= Seq::empty());
        assert(with_prefix(one.drop_last(), prefix) =~= Seq::empty());
        assert(with_prefix(one, prefix) =~= seq![Record { key: rest, value }]);
    }
    assert forall|record: Record| !prefix.is_prefix_of(record.key) implies #[trigger] with_prefix(
        seq![record],
        prefix,
    ).len() == 0 by {
        let one = seq![record];
        assert(one.drop_last() =~= Seq::empty());
        assert(with_prefix(one.drop_last(), prefix) =~= Seq::empty());
    }
}

/// One record of an extended header.
#[derive(Debug, Clone, Copy)]
pub struct PaxExtension<'a> {
    key: &'a [u8],
    value: &'a [u8],
}

impl<'a> View for PaxExtension<'a> {
    type V = Record;

    closed spec fn view(&self) -> Record {
        Record { key: self.key@, value: self.value@ }
    }
}

impl<'a> PaxExtension<'a> {
    /// The keyword as text, if it is valid UTF-8.
    pub fn key(&self) -> (text: Result<&'a str, Utf8Error>)
        ensures
            text is Ok <==> valid_utf8(self@.key),
            text matches Ok(s) ==> s@ == decode_utf8(self@.key),
    {
        core::str::from_utf8(self.key)
    }

    /// The keyword.
    pub fn key_bytes(&self) -> (bytes: &'a [u8])
        ensures
            bytes@ == self@.key,
    {
        self.key
    }

    /// The value as text, if it is valid UTF-8.
    pub fn value(&self) -> (text: Result<&'a str, Utf8Error>)
        ensures
            text is Ok <==> valid_utf8(self@.value),
            text matches Ok(s) ==> s@ == decode_utf8(self@.value),
    {
        core::str::from_utf8(self.value)
    }

    /// The value.
    pub fn value_bytes(&self) -> (bytes: &'a [u8])
        ensures
            bytes@ == self@.value,
    {
        self.value
    }
}

/// The number that decimal digits write, as long as it is at most `limit`.
fn parse_decimal(text: &[u8], limit: usize) -> (value: Option<usize>)
    ensures
        match value {
            Some(n) => is_decimal(text@) && n == decimal_value(text@) && n <= limit,
            None => !is_decimal(text@) || decimal_value(text@) > limit,
        },
{
    if text.len() == 0 {
        return None;
    }
    let mut value: usize = 0;
    let mut i: usize = 0;
    assert(text@.take(0) =~= Seq::empty());
    while i < text.len()
        invariant
            i <= text@.len(),
            text@.len() > 0,
            forall|j: int| 0 <= j < i ==> ZERO <= #[trigger] text@[j] <= NINE,
            value == decimal_value(text@.take(i as int)),
            value <= limit,
        decreases text@.len() - i,
    {
        let ghost longer = text@.take(i + 1);
        assert(longer.drop_last() =~= text@.take(i as int));
        let byte = text[i];
        if byte < ZERO || byte > NINE {
            return None;
        }
        let digit: usize = (byte - ZERO) as usize;
        if digit > limit || value > (limit - digit) / 10 {
            assert(decimal_value(longer) > limit);
            proof {
                lemma_decimal_grows(text@, i + 1);
            }
            return None;
        }
        value = value * 10 + digit;
        i += 1;
    }
    assert(text@.take(i as int) =~= text@);
    Some(value)
}

/// More digits never make a smaller number.
proof fn lemma_decimal_grows(text: Seq<u8>, upto: int)
    requires
        0 <= upto <= text.len(),
    ensures
        is_decimal(text) ==> decimal_value(text.take(upto)) <= decimal_value(text),
    decreases text.len(),
{
    if upto == text.len() {
        assert(text.take(upto) =~= text);
    } else if is_decimal(text) {
        let front = text.drop_last();
        assert(front.take(upto) =~= text.take(upto));
        assert(text.last() == text[text.len() - 1]);
        if front.len() > 0 {
            assert(is_decimal(front)) by {
                assert forall|i: int| 0 <= i < front.len() implies ZERO <= #[trigger] front[i]
                    <= NINE by {
                    assert(front[i] == text[i]);
                }
            }
            lemma_decimal_grows(front, upto);
        } else {
            assert(text.take(upto) =~= Seq::empty());
        }
    }
}

/// Reads the record that `data` opens with.
fn read_record<'a>(data: &'a [u8]) -> (found: Option<(PaxExtension<'a>, usize)>)
    ensures
        match found {
            Some((ext, len)) => first_record(data@) == Some((ext@, len as int)),
            None => first_record(data@) is None,
        },
{
    let space = find_byte(data, SPACE);
    proof {
        lemma_first_at(data@, SPACE);
    }
    if space == data.len() {
        return None;
    }
    let digits = slice_subrange(data, 0, space);
    assert(digits@ =~= data@.take(space as int));
    let len = match parse_decimal(digits, data.len()) {
        Some(len) => len,
        None => {
            return None;
        },
    };
    if len < 2 || len - 2 < space || data[len - 1] != NEWLINE {
        return None;
    }
    let body = slice_subrange(data, space + 1, len - 1);
    let equals = find_byte(body, EQUALS);
    if equals == body.len() {
        return None;
    }
    let key = slice_subrange(body, 0, equals);
    let value = slice_subrange(body, equals + 1, body.len());
    assert(key@ =~= body@.take(equals as int));
    assert(value@ =~= body@.skip(equals + 1));
    Some((PaxExtension { key, value }, len))
}

/// The records of an extended header, one after the other.
#[derive(Debug)]
pub struct PaxExtensions<'a> {
    data: &'a [u8],
}

impl<'a> PaxExtensions<'a> {
    /// What has not been read yet.
    pub closed spec fn rest(&self) -> Seq<u8> {
        self.data@
    }

    /// The next record. At the end there is none; where no record can be read there is an error,
    /// and nothing after it.
    pub fn next(&mut self) -> (item: Option<Result<PaxExtension<'a>, EntryError>>)
        ensures
            match item {
                None => old(self).rest().len() == 0 && final(self).rest().len() == 0,
                Some(Ok(ext)) => match first_record(old(self).rest()) {
                    Some((record, len)) => {
                        &&& old(self).rest().len() > 0
                        &&& ext@ == record
                        &&& final(self).rest() == old(self).rest().skip(len)
                    },
                    None => false,
                },
                Some(Err(e)) => {
                    &&& old(self).rest().len() > 0
                    &&& first_record(old(self).rest()) is None
                    &&& e is MalformedPaxExtension
                    &&& final(self).rest().len() == 0
                },
            },
    {
        let data = self.data;
        if data.len() == 0 {
            return None;
        }
        match read_record(data) {
            Some((ext, len)) => {
                proof {
                    lemma_first_record(data@);
                }
                self.data = slice_subrange(data, len, data.len());
                assert(self.data@ =~= data@.skip(len as int));
                Some(Ok(ext))
            },
            None => {
                self.data = slice_subrange(data, 0, 0);
                Some(Err(EntryError::MalformedPaxExtension))
            },
        }
    }
}

/// The records that `data` holds.
pub fn pax_extensions<'a>(data: &'a [u8]) -> (list: PaxExtensions<'a>)
    ensures
        list.rest() == data@,
{
    PaxExtensions { data }
}

/// The value that an extended header gives to a keyword: that of the last record, if there are
/// several.
pub fn find_value<'a>(data: &'a [u8], key: &[u8]) -> (found: Result<Option<&'a [u8]>, EntryError>)
    ensures
        match found {
            Ok(Some(value)) => well_formed(data@) && last_value(records(data@), key@) == Some(
                value@,
            ),
            Ok(None) => well_formed(data@) && last_value(records(data@), key@) is None,
            Err(e) => !well_formed(data@) && e is MalformedPaxExtension,
        },
{
    let mut list = pax_extensions(data);
    let mut found: Option<&'a [u8]> = None;
    let ghost mut seen = Seq::<Record>::empty();
    assert(seen + records(data@) =~= records(data@));
    loop
        invariant
            records(data@) == seen + records(list.rest()),
            well_formed(data@) == well_formed(list.rest()),
            match found {
                Some(value) => last_value(seen, key@) == Some(value@),
                None => last_value(seen, key@) is None,
            },
        decreases list.rest().len(),
    {
        let ghost before = list.rest();
        match list.next() {
            None => {
                assert(first_record(before) is None) by {
                    lemma_first_record(before);
                }
                assert(seen + records(before) =~= seen);
                return Ok(found);
            },
            Some(Err(e)) => {
                return Err(e);
            },
            Some(Ok(ext)) => {
                proof {
                    lemma_first_record(before);
                    assert(seen + records(before) =~= seen.push(ext@) + records(list.rest()));
                    assert(seen.push(ext@).drop_last() =~= seen);
                    seen = seen.push(ext@);
                }
                if same_bytes(ext.key_bytes(), key) {
                    found = Some(ext.value_bytes());
                }
            },
        }
    }
}

/// The records of an extended header whose keyword opens with `prefix`, each with the rest of its
/// keyword and its value.
pub fn find_with_prefix<'a>(data: &'a [u8], prefix: &[u8]) -> (found: Result<
    Vec<PaxExtension<'a>>,
    EntryError,
>)
    ensures
        match found {
            Ok(list) => well_formed(data@) && list@.map_values(|ext: PaxExtension<'a>| ext@)
                == with_prefix(records(data@), prefix@),
            Err(e) => !well_formed(data@) && e is MalformedPaxExtension,
        },
{
    let mut list = pax_extensions(data);
    let mut found: Vec<PaxExtension<'a>> = Vec::new();
    let ghost mut seen = Seq::<Record>::empty();
    assert(seen + records(data@) =~= records(data@));
    assert(found@.map_values(|ext: PaxExtension<'a>| ext@) =~= Seq::empty());
    loop
        invariant
            records(data@) == seen + records(list.rest()),
            well_formed(data@) == well_formed(list.rest()),
            found@.map_values(|ext: PaxExtension<'a>| ext@) == with_prefix(seen, prefix@),
        decreases list.rest().len(),
    {
        let ghost before = list.rest();
        match list.next() {
            None => {
                assert(first_record(before) is None) by {
                    lemma_first_record(before);
                }
                assert(seen + records(before) =~= seen);
                return Ok(found);
            },
            Some(Err(e)) => {
                return Err(e);
            },
            Some(Ok(ext)) => {
                let ghost kept = found@.map_values(|ext: PaxExtension<'a>| ext@);
                proof {
                    lemma_first_record(before);
                    assert(seen + records(before) =~= seen.push(ext@) + records(list.rest()));
                    assert(seen.push(ext@).drop_last() =~= seen);
                    seen = seen.push(ext@);
                }
                if opens_with(ext.key_bytes(), prefix) {
                    let key = slice_subrange(ext.key, prefix.len(), ext.key.len());
                    assert(key@ =~= ext@.key.skip(prefix@.len() as int));
                    let rest = PaxExtension { key, value: ext.value };
                    found.push(rest);
                    assert(found@.map_values(|ext: PaxExtension<'a>| ext@) =~= kept.push(rest@));
                }
            },
        }
    }
}

} // verus!
