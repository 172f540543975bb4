//! The text grammar of a response payload, as mathematical functions on
//! character sequences.
//!
//! A payload is a run of records, each closed by `;;`. A record is a run of
//! tokens separated by `;`, read in pairs: a key, then its value.

use crate::instance::InstanceRecord;
use vstd::prelude::*;

verus! {

/// The names a record may give to its values.
#[derive(Clone, Copy, Debug, PartialEq, Eq, Structural)]
pub enum FieldKey {
    ServerName,
    InstanceName,
    IsClustered,
    Version,
    NamedPipe,
    Tcp,
}

/// Number of characters of `text` that stand before its first `;`
/// (all of them when it holds none).
pub open spec fn token_len(text: Seq<char>) -> nat
    decreases text.len(),
{
    if text.len() == 0 || text[0] == ';' {
        0
    } else {
        1 + token_len(text.skip(1))
    }
}

/// Number of characters of `text` that stand before its first `;;`
/// (all of them when it holds none).
pub open spec fn record_len(text: Seq<char>) -> nat
    decreases text.len(),
{
    if text.len() == 0 || (text.len() >= 2 && text[0] == ';' && text[1] == ';') {
        0
    } else {
        1 + record_len(text.skip(1))
    }
}

/// The tokens of `record`: the pieces between its `;` characters, in order.
/// There is always at least one, and any of them may be empty.
pub open spec fn tokens(record: Seq<char>) -> Seq<Seq<char>>
    decreases record.len(),
{
    let n = token_len(record) as int;
    if n < record.len() {
        seq![record.take(n)] + tokens(record.skip(n + 1))
    } else {
        seq![record]
    }
}

/// The records of `text`: the pieces between its `;;` separators, found from
/// the left and without overlap.
pub open spec fn records(text: Seq<char>) -> Seq<Seq<char>>
    decreases text.len(),
{
    let n = record_len(text) as int;
    if n + 2 <= text.len() {
        seq![text.take(n)] + records(text.skip(n + 2))
    } else {
        seq![text]
    }
}

/// The records that are read: those that stand before the first empty one.
pub open spec fn leading_records(all: Seq<Seq<char>>) -> Seq<Seq<char>>
    decreases all.len(),
{
    if all.len() == 0 || all[0].len() == 0 {
        Seq::empty()
    } else {
        seq![all[0]] + leading_records(all.skip(1))
    }
}

/// The field that a key token names, if it names one.
pub open spec fn field_key(token: Seq<char>) -> Option<FieldKey> {
    if token == "ServerName"@ {
        Some(FieldKey::ServerName)
    } else if token == "InstanceName"@ {
        Some(FieldKey::InstanceName)
    } else if token == "IsClustered"@ {
        Some(FieldKey::IsClustered)
    } else if token == "Version"@ {
        Some(FieldKey::Version)
    } else if token == "np"@ {
        Some(FieldKey::NamedPipe)
    } else if token == "tcp"@ {
        Some(FieldKey::Tcp)
    } else {
        None
    }
}

/// `record` with `value` stored in the field that `key` stands for. The
/// clustering flag is set exactly by the value `Yes`; an endpoint value
/// replaces an earlier one for the same protocol.
pub open spec fn store_field(record: InstanceRecord, key: FieldKey, value: Seq<char>) -> InstanceRecord {
    match key {
        FieldKey::ServerName => InstanceRecord { server_name: value, ..record },
        FieldKey::InstanceName => InstanceRecord { instance_name: value, ..record },
        FieldKey::IsClustered => InstanceRecord { is_clustered: value == "Yes"@, ..record },
        FieldKey::Version => InstanceRecord { version: value, ..record },
        FieldKey::NamedPipe => InstanceRecord {
            protocol_info: record.protocol_info.insert("np"@, value),
            ..record
        },
        FieldKey::Tcp => InstanceRecord {
            protocol_info: record.protocol_info.insert("tcp"@, value),
            ..record
        },
    }
}

/// `record` after the pair `key`, `value` has been read into it. A key that
/// names no field leaves the record as it is.
pub open spec fn apply_field(
    record: InstanceRecord,
    key: Seq<char>,
    value: Seq<char>,
) -> InstanceRecord {
    match field_key(key) {
        Some(field) => store_field(record, field, value),
        None => record,
    }
}

/// `record` after all of `tokens` have been read into it, two at a time from
/// the left. A last token without a partner is dropped.
pub open spec fn apply_fields(record: InstanceRecord, tokens: Seq<Seq<char>>) -> InstanceRecord
    decreases tokens.len(),
{
    if tokens.len() < 2 {
        record
    } else {
        apply_fields(apply_field(record, tokens[0], tokens[1]), tokens.skip(2))
    }
}

/// The instance that one record describes.
pub open spec fn parse_record(record: Seq<char>) -> InstanceRecord {
    apply_fields(InstanceRecord::empty(), tokens(record))
}

/// The instances that a payload text describes, in the order of its records.
pub open spec fn parse_payload(text: Seq<char>) -> Seq<InstanceRecord> {
    leading_records(records(text)).map_values(|record: Seq<char>| parse_record(record))
}

/// A length with no `;` before it and a `;`, or the end, at it is the
/// token length.
pub proof fn lemma_token_len_is(text: Seq<char>, n: int)
    requires
        0 <= n <= text.len(),
        forall|j: int| 0 <= j < n ==> text[j] != ';',
        n < text.len() ==> text[n] == ';',
    ensures
        token_len(text) == n,
    decreases n,
{
    if n > 0 {
        let rest = text.skip(1);
        assert forall|j: int| 0 <= j < n - 1 implies rest[j] != ';' by {
            assert(rest[j] == text[j + 1]);
        }
        lemma_token_len_is(rest, n - 1);
    }
}

/// The token length stays within the text, no `;` stands before it, and a
/// `;` stands at it unless it is the end.
pub proof fn lemma_token_len_bounds(text: Seq<char>)
    ensures
        token_len(text) <= text.len(),
        forall|j: int| 0 <= j < token_len(text) ==> text[j] != ';',
        token_len(text) < text.len() ==> text[token_len(text) as int] == ';',
    decreases text.len(),
{
    if !(text.len() == 0 || text[0] == ';') {
        let rest = text.skip(1);
        lemma_token_len_bounds(rest);
        assert forall|j: int| 0 <= j < token_len(text) implies text[j] != ';' by {
            if j > 0 {
                assert(rest[j - 1] == text[j]);
            }
        }
    }
}

/// Whether `;;` stands at index `at` of `text`.
pub open spec fn separator_at(text: Seq<char>, at: int) -> bool {
    0 <= at && at + 1 < text.len() && text[at] == ';' && text[at + 1] == ';'
}

/// A length with no `;;` starting before it and a `;;`, or the end, at it is
/// the record length.
pub proof fn lemma_record_len_is(text: Seq<char>, n: int)
    requires
        0 <= n <= text.len(),
        forall|j: int| 0 <= j < n ==> !separator_at(text, j),
        n < text.len() ==> separator_at(text, n),
    ensures
        record_len(text) == n,
    decreases n,
{
    if n > 0 {
        let rest = text.skip(1);
        assert(!separator_at(text, 0));
        assert forall|j: int| 0 <= j < n - 1 implies !separator_at(rest, j) by {
            assert(!separator_at(text, j + 1));
        }
        if n < text.len() {
            assert(separator_at(rest, n - 1));
        }
        lemma_record_len_is(rest, n - 1);
    }
}

/// The record length stays within the text, no `;;` starts before it, and a
/// `;;` stands at it unless it is the end.
pub proof fn lemma_record_len_bounds(text: Seq<char>)
    ensures
        record_len(text) <= text.len(),
        forall|j: int| 0 <= j < record_len(text) ==> !separator_at(text, j),
        record_len(text) < text.len() ==> separator_at(text, record_len(text) as int),
    decreases text.len(),
{
    if !(text.len() == 0 || (text.len() >= 2 && text[0] == ';' && text[1] == ';')) {
        let rest = text.skip(1);
        lemma_record_len_bounds(rest);
        assert forall|j: int| 0 <= j < record_len(text) implies !separator_at(text, j) by {
            if j > 0 {
                assert(!separator_at(rest, j - 1));
            }
        }
        if record_len(text) < text.len() {
            assert(separator_at(rest, record_len(rest) as int));
        }
    }
}

/// Reading a payload one record at a time: an empty first record ends the
/// reading; otherwise the first record is decoded and the text behind its
/// separator, if there is one, is read in the same way.
pub proof fn lemma_parse_payload_unfold(text: Seq<char>)
    ensures
        parse_payload(text) == {
            let n = record_len(text) as int;
            if n == 0 {
                Seq::<InstanceRecord>::empty()
            } else if n + 2 <= text.len() {
                seq![parse_record(text.take(n))] + parse_payload(text.skip(n + 2))
            } else {
                seq![parse_record(text)]
            }
        },
{
    let n = record_len(text) as int;
    let decode = |record: Seq<char>| parse_record(record);
    lemma_record_len_bounds(text);
    if n + 2 <= text.len() {
        let rest = records(text.skip(n + 2));
        let all = seq![text.take(n)] + rest;
        assert(records(text) == all);
        if n > 0 {
            assert(all.skip(1) =~= rest);
            assert(leading_records(all) == seq![text.take(n)] + leading_records(rest));
            assert(leading_records(all).map_values(decode) =~= seq![parse_record(text.take(n))]
                + leading_records(rest).map_values(decode));
        } else {
            assert(leading_records(all).map_values(decode) =~= Seq::<InstanceRecord>::empty());
        }
    } else {
        let all = seq![text];
        assert(records(text) == all);
        if n > 0 {
            assert(all.skip(1) =~= Seq::<Seq<char>>::empty());
            assert(leading_records(all.skip(1)) =~= Seq::<Seq<char>>::empty());
            assert(leading_records(all) =~= seq![text]);
            assert(leading_records(all).map_values(decode) =~= seq![parse_record(text)]);
        } else {
            assert(text.len() == 0);
            assert(leading_records(all).map_values(decode) =~= Seq::<InstanceRecord>::empty());
        }
    }
}

/// Whether the endpoints of `record` are for `tcp` and `np` and for no other
/// protocol.
pub open spec fn has_known_endpoints(record: InstanceRecord) -> bool {
    forall|name: Seq<char>| #[trigger]
        record.protocol_info.contains_key(name) ==> name == "tcp"@ || name == "np"@
}

/// Reading tokens into a record adds endpoints for `tcp` and `np` only.
pub proof fn lemma_apply_fields_endpoints(record: InstanceRecord, tokens: Seq<Seq<char>>)
    requires
        has_known_endpoints(record),
    ensures
        has_known_endpoints(apply_fields(record, tokens)),
    decreases tokens.len(),
{
    if tokens.len() >= 2 {
        lemma_apply_fields_endpoints(apply_field(record, tokens[0], tokens[1]), tokens.skip(2));
    }
}

/// Whatever a payload says, the instances read from it have endpoints for
/// `tcp` and `np` only: every other key is ignored.
pub proof fn lemma_parsed_endpoints(text: Seq<char>)
    ensures
        forall|i: int|
            0 <= i < parse_payload(text).len() ==> has_known_endpoints(
                #[trigger] parse_payload(text)[i],
            ),
{
    assert forall|i: int| 0 <= i < parse_payload(text).len() implies has_known_endpoints(
        #[trigger] parse_payload(text)[i],
    ) by {
        let record = leading_records(records(text))[i];
        lemma_apply_fields_endpoints(InstanceRecord::empty(), tokens(record));
    }
}

/// A payload without text describes no instance.
pub proof fn lemma_empty_payload()
    ensures
        parse_payload(Seq::empty()) == Seq::<InstanceRecord>::empty(),
{
    lemma_parse_payload_unfold(Seq::empty());
}

/// Reading the tokens of a record one pair at a time, from a record into
/// which some pairs have been read already.
pub proof fn lemma_apply_fields_unfold(record: InstanceRecord, text: Seq<char>)
    ensures
        apply_fields(record, tokens(text)) == {
            let key_end = token_len(text) as int;
            if key_end >= text.len() {
                record
            } else {
                let rest = text.skip(key_end + 1);
                let value_end = token_len(rest) as int;
                let next = apply_field(record, text.take(key_end), rest.take(value_end));
                if value_end >= rest.len() {
                    next
                } else {
                    apply_fields(next, tokens(rest.skip(value_end + 1)))
                }
            }
        },
{
    let key_end = token_len(text) as int;
    lemma_token_len_bounds(text);
    if key_end < text.len() {
        let rest = text.skip(key_end + 1);
        let value_end = token_len(rest) as int;
        lemma_token_len_bounds(rest);
        let key = text.take(key_end);
        if value_end >= rest.len() {
            let all = seq![key] + seq![rest];
            assert(tokens(rest) == seq![rest]);
            assert(tokens(text) == all);
            assert(rest.take(value_end) =~= rest);
            assert(all.skip(2) =~= Seq::<Seq<char>>::empty());
            assert(apply_fields(apply_field(record, key, rest), all.skip(2)) == apply_field(
                record,
                key,
                rest,
            ));
        } else {
            let value = rest.take(value_end);
            let tail = tokens(rest.skip(value_end + 1));
            let all = seq![key] + (seq![value] + tail);
            assert(tokens(rest) == seq![value] + tail);
            assert(tokens(text) == all);
            assert(all.skip(2) =~= tail);
        }
    }
}

} // verus!
