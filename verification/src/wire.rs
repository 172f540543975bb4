//! The form in which a server writes its instances into a response, and the
//! proof that reading a response so written gives back what was written.

use crate::frame::{frame_status, FrameStatus, HEADER_LEN, RESPONSE_TAG};
use crate::grammar::{
    apply_field, apply_fields, field_key, lemma_parse_payload_unfold, lemma_record_len_is,
    lemma_token_len_is, parse_payload, parse_record, record_len, separator_at, tokens, FieldKey,
};
use crate::instance::InstanceRecord;
use vstd::prelude::*;
use vstd::utf8::{
    decode_utf8, encode_utf8, encode_utf8_decode_utf8, encode_utf8_valid_utf8, valid_utf8,
};

verus! {

/// Whether `token` holds no `;`.
pub open spec fn has_no_separator(token: Seq<char>) -> bool {
    forall|i: int| 0 <= i < token.len() ==> token[i] != ';'
}

/// Whether `token` can stand in a record as a key or a value: it is not
/// empty and holds no `;`.
pub open spec fn is_plain(token: Seq<char>) -> bool {
    token.len() > 0 && has_no_separator(token)
}

/// `tokens` written one after the other with a `;` between neighbours.
pub open spec fn joined(tokens: Seq<Seq<char>>) -> Seq<char>
    decreases tokens.len(),
{
    if tokens.len() == 0 {
        Seq::empty()
    } else if tokens.len() == 1 {
        tokens[0]
    } else {
        tokens[0] + seq![';'] + joined(tokens.skip(1))
    }
}

/// The pair `key`, `value` if `present`, and nothing otherwise.
pub open spec fn pair_if(present: bool, key: Seq<char>, value: Seq<char>) -> Seq<Seq<char>> {
    if present {
        seq![key, value]
    } else {
        Seq::empty()
    }
}

/// The tokens that describe `record`: each name and the version if it is
/// not empty, the clustering flag always, and each endpoint that is there.
pub open spec fn record_tokens(record: InstanceRecord) -> Seq<Seq<char>> {
    pair_if(record.server_name.len() > 0, "ServerName"@, record.server_name) + pair_if(
        record.instance_name.len() > 0,
        "InstanceName"@,
        record.instance_name,
    ) + seq!["IsClustered"@, if record.is_clustered { "Yes"@ } else { "No"@ }] + pair_if(
        record.version.len() > 0,
        "Version"@,
        record.version,
    ) + pair_if(
        record.protocol_info.contains_key("tcp"@),
        "tcp"@,
        record.protocol_info["tcp"@],
    ) + pair_if(record.protocol_info.contains_key("np"@), "np"@, record.protocol_info["np"@])
}

/// The text of one record, without the separator that closes it.
pub open spec fn record_text(record: InstanceRecord) -> Seq<char> {
    joined(record_tokens(record))
}

/// The payload text that describes `records`: each record's text, closed by
/// `;;`.
pub open spec fn payload_text(records: Seq<InstanceRecord>) -> Seq<char>
    decreases records.len(),
{
    if records.len() == 0 {
        Seq::empty()
    } else {
        record_text(records[0]) + seq![';', ';'] + payload_text(records.skip(1))
    }
}

/// The response that carries `payload`: the tag, the payload's length as two
/// bytes, least significant first, and the payload.
pub open spec fn response_frame(payload: Seq<u8>) -> Seq<u8>
    recommends
        payload.len() <= u16::MAX,
{
    seq![RESPONSE_TAG, (payload.len() % 256) as u8, (payload.len() / 256) as u8] + payload
}

/// Whether `record` can be written into a payload and read back: its names
/// and version hold no `;`, and its endpoints are for `tcp` and `np` only,
/// with values that are not empty and hold no `;`.
pub open spec fn is_writable(record: InstanceRecord) -> bool {
    &&& has_no_separator(record.server_name)
    &&& has_no_separator(record.instance_name)
    &&& has_no_separator(record.version)
    &&& forall|name: Seq<char>| #[trigger]
        record.protocol_info.contains_key(name) ==> {
            &&& name == "tcp"@ || name == "np"@
            &&& is_plain(record.protocol_info[name])
        }
}

/// What the key and value words of the grammar are, character by character.
proof fn lemma_words()
    ensures
        field_key("ServerName"@) == Some(FieldKey::ServerName),
        field_key("InstanceName"@) == Some(FieldKey::InstanceName),
        field_key("IsClustered"@) == Some(FieldKey::IsClustered),
        field_key("Version"@) == Some(FieldKey::Version),
        field_key("np"@) == Some(FieldKey::NamedPipe),
        field_key("tcp"@) == Some(FieldKey::Tcp),
        is_plain("ServerName"@),
        is_plain("InstanceName"@),
        is_plain("IsClustered"@),
        is_plain("Version"@),
        is_plain("np"@),
        is_plain("tcp"@),
        is_plain("Yes"@),
        is_plain("No"@),
        "Yes"@ != "No"@,
        "np"@ != "tcp"@,
{
    reveal_strlit("ServerName");
    reveal_strlit("InstanceName");
    reveal_strlit("IsClustered");
    reveal_strlit("Version");
    reveal_strlit("np");
    reveal_strlit("tcp");
    reveal_strlit("Yes");
    reveal_strlit("No");
    assert("ServerName"@.len() == 10);
    assert("InstanceName"@.len() == 12);
    assert("IsClustered"@.len() == 11);
    assert("Version"@.len() == 7);
    assert("np"@.len() == 2);
    assert("tcp"@.len() == 3);
}

/// Splitting undoes joining, for tokens that hold no `;`.
pub proof fn lemma_tokens_of_joined(parts: Seq<Seq<char>>)
    requires
        parts.len() > 0,
        forall|i: int| 0 <= i < parts.len() ==> has_no_separator(#[trigger] parts[i]),
    ensures
        tokens(joined(parts)) == parts,
    decreases parts.len(),
{
    let first = parts[0];
    assert(has_no_separator(first));
    if parts.len() == 1 {
        lemma_token_len_is(first, first.len() as int);
        assert(tokens(first) == seq![first]);
        assert(seq![first] =~= parts);
    } else {
        let rest = parts.skip(1);
        let text = joined(parts);
        assert(text == first + seq![';'] + joined(rest));
        lemma_token_len_is(text, first.len() as int);
        assert(text.take(first.len() as int) =~= first);
        assert(text.skip(first.len() as int + 1) =~= joined(rest));
        assert forall|i: int| 0 <= i < rest.len() implies has_no_separator(#[trigger] rest[i]) by {
            assert(rest[i] == parts[i + 1]);
        }
        lemma_tokens_of_joined(rest);
        assert(seq![first] + rest =~= parts);
    }
}

/// Plain tokens, joined, neither start nor end with a `;` nor hold `;;`.
pub proof fn lemma_joined_plain(parts: Seq<Seq<char>>)
    requires
        parts.len() > 0,
        forall|i: int| 0 <= i < parts.len() ==> is_plain(#[trigger] parts[i]),
    ensures
        joined(parts).len() > 0,
        joined(parts)[0] != ';',
        joined(parts).last() != ';',
        forall|j: int| !separator_at(joined(parts), j),
    decreases parts.len(),
{
    let first = parts[0];
    assert(is_plain(first));
    if parts.len() > 1 {
        let rest = parts.skip(1);
        let tail = joined(rest);
        let text = joined(parts);
        assert(text == first + seq![';'] + tail);
        assert forall|i: int| 0 <= i < rest.len() implies is_plain(#[trigger] rest[i]) by {
            assert(rest[i] == parts[i + 1]);
        }
        lemma_joined_plain(rest);
        assert(text[0] == first[0]);
        assert(text.last() == tail.last());
        assert forall|j: int| !separator_at(text, j) by {
            if 0 <= j && j + 1 < text.len() {
                if j + 1 < first.len() {
                    assert(text[j] == first[j]);
                } else if j + 1 == first.len() {
                    assert(text[j] == first[j]);
                } else if j == first.len() {
                    assert(text[j + 1] == tail[0]);
                } else {
                    assert(text[j] == tail[j - first.len() - 1]);
                    assert(text[j + 1] == tail[j - first.len()]);
                    assert(!separator_at(tail, j - first.len() - 1));
                }
            }
        }
    }
}

/// A record's text that is closed by `;;` ends where that separator starts,
/// whatever follows.
pub proof fn lemma_record_len_of_line(record: Seq<char>, rest: Seq<char>)
    requires
        record.len() > 0,
        record.last() != ';',
        forall|j: int| !separator_at(record, j),
    ensures
        record_len(record + seq![';', ';'] + rest) == record.len(),
{
    let text = record + seq![';', ';'] + rest;
    assert forall|j: int| 0 <= j < record.len() implies !separator_at(text, j) by {
        assert(text[j] == record[j]);
        if j + 1 < record.len() {
            assert(text[j + 1] == record[j + 1]);
            assert(!separator_at(record, j));
        }
    }
    assert(text[record.len() as int] == ';');
    assert(text[record.len() as int + 1] == ';');
    lemma_record_len_is(text, record.len() as int);
}

/// Tokens are read pair by pair: an even number of them first, then the
/// rest.
pub proof fn lemma_apply_fields_concat(
    record: InstanceRecord,
    front: Seq<Seq<char>>,
    back: Seq<Seq<char>>,
)
    requires
        front.len() % 2 == 0,
    ensures
        apply_fields(record, front + back) == apply_fields(apply_fields(record, front), back),
    decreases front.len(),
{
    if front.len() == 0 {
        assert(front + back =~= back);
    } else {
        let all = front + back;
        assert(all[0] == front[0]);
        assert(all[1] == front[1]);
        assert(all.skip(2) =~= front.skip(2) + back);
        lemma_apply_fields_concat(apply_field(record, front[0], front[1]), front.skip(2), back);
    }
}

/// Reading one pair stores its value where the key says.
proof fn lemma_apply_pair(record: InstanceRecord, present: bool, key: Seq<char>, value: Seq<char>)
    ensures
        apply_fields(record, pair_if(present, key, value)) == if present {
            apply_field(record, key, value)
        } else {
            record
        },
{
    if present {
        let pair = seq![key, value];
        assert(pair.skip(2) =~= Seq::<Seq<char>>::empty());
        assert(apply_fields(apply_field(record, key, value), pair.skip(2)) == apply_field(
            record,
            key,
            value,
        ));
    }
}

/// Reading the text of a writable record gives the record.
pub proof fn lemma_record_round_trip(record: InstanceRecord)
    requires
        is_writable(record),
    ensures
        parse_record(record_text(record)) == record,
        record_tokens(record).len() > 0,
        forall|i: int|
            0 <= i < record_tokens(record).len() ==> is_plain(#[trigger] record_tokens(record)[i]),
{
    lemma_words();
    let info = record.protocol_info;
    let has_tcp = info.contains_key("tcp"@);
    let has_np = info.contains_key("np"@);
    let flag = if record.is_clustered { "Yes"@ } else { "No"@ };
    let server_pair = pair_if(record.server_name.len() > 0, "ServerName"@, record.server_name);
    let instance_pair = pair_if(
        record.instance_name.len() > 0,
        "InstanceName"@,
        record.instance_name,
    );
    let flag_pair = seq!["IsClustered"@, flag];
    let version_pair = pair_if(record.version.len() > 0, "Version"@, record.version);
    let tcp_pair = pair_if(has_tcp, "tcp"@, info["tcp"@]);
    let np_pair = pair_if(has_np, "np"@, info["np"@]);
    let all = record_tokens(record);
    assert(all == server_pair + instance_pair + flag_pair + version_pair + tcp_pair + np_pair);
    assert(flag_pair == pair_if(true, "IsClustered"@, flag));

    let blank = InstanceRecord::empty();
    let with_server = apply_fields(blank, server_pair);
    let with_instance = apply_fields(with_server, instance_pair);
    let with_flag = apply_fields(with_instance, flag_pair);
    let with_version = apply_fields(with_flag, version_pair);
    let with_tcp = apply_fields(with_version, tcp_pair);
    let with_np = apply_fields(with_tcp, np_pair);
    let names = server_pair + instance_pair;
    lemma_apply_fields_concat(blank, names + flag_pair + version_pair + tcp_pair, np_pair);
    lemma_apply_fields_concat(blank, names + flag_pair + version_pair, tcp_pair);
    lemma_apply_fields_concat(blank, names + flag_pair, version_pair);
    lemma_apply_fields_concat(blank, names, flag_pair);
    lemma_apply_fields_concat(blank, server_pair, instance_pair);
    assert(apply_fields(blank, all) == with_np);
    lemma_apply_pair(blank, record.server_name.len() > 0, "ServerName"@, record.server_name);
    lemma_apply_pair(
        with_server,
        record.instance_name.len() > 0,
        "InstanceName"@,
        record.instance_name,
    );
    lemma_apply_pair(with_instance, true, "IsClustered"@, flag);
    lemma_apply_pair(with_flag, record.version.len() > 0, "Version"@, record.version);
    lemma_apply_pair(with_version, has_tcp, "tcp"@, info["tcp"@]);
    lemma_apply_pair(with_tcp, has_np, "np"@, info["np"@]);
    assert(with_np.server_name =~= record.server_name);
    assert(with_np.instance_name =~= record.instance_name);
    assert(with_np.version =~= record.version);
    assert(with_np.is_clustered == record.is_clustered);
    assert(with_np.protocol_info =~= info);
    assert(with_np == record);

    assert forall|i: int| 0 <= i < all.len() implies is_plain(#[trigger] all[i]) by {
        if has_tcp {
            assert(is_plain(info["tcp"@]));
        }
        if has_np {
            assert(is_plain(info["np"@]));
        }
    }
    lemma_tokens_of_joined(all);
}

/// The clustering flag is set by the value `Yes` and by no other: whatever a
/// record held before, and in a record that consists of this pair alone.
pub proof fn lemma_clustered_iff_yes(record: InstanceRecord, value: Seq<char>)
    ensures
        apply_field(record, "IsClustered"@, value).is_clustered == (value == "Yes"@),
        has_no_separator(value) ==> parse_record("IsClustered"@ + seq![';'] + value).is_clustered
            == (value == "Yes"@),
{
    lemma_words();
    if has_no_separator(value) {
        let pair = seq!["IsClustered"@, value];
        assert(pair.skip(1) =~= seq![value]);
        assert(joined(pair) == "IsClustered"@ + seq![';'] + joined(pair.skip(1)));
        lemma_tokens_of_joined(pair);
        lemma_apply_pair(InstanceRecord::empty(), true, "IsClustered"@, value);
    }
}

/// Reading the payload text of writable records gives the records, in
/// their order.
pub proof fn lemma_payload_round_trip(records: Seq<InstanceRecord>)
    requires
        forall|i: int| 0 <= i < records.len() ==> is_writable(#[trigger] records[i]),
    ensures
        parse_payload(payload_text(records)) == records,
    decreases records.len(),
{
    let text = payload_text(records);
    lemma_parse_payload_unfold(text);
    if records.len() == 0 {
        assert(parse_payload(text) =~= records);
    } else {
        let first = records[0];
        let rest = records.skip(1);
        let line = record_text(first);
        let tail = payload_text(rest);
        assert(is_writable(first));
        lemma_record_round_trip(first);
        lemma_joined_plain(record_tokens(first));
        lemma_record_len_of_line(line, tail);
        assert(text == line + seq![';', ';'] + tail);
        assert(text.take(line.len() as int) =~= line);
        assert(text.skip(line.len() as int + 2) =~= tail);
        assert forall|i: int| 0 <= i < rest.len() implies is_writable(#[trigger] rest[i]) by {
            assert(rest[i] == records[i + 1]);
        }
        lemma_payload_round_trip(rest);
        assert(seq![first] + rest =~= records);
    }
}

/// A response that a server builds from writable records, with the tag, the
/// payload's length and the payload text in UTF-8, is complete, and what
/// stands behind its header decodes to those records in their order.
pub proof fn lemma_response_round_trip(records: Seq<InstanceRecord>)
    requires
        forall|i: int| 0 <= i < records.len() ==> is_writable(#[trigger] records[i]),
        encode_utf8(payload_text(records)).len() <= u16::MAX,
    ensures
        ({
            let payload = encode_utf8(payload_text(records));
            let response = response_frame(payload);
            &&& frame_status(response) is Complete
            &&& response.skip(HEADER_LEN as int) == payload
            &&& valid_utf8(payload)
            &&& parse_payload(decode_utf8(payload)) == records
        }),
{
    let text = payload_text(records);
    let payload = encode_utf8(text);
    let response = response_frame(payload);
    encode_utf8_valid_utf8(text);
    encode_utf8_decode_utf8(text);
    lemma_payload_round_trip(records);
    assert(response.skip(HEADER_LEN as int) =~= payload);
    let len = payload.len() as int;
    assert(response[1] == (len % 256) as u8);
    assert(response[2] == (len / 256) as u8);
    assert((len % 256) + 256 * (len / 256) == len);
}

} // verus!
