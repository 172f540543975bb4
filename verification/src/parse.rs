//! Decoding of a response payload into instances.

use crate::error::SsrpError;
use crate::grammar::{
    apply_fields, field_key, lemma_apply_fields_unfold, lemma_parse_payload_unfold,
    lemma_empty_payload, lemma_record_len_is, lemma_token_len_is, parse_payload, parse_record,
    record_len, separator_at, store_field, token_len, tokens, FieldKey,
};
use crate::instance::{InstanceInfo, InstanceRecord};
use vstd::prelude::*;
use vstd::slice::slice_subrange;
use vstd::string::*;
use vstd::utf8::{decode_utf8, encode_utf8, encode_utf8_decode_utf8, valid_utf8};

verus! {

/// The text that lossy UTF-8 decoding makes of `bytes`: every sequence of
/// bytes that is not valid UTF-8 gives way to the replacement character
/// U+FFFD.
pub uninterp spec fn lossy_text(bytes: Seq<u8>) -> Seq<char>;

/// Calls `String::from_utf8_lossy`. The result is named [`lossy_text`]; all
/// that is claimed beyond the name is that bytes which are valid UTF-8
/// already are the bytes of the returned string.
#[verifier::external_body]
fn decode_lossy(data: &[u8]) -> (text: String)
    ensures
        text@ == lossy_text(data@),
        valid_utf8(data@) ==> encode_utf8(text@) == data@,
{
    String::from_utf8_lossy(data).into_owned()
}

/// The characters of `text`, one element each.
fn collect_chars(text: &str) -> (chars: Vec<char>)
    ensures
        chars@ == text@,
{
    broadcast use vstd::string::axiom_spec_iter;

    let mut chars: Vec<char> = Vec::new();
    let source = text.chars();
    for c in it: source
        invariant
            it.seq() == text@,
            chars@ == it.seq().take(it.index()),
    {
        chars.push(c);
    }
    chars
}

/// Index of the first `;` of `chars` at or behind `from`, or the length of
/// `chars` if there is none.
fn token_end(chars: &[char], from: usize) -> (end: usize)
    requires
        from <= chars.len(),
    ensures
        from <= end <= chars.len(),
        end - from == token_len(chars@.skip(from as int)),
{
    let mut end: usize = from;
    while end < chars.len() && chars[end] != ';'
        invariant
            from <= end <= chars.len(),
            forall|j: int| from <= j < end ==> chars@[j] != ';',
        decreases chars.len() - end,
    {
        end += 1;
    }
    proof {
        lemma_token_len_is(chars@.skip(from as int), end - from);
    }
    end
}

/// Index of the first `;;` of `chars` at or behind `from`, or the length of
/// `chars` if there is none.
fn record_end(chars: &[char], from: usize) -> (end: usize)
    requires
        from <= chars.len(),
    ensures
        from <= end <= chars.len(),
        end < chars.len() ==> end + 2 <= chars.len(),
        end - from == record_len(chars@.skip(from as int)),
{
    let len = chars.len();
    let mut end: usize = from;
    while end < len && !(end + 1 < len && chars[end] == ';' && chars[end + 1] == ';')
        invariant
            len == chars.len(),
            from <= end <= len,
            forall|j: int| from <= j < end ==> !separator_at(chars@, j),
        decreases len - end,
    {
        end += 1;
    }
    proof {
        let rest = chars@.skip(from as int);
        assert forall|j: int| 0 <= j < end - from implies !separator_at(rest, j) by {
            assert(!separator_at(chars@, from + j));
        }
        if end < len {
            assert(separator_at(rest, end - from));
        }
        lemma_record_len_is(rest, end - from);
    }
    end
}

/// Whether `token` spells `word`.
fn spells(token: &[char], word: &str) -> (same: bool)
    ensures
        same == (token@ == word@),
{
    let len = word.unicode_len();
    if token.len() != len {
        return false;
    }
    let mut at: usize = 0;
    while at < len
        invariant
            len == token.len(),
            len == word@.len(),
            at <= len,
            forall|j: int| 0 <= j < at ==> token@[j] == word@[j],
        decreases len - at,
    {
        if token[at] != word.get_char(at) {
            return false;
        }
        at += 1;
    }
    assert(token@ =~= word@);
    true
}

/// The field that a key token names, if it names one.
pub fn classify_key(token: &[char]) -> (key: Option<FieldKey>)
    ensures
        key == field_key(token@),
{
    if spells(token, "ServerName") {
        Some(FieldKey::ServerName)
    } else if spells(token, "InstanceName") {
        Some(FieldKey::InstanceName)
    } else if spells(token, "IsClustered") {
        Some(FieldKey::IsClustered)
    } else if spells(token, "Version") {
        Some(FieldKey::Version)
    } else if spells(token, "np") {
        Some(FieldKey::NamedPipe)
    } else if spells(token, "tcp") {
        Some(FieldKey::Tcp)
    } else {
        None
    }
}

impl InstanceInfo {
    /// Stores `value` in the field that `key` stands for.
    pub fn store(&mut self, key: FieldKey, value: &str)
        ensures
            final(self)@ == store_field(old(self)@, key, value@),
    {
        match key {
            FieldKey::ServerName => {
                self.server_name = value.to_owned();
            },
            FieldKey::InstanceName => {
                self.instance_name = value.to_owned();
            },
            FieldKey::IsClustered => {
                let chars = collect_chars(value);
                self.is_clustered = spells(chars.as_slice(), "Yes");
            },
            FieldKey::Version => {
                self.version = value.to_owned();
            },
            FieldKey::NamedPipe => {
                self.protocol_info.insert("np".to_owned(), value.to_owned());
                assert(self@.protocol_info =~= old(self)@.protocol_info.insert("np"@, value@));
            },
            FieldKey::Tcp => {
                self.protocol_info.insert("tcp".to_owned(), value.to_owned());
                assert(self@.protocol_info =~= old(self)@.protocol_info.insert("tcp"@, value@));
            },
        }
    }
}

/// Decodes one record: its tokens are read in pairs of key and value, and
/// each pair whose key names a field is stored.
pub fn parse_record_text(record: &str) -> (info: InstanceInfo)
    ensures
        info@ == parse_record(record@),
{
    let chars = collect_chars(record);
    let len = chars.len();
    let mut info = InstanceInfo::new();
    let mut pos: usize = 0;
    let mut done = false;
    assert(record@.skip(0) =~= record@);
    while !done
        invariant
            chars@ == record@,
            len == chars.len(),
            pos <= len,
            done ==> info@ == parse_record(record@),
            !done ==> parse_record(record@) == apply_fields(
                info@,
                tokens(record@.skip(pos as int)),
            ),
        decreases len - pos + (if done { 0int } else { 1int }),
    {
        let ghost rest = record@.skip(pos as int);
        proof {
            lemma_apply_fields_unfold(info@, rest);
        }
        let key_end = token_end(chars.as_slice(), pos);
        if key_end >= len {
            done = true;
        } else {
            let value_start = key_end + 1;
            let value_end = token_end(chars.as_slice(), value_start);
            let key = classify_key(slice_subrange(chars.as_slice(), pos, key_end));
            proof {
                assert(rest.skip(key_end - pos + 1) =~= record@.skip(value_start as int));
                assert(rest.take(key_end - pos) =~= chars@.subrange(pos as int, key_end as int));
                assert(record@.skip(value_start as int).take(value_end - value_start)
                    =~= record@.subrange(value_start as int, value_end as int));
                if value_end < len {
                    assert(record@.skip(value_start as int).skip(value_end - value_start + 1)
                        =~= record@.skip(value_end + 1));
                }
            }
            match key {
                Some(field) => {
                    info.store(field, record.substring_char(value_start, value_end));
                },
                None => {},
            }
            if value_end >= len {
                done = true;
            } else {
                pos = value_end + 1;
            }
        }
    }
    info
}

/// Decodes a payload text: its records are decoded in order, up to the first
/// empty record or the end of the text.
pub fn parse_payload_text(text: &str) -> (list: Vec<InstanceInfo>)
    ensures
        list.deep_view() == parse_payload(text@),
{
    let chars = collect_chars(text);
    let len = chars.len();
    let mut list: Vec<InstanceInfo> = Vec::new();
    let mut pos: usize = 0;
    let mut done = false;
    assert(text@.skip(0) =~= text@);
    assert(list.deep_view() + parse_payload(text@) =~= parse_payload(text@));
    while !done
        invariant
            chars@ == text@,
            len == chars.len(),
            pos <= len,
            done ==> list.deep_view() == parse_payload(text@),
            !done ==> parse_payload(text@) == list.deep_view() + parse_payload(
                text@.skip(pos as int),
            ),
        decreases len - pos + (if done { 0int } else { 1int }),
    {
        let ghost rest = text@.skip(pos as int);
        let ghost before = list.deep_view();
        proof {
            lemma_parse_payload_unfold(rest);
        }
        let end = record_end(chars.as_slice(), pos);
        if end == pos {
            assert(before + Seq::<InstanceRecord>::empty() =~= before);
            done = true;
        } else {
            let info = parse_record_text(text.substring_char(pos, end));
            list.push(info);
            proof {
                assert(rest.take(end - pos) =~= text@.subrange(pos as int, end as int));
                assert(list.deep_view() =~= before + seq![info@]);
            }
            if end < len {
                proof {
                    assert(rest.skip(end - pos + 2) =~= text@.skip(end + 2));
                    assert(before + (seq![info@] + parse_payload(text@.skip(end + 2))) =~= (before
                        + seq![info@]) + parse_payload(text@.skip(end + 2)));
                }
                pos = end + 2;
            } else {
                proof {
                    assert(rest =~= text@.subrange(pos as int, end as int));
                }
                done = true;
            }
        }
    }
    list
}

impl InstanceInfo {
    /// Decodes the payload of a response, the bytes behind its header. The
    /// bytes are read as text, lossily, and the text is decoded record by
    /// record; no payload is refused.
    pub fn deserialize_server_response(data: &[u8]) -> (result: Result<
        Vec<InstanceInfo>,
        SsrpError,
    >)
        ensures
            result matches Ok(list) && {
                &&& list.deep_view() == parse_payload(lossy_text(data@))
                &&& valid_utf8(data@) ==> list.deep_view() == parse_payload(decode_utf8(data@))
                &&& data@.len() == 0 ==> list@.len() == 0
            },
    {
        let text = decode_lossy(data);
        proof {
            if valid_utf8(data@) {
                encode_utf8_decode_utf8(text@);
            }
            if data@.len() == 0 {
                assert(decode_utf8(data@) =~= Seq::<char>::empty());
                lemma_empty_payload();
            }
        }
        let list = parse_payload_text(text.as_str());
        assert(list.deep_view().len() == list@.len());
        Ok(list)
    }

    /// The first of the instances that a response described, which is the
    /// answer to a request for one instance.
    pub fn first_instance(list: Vec<InstanceInfo>) -> (result: Result<InstanceInfo, SsrpError>)
        ensures
            match result {
                Ok(info) => list@.len() > 0 && info == list@[0],
                Err(error) => list@.len() == 0 && error == SsrpError::InstanceNotFound,
            },
    {
        let mut list = list;
        if list.len() > 0 {
            Ok(list.swap_remove(0))
        } else {
            Err(SsrpError::InstanceNotFound)
        }
    }
}

} // verus!
