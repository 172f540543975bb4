//! The two requests a client sends.

use crate::instance::InstanceInfo;
use vstd::prelude::*;
use vstd::slice::slice_subrange;
use vstd::string::StringSliceAdditionalSpecFns;

verus! {

/// Tag byte of the request for all instances (`CLNT_UCAST_EX`).
pub const LIST_REQUEST_TAG: u8 = 0x03;

/// Tag byte of the request for one named instance (`CLNT_UCAST_INST`).
pub const INSTANCE_REQUEST_TAG: u8 = 0x04;

/// Number of bytes of an instance name that a request carries at most.
pub const MAX_INSTANCE_NAME_LEN: usize = 32;

/// The request for all instances: the tag alone.
pub open spec fn list_request() -> Seq<u8> {
    seq![LIST_REQUEST_TAG]
}

/// The bytes of `name` that a request carries: all of them, or the first
/// [`MAX_INSTANCE_NAME_LEN`] of a longer name.
pub open spec fn carried_name(name: Seq<u8>) -> Seq<u8> {
    if name.len() <= MAX_INSTANCE_NAME_LEN {
        name
    } else {
        name.take(MAX_INSTANCE_NAME_LEN as int)
    }
}

/// The request for the instance called `name`: the tag, the carried bytes of
/// the name, and a closing NUL.
pub open spec fn named_instance_request(name: Seq<u8>) -> Seq<u8> {
    seq![INSTANCE_REQUEST_TAG] + carried_name(name) + seq![0u8]
}

impl InstanceInfo {
    /// Builds the request that asks a server for all of its instances.
    pub fn get_instance_list_request_data() -> (request: Vec<u8>)
        ensures
            request@ == list_request(),
    {
        let mut request: Vec<u8> = Vec::new();
        request.push(LIST_REQUEST_TAG);
        assert(request@ =~= list_request());
        request
    }

    /// Builds the request that asks a server for the instance called `name`.
    /// The name is taken as raw bytes; what exceeds
    /// [`MAX_INSTANCE_NAME_LEN`] bytes is cut off.
    pub fn get_specified_instance_request_data(name: &str) -> (request: Vec<u8>)
        ensures
            request@ == named_instance_request(name.spec_bytes()),
            request@.len() <= MAX_INSTANCE_NAME_LEN + 2,
            request@.last() == 0u8,
            name.spec_bytes().len() <= MAX_INSTANCE_NAME_LEN ==> request@.len()
                == name.spec_bytes().len() + 2,
            name.spec_bytes().len() > MAX_INSTANCE_NAME_LEN ==> {
                &&& request@.len() == MAX_INSTANCE_NAME_LEN + 2
                &&& request@.subrange(1, MAX_INSTANCE_NAME_LEN + 1) == name.spec_bytes().take(
                    MAX_INSTANCE_NAME_LEN as int,
                )
            },
    {
        let bytes = name.as_bytes();
        let carried = if bytes.len() <= MAX_INSTANCE_NAME_LEN {
            bytes
        } else {
            slice_subrange(bytes, 0, MAX_INSTANCE_NAME_LEN)
        };
        let mut request: Vec<u8> = Vec::new();
        request.push(INSTANCE_REQUEST_TAG);
        request.extend_from_slice(carried);
        request.push(0u8);
        assert(request@ =~= named_instance_request(name.spec_bytes()));
        request
    }
}

} // verus!
