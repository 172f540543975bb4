use vstd::prelude::*;

verus! {

/// The ways in which a resolution exchange can fail once the bytes have
/// arrived. Transport failures belong to the caller that owns the socket.
#[derive(Clone, Copy, Debug, PartialEq, Eq, Structural)]
pub enum SsrpError {
    /// The first byte of the response is not the response tag.
    InvalidResponseHeader,
    /// The response held no instance record.
    InstanceNotFound,
}

impl SsrpError {
    /// The text that describes this error to a user.
    pub open spec fn spec_message(self) -> Seq<char> {
        match self {
            SsrpError::InvalidResponseHeader => "invalid server response header id"@,
            SsrpError::InstanceNotFound => "cannot find instance"@,
        }
    }

    /// A short description of the error.
    pub fn message(&self) -> (text: &'static str)
        ensures
            text@ == self.spec_message(),
    {
        match self {
            SsrpError::InvalidResponseHeader => "invalid server response header id",
            SsrpError::InstanceNotFound => "cannot find instance",
        }
    }
}

} // verus!
