//! One fixed-length frame, as a DMA transfer of the serial receiver leaves it.

use vstd::prelude::*;
use vstd::string::StringSliceAdditionalSpecFns;
use vstd::utf8::decode_utf8;
use vstd::utf8::encode_utf8_decode_utf8;
use vstd::utf8::valid_utf8;

verus! {

/// Number of bytes that one DMA transfer delivers.
pub const FRAME_LEN: usize = 5;

/// `core::str::Utf8Error`, of which nothing is read.
#[verifier::external_type_specification]
#[verifier::external_body]
pub struct ExUtf8Error(core::str::Utf8Error);

/// `core::str::from_utf8` checks that the bytes are valid UTF-8 and, if they
/// are, hands them back as a string slice over the same bytes; otherwise it
/// returns an error. Validity is stated with vstd's definition of UTF-8.
pub assume_specification[ core::str::from_utf8 ](v: &[u8]) -> (r: Result<
    &str,
    core::str::Utf8Error,
>)
    ensures
        r is Ok <==> valid_utf8(v@),
        r matches Ok(s) ==> s.spec_bytes() == v@,
;

/// The bytes of one completed transfer.
#[derive(Clone, Copy, Debug, PartialEq, Eq)]
pub struct Packet {
    pub payload: [u8; FRAME_LEN],
}

impl View for Packet {
    type V = Seq<u8>;

    open spec fn view(&self) -> Seq<u8> {
        self.payload@
    }
}

impl Packet {
    /// The frame as text. It is text exactly when its bytes are valid UTF-8;
    /// the string then covers all of them.
    pub fn as_str(&self) -> (r: Result<&str, &'static str>)
        ensures
            r is Ok <==> valid_utf8(self@),
            r matches Ok(text) ==> text.spec_bytes() == self@ && text@ == decode_utf8(self@),
            r matches Err(reason) ==> reason@ == "Packet contains non-ascii characters!"@,
    {
        if let Ok(string) = core::str::from_utf8(&self.payload) {
            proof {
                encode_utf8_decode_utf8(string@);
            }
            Ok(string)
        } else {
            Err("Packet contains non-ascii characters!")
        }
    }
}

} // verus!
