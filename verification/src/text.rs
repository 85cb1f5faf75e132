use vstd::prelude::*;
use vstd::utf8::{decode_utf8, encode_utf8, encode_utf8_decode_utf8, valid_utf8};
use crate::codec::CerealData;
use crate::error::{CerealError, CerealResult};
use crate::sequence::{models_of, parse_counted};
use crate::source::Source;
use crate::wire::wire_count;

verus! {

/// What reading a text from the front of `bytes` gives: a counted run of bytes, which
/// must be UTF-8.
pub open spec fn parse_text(bytes: Seq<u8>) -> Result<(Seq<char>, nat), CerealError> {
    match parse_counted::<u8>(bytes) {
        Ok((raw, used)) => if valid_utf8(raw) {
            Ok((decode_utf8(raw), used))
        } else {
            Err(CerealError::InvalidEncoding)
        },
        Err(e) => Err(e),
    }
}

/// `String::from_utf8` of std: it accepts exactly the byte sequences that are valid UTF-8,
/// and the string it gives has those bytes as its UTF-8 encoding.
#[verifier::external_body]
fn string_from_utf8(bytes: Vec<u8>) -> (r: Option<String>)
    ensures
        match r {
            Some(text) => valid_utf8(bytes@) && encode_utf8(text@) == bytes@,
            None => !valid_utf8(bytes@),
        },
{
    match String::from_utf8(bytes) {
        Ok(text) => Some(text),
        Err(_) => None,
    }
}

/// Appends `bytes` to `sink` as they are.
pub fn write_bytes(bytes: &[u8], sink: &mut Vec<u8>)
    ensures
        final(sink)@ == old(sink)@ + bytes@,
{
    let ghost before = sink@;
    let mut index: usize = 0;
    while index < bytes.len()
        invariant
            index <= bytes.len(),
            sink@ == before + bytes@.take(index as int),
        decreases bytes.len() - index,
    {
        sink.push(bytes[index]);
        index = index + 1;
        assert(bytes@.take(index as int) == bytes@.take(index - 1).push(bytes@[index - 1]));
    }
    assert(bytes@.take(index as int) == bytes@);
}

/// A text is the length of its UTF-8 encoding in bytes, as a `usize`, and then those bytes.
impl CerealData for String {
    type Model = Seq<char>;

    open spec fn obeys_wire_rules() -> bool {
        true
    }

    open spec fn well_formed(&self) -> bool {
        encode_utf8(self@).len() <= usize::MAX
    }

    open spec fn model(&self) -> Seq<char> {
        self@
    }

    open spec fn wire(&self) -> Seq<u8> {
        wire_count(encode_utf8(self@).len()) + encode_utf8(self@)
    }

    open spec fn parse(bytes: Seq<u8>) -> Result<(Seq<char>, nat), CerealError> {
        parse_text(bytes)
    }

    fn write(&self, sink: &mut Vec<u8>) -> (r: CerealResult<()>) {
        let bytes = self.as_str().as_bytes();
        match bytes.len().write(sink) {
            Ok(()) => {},
            Err(e) => {
                return Err(e);
            },
        }
        write_bytes(bytes, sink);
        assert(sink@ == old(sink)@ + (wire_count(bytes@.len()) + bytes@));
        Ok(())
    }

    fn read(source: &mut Source) -> (r: CerealResult<String>) {
        let raw = match Vec::<u8>::read(source) {
            Ok(raw) => raw,
            Err(e) => {
                return Err(e);
            },
        };
        assert(models_of(raw@) == raw@);
        match string_from_utf8(raw) {
            Some(text) => {
                proof {
                    encode_utf8_decode_utf8(text@);
                }
                Ok(text)
            },
            None => Err(CerealError::InvalidEncoding),
        }
    }
}

} // verus!
