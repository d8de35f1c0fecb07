//! The request by which a TUN interface is set up, as the kernel reads it: a
//! name in 16 bytes, filled up with zeros, then two bytes of flags, then
//! zeros.
use vstd::prelude::*;
use vstd::string::StrSliceExecFns;
use vstd::utf8::encode_utf8;

use crate::text::{text_in, text_of};
use crate::wire::push_bytes;

verus! {

/// The bytes that a name is given.
pub const NAME_LEN: usize = 16;

/// The bytes of a request.
pub const REQUEST_LEN: usize = 40;

/// A run of zeros.
pub open spec fn zeros(n: int) -> Seq<u8> {
    Seq::new(n as nat, |i: int| 0u8)
}

/// The request for an interface of this name, with these flags.
pub open spec fn request_bytes(name: Seq<u8>, flags: Seq<u8>) -> Seq<u8> {
    name + zeros(NAME_LEN - name.len()) + flags + zeros(REQUEST_LEN - NAME_LEN - flags.len())
}

/// A text without the zero characters at its end.
pub open spec fn without_trailing_zeros(t: Seq<char>) -> Seq<char>
    decreases t.len(),
{
    if t.len() > 0 && t.last() == '\0' {
        without_trailing_zeros(t.drop_last())
    } else {
        t
    }
}

/// Appends zeros up to a length.
fn fill(out: &mut Vec<u8>, len: usize)
    requires
        old(out)@.len() <= len,
    ensures
        final(out)@ == old(out)@ + zeros(len - old(out)@.len()),
{
    while out.len() < len
        invariant
            old(out)@.len() <= out@.len() <= len,
            out@ == old(out)@ + zeros(out@.len() - old(out)@.len()),
        decreases len - out.len(),
    {
        out.push(0);
        assert(out@ =~= old(out)@ + zeros(out@.len() - old(out)@.len()));
    }
}

/// The request for the interface of a name, with flags in the byte order of
/// the machine; `None` if the name is too long.
pub fn interface_request(name: &str, flags: [u8; 2]) -> (r: Option<Vec<u8>>)
    ensures
        match r {
            Some(request) => {
                &&& encode_utf8(name@).len() < NAME_LEN
                &&& request@ == request_bytes(encode_utf8(name@), flags@)
            },
            None => encode_utf8(name@).len() >= NAME_LEN,
        },
{
    let bytes: &[u8] = name.as_bytes();
    if bytes.len() >= NAME_LEN {
        return None;
    }
    let mut request: Vec<u8> = Vec::new();
    push_bytes(&mut request, bytes);
    fill(&mut request, NAME_LEN);
    push_bytes(&mut request, &flags);
    fill(&mut request, REQUEST_LEN);
    assert(request@ =~= request_bytes(encode_utf8(name@), flags@));
    Some(request)
}

/// The name that the kernel has written into a request.
pub fn interface_name(request: &[u8]) -> (name: String)
    requires
        request@.len() >= NAME_LEN,
    ensures
        name@ == without_trailing_zeros(text_in(request@.take(NAME_LEN as int))),
{
    let field: &[u8] = &request[0..NAME_LEN];
    assert(field@ =~= request@.take(NAME_LEN as int));
    trimmed(text_of(field))
}

/// A text without the zero characters at its end.
pub fn trimmed(text: String) -> (name: String)
    ensures
        name@ == without_trailing_zeros(text@),
{
    let mut n: usize = text.as_str().unicode_len();
    assert(text@.take(n as int) =~= text@);
    while n > 0 && text.as_str().get_char(n - 1) == '\0'
        invariant
            n <= text@.len(),
            without_trailing_zeros(text@.take(n as int)) == without_trailing_zeros(text@),
        decreases n,
    {
        assert(text@.take(n as int).drop_last() =~= text@.take(n - 1));
        n = n - 1;
    }
    text.as_str().substring_char(0, n).to_owned()
}

} // verus!
