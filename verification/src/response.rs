//! The HTTP response model and its wire serialization: a status line,
//! one line per header, defaulted `Content-Length` and `Connection`
//! headers when absent, a blank line, then the body verbatim.

use vstd::prelude::*;
use vstd::string::StrSliceExecFns;
use vstd::string::StringExecFns;
use vstd::utf8::encode_utf8;
use crate::strmap::StrMap;
use crate::strmap::lookup;
use crate::text::dec_of;
use crate::text::usize_to_string;

verus! {

/// An HTTP response: status code, headers, body.
pub struct Response {
    pub status_code: u16,
    pub headers: StrMap,
    pub body: String,
}

/// The reason phrase for a status code; codes outside the supported set
/// map to a generic phrase.
pub open spec fn spec_status_text(code: u16) -> Seq<char> {
    if code == 200 {
        "OK"@
    } else if code == 201 {
        "Created"@
    } else if code == 204 {
        "No Content"@
    } else if code == 400 {
        "Bad Request"@
    } else if code == 401 {
        "Unauthorized"@
    } else if code == 403 {
        "Forbidden"@
    } else if code == 404 {
        "Not Found"@
    } else if code == 405 {
        "Method Not Allowed"@
    } else if code == 500 {
        "Internal Server Error"@
    } else if code == 501 {
        "Not Implemented"@
    } else if code == 502 {
        "Bad Gateway"@
    } else if code == 503 {
        "Service Unavailable"@
    } else {
        "Unknown"@
    }
}

/// One serialized header line.
pub open spec fn header_line(k: Seq<char>, v: Seq<char>) -> Seq<char> {
    k + ": "@ + v + "\r\n"@
}

/// The serialized header entries, in storage order.
pub open spec fn header_block(s: Seq<(Seq<char>, Seq<char>)>) -> Seq<char>
    decreases s.len(),
{
    if s.len() == 0 {
        Seq::empty()
    } else {
        header_block(s.drop_last()) + header_line(s.last().0, s.last().1)
    }
}

/// The body's length in bytes, which is what `Content-Length` counts.
pub open spec fn body_byte_len(body: Seq<char>) -> nat {
    encode_utf8(body).len()
}

/// The serialized response, as characters: status line, headers,
/// defaulted `Content-Length` and `Connection: close` when absent,
/// blank line, body.
pub open spec fn spec_serialized(r: Response) -> Seq<char> {
    "HTTP/1.1 "@ + dec_of(r.status_code as nat) + " "@ + spec_status_text(r.status_code) + "\r\n"@
        + header_block(r.headers@) + (if lookup(r.headers@, "Content-Length"@) is Some {
        Seq::<char>::empty()
    } else {
        "Content-Length: "@ + dec_of(body_byte_len(r.body@)) + "\r\n"@
    }) + (if lookup(r.headers@, "Connection"@) is Some {
        Seq::<char>::empty()
    } else {
        "Connection: close\r\n"@
    }) + "\r\n"@ + r.body@
}

impl Response {
    /// The reason phrase for a status code.
    pub fn status_text(code: u16) -> (r: &'static str)
        ensures
            r@ == spec_status_text(code),
    {
        match code {
            200 => "OK",
            201 => "Created",
            204 => "No Content",
            400 => "Bad Request",
            401 => "Unauthorized",
            403 => "Forbidden",
            404 => "Not Found",
            405 => "Method Not Allowed",
            500 => "Internal Server Error",
            501 => "Not Implemented",
            502 => "Bad Gateway",
            503 => "Service Unavailable",
            _ => "Unknown",
        }
    }

    /// The response's wire bytes.
    pub fn to_bytes(&self) -> (r: Vec<u8>)
        ensures
            r@ == encode_utf8(spec_serialized(*self)),
    {
        let mut out = String::from_str("HTTP/1.1 ");
        out.append(usize_to_string(self.status_code as usize).as_str());
        out.append(" ");
        out.append(Self::status_text(self.status_code));
        out.append("\r\n");
        let ghost status_line = out@;
        let n = self.headers.len();
        let mut i: usize = 0;
        proof {
            assert(self.headers@.take(0) =~= Seq::<(Seq<char>, Seq<char>)>::empty());
        }
        while i < n
            invariant
                n == self.headers@.len(),
                n == self.headers.entries@.len(),
                i <= n,
                status_line == "HTTP/1.1 "@ + dec_of(self.status_code as nat) + " "@
                    + spec_status_text(self.status_code) + "\r\n"@,
                out@ == status_line + header_block(self.headers@.take(i as int)),
            decreases n - i,
        {
            out.append(self.headers.entries[i].0.as_str());
            out.append(": ");
            out.append(self.headers.entries[i].1.as_str());
            out.append("\r\n");
            proof {
                let hs = self.headers@;
                assert(hs.take(i + 1).drop_last() =~= hs.take(i as int));
                assert(hs.take(i + 1).last() == hs[i as int]);
                assert(out@ =~= status_line + header_block(hs.take(i + 1)));
            }
            i += 1;
        }
        proof {
            assert(self.headers@.take(n as int) =~= self.headers@);
        }
        let ghost head_part = status_line + header_block(self.headers@);
        let ghost cl_part = if lookup(self.headers@, "Content-Length"@) is Some {
            Seq::<char>::empty()
        } else {
            "Content-Length: "@ + dec_of(body_byte_len(self.body@)) + "\r\n"@
        };
        if !self.headers.contains_key("Content-Length") {
            out.append("Content-Length: ");
            out.append(usize_to_string(self.body.as_str().as_bytes().len()).as_str());
            out.append("\r\n");
            proof {
                assert(out@ =~= head_part + cl_part);
            }
        } else {
            proof {
                assert(out@ =~= head_part + cl_part);
            }
        }
        let ghost conn_part = if lookup(self.headers@, "Connection"@) is Some {
            Seq::<char>::empty()
        } else {
            "Connection: close\r\n"@
        };
        if !self.headers.contains_key("Connection") {
            out.append("Connection: close\r\n");
        }
        proof {
            assert(out@ =~= head_part + cl_part + conn_part);
        }
        out.append("\r\n");
        out.append(self.body.as_str());
        proof {
            assert(out@ =~= spec_serialized(*self));
        }
        out.as_str().as_bytes_vec()
    }
}

/// The fixed overload reply: a bare 503 with an empty body.
pub open spec fn overload_chars() -> Seq<char> {
    "HTTP/1.1 503 Service Unavailable\r\nContent-Length: 0\r\nConnection: close\r\n\r\n"@
}

/// The bytes written to a connection that is shed for want of a permit.
pub fn overload_response() -> (r: Vec<u8>)
    ensures
        r@ == encode_utf8(overload_chars()),
{
    "HTTP/1.1 503 Service Unavailable\r\nContent-Length: 0\r\nConnection: close\r\n\r\n".as_bytes_vec()
}

/// The overload reply is exactly the serialization of a 503 response with
/// no headers and an empty body.
pub proof fn lemma_overload_is_bare_503(r: Response)
    requires
        r.status_code == 503,
        r.headers@ == Seq::<(Seq<char>, Seq<char>)>::empty(),
        r.body@ == Seq::<char>::empty(),
    ensures
        spec_serialized(r) == overload_chars(),
{
    reveal_strlit("HTTP/1.1 ");
    reveal_strlit(" ");
    reveal_strlit("Service Unavailable");
    reveal_strlit("\r\n");
    reveal_strlit("Content-Length: ");
    reveal_strlit("Connection: close\r\n");
    reveal_strlit("HTTP/1.1 503 Service Unavailable\r\nContent-Length: 0\r\nConnection: close\r\n\r\n");
    assert(dec_of(503) =~= seq!['5', '0', '3']) by {
        assert(dec_of(503) == dec_of(50) + seq![crate::text::digit_char_of(3)]);
        assert(dec_of(50) == dec_of(5) + seq![crate::text::digit_char_of(0)]);
    }
    assert(body_byte_len(r.body@) == 0) by {
        assert(encode_utf8(r.body@).len() == 0);
    }
    assert(dec_of(0) =~= seq!['0']);
    assert(spec_serialized(r) =~= overload_chars());
}

} // verus!
