//! A parsed client command: the verb and its optional key and value.
use vstd::prelude::*;

use crate::types::codec::{
    chars_of, spec_parse, split_crlf, split_crlf_exec, string_from_chars, strip_nul,
};
use crate::types::{ErrorView, RedisError, RedisOp, RedisType, ValueView};
use vstd::string::StrSliceExecFns;

verus! {

/// A parsed request: an operation plus the key and value fields that
/// came with it, either of which may be absent.
pub struct RedisRequest {
    pub op: RedisOp,
    pub key: Option<RedisType>,
    pub value: Option<RedisType>,
}

/// Spec-level shape of a request.
pub struct RequestView {
    pub op: RedisOp,
    pub key: Option<ValueView>,
    pub value: Option<ValueView>,
}

impl DeepView for RedisRequest {
    type V = RequestView;

    open spec fn deep_view(&self) -> RequestView {
        RequestView { op: self.op, key: self.key.deep_view(), value: self.value.deep_view() }
    }
}

/// The operation named by a verb field, if the verb is one of the four
/// known, case-sensitive commands.
pub open spec fn spec_verb(f: Seq<char>) -> Option<RedisOp> {
    if f == "ADD"@ {
        Some(RedisOp::Add)
    } else if f == "GET"@ {
        Some(RedisOp::Get)
    } else if f == "DELETE"@ {
        Some(RedisOp::Delete)
    } else if f == "PING"@ {
        Some(RedisOp::Ping)
    } else {
        None
    }
}

/// What a raw message denotes as a request. NUL padding is discarded,
/// the rest splits into CRLF-separated fields: the first field is the
/// verb (an unknown verb makes an error request), the second, if any,
/// is the key, the third, if any, is the value; later fields are
/// ignored. A field that fails to parse fails the whole request.
pub open spec fn spec_parse_request(s: Seq<char>) -> Result<RequestView, ErrorView> {
    let fields = split_crlf(strip_nul(s));
    match spec_verb(fields[0]) {
        None => Ok(
            RequestView {
                op: RedisOp::Error,
                key: Some(ValueView::Fail("Unknown command"@)),
                value: None,
            },
        ),
        Some(op) => {
            if fields.len() < 2 {
                Ok(RequestView { op, key: None, value: None })
            } else {
                match spec_parse(fields[1]) {
                    Err(e) => Err(e),
                    Ok(k) => {
                        if fields.len() < 3 {
                            Ok(RequestView { op, key: Some(k), value: None })
                        } else {
                            match spec_parse(fields[2]) {
                                Err(e) => Err(e),
                                Ok(v) => Ok(RequestView { op, key: Some(k), value: Some(v) }),
                            }
                        }
                    },
                }
            }
        },
    }
}

/// True when a character vector holds exactly the text of `w`.
fn field_is(l: &Vec<char>, w: &str) -> (r: bool)
    ensures
        r == (l@ == w@),
{
    let n = w.unicode_len();
    if l.len() != n {
        return false;
    }
    let mut i: usize = 0;
    while i < n
        invariant
            i <= n,
            n == w@.len(),
            l@.len() == n,
            forall|j: int| 0 <= j < i as int ==> l@[j] == w@[j],
        decreases n - i,
    {
        if l[i] != w.get_char(i) {
            return false;
        }
        i = i + 1;
    }
    proof {
        assert(l@ =~= w@);
    }
    true
}

impl RedisRequest {
    /// A request assembled from its parts.
    pub fn new(op: RedisOp, key: Option<RedisType>, value: Option<RedisType>) -> (r: RedisRequest)
        ensures
            r.op == op,
            r.key == key,
            r.value == value,
    {
        RedisRequest { op, key, value }
    }

    /// Reads a raw message as a request, as `spec_parse_request` lays
    /// down.
    pub fn parse(stream: String) -> (r: Result<RedisRequest, RedisError>)
        ensures
            (r is Ok) == (spec_parse_request(stream@) is Ok),
            r matches Ok(q) ==> spec_parse_request(stream@) == Ok::<RequestView, ErrorView>(
                q.deep_view(),
            ),
            r matches Err(e) ==> spec_parse_request(stream@) == Err::<RequestView, ErrorView>(
                e.deep_view(),
            ),
    {
        let raw = chars_of(stream.as_str());
        let mut cleaned: Vec<char> = Vec::new();
        let mut i: usize = 0;
        while i < raw.len()
            invariant
                i <= raw@.len(),
                raw@ == stream@,
                cleaned@ == strip_nul(raw@.subrange(0, i as int)),
            decreases raw@.len() - i,
        {
            let ghost before = raw@.subrange(0, i as int);
            let ghost after = raw@.subrange(0, i as int + 1);
            proof {
                assert(after.drop_last() =~= before);
                assert(after.last() == raw@[i as int]);
            }
            let c = raw[i];
            if c != '\0' {
                cleaned.push(c);
            }
            i = i + 1;
        }
        proof {
            assert(raw@.subrange(0, raw@.len() as int) =~= stream@);
        }
        let fields = split_crlf_exec(&cleaned);
        let ghost fv = split_crlf(strip_nul(stream@));
        proof {
            crate::types::codec::lemma_split_crlf_len(cleaned@);
        }
        let op = if field_is(&fields[0], "ADD") {
            RedisOp::Add
        } else if field_is(&fields[0], "GET") {
            RedisOp::Get
        } else if field_is(&fields[0], "DELETE") {
            RedisOp::Delete
        } else if field_is(&fields[0], "PING") {
            RedisOp::Ping
        } else {
            let msg = String::from_str("Unknown command");
            return Ok(
                RedisRequest {
                    op: RedisOp::Error,
                    key: Some(RedisType::Error(msg)),
                    value: None,
                },
            );
        };
        if fields.len() < 2 {
            return Ok(RedisRequest { op, key: None, value: None });
        }
        let key = match RedisType::parse(string_from_chars(&fields[1])) {
            Ok(k) => k,
            Err(e) => {
                return Err(e);
            },
        };
        if fields.len() < 3 {
            return Ok(RedisRequest { op, key: Some(key), value: None });
        }
        let value = match RedisType::parse(string_from_chars(&fields[2])) {
            Ok(v) => v,
            Err(e) => {
                return Err(e);
            },
        };
        Ok(RedisRequest { op, key: Some(key), value: Some(value) })
    }
}

} // verus!
