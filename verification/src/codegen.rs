use vstd::prelude::*;
use vstd::string::StringExecFns;

verus! {

/// An HTTP method.
#[derive(Clone, Copy, Debug, PartialEq, Eq)]
pub enum Method {
    Get,
    Put,
    Post,
    Patch,
    Delete,
    Options,
    Head,
}

/// A class of HTTP status codes.
#[derive(Clone, Copy, Debug, PartialEq, Eq)]
pub enum HttpStatusRange {
    Info,
    Success,
    Redirect,
    ClientError,
    ServerError,
}

/// An HTTP status: a code or a class of codes.
#[derive(Clone, Copy, Debug, PartialEq, Eq)]
pub enum HttpStatus {
    Code(u16),
    Range(HttpStatusRange),
}

/// The status code of an OpenAPI response: a code, or the first digit of a
/// class of codes.
#[derive(Clone, Copy, Debug, PartialEq, Eq)]
pub enum StatusCode {
    Code(u16),
    Range(u16),
}

/// A segment of a URI path: a literal, or a variable with its name.
#[derive(Debug, PartialEq, Eq)]
pub enum UriSegment {
    Literal(String),
    Variable(String),
}

/// The lowercase form of a text, by the Unicode `Lowercase` property.
pub uninterp spec fn lowercase(s: Seq<char>) -> Seq<char>;

/// `str::to_lowercase`: the lowercase form of the text.
#[verifier::external_body]
fn to_lowercase(s: &str) -> (r: String)
    ensures
        r@ == lowercase(s@),
{
    s.to_lowercase()
}

pub open spec fn method_name(m: Method) -> Seq<char> {
    match m {
        Method::Get => "get"@,
        Method::Put => "put"@,
        Method::Post => "post"@,
        Method::Patch => "patch"@,
        Method::Delete => "delete"@,
        Method::Options => "options"@,
        Method::Head => "head"@,
    }
}

/// The OpenAPI label of an HTTP method.
pub fn method_label(m: Method) -> (r: &'static str)
    ensures
        r@ == method_name(m),
{
    match m {
        Method::Get => "get",
        Method::Put => "put",
        Method::Post => "post",
        Method::Patch => "patch",
        Method::Delete => "delete",
        Method::Options => "options",
        Method::Head => "head",
    }
}

pub open spec fn segment_name(s: UriSegment) -> Seq<char> {
    match s {
        UriSegment::Literal(l) => if l@.len() == 0 {
            "root"@
        } else {
            lowercase(l@)
        },
        UriSegment::Variable(v) => lowercase(v@),
    }
}

/// The label of a URI segment: `root` for the empty literal, otherwise the
/// literal or the variable name in lowercase.
pub fn uri_segment_label(s: &UriSegment) -> (r: String)
    ensures
        r@ == segment_name(*s),
{
    match s {
        UriSegment::Literal(l) => {
            if l.as_str().is_empty() {
                String::from_str("root")
            } else {
                to_lowercase(l.as_str())
            }
        },
        UriSegment::Variable(v) => to_lowercase(v.as_str()),
    }
}

/// The words joined by `sep`.
pub open spec fn join(words: Seq<Seq<char>>, sep: Seq<char>) -> Seq<char>
    decreases words.len(),
{
    if words.len() == 0 {
        Seq::empty()
    } else if words.len() == 1 {
        words[0]
    } else {
        join(words.drop_last(), sep) + sep + words.last()
    }
}

/// The operation identifier of a transfer: its own identifier if it has one,
/// otherwise the method label and the labels of the path segments joined by `-`.
pub fn xfer_id(id: &Option<String>, method: Method, path: &Vec<UriSegment>) -> (r: Option<String>)
    ensures
        r is Some,
        match id {
            Some(i) => r->0@ == i@,
            None => r->0@ == join(
                seq![method_name(method)] + path@.map_values(|s: UriSegment| segment_name(s)),
                "-"@,
            ),
        },
{
    if let Some(i) = id {
        return Some(i.clone());
    }
    let ghost words = seq![method_name(method)] + path@.map_values(|s: UriSegment| segment_name(s));
    let mut label = String::from_str(method_label(method));
    let mut k: usize = 0;
    proof {
        assert(words.take(1) =~= seq![method_name(method)]);
    }
    while k < path.len()
        invariant
            k <= path.len(),
            words == seq![method_name(method)] + path@.map_values(|s: UriSegment| segment_name(s)),
            label@ == join(words.take(k + 1), "-"@),
        decreases path.len() - k,
    {
        let seg = uri_segment_label(&path[k]);
        label.append("-");
        label.append(seg.as_str());
        proof {
            assert(words.take(k + 2).drop_last() =~= words.take(k + 1));
            assert(words.take(k + 2).last() == words[k + 1]);
        }
        k = k + 1;
    }
    proof {
        assert(words.take(path.len() + 1) =~= words);
    }
    Some(label)
}

/// The OpenAPI status code of an HTTP status.
pub fn http_status_code(status: HttpStatus) -> (r: StatusCode)
    ensures
        r == match status {
            HttpStatus::Code(c) => StatusCode::Code(c),
            HttpStatus::Range(HttpStatusRange::Info) => StatusCode::Range(1),
            HttpStatus::Range(HttpStatusRange::Success) => StatusCode::Range(2),
            HttpStatus::Range(HttpStatusRange::Redirect) => StatusCode::Range(3),
            HttpStatus::Range(HttpStatusRange::ClientError) => StatusCode::Range(4),
            HttpStatus::Range(HttpStatusRange::ServerError) => StatusCode::Range(5),
        },
{
    match status {
        HttpStatus::Code(code) => StatusCode::Code(code),
        HttpStatus::Range(range) => StatusCode::Range(
            match range {
                HttpStatusRange::Info => 1,
                HttpStatusRange::Success => 2,
                HttpStatusRange::Redirect => 3,
                HttpStatusRange::ClientError => 4,
                HttpStatusRange::ServerError => 5,
            },
        ),
    }
}

} // verus!
