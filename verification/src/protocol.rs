//! The request and response values that travel over a connection.

use vstd::prelude::*;

verus! {

/// One client request: read a key, write a key, or delete a key.
///
/// On the wire a write carries the tag `Set`; the variant is named `Put`
/// here only because this crate reserves the word `Set` for mathematics.
#[derive(Debug, Clone, PartialEq, Eq)]
pub enum Request {
    Get { key: String },
    Put { key: String, value: String },
    Remove { key: String },
}

/// The mathematical shape of a request: the same three forms over
/// character sequences.
pub enum ReqData {
    Get { key: Seq<char> },
    Put { key: Seq<char>, value: Seq<char> },
    Remove { key: Seq<char> },
}

impl View for Request {
    type V = ReqData;

    open spec fn view(&self) -> ReqData {
        match self {
            Request::Get { key } => ReqData::Get { key: key@ },
            Request::Put { key, value } => ReqData::Put { key: key@, value: value@ },
            Request::Remove { key } => ReqData::Remove { key: key@ },
        }
    }
}

/// The key a request operates on.
pub open spec fn req_key(r: ReqData) -> Seq<char> {
    match r {
        ReqData::Get { key } => key,
        ReqData::Put { key, value } => key,
        ReqData::Remove { key } => key,
    }
}

/// Reply to a get request: the stored value if the engine answered, or the
/// engine's error text. On the wire the two arms carry the tags `Ok` and `Err`.
#[derive(Debug, Clone, PartialEq, Eq)]
pub enum GetResponse {
    Value(Option<String>),
    Fail(String),
}

/// The mathematical shape of a get reply.
pub enum GetRespData {
    Value(Option<Seq<char>>),
    Fail(Seq<char>),
}

impl View for GetResponse {
    type V = GetRespData;

    open spec fn view(&self) -> GetRespData {
        match self {
            GetResponse::Value(ov) => GetRespData::Value(
                match ov {
                    Some(v) => Some(v@),
                    None => None,
                },
            ),
            GetResponse::Fail(m) => GetRespData::Fail(m@),
        }
    }
}

/// Reply to a put or remove request: done, or the engine's error text.
/// On the wire the two arms carry the tags `Ok` and `Err`.
#[derive(Debug, Clone, PartialEq, Eq)]
pub enum MutResponse {
    Done,
    Fail(String),
}

/// The mathematical shape of a put or remove reply.
pub enum MutRespData {
    Done,
    Fail(Seq<char>),
}

impl View for MutResponse {
    type V = MutRespData;

    open spec fn view(&self) -> MutRespData {
        match self {
            MutResponse::Done => MutRespData::Done,
            MutResponse::Fail(m) => MutRespData::Fail(m@),
        }
    }
}

} // verus!
