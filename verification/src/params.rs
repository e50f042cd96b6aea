//! Reading the parameters of a request.
use crate::hash::{
    hash_of_text, hash_text, hash_text_faults, lemma_hash_text_round_trip, parse_hash, FullHash,
};
use crate::json::{json_views, Json, JsonView};
use crate::text::texts;
use vstd::prelude::*;
use vstd::string::StringExecFns;

verus! {

/// An error: the message is reported to the client, and the causes, the closest
/// first, are logged with it.
#[derive(Debug)]
pub struct RpcError {
    pub message: String,
    pub causes: Vec<String>,
}

/// What an error says.
#[verifier::ext_equal]
pub struct ErrorView {
    pub message: Seq<char>,
    pub causes: Seq<Seq<char>>,
}

impl View for RpcError {
    type V = ErrorView;

    open spec fn view(&self) -> ErrorView {
        ErrorView { message: self.message@, causes: texts(self.causes@) }
    }
}

/// An error without a cause.
pub open spec fn error(message: Seq<char>) -> ErrorView {
    ErrorView { message, causes: Seq::empty() }
}

/// An error that another one caused.
pub open spec fn caused(message: Seq<char>, e: ErrorView) -> ErrorView {
    ErrorView { message, causes: seq![e.message] + e.causes }
}

impl RpcError {
    /// An error with this message.
    pub fn new(message: &str) -> (r: RpcError)
        ensures
            r@ == error(message@),
    {
        let r: RpcError = RpcError { message: message.to_string(), causes: Vec::new() };
        assert(r@ =~= error(message@));
        r
    }

    /// An error whose message names a parameter.
    pub fn about(message: &str, name: &str) -> (r: RpcError)
        ensures
            r@ == error(message@ + name@),
    {
        let mut text: String = message.to_string();
        text.append(name);
        let r: RpcError = RpcError { message: text, causes: Vec::new() };
        assert(r@ =~= error(message@ + name@));
        r
    }

    /// An error that another one caused.
    pub fn caused_by(message: &str, e: RpcError) -> (r: RpcError)
        ensures
            r@ == caused(message@, e@),
    {
        let mut causes: Vec<String> = e.causes;
        let ghost before = causes@;
        causes.insert(0, e.message);
        let r: RpcError = RpcError { message: message.to_string(), causes };
        proof {
            assert(texts(causes@) =~= seq![e.message@] + texts(before));
            assert(r@ =~= caused(message@, e@));
        }
        r
    }

    /// A copy.
    pub fn copy(&self) -> (r: RpcError)
        ensures
            r@ == self@,
    {
        let mut causes: Vec<String> = Vec::new();
        let mut i: usize = 0;
        while i < self.causes.len()
            invariant
                i <= self.causes@.len(),
                causes@.len() == i,
                forall|j: int| 0 <= j < i ==> (#[trigger] causes@[j])@ == self.causes@[j]@,
            decreases self.causes@.len() - i,
        {
            causes.push(self.causes[i].clone());
            i = i + 1;
        }
        let r: RpcError = RpcError { message: self.message.clone(), causes };
        assert(r@ =~= self@);
        r
    }
}

/// A result, with an error by what it says.
pub open spec fn outcome<T>(r: Result<T, RpcError>) -> Result<T, ErrorView> {
    match r {
        Ok(value) => Ok(value),
        Err(e) => Err(e@),
    }
}

/// Parameter `i`, if there are as many.
pub open spec fn param(params: Seq<JsonView>, i: int) -> Option<JsonView> {
    if 0 <= i < params.len() {
        Some(params[i])
    } else {
        None
    }
}

/// What an optional JSON value is.
pub open spec fn optional_view(val: Option<&Json>) -> Option<JsonView> {
    match val {
        Some(json) => Some(json@),
        None => None,
    }
}

/// Parameter `i`, if there are as many.
pub fn get_param(params: &Vec<Json>, i: usize) -> (r: Option<&Json>)
    ensures
        optional_view(r) == param(json_views(params@), i as int),
{
    if i < params.len() {
        Some(&params[i])
    } else {
        None
    }
}

/// The hash with these bytes.
pub open spec fn hash_with(bytes: Seq<u8>) -> FullHash {
    choose|hash: FullHash| hash@ == bytes
}

/// There is one hash with given bytes.
pub proof fn lemma_hash_with(hash: FullHash)
    ensures
        hash_with(hash@) == hash,
{
    assert(hash_with(hash@) =~= hash);
}

/// The hash that a parameter gives, as 64 hexadecimal digits.
pub open spec fn hash_param(val: Option<JsonView>) -> Result<FullHash, ErrorView> {
    match val {
        None => Err(error("missing hash"@)),
        Some(json) => match json.text() {
            None => Err(error("non-string hash"@)),
            Some(text) => match hash_of_text(text) {
                None => Err(
                    ErrorView { message: "non-hex hash"@, causes: hash_text_faults(text) },
                ),
                Some(bytes) => Ok(hash_with(bytes)),
            },
        },
    }
}

/// A client that sends the text of a hash means that hash, byte for byte: a
/// script that it follows is found among the scripts that the index reports.
pub proof fn lemma_hash_param_of_text(hash: FullHash)
    ensures
        hash_param(Some(JsonView::Text(hash_text(hash@)))) == Ok::<FullHash, ErrorView>(hash),
{
    lemma_hash_text_round_trip(hash@);
    lemma_hash_with(hash);
}

/// The hash that a parameter gives, or else an error that says `message`, with the
/// reason as its cause.
pub open spec fn hash_param_or(val: Option<JsonView>, message: Seq<char>) -> Result<
    FullHash,
    ErrorView,
> {
    match hash_param(val) {
        Ok(hash) => Ok(hash),
        Err(e) => Err(caused(message, e)),
    }
}

/// The number that a parameter gives.
pub open spec fn usize_param(val: Option<JsonView>, name: Seq<char>) -> Result<usize, ErrorView> {
    match val {
        None => Err(error("missing "@ + name)),
        Some(json) => match json.unsigned() {
            None => Err(error("non-integer "@ + name)),
            Some(n) => Ok(n as usize),
        },
    }
}

/// The number that a parameter gives, or a default where it is missing.
pub open spec fn usize_param_or(
    val: Option<JsonView>,
    name: Seq<char>,
    default: usize,
) -> Result<usize, ErrorView> {
    if val is None {
        Ok(default)
    } else {
        usize_param(val, name)
    }
}

/// The truth value that a parameter gives.
pub open spec fn bool_param(val: Option<JsonView>, name: Seq<char>) -> Result<bool, ErrorView> {
    match val {
        None => Err(error("missing "@ + name)),
        Some(json) => match json.truth() {
            None => Err(error("not a bool "@ + name)),
            Some(b) => Ok(b),
        },
    }
}

/// The truth value that a parameter gives, or a default where it is missing.
pub open spec fn bool_param_or(
    val: Option<JsonView>,
    name: Seq<char>,
    default: bool,
) -> Result<bool, ErrorView> {
    if val is None {
        Ok(default)
    } else {
        bool_param(val, name)
    }
}

/// Reads a hash.
pub fn hash_from_value(val: Option<&Json>) -> (r: Result<FullHash, RpcError>)
    ensures
        outcome(r) == hash_param(optional_view(val)),
        r matches Ok(hash) ==> optional_view(val) is Some && optional_view(val)->0.text() is Some
            && hash_of_text(optional_view(val)->0.text()->0) == Some(hash@),
{
    match val {
        None => Err(RpcError::new("missing hash")),
        Some(json) => match json {
            Json::Text(text) => match parse_hash(text.as_str()) {
                Err(causes) => Err(RpcError { message: "non-hex hash".to_string(), causes }),
                Ok(hash) => {
                    proof {
                        lemma_hash_with(hash);
                    }
                    Ok(hash)
                },
            },
            _ => Err(RpcError::new("non-string hash")),
        },
    }
}

/// Reads a hash, with an error that says `message`, and why as its cause.
pub fn hash_from_value_or(val: Option<&Json>, message: &str) -> (r: Result<FullHash, RpcError>)
    ensures
        outcome(r) == hash_param_or(optional_view(val), message@),
        r matches Ok(hash) ==> optional_view(val) is Some && optional_view(val)->0.text() is Some
            && hash_of_text(optional_view(val)->0.text()->0) == Some(hash@),
{
    match hash_from_value(val) {
        Ok(hash) => Ok(hash),
        Err(e) => Err(RpcError::caused_by(message, e)),
    }
}

/// Reads a number.
pub fn usize_from_value(val: Option<&Json>, name: &str) -> (r: Result<usize, RpcError>)
    ensures
        outcome(r) == usize_param(optional_view(val), name@),
{
    match val {
        None => Err(RpcError::about("missing ", name)),
        Some(json) => match json {
            Json::Unsigned(n) => Ok(#[verifier::truncate] (*n as usize)),
            _ => Err(RpcError::about("non-integer ", name)),
        },
    }
}

/// Reads a number that may be missing.
pub fn usize_from_value_or(
    val: Option<&Json>,
    name: &str,
    default: usize,
) -> (r: Result<usize, RpcError>)
    ensures
        outcome(r) == usize_param_or(optional_view(val), name@, default),
{
    if val.is_none() {
        return Ok(default);
    }
    usize_from_value(val, name)
}

/// Reads a truth value.
pub fn bool_from_value(val: Option<&Json>, name: &str) -> (r: Result<bool, RpcError>)
    ensures
        outcome(r) == bool_param(optional_view(val), name@),
{
    match val {
        None => Err(RpcError::about("missing ", name)),
        Some(json) => match json {
            Json::Bool(b) => Ok(*b),
            _ => Err(RpcError::about("not a bool ", name)),
        },
    }
}

/// Reads a truth value that may be missing.
pub fn bool_from_value_or(
    val: Option<&Json>,
    name: &str,
    default: bool,
) -> (r: Result<bool, RpcError>)
    ensures
        outcome(r) == bool_param_or(optional_view(val), name@, default),
{
    if val.is_none() {
        return Ok(default);
    }
    bool_from_value(val, name)
}

} // verus!
