use vstd::prelude::*;
use vstd::string::StringExecFns;

verus! {

#[verifier::external_type_specification]
#[verifier::external_body]
pub struct ExUrlencodedError(serde_urlencoded::ser::Error);

/// Why a request could not be signed.
#[derive(Debug, Clone, Copy, PartialEq, Eq, Structural)]
pub enum SigningError {
    /// The parameters could not be form-encoded.
    Encoding,
}

/// The views of query parameters.
pub open spec fn pairs_view(params: Seq<(String, String)>) -> Seq<(Seq<char>, Seq<char>)> {
    params.map_values(|p: (String, String)| (p.0@, p.1@))
}

/// The form encoding of a sequence of key-value pairs.
pub uninterp spec fn urlencoded_of(pairs: Seq<(Seq<char>, Seq<char>)>) -> Seq<char>;

/// HMAC-SHA256 of `msg` under `key`, both taken as their UTF-8 bytes.
pub uninterp spec fn hmac_sha256_of(key: Seq<char>, msg: Seq<char>) -> Seq<u8>;

/// Lowercase hexadecimal digit of `n`.
pub open spec fn hex_digit(n: int) -> char {
    if n < 10 {
        ('0' as int + n) as char
    } else {
        ('a' as int + n - 10) as char
    }
}

/// Lowercase hexadecimal rendering: two digits per byte, high nibble first.
pub open spec fn hex_of(b: Seq<u8>) -> Seq<char>
    decreases b.len(),
{
    if b.len() == 0 {
        seq![]
    } else {
        hex_of(b.drop_last()) + seq![hex_digit(b.last() as int / 16), hex_digit(b.last() as int % 16)]
    }
}

/// Relies on serde_urlencoded::to_string: form-encodes the pairs in order;
/// on failure its error is handed back.
#[verifier::external_body]
fn encode_pairs(params: &Vec<(String, String)>) -> (r: Result<String, serde_urlencoded::ser::Error>)
    ensures
        r matches Ok(s) ==> s@ == urlencoded_of(pairs_view(params@)),
{
    serde_urlencoded::to_string(params)
}

/// Relies on hmac::Hmac over sha2::Sha256 (new_from_slice, update,
/// finalize): the 32-byte MAC of `msg` under `key`.
#[verifier::external_body]
fn hmac_sha256(key: &str, msg: &str) -> (r: Vec<u8>)
    ensures
        r@ == hmac_sha256_of(key@, msg@),
        r@.len() == 32,
{
    let mut mac = <hmac::Hmac<sha2::Sha256> as hmac::Mac>::new_from_slice(key.as_bytes()).unwrap();
    hmac::Mac::update(&mut mac, msg.as_bytes());
    hmac::Mac::finalize(mac).into_bytes().to_vec()
}

/// Relies on hex::encode: lowercase hexadecimal, two digits per byte.
#[verifier::external_body]
fn hex_encode(b: &Vec<u8>) -> (r: String)
    ensures
        r@ == hex_of(b@),
{
    hex::encode(b)
}

/// The URL of a signed request, given the form-encoded query.
pub open spec fn signed_url_of(endpoint: Seq<char>, query: Seq<char>, secret: Seq<char>) -> Seq<char> {
    endpoint + "?"@ + query + "&signature="@ + hex_of(hmac_sha256_of(secret, query))
}

/// Builds the URL of a signed request from the form-encoded query: the
/// endpoint, the query, and the hex HMAC-SHA256 of the query under the
/// secret.
pub fn sign_query(endpoint: &str, query: &str, secret: &str) -> (r: String)
    ensures
        r@ == signed_url_of(endpoint@, query@, secret@),
{
    let mac = hmac_sha256(secret, query);
    let signature = hex_encode(&mac);
    let mut url = String::from_str(endpoint);
    url.append("?");
    url.append(query);
    url.append("&signature=");
    url.append(signature.as_str());
    proof {
        reveal_strlit("?");
        reveal_strlit("&signature=");
    }
    url
}

/// Builds the URL of a signed request: the parameters are form-encoded in
/// order, then signed.
pub fn signed_url(endpoint: &str, params: &Vec<(String, String)>, secret: &str) -> (r: Result<String, SigningError>)
    ensures
        r matches Ok(u) ==> u@ == signed_url_of(endpoint@, urlencoded_of(pairs_view(params@)), secret@),
        r matches Err(e) ==> e == SigningError::Encoding,
{
    match encode_pairs(params) {
        Ok(q) => Ok(sign_query(endpoint, q.as_str(), secret)),
        Err(_) => Err(SigningError::Encoding),
    }
}

} // verus!
