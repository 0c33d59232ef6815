//! OAuth 1.0a signing: signing key, signature base string, HMAC-SHA1
//! signature and the `Authorization` header.
//!
//! The HMAC-SHA1 digest and the base64 encoding come from the
//! `hmac-sha1` and `base64` crates; everything around those two calls is
//! verified against the byte-level model below.

use vstd::prelude::*;
use vstd::string::StrSliceExecFns;
use vstd::string::StringExecFns;
use vstd::string::StringSliceAdditionalSpecFns;

use crate::canonical::{canonical_params, pairs_view, push_all};
use crate::encoding::{lemma_percent_encoded_bytes, percent_encode_bytes, percent_encoded};
use crate::numeral::{dec_int, i64_to_dec, lemma_dec_int_injective};

verus! {

/// The characters of an ASCII byte string.
pub open spec fn chars_of_bytes(s: Seq<u8>) -> Seq<char> {
    Seq::new(s.len(), |i: int| s[i] as char)
}

/// The OAuth signing key: the two secrets percent-encoded and joined
/// with `&`.
pub open spec fn signing_key_bytes(consumer_secret: Seq<u8>, token_secret: Seq<u8>) -> Seq<u8> {
    percent_encoded(consumer_secret) + seq![38u8] + percent_encoded(token_secret)
}

/// The OAuth signature base string: method, endpoint and the canonical
/// parameter string, each percent-encoded, joined with `&`. (The
/// parameter string is encoded a second time here: its pairs were
/// already encoded one by one.)
pub open spec fn signature_base_bytes(
    method: Seq<u8>,
    endpoint: Seq<u8>,
    params: Seq<(Seq<u8>, Seq<u8>)>,
) -> Seq<u8> {
    percent_encoded(method) + seq![38u8] + percent_encoded(endpoint) + seq![38u8]
        + percent_encoded(canonical_params(params))
}

/// The HMAC-SHA1 digest of a message under a key, as the `hmac-sha1`
/// crate computes it.
pub uninterp spec fn hmac_sha1_of(key: Seq<u8>, msg: Seq<u8>) -> Seq<u8>;

/// The base64 encoding of a byte string (standard alphabet, padded), as
/// the `base64` crate computes it.
pub uninterp spec fn base64_of(data: Seq<u8>) -> Seq<u8>;

/// A finished OAuth signature: the base64-encoded HMAC-SHA1 digest.
pub open spec fn signed_bytes(key: Seq<u8>, data: Seq<u8>) -> Seq<u8> {
    base64_of(hmac_sha1_of(key, data))
}

/// The signature for a request: secrets, method, endpoint and parameters
/// all enter as plain byte strings.
pub open spec fn oauth_signature_bytes(
    method: Seq<u8>,
    endpoint: Seq<u8>,
    consumer_secret: Seq<u8>,
    token_secret: Seq<u8>,
    params: Seq<(Seq<u8>, Seq<u8>)>,
) -> Seq<u8> {
    signed_bytes(
        signing_key_bytes(consumer_secret, token_secret),
        signature_base_bytes(method, endpoint, params),
    )
}

/// Relies on hmac_sha1::hmac_sha1: the HMAC-SHA1 digest of the message
/// under the key, a function of the two arguments alone; 20 bytes long,
/// and total for keys and messages of any length.
#[verifier::external_body]
fn hmac_sha1_digest(key: &Vec<u8>, msg: &Vec<u8>) -> (r: Vec<u8>)
    ensures
        r@ == hmac_sha1_of(key@, msg@),
        r@.len() == 20,
{
    hmac_sha1::hmac_sha1(key.as_slice(), msg.as_slice()).to_vec()
}

/// Relies on base64::encode: the standard-alphabet, padded base64
/// encoding of the input, a function of the input alone; its output is
/// ASCII. The length bound keeps the buffer-size arithmetic inside the
/// crate from overflowing.
#[verifier::external_body]
fn base64_encode(data: &Vec<u8>) -> (r: Vec<u8>)
    requires
        data@.len() <= 0x10000000,
    ensures
        r@ == base64_of(data@),
        forall|i: int| 0 <= i < r@.len() ==> r@[i] < 128,
{
    base64::encode(data.as_slice()).into_bytes()
}

/// Relies on chrono::Utc::now: the current Unix time in whole seconds.
/// Nothing is assumed of the value.
#[verifier::external_body]
fn unix_now() -> (t: i64) {
    chrono::Utc::now().timestamp()
}

/// Relies on String::from_utf8: ASCII bytes are valid UTF-8 and decode
/// to the string whose characters carry the same codes.
#[verifier::external_body]
fn ascii_to_string(v: Vec<u8>) -> (r: String)
    requires
        forall|i: int| 0 <= i < v@.len() ==> v@[i] < 128,
    ensures
        r@ == chars_of_bytes(v@),
{
    match String::from_utf8(v) {
        Ok(s) => s,
        Err(_) => String::new(),
    }
}

/// An ordered list of (key, value) parameter pairs, held as bytes.
/// OAuth treats the parameters as a map, so a caller should not insert
/// the same key twice; the canonical string sorts the pairs itself.
pub struct ParamList {
    pub pairs: Vec<(Vec<u8>, Vec<u8>)>,
}

impl View for ParamList {
    type V = Seq<(Seq<u8>, Seq<u8>)>;

    open spec fn view(&self) -> Seq<(Seq<u8>, Seq<u8>)> {
        pairs_view(self.pairs@)
    }
}

impl ParamList {
    /// An empty parameter list.
    pub fn new() -> (r: ParamList)
        ensures
            r@ == Seq::<(Seq<u8>, Seq<u8>)>::empty(),
    {
        let r = ParamList { pairs: Vec::new() };
        proof {
            assert(r@ =~= Seq::<(Seq<u8>, Seq<u8>)>::empty());
        }
        r
    }

    /// Add one (key, value) pair at the end.
    pub fn insert(&mut self, key: &str, value: &str)
        ensures
            final(self)@ == old(self)@.push((key.spec_bytes(), value.spec_bytes())),
    {
        let k = key.as_bytes_vec();
        let v = value.as_bytes_vec();
        self.pairs.push((k, v));
        proof {
            assert(self@ =~= old(self)@.push((key.spec_bytes(), value.spec_bytes())));
        }
    }
}

/// The signing key and the signature base string for a request, over
/// plain byte strings.
fn key_and_base(
    method: &Vec<u8>,
    endpoint: &Vec<u8>,
    consumer_secret: &Vec<u8>,
    token_secret: &Vec<u8>,
    params: &Vec<(Vec<u8>, Vec<u8>)>,
) -> (r: (Vec<u8>, Vec<u8>))
    ensures
        r.0@ == signing_key_bytes(consumer_secret@, token_secret@),
        r.1@ == signature_base_bytes(method@, endpoint@, pairs_view(params@)),
{
    let mut key = percent_encode_bytes(consumer_secret);
    key.push(38u8);
    let ts_enc = percent_encode_bytes(token_secret);
    push_all(&mut key, &ts_enc);
    proof {
        assert(key@ =~= signing_key_bytes(consumer_secret@, token_secret@));
    }
    let mut base = percent_encode_bytes(method);
    base.push(38u8);
    let ep_enc = percent_encode_bytes(endpoint);
    push_all(&mut base, &ep_enc);
    base.push(38u8);
    let canon = crate::canonical::build_canonical_params(params);
    let canon_enc = percent_encode_bytes(&canon);
    push_all(&mut base, &canon_enc);
    proof {
        assert(base@ =~= signature_base_bytes(method@, endpoint@, pairs_view(params@)));
    }
    (key, base)
}

/// The signing key and the signature base string, from the request's
/// strings and parameters.
pub fn build_signature_base_string(
    http_method: &str,
    endpoint: &str,
    oauth_consumer_secret: &str,
    oauth_token_secret: &str,
    params: &ParamList,
) -> (r: (Vec<u8>, Vec<u8>))
    ensures
        r.0@ == signing_key_bytes(
            oauth_consumer_secret.spec_bytes(),
            oauth_token_secret.spec_bytes(),
        ),
        r.1@ == signature_base_bytes(http_method.spec_bytes(), endpoint.spec_bytes(), params@),
{
    let m = http_method.as_bytes_vec();
    let e = endpoint.as_bytes_vec();
    let cs = oauth_consumer_secret.as_bytes_vec();
    let ts = oauth_token_secret.as_bytes_vec();
    key_and_base(&m, &e, &cs, &ts, &params.pairs)
}

/// Sign a base string under a key: HMAC-SHA1, then base64.
pub fn sign(key: &Vec<u8>, data: &Vec<u8>) -> (r: String)
    ensures
        r@ == chars_of_bytes(signed_bytes(key@, data@)),
{
    let digest = hmac_sha1_digest(key, data);
    let sig = base64_encode(&digest);
    ascii_to_string(sig)
}

/// The OAuth signature of a request: derive the key and the base string,
/// sign, and return the base64 text.
pub fn create_oauth_signature(
    http_method: &str,
    endpoint: &str,
    oauth_consumer_secret: &str,
    oauth_token_secret: &str,
    params: &ParamList,
) -> (r: String)
    ensures
        r@ == chars_of_bytes(
            oauth_signature_bytes(
                http_method.spec_bytes(),
                endpoint.spec_bytes(),
                oauth_consumer_secret.spec_bytes(),
                oauth_token_secret.spec_bytes(),
                params@,
            ),
        ),
{
    let (key, base) = build_signature_base_string(
        http_method,
        endpoint,
        oauth_consumer_secret,
        oauth_token_secret,
        params,
    );
    sign(&key, &base)
}

/// The same inputs always sign to the same signature: the signature is a
/// function of the method, endpoint, secrets and parameters alone.
pub proof fn lemma_signature_deterministic(
    r1: Seq<char>,
    r2: Seq<char>,
    method: Seq<u8>,
    endpoint: Seq<u8>,
    consumer_secret: Seq<u8>,
    token_secret: Seq<u8>,
    params: Seq<(Seq<u8>, Seq<u8>)>,
)
    requires
        r1 == chars_of_bytes(
            oauth_signature_bytes(method, endpoint, consumer_secret, token_secret, params),
        ),
        r2 == chars_of_bytes(
            oauth_signature_bytes(method, endpoint, consumer_secret, token_secret, params),
        ),
    ensures
        r1 == r2,
{
}

/// The nonce the request-token step uses: `nonce` followed by the Unix
/// time in decimal.
pub open spec fn nonce_bytes(t: int) -> Seq<u8> {
    "nonce".spec_bytes() + dec_int(t)
}

/// The six oauth parameters of the request-token step, in the order the
/// header builder supplies them (the canonical string sorts them).
pub open spec fn request_params(
    nonce: Seq<u8>,
    callback: Seq<u8>,
    timestamp: Seq<u8>,
    consumer_key: Seq<u8>,
) -> Seq<(Seq<u8>, Seq<u8>)> {
    seq![
        ("oauth_nonce".spec_bytes(), nonce),
        ("oauth_callback".spec_bytes(), callback),
        ("oauth_signature_method".spec_bytes(), "HMAC-SHA1".spec_bytes()),
        ("oauth_timestamp".spec_bytes(), timestamp),
        ("oauth_version".spec_bytes(), "1.0".spec_bytes()),
        ("oauth_consumer_key".spec_bytes(), consumer_key),
    ]
}

/// The part of the `Authorization` header after the nonce value: the
/// remaining fields, each percent-encoded and quoted.
pub open spec fn header_tail(
    callback: Seq<u8>,
    timestamp: Seq<u8>,
    consumer_key: Seq<u8>,
    signature: Seq<u8>,
) -> Seq<char> {
    "\", oauth_callback=\""@ + chars_of_bytes(percent_encoded(callback))
        + "\", oauth_signature_method=\""@ + chars_of_bytes(
        percent_encoded("HMAC-SHA1".spec_bytes()),
    ) + "\", oauth_timestamp=\""@ + chars_of_bytes(percent_encoded(timestamp))
        + "\", oauth_consumer_key=\""@ + chars_of_bytes(percent_encoded(consumer_key))
        + "\", oauth_signature=\""@ + chars_of_bytes(percent_encoded(signature))
        + "\", oauth_version=\""@ + chars_of_bytes(percent_encoded("1.0".spec_bytes())) + "\""@
}

/// The `Authorization` header: the fixed labels with each value
/// percent-encoded and quoted, in the fixed field order.
pub open spec fn header_view(
    nonce: Seq<u8>,
    callback: Seq<u8>,
    timestamp: Seq<u8>,
    consumer_key: Seq<u8>,
    signature: Seq<u8>,
) -> Seq<char> {
    "OAuth oauth_nonce=\""@ + chars_of_bytes(percent_encoded(nonce)) + header_tail(
        callback,
        timestamp,
        consumer_key,
        signature,
    )
}

/// The whole request-token header as a function of the endpoint, the
/// credentials, the callback and the Unix time the builder read.
pub open spec fn request_header_at(
    endpoint: Seq<u8>,
    consumer_key: Seq<u8>,
    consumer_secret: Seq<u8>,
    callback: Seq<u8>,
    t: int,
) -> Seq<char> {
    let nonce = nonce_bytes(t);
    let ts = dec_int(t);
    let params = request_params(nonce, callback, ts, consumer_key);
    let sig = oauth_signature_bytes(
        "POST".spec_bytes(),
        endpoint,
        consumer_secret,
        Seq::empty(),
        params,
    );
    header_view(nonce, callback, ts, consumer_key, sig)
}

/// Percent-encode a byte string and append it to a header under
/// construction.
fn append_encoded(out: &mut String, data: &Vec<u8>)
    ensures
        final(out)@ == old(out)@ + chars_of_bytes(percent_encoded(data@)),
{
    let enc = percent_encode_bytes(data);
    proof {
        lemma_percent_encoded_bytes(data@);
    }
    let s = ascii_to_string(enc);
    out.append(s.as_str());
}

/// Build the request-token `Authorization` header for a given Unix time.
#[verifier::rlimit(100)]
#[verifier::spinoff_prover]
pub fn build_request_header(
    endpoint: &str,
    oauth_consumer_key: &str,
    oauth_consumer_secret: &str,
    oauth_callback: &str,
    timestamp: i64,
) -> (r: String)
    ensures
        r@ == request_header_at(
            endpoint.spec_bytes(),
            oauth_consumer_key.spec_bytes(),
            oauth_consumer_secret.spec_bytes(),
            oauth_callback.spec_bytes(),
            timestamp as int,
        ),
{
    // The nonce and timestamp strings.
    let mut nonce: Vec<u8> = "nonce".as_bytes_vec();
    let ts_dec = i64_to_dec(timestamp);
    push_all(&mut nonce, &ts_dec);
    proof {
        assert(nonce@ =~= nonce_bytes(timestamp as int));
    }
    // The six parameters, in the order of `request_params`.
    let mut nonce_copy: Vec<u8> = Vec::new();
    push_all(&mut nonce_copy, &nonce);
    let mut ts_copy: Vec<u8> = Vec::new();
    push_all(&mut ts_copy, &ts_dec);
    let mut params: Vec<(Vec<u8>, Vec<u8>)> = Vec::new();
    params.push(("oauth_nonce".as_bytes_vec(), nonce_copy));
    params.push(("oauth_callback".as_bytes_vec(), oauth_callback.as_bytes_vec()));
    params.push(("oauth_signature_method".as_bytes_vec(), "HMAC-SHA1".as_bytes_vec()));
    params.push(("oauth_timestamp".as_bytes_vec(), ts_copy));
    params.push(("oauth_version".as_bytes_vec(), "1.0".as_bytes_vec()));
    params.push(("oauth_consumer_key".as_bytes_vec(), oauth_consumer_key.as_bytes_vec()));
    proof {
        assert(pairs_view(params@) =~= request_params(
            nonce_bytes(timestamp as int),
            oauth_callback.spec_bytes(),
            dec_int(timestamp as int),
            oauth_consumer_key.spec_bytes(),
        ));
    }
    // The signature, with an empty token secret: none is issued yet at
    // the request-token step.
    let post = "POST".as_bytes_vec();
    let endpoint_bytes = endpoint.as_bytes_vec();
    let secret_bytes = oauth_consumer_secret.as_bytes_vec();
    let empty_secret: Vec<u8> = Vec::new();
    proof {
        assert(empty_secret@ =~= Seq::<u8>::empty());
    }
    let (key, base) = key_and_base(&post, &endpoint_bytes, &secret_bytes, &empty_secret, &params);
    let digest = hmac_sha1_digest(&key, &base);
    let sig = base64_encode(&digest);
    // The header itself.
    let callback_bytes = oauth_callback.as_bytes_vec();
    let method_label = "HMAC-SHA1".as_bytes_vec();
    let version_label = "1.0".as_bytes_vec();
    let key_bytes = oauth_consumer_key.as_bytes_vec();
    let mut tail = String::new();
    tail.append("\", oauth_callback=\"");
    append_encoded(&mut tail, &callback_bytes);
    tail.append("\", oauth_signature_method=\"");
    append_encoded(&mut tail, &method_label);
    tail.append("\", oauth_timestamp=\"");
    append_encoded(&mut tail, &ts_dec);
    tail.append("\", oauth_consumer_key=\"");
    append_encoded(&mut tail, &key_bytes);
    tail.append("\", oauth_signature=\"");
    append_encoded(&mut tail, &sig);
    tail.append("\", oauth_version=\"");
    append_encoded(&mut tail, &version_label);
    tail.append("\"");
    proof {
        assert(tail@ =~= header_tail(
            oauth_callback.spec_bytes(),
            dec_int(timestamp as int),
            oauth_consumer_key.spec_bytes(),
            sig@,
        ));
    }
    let mut out = String::new();
    out.append("OAuth oauth_nonce=\"");
    append_encoded(&mut out, &nonce);
    out.append(tail.as_str());
    proof {
        assert(out@ =~= request_header_at(
            endpoint.spec_bytes(),
            oauth_consumer_key.spec_bytes(),
            oauth_consumer_secret.spec_bytes(),
            oauth_callback.spec_bytes(),
            timestamp as int,
        ));
    }
    out
}

/// Build the request-token `Authorization` header from the current time:
/// the nonce and the timestamp are read off the clock at the call.
pub fn get_request_header(
    endpoint: &str,
    oauth_consumer_key: &str,
    oauth_consumer_secret: &str,
    oauth_callback: &str,
) -> (r: String)
    ensures
        exists|t: int|
            r@ == #[trigger] request_header_at(
                endpoint.spec_bytes(),
                oauth_consumer_key.spec_bytes(),
                oauth_consumer_secret.spec_bytes(),
                oauth_callback.spec_bytes(),
                t,
            ),
{
    let now = unix_now();
    let r = build_request_header(
        endpoint,
        oauth_consumer_key,
        oauth_consumer_secret,
        oauth_callback,
        now,
    );
    proof {
        assert(r@ == request_header_at(
            endpoint.spec_bytes(),
            oauth_consumer_key.spec_bytes(),
            oauth_consumer_secret.spec_bytes(),
            oauth_callback.spec_bytes(),
            now as int,
        ));
    }
    r
}

/// ASCII byte strings with the same characters are the same bytes.
proof fn lemma_chars_of_bytes_injective(a: Seq<u8>, b: Seq<u8>)
    requires
        chars_of_bytes(a) == chars_of_bytes(b),
    ensures
        a == b,
{
    assert(chars_of_bytes(a).len() == a.len());
    assert(chars_of_bytes(b).len() == b.len());
    assert(a.len() == b.len());
    assert forall|i: int| 0 <= i < a.len() implies a[i] == b[i] by {
        assert(chars_of_bytes(a)[i] == a[i] as char);
        assert(chars_of_bytes(b)[i] == b[i] as char);
    }
    assert(a =~= b);
}

/// Two strings that agree on a prefix, then carry a quote-free segment
/// closed by a quote, carry the same segment if they are equal.
proof fn lemma_quoted_segment(
    p: Seq<char>,
    a1: Seq<char>,
    r1: Seq<char>,
    a2: Seq<char>,
    r2: Seq<char>,
)
    requires
        p + a1 + r1 == p + a2 + r2,
        forall|i: int| 0 <= i < a1.len() ==> #[trigger] a1[i] != '"',
        forall|i: int| 0 <= i < a2.len() ==> #[trigger] a2[i] != '"',
        r1.len() > 0 && r1[0] == '"',
        r2.len() > 0 && r2[0] == '"',
    ensures
        a1 == a2,
{
    let s1 = p + a1 + r1;
    let s2 = p + a2 + r2;
    if a1.len() < a2.len() {
        assert(s1[p.len() + a1.len() as int] == r1[0]);
        assert(s2[p.len() + a1.len() as int] == a2[a1.len() as int]);
        assert(false);
    } else if a2.len() < a1.len() {
        assert(s2[p.len() + a2.len() as int] == r2[0]);
        assert(s1[p.len() + a2.len() as int] == a1[a2.len() as int]);
        assert(false);
    } else {
        assert forall|i: int| 0 <= i < a1.len() implies a1[i] == a2[i] by {
            assert(s1[p.len() + i] == a1[i]);
            assert(s2[p.len() + i] == a2[i]);
        }
        assert(a1 =~= a2);
    }
}

/// Requests built at different times differ: the timestamp strings, the
/// nonce values and the whole `Authorization` headers are all distinct.
/// (The signatures cannot collide unless HMAC-SHA1 itself does; that is
/// not claimed here.)
#[verifier::rlimit(100)]
#[verifier::spinoff_prover]
pub proof fn lemma_distinct_timestamps_distinct_headers(
    endpoint: Seq<u8>,
    consumer_key: Seq<u8>,
    consumer_secret: Seq<u8>,
    callback: Seq<u8>,
    t1: int,
    t2: int,
)
    requires
        t1 != t2,
    ensures
        dec_int(t1) != dec_int(t2),
        nonce_bytes(t1) != nonce_bytes(t2),
        request_header_at(endpoint, consumer_key, consumer_secret, callback, t1)
            != request_header_at(endpoint, consumer_key, consumer_secret, callback, t2),
{
    if dec_int(t1) == dec_int(t2) {
        lemma_dec_int_injective(t1, t2);
    }
    let n = "nonce".spec_bytes().len() as int;
    if nonce_bytes(t1) == nonce_bytes(t2) {
        assert(dec_int(t1) =~= nonce_bytes(t1).skip(n));
        assert(dec_int(t2) =~= nonce_bytes(t2).skip(n));
        assert(false);
    }
    let h1 = request_header_at(endpoint, consumer_key, consumer_secret, callback, t1);
    let h2 = request_header_at(endpoint, consumer_key, consumer_secret, callback, t2);
    if h1 == h2 {
        let p = "OAuth oauth_nonce=\""@;
        let a1 = chars_of_bytes(percent_encoded(nonce_bytes(t1)));
        let a2 = chars_of_bytes(percent_encoded(nonce_bytes(t2)));
        let sig1 = oauth_signature_bytes(
            "POST".spec_bytes(),
            endpoint,
            consumer_secret,
            Seq::empty(),
            request_params(nonce_bytes(t1), callback, dec_int(t1), consumer_key),
        );
        let sig2 = oauth_signature_bytes(
            "POST".spec_bytes(),
            endpoint,
            consumer_secret,
            Seq::empty(),
            request_params(nonce_bytes(t2), callback, dec_int(t2), consumer_key),
        );
        let r1 = header_tail(callback, dec_int(t1), consumer_key, sig1);
        let r2 = header_tail(callback, dec_int(t2), consumer_key, sig2);
        assert(h1 == p + a1 + r1);
        assert(h2 == p + a2 + r2);
        reveal_strlit("\", oauth_callback=\"");
        let lab = "\", oauth_callback=\""@;
        assert(lab[0] == '"');
        assert(lab.len() == 19);
        assert(r1[0] == '"' && r1.len() > 0);
        assert(r2[0] == '"' && r2.len() > 0);
        lemma_percent_encoded_bytes(nonce_bytes(t1));
        lemma_percent_encoded_bytes(nonce_bytes(t2));
        assert forall|i: int| 0 <= i < a1.len() implies #[trigger] a1[i] != '"' by {
            assert(a1[i] == percent_encoded(nonce_bytes(t1))[i] as char);
            assert(percent_encoded(nonce_bytes(t1))[i] != 34);
        }
        assert forall|i: int| 0 <= i < a2.len() implies #[trigger] a2[i] != '"' by {
            assert(a2[i] == percent_encoded(nonce_bytes(t2))[i] as char);
            assert(percent_encoded(nonce_bytes(t2))[i] != 34);
        }
        lemma_quoted_segment(p, a1, r1, a2, r2);
        lemma_chars_of_bytes_injective(
            percent_encoded(nonce_bytes(t1)),
            percent_encoded(nonce_bytes(t2)),
        );
        crate::encoding::lemma_percent_encoded_injective(nonce_bytes(t1), nonce_bytes(t2));
        assert(false);
    }
}

} // verus!
