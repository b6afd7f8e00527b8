use vstd::prelude::*;

verus! {

/// The mathematical value of a [`Request`]: every field taken down to plain
/// sequences, so that contracts can speak of captured requests by value.
#[verifier::ext_equal]
pub ghost struct RequestView {
    pub id: u128,
    pub received_time: i64,
    pub method: Seq<char>,
    pub uri: Seq<char>,
    pub headers: Seq<(Seq<char>, Seq<char>)>,
    pub body: Seq<char>,
}

/// One captured inbound request, immutable once created.
///
/// `id` is an opaque, globally unique token (a UUID carried by its 128-bit
/// value) assigned at receipt. `received_time` is the receipt time in
/// milliseconds since the Unix epoch; the cleanup sweep compares ages
/// against it. Headers keep their order and may repeat; header values that
/// did not decode to text were dropped before construction, and the body is
/// the lossily decoded text of the raw bytes.
#[derive(Debug)]
pub struct Request {
    pub id: u128,
    pub received_time: i64,
    pub method: String,
    pub uri: String,
    pub headers: Vec<(String, String)>,
    pub body: String,
}

impl View for Request {
    type V = RequestView;

    open spec fn view(&self) -> RequestView {
        RequestView {
            id: self.id,
            received_time: self.received_time,
            method: self.method@,
            uri: self.uri@,
            headers: self.headers.deep_view(),
            body: self.body@,
        }
    }
}

/// The sequence of values behind a sequence of captured requests.
pub open spec fn views_of(s: Seq<Request>) -> Seq<RequestView> {
    Seq::new(s.len(), |i: int| s[i]@)
}

impl Clone for Request {
    /// A clone carries the same value: every field of the view is kept.
    fn clone(&self) -> (r: Self)
        ensures
            r@ == self@,
    {
        let r = Request {
            id: self.id,
            received_time: self.received_time,
            method: self.method.clone(),
            uri: self.uri.clone(),
            headers: clone_headers(&self.headers),
            body: self.body.clone(),
        };
        proof {
            assert(r@ =~= self@);
        }
        r
    }
}

/// Copies a header list pair by pair; the result holds the same sequence of
/// name/value pairs.
fn clone_headers(headers: &Vec<(String, String)>) -> (r: Vec<(String, String)>)
    ensures
        r@ == headers@,
{
    let mut out: Vec<(String, String)> = Vec::new();
    let mut i: usize = 0;
    while i < headers.len()
        invariant
            i <= headers@.len(),
            out@ =~= headers@.take(i as int),
        decreases headers@.len() - i,
    {
        let name = headers[i].0.clone();
        let value = headers[i].1.clone();
        out.push((name, value));
        proof {
            assert(out@ =~= headers@.take(i + 1));
        }
        i += 1;
    }
    proof {
        assert(headers@.take(headers@.len() as int) =~= headers@);
    }
    out
}

} // verus!
