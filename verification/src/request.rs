//! The request that hands one event to the hub.

use vstd::prelude::*;

use crate::text::ascii_lowered;

verus! {

/// A header of a request.
#[derive(Debug)]
pub struct Header {
    pub name: String,
    pub value: String,
}

/// A POST request.
#[derive(Debug)]
pub struct PostRequest {
    pub url: String,
    pub headers: Vec<Header>,
    pub body: String,
}

/// A [`PostRequest`] with its texts as sequences of characters; a header is its name and its value.
#[verifier::ext_equal]
pub struct PostRequestView {
    pub url: Seq<char>,
    pub headers: Seq<(Seq<char>, Seq<char>)>,
    pub body: Seq<char>,
}

impl View for PostRequest {
    type V = PostRequestView;

    open spec fn view(&self) -> PostRequestView {
        PostRequestView {
            url: self.url@,
            headers: self.headers@.map_values(|header: Header| (header.name@, header.value@)),
            body: self.body@,
        }
    }
}

/// The request that posts `body` to `url` with the token `auth`.
pub open spec fn event_request(url: Seq<char>, auth: Seq<char>, body: Seq<char>) -> PostRequestView {
    PostRequestView {
        url,
        headers: seq![
            ("authorization"@, auth),
            ("content-type"@, "application/json"@),
        ],
        body,
    }
}

/// The request for a single event body with NO partition key.
///
/// Leaving out a `BrokerProperties` header, and posting to `/messages`, is what makes Event Hubs
/// distribute events round-robin across partitions.
pub fn send_request(url: &str, auth: &str, body: String) -> (r: PostRequest)
    ensures
        r@ == event_request(url@, auth@, body@),
        r.url@ == url@,
        r.body@ == body@,
        r.headers@.len() == 2,
        r.headers@[0].name@ == "authorization"@,
        r.headers@[0].value@ == auth@,
        r.headers@[1].name@ == "content-type"@,
        r.headers@[1].value@ == "application/json"@,
{
    let mut headers: Vec<Header> = Vec::new();
    headers.push(Header { name: "authorization".to_owned(), value: auth.to_owned() });
    headers.push(
        Header { name: "content-type".to_owned(), value: "application/json".to_owned() },
    );
    let request = PostRequest { url: url.to_owned(), headers, body };
    assert(request@.headers =~= event_request(url@, auth@, body@).headers);
    request
}

/// No request for an event carries broker properties, in whatever case the name is written, so none
/// carries a partition key.
pub proof fn law_request_has_no_broker_properties(
    url: Seq<char>,
    auth: Seq<char>,
    body: Seq<char>,
    i: int,
)
    requires
        0 <= i < event_request(url, auth, body).headers.len(),
    ensures
        ascii_lowered(event_request(url, auth, body).headers[i].0) != "brokerproperties"@,
{
    reveal_strlit("authorization");
    reveal_strlit("content-type");
    reveal_strlit("brokerproperties");
    let name = event_request(url, auth, body).headers[i].0;
    assert(ascii_lowered(name).len() == name.len());
    assert(name == "authorization"@ || name == "content-type"@);
}

/// A request posts to the address given and carries the body given, both unchanged. Of its headers
/// one is the authorization, whose value is the token given, in full; one is the content type, which
/// is JSON; and there is no other.
pub proof fn law_request_carries_what_it_is_given(
    request: PostRequest,
    url: Seq<char>,
    auth: Seq<char>,
    body: Seq<char>,
)
    requires
        request@ == event_request(url, auth, body),
    ensures
        request.url@ == url,
        request.body@ == body,
        request.headers@.filter(|h: Header| h.name@ == "authorization"@).len() == 1,
        request.headers@.filter(|h: Header| h.name@ == "content-type"@).len() == 1,
        forall|i: int|
            0 <= i < request.headers@.len() ==> {
                let header = #[trigger] request.headers@[i];
                ||| header.name@ == "authorization"@ && header.value@ == auth
                ||| header.name@ == "content-type"@ && header.value@ == "application/json"@
            },
{
    reveal_strlit("authorization");
    reveal_strlit("content-type");
    assert("authorization"@.len() != "content-type"@.len());
    let headers = request.headers@;
    let seen = request@.headers;
    assert(seen.len() == headers.len());
    assert(seen[0] == (headers[0].name@, headers[0].value@));
    assert(seen[1] == (headers[1].name@, headers[1].value@));
    reveal_with_fuel(Seq::filter, 3);
    assert(headers.drop_last().drop_last() =~= Seq::<Header>::empty());
    assert(headers.last() == headers[1] && headers.drop_last().last() == headers[0]);
}

}
