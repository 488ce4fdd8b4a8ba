//! A Stream that arrived, and where it came from.

use vstd::prelude::*;
use vstd::string::StringExecFns;

verus! {

/// One Stream: its bytes, and the URI of the entry that carried it.
#[derive(Debug)]
pub struct Arrived {
    pub origin_uri: String,
    pub bytes: Vec<u8>,
}

/// An [`Arrived`] as a mathematical value.
pub struct Arrival {
    pub origin_uri: Seq<char>,
    pub bytes: Seq<u8>,
}

impl View for Arrived {
    type V = Arrival;

    open spec fn view(&self) -> Arrival {
        Arrival { origin_uri: self.origin_uri@, bytes: self.bytes@ }
    }
}

/// The URI of an entry: the server, the stream and the id.
pub open spec fn origin(server: Seq<char>, stream: Seq<char>, id: Seq<char>) -> Seq<char> {
    "redis://"@ + server + "/"@ + stream + "/"@ + id
}

/// The URI of the entry `id` of `stream` on `server`.
pub(crate) fn origin_text(server: &str, stream: &str, id: &str) -> (uri: String)
    ensures
        uri@ == origin(server@, stream@, id@),
{
    let mut uri = String::new();
    uri.append("redis://");
    uri.append(server);
    uri.append("/");
    uri.append(stream);
    uri.append("/");
    uri.append(id);
    assert(uri@ =~= origin(server@, stream@, id@));
    uri
}

} // verus!
