//! Requests as `httparse` reads them, buffers of `bytes`, and a map of headers.

use vstd::prelude::*;

use crate::workloads::text::{equal_bytes, push_bytes};

verus! {

/// A request head that was read.
pub struct HttpRequest {
    /// Length of the head in bytes.
    pub head: usize,
    pub path: Option<Vec<u8>>,
    /// Name and value of each header, in order.
    pub headers: Vec<(Vec<u8>, Vec<u8>)>,
}

/// What a request head says.
#[verifier::ext_equal]
pub struct RequestHead {
    pub head: usize,
    pub path: Option<Seq<u8>>,
    pub headers: Seq<(Seq<u8>, Seq<u8>)>,
}

impl View for HttpRequest {
    type V = RequestHead;

    open spec fn view(&self) -> RequestHead {
        RequestHead {
            head: self.head,
            path: match self.path {
                Some(path) => Some(path@),
                None => None,
            },
            headers: self.headers@.map_values(
                |header: (Vec<u8>, Vec<u8>)| (header.0@, header.1@),
            ),
        }
    }
}

/// The request head at the start of `raw`, read with room for `room` headers.
pub uninterp spec fn http_parsed(raw: Seq<u8>, room: nat) -> Option<RequestHead>;

/// `httparse::Request::parse` with storage for `room` headers, which fits in a vector: a
/// complete head, or nothing. The head and its path are parts of `raw`. Why a head was refused, or that it
/// is only partial, is not told apart.
#[verifier::external_body]
pub(crate) fn parse_request(raw: &[u8], room: usize) -> (request: Option<HttpRequest>)
    requires
        64 * room <= isize::MAX,
    ensures
        match request {
            Some(request) => http_parsed(raw@, room as nat) == Some(request@),
            None => http_parsed(raw@, room as nat) is None,
        },
        request matches Some(request) ==> request.head <= raw@.len() && (
        request.path matches Some(path) ==> path@.len() <= raw@.len()),
{
    let mut storage = vec![httparse::EMPTY_HEADER; room];
    let mut request = httparse::Request::new(&mut storage);
    match request.parse(raw) {
        Ok(httparse::Status::Complete(head)) => Some(HttpRequest {
            head,
            path: request.path.map(|path| path.as_bytes().to_vec()),
            headers: request.headers.iter().map(|h| (h.name.as_bytes().to_vec(), h.value.to_vec())).collect(),
        }),
        _ => None,
    }
}

/// `std::str::from_utf8`: whether `bytes` are the encoding of some characters.
#[verifier::external_body]
pub(crate) fn is_utf8(bytes: &[u8]) -> (valid: bool)
    ensures
        valid == vstd::utf8::valid_utf8(bytes@),
{
    std::str::from_utf8(bytes).is_ok()
}

/// The buffer type of `bytes`.
#[verifier::external_type_specification]
#[verifier::external_body]
pub struct ExBytesMut(bytes::BytesMut);

/// The bytes in a buffer.
pub uninterp spec fn bytes_of(buffer: bytes::BytesMut) -> Seq<u8>;

/// `bytes::BytesMut::with_capacity`: an empty buffer.
#[verifier::external_body]
pub(crate) fn new_buffer(capacity: usize) -> (buffer: bytes::BytesMut)
    requires
        capacity <= isize::MAX,
    ensures
        bytes_of(buffer) == Seq::<u8>::empty(),
{
    bytes::BytesMut::with_capacity(capacity)
}

/// `bytes::BufMut::put_slice` on a `BytesMut`: appends the bytes.
#[verifier::external_body]
pub(crate) fn put_slice(buffer: &mut bytes::BytesMut, piece: &[u8])
    requires
        bytes_of(*old(buffer)).len() + piece@.len() <= isize::MAX,
    ensures
        bytes_of(*final(buffer)) == bytes_of(*old(buffer)) + piece@,
{
    bytes::BufMut::put_slice(buffer, piece)
}

/// `AsRef<[u8]>` of `bytes::BytesMut`: the bytes in the buffer.
#[verifier::external_body]
pub(crate) fn contents(buffer: &bytes::BytesMut) -> (bytes: &[u8])
    ensures
        bytes@ == bytes_of(*buffer),
{
    buffer.as_ref()
}

/// `byte` in lower case.
pub open spec fn lower_byte(byte: u8) -> u8 {
    if 65 <= byte <= 90 {
        (byte + 32) as u8
    } else {
        byte
    }
}

/// `text` in lower case.
pub open spec fn lower(text: Seq<u8>) -> Seq<u8> {
    text.map_values(|byte: u8| lower_byte(byte))
}

/// `text` in lower case.
pub fn to_lower(text: &[u8]) -> (lowered: Vec<u8>)
    ensures
        lowered@ == lower(text@),
{
    let mut lowered: Vec<u8> = Vec::new();
    let mut i: usize = 0;
    while i < text.len()
        invariant
            i <= text@.len(),
            lowered@ == lower(text@.take(i as int)),
        decreases text@.len() - i,
    {
        let byte: u8 = text[i];
        lowered.push(
            if byte >= 65 && byte <= 90 {
                byte + 32
            } else {
                byte
            },
        );
        i = i + 1;
        assert(lowered@ =~= lower(text@.take(i as int)));
    }
    assert(text@.take(text@.len() as int) =~= text@);
    lowered
}

/// Readable headers among the first `count`, by name in lower case: the last value of a
/// name stands.
pub open spec fn header_map(headers: Seq<(Seq<u8>, Seq<u8>)>, count: nat) -> Map<
    Seq<u8>,
    Seq<u8>,
>
    decreases count,
{
    if count == 0 {
        Map::empty()
    } else {
        let earlier = header_map(headers, (count - 1) as nat);
        let (name, value) = headers[count - 1];
        if vstd::utf8::valid_utf8(value) {
            earlier.insert(lower(name), value)
        } else {
            earlier
        }
    }
}

/// There are no more names than headers.
pub proof fn lemma_header_count(headers: Seq<(Seq<u8>, Seq<u8>)>, count: nat)
    ensures
        header_map(headers, count).dom().finite(),
        header_map(headers, count).dom().len() <= count,
    decreases count,
{
    if count > 0 {
        lemma_header_count(headers, (count - 1) as nat);
        let earlier = header_map(headers, (count - 1) as nat);
        let name = lower(headers[count - 1].0);
        assert(earlier.insert(name, headers[count - 1].1).dom() =~= earlier.dom().insert(name));
    }
}

/// Header values by name.
pub struct HeaderMap {
    entries: Vec<(Vec<u8>, Vec<u8>)>,
}

/// Names of entries.
pub open spec fn names_of(entries: Seq<(Vec<u8>, Vec<u8>)>) -> Seq<Seq<u8>> {
    entries.map_values(|entry: (Vec<u8>, Vec<u8>)| entry.0@)
}

impl View for HeaderMap {
    type V = Map<Seq<u8>, Seq<u8>>;

    closed spec fn view(&self) -> Map<Seq<u8>, Seq<u8>> {
        let names = names_of(self.entries@);
        Map::new(
            |name: Seq<u8>| names.contains(name),
            |name: Seq<u8>| self.entries@[names.index_of(name)].1@,
        )
    }
}

impl HeaderMap {
    /// No name twice.
    pub closed spec fn wf(self) -> bool {
        names_of(self.entries@).no_duplicates()
    }

    pub fn new() -> (map: Self)
        ensures
            map.wf(),
            map@ == Map::<Seq<u8>, Seq<u8>>::empty(),
    {
        let map = HeaderMap { entries: Vec::new() };
        assert(map@ =~= Map::<Seq<u8>, Seq<u8>>::empty());
        map
    }

    /// Where `name` stands.
    fn position(&self, name: &[u8]) -> (found: Option<usize>)
        requires
            self.wf(),
        ensures
            match found {
                Some(at) => at < self.entries@.len() && self.entries@[at as int].0@ == name@
                    && self@.contains_key(name@) && self@[name@] == self.entries@[at as int].1@,
                None => !self@.contains_key(name@),
            },
    {
        let ghost names = names_of(self.entries@);
        let mut at: usize = 0;
        while at < self.entries.len()
            invariant
                at <= self.entries@.len(),
                names == names_of(self.entries@),
                names.no_duplicates(),
                forall|k: int| 0 <= k < at ==> #[trigger] names[k] != name@,
            decreases self.entries@.len() - at,
        {
            if equal_bytes(self.entries[at].0.as_slice(), name) {
                proof {
                    assert(names[at as int] == name@);
                    assert(names.contains(name@));
                    assert(names.index_of(name@) == at);
                }
                return Some(at);
            }
            assert(names[at as int] != name@);
            at = at + 1;
        }
        None
    }

    /// The value of `name`.
    pub fn get(&self, name: &[u8]) -> (value: Option<&Vec<u8>>)
        requires
            self.wf(),
        ensures
            match value {
                Some(value) => self@.contains_key(name@) && value@ == self@[name@],
                None => !self@.contains_key(name@),
            },
    {
        match self.position(name) {
            Some(at) => Some(&self.entries[at].1),
            None => None,
        }
    }

    /// Put `value` under `name`, in place of an earlier value.
    pub fn insert(&mut self, name: Vec<u8>, value: Vec<u8>)
        requires
            old(self).wf(),
        ensures
            final(self).wf(),
            final(self)@ == old(self)@.insert(name@, value@),
    {
        let ghost before = self.entries@;
        let ghost names = names_of(before);
        let ghost map = self@;
        match self.position(name.as_slice()) {
            Some(at) => {
                self.entries.set(at, (name, value));
                proof {
                    let after = names_of(self.entries@);
                    assert(after =~= names);
                    assert forall|other: Seq<u8>| #[trigger] after.contains(other) implies self@[other]
                        == map.insert(name@, value@)[other] by {
                        assert(names.contains(other));
                        assert(names.index_of(other) == after.index_of(other));
                        assert(names[at as int] == name@);
                        assert(names.contains(name@));
                        assert(names.index_of(name@) == at);
                    }
                    assert(names.contains(name@)) by {
                        assert(names[at as int] == name@);
                    }
                    assert(self@ =~= map.insert(name@, value@));
                }
            },
            None => {
                self.entries.push((name, value));
                proof {
                    let after = names_of(self.entries@);
                    assert(after =~= names.push(name@));
                    assert(!names.contains(name@));
                    assert(after[names.len() as int] == name@);
                    assert forall|other: Seq<u8>| #[trigger] after.contains(other) implies self@[other]
                        == map.insert(name@, value@)[other] by {
                        let at = after.index_of(other);
                        assert(after[at] == other);
                        if other != name@ {
                            assert(names[at] == other);
                            assert(names.contains(other));
                            assert(names.index_of(other) == at);
                        } else {
                            assert(at == names.len());
                        }
                    }
                    assert forall|other: Seq<u8>| names.contains(other) implies after.contains(
                        other,
                    ) by {
                        let at = names.index_of(other);
                        assert(after[at] == other);
                    }
                    assert(self@ =~= map.insert(name@, value@));
                }
            },
        }
    }

    /// How many names there are.
    pub fn len(&self) -> (count: usize)
        requires
            self.wf(),
        ensures
            count == self@.dom().len(),
    {
        proof {
            let names = names_of(self.entries@);
            names.unique_seq_to_set();
            assert(self@.dom() =~= names.to_set());
        }
        self.entries.len()
    }
}

fn copied(text: &[u8]) -> (copy: Vec<u8>)
    ensures
        copy@ == text@,
{
    let mut copy: Vec<u8> = Vec::new();
    push_bytes(&mut copy, text);
    assert(copy@ =~= text@);
    copy
}

/// The readable headers by name.
pub fn collect_headers(request: &HttpRequest) -> (map: HeaderMap)
    ensures
        map.wf(),
        map@ == header_map(request@.headers, request@.headers.len()),
{
    let ghost headers = request@.headers;
    let mut map = HeaderMap::new();
    let mut i: usize = 0;
    while i < request.headers.len()
        invariant
            headers == request@.headers,
            i <= headers.len() == request.headers@.len(),
            map.wf(),
            map@ == header_map(headers, i as nat),
        decreases headers.len() - i,
    {
        assert(headers[i as int] == (request.headers@[i as int].0@, request.headers@[i as int].1@));
        let header = &request.headers[i];
        if is_utf8(header.1.as_slice()) {
            let name = to_lower(header.0.as_slice());
            let value = copied(header.1.as_slice());
            map.insert(name, value);
        }
        i = i + 1;
    }
    map
}

} // verus!
