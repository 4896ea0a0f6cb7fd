use vstd::prelude::*;

verus! {

/// Identifies a TLS endpoint: a host name, as given, and a port.
#[derive(Clone, Debug, Hash)]
pub struct SessionKey {
    /// Hostname
    pub host: String,
    /// Port
    pub port: u16,
}

impl View for SessionKey {
    type V = (Seq<char>, u16);

    open spec fn view(&self) -> (Seq<char>, u16) {
        (self.host@, self.port)
    }
}

impl SessionKey {
    /// Copies the key, host and port alike.
    pub fn duplicate(&self) -> (r: SessionKey)
        ensures
            r@ == self@,
    {
        SessionKey { host: self.host.clone(), port: self.port }
    }
}

impl PartialEq for SessionKey {
    fn eq(&self, other: &SessionKey) -> (r: bool) {
        self.port == other.port && self.host == other.host
    }
}

impl vstd::std_specs::cmp::PartialEqSpecImpl for SessionKey {
    open spec fn obeys_eq_spec() -> bool {
        true
    }

    open spec fn eq_spec(&self, other: &SessionKey) -> bool {
        self@ == other@
    }
}

impl Eq for SessionKey {
}

/// The protocol version a session was negotiated under.
#[derive(Clone, Copy, Debug, PartialEq, Eq, Structural)]
pub enum ProtocolVersion {
    Ssl3,
    Tls1,
    Tls1_1,
    Tls1_2,
    Tls1_3,
    Dtls1,
    Dtls1_2,
    Dtls1_3,
}

/// A resumable session: its stable identifier, the protocol version it was
/// negotiated under, and the handle that callers get back from the cache.
pub struct Session<H> {
    pub id: Vec<u8>,
    pub version: ProtocolVersion,
    pub handle: H,
}

impl<H> Session<H> {
    pub fn new(id: Vec<u8>, version: ProtocolVersion, handle: H) -> (r: Session<H>)
        ensures
            r.id@ == id@,
            r.version == version,
            r.handle == handle,
    {
        Session { id, version, handle }
    }

    /// TLS 1.3 tickets may be used for one resumption only.
    pub open spec fn spec_single_use(&self) -> bool {
        self.version == ProtocolVersion::Tls1_3
    }

    pub fn single_use(&self) -> (r: bool)
        ensures
            r == self.spec_single_use(),
    {
        match self.version {
            ProtocolVersion::Tls1_3 => true,
            _ => false,
        }
    }
}

/// Equality of two byte strings, element by element.
pub fn same_bytes(a: &[u8], b: &[u8]) -> (r: bool)
    ensures
        r == (a@ == b@),
{
    if a.len() != b.len() {
        return false;
    }
    let mut i: usize = 0;
    while i < a.len()
        invariant
            a@.len() == b@.len(),
            0 <= i <= a@.len(),
            a@.subrange(0, i as int) == b@.subrange(0, i as int),
        decreases a@.len() - i,
    {
        if a[i] != b[i] {
            assert(a@[i as int] != b@[i as int]);
            return false;
        }
        assert(a@.subrange(0, i + 1) =~= a@.subrange(0, i as int).push(a@[i as int]));
        assert(b@.subrange(0, i + 1) =~= b@.subrange(0, i as int).push(b@[i as int]));
        i = i + 1;
    }
    assert(a@ =~= a@.subrange(0, i as int));
    assert(b@ =~= b@.subrange(0, i as int));
    true
}

/// A copy of a byte string.
pub fn copy_bytes(a: &[u8]) -> (r: Vec<u8>)
    ensures
        r@ == a@,
{
    let mut r: Vec<u8> = Vec::new();
    let mut i: usize = 0;
    while i < a.len()
        invariant
            0 <= i <= a@.len(),
            r@ == a@.subrange(0, i as int),
        decreases a@.len() - i,
    {
        r.push(a[i]);
        assert(a@.subrange(0, i + 1) =~= a@.subrange(0, i as int).push(a@[i as int]));
        i = i + 1;
    }
    assert(a@ =~= a@.subrange(0, i as int));
    r
}

} // verus!
