use vstd::prelude::*;

use crypto::digest::Digest;
use crypto::md5::Md5;
use crypto::sha2::Sha256;

verus! {

/// Why no digest could be produced for a path.
#[derive(Clone, Debug, PartialEq, Eq)]
pub enum IoError {
    /// No byte stream could be opened for the path.
    Open { path: String, detail: String },
    /// Reading the stream failed part way through.
    Read { path: String, detail: String },
}

/// The model of a digester's answer: the digest text, or the error.
pub open spec fn answer_view(r: Result<String, IoError>) -> Result<Seq<char>, IoError> {
    match r {
        Ok(d) => Ok(d@),
        Err(e) => Err(e),
    }
}

/// Something that produces a digest string for a path.
pub trait Digester {
    /// The requests answered so far, oldest first: each path asked for, with the answer.
    /// Verified implementations keep this record. The contract below does not hold for an
    /// implementation that keeps the default.
    open spec fn requests(&self) -> Seq<(Seq<char>, Result<Seq<char>, IoError>)> {
        Seq::empty()
    }

    /// Computes the digest of the content found at `path`.
    fn get_digest(&mut self, path: &str) -> (r: Result<String, IoError>)
        ensures
            final(self).requests() == old(self).requests().push((path@, answer_view(r))),
    ;
}

/// A stream of bytes, handed out in chunks.
///
/// The spec functions model the stream; verified implementations define them. The contract
/// does not hold for an implementation that keeps their defaults, and nothing proved of the
/// readers of such a stream holds for it.
pub trait ChunkRead {
    /// The bytes the stream has still to hand out.
    open spec fn remaining(&self) -> Seq<u8> {
        Seq::empty()
    }

    /// Reads from this stream cannot fail.
    open spec fn reliable(&self) -> bool {
        false
    }

    /// The next chunk of the stream; an empty chunk marks its end.
    fn read_chunk(&mut self) -> (r: Result<Vec<u8>, IoError>)
        ensures
            r matches Ok(c) ==> old(self).remaining() == c@ + final(self).remaining() && (c@.len()
                == 0 ==> old(self).remaining().len() == 0),
            old(self).reliable() ==> r is Ok && final(self).reliable(),
    ;
}

/// Opens a byte stream for a path.
///
/// The spec functions model the source; verified implementations define them. The contract
/// does not hold for an implementation that keeps their defaults, and nothing proved of the
/// users of such a source holds for it.
pub trait ReadOpener {
    type Readable: ChunkRead;

    /// The content served for `path`, or `None` where no stream can be opened for it.
    open spec fn content(&self, path: Seq<char>) -> Option<Seq<u8>> {
        None
    }

    /// The streams this source opens cannot fail.
    open spec fn reliable(&self) -> bool {
        false
    }

    /// The errors returned so far for paths that could not be opened, oldest first.
    open spec fn refusals(&self) -> Seq<IoError> {
        Seq::empty()
    }

    /// Opens the stream of the content found at `path`.
    fn get_reader(&mut self, path: &str) -> (r: Result<Self::Readable, IoError>)
        ensures
            forall|p: Seq<char>| #[trigger] final(self).content(p) == old(self).content(p),
            final(self).reliable() == old(self).reliable(),
            match r {
                Ok(s) => old(self).content(path@) == Some(s.remaining()) && (old(self).reliable()
                    ==> s.reliable()) && final(self).refusals() == old(self).refusals(),
                Err(e) => old(self).content(path@) is None && final(self).refusals() == old(
                    self,
                ).refusals().push(e),
            },
    ;
}

/// The most bytes a `ByteCursor` hands out in one chunk.
pub const CHUNK_SIZE: usize = 8192;

/// A byte stream over bytes held in memory.
pub struct ByteCursor {
    data: Vec<u8>,
    pos: usize,
}

impl ByteCursor {
    /// The bytes not read yet.
    pub closed spec fn rest(&self) -> Seq<u8> {
        if self.pos <= self.data@.len() {
            self.data@.subrange(self.pos as int, self.data@.len() as int)
        } else {
            Seq::empty()
        }
    }

    /// Well-formed: the position lies within the bytes.
    pub closed spec fn wf(&self) -> bool {
        self.pos <= self.data@.len()
    }
}

impl ChunkRead for ByteCursor {
    closed spec fn remaining(&self) -> Seq<u8> {
        self.rest()
    }

    open spec fn reliable(&self) -> bool {
        true
    }

    /// Hands out the next `CHUNK_SIZE` bytes, or all that are left if fewer.
    fn read_chunk(&mut self) -> (r: Result<Vec<u8>, IoError>)
        ensures
            old(self).wf() ==> {
                let n = if old(self).rest().len() < CHUNK_SIZE {
                    old(self).rest().len() as int
                } else {
                    CHUNK_SIZE as int
                };
                &&& final(self).wf()
                &&& r matches Ok(c) && c@ == old(self).rest().take(n)
                &&& final(self).rest() == old(self).rest().skip(n)
            },
    {
        if self.pos > self.data.len() {
            return Ok(Vec::new());
        }
        let left = self.data.len() - self.pos;
        let n = if left < CHUNK_SIZE { left } else { CHUNK_SIZE };
        let mut chunk: Vec<u8> = Vec::new();
        chunk.extend_from_slice(&self.data.as_slice()[self.pos..self.pos + n]);
        let ghost before = self.rest();
        self.pos = self.pos + n;
        proof {
            assert(chunk@ =~= before.take(n as int));
            assert(self.rest() =~= before.skip(n as int));
        }
        Ok(chunk)
    }
}

/// A stream source that serves bytes held in memory, one sequence per path.
pub struct CursorReadOpener {
    cursors: Vec<(String, Vec<u8>)>,
    refused: Ghost<Seq<IoError>>,
}

/// The content served per path: a later addition for a path replaces an earlier one.
pub open spec fn contents_of(s: Seq<(String, Vec<u8>)>) -> Map<Seq<char>, Seq<u8>>
    decreases s.len(),
{
    if s.len() == 0 {
        Map::empty()
    } else {
        contents_of(s.drop_last()).insert(s.last().0@, s.last().1@)
    }
}

proof fn lemma_contents_last(s: Seq<(String, Vec<u8>)>, i: int, k: Seq<char>)
    requires
        0 <= i < s.len(),
        s[i].0@ == k,
        forall|j: int| i < j < s.len() ==> (#[trigger] s[j]).0@ != k,
    ensures
        contents_of(s).contains_key(k),
        contents_of(s)[k] == s[i].1@,
    decreases s.len(),
{
    if i < s.len() - 1 {
        assert(s.drop_last()[i] == s[i]);
        assert(s.last() == s[s.len() - 1]);
        assert forall|j: int| i < j < s.drop_last().len()
            implies (#[trigger] s.drop_last()[j]).0@ != k by {
            assert(s.drop_last()[j] == s[j]);
        }
        lemma_contents_last(s.drop_last(), i, k);
    }
}

proof fn lemma_contents_absent(s: Seq<(String, Vec<u8>)>, k: Seq<char>)
    requires
        forall|j: int| 0 <= j < s.len() ==> (#[trigger] s[j]).0@ != k,
    ensures
        !contents_of(s).contains_key(k),
    decreases s.len(),
{
    if s.len() > 0 {
        assert(s.last() == s[s.len() - 1]);
        assert forall|j: int| 0 <= j < s.drop_last().len()
            implies (#[trigger] s.drop_last()[j]).0@ != k by {
            assert(s.drop_last()[j] == s[j]);
        }
        lemma_contents_absent(s.drop_last(), k);
    }
}

impl View for CursorReadOpener {
    type V = Map<Seq<char>, Seq<u8>>;

    closed spec fn view(&self) -> Map<Seq<char>, Seq<u8>> {
        contents_of(self.cursors@)
    }
}

impl CursorReadOpener {
    /// A source that serves no path.
    pub fn new() -> (r: CursorReadOpener)
        ensures
            r@ == Map::<Seq<char>, Seq<u8>>::empty(),
    {
        CursorReadOpener { cursors: Vec::new(), refused: Ghost(Seq::empty()) }
    }

    /// Serves `content` for `path` from now on, in place of anything served for it before.
    pub fn add_path(&mut self, path: &str, content: Vec<u8>)
        ensures
            final(self)@ == old(self)@.insert(path@, content@),
    {
        self.cursors.push((path.to_owned(), content));
        proof {
            assert(self.cursors@.drop_last() =~= old(self).cursors@);
        }
    }
}

impl ReadOpener for CursorReadOpener {
    type Readable = ByteCursor;

    open spec fn content(&self, path: Seq<char>) -> Option<Seq<u8>> {
        if self@.contains_key(path) {
            Some(self@[path])
        } else {
            None
        }
    }

    open spec fn reliable(&self) -> bool {
        true
    }

    closed spec fn refusals(&self) -> Seq<IoError> {
        self.refused@
    }

    /// A cursor at the start of the content served for `path`; fails when there is none.
    fn get_reader(&mut self, path: &str) -> (r: Result<ByteCursor, IoError>)
        ensures
            final(self)@ == old(self)@,
            r is Ok <==> old(self)@.contains_key(path@),
            r matches Ok(c) ==> c.wf() && c.rest() == old(self)@[path@],
            r matches Err(e) ==> e == (IoError::Open { path: e->Open_path, detail: e->Open_detail })
                && e->Open_path@ == path@,
    {
        let key = path.to_owned();
        let mut i: usize = self.cursors.len();
        while i > 0
            invariant
                key@ == path@,
                i <= self.cursors@.len(),
                forall|j: int| i <= j < self.cursors@.len() ==>
                    (#[trigger] self.cursors@[j]).0@ != path@,
            decreases i,
        {
            i = i - 1;
            if self.cursors[i].0 == key {
                proof {
                    lemma_contents_last(self.cursors@, i as int, path@);
                }
                let mut data: Vec<u8> = Vec::new();
                data.extend_from_slice(self.cursors[i].1.as_slice());
                let c = ByteCursor { data, pos: 0 };
                proof {
                    assert(c.rest() =~= data@);
                }
                return Ok(c);
            }
        }
        proof {
            lemma_contents_absent(self.cursors@, path@);
        }
        let e = IoError::Open { path: key, detail: "cursor not found".to_owned() };
        self.refused = Ghost(self.refused@.push(e));
        Err(e)
    }
}

/// An incremental digest algorithm: bytes are folded in, then a digest string is taken.
pub trait DigestAlgorithm {
    /// The bytes folded in since the last reset.
    spec fn absorbed(&self) -> Seq<u8>;

    /// Whether more bytes may be folded in; not so once a result was taken, until a reset.
    spec fn accepts_input(&self) -> bool;

    /// The digest string of a whole message.
    spec fn digest_of(message: Seq<u8>) -> Seq<char>;

    /// The longest message, in bytes, that the algorithm takes.
    spec fn limit() -> nat;

    /// The longest message, in bytes, that the algorithm takes.
    fn limit_bytes() -> (r: u64)
        ensures
            r == Self::limit(),
    ;

    /// Folds `bytes` into the message.
    fn input(&mut self, bytes: &[u8])
        requires
            old(self).accepts_input(),
            old(self).absorbed().len() + bytes@.len() <= Self::limit(),
        ensures
            final(self).absorbed() == old(self).absorbed() + bytes@,
            final(self).accepts_input(),
    ;

    /// The digest string of the message folded in so far.
    fn result_str(&mut self) -> (r: String)
        ensures
            r@ == Self::digest_of(old(self).absorbed()),
    ;

    /// Starts a new, empty message.
    fn reset(&mut self)
        ensures
            final(self).absorbed() == Seq::<u8>::empty(),
            final(self).accepts_input(),
    ;
}

#[verifier::external_type_specification]
#[verifier::external_body]
pub struct ExMd5(Md5);

/// The lowercase hexadecimal MD5 digest of a message.
pub uninterp spec fn md5_hex(message: Seq<u8>) -> Seq<char>;

/// MD5, with a record of the message folded in since the last reset.
pub struct Md5Digest {
    inner: Md5,
    message: Ghost<Seq<u8>>,
    finished: Ghost<bool>,
}

/// Relies on `Md5::new`: a new MD5 state has taken in no bytes and is not finalized.
#[verifier::external_body]
fn md5_fresh() -> (d: Md5Digest)
    ensures
        d.message@ == Seq::<u8>::empty(),
        !d.finished@,
{
    Md5Digest { inner: Md5::new(), message: Ghost(Seq::empty()), finished: Ghost(false) }
}

/// Relies on `Digest::input` of `Md5`: appends `bytes` to the message. It panics on a
/// finalized state, and its `u64` byte count overflows past `u64::MAX` bytes; the `requires`
/// rules both out.
#[verifier::external_body]
fn md5_input(d: &mut Md5Digest, bytes: &[u8])
    requires
        !old(d).finished@,
        old(d).message@.len() + bytes@.len() <= u64::MAX,
    ensures
        final(d).message@ == old(d).message@ + bytes@,
        !final(d).finished@,
{
    d.inner.input(bytes)
}

/// Relies on `Digest::result_str` of `Md5`: the lowercase hex MD5 digest of the message; the
/// state is finalized and keeps its message.
#[verifier::external_body]
fn md5_result_str(d: &mut Md5Digest) -> (r: String)
    ensures
        r@ == md5_hex(old(d).message@),
        final(d).message@ == old(d).message@,
        final(d).finished@,
{
    d.inner.result_str()
}

/// Relies on `Digest::reset` of `Md5`: back to an empty, unfinalized state.
#[verifier::external_body]
fn md5_reset(d: &mut Md5Digest)
    ensures
        final(d).message@ == Seq::<u8>::empty(),
        !final(d).finished@,
{
    d.inner.reset()
}

impl Md5Digest {
    /// A new MD5 digest with an empty message.
    pub fn new() -> (r: Md5Digest)
        ensures
            r.absorbed() == Seq::<u8>::empty(),
            r.accepts_input(),
    {
        md5_fresh()
    }
}

impl DigestAlgorithm for Md5Digest {
    closed spec fn absorbed(&self) -> Seq<u8> {
        self.message@
    }

    closed spec fn accepts_input(&self) -> bool {
        !self.finished@
    }

    open spec fn digest_of(message: Seq<u8>) -> Seq<char> {
        md5_hex(message)
    }

    open spec fn limit() -> nat {
        u64::MAX as nat
    }

    fn limit_bytes() -> (r: u64) {
        u64::MAX
    }

    fn input(&mut self, bytes: &[u8]) {
        md5_input(self, bytes)
    }

    fn result_str(&mut self) -> (r: String) {
        md5_result_str(self)
    }

    fn reset(&mut self) {
        md5_reset(self)
    }
}

#[verifier::external_type_specification]
#[verifier::external_body]
pub struct ExSha256(Sha256);

/// The lowercase hexadecimal SHA-256 digest of a message.
pub uninterp spec fn sha256_hex(message: Seq<u8>) -> Seq<char>;

/// The longest message SHA-256 takes here: its bit count must fit in a `u64`.
pub const SHA256_LIMIT: u64 = 0x1fff_ffff_ffff_ffff;

/// SHA-256, with a record of the message folded in since the last reset.
pub struct Sha256Digest {
    inner: Sha256,
    message: Ghost<Seq<u8>>,
    finished: Ghost<bool>,
}

/// Relies on `Sha256::new`: a new SHA-256 state has taken in no bytes and is not finalized.
#[verifier::external_body]
fn sha256_fresh() -> (d: Sha256Digest)
    ensures
        d.message@ == Seq::<u8>::empty(),
        !d.finished@,
{
    Sha256Digest { inner: Sha256::new(), message: Ghost(Seq::empty()), finished: Ghost(false) }
}

/// Relies on `Digest::input` of `Sha256`: appends `bytes` to the message. It panics on a
/// finalized state, and when the message's bit count overflows a `u64`; the `requires` rules
/// both out.
#[verifier::external_body]
fn sha256_input(d: &mut Sha256Digest, bytes: &[u8])
    requires
        !old(d).finished@,
        old(d).message@.len() + bytes@.len() <= SHA256_LIMIT,
    ensures
        final(d).message@ == old(d).message@ + bytes@,
        !final(d).finished@,
{
    d.inner.input(bytes)
}

/// Relies on `Digest::result_str` of `Sha256`: the lowercase hex SHA-256 digest of the
/// message; the state is finalized and keeps its message.
#[verifier::external_body]
fn sha256_result_str(d: &mut Sha256Digest) -> (r: String)
    ensures
        r@ == sha256_hex(old(d).message@),
        final(d).message@ == old(d).message@,
        final(d).finished@,
{
    d.inner.result_str()
}

/// Relies on `Digest::reset` of `Sha256`: back to an empty, unfinalized state.
#[verifier::external_body]
fn sha256_reset(d: &mut Sha256Digest)
    ensures
        final(d).message@ == Seq::<u8>::empty(),
        !final(d).finished@,
{
    d.inner.reset()
}

impl Sha256Digest {
    /// A new SHA-256 digest with an empty message.
    pub fn new() -> (r: Sha256Digest)
        ensures
            r.absorbed() == Seq::<u8>::empty(),
            r.accepts_input(),
    {
        sha256_fresh()
    }
}

impl DigestAlgorithm for Sha256Digest {
    closed spec fn absorbed(&self) -> Seq<u8> {
        self.message@
    }

    closed spec fn accepts_input(&self) -> bool {
        !self.finished@
    }

    open spec fn digest_of(message: Seq<u8>) -> Seq<char> {
        sha256_hex(message)
    }

    open spec fn limit() -> nat {
        SHA256_LIMIT as nat
    }

    fn limit_bytes() -> (r: u64) {
        SHA256_LIMIT
    }

    fn input(&mut self, bytes: &[u8]) {
        sha256_input(self, bytes)
    }

    fn result_str(&mut self) -> (r: String) {
        sha256_result_str(self)
    }

    fn reset(&mut self) {
        sha256_reset(self)
    }
}

/// Computes the digest of the content found at a path, with a digest algorithm and a source
/// of byte streams.
pub struct HashDigester<D: DigestAlgorithm, R: ReadOpener> {
    digest: D,
    read_opener: R,
    requests: Ghost<Seq<(Seq<char>, Result<Seq<char>, IoError>)>>,
    read_failures: Ghost<Seq<IoError>>,
}

impl<D: DigestAlgorithm, R: ReadOpener> HashDigester<D, R> {
    /// The source of the byte streams.
    pub closed spec fn source(&self) -> R {
        self.read_opener
    }

    /// The errors that reads of opened streams returned so far, oldest first.
    pub closed spec fn read_failures(&self) -> Seq<IoError> {
        self.read_failures@
    }

    /// Creates a digester from an algorithm and a stream source.
    pub fn new(digest: D, read_opener: R) -> (r: HashDigester<D, R>)
        ensures
            r.source() == read_opener,
            r.requests() == Seq::<(Seq<char>, Result<Seq<char>, IoError>)>::empty(),
            r.read_failures() == Seq::<IoError>::empty(),
    {
        HashDigester {
            digest,
            read_opener,
            requests: Ghost(Seq::empty()),
            read_failures: Ghost(Seq::empty()),
        }
    }

    /// Computes the digest of the content found at `path`.
    ///
    /// The stream is read chunk by chunk, each chunk folded into the algorithm, until an empty
    /// chunk marks its end. The algorithm is reset on entry, so nothing of an earlier call can
    /// leak into this one, and again before returning. Fails with the source's error when no
    /// stream can be opened, with the stream's error when a read fails, and with a `Read`
    /// error of its own when the stream is longer than the algorithm takes.
    pub fn get_digest(&mut self, path: &str) -> (r: Result<String, IoError>)
        ensures
            digest_call::<D, R>(*old(self), path@, r, *final(self)),
    {
        let ghost src0 = self.read_opener;
        let ghost requests0 = self.requests@;
        let ghost failures0 = self.read_failures@;
        self.digest.reset();
        let mut reader = match self.read_opener.get_reader(path) {
            Ok(reader) => reader,
            Err(e) => return Err(e),
        };
        let ghost whole = reader.remaining();
        let limit = D::limit_bytes();
        let ghost mut message: Seq<u8> = Seq::empty();
        let mut total: u64 = 0;
        loop
            invariant
                self.digest.absorbed() == message,
                self.digest.accepts_input(),
                message.len() == total,
                total <= limit,
                limit == D::limit(),
                message + reader.remaining() == whole,
                src0.content(path@) == Some(whole),
                src0.reliable() ==> reader.reliable(),
                forall|p: Seq<char>| #[trigger] self.read_opener.content(p) == src0.content(p),
                self.read_opener.reliable() == src0.reliable(),
                self.read_opener.refusals() == src0.refusals(),
                self.requests@ == requests0,
                self.read_failures@ == failures0,
                src0 == old(self).read_opener,
                requests0 == old(self).requests@,
                failures0 == old(self).read_failures@,
            ensures
                message == whole,
                self.digest.absorbed() == message,
                self.digest.accepts_input(),
                message.len() <= limit,
                src0.content(path@) == Some(whole),
                forall|p: Seq<char>| #[trigger] self.read_opener.content(p) == src0.content(p),
                self.read_opener.reliable() == src0.reliable(),
                self.read_opener.refusals() == src0.refusals(),
                self.requests@ == requests0,
                self.read_failures@ == failures0,
            decreases u64::MAX - total,
        {
            let chunk = match reader.read_chunk() {
                Ok(chunk) => chunk,
                Err(e) => {
                    self.digest.reset();
                    self.read_failures = Ghost(self.read_failures@.push(e));
                    return Err(e);
                },
            };
            if chunk.len() == 0 {
                proof {
                    assert(message =~= whole);
                }
                break;
            }
            if chunk.len() as u64 > limit - total {
                proof {
                    assert(whole.len() >= message.len() + chunk@.len());
                }
                self.digest.reset();
                let detail = "stream too long".to_owned();
                return Err(IoError::Read { path: path.to_owned(), detail });
            }
            self.digest.input(chunk.as_slice());
            let ghost rest = reader.remaining();
            proof {
                assert(message + chunk@ + rest =~= message + (chunk@ + rest));
                message = message + chunk@;
            }
            total = total + chunk.len() as u64;
        }
        let d = self.digest.result_str();
        self.digest.reset();
        Ok(d)
    }
}

/// `e` is the error a digester gives for a stream of `path` longer than its algorithm takes.
pub open spec fn too_long(e: IoError, path: Seq<char>) -> bool {
    e matches IoError::Read { path: p, detail: d } && p@ == path && d@ == "stream too long"@
}

/// What a `get_digest` of `path` does, taking the digester from `before` to `after` and
/// returning `r`. The content served and the requests answered stay as they were. Where no
/// stream can be opened the source's error is returned. Otherwise a success is the digest of
/// the whole content; a failure is an error a read returned, or the digester's own for a
/// content longer than the algorithm takes; and from a source whose streams cannot fail, a
/// content the algorithm takes always gives its digest.
pub open spec fn digest_call<D: DigestAlgorithm, R: ReadOpener>(
    before: HashDigester<D, R>,
    path: Seq<char>,
    r: Result<String, IoError>,
    after: HashDigester<D, R>,
) -> bool {
    let src = before.source();
    let src1 = after.source();
    &&& forall|p: Seq<char>| #[trigger] src1.content(p) == src.content(p)
    &&& src1.reliable() == src.reliable()
    &&& after.requests() == before.requests()
    &&& match src.content(path) {
        None => r matches Err(e) && src1.refusals() == src.refusals().push(e)
            && after.read_failures() == before.read_failures(),
        Some(m) => {
            &&& src1.refusals() == src.refusals()
            &&& match r {
                Ok(d) => m.len() <= D::limit() && d@ == D::digest_of(m) && after.read_failures()
                    == before.read_failures(),
                Err(e) => after.read_failures() == before.read_failures().push(e) || (m.len()
                    > D::limit() && too_long(e, path) && after.read_failures()
                    == before.read_failures()),
            }
            &&& m.len() > D::limit() ==> r is Err
            &&& src.reliable() && m.len() <= D::limit() ==> r is Ok
        },
    }
}

/// Reusing a digester leaks nothing from one call into the next: from a source whose streams
/// cannot fail, a later call gives the digest of its own path's content whatever the call
/// before it did, and two paths served the same content get the same digest.
pub proof fn lemma_digest_reuse<D: DigestAlgorithm, R: ReadOpener>(
    first: HashDigester<D, R>,
    first_path: Seq<char>,
    first_result: Result<String, IoError>,
    second: HashDigester<D, R>,
    second_path: Seq<char>,
    second_result: Result<String, IoError>,
    last: HashDigester<D, R>,
)
    requires
        digest_call::<D, R>(first, first_path, first_result, second),
        digest_call::<D, R>(second, second_path, second_result, last),
        first.source().reliable(),
        first.source().content(second_path) matches Some(m) && m.len() <= D::limit(),
    ensures
        first.source().content(second_path) matches Some(m) && second_result matches Ok(d) && d@
            == D::digest_of(m),
        first.source().content(first_path) == first.source().content(second_path) ==> (
        first_result matches Ok(d) ==> d@ == second_result->Ok_0@),
{
    assert(second.source().content(second_path) == first.source().content(second_path));
    assert(second.source().content(first_path) == first.source().content(first_path));
}

impl<D: DigestAlgorithm, R: ReadOpener> Digester for HashDigester<D, R> {
    closed spec fn requests(&self) -> Seq<(Seq<char>, Result<Seq<char>, IoError>)> {
        self.requests@
    }

    fn get_digest(&mut self, path: &str) -> (r: Result<String, IoError>) {
        let r = HashDigester::get_digest(self, path);
        self.requests = Ghost(self.requests@.push((path@, answer_view(r))));
        r
    }
}

} // verus!
