use vstd::prelude::*;

use ring::digest::Context;

verus! {

#[verifier::external_type_specification]
#[verifier::external_body]
pub struct ExContext(ring::digest::Context);

/// The SHA-256 digest of `data`.
pub uninterp spec fn sha256_of(data: Seq<u8>) -> Seq<u8>;

/// The bytes that have been fed to a digest context since it was made.
pub uninterp spec fn context_input(c: Context) -> Seq<u8>;

/// Whether a digest context was made for SHA-256.
pub uninterp spec fn context_is_sha256(c: Context) -> bool;

/// The largest number of bytes a SHA-256 context can finish on: the bit
/// length of the input must fit in 64 bits.
pub const MAX_INPUT_LEN: u64 = 0x1fff_ffff_ffff_ffff;

/// Number of bytes read and fed to the digest at a time.
pub const CHUNK_SIZE: usize = 1024;

/// Length of a fingerprint: two hexadecimal digits per digest byte.
pub const FINGERPRINT_LEN: usize = 64;

/// The uppercase hexadecimal digit of `n`, for `n < 16`.
pub open spec fn hex_digit(n: int) -> char {
    seq!['0', '1', '2', '3', '4', '5', '6', '7', '8', '9', 'A', 'B', 'C', 'D', 'E', 'F'][n]
}

/// Uppercase hexadecimal text of `bytes`: two digits per byte, high nibble first.
pub open spec fn hex_upper(bytes: Seq<u8>) -> Seq<char>
    decreases bytes.len(),
{
    if bytes.len() == 0 {
        seq![]
    } else {
        let b = bytes.last() as int;
        hex_upper(bytes.drop_last()) + seq![hex_digit(b / 16), hex_digit(b % 16)]
    }
}

/// The fingerprint of file content: its SHA-256 digest in uppercase hexadecimal.
pub open spec fn fingerprint_of(content: Seq<u8>) -> Seq<char> {
    hex_upper(sha256_of(content))
}

/// Fingerprinting is deterministic: content fed in any two chunkings that
/// join to the same bytes has one and the same fingerprint.
pub proof fn lemma_fingerprint_deterministic(chunks1: Seq<Seq<u8>>, chunks2: Seq<Seq<u8>>)
    requires
        chunks1.flatten() == chunks2.flatten(),
    ensures
        fingerprint_of(chunks1.flatten()) == fingerprint_of(chunks2.flatten()),
{
}

proof fn lemma_hex_upper_len(bytes: Seq<u8>)
    ensures
        hex_upper(bytes).len() == 2 * bytes.len(),
    decreases bytes.len(),
{
    if bytes.len() > 0 {
        lemma_hex_upper_len(bytes.drop_last());
    }
}

/// Relies on ring's `Context::new(&SHA256)`: a fresh SHA-256 context that has
/// been fed nothing.
#[verifier::external_body]
fn new_sha256_context() -> (r: Context)
    ensures
        context_is_sha256(r),
        context_input(r) == Seq::<u8>::empty(),
{
    Context::new(&ring::digest::SHA256)
}

/// Relies on ring's `Context::update`: it appends `data` to what the context
/// digests, and keeps its algorithm.
#[verifier::external_body]
fn update_context(c: &mut Context, data: &[u8])
    ensures
        context_is_sha256(*final(c)) == context_is_sha256(*old(c)),
        context_input(*final(c)) == context_input(*old(c)) + data@,
{
    c.update(data)
}

/// Relies on ring's `Context::finish`: a SHA-256 context yields the 32-byte
/// digest of all it was fed. It panics when the input's bit length does not
/// fit in 64 bits, which `requires` leaves out.
#[verifier::external_body]
fn finish_context(c: Context) -> (r: Vec<u8>)
    requires
        context_is_sha256(c),
        context_input(c).len() <= MAX_INPUT_LEN,
    ensures
        r@ == sha256_of(context_input(c)),
        r@.len() == 32,
{
    c.finish().as_ref().to_vec()
}

/// Relies on data_encoding's `HEXUPPER.encode`: two uppercase hexadecimal
/// digits per byte, high nibble first, no padding. It panics on inputs longer
/// than `usize::MAX / 512`, which `requires` leaves out.
#[verifier::external_body]
fn encode_hex_upper(bytes: &[u8]) -> (r: String)
    requires
        bytes@.len() <= usize::MAX / 512,
    ensures
        r@ == hex_upper(bytes@),
{
    data_encoding::HEXUPPER.encode(bytes)
}

/// Incremental fingerprinting of one file's content, fed in chunks.
pub struct Fingerprinter {
    context: Context,
}

impl View for Fingerprinter {
    type V = Seq<u8>;

    /// The content fed so far.
    closed spec fn view(&self) -> Seq<u8> {
        context_input(self.context)
    }
}

impl Fingerprinter {
    /// Well-formedness: the underlying digest is SHA-256.
    pub closed spec fn wf(&self) -> bool {
        context_is_sha256(self.context)
    }

    /// A fingerprinter that has been fed nothing.
    pub fn new() -> (r: Self)
        ensures
            r.wf(),
            r@ == Seq::<u8>::empty(),
    {
        Fingerprinter { context: new_sha256_context() }
    }

    /// Feeds `chunk` after the content fed so far.
    pub fn absorb(&mut self, chunk: &[u8])
        requires
            old(self).wf(),
        ensures
            final(self).wf(),
            final(self)@ == old(self)@ + chunk@,
    {
        update_context(&mut self.context, chunk);
    }

    /// Takes the outcome of one read into `buffer`: `count` bytes were read,
    /// zero meaning the end of the content. Feeds the bytes read and returns
    /// whether reading should go on.
    pub fn absorb_read(&mut self, buffer: &[u8], count: usize) -> (more: bool)
        requires
            old(self).wf(),
            count <= buffer@.len(),
        ensures
            final(self).wf(),
            more == (count > 0),
            final(self)@ == old(self)@ + buffer@.subrange(0, count as int),
    {
        if count == 0 {
            assert(buffer@.subrange(0, 0) =~= Seq::<u8>::empty());
            assert(self@ + Seq::<u8>::empty() =~= self@);
            return false;
        }
        let (read, _) = buffer.split_at(count);
        self.absorb(read);
        true
    }

    /// The fingerprint of all content fed: 64 uppercase hexadecimal digits.
    pub fn finish(self) -> (r: String)
        requires
            self.wf(),
            self@.len() <= MAX_INPUT_LEN,
        ensures
            r@ == fingerprint_of(self@),
            r@.len() == FINGERPRINT_LEN,
    {
        let digest = finish_context(self.context);
        let r = encode_hex_upper(digest.as_slice());
        proof {
            lemma_hex_upper_len(digest@);
        }
        r
    }
}

/// The fingerprint of `content`, fed to the digest `CHUNK_SIZE` bytes at a time.
pub fn fingerprint_bytes(content: &[u8]) -> (r: String)
    requires
        content@.len() <= MAX_INPUT_LEN,
    ensures
        r@ == fingerprint_of(content@),
        r@.len() == FINGERPRINT_LEN,
{
    let mut fp = Fingerprinter::new();
    let mut rest = content;
    while rest.len() > 0
        invariant
            fp.wf(),
            fp@ + rest@ == content@,
        decreases rest@.len(),
    {
        let n: usize = if rest.len() < CHUNK_SIZE { rest.len() } else { CHUNK_SIZE };
        let (chunk, tail) = rest.split_at(n);
        proof {
            assert(chunk@ + tail@ =~= rest@);
            assert(fp@ + chunk@ + tail@ =~= fp@ + (chunk@ + tail@));
        }
        fp.absorb(chunk);
        rest = tail;
    }
    assert(fp@ =~= content@) by {
        assert(rest@ =~= Seq::<u8>::empty());
        assert(fp@ + rest@ =~= fp@);
    }
    fp.finish()
}

} // verus!
