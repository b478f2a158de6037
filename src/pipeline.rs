//! The hash pipeline: one BLAKE3 hasher per input, built from a shared
//! configuration, fed the input's bytes, and read out as an extendable
//! output of any length.

use vstd::prelude::*;
use vstd::string::*;
use crate::hexdigits::{hex_of, to_hex};

verus! {

#[verifier::external_type_specification]
#[verifier::external_body]
pub struct ExHasher(blake3::Hasher);

#[verifier::external_type_specification]
#[verifier::external_body]
pub struct ExOutputReader(blake3::OutputReader);

/// Number of bytes of a key in keyed mode.
pub const KEY_LEN: usize = 32;

/// Number of bytes of the digest that checkfiles carry.
pub const OUT_LEN: usize = 32;

/// Number of output bytes read from the hasher at a time.
pub const BLOCK_LEN: usize = 64;

/// The first `len` bytes of the BLAKE3 extendable output of `input`, in the
/// mode `kind` (0 plain, 1 keyed with `key`, 2 deriving a key from
/// `context`).
pub uninterp spec fn blake3_output(
    kind: nat,
    key: Seq<u8>,
    context: Seq<char>,
    input: Seq<u8>,
    len: nat,
) -> Seq<u8>;

/// A mode as plain values: its kind, its key and its context.
pub type ModeParams = (nat, Seq<u8>, Seq<char>);

/// The first `len` output bytes of `input` hashed in the mode `p`.
pub open spec fn output_prefix(p: ModeParams, input: Seq<u8>, len: nat) -> Seq<u8> {
    if len == 0 {
        Seq::empty()
    } else {
        blake3_output(p.0, p.1, p.2, input, len)
    }
}

/// How every hasher of a run is configured: plain, keyed with a 32-byte key,
/// or deriving a key from a context string.
pub enum HashMode {
    Plain,
    Keyed(Vec<u8>),
    DeriveKey(String),
}

impl HashMode {
    pub open spec fn wf(&self) -> bool {
        self matches HashMode::Keyed(k) ==> k@.len() == KEY_LEN
    }

    pub open spec fn params(&self) -> ModeParams {
        match self {
            HashMode::Plain => (0, Seq::empty(), Seq::empty()),
            HashMode::Keyed(k) => (1, k@, Seq::empty()),
            HashMode::DeriveKey(c) => (2, Seq::empty(), c@),
        }
    }
}

/// Why key material read for keyed mode is refused.
#[derive(Debug, Clone, Copy, PartialEq, Eq)]
pub enum KeyError {
    TooShort(usize),
    TooLong(usize),
}

/// A BLAKE3 hasher, with its mode and the bytes fed to it so far.
pub struct HashState {
    inner: blake3::Hasher,
    params: Ghost<ModeParams>,
    fed: Ghost<Seq<u8>>,
}

impl HashState {
    pub closed spec fn params(&self) -> ModeParams {
        self.params@
    }

    pub closed spec fn fed(&self) -> Seq<u8> {
        self.fed@
    }
}

/// A BLAKE3 output reader, with the mode and input it reads the output of,
/// and how many output bytes it has handed out.
pub struct OutputStream {
    inner: blake3::OutputReader,
    params: Ghost<ModeParams>,
    input: Ghost<Seq<u8>>,
    pos: Ghost<nat>,
}

impl OutputStream {
    pub closed spec fn params(&self) -> ModeParams {
        self.params@
    }

    pub closed spec fn input(&self) -> Seq<u8> {
        self.input@
    }

    pub closed spec fn pos(&self) -> nat {
        self.pos@
    }

    /// The output bytes handed out so far.
    pub open spec fn read_so_far(&self) -> Seq<u8> {
        output_prefix(self.params(), self.input(), self.pos())
    }
}

/// Relies on blake3::Hasher::new: a hasher in the plain mode, fed nothing.
#[verifier::external_body]
fn hasher_plain() -> (r: HashState)
    ensures
        r.params() == (0nat, Seq::<u8>::empty(), Seq::<char>::empty()),
        r.fed() == Seq::<u8>::empty(),
{
    HashState { inner: blake3::Hasher::new(), params: Ghost((0nat, Seq::empty(), Seq::empty())), fed: Ghost(Seq::empty()) }
}

/// Relies on blake3::Hasher::new_keyed: a hasher keyed with 32 bytes, fed
/// nothing.
#[verifier::external_body]
fn hasher_keyed(key: &Vec<u8>) -> (r: HashState)
    requires
        key@.len() == KEY_LEN,
    ensures
        r.params() == (1nat, key@, Seq::<char>::empty()),
        r.fed() == Seq::<u8>::empty(),
{
    let k: [u8; 32] = key.as_slice().try_into().unwrap();
    HashState { inner: blake3::Hasher::new_keyed(&k), params: Ghost((1nat, key@, Seq::empty())), fed: Ghost(Seq::empty()) }
}

/// Relies on blake3::Hasher::new_derive_key: a hasher in the key derivation
/// mode with the given context, fed nothing.
#[verifier::external_body]
fn hasher_derive_key(context: &str) -> (r: HashState)
    ensures
        r.params() == (2nat, Seq::<u8>::empty(), context@),
        r.fed() == Seq::<u8>::empty(),
{
    HashState { inner: blake3::Hasher::new_derive_key(context), params: Ghost((2nat, Seq::empty(), context@)), fed: Ghost(Seq::empty()) }
}

/// Relies on blake3::Hasher's derived Clone: a second hasher in the same
/// state.
#[verifier::external_body]
fn hasher_clone(h: &HashState) -> (r: HashState)
    ensures
        r.params() == h.params(),
        r.fed() == h.fed(),
{
    HashState { inner: h.inner.clone(), params: Ghost(h.params@), fed: Ghost(h.fed@) }
}

/// Relies on blake3::Hasher::update: the bytes are fed after those before.
#[verifier::external_body]
fn hasher_update(h: &mut HashState, data: &[u8])
    ensures
        final(h).params() == old(h).params(),
        final(h).fed() == old(h).fed() + data@,
{
    h.inner.update(data);
    h.fed = Ghost(h.fed@ + data@);
}

/// Relies on blake3::Hasher::update_rayon, which its documentation gives as
/// `update` on the worker pool: the bytes are fed after those before.
#[verifier::external_body]
fn hasher_update_rayon(h: &mut HashState, data: &[u8])
    ensures
        final(h).params() == old(h).params(),
        final(h).fed() == old(h).fed() + data@,
{
    h.inner.update_rayon(data);
    h.fed = Ghost(h.fed@ + data@);
}

/// Relies on blake3::Hasher::finalize_xof: a reader of the output of what
/// was fed, at its start.
#[verifier::external_body]
fn hasher_finalize_xof(h: &HashState) -> (r: OutputStream)
    ensures
        r.params() == h.params(),
        r.input() == h.fed(),
        r.pos() == 0,
{
    OutputStream { inner: h.inner.finalize_xof(), params: Ghost(h.params@), input: Ghost(h.fed@), pos: Ghost(0) }
}

/// Relies on blake3::OutputReader::fill: fills the whole buffer with the
/// next output bytes and advances the position past them.
#[verifier::external_body]
fn reader_fill(reader: &mut OutputStream, buf: &mut Vec<u8>)
    requires
        old(reader).pos() + old(buf)@.len() <= u64::MAX,
    ensures
        final(reader).params() == old(reader).params(),
        final(reader).input() == old(reader).input(),
        final(reader).pos() == old(reader).pos() + old(buf)@.len(),
        final(buf)@.len() == old(buf)@.len(),
        old(buf)@.len() > 0 ==> blake3_output(
            final(reader).params().0,
            final(reader).params().1,
            final(reader).params().2,
            final(reader).input(),
            final(reader).pos(),
        ) == output_prefix(old(reader).params(), old(reader).input(), old(reader).pos())
            + final(buf)@,
{
    reader.inner.fill(buf.as_mut_slice());
    reader.pos = Ghost(reader.pos@ + buf@.len());
}

/// Relies on the equality of blake3::Hash, which compares all 32 bytes in
/// constant time: the answer is whether the bytes are equal.
#[verifier::external_body]
fn hash_eq(a: &Vec<u8>, b: &Vec<u8>) -> (r: bool)
    requires
        a@.len() == OUT_LEN,
        b@.len() == OUT_LEN,
    ensures
        r == (a@ == b@),
{
    let a: [u8; 32] = a.as_slice().try_into().unwrap();
    let b: [u8; 32] = b.as_slice().try_into().unwrap();
    blake3::Hash::from_bytes(a) == blake3::Hash::from_bytes(b)
}

/// Compares two digests in time that does not depend on where they first
/// differ.
pub fn digests_equal(expected: &Vec<u8>, found: &Vec<u8>) -> (r: bool)
    requires
        expected@.len() == OUT_LEN,
        found@.len() == OUT_LEN,
    ensures
        r == (expected@ == found@),
{
    hash_eq(expected, found)
}

/// The key of keyed mode, from what was read for it: exactly 32 bytes.
pub fn key_from_bytes(bytes: &Vec<u8>) -> (r: Result<Vec<u8>, KeyError>)
    ensures
        bytes@.len() == KEY_LEN <==> r is Ok,
        bytes@.len() < KEY_LEN <==> r == Err::<Vec<u8>, KeyError>(KeyError::TooShort(bytes@.len() as usize)),
        bytes@.len() > KEY_LEN <==> r == Err::<Vec<u8>, KeyError>(KeyError::TooLong(bytes@.len() as usize)),
        r matches Ok(k) ==> k@ == bytes@,
{
    let n = bytes.len();
    if n < KEY_LEN {
        Err(KeyError::TooShort(n))
    } else if n > KEY_LEN {
        Err(KeyError::TooLong(n))
    } else {
        Ok(bytes.clone())
    }
}

/// The hasher that every input of a run starts from: in the run's mode,
/// fed nothing.
pub fn base_hasher(mode: &HashMode) -> (r: HashState)
    requires
        mode.wf(),
    ensures
        r.params() == mode.params(),
        r.fed() == Seq::<u8>::empty(),
{
    match mode {
        HashMode::Plain => hasher_plain(),
        HashMode::Keyed(key) => hasher_keyed(key),
        HashMode::DeriveKey(context) => hasher_derive_key(context.as_str()),
    }
}

/// A fresh hasher for one input, in the state of `base`.
pub fn start_input(base: &HashState) -> (r: HashState)
    ensures
        r.params() == base.params(),
        r.fed() == base.fed(),
{
    hasher_clone(base)
}

/// Feeds bytes read in sequence from a file or standard input.
pub fn absorb(h: &mut HashState, data: &[u8])
    ensures
        final(h).params() == old(h).params(),
        final(h).fed() == old(h).fed() + data@,
{
    hasher_update(h, data);
}

/// Feeds the whole of a mapped file at once, hashing it in parallel; the
/// hasher ends as `absorb` would leave it.
pub fn absorb_mapped(h: &mut HashState, data: &[u8])
    ensures
        final(h).params() == old(h).params(),
        final(h).fed() == old(h).fed() + data@,
{
    hasher_update_rayon(h, data);
}

/// The output of a hasher that has been fed its whole input, from its start.
pub fn finish(h: &HashState) -> (r: OutputStream)
    ensures
        r.params() == h.params(),
        r.input() == h.fed(),
        r.pos() == 0,
        r.read_so_far() == Seq::<u8>::empty(),
{
    hasher_finalize_xof(h)
}

/// Two hashers in the same mode that were fed the same bytes, whether in
/// one call or in pieces, mapped or read, give the same output.
pub proof fn lemma_same_input_same_output(a: HashState, b: HashState, len: nat)
    requires
        a.params() == b.params(),
        a.fed() == b.fed(),
    ensures
        output_prefix(a.params(), a.fed(), len) == output_prefix(b.params(), b.fed(), len),
{
}

pub proof fn lemma_hex_of_concat(a: Seq<u8>, b: Seq<u8>)
    ensures
        hex_of(a + b) == hex_of(a) + hex_of(b),
{
    let l = hex_of(a + b);
    let r = hex_of(a) + hex_of(b);
    assert forall|i: int| 0 <= i < l.len() implies l[i] == r[i] by {
        if i >= 2 * a.len() {
            assert((i - 2 * a.len()) / 2 == i / 2 - a.len());
            assert((i - 2 * a.len()) % 2 == i % 2);
        }
    }
    assert(l =~= r);
}

/// The next `len` output bytes.
pub fn output_bytes(reader: &mut OutputStream, len: usize) -> (r: Vec<u8>)
    requires
        old(reader).pos() + len <= u64::MAX,
    ensures
        r@.len() == len,
        final(reader).params() == old(reader).params(),
        final(reader).input() == old(reader).input(),
        final(reader).pos() == old(reader).pos() + len,
        final(reader).read_so_far() == old(reader).read_so_far() + r@,
{
    let mut buf: Vec<u8> = Vec::new();
    let mut i: usize = 0;
    while i < len
        invariant
            i <= len,
            buf@.len() == i,
        decreases len - i,
    {
        buf.push(0);
        i = i + 1;
    }
    reader_fill(reader, &mut buf);
    assert(len == 0 ==> buf@ =~= Seq::<u8>::empty());
    assert(len == 0 ==> old(reader).read_so_far() + buf@ =~= old(reader).read_so_far());
    buf
}

/// The next `len` output bytes in lowercase hex, read a block at a time.
pub fn write_hex_output(reader: &mut OutputStream, len: u64) -> (r: String)
    requires
        old(reader).pos() + len <= u64::MAX,
    ensures
        final(reader).params() == old(reader).params(),
        final(reader).input() == old(reader).input(),
        final(reader).pos() == old(reader).pos() + len,
        hex_of(final(reader).read_so_far()) == hex_of(old(reader).read_so_far()) + r@,
        r@.len() == 2 * len,
{
    let mut out = String::new();
    let mut left: u64 = len;
    let ghost start = reader.read_so_far();
    assert(hex_of(start) + out@ =~= hex_of(start));
    while left > 0
        invariant
            left <= len,
            reader.params() == old(reader).params(),
            reader.input() == old(reader).input(),
            reader.pos() + left == old(reader).pos() + len,
            old(reader).pos() + len <= u64::MAX,
            start == old(reader).read_so_far(),
            hex_of(reader.read_so_far()) == hex_of(start) + out@,
            out@.len() == 2 * (len - left),
        decreases left,
    {
        let take: usize = if left < BLOCK_LEN as u64 { left as usize } else { BLOCK_LEN };
        let ghost before = reader.read_so_far();
        let block = output_bytes(reader, take);
        let hex = to_hex(block.as_slice());
        proof {
            lemma_hex_of_concat(before, block@);
        }
        let ghost prev = out@;
        out.append(hex.as_str());
        assert(hex_of(start) + out@ =~= (hex_of(start) + prev) + hex_of(block@));
        left = left - take as u64;
    }
    out
}

} // verus!
