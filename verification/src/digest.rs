//! Content digests: SHA-256, written as lower-case hexadecimal text.
//!
//! The digest itself is computed by the `sha2` crate. This module states what
//! the library relies on: a running computation stands for the bytes fed to it
//! so far, and finishing it gives the SHA-256 digest of exactly those bytes.
//! SHA-256 counts the bits of its input in 64 bits, so no more than
//! `MAX_CONTENT_LEN` bytes can be hashed.

use vstd::prelude::*;
use vstd::string::*;

verus! {

/// The longest content, in bytes, whose length in bits SHA-256 can still
/// count.
pub const MAX_CONTENT_LEN: u64 = 0x1fff_ffff_ffff_ffff;

/// The SHA-256 digest of `data`: 32 bytes.
pub uninterp spec fn sha256(data: Seq<u8>) -> Seq<u8>;

/// The bytes that the computation `state` has been fed so far, in order.
pub uninterp spec fn fed(state: Sha256State) -> Seq<u8>;

/// A running SHA-256 computation of the `sha2` crate. The verifier does not
/// look into it: all that is known of a state is what `fed` says it holds.
#[verifier::external_body]
pub struct Sha256State {
    hasher: sha2::Sha256,
}

/// `sha2::Digest::new` for `Sha256`: a fresh computation has been fed nothing.
#[verifier::external_body]
fn sha256_start() -> (state: Sha256State)
    ensures
        fed(state) == Seq::<u8>::empty(),
{
    Sha256State { hasher: <sha2::Sha256 as sha2::Digest>::new() }
}

/// `sha2::Digest::update`: the computation takes in `chunk` behind what it has
/// been fed before. The crate counts the input in whole bits, which is why the
/// input as a whole must stay within `MAX_CONTENT_LEN` bytes.
#[verifier::external_body]
fn sha256_feed(state: Sha256State, chunk: &[u8]) -> (next: Sha256State)
    requires
        fed(state).len() + chunk@.len() <= MAX_CONTENT_LEN,
    ensures
        fed(next) == fed(state) + chunk@,
{
    let mut next = state;
    sha2::Digest::update(&mut next.hasher, chunk);
    next
}

/// `sha2::Digest::finalize`: the SHA-256 digest of all that the computation
/// has been fed, as 32 bytes.
#[verifier::external_body]
fn sha256_finish(state: Sha256State) -> (digest: Vec<u8>)
    requires
        fed(state).len() <= MAX_CONTENT_LEN,
    ensures
        digest@ == sha256(fed(state)),
        digest@.len() == 32,
{
    sha2::Digest::finalize(state.hasher).to_vec()
}

/// The sixteen hexadecimal digits, lower case.
pub open spec fn hex_digits() -> Seq<char> {
    "0123456789abcdef"@
}

/// Hexadecimal text of `bytes`: two lower-case digits for each byte, the high
/// half first.
pub open spec fn hex_lower(bytes: Seq<u8>) -> Seq<char> {
    Seq::new(
        2 * bytes.len(),
        |k: int|
            if k % 2 == 0 {
                hex_digits()[(bytes[k / 2] / 16) as int]
            } else {
                hex_digits()[(bytes[k / 2] % 16) as int]
            },
    )
}

/// The digest of `data` as the scanners compare it.
pub open spec fn content_digest(data: Seq<u8>) -> Seq<char> {
    hex_lower(sha256(data))
}

/// The text of one hexadecimal digit.
fn hex_digit(value: u8) -> (text: &'static str)
    requires
        value < 16,
    ensures
        text@ == seq![hex_digits()[value as int]],
{
    let digits = "0123456789abcdef";
    proof {
        reveal_strlit("0123456789abcdef");
    }
    let at: usize = value as usize;
    let text = digits.substring_ascii(at, at + 1);
    assert(text@ =~= seq![hex_digits()[value as int]]);
    text
}

/// Writes `bytes` as lower-case hexadecimal text.
pub fn to_hex(bytes: &[u8]) -> (text: String)
    ensures
        text@ == hex_lower(bytes@),
{
    let mut text = String::new();
    let mut i: usize = 0;
    assert(text@ =~= hex_lower(bytes@.take(0)));
    while i < bytes.len()
        invariant
            i <= bytes@.len(),
            text@ == hex_lower(bytes@.take(i as int)),
        decreases bytes@.len() - i,
    {
        let byte: u8 = bytes[i];
        let ghost before = text@;
        text.append(hex_digit(byte / 16));
        text.append(hex_digit(byte % 16));
        proof {
            let grown = hex_lower(bytes@.take(i + 1));
            assert(text@.len() == grown.len());
            assert forall|k: int| 0 <= k < grown.len() implies text@[k] == grown[k] by {
                if k < 2 * i {
                    assert(text@[k] == before[k]);
                    assert(bytes@.take(i + 1)[k / 2] == bytes@.take(i as int)[k / 2]);
                } else {
                    assert(bytes@.take(i + 1)[k / 2] == byte);
                }
            }
            assert(text@ =~= grown);
        }
        i += 1;
    }
    assert(bytes@.take(i as int) =~= bytes@);
    text
}

/// A running digest over the content of one file, fed chunk by chunk so that
/// no more than one chunk need be in memory.
pub struct ContentHasher {
    state: Sha256State,
    taken: u64,
}

impl ContentHasher {
    /// The hasher knows how many bytes it has taken, and the count is within
    /// what SHA-256 can hash.
    #[verifier::type_invariant]
    spec fn counts_its_input(self) -> bool {
        &&& self.taken == fed(self.state).len()
        &&& self.taken <= MAX_CONTENT_LEN
    }

    /// The bytes fed so far, in order.
    pub closed spec fn input(self) -> Seq<u8> {
        fed(self.state)
    }

    /// A hasher that has been fed nothing.
    pub fn new() -> (hasher: Self)
        ensures
            hasher.input() == Seq::<u8>::empty(),
    {
        ContentHasher { state: sha256_start(), taken: 0 }
    }

    /// Feeds the next chunk of the content and hands the hasher back, unless
    /// the content would then be longer than `MAX_CONTENT_LEN` bytes: such a
    /// content cannot be hashed, and the hasher is given up.
    pub fn update(self, chunk: &[u8]) -> (next: Option<ContentHasher>)
        ensures
            next is Some == (self.input().len() + chunk@.len() <= MAX_CONTENT_LEN),
            next is Some ==> next->0.input() == self.input() + chunk@,
    {
        proof {
            use_type_invariant(&self);
        }
        let room: u64 = MAX_CONTENT_LEN - self.taken;
        if chunk.len() as u64 > room {
            return None;
        }
        let taken: u64 = self.taken + chunk.len() as u64;
        Some(ContentHasher { state: sha256_feed(self.state, chunk), taken })
    }

    /// The digest of all that was fed, as the scanners compare it.
    pub fn finish(self) -> (digest: String)
        ensures
            digest@ == content_digest(self.input()),
            digest@.len() == 64,
    {
        proof {
            use_type_invariant(&self);
        }
        let raw = sha256_finish(self.state);
        to_hex(raw.as_slice())
    }
}

/// The content that is given as `chunks`, in order.
pub open spec fn joined(chunks: Seq<Vec<u8>>) -> Seq<u8> {
    chunks.map_values(|chunk: Vec<u8>| chunk@).flatten()
}

/// The digest of a content that is given as its chunks, in order; `None` when
/// the content is longer than `MAX_CONTENT_LEN` bytes.
pub fn digest_chunks(chunks: &[Vec<u8>]) -> (digest: Option<String>)
    ensures
        digest is Some == (joined(chunks@).len() <= MAX_CONTENT_LEN),
        digest is Some ==> digest->0@ == content_digest(joined(chunks@)),
{
    let ghost pieces = chunks@.map_values(|chunk: Vec<u8>| chunk@);
    let mut hasher = ContentHasher::new();
    let mut i: usize = 0;
    assert(pieces.take(0) =~= Seq::empty());
    assert(pieces.take(0).flatten() =~= Seq::empty());
    while i < chunks.len()
        invariant
            i <= chunks@.len(),
            pieces == chunks@.map_values(|chunk: Vec<u8>| chunk@),
            hasher.input() == pieces.take(i as int).flatten(),
        decreases chunks@.len() - i,
    {
        proof {
            assert(pieces.take(i + 1) =~= pieces.take(i as int).push(chunks@[i as int]@));
            pieces.take(i as int).lemma_flatten_push(chunks@[i as int]@);
        }
        match hasher.update(chunks[i].as_slice()) {
            Some(next) => {
                hasher = next;
            },
            None => {
                proof {
                    lemma_flatten_grows(pieces, i + 1);
                }
                return None;
            },
        }
        i += 1;
    }
    assert(pieces.take(i as int) =~= pieces);
    proof {
        use_type_invariant(&hasher);
    }
    Some(hasher.finish())
}

/// Joining more pieces never gives less.
proof fn lemma_flatten_grows(pieces: Seq<Seq<u8>>, k: int)
    requires
        0 <= k <= pieces.len(),
    ensures
        pieces.take(k).flatten().len() <= pieces.flatten().len(),
    decreases pieces.len() - k,
{
    if k == pieces.len() {
        assert(pieces.take(k) =~= pieces);
    } else {
        lemma_flatten_grows(pieces, k + 1);
        assert(pieces.take(k + 1) =~= pieces.take(k).push(pieces[k]));
        pieces.take(k).lemma_flatten_push(pieces[k]);
    }
}

} // verus!
