//! Content fingerprints: SHA-256, computed piece by piece and written as
//! lower-case hexadecimal text.

use sha2::Digest;
use vstd::prelude::*;

verus! {

/// The number of bytes handed to the digest at a time.
pub const CHUNK_SIZE: usize = 8192;

/// The SHA-256 digest of `data`.
pub uninterp spec fn sha256(data: Seq<u8>) -> Seq<u8>;

/// A SHA-256 computation in progress. It holds a `sha2::Sha256`, of which
/// nothing is visible here but what `hasher_input` says it was given.
#[verifier::external_body]
pub struct ContentHasher {
    state: sha2::Sha256,
}

/// The bytes that `hasher` has been given so far, in order.
pub uninterp spec fn hasher_input(hasher: ContentHasher) -> Seq<u8>;

/// The hexadecimal digit for `n`, with `a` to `f` for 10 to 15.
pub open spec fn hex_digit(n: int) -> char {
    seq!['0', '1', '2', '3', '4', '5', '6', '7', '8', '9', 'a', 'b', 'c', 'd', 'e', 'f'][n]
}

/// `bytes` in lower-case hexadecimal: two digits for each byte, the high
/// half first.
pub open spec fn hex_lower(bytes: Seq<u8>) -> Seq<char> {
    Seq::new(
        2 * bytes.len(),
        |i: int|
            if i % 2 == 0 {
                hex_digit(bytes[i / 2] as int / 16)
            } else {
                hex_digit(bytes[i / 2] as int % 16)
            },
    )
}

/// The fingerprint of a file that holds `content`: its SHA-256 digest in
/// lower-case hexadecimal.
pub open spec fn content_hash(content: Seq<u8>) -> Seq<char> {
    hex_lower(sha256(content))
}

/// `sha2::Sha256::new` (the `Digest` trait's constructor): a fresh hasher
/// has been given nothing yet.
#[verifier::external_body]
fn sha256_new() -> (hasher: ContentHasher)
    ensures
        hasher_input(hasher) == Seq::<u8>::empty(),
{
    ContentHasher { state: sha2::Sha256::new() }
}

/// `Digest::update` on a `sha2::Sha256`: the hasher takes `chunk` in behind
/// what it was given before. How the input is cut into chunks does not
/// matter to it.
#[verifier::external_body]
fn sha256_update(hasher: &mut ContentHasher, chunk: &[u8])
    ensures
        hasher_input(*final(hasher)) == hasher_input(*old(hasher)) + chunk@,
{
    hasher.state.update(chunk);
}

/// `Digest::finalize` on a `sha2::Sha256`: the SHA-256 digest of all that
/// the hasher was given, which is 32 bytes long.
#[verifier::external_body]
fn sha256_finalize(hasher: ContentHasher) -> (digest: Vec<u8>)
    ensures
        digest@ == sha256(hasher_input(hasher)),
        digest@.len() == 32,
{
    hasher.state.finalize().to_vec()
}

/// The text of one hexadecimal digit.
fn hex_digit_text(n: u8) -> (text: &'static str)
    requires
        n < 16,
    ensures
        text@ == seq![hex_digit(n as int)],
{
    proof {
        reveal_strlit("0");
        reveal_strlit("1");
        reveal_strlit("2");
        reveal_strlit("3");
        reveal_strlit("4");
        reveal_strlit("5");
        reveal_strlit("6");
        reveal_strlit("7");
        reveal_strlit("8");
        reveal_strlit("9");
        reveal_strlit("a");
        reveal_strlit("b");
        reveal_strlit("c");
        reveal_strlit("d");
        reveal_strlit("e");
        reveal_strlit("f");
    }
    let text = match n {
        0 => "0",
        1 => "1",
        2 => "2",
        3 => "3",
        4 => "4",
        5 => "5",
        6 => "6",
        7 => "7",
        8 => "8",
        9 => "9",
        10 => "a",
        11 => "b",
        12 => "c",
        13 => "d",
        14 => "e",
        _ => "f",
    };
    assert(text@ =~= seq![hex_digit(n as int)]);
    text
}

/// Writes `bytes` in lower-case hexadecimal.
pub fn to_hex(bytes: &[u8]) -> (text: String)
    ensures
        text@ == hex_lower(bytes@),
        text@.len() == 2 * bytes@.len(),
{
    let mut text = String::new();
    let n: usize = bytes.len();
    let mut i: usize = 0;
    assert(text@ =~= hex_lower(bytes@.subrange(0, 0)));
    while i < n
        invariant
            i <= n,
            n == bytes@.len(),
            text@ == hex_lower(bytes@.subrange(0, i as int)),
        decreases n - i,
    {
        let b: u8 = bytes[i];
        text.append(hex_digit_text(b / 16));
        text.append(hex_digit_text(b % 16));
        proof {
            let before = bytes@.subrange(0, i as int);
            let after = bytes@.subrange(0, i + 1);
            let want = hex_lower(after);
            assert(text@.len() == want.len());
            assert forall|j: int| 0 <= j < want.len() implies text@[j] == want[j] by {
                if j < 2 * i {
                    assert(after[j / 2] == before[j / 2]);
                    assert(text@[j] == hex_lower(before)[j]);
                } else {
                    assert(after[j / 2] == b);
                }
            }
            assert(text@ =~= want);
        }
        i = i + 1;
    }
    assert(bytes@.subrange(0, n as int) =~= bytes@);
    text
}

impl ContentHasher {
    /// The bytes given to this hasher so far.
    pub open spec fn input(self) -> Seq<u8> {
        hasher_input(self)
    }

    /// A hasher that has been given nothing.
    pub fn new() -> (hasher: Self)
        ensures
            hasher.input() == Seq::<u8>::empty(),
    {
        sha256_new()
    }

    /// Gives the hasher the next piece of the content.
    pub fn update(&mut self, chunk: &[u8])
        ensures
            final(self).input() == old(self).input() + chunk@,
    {
        sha256_update(self, chunk);
    }

    /// Ends the computation: the fingerprint of all that was given.
    pub fn finalize(self) -> (hash: String)
        ensures
            hash@ == content_hash(self.input()),
            hash@.len() == 64,
    {
        let digest: Vec<u8> = sha256_finalize(self);
        to_hex(digest.as_slice())
    }
}

} // verus!
