//! Identifiers and secrets.
use vstd::prelude::*;
use vstd::string::StrSliceExecFns;
use vstd::utf8::{encode_utf8, encode_utf8_decode_utf8};
use crate::token::digit_char;
use rand::distributions::{Alphanumeric, DistString};
use sha2::{Digest, Sha256};

verus! {

/// The id under which an engine is registered.
#[derive(Debug, Clone)]
pub struct EngineId(pub String);

#[derive(Debug, Clone)]
pub struct UserId(pub String);

#[derive(Debug, Clone)]
pub struct SessionId(pub String);

/// The id a job gets when a provider takes it.
#[derive(Debug, Clone, Hash)]
pub struct JobId(pub String);

/// The secret a provider polls with.
#[derive(Debug, Clone)]
pub struct ProviderSecret(pub String);

/// Key of the queue where a provider finds its jobs: the hex digest of its secret.
#[derive(Debug, Clone, Hash)]
pub struct ProviderSelector(pub String);

/// The secret a requester must present for an engine.
#[derive(Debug, Clone)]
pub struct ClientSecret(pub String);

impl View for JobId {
    type V = Seq<char>;

    open spec fn view(&self) -> Seq<char> {
        self.0@
    }
}

impl View for ProviderSelector {
    type V = Seq<char>;

    open spec fn view(&self) -> Seq<char> {
        self.0@
    }
}

impl View for ClientSecret {
    type V = Seq<char>;

    open spec fn view(&self) -> Seq<char> {
        self.0@
    }
}

impl View for ProviderSecret {
    type V = Seq<char>;

    open spec fn view(&self) -> Seq<char> {
        self.0@
    }
}

impl PartialEq for JobId {
    fn eq(&self, other: &JobId) -> (r: bool)
        ensures
            r == (self@ == other@),
    {
        self.0 == other.0
    }
}

impl vstd::std_specs::cmp::PartialEqSpecImpl for JobId {
    open spec fn obeys_eq_spec() -> bool {
        true
    }

    open spec fn eq_spec(&self, other: &JobId) -> bool {
        self@ == other@
    }
}

impl Eq for JobId {
}

impl PartialEq for ProviderSelector {
    fn eq(&self, other: &ProviderSelector) -> (r: bool)
        ensures
            r == (self@ == other@),
    {
        self.0 == other.0
    }
}

impl vstd::std_specs::cmp::PartialEqSpecImpl for ProviderSelector {
    open spec fn obeys_eq_spec() -> bool {
        true
    }

    open spec fn eq_spec(&self, other: &ProviderSelector) -> bool {
        self@ == other@
    }
}

impl Eq for ProviderSelector {
}

/// Folds the differences of two byte strings of one length into one byte,
/// examining every byte whatever the contents: the second result is the
/// number of bytes examined.
pub fn xor_fold(a: &[u8], b: &[u8]) -> (r: (u8, usize))
    requires
        a@.len() == b@.len(),
    ensures
        r.1 == a@.len(),
        (r.0 == 0) == (a@ == b@),
{
    let mut acc: u8 = 0;
    let mut i: usize = 0;
    while i < a.len()
        invariant
            i <= a@.len(),
            a@.len() == b@.len(),
            (acc == 0) == (forall|j: int| 0 <= j < i ==> a@[j] == b@[j]),
        decreases a.len() - i,
    {
        let x = a[i];
        let y = b[i];
        assert((acc | (x ^ y)) == 0 <==> (acc == 0 && x == y)) by (bit_vector);
        acc = acc | (x ^ y);
        i = i + 1;
    }
    proof {
        if acc == 0 {
            assert(a@ =~= b@);
        }
    }
    (acc, i)
}

impl ClientSecret {
    /// Compares with `other` in time that depends on the lengths only: the
    /// second result is the number of bytes examined, which is the length
    /// when the lengths agree and zero otherwise, wherever a difference lies.
    pub fn compare(&self, other: &ClientSecret) -> (r: (bool, usize))
        ensures
            r.0 == (self@ == other@),
            r.1 == (if encode_utf8(self@).len() == encode_utf8(other@).len() {
                encode_utf8(self@).len()
            } else {
                0
            }),
    {
        let a = self.0.as_str().as_bytes();
        let b = other.0.as_str().as_bytes();
        proof {
            encode_utf8_decode_utf8(self@);
            encode_utf8_decode_utf8(other@);
        }
        if a.len() != b.len() {
            return (false, 0);
        }
        let (diff, examined) = xor_fold(a, b);
        (diff == 0, examined)
    }
}

impl PartialEq for ClientSecret {
    /// See `compare`.
    fn eq(&self, other: &ClientSecret) -> (r: bool)
        ensures
            r == (self@ == other@),
    {
        self.compare(other).0
    }
}

impl vstd::std_specs::cmp::PartialEqSpecImpl for ClientSecret {
    open spec fn obeys_eq_spec() -> bool {
        true
    }

    open spec fn eq_spec(&self, other: &ClientSecret) -> bool {
        self@ == other@
    }
}

impl Eq for ClientSecret {
}

pub open spec fn is_alphanumeric(c: char) -> bool {
    ('0' <= c <= '9') || ('a' <= c <= 'z') || ('A' <= c <= 'Z')
}

/// Relies on `rand::distributions::Alphanumeric` sampled with the thread
/// RNG: `n` characters drawn from `A-Z`, `a-z` and `0-9`.
#[verifier::external_body]
fn random_alphanumeric(n: usize) -> (r: String)
    ensures
        r@.len() == n,
        forall|k: int| 0 <= k < r@.len() ==> is_alphanumeric(#[trigger] r@[k]),
{
    Alphanumeric.sample_string(&mut rand::thread_rng(), n)
}

/// Length of a freshly drawn job id.
pub const JOB_ID_LEN: usize = 16;

impl JobId {
    /// A fresh id of 16 random letters and digits.
    pub fn random() -> (r: JobId)
        ensures
            r@.len() == JOB_ID_LEN,
            forall|k: int| 0 <= k < r@.len() ==> is_alphanumeric(#[trigger] r@[k]),
    {
        JobId(random_alphanumeric(JOB_ID_LEN))
    }
}

/// The SHA-256 digest of a message.
pub uninterp spec fn sha256_of(msg: Seq<u8>) -> Seq<u8>;

/// Relies on `sha2::Sha256::digest`: 32 bytes, a function of the message alone.
#[verifier::external_body]
fn sha256(msg: &[u8]) -> (r: Vec<u8>)
    ensures
        r@ == sha256_of(msg@),
        r@.len() == 32,
{
    Sha256::digest(msg).to_vec()
}

pub open spec fn hex_digit(d: nat) -> char {
    if d < 10 {
        digit_char(d)
    } else if d == 10 {
        'a'
    } else if d == 11 {
        'b'
    } else if d == 12 {
        'c'
    } else if d == 13 {
        'd'
    } else if d == 14 {
        'e'
    } else {
        'f'
    }
}

/// Two lowercase hex digits per byte, high nibble first.
pub open spec fn hex_of(b: Seq<u8>) -> Seq<char>
    decreases b.len(),
{
    if b.len() == 0 {
        Seq::empty()
    } else {
        hex_of(b.drop_last()) + seq![
            hex_digit((b.last() / 16) as nat),
            hex_digit((b.last() % 16) as nat),
        ]
    }
}

proof fn lemma_hex_len(b: Seq<u8>)
    ensures
        hex_of(b).len() == 2 * b.len(),
    decreases b.len(),
{
    if b.len() > 0 {
        lemma_hex_len(b.drop_last());
    }
}

/// Relies on `hex::encode`: two lowercase digits per byte.
#[verifier::external_body]
fn hex_encode(b: &[u8]) -> (r: String)
    ensures
        r@ == hex_of(b@),
{
    hex::encode(b)
}

/// What the selector of a secret is made from: the UTF-8 of
/// `providerSecret:` followed by the secret.
pub open spec fn selector_message(secret: Seq<char>) -> Seq<u8> {
    encode_utf8("providerSecret:"@) + encode_utf8(secret)
}

pub open spec fn selector_text(secret: Seq<char>) -> Seq<char> {
    hex_of(sha256_of(selector_message(secret)))
}

impl ProviderSecret {
    /// The queue key of this secret: hex of SHA-256 over `providerSecret:`
    /// and the secret, 64 characters.
    pub fn selector(&self) -> (r: ProviderSelector)
        ensures
            r@ == selector_text(self@),
            r@.len() == 64,
    {
        let mut msg = "providerSecret:".as_bytes_vec();
        let mut secret = self.0.as_str().as_bytes_vec();
        msg.append(&mut secret);
        let digest = sha256(msg.as_slice());
        proof {
            lemma_hex_len(digest@);
        }
        ProviderSelector(hex_encode(digest.as_slice()))
    }
}

/// Equal secrets give equal selectors: the selector is a function of the
/// secret alone.
pub proof fn lemma_selector_deterministic(a: Seq<char>, b: Seq<char>)
    requires
        a == b,
    ensures
        selector_text(a) == selector_text(b),
{
}

} // verus!
