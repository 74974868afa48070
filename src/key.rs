//! Keys of JSON objects.
use vstd::prelude::*;
use vstd::string::*;

verus! {

/// The discriminator of a key: its length and a handful of bytes from its
/// start, end and middle, packed into one word. Equal keys have equal
/// discriminators; different keys may share one.
pub open spec fn key_hash(b: Seq<u8>) -> u64 {
    let n = b.len();
    let mid = n / 2;
    let h0 = (n as u64) << 56u64;
    let h1 = if mid > 0 {
        h0 | (b[0] as u64) | ((b[n - 1] as u64) << 8u64)
    } else {
        h0
    };
    let h2 = if mid > 1 {
        h1 | ((b[1] as u64) << 16u64) | ((b[n - 2] as u64) << 24u64)
    } else {
        h1
    };
    let h3 = if mid > 2 {
        h2 | ((b[2] as u64) << 32u64) | ((b[n - 3] as u64) << 40u64)
    } else {
        h2
    };
    if n % 2 == 1 || n >= 8 {
        h3 | ((b[mid as int] as u64) << 48u64)
    } else {
        h3
    }
}

/// Computes the discriminator of the key with bytes `bytes`.
fn hash(bytes: &[u8]) -> (r: u64)
    ensures
        r == key_hash(bytes@),
{
    let n = bytes.len();
    let mid = n / 2;
    let mut h: u64 = (n as u64) << 56u64;
    if mid > 0 {
        h = h | (bytes[0] as u64) | ((bytes[n - 1] as u64) << 8u64);
    }
    if mid > 1 {
        h = h | ((bytes[1] as u64) << 16u64) | ((bytes[n - 2] as u64) << 24u64);
    }
    if mid > 2 {
        h = h | ((bytes[2] as u64) << 32u64) | ((bytes[n - 3] as u64) << 40u64);
    }
    if n % 2 == 1 || n >= 8 {
        h = h | ((bytes[mid] as u64) << 48u64);
    }
    h
}

/// Whether two byte strings are equal.
fn same_bytes(a: &[u8], b: &[u8]) -> (r: bool)
    ensures
        r == (a@ == b@),
{
    if a.len() != b.len() {
        return false;
    }
    let mut i: usize = 0;
    while i < a.len()
        invariant
            a@.len() == b@.len(),
            i <= a@.len(),
            forall|j: int| 0 <= j < i ==> a@[j] == b@[j],
        decreases a@.len() - i,
    {
        if a[i] != b[i] {
            return false;
        }
        i = i + 1;
    }
    assert(a@ =~= b@);
    true
}

/// A key of a JSON object: its text, borrowed from the source, and its
/// discriminator, which settles most comparisons before the bytes are read.
#[derive(Debug)]
pub struct Key<'a> {
    text: &'a str,
    hash: u64,
}

impl<'a> View for Key<'a> {
    type V = Seq<u8>;

    /// The bytes of the key.
    closed spec fn view(&self) -> Seq<u8> {
        self.text.spec_bytes()
    }
}

impl<'a> Key<'a> {
    #[verifier::type_invariant]
    spec fn hashed(self) -> bool {
        self.hash == key_hash(self.text.spec_bytes())
    }

    /// The key with the text `source`.
    pub fn from_str(source: &'a str) -> (r: Key<'a>)
        ensures
            r@ == source.spec_bytes(),
    {
        let h = hash(source.as_bytes());
        Key { text: source, hash: h }
    }

    /// The text of the key.
    pub fn as_str(&self) -> (r: &'a str)
        ensures
            r.spec_bytes() == self@,
    {
        self.text
    }
}

impl<'a> PartialEq for Key<'a> {
    fn eq(&self, other: &Key<'a>) -> (r: bool) {
        proof {
            use_type_invariant(self);
            use_type_invariant(other);
        }
        if self.hash != other.hash {
            false
        } else {
            same_bytes(self.text.as_bytes(), other.text.as_bytes())
        }
    }
}

impl<'a> vstd::std_specs::cmp::PartialEqSpecImpl for Key<'a> {
    open spec fn obeys_eq_spec() -> bool {
        true
    }

    open spec fn eq_spec(&self, other: &Key<'a>) -> bool {
        self@ == other@
    }
}

} // verus!
