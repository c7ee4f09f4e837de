//! SHA-256 digests in their lower-case hexadecimal form.

use vstd::prelude::*;

use crate::text;

verus! {

#[verifier::external_type_specification]
#[verifier::external_body]
pub struct ExSha256(sha2::Sha256);

/// The SHA-256 digest of a byte sequence.
pub uninterp spec fn sha256(bytes: Seq<u8>) -> Seq<u8>;

/// The bytes a hasher has been fed so far.
pub uninterp spec fn absorbed(hasher: sha2::Sha256) -> Seq<u8>;

/// Calls `sha2::Sha256::new`: a hasher that has been fed nothing.
#[verifier::external_body]
fn new_hasher() -> (h: sha2::Sha256)
    ensures
        absorbed(h) == Seq::<u8>::empty(),
{
    <sha2::Sha256 as sha2::Digest>::new()
}

/// Calls `sha2::Digest::update`: the chunk joins what was fed before.
#[verifier::external_body]
fn feed(h: &mut sha2::Sha256, chunk: &[u8])
    ensures
        absorbed(*final(h)) == absorbed(*old(h)) + chunk@,
{
    sha2::Digest::update(h, chunk)
}

/// Calls `sha2::Digest::finalize`: thirty-two bytes, the digest of everything
/// that was fed.
#[verifier::external_body]
fn finalize(h: sha2::Sha256) -> (digest: Vec<u8>)
    ensures
        digest@ == sha256(absorbed(h)),
        digest@.len() == 32,
{
    sha2::Digest::finalize(h).to_vec()
}

/// The lower-case hexadecimal digit for `n`.
pub open spec fn hex_digit(n: int) -> char {
    "0123456789abcdef"@[n]
}

/// Whether `c` is a lower-case hexadecimal digit.
pub open spec fn is_hex_digit(c: char) -> bool {
    '0' <= c <= '9' || 'a' <= c <= 'f'
}

/// Two lower-case hexadecimal digits for each byte.
pub open spec fn hex(bytes: Seq<u8>) -> Seq<char>
    decreases bytes.len(),
{
    if bytes.len() == 0 {
        seq![]
    } else {
        hex(bytes.drop_last()) + seq![
            hex_digit(bytes.last() as int / 16),
            hex_digit(bytes.last() as int % 16),
        ]
    }
}

/// Whether `s` is a digest in hexadecimal: sixty-four lower-case digits.
pub open spec fn is_hex_digest(s: Seq<char>) -> bool {
    s.len() == 64 && forall|i: int| 0 <= i < s.len() ==> is_hex_digit(#[trigger] s[i])
}

/// The digest of `bytes` in hexadecimal.
pub open spec fn digest_hex(bytes: Seq<u8>) -> Seq<char> {
    hex(sha256(bytes))
}

proof fn lemma_hex(bytes: Seq<u8>)
    ensures
        hex(bytes).len() == 2 * bytes.len(),
        forall|i: int| 0 <= i < hex(bytes).len() ==> is_hex_digit(#[trigger] hex(bytes)[i]),
    decreases bytes.len(),
{
    reveal_strlit("0123456789abcdef");
    if bytes.len() > 0 {
        lemma_hex(bytes.drop_last());
        let b = bytes.last() as int;
        assert(0 <= b / 16 < 16 && 0 <= b % 16 < 16);
        assert(forall|n: int| 0 <= n < 16 ==> is_hex_digit(#[trigger] hex_digit(n)));
    }
}

/// A SHA-256 digest written as sixty-four lower-case hexadecimal digits.
#[derive(Debug, PartialEq, Eq)]
pub struct Sha256Hex {
    digits: String,
}

impl DeepView for Sha256Hex {
    type V = Seq<char>;

    closed spec fn deep_view(&self) -> Seq<char> {
        self.digits@
    }
}

impl Sha256Hex {
    #[verifier::type_invariant]
    spec fn well_formed(self) -> bool {
        is_hex_digest(self.digits@)
    }

    /// The digits.
    pub open spec fn view(&self) -> Seq<char> {
        self.deep_view()
    }

    /// Reads a digest; `None` unless `s` is sixty-four lower-case hexadecimal
    /// digits.
    pub fn from_hex(s: &str) -> (r: Option<Self>)
        ensures
            match r {
                Some(h) => is_hex_digest(s@) && h@ == s@,
                None => !is_hex_digest(s@),
            },
            r is Some <==> s@.len() == 64 && forall|i: int|
                0 <= i < 64 ==> ('0' <= #[trigger] s@[i] <= '9' || 'a' <= s@[i] <= 'f'),
    {
        let v = text::chars_of(s);
        if v.len() != 64 {
            return None;
        }
        let mut i: usize = 0;
        while i < 64
            invariant
                v@ == s@,
                v.len() == 64,
                i <= 64,
                forall|j: int| 0 <= j < i ==> is_hex_digit(#[trigger] s@[j]),
            decreases 64 - i,
        {
            let c = v[i];
            if !(('0' <= c && c <= '9') || ('a' <= c && c <= 'f')) {
                assert(!is_hex_digit(s@[i as int]));
                return None;
            }
            i = i + 1;
        }
        Some(Sha256Hex { digits: s.to_owned() })
    }

    fn from_digest(digest: &Vec<u8>) -> (r: Self)
        requires
            digest@.len() == 32,
        ensures
            r@ == hex(digest@),
    {
        let table = "0123456789abcdef";
        proof {
            reveal_strlit("0123456789abcdef");
        }
        let mut out = String::new();
        let mut i: usize = 0;
        assert(digest@.take(0) =~= seq![]);
        while i < digest.len()
            invariant
                i <= digest.len(),
                table@ == "0123456789abcdef"@,
                table@.len() == 16,
                table.is_ascii(),
                out@ == hex(digest@.take(i as int)),
            decreases digest.len() - i,
        {
            let hi: usize = (digest[i] / 16) as usize;
            let lo: usize = (digest[i] % 16) as usize;
            out.append(table.substring_ascii(hi, hi + 1));
            out.append(table.substring_ascii(lo, lo + 1));
            proof {
                let t = digest@.take(i + 1);
                assert(t.drop_last() =~= digest@.take(i as int));
                assert(out@ =~= hex(t.drop_last()) + seq![
                    hex_digit(t.last() as int / 16),
                    hex_digit(t.last() as int % 16),
                ]);
            }
            i = i + 1;
        }
        assert(digest@.take(digest@.len() as int) =~= digest@);
        proof {
            lemma_hex(digest@);
        }
        Sha256Hex { digits: out }
    }

    /// The digest of `bytes`.
    pub fn from_bytes(bytes: &[u8]) -> (r: Self)
        ensures
            r@ == digest_hex(bytes@),
    {
        let mut h = new_hasher();
        feed(&mut h, bytes);
        assert(absorbed(h) =~= bytes@);
        Self::from_digest(&finalize(h))
    }

    /// The digits as a string slice.
    pub fn as_str(&self) -> (s: &str)
        ensures
            s@ == self@,
            is_hex_digest(s@),
    {
        proof {
            use_type_invariant(self);
        }
        self.digits.as_str()
    }

    /// The digits as an owned string.
    pub fn to_hex(&self) -> (s: String)
        ensures
            s@ == self@,
            is_hex_digest(s@),
    {
        self.as_str().to_owned()
    }
}

impl Clone for Sha256Hex {
    fn clone(&self) -> (r: Self)
        ensures
            r == *self,
    {
        proof {
            use_type_invariant(self);
        }
        Sha256Hex { digits: self.digits.clone() }
    }
}

/// Digests a byte stream that arrives in chunks, counting its length.
pub struct StreamingHasher {
    inner: sha2::Sha256,
    size: u64,
}

impl StreamingHasher {
    /// The bytes seen so far.
    pub closed spec fn view(&self) -> Seq<u8> {
        absorbed(self.inner)
    }

    /// Whether the count agrees with what has been seen.
    pub closed spec fn wf(&self) -> bool {
        self.size == absorbed(self.inner).len()
    }

    /// A hasher that has seen nothing.
    pub fn new() -> (h: Self)
        ensures
            h.wf(),
            h@ == Seq::<u8>::empty(),
    {
        StreamingHasher { inner: new_hasher(), size: 0 }
    }

    /// Takes in the next chunk of the stream.
    pub fn update(&mut self, chunk: &[u8])
        requires
            old(self).wf(),
            old(self)@.len() + chunk@.len() <= u64::MAX,
        ensures
            final(self).wf(),
            final(self)@ == old(self)@ + chunk@,
    {
        feed(&mut self.inner, chunk);
        self.size = self.size + chunk.len() as u64;
    }

    /// The digest and the length of the stream.
    pub fn finish(self) -> (r: (Sha256Hex, u64))
        requires
            self.wf(),
        ensures
            r.0@ == digest_hex(self@),
            r.1 == self@.len(),
    {
        let StreamingHasher { inner, size } = self;
        (Sha256Hex::from_digest(&finalize(inner)), size)
    }
}

/// The digits of a byte tell it: the first gives the sixteens, the second what is left.
pub proof fn hex_tells_every_byte(bytes: Seq<u8>, i: int)
    requires
        0 <= i < bytes.len(),
    ensures
        hex(bytes).len() == 2 * bytes.len(),
        hex_value(hex(bytes)[2 * i]) * 16 + hex_value(hex(bytes)[2 * i + 1]) == bytes[i],
        is_hex_digit(hex(bytes)[2 * i]),
        is_hex_digit(hex(bytes)[2 * i + 1]),
    decreases bytes.len(),
{
    lemma_hex(bytes);
    let init = bytes.drop_last();
    lemma_hex(init);
    reveal_strlit("0123456789abcdef");
    let b = bytes.last() as int;
    assert(0 <= b / 16 < 16 && 0 <= b % 16 < 16);
    assert(forall|n: int| 0 <= n < 16 ==> hex_value(#[trigger] hex_digit(n)) == n);
    if i < init.len() {
        hex_tells_every_byte(init, i);
        assert(hex(bytes)[2 * i] == hex(init)[2 * i]);
        assert(hex(bytes)[2 * i + 1] == hex(init)[2 * i + 1]);
    } else {
        assert(hex(bytes)[2 * i] == hex_digit(b / 16));
        assert(hex(bytes)[2 * i + 1] == hex_digit(b % 16));
    }
}

/// The value of a hexadecimal digit.
pub open spec fn hex_value(c: char) -> int {
    if '0' <= c <= '9' {
        c as int - '0' as int
    } else {
        c as int - 'a' as int + 10
    }
}

/// Different bytes have different digits.
pub proof fn hex_tells_bytes_apart(a: Seq<u8>, b: Seq<u8>)
    requires
        hex(a) == hex(b),
    ensures
        a == b,
{
    lemma_hex(a);
    lemma_hex(b);
    assert forall|i: int| 0 <= i < a.len() implies a[i] == b[i] by {
        hex_tells_every_byte(a, i);
        hex_tells_every_byte(b, i);
    }
    assert(a =~= b);
}

} // verus!
