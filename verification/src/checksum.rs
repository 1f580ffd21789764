//! SHA-256 in hexadecimal.

use sha2::Digest;
use vstd::prelude::*;

verus! {

/// The type of a hasher.
#[verifier::external_type_specification]
#[verifier::external_body]
pub struct ExSha256(sha2::Sha256);

/// The SHA-256 digest of some bytes.
pub uninterp spec fn sha256_bytes(data: Seq<u8>) -> Seq<u8>;

/// The hasher has been given `data`, in one piece or several, since it was new. A relation, as
/// different data can leave a hasher in one state.
pub uninterp spec fn given(hasher: sha2::Sha256, data: Seq<u8>) -> bool;

/// `Sha256::new` of sha2: a hasher that has been given nothing.
#[verifier::external_body]
fn start() -> (r: sha2::Sha256)
    ensures
        given(r, seq![]),
{
    sha2::Sha256::new()
}

/// `Sha256::update` of sha2: the hasher has been given the new data after what it had.
#[verifier::external_body]
fn update(hasher: &mut sha2::Sha256, data: &[u8])
    ensures
        forall|had: Seq<u8>| #[trigger]
            given(*old(hasher), had) ==> given(*final(hasher), had + data@),
{
    hasher.update(data)
}

/// `Sha256::finalize` of sha2: thirty-two bytes, the digest of what the hasher was given.
#[verifier::external_body]
fn finalize(hasher: sha2::Sha256) -> (r: Vec<u8>)
    ensures
        forall|had: Seq<u8>| #[trigger] given(hasher, had) ==> r@ == sha256_bytes(had),
        r@.len() == 32,
{
    hasher.finalize().to_vec()
}

/// The character of a hexadecimal digit, in lowercase.
pub open spec fn hex_digit(n: nat) -> char {
    if n < 10 {
        (48 + n) as char
    } else {
        (87 + n) as char
    }
}

/// Bytes in hexadecimal, the high digit of each first.
pub open spec fn hex(bytes: Seq<u8>) -> Seq<char> {
    Seq::new(
        2 * bytes.len(),
        |i: int| if i % 2 == 0 {
            hex_digit((bytes[i / 2] / 16) as nat)
        } else {
            hex_digit((bytes[i / 2] % 16) as nat)
        },
    )
}

fn hex_char(n: u8) -> (r: char)
    requires
        n < 16,
    ensures
        r == hex_digit(n as nat),
{
    if n < 10 {
        (48u8 + n) as char
    } else {
        (87u8 + n) as char
    }
}

/// Bytes in lowercase hexadecimal.
pub fn to_hex(bytes: &Vec<u8>) -> (r: String)
    ensures
        r@ == hex(bytes@),
{
    let mut out = String::new();
    for i in 0..bytes.len()
        invariant
            out@ == hex(bytes@.take(i as int)),
    {
        let b: u8 = bytes[i];
        out.push(hex_char(b / 16));
        out.push(hex_char(b % 16));
        proof {
            let now = bytes@.take(i + 1);
            assert(out@ =~= hex(now)) by {
                assert forall|k: int| 0 <= k < hex(now).len() implies out@[k] == hex(now)[k] by {
                    if k < 2 * i {
                        assert(now[k / 2] == bytes@.take(i as int)[k / 2]);
                    } else {
                        assert(k / 2 == i);
                    }
                }
            }
        }
    }
    assert(bytes@.take(bytes@.len() as int) =~= bytes@);
    out
}

/// A checksum that is computed piece by piece.
pub struct Checksum {
    hasher: sha2::Sha256,
    data: Ghost<Seq<u8>>,
}

impl Checksum {
    /// The bytes taken so far.
    pub closed spec fn taken(self) -> Seq<u8> {
        self.data@
    }

    /// The hasher has been given the bytes taken so far.
    pub closed spec fn wf(self) -> bool {
        given(self.hasher, self.data@)
    }

    /// A checksum of nothing.
    pub fn new() -> (r: Self)
        ensures
            r.wf(),
            r.taken() == Seq::<u8>::empty(),
    {
        let data: Ghost<Seq<u8>> = Ghost(Seq::empty());
        Checksum { hasher: start(), data }
    }

    /// Takes the next bytes.
    pub fn take(&mut self, bytes: &[u8])
        requires
            old(self).wf(),
        ensures
            final(self).wf(),
            final(self).taken() == old(self).taken() + bytes@,
    {
        update(&mut self.hasher, bytes);
        let data: Ghost<Seq<u8>> = Ghost(self.data@ + bytes@);
        self.data = data;
    }

    /// The SHA-256 of the bytes taken, in lowercase hexadecimal.
    pub fn finish(self) -> (r: String)
        requires
            self.wf(),
        ensures
            r@ == hex(sha256_bytes(self.taken())),
            r@.len() == 64,
    {
        let bytes = finalize(self.hasher);
        to_hex(&bytes)
    }
}

/// The SHA-256 of some bytes, in lowercase hexadecimal.
pub fn sha256(data: &[u8]) -> (r: String)
    ensures
        r@ == hex(sha256_bytes(data@)),
        r@.len() == 64,
{
    let mut sum = Checksum::new();
    sum.take(data);
    assert(sum.taken() =~= data@);
    sum.finish()
}

/// No two different byte strings look the same in hexadecimal.
pub proof fn law_hex_is_faithful(a: Seq<u8>, b: Seq<u8>)
    requires
        hex(a) == hex(b),
    ensures
        a == b,
{
    assert(hex(a).len() == 2 * a.len());
    assert(hex(b).len() == 2 * b.len());
    assert forall|i: int| 0 <= i < a.len() implies a[i] == b[i] by {
        assert((2 * i) / 2 == i && (2 * i) % 2 == 0);
        assert((2 * i + 1) / 2 == i && (2 * i + 1) % 2 == 1);
        assert(hex(a)[2 * i] == hex_digit((a[i] / 16) as nat));
        assert(hex(b)[2 * i] == hex_digit((b[i] / 16) as nat));
        assert(hex(a)[2 * i + 1] == hex_digit((a[i] % 16) as nat));
        assert(hex(b)[2 * i + 1] == hex_digit((b[i] % 16) as nat));
        lemma_hex_digit((a[i] / 16) as nat, (b[i] / 16) as nat);
        lemma_hex_digit((a[i] % 16) as nat, (b[i] % 16) as nat);
    }
    assert(a =~= b);
}

proof fn lemma_hex_digit(m: nat, n: nat)
    requires
        m < 16,
        n < 16,
        hex_digit(m) == hex_digit(n),
    ensures
        m == n,
{
    assert(m < 10 ==> hex_digit(m) as nat == 48 + m);
    assert(m >= 10 ==> hex_digit(m) as nat == 87 + m);
    assert(n < 10 ==> hex_digit(n) as nat == 48 + n);
    assert(n >= 10 ==> hex_digit(n) as nat == 87 + n);
}

/// Each byte is two digits of sixteen, the high one first.
pub proof fn law_two_digits_for_each_byte(bytes: Seq<u8>, i: int)
    requires
        0 <= i < bytes.len(),
    ensures
        hex(bytes).len() == 2 * bytes.len(),
        hex(bytes)[2 * i] == "0123456789abcdef"@[bytes[i] as int / 16],
        hex(bytes)[2 * i + 1] == "0123456789abcdef"@[bytes[i] as int % 16],
{
    reveal_strlit("0123456789abcdef");
    assert((2 * i) / 2 == i && (2 * i) % 2 == 0);
    assert((2 * i + 1) / 2 == i && (2 * i + 1) % 2 == 1);
}

} // verus!
