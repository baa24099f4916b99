//! Signatures: one checksum and one digest for each full block of a stream.

use crate::chunker::{block, lemma_block_count, Chunker};
use crate::weak_sum::{checksum, lemma_view_decides, WeakSum};
use vstd::prelude::*;

verus! {

/// The MD4 digest of `data`: the sixteen bytes that the `md4` crate computes
/// for it.
pub uninterp spec fn md4_of(data: Seq<u8>) -> Seq<u8>;

/// Computes the MD4 digest of `data` with `Digest::digest` of the `md4`
/// crate. The digest depends on the bytes of `data` alone, so the contract
/// gives it a name and claims no more of it.
#[verifier::external_body]
pub(crate) fn md4_digest(data: &[u8]) -> (digest: [u8; 16])
    ensures
        digest@ == md4_of(data@),
{
    let output: digest::generic_array::GenericArray<u8, digest::typenum::U16> =
        <md4::Md4 as digest::Digest>::digest(data);
    output.into()
}

/// The sixteen digits of lower-case hexadecimal, in order.
pub open spec fn hex_digits() -> Seq<char> {
    seq!['0', '1', '2', '3', '4', '5', '6', '7', '8', '9', 'a', 'b', 'c', 'd', 'e', 'f']
}

/// `bytes` in lower-case hexadecimal: two digits for each byte, the upper
/// half of the byte first.
pub open spec fn hex_of(bytes: Seq<u8>) -> Seq<char> {
    Seq::new(
        2 * bytes.len(),
        |i: int|
            if i % 2 == 0 {
                hex_digits()[bytes[i / 2] as int / 16]
            } else {
                hex_digits()[bytes[i / 2] as int % 16]
            },
    )
}

/// Writes `bytes` in lower-case hexadecimal with `lower::encode_string` of the
/// `base16ct` crate, which gives two digits for each byte, the upper half
/// first, and refuses an input whose digits `usize` cannot count.
#[verifier::external_body]
pub(crate) fn hex_lower(bytes: &[u8]) -> (hex: String)
    requires
        bytes@.len() <= usize::MAX / 2,
    ensures
        hex@ == hex_of(bytes@),
{
    base16ct::lower::encode_string(bytes)
}

/// The signature of one block: its rolling checksum, which is cheap and may
/// collide, and its strong digest, which settles a collision.
#[derive(Debug)]
pub struct BlockSignature {
    pub weak: WeakSum,
    pub strong: [u8; 16],
}

/// What a signature says, as plain values.
pub struct SignatureModel {
    pub weak: (u16, u16),
    pub strong: Seq<u8>,
}

impl View for BlockSignature {
    type V = SignatureModel;

    open spec fn view(&self) -> SignatureModel {
        SignatureModel { weak: self.weak@, strong: self.strong@ }
    }
}

/// The signature of a block that holds `bytes`.
pub open spec fn signed(bytes: Seq<u8>) -> SignatureModel {
    SignatureModel { weak: checksum(bytes), strong: md4_of(bytes) }
}

/// The signatures of the full blocks of `data`, in the order of the blocks:
/// the signature at position `i` is that of block `i`.
pub open spec fn signature_of(data: Seq<u8>, block_size: nat) -> Seq<SignatureModel>
    recommends
        block_size > 0,
{
    Seq::new(data.len() / block_size, |i: int| signed(block(data, block_size, i)))
}

/// What each signature of `signatures` says, in order.
pub open spec fn signature_views(signatures: Seq<BlockSignature>) -> Seq<SignatureModel> {
    signatures.map_values(|s: BlockSignature| s@)
}

impl From<&[u8]> for BlockSignature {
    /// The signature of the block that holds the bytes of `buf`.
    fn from(buf: &[u8]) -> (signature: BlockSignature)
        ensures
            signature@ == signed(buf@),
    {
        let signature = BlockSignature { weak: WeakSum::from(buf), strong: md4_digest(buf) };
        proof {
            let chosen = choose|other: BlockSignature| other@ == signed(buf@);
            assert(signature@ == signed(buf@));
            assert(chosen@ == signed(buf@));
            lemma_view_decides(chosen.weak, signature.weak);
            assert(chosen.strong =~= signature.strong);
        }
        signature
    }
}

impl vstd::std_specs::convert::FromSpecImpl<&[u8]> for BlockSignature {
    open spec fn obeys_from_spec() -> bool {
        true
    }

    open spec fn from_spec(buf: &[u8]) -> BlockSignature {
        choose|signature: BlockSignature| signature@ == signed(buf@)
    }
}

impl BlockSignature {
    /// The strong digest in lower-case hexadecimal.
    pub fn strong_hex(&self) -> (hex: String)
        ensures
            hex@ == hex_of(self.strong@),
    {
        hex_lower(self.strong.as_slice())
    }
}

/// Signs each full block of `data`, in order. Bytes that follow the last full
/// block are not signed.
pub fn signature(data: &[u8], block_size: u16) -> (signatures: Vec<BlockSignature>)
    requires
        block_size > 0,
    ensures
        signature_views(signatures@) == signature_of(data@, block_size as nat),
{
    let ghost size = block_size as nat;
    let mut chunker = Chunker::new(block_size, data);
    let mut signatures: Vec<BlockSignature> = Vec::new();
    proof {
        assert(0 * size == 0) by (nonlinear_arith);
        assert(signature_views(signatures@) == signature_of(data@, size).take(0));
    }
    loop
        invariant_except_break
            chunker.unread() == data@.skip((signatures@.len() * size) as int),
        invariant
            size > 0,
            chunker.chunk_size() == size,
            signatures@.len() * size <= data@.len(),
            signature_views(signatures@) == signature_of(data@, size).take(
                signatures@.len() as int,
            ),
        ensures
            signature_views(signatures@) == signature_of(data@, size),
        decreases chunker.unread().len(),
    {
        let ghost done = signatures@.len() as int;
        proof {
            lemma_block_count(data@.len(), size, done);
        }
        match chunker.next() {
            Some(chunk) => {
                proof {
                    assert(done * size + size == (done + 1) * size) by (nonlinear_arith);
                    assert(chunk@ == block(data@, size, done));
                    assert(data@.skip(done * size).skip(size as int) == data@.skip(
                        (done + 1) * size,
                    ));
                }
                signatures.push(BlockSignature::from(chunk.as_slice()));
                proof {
                    assert(signature_views(signatures@) == signature_of(data@, size).take(
                        done + 1,
                    ));
                }
            },
            None => {
                proof {
                    assert(signature_of(data@, size).take(done) == signature_of(data@, size));
                }
                break ;
            },
        }
    }
    signatures
}

/// Whether two digests hold the same bytes.
pub fn same_digest(left: &[u8; 16], right: &[u8; 16]) -> (same: bool)
    ensures
        same == (left@ == right@),
{
    let mut i: usize = 0;
    while i < 16
        invariant
            i <= 16,
            left@.take(i as int) == right@.take(i as int),
        decreases 16 - i,
    {
        if left[i] != right[i] {
            return false;
        }
        proof {
            assert(left@.take(i + 1) == left@.take(i as int).push(left@[i as int]));
            assert(right@.take(i + 1) == right@.take(i as int).push(right@[i as int]));
        }
        i += 1;
    }
    proof {
        assert(left@.take(16) == left@);
        assert(right@.take(16) == right@);
    }
    true
}

} // verus!
