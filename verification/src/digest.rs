//! SHA-256 digests.

use vstd::prelude::*;
use vstd::utf8::encode_utf8;

verus! {

/// The SHA-256 digest of some bytes, in small hexadecimal digits.
pub uninterp spec fn sha256_text(bytes: Seq<u8>) -> Seq<char>;

/// `sha2::Sha256::digest`, written in hexadecimal: a function of the bytes.
#[verifier::external_body]
pub(crate) fn sha256_hex(bytes: &[u8]) -> (res: String)
    ensures
        res@ == sha256_text(bytes@),
{
    format!("{:x}", <sha2::Sha256 as sha2::Digest>::digest(bytes))
}

/// Appends bytes to others.
pub fn push_bytes(out: &mut Vec<u8>, more: &[u8])
    ensures
        final(out)@ == old(out)@ + more@,
{
    let ghost start = out@;
    let mut i: usize = 0;
    assert(start + more@.take(0) =~= start);
    while i < more.len()
        invariant
            i <= more.len(),
            out@ == start + more@.take(i as int),
        decreases more.len() - i,
    {
        out.push(more[i]);
        i += 1;
        assert(out@ =~= start + more@.take(i as int));
    }
    assert(more@.take(more.len() as int) =~= more@);
}

/// The digest of a file's content.
pub fn content_hash(content: &[u8]) -> (res: String)
    ensures
        res@ == sha256_text(content@),
{
    sha256_hex(content)
}

/// Whether two contents are told apart by their digests.
pub open spec fn told_apart(a: Seq<u8>, b: Seq<u8>) -> bool {
    a != b ==> sha256_text(a) != sha256_text(b)
}

/// Different texts are encoded differently, and only the empty one as nothing.
pub proof fn lemma_encode_injective(a: Seq<char>, b: Seq<char>)
    ensures
        encode_utf8(a) == encode_utf8(b) ==> a == b,
        a.len() > 0 ==> encode_utf8(a).len() > 0,
{
    vstd::utf8::encode_utf8_decode_utf8(a);
    vstd::utf8::encode_utf8_decode_utf8(b);
    if a.len() > 0 && encode_utf8(a).len() == 0 {
        let none = Seq::<char>::empty();
        vstd::utf8::encode_utf8_decode_utf8(none);
        assert(encode_utf8(a) =~= encode_utf8(none));
    }
}

/// What stands between the same beginning and the same end is the same.
pub proof fn lemma_middle(head: Seq<u8>, x: Seq<u8>, y: Seq<u8>, tail: Seq<u8>)
    ensures
        head + x + tail == head + y + tail ==> x == y,
{
    let a = head + x + tail;
    let b = head + y + tail;
    if a == b {
        let from = head.len() as int;
        let to = a.len() - tail.len();
        assert(x =~= a.subrange(from, to));
        assert(y =~= b.subrange(from, to));
    }
}

} // verus!
