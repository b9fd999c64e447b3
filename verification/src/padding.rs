use vstd::prelude::*;

verus! {

/// The PKCS pad count for a plaintext of `n` bytes: 1 to 16, whatever fills
/// the last block.
pub open spec fn pad_count(n: nat) -> nat {
    (16 - (n % 16)) as nat
}

/// A plaintext padded to whole blocks: the pad count, repeated that many
/// times, appended.
pub open spec fn pkcs_pad(p: Seq<u8>) -> Seq<u8> {
    p + Seq::new(pad_count(p.len()), |i: int| pad_count(p.len()) as u8)
}

/// What the cipher engine processes for a plaintext: the padded plaintext —
/// except that an empty plaintext is never fed to the cipher at all, and
/// makes an empty stream.
pub open spec fn padded_of(p: Seq<u8>) -> Seq<u8> {
    if p.len() == 0 {
        Seq::empty()
    } else {
        pkcs_pad(p)
    }
}

/// The length of the cipher stream for a plaintext of `n` bytes.
pub open spec fn padded_len(n: nat) -> nat {
    if n == 0 {
        0
    } else {
        n + pad_count(n)
    }
}

pub proof fn lemma_pad_count_bounds(n: nat)
    ensures
        1 <= pad_count(n) <= 16,
        (n + pad_count(n)) % 16 == 0,
{
}

pub proof fn lemma_padded_of_len(p: Seq<u8>)
    ensures
        padded_of(p).len() == padded_len(p.len()),
        padded_of(p).len() % 16 == 0,
{
    lemma_pad_count_bounds(p.len());
}

/// A prefix of the padded plaintext that does not reach into the padding is
/// a prefix of the plaintext itself.
pub proof fn lemma_prefix_of_padded(x: Seq<u8>, p: Seq<u8>)
    requires
        x.is_prefix_of(pkcs_pad(p)),
        x.len() <= p.len(),
    ensures
        x.is_prefix_of(p),
{
    assert(pkcs_pad(p).subrange(0, x.len() as int) =~= p.subrange(0, x.len() as int));
}

/// Stripping the pad count off the tail of a split padded plaintext gives
/// the plaintext back.
pub proof fn lemma_strip_split(served: Seq<u8>, pend: Seq<u8>, p: Seq<u8>)
    requires
        served + pend == pkcs_pad(p),
        pend.len() >= pad_count(p.len()),
    ensures
        served + pend.take(pend.len() - pad_count(p.len())) == p,
        pend.len() >= 1,
        pend.last() == pad_count(p.len()) as u8,
        forall|i: int|
            pend.len() - pad_count(p.len()) <= i < pend.len() ==> pend[i] == pad_count(
                p.len(),
            ) as u8,
{
    lemma_pad_count_bounds(p.len());
    let c = pad_count(p.len()) as int;
    let t = pkcs_pad(p);
    assert(served.len() + pend.len() == t.len());
    assert(t.len() == p.len() + c);
    assert forall|i: int| pend.len() - c <= i < pend.len() implies pend[i] == (pad_count(
        p.len(),
    ) as u8) by {
        assert(pend[i] == (served + pend)[served.len() + i]);
        assert(t[served.len() + i] == pad_count(p.len()) as u8);
    }
    assert(pend.last() == pend[pend.len() - 1]);
    assert(served + pend.take(pend.len() - c) =~= t.take(p.len() as int));
    assert(t.take(p.len() as int) =~= p);
}

} // verus!
