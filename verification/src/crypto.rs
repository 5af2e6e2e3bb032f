use vstd::prelude::*;
use zeroize::Zeroize;

verus! {

/// Overwrites every byte of `buf` with zero through `zeroize`'s `Zeroize`
/// impl for arrays, which zeroizes each element; for `u8` that is a volatile
/// write of `u8::default()`, zero.
#[verifier::external_body]
pub(crate) fn zeroize_bytes<const N: usize>(buf: &mut [u8; N])
    ensures
        final(buf)@ == Seq::new(N as nat, |i: int| 0u8),
{
    buf.zeroize();
}

/// Erases a 32-byte key.
pub fn nv_crypto_wipe(key: &mut [u8; 32])
    ensures
        forall|i: int| 0 <= i < 32 ==> #[trigger] final(key)@[i] == 0,
{
    zeroize_bytes(key);
}

/// Finishes a key derivation: when the derivation succeeded, the first 32
/// of the 64 derived bytes become the key; the derived bytes are erased
/// either way. Returns whether the derivation succeeded.
pub fn nv_crypto_finish_derive(
    derived: &mut [u8; 64],
    derived_ok: bool,
    key_out: &mut [u8; 32],
) -> (success: bool)
    ensures
        success == derived_ok,
        derived_ok ==> final(key_out)@ == old(derived)@.subrange(0, 32),
        !derived_ok ==> final(key_out)@ == old(key_out)@,
        forall|i: int| 0 <= i < 64 ==> #[trigger] final(derived)@[i] == 0,
{
    if derived_ok {
        let mut i: usize = 0;
        while i < 32
            invariant
                i <= 32,
                *derived == *old(derived),
                forall|j: int| 0 <= j < i ==> key_out@[j] == derived@[j],
            decreases 32 - i,
        {
            key_out[i] = derived[i];
            i += 1;
        }
        assert(key_out@ =~= old(derived)@.subrange(0, 32));
    }
    zeroize_bytes(derived);
    derived_ok
}

} // verus!
