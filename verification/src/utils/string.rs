use vstd::prelude::*;
use vstd::string::StringSliceAdditionalSpecFns;

verus! {

/// Copies the first `len` bytes of `from` to the start of `to`.
pub fn copy_bytes_check(to: &mut [u8], from: &str, len: usize)
    requires
        old(to)@.len() >= len,
        from.spec_bytes().len() >= len,
    ensures
        final(to)@ == from.spec_bytes().subrange(0, len as int) + old(to)@.subrange(len as int, old(to)@.len() as int),
{
    let bytes = from.as_bytes();
    let mut i: usize = 0;
    while i < len
        invariant
            i <= len,
            len <= to@.len(),
            bytes@ == from.spec_bytes(),
            bytes@.len() >= len,
            to@.len() == old(to)@.len(),
            forall|j: int| 0 <= j < i ==> to@[j] == bytes@[j],
            forall|j: int| i <= j < to@.len() ==> to@[j] == old(to)@[j],
        decreases len - i,
    {
        to[i] = bytes[i];
        i = i + 1;
    }
    assert(to@ =~= from.spec_bytes().subrange(0, len as int) + old(to)@.subrange(len as int, old(to)@.len() as int));
}

/// Copies as many leading bytes of `from` into `to` as both can hold.
pub fn copy_bytes(to: &mut [u8], from: &str)
    ensures
        ({
            let len = if old(to)@.len() <= from.spec_bytes().len() { old(to)@.len() } else { from.spec_bytes().len() };
            final(to)@ == from.spec_bytes().subrange(0, len as int) + old(to)@.subrange(len as int, old(to)@.len() as int)
        }),
{
    let ghost before = to@;
    let tl = to.len();
    let fl = from.as_bytes().len();
    let len = if tl <= fl { tl } else { fl };
    copy_bytes_check(to, from, len);
}

} // verus!
