use vstd::prelude::*;

verus! {

/// Failure to obtain memory from the system allocator.
#[derive(PartialEq, Eq, Debug, Structural, Clone, Copy)]
pub enum MemoryError {
    OutOfMemory,
}

/// Places an `alignment`-aligned block of `size` bytes inside a region of
/// `size + alignment` bytes that the system allocator returned at `raw`
/// (zero when it refused).
///
/// Returns `(raw, aligned)`, where `aligned` is the least multiple of
/// `alignment` that is not below `raw`. The region must lie within the address
/// space; otherwise, and when `raw` is zero, the result is `OutOfMemory`.
pub fn aligned_region(raw: usize, size: usize, alignment: usize) -> (r: Result<
    (usize, usize),
    MemoryError,
>)
    requires
        alignment > 0,
    ensures
        r is Ok <==> (raw != 0 && raw + size + alignment <= usize::MAX),
        r is Err ==> r == Err::<(usize, usize), MemoryError>(MemoryError::OutOfMemory),
        r matches Ok((actual, aligned)) ==> {
            &&& actual == raw
            &&& aligned % alignment == 0
            &&& raw <= aligned < raw + alignment
            &&& aligned + size <= raw + size + alignment
        },
{
    if raw == 0 {
        return Err(MemoryError::OutOfMemory);
    }
    if size > usize::MAX - raw || alignment > usize::MAX - raw - size {
        return Err(MemoryError::OutOfMemory);
    }
    let rem = raw % alignment;
    let aligned = if rem == 0 {
        raw
    } else {
        raw + (alignment - rem)
    };
    proof {
        vstd::arithmetic::div_mod::lemma_fundamental_div_mod(raw as int, alignment as int);
        if rem != 0 {
            vstd::arithmetic::div_mod::lemma_mod_multiples_vanish(
                (raw / alignment + 1) as int,
                0,
                alignment as int,
            );
            assert(aligned == (raw / alignment + 1) * alignment) by (nonlinear_arith)
                requires
                    raw == alignment * (raw / alignment) + rem,
                    aligned == raw + (alignment - rem),
            ;
            vstd::arithmetic::div_mod::lemma_mod_multiples_basic(
                (raw / alignment + 1) as int,
                alignment as int,
            );
        }
    }
    Ok((raw, aligned))
}

} // verus!
