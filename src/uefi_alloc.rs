use vstd::prelude::*;
use vstd::arithmetic::div_mod::{lemma_fundamental_div_mod, lemma_mod_multiples_basic};

verus! {

/// Bytes of the word stored just before each block, holding the address of
/// the pool allocation it was carved from.
pub const HEADER_BYTES: usize = 8;

/// Allocator over the firmware's pool memory. The pool gives no alignment
/// guarantee, so each block is carved out of a larger pool allocation: room
/// for the header word, then enough slack to align the block.
pub struct UefiBootAllocator;

/// A pool request for one block.
#[derive(Clone, Copy, Debug, PartialEq, Eq, Structural)]
pub struct PoolRequest {
    /// Alignment the block gets: the layout's, but at least a word.
    pub align: usize,
    /// Bytes the block gets: the layout's, but at least one.
    pub size: usize,
    /// Bytes to ask the pool for.
    pub total: usize,
}

impl UefiBootAllocator {
    /// Plans the pool request for a block of `size` bytes aligned to `align`;
    /// `None` when the request would not fit in an address.
    pub fn pool_request(size: usize, align: usize) -> (r: Option<PoolRequest>)
        ensures
            ({
                let a = if align < HEADER_BYTES { HEADER_BYTES as int } else { align as int };
                let s = if size == 0 { 1int } else { size as int };
                &&& r is None <==> s + a + HEADER_BYTES > usize::MAX
                &&& r matches Some(q) ==> q.align == a && q.size == s && q.total == s + a
                    + HEADER_BYTES
            }),
    {
        let a = if align < HEADER_BYTES { HEADER_BYTES } else { align };
        let s = if size == 0 { 1 } else { size };
        match s.checked_add(a) {
            None => None,
            Some(t) => match t.checked_add(HEADER_BYTES) {
                None => None,
                Some(total) => Some(PoolRequest { align: a, size: s, total }),
            },
        }
    }

    /// Address of the block inside a pool allocation starting at `raw`: the
    /// first multiple of `align` that leaves a header word after `raw`. With
    /// the request's total, the block and its header fit in the allocation.
    pub fn aligned_block(raw: usize, align: usize) -> (r: usize)
        requires
            align > 0,
            raw + HEADER_BYTES + align - 1 <= usize::MAX,
        ensures
            r % align == 0,
            raw + HEADER_BYTES <= r <= raw + HEADER_BYTES + align - 1,
    {
        let x = raw + HEADER_BYTES + (align - 1);
        let r = x - x % align;
        proof {
            lemma_fundamental_div_mod(x as int, align as int);
            lemma_mod_multiples_basic(x as int / align as int, align as int);
            assert(r == align * (x as int / align as int));
            assert(align * (x as int / align as int) == (x as int / align as int) * align) by (nonlinear_arith);
        }
        r
    }
}

} // verus!
