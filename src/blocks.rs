use std::collections::HashMap;
use std::collections::VecDeque;
use vstd::arithmetic::div_mod::lemma_fundamental_div_mod;
use vstd::prelude::*;

verus! {

broadcast use vstd::std_specs::hash::group_hash_axioms;

/// Width in bits of one block of the cipher that consumes the blocks.
pub const BLOCK_SIZE: usize = 128;

/// One block: its 1-based index and its bits.
pub struct Block {
    pub id: usize,
    pub store_block: VecDeque<u8>,
}

trait BlockTrait {
    fn new_block(block: VecDeque<u8>, id: usize) -> (r: Block)
        ensures
            r.id == id,
            r.store_block@ == block@,
    ;
}

impl BlockTrait for Block {
    fn new_block(block: VecDeque<u8>, id: usize) -> (r: Block) {
        Block { id, store_block: block }
    }
}

/// How many blocks of `width` bits hold `len` bits: the quotient, plus one
/// when a remainder is left over.
pub open spec fn block_count(len: nat, width: nat) -> nat {
    if len % width == 0 {
        len / width
    } else {
        len / width + 1
    }
}

/// Block `k` (from `0`) of `bits` cut into blocks of `width`: the next
/// `width` bits where that many are left; otherwise the bits that are left,
/// after as many zeros as the block is short of.
pub open spec fn block_bits(bits: Seq<u8>, width: nat, k: nat) -> Seq<u8> {
    let start = k * width;
    if start + width <= bits.len() {
        bits.subrange(start as int, (start + width) as int)
    } else {
        Seq::new((start + width - bits.len()) as nat, |i: int| 0u8) + bits.subrange(
            start as int,
            bits.len() as int,
        )
    }
}

/// All the blocks of `bits`, in order.
pub open spec fn blocks_of(bits: Seq<u8>, width: nat) -> Seq<Seq<u8>> {
    Seq::new(block_count(bits.len(), width), |k: int| block_bits(bits, width, k as nat))
}

/// The number of bits in all the blocks together.
pub open spec fn total_len(blocks: Seq<Seq<u8>>) -> nat
    decreases blocks.len(),
{
    if blocks.len() == 0 {
        0
    } else {
        total_len(blocks.drop_last()) + blocks.last().len()
    }
}

/// The blocks' bits one after the other.
pub open spec fn joined(blocks: Seq<Seq<u8>>) -> Seq<u8>
    decreases blocks.len(),
{
    if blocks.len() == 0 {
        Seq::empty()
    } else {
        joined(blocks.drop_last()) + blocks.last()
    }
}

/// `b` is the block of index `id` (from `1`) of `bits`.
pub open spec fn is_block_of(b: Block, bits: Seq<u8>, width: nat, id: usize) -> bool {
    &&& b.id == id
    &&& b.store_block@ == block_bits(bits, width, (id - 1) as nat)
}

/// The map after the blocks of `bits` were inserted into `before`: keys `1`
/// to the block count hold the blocks, other keys are as they were.
pub open spec fn blocks_inserted(
    before: Map<usize, Block>,
    after: Map<usize, Block>,
    bits: Seq<u8>,
    width: nat,
) -> bool {
    &&& after.dom() == before.dom().union(
        Set::new(|id: usize| 1 <= id <= block_count(bits.len(), width)),
    )
    &&& forall|id: usize|
        1 <= id <= block_count(bits.len(), width) ==> is_block_of(
            #[trigger] after[id],
            bits,
            width,
            id,
        )
    &&& forall|id: usize|
        #[trigger] before.contains_key(id) && !(1 <= id <= block_count(bits.len(), width))
            ==> after[id] == before[id]
}

proof fn lemma_total_len(blocks: Seq<Seq<u8>>, width: nat)
    requires
        forall|k: int| 0 <= k < blocks.len() ==> #[trigger] blocks[k].len() == width,
    ensures
        total_len(blocks) == blocks.len() * width,
    decreases blocks.len(),
{
    if blocks.len() > 0 {
        let rest = blocks.drop_last();
        assert forall|k: int| 0 <= k < rest.len() implies #[trigger] rest[k].len() == width by {
            assert(rest[k] == blocks[k]);
        }
        lemma_total_len(rest, width);
        assert(blocks.len() * width == rest.len() * width + width) by (nonlinear_arith)
            requires
                blocks.len() == rest.len() + 1,
        ;
    }
}

/// Every block is exactly `width` bits long, the last one included, so the
/// blocks together hold `width` bits per block.
pub proof fn lemma_blocks_full(bits: Seq<u8>, width: nat)
    requires
        width > 0,
    ensures
        forall|k: int|
            0 <= k < blocks_of(bits, width).len() ==> #[trigger] blocks_of(bits, width)[k].len()
                == width,
        total_len(blocks_of(bits, width)) == blocks_of(bits, width).len() * width,
{
    let bs = blocks_of(bits, width);
    assert forall|k: int| 0 <= k < bs.len() implies #[trigger] bs[k].len() == width by {
        lemma_block_bounds(bits.len(), width, k as nat);
    }
    lemma_total_len(bs, width);
}

/// Cutting the same bits at the same width into the same map twice gives
/// the same keys, and under each key a block with the same index and bits.
pub proof fn lemma_segment_deterministic(
    before: Map<usize, Block>,
    first: Map<usize, Block>,
    second: Map<usize, Block>,
    bits: Seq<u8>,
    width: nat,
)
    requires
        blocks_inserted(before, first, bits, width),
        blocks_inserted(before, second, bits, width),
    ensures
        first.dom() == second.dom(),
        forall|id: usize|
            #[trigger] first.contains_key(id) ==> first[id].id == second[id].id
                && first[id].store_block@ == second[id].store_block@,
{
    assert forall|id: usize| #[trigger] first.contains_key(id) implies first[id].id == second[
        id
    ].id && first[id].store_block@ == second[id].store_block@ by {
        if 1 <= id <= block_count(bits.len(), width) {
            assert(is_block_of(first[id], bits, width, id));
            assert(is_block_of(second[id], bits, width, id));
        } else {
            assert(before.contains_key(id));
        }
    }
}

proof fn lemma_joined_full_blocks(bits: Seq<u8>, width: nat, k: nat)
    requires
        width > 0,
        k * width <= bits.len(),
        k <= blocks_of(bits, width).len(),
    ensures
        joined(blocks_of(bits, width).take(k as int)) == bits.subrange(0, (k * width) as int),
    decreases k,
{
    let bs = blocks_of(bits, width);
    if k == 0 {
        assert(k * width == 0) by (nonlinear_arith)
            requires
                k == 0,
        ;
        assert(bs.take(0) =~= Seq::<Seq<u8>>::empty());
        assert(bits.subrange(0, 0) =~= Seq::<u8>::empty());
    } else {
        let p = (k - 1) as nat;
        assert(p * width + width == k * width) by (nonlinear_arith)
            requires
                p + 1 == k,
        ;
        lemma_joined_full_blocks(bits, width, p);
        assert(bs.take(k as int).drop_last() =~= bs.take(p as int));
        assert(0 <= p * width) by (nonlinear_arith);
        assert(bs.take(k as int).last() == block_bits(bits, width, p));
        assert(block_bits(bits, width, p) == bits.subrange(
            (p * width) as int,
            (k * width) as int,
        ));
        assert(bits.subrange(0, (p * width) as int) + bits.subrange(
            (p * width) as int,
            (k * width) as int,
        ) =~= bits.subrange(0, (k * width) as int));
    }
}

/// Joined, the blocks are the bits themselves, with the zeros that pad the
/// last block standing just before the bits that it holds: padding is zero,
/// fills only the front of the last block, and is shorter than one block.
pub proof fn lemma_blocks_joined(bits: Seq<u8>, width: nat)
    requires
        width > 0,
    ensures
        ({
            let full = (bits.len() / width) * width;
            let pad = (block_count(bits.len(), width) * width - bits.len()) as nat;
            &&& 0 <= pad < width
            &&& full <= bits.len()
            &&& joined(blocks_of(bits, width)) == bits.subrange(0, full as int) + Seq::new(
                pad,
                |i: int| 0u8,
            ) + bits.subrange(full as int, bits.len() as int)
        }),
{
    let bs = blocks_of(bits, width);
    let q = bits.len() / width;
    let n = block_count(bits.len(), width);
    lemma_fundamental_div_mod(bits.len() as int, width as int);
    assert(q * width == width * q) by (nonlinear_arith);
    lemma_joined_full_blocks(bits, width, q);
    if bits.len() % width == 0 {
        assert(bs.take(q as int) =~= bs);
        assert(n * width - bits.len() == 0);
        assert(bits.subrange((q * width) as int, bits.len() as int) =~= Seq::<u8>::empty());
        assert(Seq::new(0, |i: int| 0u8) =~= Seq::<u8>::empty());
        assert(bits.subrange(0, (q * width) as int) =~= bits);
    } else {
        lemma_block_bounds(bits.len(), width, q);
        assert(bs.drop_last() =~= bs.take(q as int));
        assert(n * width == q * width + width) by (nonlinear_arith)
            requires
                n == q + 1,
        ;
    }
}

proof fn lemma_block_bounds(len: nat, width: nat, k: nat)
    requires
        width > 0,
        k < block_count(len, width),
    ensures
        k * width <= len,
        (k + 1) * width == k * width + width,
        (len % width == 0 || k + 1 < block_count(len, width)) ==> (k + 1) * width <= len,
        (len % width != 0 && k + 1 == block_count(len, width)) ==> len - k * width == len
            % width && len % width < width && k * width + width > len,
{
    lemma_fundamental_div_mod(len as int, width as int);
    let q = len / width;
    assert(k <= q);
    assert(k * width <= q * width) by (nonlinear_arith)
        requires
            k <= q,
    ;
    if len % width == 0 || k + 1 < block_count(len, width) {
        assert(k + 1 <= q);
        assert((k + 1) * width <= q * width) by (nonlinear_arith)
            requires
                k + 1 <= q,
        ;
    }
    assert((k + 1) * width == k * width + width) by (nonlinear_arith);
}

/// Cuts `bits` into blocks of `width` bits and inserts them into `blocks`
/// under the keys `1` to the block count. The last block, when the bits run
/// out before it is full, holds the remaining bits after zeros at its front.
pub fn segment_bits(bits: &Vec<u8>, width: usize, blocks: &mut HashMap<usize, Block>)
    requires
        width > 0,
    ensures
        blocks_inserted(old(blocks)@, final(blocks)@, bits@, width as nat),
{
    let bits_len = bits.len();
    let mut data_loss: usize = 0;
    let n_blocks: usize = if bits_len % width == 0 {
        bits_len / width
    } else {
        data_loss = bits_len % width;
        proof {
            lemma_fundamental_div_mod(bits_len as int, width as int);
            if width == 1 {
                assert(bits_len % 1 == 0);
            }
            if bits_len == 0 {
                assert(0nat % (width as nat) == 0);
            }
            assert(bits_len / width < bits_len) by (nonlinear_arith)
                requires
                    width > 1,
                    bits_len > 0,
                    bits_len == width * (bits_len / width) + bits_len % width,
                    bits_len % width >= 0,
            ;
        }
        bits_len / width + 1
    };
    let mut i_start: usize = 0;
    let mut k: usize = 0;
    while k < n_blocks
        invariant
            width > 0,
            bits_len == bits@.len(),
            n_blocks == block_count(bits_len as nat, width as nat),
            data_loss == bits_len % width,
            k <= n_blocks,
            i_start == (if k * width <= bits_len {
                k * width
            } else {
                bits_len as int
            }),
            blocks@.dom() == old(blocks)@.dom().union(Set::new(|id: usize| 1 <= id <= k)),
            forall|id: usize| 1 <= id <= k ==> is_block_of(#[trigger] blocks@[id], bits@, width as nat, id),
            forall|id: usize|
                #[trigger] old(blocks)@.contains_key(id) && !(1 <= id <= k) ==> blocks@[id] == old(
                    blocks,
                )@[id],
        decreases n_blocks - k,
    {
        let id = k + 1;
        proof {
            lemma_block_bounds(bits_len as nat, width as nat, k as nat);
        }
        let ghost start: int = k * width;
        assert(0 <= start) by (nonlinear_arith)
            requires
                start == k * width,
        ;
        assert(i_start == start);
        let mut block: VecDeque<u8> = VecDeque::with_capacity(width);
        if data_loss != 0 && id == n_blocks {
            let mut i: usize = 0;
            while i < width
                invariant
                    width > 0,
                    bits_len == bits@.len(),
                    start + width > bits_len,
                    0 <= start <= i_start <= bits_len,
                    i <= width,
                    i_start == (if i <= bits_len - start {
                        start + i
                    } else {
                        bits_len as int
                    }),
                    block@ == Seq::new((i - (i_start - start)) as nat, |x: int| 0u8) + bits@.subrange(
                        start,
                        i_start as int,
                    ),
                decreases width - i,
            {
                if i_start < bits_len {
                    block.push_back(bits[i_start]);
                    i_start += 1;
                    assert(block@ =~= Seq::new((i + 1 - (i_start - start)) as nat, |x: int| 0u8)
                        + bits@.subrange(start, i_start as int));
                } else {
                    block.push_front(0);
                    assert(block@ =~= Seq::new((i + 1 - (i_start - start)) as nat, |x: int| 0u8)
                        + bits@.subrange(start, i_start as int));
                }
                i += 1;
            }
            assert(block@ =~= block_bits(bits@, width as nat, k as nat));
        } else {
            let end = i_start + width;
            while i_start < end
                invariant
                    bits_len == bits@.len(),
                    end == start + width,
                    end <= bits_len,
                    0 <= start <= i_start <= end,
                    block@ == bits@.subrange(start, i_start as int),
                decreases end - i_start,
            {
                block.push_back(bits[i_start]);
                i_start += 1;
                assert(block@ =~= bits@.subrange(start, i_start as int));
            }
            assert(block@ =~= block_bits(bits@, width as nat, k as nat));
        }
        let block = <Block as BlockTrait>::new_block(block, id);
        blocks.insert(id, block);
        proof {
            assert((k + 1) * width == k * width + width) by (nonlinear_arith);
        }
        k += 1;
        assert(blocks@.dom() =~= old(blocks)@.dom().union(Set::new(|id: usize| 1 <= id <= k)));
    }
    assert(blocks@.dom() =~= old(blocks)@.dom().union(
        Set::new(|id: usize| 1 <= id <= block_count(bits@.len(), width as nat)),
    ));
}

} // verus!
