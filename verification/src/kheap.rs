use vstd::prelude::*;
use vstd::wrapping::usize_specs::{wrapping_add, wrapping_sub, wrapping_mul};
use vstd::arithmetic::div_mod::{lemma_div_is_ordered, lemma_div_is_ordered_by_denominator, lemma_fundamental_div_mod, lemma_fundamental_div_mod_converse, lemma_small_mod, lemma_mod_multiples_basic};

verus! {

/// Bytes taken by the header at the start of each heap block (a pointer and
/// two words on the 32-bit machine the kernel runs on).
pub const HEADER_SIZE: usize = 12;

/// One block of memory handed to the heap: where it starts, how many bytes
/// follow its header, and the unit of allocation, which is also the
/// alignment.  Units are counted from the block's address (the header and
/// the bitmap sit in the first ones), and every allocation starts on a unit
/// boundary: a block at an address aligned to its unit hands out aligned
/// addresses (see `lemma_malloc_alignment`).
#[derive(Clone, Copy, Debug, PartialEq, Eq, Structural)]
pub struct BlockMeta {
    pub addr: usize,
    pub size: usize,
    pub bsize: usize,
}

/// The number of units recorded in front of an allocation.
#[derive(Clone, Copy, Debug, PartialEq, Eq, Structural)]
pub struct LengthWord {
    pub addr: usize,
    pub need: u32,
}

/// The state of the kernel heap: its blocks, most recently added first, the
/// bitmap of each (one bit per unit, set when taken), and the length words
/// written in front of allocations (a word written at an address replaces the
/// one kept there), latest last.
#[verifier::ext_equal]
pub struct HeapView {
    pub metas: Seq<BlockMeta>,
    pub bitmaps: Seq<Seq<u8>>,
    pub words: Seq<LengthWord>,
}

/// The last length word written at address `a`.
pub open spec fn word_at(words: Seq<LengthWord>, a: usize) -> Option<u32>
    decreases words.len(),
{
    if words.len() == 0 {
        None
    } else if words.last().addr == a {
        Some(words.last().need)
    } else {
        word_at(words.drop_last(), a)
    }
}

/// The length words other than the one at address `a`.
pub open spec fn other_addr(a: usize) -> spec_fn(LengthWord) -> bool {
    |x: LengthWord| x.addr != a
}

/// Writing length word `w`: it replaces any word kept at the same address.
pub open spec fn write_word(words: Seq<LengthWord>, w: LengthWord) -> Seq<LengthWord> {
    words.filter(other_addr(w.addr)).push(w)
}

proof fn lemma_word_at_filter(words: Seq<LengthWord>, w: usize, a: usize)
    requires
        a != w,
    ensures
        word_at(words.filter(other_addr(w)), a) == word_at(words, a),
    decreases words.len(),
{
    reveal(Seq::filter);
    if words.len() > 0 {
        lemma_word_at_filter(words.drop_last(), w, a);
        let sub = words.drop_last().filter(other_addr(w));
        if other_addr(w)(words.last()) {
            assert(sub.push(words.last()).drop_last() =~= sub);
        }
    }
}

/// Reading back a written length word: the word written at its address, and
/// every other address as before.
pub proof fn lemma_word_at_write(words: Seq<LengthWord>, w: LengthWord, a: usize)
    ensures
        word_at(write_word(words, w), a) == if a == w.addr {
            Some(w.need)
        } else {
            word_at(words, a)
        },
{
    let f = words.filter(other_addr(w.addr));
    assert(f.push(w).drop_last() =~= f);
    if a != w.addr {
        lemma_word_at_filter(words, w.addr, a);
    }
}

/// Whether unit `k` is taken.
pub open spec fn bit_set(bm: Seq<u8>, k: int) -> bool {
    bm[k / 8] & (1u8 << ((k % 8) as u8)) != 0
}

/// Marks unit `k` as taken.
pub open spec fn set_bit(bm: Seq<u8>, k: int) -> Seq<u8> {
    bm.update(k / 8, bm[k / 8] | (1u8 << ((k % 8) as u8)))
}

/// Marks unit `k` as free.
pub open spec fn clear_bit(bm: Seq<u8>, k: int) -> Seq<u8> {
    bm.update(k / 8, bm[k / 8] & !(1u8 << ((k % 8) as u8)))
}

/// Marks the `n` units `x`, `x - 1`, ..., `x - n + 1` as taken.
pub open spec fn set_bits_down(bm: Seq<u8>, x: int, n: int) -> Seq<u8>
    decreases n,
{
    if n <= 0 {
        bm
    } else {
        set_bits_down(set_bit(bm, x), x - 1, n - 1)
    }
}

/// Marks the `n` units `lo`, `lo + 1`, ..., `lo + n - 1` as free.
pub open spec fn clear_bits_up(bm: Seq<u8>, lo: int, n: int) -> Seq<u8>
    decreases n,
{
    if n <= 0 {
        bm
    } else {
        clear_bits_up(clear_bit(bm, lo), lo + 1, n - 1)
    }
}

/// A byte with its low `n` bits set (`n < 8`).
pub open spec fn low_mask(n: int) -> u8 {
    if n <= 0 {
        0
    } else if n == 1 {
        1
    } else if n == 2 {
        3
    } else if n == 3 {
        7
    } else if n == 4 {
        15
    } else if n == 5 {
        31
    } else if n == 6 {
        63
    } else {
        127
    }
}

/// Bytes of bitmap kept after the header when a block of `size` bytes is
/// added with unit `bsize`: one bit per unit, plus one byte.
pub open spec fn bitmap_len(size: int, bsize: int) -> int {
    (size / bsize) / 8 + 1
}

/// The bitmap of a new block: the first `(units / 8) / 8` bytes are full, the
/// next one has its low `(units / 8) % 8` bits set, the rest are zero.  (So
/// one unit is marked for each byte of the bitmap.)
pub open spec fn initial_bitmap(size: int, bsize: int) -> Seq<u8> {
    let bytes_map = (size / bsize) / 8;
    Seq::new(
        (bytes_map + 1) as nat,
        |k: int|
            if k < bytes_map / 8 {
                0xffu8
            } else if k == bytes_map / 8 {
                low_mask(bytes_map % 8)
            } else {
                0u8
            },
    )
}

/// Units needed for `size` bytes.
pub open spec fn units_needed(size: int, bsize: int) -> int {
    size / bsize + if size % bsize == 0 {
        0int
    } else {
        1int
    }
}

/// The `need` units ending at unit `x` are all free.
pub open spec fn is_free_run(bm: Seq<u8>, x: int, need: int) -> bool {
    x + 1 >= need && forall|k: int| x - need < k <= x ==> !#[trigger] bit_set(bm, k)
}

/// The first unit, from `from` on and below `units`, that ends a free run of `need` units.
pub open spec fn first_run(bm: Seq<u8>, need: int, units: int, from: int) -> Option<int>
    decreases units - from,
{
    if from >= units {
        None
    } else if is_free_run(bm, from, need) {
        Some(from)
    } else {
        first_run(bm, need, units, from + 1)
    }
}

/// The length of the free run counted when the search stops at `x`: `need`,
/// or, for `need == 0`, whether unit `x` itself is free.
pub open spec fn counted_run(bm: Seq<u8>, x: int, need: int) -> int {
    if need == 0 {
        if bit_set(bm, x) {
            0
        } else {
            1
        }
    } else {
        need
    }
}

/// Searching block `m` with bitmap `bm` for room for `size` bytes: the new
/// bitmap (the run marked when `mark`), the unit before the run (0 when
/// none is found), and the units needed.
pub open spec fn find_spec(m: BlockMeta, bm: Seq<u8>, size: usize, mark: bool) -> (Seq<u8>, usize, usize) {
    let need = units_needed(size as int, m.bsize as int);
    match first_run(bm, need, (m.size / m.bsize) as int, 0) {
        None => (bm, 0, need as usize),
        Some(x) => {
            let n = counted_run(bm, x, need);
            (
                if mark {
                    set_bits_down(bm, x, n)
                } else {
                    bm
                },
                wrapping_sub(x as usize, n as usize),
                need as usize,
            )
        },
    }
}

/// Units put in front of an allocation's data to hold its 4-byte length
/// word: the fewest whole units of `b` bytes that hold 4 bytes.
pub open spec fn lead_units(b: int) -> int {
    if b >= 4 {
        1
    } else if b == 1 {
        4
    } else {
        2
    }
}

/// Bytes in front of an allocation's data: `lead_units` whole units, with
/// the length word in their last 4 bytes.
pub open spec fn lead_bytes(b: usize) -> usize {
    (b * lead_units(b as int)) as usize
}

/// Where unit `x` of block `m` starts: units are counted from the block's
/// address (unit 0 holds the header).
pub open spec fn unit_addr(m: BlockMeta, x: usize) -> usize {
    wrapping_add(m.addr, wrapping_mul(m.bsize, x))
}

/// Allocating `size` bytes, trying the blocks from the `k`-th on: the new
/// heap and the address handed out (0 when none has room).  An allocation
/// takes a run of whole units: the first `lead_units` hold its length word
/// (in their last 4 bytes), the data starts on the unit boundary after them.
pub open spec fn malloc_from(h: HeapView, size: usize, k: int) -> (HeapView, usize)
    decreases h.metas.len() - k,
{
    if k < 0 || k >= h.metas.len() {
        (h, 0)
    } else {
        let m = h.metas[k];
        let lead = lead_bytes(m.bsize);
        if m.size >= wrapping_add(size, lead) {
            let (bm2, x, need) = find_spec(m, h.bitmaps[k], wrapping_add(size, lead), true);
            let h2 = HeapView { bitmaps: h.bitmaps.update(k, bm2), ..h };
            if x != 0 {
                let ret = wrapping_add(unit_addr(m, wrapping_add(x, 1)), (lead - 4) as usize);
                (
                    HeapView { words: write_word(h2.words, LengthWord { addr: ret, need: need as u32 }), ..h2 },
                    wrapping_add(ret, 4),
                )
            } else {
                malloc_from(h2, size, k + 1)
            }
        } else {
            malloc_from(h, size, k + 1)
        }
    }
}

/// Allocating `size` bytes from the blocks there are.
pub open spec fn malloc_spec(h: HeapView, size: usize) -> (HeapView, usize) {
    malloc_from(h, size, 0)
}

/// Whether the allocation word at `mem` lies inside block `m`.
pub open spec fn in_block(m: BlockMeta, mem: usize) -> bool {
    mem > m.addr && mem < wrapping_add(m.addr, m.size)
}

/// The first unit freed in block `m` for the allocation whose length word is
/// at `mem`: the unit where its leading units start.
pub open spec fn free_first(m: BlockMeta, mem: usize) -> int {
    (wrapping_sub(wrapping_sub(wrapping_add(mem, 4), lead_bytes(m.bsize)), m.addr) / m.bsize) as int
}

/// Freeing the allocation whose length word is at `mem`, from the `k`-th block on.
pub open spec fn free_from(h: HeapView, mem: usize, k: int) -> HeapView
    decreases h.metas.len() - k,
{
    if k < 0 || k >= h.metas.len() {
        h
    } else {
        let m = h.metas[k];
        if in_block(m, mem) {
            let units = word_at(h.words, mem).unwrap();
            let bm2 = clear_bits_up(h.bitmaps[k], free_first(m, mem), units as int);
            free_from(HeapView { bitmaps: h.bitmaps.update(k, bm2), ..h }, mem, k + 1)
        } else {
            free_from(h, mem, k + 1)
        }
    }
}

/// Freeing the allocation at `ptr` (nothing for 0).
pub open spec fn free_spec(h: HeapView, ptr: usize) -> HeapView {
    if ptr == 0 {
        h
    } else {
        free_from(h, wrapping_sub(ptr, 4), 0)
    }
}

/// Freeing `ptr` stays inside the model: in every block that holds its length
/// word, that word was written, is at least 1, and names units of the bitmap.
pub open spec fn free_ok(h: HeapView, ptr: usize) -> bool {
    ptr == 0 || forall|k: int|
        0 <= k < h.metas.len() && #[trigger] in_block(h.metas[k], wrapping_sub(ptr, 4)) ==> {
            let mem = wrapping_sub(ptr, 4);
            let units = word_at(h.words, mem);
            &&& units is Some
            &&& units.unwrap() >= 1
            &&& free_first(h.metas[k], mem) + units.unwrap() <= 8 * h.bitmaps[k].len()
        }
}

/// Adding a block of `size` bytes at `addr` with unit `bsize`: it becomes the
/// head of the list.  A block at address 0 is the empty list.
pub open spec fn add_block_spec(h: HeapView, addr: usize, size: usize, bsize: usize) -> HeapView {
    if addr == 0 {
        HeapView { metas: Seq::empty(), bitmaps: Seq::empty(), ..h }
    } else {
        HeapView {
            metas: seq![BlockMeta { addr, size: (size - HEADER_SIZE) as usize, bsize }] + h.metas,
            bitmaps: seq![initial_bitmap(size as int, bsize as int)] + h.bitmaps,
            ..h
        }
    }
}

/// Allocating, and when no block has room, adding a block of the head's size
/// right after the head and trying once more.
pub open spec fn malloc_internal_spec(h: HeapView, len: usize) -> (HeapView, usize) {
    let (h1, r) = malloc_spec(h, len);
    if r == 0 {
        if h1.metas.len() == 0 {
            (h1, 0)
        } else {
            let head = h1.metas[0];
            let size = (head.size + HEADER_SIZE) as usize;
            let newblock = wrapping_add(wrapping_add(head.addr, size), 1);
            malloc_spec(add_block_spec(h1, newblock, size, head.bsize), len)
        }
    } else {
        (h1, r)
    }
}

/// A copy of `len` bytes from `from` to `to`, which the memory itself must do.
#[derive(Clone, Copy, Debug, PartialEq, Eq, Structural)]
pub struct MemCopy {
    pub to: usize,
    pub from: usize,
    pub len: usize,
}

/// Reallocating `ptr` to `sz` bytes, from the `k`-th block on.  The old
/// length (in units) is read from the length word only once a block that
/// holds it is found; a pointer outside every block gives 0.
pub open spec fn realloc_from(h: HeapView, ptr: usize, sz: usize, k: int) -> (HeapView, usize, Option<MemCopy>)
    decreases h.metas.len() - k,
{
    if k < 0 || k >= h.metas.len() {
        (h, 0, None)
    } else {
        let m = h.metas[k];
        if in_block(m, wrapping_sub(ptr, 4)) {
            let old_len = word_at(h.words, wrapping_sub(ptr, 4)).unwrap();
            if wrapping_add(sz, lead_bytes(m.bsize)) <= wrapping_mul(old_len as usize, m.bsize) {
                (h, ptr, None)
            } else {
                let (h1, ret) = malloc_internal_spec(h, sz);
                if ret == 0 {
                    (free_spec(h1, ptr), 0, None)
                } else {
                    (free_spec(h1, ptr), ret, Some(MemCopy { to: ret, from: ptr, len: wrapping_sub(wrapping_mul(m.bsize, old_len as usize), lead_bytes(m.bsize)) }))
                }
            }
        } else {
            realloc_from(h, ptr, sz, k + 1)
        }
    }
}

/// Reallocating `ptr` to `sz` bytes: the new heap, the new address, and the
/// copy of the contents that goes with a move.
pub open spec fn realloc_spec(h: HeapView, ptr: usize, sz: usize) -> (HeapView, usize, Option<MemCopy>) {
    if ptr == 0 {
        let (h1, r) = malloc_internal_spec(h, sz);
        (h1, r, None)
    } else if sz == 0 {
        (h, 0, None)
    } else {
        realloc_from(h, ptr, sz, 0)
    }
}

/// Whether reallocating from the `k`-th block on stays inside the model.
pub open spec fn realloc_ok_from(h: HeapView, ptr: usize, sz: usize, k: int) -> bool
    decreases h.metas.len() - k,
{
    if k < 0 || k >= h.metas.len() {
        true
    } else {
        let m = h.metas[k];
        if in_block(m, wrapping_sub(ptr, 4)) {
            let old = word_at(h.words, wrapping_sub(ptr, 4));
            old is Some && (wrapping_add(sz, lead_bytes(m.bsize)) <= wrapping_mul(old.unwrap() as usize, m.bsize)
                || free_ok(malloc_internal_spec(h, sz).0, ptr))
        } else {
            realloc_ok_from(h, ptr, sz, k + 1)
        }
    }
}

/// Reallocating stays inside the model: when a block holds the length word
/// in front of `ptr`, that word was written, and the old allocation can be
/// freed after the new one is made.  (A pointer outside every block asks
/// nothing: it gives 0.)
pub open spec fn realloc_ok(h: HeapView, ptr: usize, sz: usize) -> bool {
    ptr == 0 || sz == 0 || realloc_ok_from(h, ptr, sz, 0)
}

/// A block's bookkeeping is consistent: a positive unit, a size that fits
/// with its header, a non-null address, and a bitmap of the length that
/// adding the block gave it.
pub open spec fn block_wf(m: BlockMeta, bm: Seq<u8>) -> bool {
    &&& m.bsize > 0
    &&& m.size + HEADER_SIZE <= usize::MAX
    &&& m.addr != 0
    &&& bm.len() == bitmap_len(m.size + HEADER_SIZE, m.bsize as int)
}

/// Every block of the heap is consistent.
pub open spec fn heap_wf(h: HeapView) -> bool {
    &&& h.metas.len() == h.bitmaps.len()
    &&& forall|k: int| 0 <= k < h.metas.len() ==> #[trigger] block_wf(h.metas[k], h.bitmaps[k])
}

/// Every unit of a block has its bit in the bitmap.
proof fn lemma_units_in_bitmap(m: BlockMeta, bm: Seq<u8>, x: int)
    requires
        block_wf(m, bm),
        0 <= x < m.size / m.bsize,
    ensures
        0 <= x / 8 < bm.len(),
{
    lemma_div_is_ordered(m.size as int, m.size + HEADER_SIZE, m.bsize as int);
    lemma_div_is_ordered(x, (m.size / m.bsize) as int, 8);
}

proof fn lemma_set_bits_down_len(bm: Seq<u8>, x: int, n: int)
    requires
        n <= x + 1,
        x < 8 * bm.len(),
    ensures
        set_bits_down(bm, x, n).len() == bm.len(),
    decreases n,
{
    if n > 0 {
        lemma_set_bits_down_len(set_bit(bm, x), x - 1, n - 1);
    }
}

proof fn lemma_clear_bits_up_len(bm: Seq<u8>, lo: int, n: int)
    requires
        0 <= lo,
        lo + n <= 8 * bm.len(),
    ensures
        clear_bits_up(bm, lo, n).len() == bm.len(),
    decreases n,
{
    if n > 0 {
        lemma_clear_bits_up_len(clear_bit(bm, lo), lo + 1, n - 1);
    }
}

/// Writes length word `w`, replacing any word kept at the same address.
fn write_length_word(words: &mut Vec<LengthWord>, w: LengthWord)
    ensures
        final(words)@ == write_word(old(words)@, w),
{
    let ghost ws = words@;
    let mut out: Vec<LengthWord> = Vec::new();
    let mut i: usize = 0;
    while i < words.len()
        invariant
            words@ == ws,
            i <= ws.len(),
            out@ == ws.take(i as int).filter(other_addr(w.addr)),
        decreases words.len() - i,
    {
        proof {
            reveal(Seq::filter);
            assert(ws.take(i as int + 1).drop_last() =~= ws.take(i as int));
            assert(ws.take(i as int + 1).last() == ws[i as int]);
        }
        let x = words[i];
        if x.addr != w.addr {
            out.push(x);
        }
        i = i + 1;
    }
    assert(ws.take(ws.len() as int) =~= ws);
    out.push(w);
    *words = out;
}

/// Bytes in front of an allocation's data in a block with unit `b`.
fn lead_bytes_exec(b: usize) -> (l: usize)
    requires
        b > 0,
    ensures
        l == lead_bytes(b),
        4 <= l,
{
    if b >= 4 {
        b
    } else if b == 1 {
        4
    } else {
        2 * b
    }
}

/// Searches block `m` (bitmap `bm`) for a free run of units for `size`
/// bytes, marking it when `mark`; gives the unit before the run (0 when
/// none is found) and the units needed.
fn kheap_find_block(size: usize, m: BlockMeta, bm: &mut Vec<u8>, mark: bool) -> (r: (usize, usize))
    requires
        block_wf(m, old(bm)@),
    ensures
        (final(bm)@, r.0, r.1) == find_spec(m, old(bm)@, size, mark),
        final(bm).len() == old(bm).len(),
{
    let ghost bm0 = bm@;
    proof {
        if size % m.bsize != 0 {
            lemma_div_is_ordered_by_denominator(size as int, 2, m.bsize as int);
        }
    }
    let need: usize = size / m.bsize + if size % m.bsize == 0 {
        0
    } else {
        1
    };
    let units: usize = m.size / m.bsize;
    let mut free_bits: usize = 0;
    let mut x: usize = 0;
    while x < units
        invariant
            bm@ == bm0,
            bm0 == old(bm)@,
            block_wf(m, bm0),
            units == m.size / m.bsize,
            need == units_needed(size as int, m.bsize as int),
            x <= units,
            x == 0 ==> free_bits == 0,
            x > 0 ==> free_bits < need,
            free_bits <= x,
            forall|k: int| x - free_bits <= k < x ==> !#[trigger] bit_set(bm0, k),
            x - free_bits > 0 ==> bit_set(bm0, x - free_bits - 1),
            first_run(bm0, need as int, units as int, 0) == first_run(bm0, need as int, units as int, x as int),
        decreases units - x,
    {
        proof {
            lemma_units_in_bitmap(m, bm0, x as int);
        }
        let y = bm[x / 8];
        let a = (x % 8) as u8;
        let is_free = y & (1u8 << a) == 0;
        let ghost old_fb = free_bits;
        if is_free {
            free_bits = free_bits + 1;
        } else {
            free_bits = 0;
        }
        if free_bits >= need {
            proof {
                assert(is_free_run(bm0, x as int, need as int));
                assert(first_run(bm0, need as int, units as int, x as int) == Some(x as int));
                assert(counted_run(bm0, x as int, need as int) == free_bits);
            }
            if mark {
                let mut xx: usize = x;
                let mut free: usize = free_bits;
                while free > 0
                    invariant
                        free <= xx + 1,
                        free > 0 ==> xx <= x,
                        x < units,
                        block_wf(m, bm0),
                        units == m.size / m.bsize,
                        bm.len() == bm0.len(),
                        free > 0 ==> set_bits_down(bm@, xx as int, free as int) == set_bits_down(
                            bm0,
                            x as int,
                            free_bits as int,
                        ),
                        free == 0 ==> bm@ == set_bits_down(bm0, x as int, free_bits as int),
                    decreases free,
                {
                    proof {
                        lemma_units_in_bitmap(m, bm0, xx as int);
                    }
                    let i = xx / 8;
                    let ghost before = bm@;
                    let b = bm[i] | (1u8 << ((xx % 8) as u8));
                    bm.set(i, b);
                    proof {
                        assert(bm@ == set_bit(before, xx as int));
                        assert(set_bits_down(before, xx as int, free as int) == set_bits_down(
                            bm@,
                            xx - 1,
                            free - 1,
                        ));
                    }
                    xx = xx.wrapping_sub(1);
                    free = free - 1;
                }
            }
            return (x.wrapping_sub(free_bits), need);
        }
        proof {
            assert(!is_free_run(bm0, x as int, need as int)) by {
                if is_free_run(bm0, x as int, need as int) {
                    if is_free {
                        if x - old_fb > 0 {
                            assert(!bit_set(bm0, x - old_fb - 1));
                        }
                    } else {
                        assert(!bit_set(bm0, x as int));
                    }
                }
            }
        }
        x = x + 1;
    }
    (0, need)
}

/// The kernel heap.  Its bookkeeping (the blocks' headers and bitmaps, and
/// the length words in front of allocations) is kept here rather than in
/// the memory it hands out; what the allocations hold is not part of it.
pub struct KHeap {
    metas: Vec<BlockMeta>,
    bitmaps: Vec<Vec<u8>>,
    words: Vec<LengthWord>,
}

impl View for KHeap {
    type V = HeapView;

    closed spec fn view(&self) -> HeapView {
        HeapView {
            metas: self.metas@,
            bitmaps: self.bitmaps@.map_values(|v: Vec<u8>| v@),
            words: self.words@,
        }
    }
}

proof fn lemma_bitmaps_replace(v: Seq<Vec<u8>>, k: int, b: Vec<u8>)
    requires
        0 <= k < v.len(),
    ensures
        v.remove(k).insert(k, b).map_values(|w: Vec<u8>| w@) == v.map_values(|w: Vec<u8>| w@).update(k, b@),
{
    assert(v.remove(k).insert(k, b).map_values(|w: Vec<u8>| w@) =~= v.map_values(|w: Vec<u8>| w@).update(k, b@));
}

impl KHeap {
    /// A heap with no blocks.
    pub fn new() -> (h: KHeap)
        ensures
            h@.metas.len() == 0,
            h@.bitmaps.len() == 0,
            h@.words.len() == 0,
            heap_wf(h@),
    {
        let h = KHeap { metas: Vec::new(), bitmaps: Vec::new(), words: Vec::new() };
        assert(h@.bitmaps =~= Seq::<Seq<u8>>::empty());
        h
    }

    /// Number of blocks in the list.
    pub fn block_count(&self) -> (n: usize)
        ensures
            n == self@.metas.len(),
    {
        self.metas.len()
    }

    /// Block `k` of the list (0 is the head).
    pub fn block(&self, k: usize) -> (m: BlockMeta)
        requires
            k < self@.metas.len(),
        ensures
            m == self@.metas[k as int],
    {
        self.metas[k]
    }

    /// Whether unit `x` of block `k` is taken.
    pub fn is_unit_taken(&self, k: usize, x: usize) -> (b: bool)
        requires
            heap_wf(self@),
            k < self@.metas.len(),
            x < self@.metas[k as int].size / self@.metas[k as int].bsize,
        ensures
            b == bit_set(self@.bitmaps[k as int], x as int),
    {
        proof {
            assert(block_wf(self@.metas[k as int], self@.bitmaps[k as int]));
            lemma_units_in_bitmap(self@.metas[k as int], self@.bitmaps[k as int], x as int);
        }
        let bm = &self.bitmaps[k];
        bm[x / 8] & (1u8 << ((x % 8) as u8)) != 0
    }

    /// The last length word written at `a`.
    pub fn length_word(&self, a: usize) -> (w: Option<u32>)
        ensures
            w == word_at(self@.words, a),
    {
        let mut i = self.words.len();
        assert(self@.words.subrange(0, i as int) =~= self@.words);
        while i > 0
            invariant
                i <= self.words.len(),
                word_at(self@.words, a) == word_at(self@.words.subrange(0, i as int), a),
            decreases i,
        {
            let w = self.words[i - 1];
            proof {
                assert(self@.words.subrange(0, i as int).drop_last() =~= self@.words.subrange(0, i - 1));
            }
            if w.addr == a {
                return Some(w.need);
            }
            i = i - 1;
        }
        None
    }
}

/// The bitmap of a new block of `size` bytes with unit `bsize`.
fn new_bitmap(size: usize, bsize: usize) -> (bm: Vec<u8>)
    requires
        bsize > 0,
    ensures
        bm@ == initial_bitmap(size as int, bsize as int),
{
    let bytes_map: usize = (size / bsize) / 8;
    let full: usize = bytes_map / 8;
    let r = bytes_map % 8;
    let mask: u8 = if r == 0 {
        0
    } else if r == 1 {
        1
    } else if r == 2 {
        3
    } else if r == 3 {
        7
    } else if r == 4 {
        15
    } else if r == 5 {
        31
    } else if r == 6 {
        63
    } else {
        127
    };
    let mut bm: Vec<u8> = Vec::new();
    let mut k: usize = 0;
    let n: usize = bytes_map + 1;
    while k < n
        invariant
            bm.len() == k,
            k <= n,
            n == bytes_map + 1,
            bytes_map == (size / bsize) / 8,
            full == bytes_map / 8,
            mask == low_mask((bytes_map % 8) as int),
            forall|j: int| 0 <= j < k ==> #[trigger] bm@[j] == initial_bitmap(size as int, bsize as int)[j],
        decreases n - k,
    {
        if k < full {
            bm.push(0xff);
        } else if k == full {
            bm.push(mask);
        } else {
            bm.push(0);
        }
        k = k + 1;
    }
    assert(bm@ =~= initial_bitmap(size as int, bsize as int));
    bm
}

/// Adds a block of `size` bytes at `addr` to the heap, carved into units of
/// `bsize` bytes; its header and bitmap come first, and the units they take
/// are marked.  The block becomes the head of the list.
pub fn kheap_add_block(heap: &mut KHeap, addr: usize, size: usize, bsize: usize)
    requires
        heap_wf(old(heap)@),
        size >= HEADER_SIZE,
        bsize > 0,
    ensures
        final(heap)@ == add_block_spec(old(heap)@, addr, size, bsize),
        heap_wf(final(heap)@),
{
    if addr == 0 {
        heap.metas = Vec::new();
        heap.bitmaps = Vec::new();
        assert(heap@ =~= add_block_spec(old(heap)@, addr, size, bsize));
        return;
    }
    let bm = new_bitmap(size, bsize);
    let ghost before = heap@;
    heap.metas.insert(0, BlockMeta { addr, size: size - HEADER_SIZE, bsize });
    heap.bitmaps.insert(0, bm);
    proof {
        assert(heap@.metas =~= add_block_spec(before, addr, size, bsize).metas);
        assert(heap@.bitmaps =~= add_block_spec(before, addr, size, bsize).bitmaps);
        assert(heap@ =~= add_block_spec(before, addr, size, bsize));
        assert forall|k: int| 0 <= k < heap@.metas.len() implies #[trigger] block_wf(heap@.metas[k], heap@.bitmaps[k]) by {
            if k > 0 {
                assert(heap@.metas[k] == before.metas[k - 1]);
                assert(heap@.bitmaps[k] == before.bitmaps[k - 1]);
                assert(block_wf(before.metas[k - 1], before.bitmaps[k - 1]));
            }
        }
    }
}

/// Allocates `size` bytes: the first block (from the head) that is large
/// enough and has a free run of units for the bytes plus the leading units
/// (the fewest whole units that hold a 4-byte length word) marks that run.
/// The data starts on the unit boundary after the leading units, and the
/// length word (the units taken) sits in the 4 bytes just before it.  0 when
/// no block has room.
pub fn kheap_malloc(heap: &mut KHeap, size: usize) -> (r: usize)
    requires
        heap_wf(old(heap)@),
    ensures
        (final(heap)@, r) == malloc_spec(old(heap)@, size),
        heap_wf(final(heap)@),
{
    let mut k: usize = 0;
    while k < heap.metas.len()
        invariant
            heap_wf(heap@),
            malloc_from(heap@, size, k as int) == malloc_spec(old(heap)@, size),
        decreases heap.metas.len() - k,
    {
        let m = heap.metas[k];
        proof {
            assert(block_wf(heap@.metas[k as int], heap@.bitmaps[k as int]));
        }
        let lead = lead_bytes_exec(m.bsize);
        let want = size.wrapping_add(lead);
        if m.size >= want {
            let ghost h = heap@;
            let ghost raw = heap.bitmaps@;
            let mut bm = heap.bitmaps.remove(k);
            let (x, need) = kheap_find_block(want, m, &mut bm, true);
            let ghost bml = bm@;
            proof {
                lemma_bitmaps_replace(raw, k as int, bm);
            }
            heap.bitmaps.insert(k, bm);
            let ghost h2 = HeapView { bitmaps: h.bitmaps.update(k as int, bml), ..h };
            proof {
                assert(heap@ =~= h2);
                assert forall|j: int| 0 <= j < heap@.metas.len() implies #[trigger] block_wf(heap@.metas[j], heap@.bitmaps[j]) by {
                    assert(block_wf(h.metas[j], h.bitmaps[j]));
                }
            }
            if x != 0 {
                let start = m.addr.wrapping_add(m.bsize.wrapping_mul(x.wrapping_add(1)));
                let ret = start.wrapping_add(lead - 4);
                write_length_word(&mut heap.words, LengthWord { addr: ret, need: need as u32 });
                proof {
                    assert(heap@ =~= HeapView { words: write_word(h2.words, LengthWord { addr: ret, need: need as u32 }), ..h2 });
                    assert forall|j: int| 0 <= j < heap@.metas.len() implies #[trigger] block_wf(heap@.metas[j], heap@.bitmaps[j]) by {
                        assert(block_wf(h2.metas[j], h2.bitmaps[j]));
                    }
                }
                return ret.wrapping_add(4);
            }
        }
        k = k + 1;
    }
    0
}

/// Frees the allocation at `ptr` (nothing for 0): in each block that holds
/// its length word, the units it names, from the start of its leading units
/// on, are marked free.
pub fn kheap_free(heap: &mut KHeap, ptr: usize)
    requires
        heap_wf(old(heap)@),
        free_ok(old(heap)@, ptr),
    ensures
        final(heap)@ == free_spec(old(heap)@, ptr),
        heap_wf(final(heap)@),
{
    if ptr == 0 {
        return;
    }
    let mem = ptr.wrapping_sub(4);
    let mut k: usize = 0;
    while k < heap.metas.len()
        invariant
            heap_wf(heap@),
            mem == wrapping_sub(ptr, 4),
            ptr != 0,
            free_ok(heap@, ptr),
            heap@.metas == old(heap)@.metas,
            heap@.words == old(heap)@.words,
            free_from(heap@, mem, k as int) == free_spec(old(heap)@, ptr),
        decreases heap.metas.len() - k,
    {
        let m = heap.metas[k];
        if mem > m.addr && mem < m.addr.wrapping_add(m.size) {
            let ghost h = heap@;
            proof {
                assert(in_block(h.metas[k as int], mem));
                assert(block_wf(h.metas[k as int], h.bitmaps[k as int]));
            }
            let units = heap.length_word(mem).unwrap();
            let lead = lead_bytes_exec(m.bsize);
            let first = mem.wrapping_add(4).wrapping_sub(lead).wrapping_sub(m.addr) / m.bsize;
            assert(first as int == free_first(heap@.metas[k as int], mem));
            let ghost raw = heap.bitmaps@;
            let mut bm = heap.bitmaps.remove(k);
            let ghost bm0 = bm@;
            let n = units as u128;
            let mut i: u128 = 0;
            while i < n
                invariant
                    i <= n,
                    first as int + n <= 8 * bm0.len(),
                    bm.len() == bm0.len(),
                    clear_bits_up(bm@, first + i, n - i) == clear_bits_up(bm0, first as int, n as int),
                decreases n - i,
            {
                let idx: u128 = first as u128 + i;
                let ghost before = bm@;
                let byte = (idx / 8) as usize;
                let b = bm[byte] & !(1u8 << ((idx % 8) as u8));
                bm.set(byte, b);
                proof {
                    assert(bm@ == clear_bit(before, idx as int));
                    assert(clear_bits_up(before, idx as int, n - i) == clear_bits_up(bm@, idx + 1, n - i - 1));
                }
                i = i + 1;
            }
            let ghost bml = bm@;
            proof {
                lemma_bitmaps_replace(raw, k as int, bm);
            }
            heap.bitmaps.insert(k, bm);
            proof {
                let h2 = HeapView { bitmaps: h.bitmaps.update(k as int, bml), ..h };
                assert(heap@ =~= h2);
                assert forall|j: int| 0 <= j < heap@.metas.len() implies #[trigger] block_wf(heap@.metas[j], heap@.bitmaps[j]) by {
                    assert(block_wf(h.metas[j], h.bitmaps[j]));
                }
            }
        }
        k = k + 1;
    }
}

/// Allocates `len` bytes; when no block has room, adds a block as large as
/// the head right after it (with the head's unit) and tries once more.
pub fn kheap_malloc_internal(heap: &mut KHeap, len: usize) -> (r: usize)
    requires
        heap_wf(old(heap)@),
    ensures
        (final(heap)@, r) == malloc_internal_spec(old(heap)@, len),
        heap_wf(final(heap)@),
{
    let ret = kheap_malloc(heap, len);
    if ret == 0 {
        if heap.metas.len() == 0 {
            return 0;
        }
        let head = heap.metas[0];
        proof {
            assert(block_wf(heap@.metas[0], heap@.bitmaps[0]));
        }
        let size = head.size + HEADER_SIZE;
        let newblock = head.addr.wrapping_add(size).wrapping_add(1);
        kheap_add_block(heap, newblock, size, head.bsize);
        return kheap_malloc(heap, len);
    }
    ret
}

/// Reallocates the allocation at `ptr` to `sz` bytes.  A null `ptr` is a
/// fresh allocation; a size of 0 gives 0 (and keeps the allocation).  When
/// the allocation's units already hold `sz` bytes and its leading units, it
/// stays; otherwise a new one is made, the old contents (all the data bytes
/// its units hold) are to be copied (the returned copy), and the old one is
/// freed.  When no room is found the
/// old allocation is freed and 0 returned.  A pointer whose length word lies
/// in no block gives 0 and leaves the heap as it was.
pub fn kheap_realloc(heap: &mut KHeap, ptr: usize, sz: usize) -> (r: (usize, Option<MemCopy>))
    requires
        heap_wf(old(heap)@),
        realloc_ok(old(heap)@, ptr, sz),
    ensures
        (final(heap)@, r.0, r.1) == realloc_spec(old(heap)@, ptr, sz),
        heap_wf(final(heap)@),
{
    if ptr == 0 {
        let r = kheap_malloc_internal(heap, sz);
        return (r, None);
    }
    if sz == 0 {
        return (0, None);
    }
    let mem = ptr.wrapping_sub(4);
    let mut k: usize = 0;
    while k < heap.metas.len()
        invariant
            heap_wf(heap@),
            heap@ == old(heap)@,
            ptr != 0,
            sz != 0,
            mem == wrapping_sub(ptr, 4),
            realloc_from(heap@, ptr, sz, k as int) == realloc_spec(old(heap)@, ptr, sz),
            realloc_ok_from(heap@, ptr, sz, k as int),
        decreases heap.metas.len() - k,
    {
        let m = heap.metas[k];
        if mem > m.addr && mem < m.addr.wrapping_add(m.size) {
            let old_len = heap.length_word(mem).unwrap();
            proof {
                assert(block_wf(heap@.metas[k as int], heap@.bitmaps[k as int]));
            }
            let lead = lead_bytes_exec(m.bsize);
            if sz.wrapping_add(lead) <= (old_len as usize).wrapping_mul(m.bsize) {
                return (ptr, None);
            }
            let ret = kheap_malloc_internal(heap, sz);
            if ret == 0 {
                kheap_free(heap, ptr);
                return (0, None);
            }
            let copy = MemCopy { to: ret, from: ptr, len: m.bsize.wrapping_mul(old_len as usize).wrapping_sub(lead) };
            kheap_free(heap, ptr);
            return (ret, Some(copy));
        }
        k = k + 1;
    }
    (0, None)
}

/// Whether freeing `ptr` stays inside the model (see [`free_ok`]); the
/// kernel tests this before [`free`] and halts when it fails.
pub fn can_free(heap: &KHeap, ptr: usize) -> (b: bool)
    requires
        heap_wf(heap@),
    ensures
        b == free_ok(heap@, ptr),
{
    if ptr == 0 {
        return true;
    }
    let mem = ptr.wrapping_sub(4);
    let mut k: usize = 0;
    while k < heap.metas.len()
        invariant
            heap_wf(heap@),
            ptr != 0,
            mem == wrapping_sub(ptr, 4),
            k <= heap@.metas.len(),
            forall|j: int| 0 <= j < k && #[trigger] in_block(heap@.metas[j], mem) ==> {
                let units = word_at(heap@.words, mem);
                &&& units is Some
                &&& units.unwrap() >= 1
                &&& free_first(heap@.metas[j], mem) + units.unwrap() <= 8 * heap@.bitmaps[j].len()
            },
        decreases heap.metas.len() - k,
    {
        let m = heap.metas[k];
        if mem > m.addr && mem < m.addr.wrapping_add(m.size) {
            proof {
                assert(block_wf(heap@.metas[k as int], heap@.bitmaps[k as int]));
            }
            assert(in_block(heap@.metas[k as int], wrapping_sub(ptr, 4)));
            let w = heap.length_word(mem);
            match w {
                None => {
                    return false;
                },
                Some(units) => {
                    if units < 1 {
                        return false;
                    }
                    let lead = lead_bytes_exec(m.bsize);
                    let first = mem.wrapping_add(4).wrapping_sub(lead).wrapping_sub(m.addr) / m.bsize;
                    assert(first as int == free_first(heap@.metas[k as int], mem));
                    let n = heap.bitmaps[k].len();
                    assert(n == heap@.bitmaps[k as int].len());
                    if first as u128 + units as u128 > 8 * (n as u128) {
                        return false;
                    }
                },
            }
        }
        k = k + 1;
    }
    true
}

impl KHeap {
    /// A copy of the heap's bookkeeping.
    pub fn duplicate(&self) -> (c: KHeap)
        ensures
            c@ == self@,
    {
        let mut metas: Vec<BlockMeta> = Vec::new();
        let mut bitmaps: Vec<Vec<u8>> = Vec::new();
        let mut words: Vec<LengthWord> = Vec::new();
        let mut k: usize = 0;
        while k < self.metas.len()
            invariant
                k <= self.metas.len(),
                metas@ == self.metas@.subrange(0, k as int),
            decreases self.metas.len() - k,
        {
            metas.push(self.metas[k]);
            k = k + 1;
            assert(metas@ =~= self.metas@.subrange(0, k as int));
        }
        k = 0;
        while k < self.bitmaps.len()
            invariant
                k <= self.bitmaps.len(),
                bitmaps@.map_values(|v: Vec<u8>| v@) == self.bitmaps@.map_values(|v: Vec<u8>| v@).subrange(0, k as int),
            decreases self.bitmaps.len() - k,
        {
            let src = &self.bitmaps[k];
            let mut b: Vec<u8> = Vec::new();
            let mut i: usize = 0;
            while i < src.len()
                invariant
                    i <= src.len(),
                    b@ == src@.subrange(0, i as int),
                decreases src.len() - i,
            {
                b.push(src[i]);
                i = i + 1;
                assert(b@ =~= src@.subrange(0, i as int));
            }
            assert(b@ =~= src@);
            let ghost before = bitmaps@;
            let ghost bv = b@;
            assert(bv == self.bitmaps@[k as int]@);
            bitmaps.push(b);
            proof {
                assert(bitmaps@.map_values(|v: Vec<u8>| v@) =~= before.map_values(|v: Vec<u8>| v@).push(bv));
                assert(self.bitmaps@.map_values(|v: Vec<u8>| v@).subrange(0, k + 1) =~= self.bitmaps@.map_values(
                    |v: Vec<u8>| v@,
                ).subrange(0, k as int).push(bv));
            }
            k = k + 1;
        }
        k = 0;
        while k < self.words.len()
            invariant
                k <= self.words.len(),
                words@ == self.words@.subrange(0, k as int),
            decreases self.words.len() - k,
        {
            words.push(self.words[k]);
            k = k + 1;
            assert(words@ =~= self.words@.subrange(0, k as int));
        }
        let c = KHeap { metas, bitmaps, words };
        assert(self.metas@.subrange(0, self.metas@.len() as int) =~= self.metas@);
        assert(self.words@.subrange(0, self.words@.len() as int) =~= self.words@);
        assert(self@.bitmaps.subrange(0, self@.bitmaps.len() as int) =~= self@.bitmaps);
        assert(c@ =~= self@);
        c
    }
}

/// Whether reallocating `ptr` to `sz` bytes stays inside the model (see
/// [`realloc_ok`]); the kernel tests this before [`realloc`] and halts when
/// it fails.
pub fn can_realloc(heap: &KHeap, ptr: usize, sz: usize) -> (b: bool)
    requires
        heap_wf(heap@),
    ensures
        b == realloc_ok(heap@, ptr, sz),
{
    if ptr == 0 || sz == 0 {
        return true;
    }
    let mem = ptr.wrapping_sub(4);
    let mut k: usize = 0;
    while k < heap.metas.len()
        invariant
            heap_wf(heap@),
            ptr != 0,
            sz != 0,
            mem == wrapping_sub(ptr, 4),
            realloc_ok_from(heap@, ptr, sz, k as int) == realloc_ok(heap@, ptr, sz),
        decreases heap.metas.len() - k,
    {
        let m = heap.metas[k];
        if mem > m.addr && mem < m.addr.wrapping_add(m.size) {
            let old_len = match heap.length_word(mem) {
                None => {
                    return false;
                },
                Some(w) => w,
            };
            proof {
                assert(block_wf(heap@.metas[k as int], heap@.bitmaps[k as int]));
            }
            let lead = lead_bytes_exec(m.bsize);
            if sz.wrapping_add(lead) <= (old_len as usize).wrapping_mul(m.bsize) {
                return true;
            }
            let mut trial = heap.duplicate();
            kheap_malloc_internal(&mut trial, sz);
            return can_free(&trial, ptr);
        }
        k = k + 1;
    }
    true
}

/// Allocates `len` bytes from the heap (0 when there is no room).
pub fn malloc(heap: &mut KHeap, len: usize) -> (r: usize)
    requires
        heap_wf(old(heap)@),
    ensures
        (final(heap)@, r) == malloc_internal_spec(old(heap)@, len),
        heap_wf(final(heap)@),
{
    kheap_malloc_internal(heap, len)
}

/// Frees the allocation at `ptr`.
pub fn free(heap: &mut KHeap, ptr: usize)
    requires
        heap_wf(old(heap)@),
        free_ok(old(heap)@, ptr),
    ensures
        final(heap)@ == free_spec(old(heap)@, ptr),
        heap_wf(final(heap)@),
{
    kheap_free(heap, ptr)
}

/// Reallocates the allocation at `ptr` to `sz` bytes.
pub fn realloc(heap: &mut KHeap, ptr: usize, sz: usize) -> (r: (usize, Option<MemCopy>))
    requires
        heap_wf(old(heap)@),
        realloc_ok(old(heap)@, ptr, sz),
    ensures
        (final(heap)@, r.0, r.1) == realloc_spec(old(heap)@, ptr, sz),
        heap_wf(final(heap)@),
{
    kheap_realloc(heap, ptr, sz)
}

/// The sum of a sequence of numbers.
pub open spec fn seq_sum(s: Seq<i32>) -> int
    decreases s.len(),
{
    if s.len() == 0 {
        0
    } else {
        seq_sum(s.drop_last()) + s.last()
    }
}

/// Pushes `0..n` onto a vector and pops them all again, adding them up;
/// whether the total is `n * (n - 1) / 2`.
fn sum_round_trip(n: u32, with_capacity: bool) -> (ok: bool)
    requires
        n as int * n as int <= 0x1_0000_0000,
    ensures
        ok,
{
    let mut tmp: Vec<i32> = if with_capacity {
        Vec::with_capacity(n as usize)
    } else {
        Vec::new()
    };
    let mut j: u32 = 0;
    while j < n
        invariant
            j <= n,
            n as int * n as int <= 0x1_0000_0000,
            tmp.len() == j,
            seq_sum(tmp@) == j * (j - 1) / 2,
            forall|k: int| 0 <= k < j ==> tmp@[k] == k,
        decreases n - j,
    {
        assert(j * (j - 1) / 2 + j == (j + 1) * j / 2) by (nonlinear_arith);
        assert((j as int) < 0x8000_0000) by (nonlinear_arith)
            requires
                j < n,
                n as int * n as int <= 0x1_0000_0000,
        ;
        let ghost before = tmp@;
        tmp.push(j as i32);
        assert(tmp@.drop_last() =~= before);
        j = j + 1;
    }
    let ghost total = n * (n - 1) / 2;
    assert(total <= 0x7fff_ffff) by (nonlinear_arith)
        requires
            total == n * (n - 1) / 2,
            n as int * n as int <= 0x1_0000_0000,
    ;
    let mut res: i32 = 0;
    while tmp.len() > 0
        invariant
            res + seq_sum(tmp@) == total,
            total <= 0x7fff_ffff,
            forall|k: int| 0 <= k < tmp.len() ==> tmp@[k] == k,
            0 <= res,
        decreases tmp.len(),
    {
        let ghost before = tmp@;
        let v = tmp.pop().unwrap();
        proof {
            assert(before.drop_last() == tmp@);
            assert(seq_sum(tmp@) >= 0) by {
                lemma_seq_sum_nonneg(tmp@);
            }
        }
        res = res + v;
    }
    let expected: i32 = if n == 0 {
        0
    } else {
        ((n as u64 * (n as u64 - 1)) / 2) as i32
    };
    res == expected
}

proof fn lemma_seq_sum_nonneg(s: Seq<i32>)
    requires
        forall|k: int| 0 <= k < s.len() ==> s[k] == k,
    ensures
        seq_sum(s) >= 0,
    decreases s.len(),
{
    if s.len() > 0 {
        lemma_seq_sum_nonneg(s.drop_last());
    }
}

/// A check that allocation works: for each `i < len`, fills a vector made
/// with room for `len + i` numbers with `0..len + i`, pops them all and
/// compares their sum with `n * (n - 1) / 2`.  The sums must fit in 32 bits.
pub fn heap_test(len: u32) -> (ok: bool)
    requires
        len <= 0x8000,
    ensures
        ok,
{
    let mut ret = true;
    let mut i: u32 = 0;
    while i < len
        invariant
            i <= len,
            len <= 0x8000,
            ret,
        decreases len - i,
    {
        let n = len + i;
        assert(n as int * n as int <= 0x1_0000_0000) by (nonlinear_arith)
            requires
                n <= 0x10000,
        ;
        if !sum_round_trip(n, true) {
            ret = false;
        }
        i = i + 1;
    }
    ret
}

/// The same check as [`heap_test`], with vectors that grow from empty.
pub fn realloc_test(len: u32) -> (ok: bool)
    requires
        len <= 0x8000,
    ensures
        ok,
{
    let mut ret = true;
    let mut i: u32 = 0;
    while i < len
        invariant
            i <= len,
            len <= 0x8000,
            ret,
        decreases len - i,
    {
        let n = len + i;
        assert(n as int * n as int <= 0x1_0000_0000) by (nonlinear_arith)
            requires
                n <= 0x10000,
        ;
        if !sum_round_trip(n, false) {
            ret = false;
        }
        i = i + 1;
    }
    ret
}

proof fn lemma_byte_bits(b: u8, i: u8, j: u8)
    by (bit_vector)
    requires
        i < 8,
        j < 8,
    ensures
        ((b | (1u8 << i)) & (1u8 << j) != 0) == (i == j || b & (1u8 << j) != 0),
        ((b & !(1u8 << i)) & (1u8 << j) != 0) == (i != j && b & (1u8 << j) != 0),
{
}

proof fn lemma_byte_eq(b1: u8, b2: u8)
    by (bit_vector)
    requires
        (b1 & (1u8 << 0u8) != 0) == (b2 & (1u8 << 0u8) != 0),
        (b1 & (1u8 << 1u8) != 0) == (b2 & (1u8 << 1u8) != 0),
        (b1 & (1u8 << 2u8) != 0) == (b2 & (1u8 << 2u8) != 0),
        (b1 & (1u8 << 3u8) != 0) == (b2 & (1u8 << 3u8) != 0),
        (b1 & (1u8 << 4u8) != 0) == (b2 & (1u8 << 4u8) != 0),
        (b1 & (1u8 << 5u8) != 0) == (b2 & (1u8 << 5u8) != 0),
        (b1 & (1u8 << 6u8) != 0) == (b2 & (1u8 << 6u8) != 0),
        (b1 & (1u8 << 7u8) != 0) == (b2 & (1u8 << 7u8) != 0),
    ensures
        b1 == b2,
{
}

proof fn lemma_bit_pos(q: int, t: int)
    requires
        0 <= t < 8,
    ensures
        (8 * q + t) / 8 == q,
        (8 * q + t) % 8 == t,
{
    lemma_fundamental_div_mod_converse(8 * q + t, 8, q, t);
}

proof fn lemma_set_bit_get(bm: Seq<u8>, k: int, j: int)
    requires
        0 <= k < 8 * bm.len(),
        0 <= j < 8 * bm.len(),
    ensures
        set_bit(bm, k).len() == bm.len(),
        bit_set(set_bit(bm, k), j) == (j == k || bit_set(bm, j)),
{
    if j / 8 == k / 8 {
        lemma_byte_bits(bm[k / 8], (k % 8) as u8, (j % 8) as u8);
        lemma_fundamental_div_mod(j, 8);
        lemma_fundamental_div_mod(k, 8);
    }
}

proof fn lemma_clear_bit_get(bm: Seq<u8>, k: int, j: int)
    requires
        0 <= k < 8 * bm.len(),
        0 <= j < 8 * bm.len(),
    ensures
        clear_bit(bm, k).len() == bm.len(),
        bit_set(clear_bit(bm, k), j) == (j != k && bit_set(bm, j)),
{
    if j / 8 == k / 8 {
        lemma_byte_bits(bm[k / 8], (k % 8) as u8, (j % 8) as u8);
        lemma_fundamental_div_mod(j, 8);
        lemma_fundamental_div_mod(k, 8);
    }
}

proof fn lemma_set_bits_down_get(bm: Seq<u8>, x: int, n: int, j: int)
    requires
        0 <= n <= x + 1,
        x < 8 * bm.len(),
        0 <= j < 8 * bm.len(),
    ensures
        bit_set(set_bits_down(bm, x, n), j) == ((x - n < j <= x) || bit_set(bm, j)),
    decreases n,
{
    if n > 0 {
        lemma_set_bit_get(bm, x, j);
        lemma_set_bits_down_get(set_bit(bm, x), x - 1, n - 1, j);
    }
}

proof fn lemma_clear_bits_up_get(bm: Seq<u8>, lo: int, n: int, j: int)
    requires
        0 <= lo,
        0 <= n,
        lo + n <= 8 * bm.len(),
        0 <= j < 8 * bm.len(),
    ensures
        bit_set(clear_bits_up(bm, lo, n), j) == (!(lo <= j < lo + n) && bit_set(bm, j)),
    decreases n,
{
    if n > 0 {
        lemma_clear_bit_get(bm, lo, j);
        lemma_clear_bits_up_get(clear_bit(bm, lo), lo + 1, n - 1, j);
    }
}

proof fn lemma_bits_eq(a: Seq<u8>, b: Seq<u8>)
    requires
        a.len() == b.len(),
        forall|j: int| 0 <= j < 8 * a.len() ==> #[trigger] bit_set(a, j) == bit_set(b, j),
    ensures
        a == b,
{
    assert forall|q: int| 0 <= q < a.len() implies a[q] == b[q] by {
        lemma_bit_pos(q, 0);
        lemma_bit_pos(q, 1);
        lemma_bit_pos(q, 2);
        lemma_bit_pos(q, 3);
        lemma_bit_pos(q, 4);
        lemma_bit_pos(q, 5);
        lemma_bit_pos(q, 6);
        lemma_bit_pos(q, 7);
        assert(bit_set(a, 8 * q + 0) == bit_set(b, 8 * q + 0));
        assert(bit_set(a, 8 * q + 1) == bit_set(b, 8 * q + 1));
        assert(bit_set(a, 8 * q + 2) == bit_set(b, 8 * q + 2));
        assert(bit_set(a, 8 * q + 3) == bit_set(b, 8 * q + 3));
        assert(bit_set(a, 8 * q + 4) == bit_set(b, 8 * q + 4));
        assert(bit_set(a, 8 * q + 5) == bit_set(b, 8 * q + 5));
        assert(bit_set(a, 8 * q + 6) == bit_set(b, 8 * q + 6));
        assert(bit_set(a, 8 * q + 7) == bit_set(b, 8 * q + 7));
        lemma_byte_eq(a[q], b[q]);
    }
    assert(a =~= b);
}

/// Marking a free run of units and then freeing the same units gives the
/// bitmap back.
pub proof fn lemma_clear_after_set(bm: Seq<u8>, x: int, n: int)
    requires
        0 <= n <= x + 1,
        x < 8 * bm.len(),
        forall|k: int| x - n < k <= x ==> !#[trigger] bit_set(bm, k),
    ensures
        clear_bits_up(set_bits_down(bm, x, n), x - n + 1, n) == bm,
{
    lemma_set_bits_down_len(bm, x, n);
    let m = set_bits_down(bm, x, n);
    lemma_clear_bits_up_len(m, x - n + 1, n);
    assert forall|j: int| 0 <= j < 8 * bm.len() implies #[trigger] bit_set(clear_bits_up(m, x - n + 1, n), j)
        == bit_set(bm, j) by {
        lemma_set_bits_down_get(bm, x, n, j);
        lemma_clear_bits_up_get(m, x - n + 1, n, j);
    }
    lemma_bits_eq(clear_bits_up(m, x - n + 1, n), bm);
}

/// Blocks `a` and `b`, each with its header, cover disjoint address ranges.
pub open spec fn blocks_disjoint(a: BlockMeta, b: BlockMeta) -> bool {
    a.addr + HEADER_SIZE + a.size <= b.addr || b.addr + HEADER_SIZE + b.size <= a.addr
}

/// A block laid out as the kernel lays out its heap: away from the end of
/// the address space, and with unit 0 taken by the header.
pub open spec fn block_layout_ok(m: BlockMeta, bm: Seq<u8>) -> bool {
    &&& m.addr + m.size + 16 <= usize::MAX
    &&& bit_set(bm, 0)
}

/// A request of `size` bytes whose units, with the leading units, are
/// counted in 32 bits in every block.
pub open spec fn size_fits(h: HeapView, size: usize) -> bool {
    forall|k: int| 0 <= k < h.metas.len() ==> size + (#[trigger] h.metas[k]).bsize + 8 <= u32::MAX
}

/// A heap laid out as the kernel lays it out: consistent blocks, each laid
/// out as above, no two overlapping.
pub open spec fn heap_layout_ok(h: HeapView) -> bool {
    &&& heap_wf(h)
    &&& forall|k: int| 0 <= k < h.metas.len() ==> #[trigger] block_layout_ok(h.metas[k], h.bitmaps[k])
    &&& forall|i: int, j: int|
        0 <= i < h.metas.len() && 0 <= j < h.metas.len() && i != j ==> blocks_disjoint(
            #[trigger] h.metas[i],
            #[trigger] h.metas[j],
        )
}

proof fn lemma_first_run_found(bm: Seq<u8>, need: int, units: int, from: int)
    requires
        first_run(bm, need, units, from) is Some,
    ensures
        from <= first_run(bm, need, units, from).unwrap() < units,
        is_free_run(bm, first_run(bm, need, units, from).unwrap(), need),
    decreases units - from,
{
    if from < units && !is_free_run(bm, from, need) {
        lemma_first_run_found(bm, need, units, from + 1);
    }
}

proof fn lemma_units_needed(a: int, b: int)
    requires
        a >= 1,
        b >= 1,
    ensures
        1 <= units_needed(a, b) <= a,
{
    lemma_fundamental_div_mod(a, b);
    if b == 1 {
        assert(a % b == 0);
        assert(a / b == a);
    } else {
        lemma_div_is_ordered_by_denominator(a, 2, b);
        lemma_fundamental_div_mod(a, 2);
        if a / b == 0 {
            assert(a % b == a);
        }
    }
}

/// Where `malloc_from` served an allocation: block `j`, at the free run of
/// `need` units ending at unit `e`.
proof fn lemma_malloc_from_shape(h: HeapView, size: usize, k: int) -> (r: (int, int))
    requires
        heap_layout_ok(h),
        0 <= k <= h.metas.len(),
        size_fits(h, size),
    ensures
        ({
            let (h1, p) = malloc_from(h, size, k);
            let (j, e) = r;
            p != 0 ==> {
                let m = h.metas[j];
                let lead = lead_bytes(m.bsize);
                let need = units_needed(size + lead, m.bsize as int);
                &&& k <= j < h.metas.len()
                &&& heap_wf(h1)
                &&& h1.metas == h.metas
                &&& 1 <= need <= size + lead
                &&& m.bsize * need >= size + lead
                &&& 4 <= lead <= m.bsize + 4
                &&& lead == m.bsize * lead_units(m.bsize as int)
                &&& 0 <= e < m.size / m.bsize
                &&& m.bsize * (e + 1) <= m.size
                &&& e - need >= 1
                &&& is_free_run(h.bitmaps[j], e, need)
                &&& h1.bitmaps[j] == set_bits_down(h.bitmaps[j], e, need)
                &&& p == m.addr + m.bsize * (e - need + 1) + lead
                &&& h1.words == write_word(h.words, LengthWord { addr: (p - 4) as usize, need: need as u32 })
                &&& forall|i: int| 0 <= i < h.metas.len() && (i < k || i > j) ==> #[trigger] h1.bitmaps[i] == h.bitmaps[i]
                &&& (forall|i: int| k <= i < j ==> #[trigger] bit_set(h.bitmaps[i], 1)) ==> forall|i: int|
                    0 <= i < j ==> #[trigger] h1.bitmaps[i] == h.bitmaps[i]
            }
        }),
    decreases h.metas.len() - k,
{
    if k >= h.metas.len() {
        return (0, 0);
    }
    let m = h.metas[k];
    let bm = h.bitmaps[k];
    let lead = lead_bytes(m.bsize);
    assert(block_wf(m, bm));
    assert(block_layout_ok(m, bm));
    assert(size + m.bsize + 8 <= u32::MAX);
    assert(lead == m.bsize * lead_units(m.bsize as int) && 4 <= lead <= m.bsize + 4);
    assert(wrapping_add(size, lead) == size + lead);
    if m.size >= size + lead {
        let need = units_needed(size + lead, m.bsize as int);
        lemma_units_needed(size + lead, m.bsize as int);
        lemma_units_cover(size + lead, m.bsize as int);
        let units = (m.size / m.bsize) as int;
        let (bm2, x, need_u) = find_spec(m, bm, (size + lead) as usize, true);
        match first_run(bm, need, units, 0) {
            Some(e) => {
                lemma_first_run_found(bm, need, units, 0);
                lemma_units_in_bitmap(m, bm, e);
                if e - need < 0 {
                    assert(!bit_set(bm, 0));
                }
                assert(counted_run(bm, e, need) == need);
                assert(x == (e - need) as usize);
                lemma_set_bits_down_len(bm, e, need);
                lemma_set_bits_down_get(bm, e, need, 0);
                let h2 = HeapView { bitmaps: h.bitmaps.update(k, bm2), ..h };
                assert(block_wf(m, bm2));
                if x != 0 {
                    lemma_fundamental_div_mod(m.size as int, m.bsize as int);
                    assert(m.bsize * (e + 1) <= m.size) by (nonlinear_arith)
                        requires
                            0 <= e < units,
                            m.size == m.bsize * units + m.size % m.bsize,
                            m.size % m.bsize >= 0,
                            m.bsize > 0,
                    ;
                    let s0 = e - need + 1;
                    assert(m.bsize * s0 + m.bsize * need == m.bsize * (e + 1)) by (nonlinear_arith)
                        requires
                            s0 == e - need + 1,
                    ;
                    assert(m.bsize * s0 >= 0) by (nonlinear_arith)
                        requires
                            s0 >= 1,
                            m.bsize > 0,
                    ;
                    assert(wrapping_add(x, 1) == s0);
                    lemma_small_mod((m.bsize as nat * s0 as nat) as nat, (usize::MAX + 1) as nat);
                    assert(wrapping_mul(m.bsize, wrapping_add(x, 1)) == m.bsize * s0);
                    assert(unit_addr(m, wrapping_add(x, 1)) == m.addr + m.bsize * s0);
                    let ret = wrapping_add(unit_addr(m, wrapping_add(x, 1)), (lead - 4) as usize);
                    assert(ret == m.addr + m.bsize * s0 + lead - 4);
                    let (h1, p) = malloc_from(h, size, k);
                    assert(h1.bitmaps == h2.bitmaps);
                    assert forall|i: int| 0 <= i < h1.metas.len() implies #[trigger] block_wf(h1.metas[i], h1.bitmaps[i]) by {
                        assert(block_wf(h.metas[i], h.bitmaps[i]));
                    }
                    return (k, e);
                } else {
                    assert forall|i: int| 0 <= i < h2.metas.len() implies #[trigger] block_layout_ok(h2.metas[i], h2.bitmaps[i]) && block_wf(h2.metas[i], h2.bitmaps[i]) by {
                        assert(block_wf(h.metas[i], h.bitmaps[i]));
                        assert(block_layout_ok(h.metas[i], h.bitmaps[i]));
                    }
                    assert(heap_layout_ok(h2));
                    assert(e - need == 0);
                    assert(!bit_set(bm, 1));
                    let r = lemma_malloc_from_shape(h2, size, k + 1);
                    let (h1, p) = malloc_from(h, size, k);
                    assert(malloc_from(h2, size, k + 1) == (h1, p));
                    if p != 0 {
                        let (j, e2) = r;
                        assert forall|i: int| 0 <= i < h.metas.len() && (i < k || i > j) implies #[trigger] h1.bitmaps[i] == h.bitmaps[i] by {
                            assert(h2.bitmaps[i] == h.bitmaps[i]);
                        }
                    }
                    return r;
                }
            },
            None => {
                let h2 = HeapView { bitmaps: h.bitmaps.update(k, bm2), ..h };
                assert(h2 =~= h);
                let r = lemma_malloc_from_shape(h, size, k + 1);
                return r;
            },
        }
    } else {
        let r = lemma_malloc_from_shape(h, size, k + 1);
        return r;
    }
}

/// Freeing the allocation word at `mem` from block `k` on, when block `j`
/// is the only one that holds it.
proof fn lemma_free_from_one(h: HeapView, mem: usize, k: int, j: int)
    requires
        0 <= k,
        0 <= j < h.metas.len(),
        h.metas.len() == h.bitmaps.len(),
        in_block(h.metas[j], mem),
        forall|i: int| 0 <= i < h.metas.len() && i != j ==> !#[trigger] in_block(h.metas[i], mem),
    ensures
        free_from(h, mem, k) == if k <= j {
            let units = word_at(h.words, mem).unwrap();
            HeapView {
                bitmaps: h.bitmaps.update(j, clear_bits_up(h.bitmaps[j], free_first(h.metas[j], mem), units as int)),
                ..h
            }
        } else {
            h
        },
    decreases h.metas.len() - k,
{
    if k < h.metas.len() {
        if k == j {
            let units = word_at(h.words, mem).unwrap();
            let h2 = HeapView {
                bitmaps: h.bitmaps.update(j, clear_bits_up(h.bitmaps[j], free_first(h.metas[j], mem), units as int)),
                ..h
            };
            assert(h2.metas == h.metas);
            lemma_free_from_one(h2, mem, k + 1, j);
        } else {
            assert(!in_block(h.metas[k], mem));
            lemma_free_from_one(h, mem, k + 1, j);
        }
    }
}

/// Where `malloc` served an allocation (block `j`, from unit `x`), and what
/// freeing it gives back.
proof fn lemma_free_after_malloc(h: HeapView, size: usize) -> (r: (int, int))
    requires
        heap_layout_ok(h),
        size_fits(h, size),
    ensures
        ({
            let (h1, p) = malloc_spec(h, size);
            let (j, x) = r;
            p != 0 ==> {
                &&& 0 <= j < h.metas.len()
                &&& x >= 2
                &&& in_block(h.metas[j], (p - 4) as usize)
                &&& p == h.metas[j].addr + h.metas[j].bsize * x + lead_bytes(h.metas[j].bsize)
                &&& lead_bytes(h.metas[j].bsize) == h.metas[j].bsize * lead_units(h.metas[j].bsize as int)
                &&& free_ok(h1, p)
                &&& free_spec(h1, p) == (HeapView { bitmaps: h1.bitmaps.update(j, h.bitmaps[j]), ..h1 })
                &&& h1.metas == h.metas
                &&& h1.bitmaps.len() == h.bitmaps.len()
                &&& forall|i: int| 0 <= i < h.metas.len() && i > j ==> #[trigger] h1.bitmaps[i] == h.bitmaps[i]
                &&& (forall|i: int| 0 <= i < j ==> #[trigger] bit_set(h.bitmaps[i], 1)) ==> forall|i: int|
                    0 <= i < j ==> #[trigger] h1.bitmaps[i] == h.bitmaps[i]
            }
        }),
{
    let (h1, p) = malloc_spec(h, size);
    let (j, e) = lemma_malloc_from_shape(h, size, 0);
    if p == 0 {
        return (0, 0);
    }
    let m = h.metas[j];
    let bm = h.bitmaps[j];
    let b = m.bsize as int;
    let lead = lead_bytes(m.bsize);
    let need = units_needed(size + lead, b);
    let x = e - need + 1;
    let mem = (p - 4) as usize;
    assert(wrapping_sub(p, 4) == mem);
    assert(block_wf(m, bm));
    assert(block_layout_ok(m, bm));
    assert(b * x + b * need == b * (e + 1)) by (nonlinear_arith)
        requires
            x == e - need + 1,
    ;
    assert(b * x >= 2 * b) by (nonlinear_arith)
        requires
            x >= 2,
            b > 0,
    ;
    assert(mem == m.addr + b * x + lead - 4);
    assert(wrapping_add(m.addr, m.size) == m.addr + m.size);
    assert(in_block(m, mem));
    assert forall|i: int| 0 <= i < h1.metas.len() && i != j implies !#[trigger] in_block(h1.metas[i], mem) by {
        assert(blocks_disjoint(h.metas[i], h.metas[j]));
        assert(block_layout_ok(h.metas[i], h.bitmaps[i]));
    }
    lemma_word_at_write(h.words, LengthWord { addr: mem, need: need as u32 }, mem);
    assert(word_at(h1.words, mem) == Some(need as u32));
    assert(need as u32 as int == need);
    assert(wrapping_add(mem, 4) == p);
    assert(wrapping_sub(wrapping_sub(wrapping_add(mem, 4), lead), m.addr) == b * x);
    lemma_fundamental_div_mod_converse(b * x, b, x, 0);
    assert(free_first(m, mem) == x);
    lemma_units_in_bitmap(m, bm, e);
    lemma_clear_after_set(bm, e, need);
    lemma_free_from_one(h1, mem, 0, j);
    assert(free_spec(h1, p) =~= HeapView { bitmaps: h1.bitmaps.update(j, h.bitmaps[j]), ..h1 });
    assert(free_ok(h1, p)) by {
        assert forall|k: int| 0 <= k < h1.metas.len() && #[trigger] in_block(h1.metas[k], wrapping_sub(p, 4)) implies ({
            let units = word_at(h1.words, mem);
            &&& units is Some
            &&& units.unwrap() >= 1
            &&& free_first(h1.metas[k], mem) + units.unwrap() <= 8 * h1.bitmaps[k].len()
        }) by {
            assert(k == j);
            assert(block_wf(h1.metas[j], h1.bitmaps[j]));
        }
    }
    assert(in_block(h.metas[j], (p - 4) as usize));
    (j, x)
}

/// Freeing what `malloc` just handed out frees exactly the units it took:
/// the block that served it gets its bitmap back, and every other block is
/// left as `malloc` left it (for a heap laid out as the kernel lays it out,
/// and sizes whose units are counted in 32 bits).
pub proof fn lemma_free_undoes_malloc(h: HeapView, size: usize)
    requires
        heap_layout_ok(h),
        size_fits(h, size),
    ensures
        ({
            let (h1, p) = malloc_spec(h, size);
            p != 0 ==> {
                &&& free_ok(h1, p)
                &&& exists|j: int|
                    0 <= j < h.metas.len() && #[trigger] in_block(h.metas[j], (p - 4) as usize)
                        && free_spec(h1, p) == (HeapView { bitmaps: h1.bitmaps.update(j, h.bitmaps[j]), ..h1 })
            }
        }),
{
    let (j, x) = lemma_free_after_malloc(h, size);
    let (h1, p) = malloc_spec(h, size);
    if p != 0 {
        assert(in_block(h.metas[j], (p - 4) as usize));
    }
}

/// Freeing what `malloc` just handed out gives every block its bitmap back,
/// so the freed memory can be allocated again, when unit 1 of every block
/// is taken (as the bitmap of a block of 16 units or more marks it when the
/// block is added).  Only the length word written stays behind.
pub proof fn lemma_free_restores_heap(h: HeapView, size: usize)
    requires
        heap_layout_ok(h),
        size_fits(h, size),
        forall|k: int| 0 <= k < h.metas.len() ==> bit_set(#[trigger] h.bitmaps[k], 1),
    ensures
        ({
            let (h1, p) = malloc_spec(h, size);
            p != 0 ==> free_spec(h1, p) == (HeapView { words: h1.words, ..h })
        }),
{
    let (j, x) = lemma_free_after_malloc(h, size);
    let (h1, p) = malloc_spec(h, size);
    if p != 0 {
        assert(h1.bitmaps.update(j, h.bitmaps[j]) =~= h.bitmaps);
        assert(free_spec(h1, p) =~= HeapView { words: h1.words, ..h });
    }
}

/// Where `malloc` puts an allocation: a whole number of units past the
/// address of the block that serves it, so it is aligned to the block's unit
/// whenever the block's address is.
pub proof fn lemma_malloc_alignment(h: HeapView, size: usize)
    requires
        heap_layout_ok(h),
        size_fits(h, size),
    ensures
        ({
            let (h1, p) = malloc_spec(h, size);
            p != 0 ==> exists|j: int|
                0 <= j < h.metas.len() && #[trigger] in_block(h.metas[j], (p - 4) as usize) && {
                    let m = h.metas[j];
                    &&& (p - m.addr) % (m.bsize as int) == 0
                    &&& (m.addr % m.bsize == 0 ==> p % m.bsize == 0)
                }
        }),
{
    let (j, x) = lemma_free_after_malloc(h, size);
    let (h1, p) = malloc_spec(h, size);
    if p != 0 {
        let m = h.metas[j];
        let b = m.bsize as int;
        assert(b > 0) by {
            assert(block_wf(h.metas[j], h.bitmaps[j]));
        }
        let q = x + lead_units(b);
        assert(p - m.addr == q * b) by (nonlinear_arith)
            requires
                p == m.addr + b * x + b * lead_units(b),
                q == x + lead_units(b),
        ;
        lemma_mod_multiples_basic(q, b);
        if m.addr % m.bsize == 0 {
            lemma_fundamental_div_mod(m.addr as int, b);
            let q2 = m.addr as int / b + q;
            assert(p == q2 * b) by (nonlinear_arith)
                requires
                    p == m.addr + q * b,
                    m.addr == b * (m.addr as int / b),
                    q2 == m.addr as int / b + q,
            ;
            lemma_mod_multiples_basic(q2, b);
        }
        assert(in_block(h.metas[j], (p - 4) as usize));
    }
}

/// The units of block `m` that hold its header and its bitmap are taken:
/// every unit that starts before the bitmap's end.
pub open spec fn bitmap_units_taken(m: BlockMeta, bm: Seq<u8>) -> bool {
    forall|u: int|
        0 <= u && m.bsize * u < HEADER_SIZE + bitmap_len(m.size + HEADER_SIZE, m.bsize as int) ==> #[trigger] bit_set(bm, u)
}

/// Where unit `x` of block `m` starts.  A live allocation that takes the
/// `n` units from unit `x` on covers the bytes from there to the start of
/// unit `x + n`.
pub open spec fn unit_start(m: BlockMeta, x: int) -> int {
    m.addr + m.bsize * x
}

proof fn lemma_units_cover(a: int, b: int)
    requires
        a >= 1,
        b >= 1,
    ensures
        b * units_needed(a, b) >= a,
{
    lemma_fundamental_div_mod(a, b);
    let q = a / b;
    let r = a % b;
    if r == 0 {
        assert(b * units_needed(a, b) == b * q);
    } else {
        assert(b * (q + 1) == b * q + b) by (nonlinear_arith);
        assert(units_needed(a, b) == q + 1);
    }
}

/// Where `malloc` puts an allocation in the block `m` that serves it: its
/// units (the leading units that hold its length word, then its data) start
/// at least one unit past the block's address and end inside the block; they
/// clear the block's header and bitmap when the units holding those are
/// taken; and they overlap no run of units that was taken before the call,
/// in any block: for the run of `n2` units from unit `u2` of block `j2` (as
/// a live allocation takes them), the new bytes lie outside the bytes of
/// that run.  So live allocations never overlap one another, a header or a
/// bitmap.
pub proof fn lemma_malloc_placement(h: HeapView, size: usize, j2: int, u2: int, n2: int)
    requires
        heap_layout_ok(h),
        size_fits(h, size),
        0 <= j2 < h.metas.len(),
        0 <= u2,
        1 <= n2,
        u2 + n2 <= h.metas[j2].size / h.metas[j2].bsize,
        forall|u: int| u2 <= u < u2 + n2 ==> #[trigger] bit_set(h.bitmaps[j2], u),
    ensures
        ({
            let (h1, p) = malloc_spec(h, size);
            p != 0 ==> exists|j: int|
                0 <= j < h.metas.len() && #[trigger] in_block(h.metas[j], (p - 4) as usize) && {
                    let m = h.metas[j];
                    let lo = p - lead_bytes(m.bsize);
                    let a2 = unit_start(h.metas[j2], u2);
                    &&& m.addr + m.bsize <= lo
                    &&& p + size <= m.addr + m.size
                    &&& (bitmap_units_taken(m, h.bitmaps[j]) ==> m.addr + HEADER_SIZE + bitmap_len(
                        m.size + HEADER_SIZE,
                        m.bsize as int,
                    ) <= lo)
                    &&& (p + size <= a2 || a2 + h.metas[j2].bsize * n2 <= lo)
                }
        }),
{
    let (h1, p) = malloc_spec(h, size);
    let (j, e) = lemma_malloc_from_shape(h, size, 0);
    if p != 0 {
        let m = h.metas[j];
        let bm = h.bitmaps[j];
        let b = m.bsize as int;
        let lead = lead_bytes(m.bsize);
        let need = units_needed(size + lead, b);
        let x = e - need + 1;
        assert(block_wf(m, bm));
        assert(block_layout_ok(m, bm));
        let lo = m.addr + b * x;
        assert(p - lead == lo);
        assert(b * x + b * need == b * (e + 1)) by (nonlinear_arith)
            requires
                x == e - need + 1,
        ;
        assert(p + size <= m.addr + b * (e + 1));
        assert(b * x >= b) by (nonlinear_arith)
            requires
                x >= 1,
                b > 0,
        ;
        // the bitmap: unit x was free
        assert(!bit_set(bm, x));
        // the other run
        let m2 = h.metas[j2];
        let b2 = m2.bsize as int;
        let a2 = unit_start(m2, u2);
        if j2 == j {
            if u2 + n2 <= x {
                assert(b * (u2 + n2) <= b * x) by (nonlinear_arith)
                    requires
                        u2 + n2 <= x,
                        b > 0,
                ;
                assert(b * (u2 + n2) == b * u2 + b * n2) by (nonlinear_arith);
            } else if e + 1 <= u2 {
                assert(b * (e + 1) <= b * u2) by (nonlinear_arith)
                    requires
                        e + 1 <= u2,
                        b > 0,
                ;
            } else {
                let u = if x > u2 { x } else { u2 };
                assert(bit_set(h.bitmaps[j2], u));
                assert(!bit_set(bm, u));
            }
        } else {
            assert(blocks_disjoint(m, m2));
            assert(block_wf(m2, h.bitmaps[j2]));
            let units2 = (m2.size / m2.bsize) as int;
            lemma_fundamental_div_mod(m2.size as int, b2);
            assert(b2 * (u2 + n2) <= m2.size) by (nonlinear_arith)
                requires
                    u2 + n2 <= units2,
                    m2.size == b2 * units2 + m2.size % m2.bsize,
                    m2.size % m2.bsize >= 0,
                    b2 > 0,
            ;
            assert(b2 * (u2 + n2) == b2 * u2 + b2 * n2) by (nonlinear_arith);
            assert(b2 * u2 >= 0) by (nonlinear_arith)
                requires
                    u2 >= 0,
                    b2 > 0,
            ;
        }
        assert(wrapping_add(m.addr, m.size) == m.addr + m.size);
        assert((p - 4) as usize == p - 4);
        assert(in_block(h.metas[j], (p - 4) as usize));
    }
}

proof fn lemma_mask_bits(t: u8)
    by (bit_vector)
    requires
        t < 8,
    ensures
        0u8 & (1u8 << t) == 0,
        (1u8 & (1u8 << t) != 0) == (t < 1),
        (3u8 & (1u8 << t) != 0) == (t < 2),
        (7u8 & (1u8 << t) != 0) == (t < 3),
        (15u8 & (1u8 << t) != 0) == (t < 4),
        (31u8 & (1u8 << t) != 0) == (t < 5),
        (63u8 & (1u8 << t) != 0) == (t < 6),
        (127u8 & (1u8 << t) != 0) == (t < 7),
        0xffu8 & (1u8 << t) != 0,
{
}

/// The bitmap of a new block marks exactly its first `(size / bsize) / 8`
/// units.
proof fn lemma_initial_bitmap_bits(size: int, bsize: int, u: int)
    requires
        size >= 0,
        bsize > 0,
        0 <= u < 8 * initial_bitmap(size, bsize).len(),
    ensures
        bit_set(initial_bitmap(size, bsize), u) == (u < (size / bsize) / 8),
{
    let bytes_map = (size / bsize) / 8;
    lemma_fundamental_div_mod(u, 8);
    lemma_fundamental_div_mod(bytes_map, 8);
    let q = u / 8;
    let t = u % 8;
    lemma_mask_bits(t as u8);
    assert(((u % 8) as u8) == t as u8);
    if q < bytes_map / 8 {
        assert(initial_bitmap(size, bsize)[q] == 0xffu8);
    } else if q == bytes_map / 8 {
        assert(initial_bitmap(size, bsize)[q] == low_mask(bytes_map % 8));
    } else {
        assert(initial_bitmap(size, bsize)[q] == 0u8);
    }
}

/// Adding a block marks as taken exactly its first `(size / bsize) / 8`
/// units, one for each byte of its bitmap, and leaves the rest free.  With a
/// bitmap of at least two bytes unit 1 is among them; and when those units
/// span the header and the bitmap (as with 16-byte units and 8 units or
/// more), the units that hold them are taken.
pub proof fn lemma_new_block_units(h: HeapView, addr: usize, size: usize, bsize: usize)
    requires
        addr != 0,
        size >= HEADER_SIZE,
        bsize > 0,
    ensures
        ({
            let h2 = add_block_spec(h, addr, size, bsize);
            let bytes_map = (size / bsize) / 8;
            &&& forall|u: int| 0 <= u < 8 * h2.bitmaps[0].len() ==> #[trigger] bit_set(h2.bitmaps[0], u) == (u < bytes_map)
            &&& (bytes_map >= 2 ==> bit_set(h2.bitmaps[0], 1))
            &&& (bsize * bytes_map >= HEADER_SIZE + bytes_map + 1 ==> bitmap_units_taken(h2.metas[0], h2.bitmaps[0]))
        }),
{
    let h2 = add_block_spec(h, addr, size, bsize);
    let bm = initial_bitmap(size as int, bsize as int);
    let bytes_map = (size / bsize) / 8;
    assert(h2.bitmaps[0] == bm);
    assert forall|u: int| 0 <= u < 8 * h2.bitmaps[0].len() implies #[trigger] bit_set(h2.bitmaps[0], u) == (u < bytes_map) by {
        lemma_initial_bitmap_bits(size as int, bsize as int, u);
    }
    if bytes_map >= 2 {
        assert(bit_set(h2.bitmaps[0], 1));
    }
    if bsize * bytes_map >= HEADER_SIZE + bytes_map + 1 {
        let m = h2.metas[0];
        assert(m.size + HEADER_SIZE == size);
        assert forall|u: int|
            0 <= u && m.bsize * u < HEADER_SIZE + bitmap_len(m.size + HEADER_SIZE, m.bsize as int) implies #[trigger] bit_set(
            h2.bitmaps[0],
            u,
        ) by {
            if u >= bytes_map {
                assert(bsize * u >= bsize * bytes_map) by (nonlinear_arith)
                    requires
                        u >= bytes_map,
                        bsize > 0,
                ;
            }
            assert(u < bytes_map);
            assert(0 <= u < 8 * h2.bitmaps[0].len());
        }
    }
}

proof fn lemma_realloc_from_keeps_fitting(h: HeapView, ptr: usize, sz: usize, k: int) -> (j: int)
    requires
        0 <= k,
        realloc_ok_from(h, ptr, sz, k),
    ensures
        ({
            let (h1, r, copy) = realloc_from(h, ptr, sz, k);
            r == ptr && ptr != 0 && copy is None ==> {
                let m = h.metas[j];
                let w = word_at(h.words, wrapping_sub(ptr, 4));
                &&& k <= j < h.metas.len()
                &&& in_block(m, wrapping_sub(ptr, 4))
                &&& w is Some
                &&& h1 == h
                &&& (sz + lead_bytes(m.bsize) <= usize::MAX && w.unwrap() * m.bsize <= usize::MAX ==> sz
                    + lead_bytes(m.bsize) <= w.unwrap() * m.bsize)
            }
        }),
    decreases h.metas.len() - k,
{
    if k >= h.metas.len() {
        return 0;
    }
    let m = h.metas[k];
    if in_block(m, wrapping_sub(ptr, 4)) {
        let old_len = word_at(h.words, wrapping_sub(ptr, 4)).unwrap();
        let lead = lead_bytes(m.bsize);
        if sz + lead <= usize::MAX && old_len * m.bsize <= usize::MAX {
            assert(wrapping_add(sz, lead) == sz + lead);
            assert(old_len as nat * m.bsize as nat == old_len * m.bsize) by (nonlinear_arith);
            lemma_small_mod((old_len as nat * m.bsize as nat) as nat, (usize::MAX + 1) as nat);
            assert(wrapping_mul(old_len as usize, m.bsize) == old_len * m.bsize);
        }
        k
    } else {
        lemma_realloc_from_keeps_fitting(h, ptr, sz, k + 1)
    }
}

/// When `realloc` keeps an allocation (hands back the same pointer with
/// nothing to copy), its units already hold the requested size behind the
/// leading units: the length word, read in the block that holds it, counts
/// at least `sz + lead` bytes of units (when those sums fit in a word).
/// Otherwise the contents move to a new allocation (or the result is 0).
pub proof fn lemma_realloc_keeps_only_what_fits(h: HeapView, ptr: usize, sz: usize)
    requires
        realloc_ok(h, ptr, sz),
    ensures
        ({
            let (h1, r, copy) = realloc_spec(h, ptr, sz);
            ptr != 0 && sz != 0 && r == ptr && copy is None ==> exists|j: int|
                0 <= j < h.metas.len() && #[trigger] in_block(h.metas[j], wrapping_sub(ptr, 4)) && {
                    let m = h.metas[j];
                    let w = word_at(h.words, wrapping_sub(ptr, 4));
                    &&& w is Some
                    &&& h1 == h
                    &&& (sz + lead_bytes(m.bsize) <= usize::MAX && w.unwrap() * m.bsize <= usize::MAX ==> sz
                        + lead_bytes(m.bsize) <= w.unwrap() * m.bsize)
                }
        }),
{
    if ptr != 0 && sz != 0 {
        let j = lemma_realloc_from_keeps_fitting(h, ptr, sz, 0);
        let (h1, r, copy) = realloc_spec(h, ptr, sz);
        if r == ptr && copy is None {
            assert(in_block(h.metas[j], wrapping_sub(ptr, 4)));
        }
    }
}

} // verus!
