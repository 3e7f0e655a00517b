//! A buddy allocator: free memory is kept as blocks whose size is a power of
//! two and whose address is a multiple of that size, one free list per order.
//! An allocation splits a larger block in halves down to the order it needs; a
//! deallocation merges a block with its free buddy, order by order.
use vstd::prelude::*;
use vstd::arithmetic::power2::{pow2, lemma_pow2_pos, lemma_pow2_unfold, lemma2_to64, lemma2_to64_rest, lemma_pow2_strictly_increases};
use vstd::layout::valid_layout;
use vstd::arithmetic::power2::is_pow2;
use vstd::bits::{lemma_usize_shl_is_mul, lemma_usize_pow2_no_overflow, lemma_usize_shr_is_div};
use vstd::arithmetic::div_mod::{lemma_fundamental_div_mod, lemma_mod_multiples_basic};
use crate::bits::{
    log2, ceil_log2, next_power_of_two, order_of, lemma_is_pow2_log2, lemma_log2_pow2,
    lemma_log2_usize, lemma_log2_bounds, lemma_ceil_log2_bounds, lemma_pow2_monotone,
    lemma_align_smaller, lemma_align_add, low_order, lemma_low_order_divides, lemma_lowbit,
    prev_power_of_2,
};
use crate::linked_list::LinkedList;

verus! {

/// The number of free lists, one per block order `0..LAYER_COUNT`.
pub const LAYER_COUNT: usize = 32;

/// `(a, k)` can be a free block of order `k`: a nonzero address, a multiple of
/// the block size, with the whole block addressable.
pub open spec fn block_ok(a: int, k: nat) -> bool {
    &&& 0 < a
    &&& a % (pow2(k) as int) == 0
    &&& a + pow2(k) <= usize::MAX + 1
}

/// The blocks `(a, k)` and `(b, l)` share no byte.
pub open spec fn apart(a: int, k: nat, b: int, l: nat) -> bool {
    a + pow2(k) <= b || b + pow2(l) <= a
}

/// `a` is on the free list of order `k`.
pub open spec fn is_block(ls: Seq<Seq<usize>>, a: usize, k: nat) -> bool {
    k < ls.len() && ls[k as int].contains(a)
}

/// Well-formed free lists: one list per order, no address listed twice, every
/// listed block well placed, and no two listed blocks overlapping.
pub open spec fn layers_wf(ls: Seq<Seq<usize>>) -> bool {
    &&& ls.len() == LAYER_COUNT
    &&& forall|k: int| 0 <= k < ls.len() ==> (#[trigger] ls[k]).no_duplicates()
    &&& forall|a: usize, k: nat| #[trigger] is_block(ls, a, k) ==> block_ok(a as int, k)
    &&& forall|a: usize, k: nat, b: usize, l: nat|
        #[trigger] is_block(ls, a, k) && #[trigger] is_block(ls, b, l) && !(a == b && k == l)
            ==> apart(a as int, k, b as int, l)
}

/// The bytes held by the free lists of orders below `n`.
pub open spec fn layers_size(ls: Seq<Seq<usize>>, n: nat) -> nat
    decreases n,
{
    if n == 0 {
        0
    } else {
        layers_size(ls, (n - 1) as nat) + ls[n - 1].len() * pow2((n - 1) as nat)
    }
}

/// The bytes held by all free lists.
pub open spec fn free_size(ls: Seq<Seq<usize>>) -> nat {
    layers_size(ls, ls.len())
}

/// The set of free bytes.
pub open spec fn free_bytes(ls: Seq<Seq<usize>>) -> Set<int> {
    Set::new(|x: int| exists|a: usize, k: nat| #[trigger] is_block(ls, a, k) && a <= x < a + pow2(k))
}

/// The bytes from `a` up to, not including, `b`.
pub open spec fn range_bytes(a: int, b: int) -> Set<int> {
    Set::new(|x: int| a <= x < b)
}

/// The bytes of the block `(a, k)`.
pub open spec fn block_bytes(a: int, k: nat) -> Set<int> {
    Set::new(|x: int| a <= x < a + pow2(k))
}

proof fn lemma_contains_push_front(s: Seq<usize>, x: usize, y: usize)
    ensures
        (seq![x] + s).contains(y) <==> (y == x || s.contains(y)),
{
    let t = seq![x] + s;
    if s.contains(y) {
        let j = choose|j: int| 0 <= j < s.len() && s[j] == y;
        assert(t[j + 1] == y);
    }
    if y == x {
        assert(t[0] == y);
    }
    if t.contains(y) {
        let j = choose|j: int| 0 <= j < t.len() && t[j] == y;
        if j > 0 {
            assert(s[j - 1] == y);
        }
    }
}

proof fn lemma_contains_remove(s: Seq<usize>, j: int, y: usize)
    requires
        s.no_duplicates(),
        0 <= j < s.len(),
    ensures
        s.remove(j).contains(y) <==> (s.contains(y) && y != s[j]),
        s.remove(j).no_duplicates(),
{
    let t = s.remove(j);
    assert forall|i: int| 0 <= i < t.len() implies #[trigger] t[i] == (if i < j { s[i] } else {
        s[i + 1]
    }) by {}
    if t.contains(y) {
        let i = choose|i: int| 0 <= i < t.len() && t[i] == y;
        if i < j {
            assert(s[i] == y);
        } else {
            assert(s[i + 1] == y);
        }
    }
    if s.contains(y) && y != s[j] {
        let i = choose|i: int| 0 <= i < s.len() && s[i] == y;
        if i < j {
            assert(t[i] == y);
        } else {
            assert(t[i - 1] == y);
        }
    }
    assert forall|a: int, b: int| 0 <= a < t.len() && 0 <= b < t.len() && a != b implies t[a]
        != t[b] by {
        let a2 = if a < j { a } else { a + 1 };
        let b2 = if b < j { b } else { b + 1 };
        assert(t[a] == s[a2] && t[b] == s[b2]);
    }
}

proof fn lemma_drop_first_is_remove(s: Seq<usize>)
    requires
        s.len() > 0,
    ensures
        s.drop_first() == s.remove(0),
{
    assert(s.drop_first() =~= s.remove(0));
}

/// Putting the block `(x, k)` on its list keeps the lists well formed when the
/// block is well placed and overlaps no free block.
proof fn lemma_wf_push(ls: Seq<Seq<usize>>, k: nat, x: usize)
    requires
        layers_wf(ls),
        k < LAYER_COUNT,
        block_ok(x as int, k),
        forall|b: usize, l: nat| #[trigger] is_block(ls, b, l) ==> apart(x as int, k, b as int, l),
    ensures
        layers_wf(ls.update(k as int, seq![x] + ls[k as int])),
        forall|b: usize, l: nat|
            #[trigger] is_block(ls.update(k as int, seq![x] + ls[k as int]), b, l) <==> (is_block(
                ls,
                b,
                l,
            ) || (b == x && l == k)),
{
    let n = ls.update(k as int, seq![x] + ls[k as int]);
    lemma_pow2_pos(k);
    assert forall|b: usize, l: nat| #[trigger] is_block(n, b, l) <==> (is_block(ls, b, l) || (b == x
        && l == k)) by {
        lemma_contains_push_front(ls[k as int], x, b);
    }
    assert(!ls[k as int].contains(x)) by {
        if ls[k as int].contains(x) {
            assert(is_block(ls, x, k));
        }
    }
    let s = seq![x] + ls[k as int];
    assert(s.no_duplicates()) by {
        assert forall|a: int, b: int| 0 <= a < s.len() && 0 <= b < s.len() && a != b implies s[a]
            != s[b] by {
            if a == 0 && b > 0 {
                assert(ls[k as int][b - 1] == s[b]);
            } else if b == 0 && a > 0 {
                assert(ls[k as int][a - 1] == s[a]);
            } else if a > 0 && b > 0 {
                assert(ls[k as int][a - 1] == s[a]);
                assert(ls[k as int][b - 1] == s[b]);
            }
        }
    }
    assert forall|i: int| 0 <= i < n.len() implies (#[trigger] n[i]).no_duplicates() by {
        if i != k {
            assert(n[i] == ls[i]);
        }
    }
}

/// Taking the entry at `j` off the list of order `k` keeps the lists well
/// formed.
proof fn lemma_wf_remove(ls: Seq<Seq<usize>>, k: nat, j: int)
    requires
        layers_wf(ls),
        k < LAYER_COUNT,
        0 <= j < ls[k as int].len(),
    ensures
        layers_wf(ls.update(k as int, ls[k as int].remove(j))),
        forall|b: usize, l: nat|
            #[trigger] is_block(ls.update(k as int, ls[k as int].remove(j)), b, l) <==> (is_block(
                ls,
                b,
                l,
            ) && !(b == ls[k as int][j] && l == k)),
{
    let n = ls.update(k as int, ls[k as int].remove(j));
    assert(ls[k as int].no_duplicates());
    assert forall|b: usize, l: nat| #[trigger] is_block(n, b, l) <==> (is_block(ls, b, l) && !(b
        == ls[k as int][j] && l == k)) by {
        lemma_contains_remove(ls[k as int], j, b);
    }
    lemma_contains_remove(ls[k as int], j, 0);
    assert forall|i: int| 0 <= i < n.len() implies (#[trigger] n[i]).no_duplicates() by {
        if i != k {
            assert(n[i] == ls[i]);
        }
    }
}

/// Replacing the list of order `k` changes the byte count by that list's
/// change.
proof fn lemma_size_update(ls: Seq<Seq<usize>>, k: nat, s: Seq<usize>, n: nat)
    requires
        k < ls.len(),
        n <= ls.len(),
    ensures
        layers_size(ls.update(k as int, s), n) + (if k < n {
            ls[k as int].len() * pow2(k)
        } else {
            0
        }) == layers_size(ls, n) + (if k < n {
            s.len() * pow2(k)
        } else {
            0
        }),
    decreases n,
{
    if n > 0 {
        lemma_size_update(ls, k, s, (n - 1) as nat);
    }
}

/// Pushing one block of order `k` adds `pow2(k)` free bytes.
proof fn lemma_size_push(ls: Seq<Seq<usize>>, k: nat, x: usize)
    requires
        k < ls.len(),
    ensures
        free_size(ls.update(k as int, seq![x] + ls[k as int])) == free_size(ls) + pow2(k),
{
    let s = seq![x] + ls[k as int];
    lemma_size_update(ls, k, s, ls.len());
    assert(s.len() * pow2(k) == ls[k as int].len() * pow2(k) + pow2(k)) by (nonlinear_arith)
        requires
            s.len() == ls[k as int].len() + 1,
    ;
}

/// Removing one block of order `k` takes `pow2(k)` free bytes away.
proof fn lemma_size_remove(ls: Seq<Seq<usize>>, k: nat, j: int)
    requires
        k < ls.len(),
        0 <= j < ls[k as int].len(),
    ensures
        free_size(ls.update(k as int, ls[k as int].remove(j))) + pow2(k) == free_size(ls),
{
    let s = ls[k as int].remove(j);
    lemma_size_update(ls, k, s, ls.len());
    assert(s.len() * pow2(k) + pow2(k) == ls[k as int].len() * pow2(k)) by (nonlinear_arith)
        requires
            s.len() + 1 == ls[k as int].len(),
    ;
}


/// The order of the block an allocation of `size` bytes aligned to `align`
/// takes: the largest of the order of `size` rounded up to a power of two, the
/// order of `align`, and the order of a machine word.
pub open spec fn request_order(size: nat, align: nat) -> nat {
    let s = ceil_log2(size);
    let a = log2(align);
    let w = log2(vstd::layout::size_of::<usize>());
    if s >= a && s >= w {
        s
    } else if a >= w {
        a
    } else {
        w
    }
}

/// The first order at or above `k` whose free list is not empty
/// (`LAYER_COUNT` when there is none).
pub open spec fn first_nonempty(ls: Seq<Seq<usize>>, k: nat) -> nat
    decreases LAYER_COUNT - k,
{
    if k >= LAYER_COUNT {
        LAYER_COUNT as nat
    } else if ls[k as int].len() > 0 {
        k
    } else {
        first_nonempty(ls, k + 1)
    }
}

/// The free lists after the head block `h` of order `i` was split down to
/// order `j`: the halves above `h` of orders `j + 1 .. i` stand alone on
/// their lists, and the list of order `j` holds `h` and its upper half.
pub open spec fn split_stage(ls: Seq<Seq<usize>>, i: nat, j: nat) -> Seq<Seq<usize>> {
    let h = ls[i as int][0];
    Seq::new(
        ls.len(),
        |k: int|
            if j < i && k == j {
                seq![h, (h + pow2(j)) as usize]
            } else if j < i && k == i {
                ls[k].drop_first()
            } else if j < k < i {
                seq![(h + pow2(k as nat)) as usize]
            } else {
                ls[k]
            },
    )
}

/// The free lists after an allocation of order `ord` took the head of the
/// list of order `i`: that head leaves its list, and of its upper halves one of
/// each order `ord .. i` stays free.
pub open spec fn split_layers(ls: Seq<Seq<usize>>, ord: nat, i: nat) -> Seq<Seq<usize>> {
    let h = ls[i as int][0];
    Seq::new(
        ls.len(),
        |k: int|
            if k == i {
                ls[k].drop_first()
            } else if ord <= k < i {
                seq![(h + pow2(k as nat)) as usize]
            } else {
                ls[k]
            },
    )
}

/// A buddy heap: one free list per block order, the bytes it manages and the
/// bytes it has handed out.
pub struct Heap {
    layer: Vec<LinkedList>,
    total: usize,
    allocated: usize,
    held: Ghost<Set<int>>,
}

impl Heap {
    /// The free lists, order by order.
    pub closed spec fn layers(&self) -> Seq<Seq<usize>> {
        Seq::new(self.layer@.len(), |k: int| self.layer@[k]@)
    }

    /// The bytes handed to the heap.
    pub closed spec fn total_bytes(&self) -> nat {
        self.total as nat
    }

    /// The bytes handed out and not given back.
    pub closed spec fn allocated_bytes(&self) -> nat {
        self.allocated as nat
    }

    /// The bytes of the blocks handed out and not given back (nor handed to
    /// the heap again).
    pub closed spec fn held_bytes(&self) -> Set<int> {
        self.held@
    }

    /// Well-formed free lists, and every managed byte either free or handed
    /// out.
    pub open spec fn lists_ok(&self) -> bool {
        &&& layers_wf(self.layers())
        &&& self.allocated_bytes() + free_size(self.layers()) == self.total_bytes()
    }

    /// The heap's invariant: its lists are in order, and no byte of a block
    /// still held is free.
    pub open spec fn wf(&self) -> bool {
        &&& self.lists_ok()
        &&& self.held_bytes().disjoint(free_bytes(self.layers()))
    }

    /// An empty heap that manages no memory.
    pub fn new() -> (h: Heap)
        ensures
            h.wf(),
            h.layers() == Seq::new(LAYER_COUNT as nat, |k: int| Seq::<usize>::empty()),
            h.total_bytes() == 0,
            h.allocated_bytes() == 0,
            h.held_bytes() == Set::<int>::empty(),
    {
        let mut layer: Vec<LinkedList> = Vec::new();
        let mut k: usize = 0;
        while k < LAYER_COUNT
            invariant
                k <= LAYER_COUNT,
                layer@.len() == k,
                forall|i: int| 0 <= i < k ==> (#[trigger] layer@[i])@ == Seq::<usize>::empty(),
            decreases LAYER_COUNT - k,
        {
            layer.push(LinkedList::new());
            k = k + 1;
        }
        let h = Heap { layer, total: 0, allocated: 0, held: Ghost(Set::empty()) };
        assert(h.layers() =~= Seq::new(LAYER_COUNT as nat, |k: int| Seq::<usize>::empty()));
        assert(layers_size(h.layers(), LAYER_COUNT as nat) == 0) by {
            lemma_size_empty(h.layers(), LAYER_COUNT as nat);
        }
        h
    }

    /// The free list of order `k`.
    pub fn layer(&self, k: usize) -> (l: &LinkedList)
        requires
            k < self.layers().len(),
        ensures
            l@ == self.layers()[k as int],
    {
        &self.layer[k]
    }

    /// The bytes handed to the heap.
    pub fn total(&self) -> (t: usize)
        ensures
            t == self.total_bytes(),
    {
        self.total
    }

    /// The bytes handed out and not given back.
    pub fn allocated(&self) -> (a: usize)
        ensures
            a == self.allocated_bytes(),
    {
        self.allocated
    }

    fn push_to(&mut self, k: usize, a: usize)
        requires
            k < old(self).layers().len(),
        ensures
            final(self).layers() == old(self).layers().update(
                k as int,
                seq![a] + old(self).layers()[k as int],
            ),
            final(self).total == old(self).total,
            final(self).allocated == old(self).allocated,
            final(self).held == old(self).held,
    {
        self.layer[k].push(a);
        assert(self.layers() =~= old(self).layers().update(
            k as int,
            seq![a] + old(self).layers()[k as int],
        ));
    }

    fn pop_from(&mut self, k: usize) -> (r: Option<usize>)
        requires
            k < old(self).layers().len(),
        ensures
            old(self).layers()[k as int].len() == 0 ==> r is None && final(self).layers() == old(
                self,
            ).layers(),
            old(self).layers()[k as int].len() > 0 ==> r == Some(old(self).layers()[k as int][0])
                && final(self).layers() == old(self).layers().update(
                k as int,
                old(self).layers()[k as int].drop_first(),
            ),
            final(self).total == old(self).total,
            final(self).allocated == old(self).allocated,
            final(self).held == old(self).held,
    {
        let r = self.layer[k].pop();
        assert(self.layers() =~= old(self).layers().update(k as int, self.layer@[k as int]@));
        proof {
            if old(self).layers()[k as int].len() == 0 {
                assert(self.layers() =~= old(self).layers());
            }
        }
        r
    }
}

proof fn lemma_size_empty(ls: Seq<Seq<usize>>, n: nat)
    requires
        n <= ls.len(),
        forall|k: int| 0 <= k < n ==> (#[trigger] ls[k]).len() == 0,
    ensures
        layers_size(ls, n) == 0,
    decreases n,
{
    if n > 0 {
        lemma_size_empty(ls, (n - 1) as nat);
    }
}


/// The order of a machine word.
pub proof fn lemma_word_order()
    ensures
        vstd::layout::size_of::<usize>() == pow2(log2(vstd::layout::size_of::<usize>())),
        log2(vstd::layout::size_of::<usize>()) < usize::BITS,
        usize::BITS == 32 || usize::BITS == 64,
{
    broadcast use vstd::layout::layout_of_primitives;

    assert(vstd::layout::size_of::<usize>() * 8 == usize::BITS);
    lemma2_to64();
    if usize::BITS == 32 {
        assert(vstd::layout::size_of::<usize>() == 4);
        lemma_log2_pow2(2);
    } else {
        assert(vstd::layout::size_of::<usize>() == 8);
        lemma_log2_pow2(3);
    }
}

/// A valid layout asks for a block order the machine can address.
proof fn lemma_request_order_fits(size: usize, align: usize)
    requires
        valid_layout(size, align),
    ensures
        align == pow2(log2(align as nat)),
        log2(align as nat) < usize::BITS,
        ceil_log2(size as nat) < usize::BITS,
        pow2(ceil_log2(size as nat)) <= usize::MAX,
        request_order(size as nat, align as nat) < usize::BITS,
{
    lemma_word_order();
    lemma_is_pow2_log2(align as int);
    lemma_log2_usize(align);
    lemma2_to64();
    lemma2_to64_rest();
    let b = (usize::BITS - 1) as nat;
    assert(isize::MAX + 1 == pow2(b));
    let c = ceil_log2(size as nat);
    lemma_ceil_log2_bounds(size as nat);
    if c > b {
        lemma_pow2_monotone(b, (c - 1) as nat);
        assert(size <= isize::MAX);
        assert(false);
    }
    lemma_pow2_monotone(c, b);
}

/// The block size an allocation of `size` bytes aligned to `align` takes:
/// `max(size.next_power_of_two(), align, size_of::<usize>())`.
fn request_size(size: usize, align: usize) -> (s: usize)
    requires
        valid_layout(size, align),
    ensures
        s == pow2(request_order(size as nat, align as nat)),
        request_order(size as nat, align as nat) < usize::BITS,
{
    proof {
        lemma_request_order_fits(size, align);
        lemma_word_order();
    }
    let a = next_power_of_two(size);
    let w = core::mem::size_of::<usize>();
    let b = if align > w {
        align
    } else {
        w
    };
    proof {
        let ec = ceil_log2(size as nat);
        let ea = log2(align as nat);
        let ew = log2(vstd::layout::size_of::<usize>());
        let eb = if align > w {
            ea
        } else {
            ew
        };
        assert(b == pow2(eb));
        if align > w {
            if ea < ew {
                lemma_pow2_monotone(ea, ew);
            }
        } else {
            if ea > ew {
                lemma_pow2_strictly_increases(ew, ea);
            }
        }
        if a > b {
            if ec <= eb {
                lemma_pow2_monotone(ec, eb);
            }
        } else {
            if ec > eb {
                lemma_pow2_strictly_increases(eb, ec);
            }
        }
    }
    if a > b {
        a
    } else {
        b
    }
}

/// A block inside a block apart from `(b, l)` is apart from it too.
proof fn lemma_apart_inside(x: int, kx: nat, y: int, ky: nat, b: int, l: nat)
    requires
        apart(y, ky, b, l),
        y <= x,
        x + pow2(kx) <= y + pow2(ky),
    ensures
        apart(x, kx, b, l),
{
    lemma_pow2_pos(kx);
}

impl Heap {
    /// One split step of `allocate`: the head of the list of order `j` leaves it
    /// and its two halves go on the list of order `j - 1`, lower half first.
    fn split_head(&mut self, j: usize) -> (h: usize)
        requires
            old(self).lists_ok(),
            0 < j < LAYER_COUNT,
            old(self).layers()[j as int].len() > 0,
        ensures
            final(self).lists_ok(),
            final(self).held == old(self).held,
            h == old(self).layers()[j as int][0],
            final(self).layers() == old(self).layers().update(
                j as int,
                old(self).layers()[j as int].drop_first(),
            ).update(
                j - 1,
                seq![h, (h + pow2((j - 1) as nat)) as usize] + old(self).layers()[j - 1],
            ),
            final(self).total == old(self).total,
            final(self).allocated == old(self).allocated,
    {
        let ghost ls0 = self.layers();
        let ghost k = (j - 1) as nat;
        let h = self.pop_from(j).unwrap();
        proof {
            lemma_drop_first_is_remove(ls0[j as int]);
            assert(is_block(ls0, h, j as nat)) by {
                assert(ls0[j as int][0] == h);
            }
            lemma_wf_remove(ls0, j as nat, 0);
            lemma_size_remove(ls0, j as nat, 0);
            lemma_pow2_unfold(j as nat);
            lemma_usize_pow2_no_overflow(k);
            lemma_usize_shl_is_mul(1, k as usize);
            lemma_align_smaller(h as int, j as nat, k);
            lemma_align_add(h as int, k);
        }
        let ghost ls1 = self.layers();
        let upper = h + (1usize << (j - 1));
        self.push_to(j - 1, upper);
        proof {
            assert forall|b: usize, l: nat| #[trigger] is_block(ls1, b, l) implies apart(
                upper as int,
                k,
                b as int,
                l,
            ) by {
                assert(is_block(ls0, b, l) && !(b == h && l == j as nat));
                lemma_apart_inside(upper as int, k, h as int, j as nat, b as int, l);
            }
            lemma_wf_push(ls1, k, upper);
            lemma_size_push(ls1, k, upper);
        }
        let ghost ls2 = self.layers();
        self.push_to(j - 1, h);
        proof {
            assert forall|b: usize, l: nat| #[trigger] is_block(ls2, b, l) implies apart(
                h as int,
                k,
                b as int,
                l,
            ) by {
                if !(b == upper && l == k) {
                    assert(is_block(ls0, b, l) && !(b == h && l == j as nat));
                    lemma_apart_inside(h as int, k, h as int, j as nat, b as int, l);
                }
            }
            lemma_wf_push(ls2, k, h);
            lemma_size_push(ls2, k, h);
            assert(seq![h] + (seq![upper] + ls0[k as int]) =~= seq![h, upper] + ls0[k as int]);
            assert(self.layers() =~= ls0.update(j as int, ls0[j as int].drop_first()).update(
                k as int,
                seq![h, upper] + ls0[k as int],
            ));
        }
        h
    }

    /// Hands out a block for `size` bytes aligned to `align`: the smallest
    /// order that fits, taken from the first non-empty free list at or above
    /// it, split in halves down to that order. `None` when no list at or above
    /// that order has a block.
    pub fn allocate(&mut self, size: usize, align: usize) -> (r: Option<usize>)
        requires
            old(self).wf(),
            valid_layout(size, align),
        ensures
            final(self).wf(),
            final(self).total_bytes() == old(self).total_bytes(),
            ({
                let ls = old(self).layers();
                let ord = request_order(size as nat, align as nat);
                let i = first_nonempty(ls, ord);
                &&& i >= LAYER_COUNT ==> r is None && final(self).layers() == ls
                    && final(self).allocated_bytes() == old(self).allocated_bytes()
                &&& i < LAYER_COUNT ==> r == Some(ls[i as int][0]) && final(self).layers()
                    == split_layers(ls, ord, i) && final(self).allocated_bytes()
                    == old(self).allocated_bytes() + pow2(ord)
                &&& i < LAYER_COUNT ==> block_ok(ls[i as int][0] as int, ord) && free_bytes(
                    final(self).layers(),
                ) == free_bytes(ls).difference(block_bytes(ls[i as int][0] as int, ord))
                    && block_bytes(ls[i as int][0] as int, ord).subset_of(free_bytes(ls))
            }),
            r matches Some(a) ==> (a as int) % (align as int) == 0 && a + size <= usize::MAX + 1,
            fully_merged(old(self).layers()) ==> fully_merged(final(self).layers()),
            r is None ==> final(self).held_bytes() == old(self).held_bytes(),
            r is Some <==> exists|j: int|
                request_order(size as nat, align as nat) <= j < LAYER_COUNT
                    && #[trigger] old(self).layers()[j].len() > 0,
            r matches Some(a) ==> exists|i: int|
                request_order(size as nat, align as nat) <= i < LAYER_COUNT
                    && #[trigger] old(self).layers()[i].len() > 0 && a == old(self).layers()[i][0]
                    && forall|j: int|
                    request_order(size as nat, align as nat) <= j < i ==> #[trigger] old(
                        self,
                    ).layers()[j].len() == 0,
            r matches Some(a) ==> block_bytes(a as int, request_order(size as nat, align as nat)).disjoint(
                old(self).held_bytes(),
            ) && final(self).held_bytes() == old(self).held_bytes().union(
                block_bytes(a as int, request_order(size as nat, align as nat)),
            ),
    {
        let ghost ls = self.layers();
        let s = request_size(size, align);
        proof {
            lemma_request_order_fits(size, align);
            lemma_usize_pow2_no_overflow(request_order(size as nat, align as nat));
        }
        let ord = order_of(s);
        let ghost ordn = ord as nat;
        proof {
            lemma_log2_pow2(ordn);
            lemma_log2_pow2(request_order(size as nat, align as nat));
        }
        let mut i = ord;
        while i < self.layer.len()
            invariant
                self.wf(),
                self.held == old(self).held,
                self.layers() == ls,
                ls == old(self).layers(),
                valid_layout(size, align),
                self.total == old(self).total,
                self.allocated == old(self).allocated,
                self.layer@.len() == LAYER_COUNT,
                ord <= i,
                ordn == ord,
                ordn == request_order(size as nat, align as nat),
                s == pow2(ordn),
                first_nonempty(ls, ordn) == first_nonempty(ls, i as nat),
            decreases LAYER_COUNT - i,
        {
            if !self.layer[i].is_empty() {
                proof {
                    assert(self.layers()[i as int] == self.layer@[i as int]@);
                    assert(first_nonempty(ls, i as nat) == i);
                    assert(ordn <= i);
                    assert(i < LAYER_COUNT);
                    lemma_first_nonempty_below(ls, ordn, i as nat);
                }
                let ghost h = ls[i as int][0];
                let mut j = i;
                while j > ord
                    invariant
                        self.lists_ok(),
                        self.held == old(self).held,
                        self.total == old(self).total,
                        self.allocated == old(self).allocated,
                        self.layer@.len() == LAYER_COUNT,
                        ord <= j <= i < LAYER_COUNT,
                        ordn == ord,
                        ls == old(self).layers(),
                        valid_layout(size, align),
                        ls[i as int].len() > 0,
                        h == ls[i as int][0],
                        forall|k: int| ord <= k < i ==> (#[trigger] ls[k]).len() == 0,
                        self.layers() == split_stage(ls, i as nat, j as nat),
                    decreases j,
                {
                    proof {
                        assert(self.layers()[j as int].len() > 0);
                    }
                    let ghost cur = self.layers();
                    let b = self.split_head(j);
                    proof {
                        assert(b == h);
                        let x = (h + pow2((j - 1) as nat)) as usize;
                        assert(cur[j - 1] == ls[j - 1]);
                        assert(seq![h, x] + cur[j - 1] =~= seq![h, x]);
                        if j < i {
                            assert(cur[j as int].drop_first() =~= seq![
                                (h + pow2(j as nat)) as usize,
                            ]);
                        }
                        assert(self.layers() =~= split_stage(ls, i as nat, (j - 1) as nat));
                    }
                    j = j - 1;
                }
                proof {
                    assert(self.layers()[ord as int].len() > 0);
                }
                let ghost cur = self.layers();
                let ret = self.pop_from(ord).unwrap();
                proof {
                    lemma_drop_first_is_remove(cur[ord as int]);
                    lemma_wf_remove(cur, ordn, 0);
                    lemma_size_remove(cur, ordn, 0);
                    assert(is_block(cur, ret, ordn)) by {
                        assert(cur[ord as int][0] == ret);
                    }
                    if ord < i {
                        assert(cur[ord as int].drop_first() =~= seq![
                            (h + pow2(ordn)) as usize,
                        ]);
                    }
                    assert(self.layers() =~= split_layers(ls, ordn, i as nat));
                }
                if ret == 0 {
                    proof {
                        lemma_first_nonempty_is_lowest(ls, ordn);
                    }
                    return None;
                }
                self.allocated = self.allocated + s;
                self.held = Ghost(self.held@.union(block_bytes(ret as int, ordn)));
                proof {
                    assert(self.layers() == split_layers(ls, ordn, i as nat));
                    assert(ret == h);
                    assert(first_nonempty(ls, request_order(size as nat, align as nat)) == i);
                    lemma_split_layers(ls, ordn, i as nat);
                    lemma_request_covers(size, align);
                    assert((ret as int) % (align as int) == 0);
                    assert(self.allocated_bytes() == old(self).allocated_bytes() + pow2(ordn));
                    if fully_merged(ls) {
                        lemma_allocate_keeps_merged(ls, ordn, i as nat);
                    }
                    lemma_first_nonempty_is_lowest(ls, ordn);
                    assert(ls[i as int].len() > 0);
                }
                return Some(ret);
            }
            proof {
                assert(self.layers()[i as int].len() == 0);
            }
            i = i + 1;
        }
        proof {
            lemma_first_nonempty_top(ls, i as nat);
            lemma_first_nonempty_is_lowest(ls, ordn);
        }
        None
    }
}

/// Below the first non-empty list at or above `ord`, every list is empty.
proof fn lemma_first_nonempty_below(ls: Seq<Seq<usize>>, ord: nat, i: nat)
    requires
        ord <= i < LAYER_COUNT,
        first_nonempty(ls, ord) == first_nonempty(ls, i),
        first_nonempty(ls, i) == i,
    ensures
        forall|k: int| ord <= k < i ==> (#[trigger] ls[k]).len() == 0,
    decreases i - ord,
{
    if ord < i {
        assert(ls[ord as int].len() == 0);
        lemma_first_nonempty_below(ls, ord + 1, i);
    }
}

proof fn lemma_first_nonempty_top(ls: Seq<Seq<usize>>, i: nat)
    requires
        i >= LAYER_COUNT,
    ensures
        first_nonempty(ls, i) == LAYER_COUNT,
{
}


/// The size of a machine word in bytes.
pub open spec fn word_bytes() -> nat {
    vstd::layout::size_of::<usize>()
}

/// The order of the block `manage` cuts at `cur` when memory ends at `end`: as
/// large as the alignment of `cur` allows and no larger than what is left.
pub open spec fn cut_order(cur: nat, end: nat) -> nat {
    let a = low_order(cur);
    let b = log2((end - cur) as nat);
    if a <= b {
        a
    } else {
        b
    }
}

/// The blocks, in order, that `manage` cuts from `[cur, end)`: at each step the
/// largest well-aligned block that fits, while a word still fits.
pub open spec fn cut_blocks(cur: nat, end: nat) -> Seq<(usize, nat)>
    decreases end - cur,
{
    if cur == 0 || cur + word_bytes() > end {
        Seq::empty()
    } else {
        proof {
            lemma_log2_bounds((end - cur) as nat);
            lemma_pow2_monotone(cut_order(cur, end), log2((end - cur) as nat));
            lemma_pow2_pos(cut_order(cur, end));
        }
        seq![(cur as usize, cut_order(cur, end))] + cut_blocks(
            cur + pow2(cut_order(cur, end)),
            end,
        )
    }
}

/// `manage` on `[cur, end)` runs without overflow: every step finds the word
/// test addressable, a nonzero address and an order with a free list.
pub open spec fn cuts_fit(cur: nat, end: nat) -> bool
    decreases end - cur,
{
    &&& cur + word_bytes() <= usize::MAX
    &&& (cur + word_bytes() > end || {
        &&& cur > 0
        &&& cut_order(cur, end) < LAYER_COUNT
        &&& {
            proof {
                lemma_log2_bounds((end - cur) as nat);
                lemma_pow2_monotone(cut_order(cur, end), log2((end - cur) as nat));
                lemma_pow2_pos(cut_order(cur, end));
            }
            cuts_fit(cur + pow2(cut_order(cur, end)), end)
        }
    })
}

/// The free lists after pushing the blocks `bs`, in order, each on the list of
/// its order.
pub open spec fn push_blocks(ls: Seq<Seq<usize>>, bs: Seq<(usize, nat)>) -> Seq<Seq<usize>>
    decreases bs.len(),
{
    if bs.len() == 0 {
        ls
    } else {
        let p = push_blocks(ls, bs.drop_last());
        let b = bs.last();
        p.update(b.1 as int, seq![b.0] + p[b.1 as int])
    }
}

/// The bytes the blocks `bs` hold.
pub open spec fn blocks_size(bs: Seq<(usize, nat)>) -> nat
    decreases bs.len(),
{
    if bs.len() == 0 {
        0
    } else {
        blocks_size(bs.drop_last()) + pow2(bs.last().1)
    }
}

impl Heap {
    /// Hands the memory `[start, end)` to the heap: it is cut, from the
    /// bottom, into the largest well-aligned blocks that fit, each pushed on
    /// the free list of its order, until less than a word is left.
    pub fn manage(&mut self, start: usize, end: usize)
        requires
            old(self).wf(),
            start <= end,
            cuts_fit(start as nat, end as nat),
            forall|a: usize, k: nat| #[trigger]
                is_block(old(self).layers(), a, k) ==> a + pow2(k) <= start || end <= a,
            old(self).total_bytes() + blocks_size(cut_blocks(start as nat, end as nat))
                <= usize::MAX,
        ensures
            final(self).wf(),
            final(self).layers() == push_blocks(
                old(self).layers(),
                cut_blocks(start as nat, end as nat),
            ),
            final(self).total_bytes() == old(self).total_bytes() + blocks_size(
                cut_blocks(start as nat, end as nat),
            ),
            final(self).allocated_bytes() == old(self).allocated_bytes(),
            free_bytes(final(self).layers()) == free_bytes(old(self).layers()).union(
                range_bytes(start as int, start + blocks_size(cut_blocks(start as nat, end as nat))),
            ),
            final(self).held_bytes() == old(self).held_bytes().difference(
                range_bytes(start as int, start + blocks_size(cut_blocks(start as nat, end as nat))),
            ),
    {
        let ghost ls = self.layers();
        let ghost all = cut_blocks(start as nat, end as nat);
        proof {
            assert(free_bytes(ls) =~= free_bytes(ls).union(range_bytes(start as int, start as int)));
        }
        let mut cur = start;
        let mut total: usize = 0;
        let ghost mut done: Seq<(usize, nat)> = Seq::empty();
        proof {
            assert(done + cut_blocks(cur as nat, end as nat) =~= all);
        }
        while cur + core::mem::size_of::<usize>() <= end
            invariant
                start <= cur <= end,
                ls == old(self).layers(),
                all == cut_blocks(start as nat, end as nat),
                done + cut_blocks(cur as nat, end as nat) == all,
                self.layers() == push_blocks(ls, done),
                layers_wf(self.layers()),
                free_size(self.layers()) == free_size(ls) + blocks_size(done),
                total == blocks_size(done),
                total == cur - start,
                free_bytes(self.layers()) == free_bytes(ls).union(
                    range_bytes(start as int, cur as int),
                ),
                cuts_fit(cur as nat, end as nat),
                forall|a: usize, k: nat| #[trigger]
                    is_block(self.layers(), a, k) ==> a + pow2(k) <= cur || end <= a,
                self.total == old(self).total,
                self.allocated == old(self).allocated,
                self.held == old(self).held,
                self.layer@.len() == LAYER_COUNT,
            decreases end - cur,
        {
            let ghost k = cut_order(cur as nat, end as nat);
            proof {
                lemma_lowbit(cur as u64);
                lemma_low_order_divides(cur as nat);
                lemma_log2_bounds((end - cur) as nat);
                lemma_pow2_pos(low_order(cur as nat));
                let p = pow2(low_order(cur as nat));
                vstd::arithmetic::div_mod::lemma_fundamental_div_mod(cur as int, p as int);
                let q = (cur as int) / (p as int);
                assert(p <= cur) by (nonlinear_arith)
                    requires
                        cur == p * q + 0,
                        q % 2 == 1,
                        p > 0,
                ;
            }
            let c = cur as u64;
            let lowbit = (c & (!c + 1)) as usize;
            let prev = prev_power_of_2(end - cur);
            let size = if lowbit < prev {
                lowbit
            } else {
                prev
            };
            proof {
                let lo = low_order(cur as nat);
                let lg = log2((end - cur) as nat);
                if lo <= lg {
                    lemma_pow2_monotone(lo, lg);
                } else {
                    lemma_pow2_strictly_increases(lg, lo);
                }
                assert(size == pow2(k));
                lemma_pow2_monotone(k, lg);
                lemma_usize_pow2_no_overflow(k);
            }
            let order = order_of(size);
            proof {
                lemma_log2_pow2(order as nat);
                lemma_log2_pow2(k);
                assert(order == k);
                lemma_align_smaller(cur as int, low_order(cur as nat), k);
                assert(forall|a: usize, l: nat| #[trigger]
                    is_block(self.layers(), a, l) ==> apart(cur as int, k, a as int, l));
                lemma_wf_push(self.layers(), k, cur);
                lemma_size_push(self.layers(), k, cur);
                lemma_bytes_push(self.layers(), k, cur);
                assert(free_bytes(ls).union(range_bytes(start as int, cur as int)).union(
                    block_bytes(cur as int, k),
                ) =~= free_bytes(ls).union(range_bytes(start as int, cur + size)));
            }
            let ghost before = self.layers();
            self.push_to(order, cur);
            proof {
                let b = (cur, k);
                let done2 = done.push(b);
                assert(done2.drop_last() =~= done);
                assert(cut_blocks(cur as nat, end as nat) == seq![b] + cut_blocks(
                    (cur + size) as nat,
                    end as nat,
                ));
                assert(done2 + cut_blocks((cur + size) as nat, end as nat) =~= done + cut_blocks(
                    cur as nat,
                    end as nat,
                ));
                assert(self.layers() == push_blocks(ls, done2));
                assert forall|a: usize, l: nat| #[trigger] is_block(self.layers(), a, l) implies a
                    + pow2(l) <= cur + size || end <= a by {
                    if !(a == cur && l == k) {
                        assert(is_block(before, a, l));
                    }
                }
                done = done2;
            }
            cur = cur + size;
            total = total + size;
        }
        proof {
            assert(cut_blocks(cur as nat, end as nat) == Seq::<(usize, nat)>::empty());
            assert(done =~= all);
        }
        self.total = self.total + total;
        self.held = Ghost(
            self.held@.difference(range_bytes(start as int, start + blocks_size(all))),
        );
    }

    /// Hands the `size` bytes at `start` to the heap (see [`Heap::manage`]).
    pub fn init(&mut self, start: usize, size: usize)
        requires
            old(self).wf(),
            start + size <= usize::MAX,
            cuts_fit(start as nat, (start + size) as nat),
            forall|a: usize, k: nat| #[trigger]
                is_block(old(self).layers(), a, k) ==> a + pow2(k) <= start || start + size <= a,
            old(self).total_bytes() + blocks_size(cut_blocks(start as nat, (start + size) as nat))
                <= usize::MAX,
        ensures
            final(self).wf(),
            final(self).layers() == push_blocks(
                old(self).layers(),
                cut_blocks(start as nat, (start + size) as nat),
            ),
            final(self).total_bytes() == old(self).total_bytes() + blocks_size(
                cut_blocks(start as nat, (start + size) as nat),
            ),
            final(self).allocated_bytes() == old(self).allocated_bytes(),
            free_bytes(final(self).layers()) == free_bytes(old(self).layers()).union(
                range_bytes(
                    start as int,
                    start + blocks_size(cut_blocks(start as nat, (start + size) as nat)),
                ),
            ),
            final(self).held_bytes() == old(self).held_bytes().difference(
                range_bytes(
                    start as int,
                    start + blocks_size(cut_blocks(start as nat, (start + size) as nat)),
                ),
            ),
    {
        self.manage(start, start + size)
    }
}


/// The buddy of the block at `b` of order `k`: the other half of the block of
/// order `k + 1` that holds it.
pub open spec fn buddy(b: int, k: nat) -> int {
    if (b / (pow2(k) as int)) % 2 == 0 {
        b + pow2(k)
    } else {
        b - pow2(k)
    }
}

/// The block of order `k + 1` that holds the block at `b` of order `k`.
pub open spec fn parent(b: int, k: nat) -> int {
    if (b / (pow2(k) as int)) % 2 == 0 {
        b
    } else {
        b - pow2(k)
    }
}

/// The block of order `k` that merging the freed block `(ptr, ord)` with its
/// buddies has built by order `k`.
pub open spec fn merged_block(ptr: int, ord: nat, k: nat) -> int
    decreases k,
{
    if k <= ord {
        ptr
    } else {
        parent(merged_block(ptr, ord, (k - 1) as nat), (k - 1) as nat)
    }
}

/// The buddy that merging meets at order `k`.
pub open spec fn merge_buddy(ptr: int, ord: nat, k: nat) -> int {
    buddy(merged_block(ptr, ord, k), k)
}

/// The buddy met at order `k` is on the free list of that order.
pub open spec fn buddy_free(ls: Seq<Seq<usize>>, ptr: int, ord: nat, k: nat) -> bool {
    &&& 0 <= merge_buddy(ptr, ord, k) <= usize::MAX
    &&& ls[k as int].contains(merge_buddy(ptr, ord, k) as usize)
}

/// The order at which merging the freed block `(ptr, ord)` stops, searching from
/// order `k`: the first order whose free list lacks the buddy
/// (`LAYER_COUNT` if every list up to the top has it).
pub open spec fn merge_order(ls: Seq<Seq<usize>>, ptr: int, ord: nat, k: nat) -> nat
    decreases LAYER_COUNT - k,
{
    if k >= LAYER_COUNT {
        LAYER_COUNT as nat
    } else if buddy_free(ls, ptr, ord, k) {
        merge_order(ls, ptr, ord, k + 1)
    } else {
        k
    }
}

/// Merging never stops below the order it starts from.
proof fn lemma_merge_order_above(ls: Seq<Seq<usize>>, ptr: int, ord: nat, k: nat)
    requires
        k <= LAYER_COUNT,
    ensures
        merge_order(ls, ptr, ord, k) >= k,
    decreases LAYER_COUNT - k,
{
    if k < LAYER_COUNT && buddy_free(ls, ptr, ord, k) {
        lemma_merge_order_above(ls, ptr, ord, k + 1);
    }
}

/// The free lists while merging the freed block `(ptr, ord)` is at order `c`:
/// the buddies of orders `ord .. c` have left their lists and the block merged
/// so far heads the list of order `c`.
pub open spec fn merge_stage(ls: Seq<Seq<usize>>, ptr: int, ord: nat, c: nat) -> Seq<Seq<usize>> {
    Seq::new(
        ls.len(),
        |k: int|
            if ord <= k < c {
                ls[k].remove(ls[k].index_of(merge_buddy(ptr, ord, k as nat) as usize))
            } else if k == c {
                seq![merged_block(ptr, ord, c) as usize] + ls[k]
            } else {
                ls[k]
            },
    )
}

/// The parent of an aligned block is aligned to its own size.
proof fn lemma_parent_aligned(b: int, k: nat)
    requires
        b >= 0,
        b % (pow2(k) as int) == 0,
    ensures
        parent(b, k) % (pow2(k + 1) as int) == 0,
        parent(b, k) == b || parent(b, k) == buddy(b, k),
        buddy(b, k) != b,
        parent(b, k) <= b && parent(b, k) <= buddy(b, k),
        b + pow2(k) <= parent(b, k) + pow2(k + 1),
        buddy(b, k) + pow2(k) <= parent(b, k) + pow2(k + 1),
        parent(b, k) == b <==> b < buddy(b, k),
        parent(b, k) == b ==> parent(b, k) + pow2(k + 1) == buddy(b, k) + pow2(k),
        parent(b, k) != b ==> parent(b, k) + pow2(k + 1) == b + pow2(k),
{
    let p = pow2(k) as int;
    lemma_pow2_pos(k);
    lemma_pow2_unfold(k + 1);
    lemma_fundamental_div_mod(b, p);
    let q = b / p;
    assert(b == p * q);
    lemma_fundamental_div_mod(q, 2);
    let r = q / 2;
    if q % 2 == 0 {
        assert(b == (2 * p) * r) by (nonlinear_arith)
            requires
                b == p * q,
                q == 2 * r,
        ;
        lemma_mod_multiples_basic(r, 2 * p);
        vstd::arithmetic::mul::lemma_mul_is_commutative(r, 2 * p);
    } else {
        assert(b - p == (2 * p) * r) by (nonlinear_arith)
            requires
                b == p * q,
                q == 2 * r + 1,
        ;
        lemma_mod_multiples_basic(r, 2 * p);
        vstd::arithmetic::mul::lemma_mul_is_commutative(r, 2 * p);
    }
}

/// A block apart from both halves of a block is apart from the whole.
proof fn lemma_apart_parent(x: int, kx: nat, b: int, k: nat)
    requires
        b >= 0,
        b % (pow2(k) as int) == 0,
        apart(x, kx, b, k),
        apart(x, kx, buddy(b, k), k),
    ensures
        apart(x, kx, parent(b, k), k + 1),
{
    lemma_parent_aligned(b, k);
    lemma_pow2_pos(kx);
    lemma_pow2_unfold(k + 1);
}

/// XOR with the block size gives the buddy of an address, and the smaller of
/// the two is the parent.
proof fn lemma_xor_buddy(x: usize, c: usize)
    requires
        c < LAYER_COUNT,
    ensures
        1usize << c == pow2(c as nat),
        x ^ (1usize << c) == buddy(x as int, c as nat),
{
    lemma_word_order();
    lemma_usize_pow2_no_overflow(c as nat);
    lemma_usize_shl_is_mul(1, c);
    lemma_usize_shr_is_div(x, c);
    let m = 1usize << c;
    assert((x >> c) & 1 == (x >> c) % 2) by (bit_vector);
    assert((x >> c) & 1 == 0 ==> x ^ m == x + m) by (bit_vector)
        requires
            c < 32,
            m == 1usize << c,
    ;
    assert((x >> c) & 1 != 0 ==> x ^ m == x - m) by (bit_vector)
        requires
            c < 32,
            m == 1usize << c,
    ;
}

impl Heap {
    /// Unlinks `v` from the list of order `c`, if it is there; says whether it
    /// was.
    fn remove_entry(&mut self, c: usize, v: usize) -> (found: bool)
        requires
            c < old(self).layers().len(),
            old(self).layers()[c as int].no_duplicates(),
        ensures
            found == old(self).layers()[c as int].contains(v),
            found ==> exists|j: int|
                0 <= j < old(self).layers()[c as int].len() && old(self).layers()[c as int][j] == v
                    && final(self).layers() == old(self).layers().update(
                    c as int,
                    old(self).layers()[c as int].remove(j),
                ),
            !found ==> final(self).layers() == old(self).layers(),
            final(self).total == old(self).total,
            final(self).allocated == old(self).allocated,
            final(self).held == old(self).held,
    {
        let ghost l0 = self.layers()[c as int];
        let mut it = self.layer[c].iter_mut();
        loop
            invariant
                c < self.layer@.len(),
                self.layers() == old(self).layers(),
                l0 == old(self).layers()[c as int],
                l0.no_duplicates(),
                it.position() <= l0.len(),
                it.seen() == l0.len(),
                forall|j: int| 0 <= j < it.position() ==> l0[j] != v,
                self.total == old(self).total,
                self.allocated == old(self).allocated,
                self.held == old(self).held,
            decreases l0.len() - it.position(),
        {
            proof {
                assert(self.layer@[c as int]@ == l0);
            }
            match it.next(&self.layer[c]) {
                Some(block) => {
                    if block.value() == v {
                        let ghost j = block.index() as int;
                        block.remove(&mut self.layer[c]);
                        proof {
                            assert(self.layers() =~= old(self).layers().update(
                                c as int,
                                l0.remove(j),
                            ));
                            assert(l0.contains(v)) by {
                                assert(l0[j] == v);
                            }
                        }
                        return true;
                    }
                },
                None => {
                    proof {
                        assert(!l0.contains(v));
                    }
                    return false;
                },
            }
        }
    }
}


impl Heap {
    /// Takes back the block at `ptr` that an allocation of `size` bytes aligned
    /// to `align` got: it goes on the free list of its order, and while its
    /// buddy is free the two leave their list and their parent goes on the list
    /// one order up.
    pub fn dealloc(&mut self, ptr: usize, size: usize, align: usize)
        requires
            old(self).wf(),
            ptr != 0,
            valid_layout(size, align),
            request_order(size as nat, align as nat) < LAYER_COUNT,
            (ptr as int) % (pow2(request_order(size as nat, align as nat)) as int) == 0,
            ptr + pow2(request_order(size as nat, align as nat)) <= usize::MAX + 1,
            forall|a: usize, k: nat| #[trigger]
                is_block(old(self).layers(), a, k) ==> apart(
                    ptr as int,
                    request_order(size as nat, align as nat),
                    a as int,
                    k,
                ),
            pow2(request_order(size as nat, align as nat)) <= old(self).allocated_bytes(),
            merge_order(
                old(self).layers(),
                ptr as int,
                request_order(size as nat, align as nat),
                request_order(size as nat, align as nat),
            ) < LAYER_COUNT,
        ensures
            final(self).wf(),
            final(self).total_bytes() == old(self).total_bytes(),
            final(self).allocated_bytes() == old(self).allocated_bytes() - pow2(
                request_order(size as nat, align as nat),
            ),
            final(self).layers() == merge_stage(
                old(self).layers(),
                ptr as int,
                request_order(size as nat, align as nat),
                merge_order(
                    old(self).layers(),
                    ptr as int,
                    request_order(size as nat, align as nat),
                    request_order(size as nat, align as nat),
                ),
            ),
            free_bytes(final(self).layers()) == free_bytes(old(self).layers()).union(
                block_bytes(ptr as int, request_order(size as nat, align as nat)),
            ),
            fully_merged(old(self).layers()) ==> fully_merged(final(self).layers()),
            final(self).held_bytes() == old(self).held_bytes().difference(
                block_bytes(ptr as int, request_order(size as nat, align as nat)),
            ),
    {
        let ghost ls = self.layers();
        let s = request_size(size, align);
        proof {
            lemma_request_order_fits(size, align);
            lemma_usize_pow2_no_overflow(request_order(size as nat, align as nat));
        }
        let ord = order_of(s);
        let ghost ordn = ord as nat;
        let ghost m = merge_order(ls, ptr as int, ordn, ordn);
        proof {
            lemma_log2_pow2(ordn);
            lemma_log2_pow2(request_order(size as nat, align as nat));
            assert(ordn == request_order(size as nat, align as nat));
            lemma_wf_push(ls, ordn, ptr);
            lemma_size_push(ls, ordn, ptr);
            lemma_merge_order_above(ls, ptr as int, ordn, ordn);
        }
        self.push_to(ord, ptr);
        proof {
            assert(self.layers() =~= merge_stage(ls, ptr as int, ordn, ordn));
        }
        let mut cur_ptr = ptr;
        let mut cur_ord = ord;
        while cur_ord < self.layer.len()
            invariant
                ls == old(self).layers(),
                layers_wf(ls),
                ordn == ord,
                m == merge_order(ls, ptr as int, ordn, ordn),
                m < LAYER_COUNT,
                ord <= cur_ord <= m,
                merge_order(ls, ptr as int, ordn, cur_ord as nat) == m,
                cur_ptr == merged_block(ptr as int, ordn, cur_ord as nat),
                self.layers() == merge_stage(ls, ptr as int, ordn, cur_ord as nat),
                layers_wf(self.layers()),
                free_size(self.layers()) == free_size(ls) + pow2(ordn),
                self.total == old(self).total,
                self.allocated == old(self).allocated,
                self.held == old(self).held,
                self.layer@.len() == LAYER_COUNT,
            ensures
                self.layers() == merge_stage(ls, ptr as int, ordn, m),
                layers_wf(self.layers()),
                free_size(self.layers()) == free_size(ls) + pow2(ordn),
                self.total == old(self).total,
                self.allocated == old(self).allocated,
                self.held == old(self).held,
            decreases LAYER_COUNT - cur_ord,
        {
            let ghost cur = self.layers();
            let ghost c = cur_ord as nat;
            let ghost l = ls[c as int];
            proof {
                assert(cur[c as int] == seq![cur_ptr] + l);
                assert(is_block(cur, cur_ptr, c)) by {
                    assert(cur[c as int][0] == cur_ptr);
                }
                lemma_xor_buddy(cur_ptr, cur_ord);
            }
            let buddy = cur_ptr ^ (1usize << cur_ord);
            proof {
                lemma_parent_aligned(cur_ptr as int, c);
                lemma_contains_push_front(l, cur_ptr, buddy);
                assert(cur[c as int].no_duplicates());
            }
            let flag = self.remove_entry(cur_ord, buddy);
            if flag {
                let ghost j = choose|j: int|
                    0 <= j < cur[c as int].len() && cur[c as int][j] == buddy
                        && self.layers() == cur.update(c as int, cur[c as int].remove(j));
                let ghost st1 = self.layers();
                proof {
                    assert(buddy_free(ls, ptr as int, ordn, c));
                    assert(merge_order(ls, ptr as int, ordn, c) == merge_order(
                        ls,
                        ptr as int,
                        ordn,
                        c + 1,
                    ));
                    assert(j >= 1);
                    lemma_merge_order_above(ls, ptr as int, ordn, c + 1);
                    lemma_wf_remove(cur, c, j);
                    lemma_size_remove(cur, c, j);
                    assert(is_block(cur, buddy, c)) by {
                        assert(cur[c as int][j] == buddy);
                    }
                    assert(st1[c as int][0] == cur_ptr);
                    lemma_drop_first_is_remove(st1[c as int]);
                    lemma_wf_remove(st1, c, 0);
                    lemma_size_remove(st1, c, 0);
                }
                self.pop_from(cur_ord);
                let ghost st2 = self.layers();
                cur_ptr = if cur_ptr < buddy {
                    cur_ptr
                } else {
                    buddy
                };
                cur_ord = cur_ord + 1;
                proof {
                    let b0 = cur[c as int][0];
                    assert(cur_ptr == parent(b0 as int, c));
                    assert forall|a: usize, k: nat| #[trigger] is_block(st2, a, k) implies apart(
                        cur_ptr as int,
                        c + 1,
                        a as int,
                        k,
                    ) by {
                        assert(is_block(cur, a, k));
                        assert(!(a == buddy && k == c));
                        assert(!(a == b0 && k == c));
                        assert(apart(a as int, k, b0 as int, c));
                        assert(apart(a as int, k, buddy as int, c));
                        lemma_apart_parent(a as int, k, b0 as int, c);
                        lemma_pow2_pos(k);
                    }
                    lemma_wf_push(st2, c + 1, cur_ptr);
                    lemma_size_push(st2, c + 1, cur_ptr);
                    lemma_pow2_unfold(c + 1);
                }
                self.push_to(cur_ord, cur_ptr);
                proof {
                    let ix = l.index_of(buddy);
                    assert(l[j - 1] == buddy);
                    assert(l.no_duplicates());
                    assert(0 <= ix < l.len() && l[ix] == buddy);
                    assert(ix == j - 1);
                    assert(st2[c as int] =~= l.remove(ix));
                    assert(merged_block(ptr as int, ordn, c + 1) == parent(
                        merged_block(ptr as int, ordn, c),
                        c,
                    ));
                    assert(self.layers() =~= merge_stage(ls, ptr as int, ordn, c + 1));
                }
            } else {
                proof {
                    assert(!buddy_free(ls, ptr as int, ordn, c));
                    assert(c == m);
                }
                break;
            }
        }
        proof {
            assert(self.allocated_bytes() + free_size(self.layers()) == self.total_bytes() + pow2(
                ordn,
            ));
            lemma_merge_layers(ls, ptr as int, ordn);
            if fully_merged(ls) {
                lemma_dealloc_keeps_merged(ls, ptr as int, ordn);
            }
        }
        self.allocated = self.allocated - s;
        self.held = Ghost(self.held@.difference(block_bytes(ptr as int, ordn)));
    }
}


/// Pushing the block `(x, k)` adds its bytes to the free bytes.
proof fn lemma_bytes_push(ls: Seq<Seq<usize>>, k: nat, x: usize)
    requires
        k < ls.len(),
    ensures
        free_bytes(ls.update(k as int, seq![x] + ls[k as int])) == free_bytes(ls).union(
            block_bytes(x as int, k),
        ),
{
    let n = ls.update(k as int, seq![x] + ls[k as int]);
    assert forall|b: usize, l: nat| #[trigger] is_block(n, b, l) <==> (is_block(ls, b, l) || (b == x
        && l == k)) by {
        lemma_contains_push_front(ls[k as int], x, b);
    }
    assert forall|y: int| free_bytes(n).contains(y) <==> free_bytes(ls).union(
        block_bytes(x as int, k),
    ).contains(y) by {
        if free_bytes(n).contains(y) {
            let (a, l) = choose|a: usize, l: nat| #[trigger] is_block(n, a, l) && a <= y < a + pow2(
                l,
            );
            if !(a == x && l == k) {
                assert(is_block(ls, a, l));
            }
        }
        if free_bytes(ls).contains(y) {
            let (a, l) = choose|a: usize, l: nat| #[trigger] is_block(ls, a, l) && a <= y < a
                + pow2(l);
            assert(is_block(n, a, l));
        }
        if block_bytes(x as int, k).contains(y) {
            assert(is_block(n, x, k));
        }
    }
    assert(free_bytes(n) =~= free_bytes(ls).union(block_bytes(x as int, k)));
}

/// Removing a listed block takes exactly its bytes out of the free bytes.
proof fn lemma_bytes_remove(ls: Seq<Seq<usize>>, k: nat, j: int)
    requires
        layers_wf(ls),
        k < LAYER_COUNT,
        0 <= j < ls[k as int].len(),
    ensures
        free_bytes(ls.update(k as int, ls[k as int].remove(j))) == free_bytes(ls).difference(
            block_bytes(ls[k as int][j] as int, k),
        ),
        block_bytes(ls[k as int][j] as int, k).subset_of(free_bytes(ls)),
{
    let n = ls.update(k as int, ls[k as int].remove(j));
    let x = ls[k as int][j];
    lemma_wf_remove(ls, k, j);
    assert(is_block(ls, x, k)) by {
        assert(ls[k as int][j] == x);
    }
    assert forall|y: int| free_bytes(n).contains(y) <==> free_bytes(ls).difference(
        block_bytes(x as int, k),
    ).contains(y) by {
        if free_bytes(n).contains(y) {
            let (a, l) = choose|a: usize, l: nat| #[trigger] is_block(n, a, l) && a <= y < a + pow2(
                l,
            );
            assert(is_block(ls, a, l));
            assert(apart(a as int, l, x as int, k));
        }
        if free_bytes(ls).contains(y) && !block_bytes(x as int, k).contains(y) {
            let (a, l) = choose|a: usize, l: nat| #[trigger] is_block(ls, a, l) && a <= y < a
                + pow2(l);
            assert(is_block(n, a, l));
        }
    }
    assert(free_bytes(n) =~= free_bytes(ls).difference(block_bytes(x as int, k)));
    assert forall|y: int| block_bytes(x as int, k).contains(y) implies free_bytes(ls).contains(
        y,
    ) by {
        assert(is_block(ls, x, k));
    }
}

/// A block of order `k + 1` is its two halves of order `k`.
proof fn lemma_halves(b: int, k: nat)
    requires
        b >= 0,
        b % (pow2(k) as int) == 0,
    ensures
        block_bytes(parent(b, k), k + 1) == block_bytes(b, k).union(block_bytes(buddy(b, k), k)),
{
    lemma_parent_aligned(b, k);
    lemma_pow2_unfold(k + 1);
    assert(block_bytes(parent(b, k), k + 1) =~= block_bytes(b, k).union(
        block_bytes(buddy(b, k), k),
    ));
}


/// A block of order `k + 1` is its lower and its upper half.
proof fn lemma_lower_upper(h: int, k: nat)
    ensures
        block_bytes(h, k + 1) == block_bytes(h, k).union(block_bytes(h + pow2(k), k)),
{
    lemma_pow2_unfold(k + 1);
    assert(block_bytes(h, k + 1) =~= block_bytes(h, k).union(block_bytes(h + pow2(k), k)));
}

/// Splitting the head of the list of order `i` down to order `j` keeps the
/// lists well formed and the free bytes as they were.
proof fn lemma_split_stage(ls: Seq<Seq<usize>>, ord: nat, i: nat, j: nat)
    requires
        layers_wf(ls),
        ord <= j <= i < LAYER_COUNT,
        ls[i as int].len() > 0,
        forall|k: int| ord <= k < i ==> (#[trigger] ls[k]).len() == 0,
    ensures
        layers_wf(split_stage(ls, i, j)),
        free_bytes(split_stage(ls, i, j)) == free_bytes(ls),
        free_size(split_stage(ls, i, j)) == free_size(ls),
        split_stage(ls, i, j)[j as int].len() > 0,
        split_stage(ls, i, j)[j as int][0] == ls[i as int][0],
        is_block(split_stage(ls, i, j), ls[i as int][0], j),
    decreases i - j,
{
    let h = ls[i as int][0];
    if j == i {
        assert(split_stage(ls, i, j) =~= ls);
    } else {
        let up = j + 1;
        lemma_split_stage(ls, ord, i, up);
        let st = split_stage(ls, i, up);
        lemma_drop_first_is_remove(st[up as int]);
        lemma_wf_remove(st, up, 0);
        lemma_size_remove(st, up, 0);
        lemma_bytes_remove(st, up, 0);
        let st1 = st.update(up as int, st[up as int].remove(0));
        assert(block_ok(h as int, up));
        lemma_pow2_unfold(up);
        lemma_align_smaller(h as int, up, j);
        lemma_align_add(h as int, j);
        let x = (h + pow2(j)) as usize;
        assert forall|b: usize, l: nat| #[trigger] is_block(st1, b, l) implies apart(
            x as int,
            j,
            b as int,
            l,
        ) by {
            lemma_apart_inside(x as int, j, h as int, up, b as int, l);
        }
        lemma_wf_push(st1, j, x);
        lemma_size_push(st1, j, x);
        lemma_bytes_push(st1, j, x);
        let st2 = st1.update(j as int, seq![x] + st1[j as int]);
        assert forall|b: usize, l: nat| #[trigger] is_block(st2, b, l) implies apart(
            h as int,
            j,
            b as int,
            l,
        ) by {
            if !(b == x && l == j) {
                lemma_apart_inside(h as int, j, h as int, up, b as int, l);
            }
        }
        lemma_wf_push(st2, j, h);
        lemma_size_push(st2, j, h);
        lemma_bytes_push(st2, j, h);
        let st3 = st2.update(j as int, seq![h] + st2[j as int]);
        lemma_lower_upper(h as int, j);
        assert(st[j as int] == ls[j as int]);
        assert(seq![h] + (seq![x] + ls[j as int]) =~= seq![h, x]);
        if up < i {
            assert(st[up as int].remove(0) =~= seq![(h + pow2(up)) as usize]);
        } else {
            assert(st[up as int].remove(0) =~= ls[i as int].drop_first());
        }
        assert(st3 =~= split_stage(ls, i, j));
        assert(free_bytes(st3) =~= free_bytes(ls));
        assert(st3[j as int][0] == h);
    }
}

/// What an allocation of order `ord` from the list of order `i` leaves: well
/// formed lists, with exactly the bytes of the block handed out taken from the
/// free bytes, and that block well placed and clear of every free block.
pub proof fn lemma_split_layers(ls: Seq<Seq<usize>>, ord: nat, i: nat)
    requires
        layers_wf(ls),
        ord <= i < LAYER_COUNT,
        i == first_nonempty(ls, ord),
    ensures
        layers_wf(split_layers(ls, ord, i)),
        free_size(split_layers(ls, ord, i)) + pow2(ord) == free_size(ls),
        block_bytes(ls[i as int][0] as int, ord).subset_of(free_bytes(ls)),
        free_bytes(split_layers(ls, ord, i)) == free_bytes(ls).difference(
            block_bytes(ls[i as int][0] as int, ord),
        ),
        block_ok(ls[i as int][0] as int, ord),
        forall|b: usize, l: nat| #[trigger]
            is_block(split_layers(ls, ord, i), b, l) ==> apart(ls[i as int][0] as int, ord, b as int, l),
{
    lemma_first_nonempty_hit(ls, ord);
    assert(first_nonempty(ls, i) == i);
    lemma_first_nonempty_below(ls, ord, i);
    lemma_split_stage(ls, ord, i, ord);
    let st = split_stage(ls, i, ord);
    let h = ls[i as int][0];
    lemma_drop_first_is_remove(st[ord as int]);
    lemma_wf_remove(st, ord, 0);
    lemma_size_remove(st, ord, 0);
    lemma_bytes_remove(st, ord, 0);
    let fin = st.update(ord as int, st[ord as int].remove(0));
    if ord < i {
        assert(st[ord as int].remove(0) =~= seq![(h + pow2(ord)) as usize]);
    }
    assert(fin =~= split_layers(ls, ord, i));
    assert forall|b: usize, l: nat| #[trigger] is_block(fin, b, l) implies apart(
        h as int,
        ord,
        b as int,
        l,
    ) by {
        assert(is_block(st, b, l) && !(b == h && l == ord));
    }
}

proof fn lemma_first_nonempty_hit(ls: Seq<Seq<usize>>, k: nat)
    ensures
        first_nonempty(ls, k) >= k || first_nonempty(ls, k) == LAYER_COUNT,
        first_nonempty(ls, k) < LAYER_COUNT ==> ls[first_nonempty(ls, k) as int].len() > 0,
    decreases LAYER_COUNT - k,
{
    if k < LAYER_COUNT && ls[k as int].len() == 0 {
        lemma_first_nonempty_hit(ls, k + 1);
    }
}


/// The block `(ptr, ord)` can go back to the heap: it is well placed, has a
/// free list, and overlaps no free block.
pub open spec fn returnable(ls: Seq<Seq<usize>>, ptr: int, ord: nat) -> bool {
    &&& ord < LAYER_COUNT
    &&& block_ok(ptr, ord)
    &&& forall|a: usize, k: nat| #[trigger] is_block(ls, a, k) ==> apart(ptr, ord, a as int, k)
}

/// Merging the returned block `(ptr, ord)` up to order `c` keeps the lists well
/// formed, adds exactly the returned bytes to the free bytes, and leaves the
/// merged block at the head of the list of order `c`.
proof fn lemma_merge_stage(ls: Seq<Seq<usize>>, ptr: int, ord: nat, c: nat)
    requires
        layers_wf(ls),
        returnable(ls, ptr, ord),
        merge_order(ls, ptr, ord, ord) < LAYER_COUNT,
        ord <= c <= merge_order(ls, ptr, ord, ord),
    ensures
        merge_order(ls, ptr, ord, c) == merge_order(ls, ptr, ord, ord),
        layers_wf(merge_stage(ls, ptr, ord, c)),
        free_bytes(merge_stage(ls, ptr, ord, c)) == free_bytes(ls).union(block_bytes(ptr, ord)),
        free_size(merge_stage(ls, ptr, ord, c)) == free_size(ls) + pow2(ord),
        is_block(merge_stage(ls, ptr, ord, c), merged_block(ptr, ord, c) as usize, c),
        merged_block(ptr, ord, c) == merged_block(ptr, ord, c) as usize,
        merge_stage(ls, ptr, ord, c)[c as int] == seq![merged_block(ptr, ord, c) as usize]
            + ls[c as int],
    decreases c - ord,
{
    let m = merge_order(ls, ptr, ord, ord);
    if c == ord {
        lemma_pow2_pos(ord);
        let p = ptr as usize;
        assert(p as int == ptr);
        lemma_wf_push(ls, ord, p);
        lemma_size_push(ls, ord, p);
        lemma_bytes_push(ls, ord, p);
        assert(merge_stage(ls, ptr, ord, c) =~= ls.update(ord as int, seq![p] + ls[ord as int]));
        assert(merge_stage(ls, ptr, ord, c)[c as int][0] == p);
    } else {
        let b = (c - 1) as nat;
        lemma_merge_stage(ls, ptr, ord, b);
        lemma_merge_order_above(ls, ptr, ord, c);
        let cur = merge_stage(ls, ptr, ord, b);
        let blk = merged_block(ptr, ord, b) as usize;
        assert(buddy_free(ls, ptr, ord, b));
        let bd = merge_buddy(ptr, ord, b) as usize;
        let l = ls[b as int];
        let j0 = l.index_of(bd);
        assert(0 <= j0 < l.len() && l[j0] == bd);
        let j = j0 + 1;
        assert(cur[b as int][j] == bd);
        assert(cur[b as int][0] == blk);
        assert(is_block(cur, bd, b)) by {
            assert(cur[b as int][j] == bd);
        }
        assert(block_ok(blk as int, b));
        lemma_parent_aligned(blk as int, b);
        lemma_halves(blk as int, b);
        lemma_wf_remove(cur, b, j);
        lemma_size_remove(cur, b, j);
        lemma_bytes_remove(cur, b, j);
        let st1 = cur.update(b as int, cur[b as int].remove(j));
        assert(st1[b as int][0] == blk);
        lemma_wf_remove(st1, b, 0);
        lemma_size_remove(st1, b, 0);
        lemma_bytes_remove(st1, b, 0);
        let st2 = st1.update(b as int, st1[b as int].remove(0));
        let par = parent(blk as int, b) as usize;
        assert(par as int == merged_block(ptr, ord, c));
        assert forall|a: usize, k: nat| #[trigger] is_block(st2, a, k) implies apart(
            par as int,
            c,
            a as int,
            k,
        ) by {
            assert(is_block(cur, a, k));
            assert(!(a == bd && k == b));
            assert(!(a == blk && k == b));
            assert(apart(a as int, k, blk as int, b));
            assert(apart(a as int, k, bd as int, b));
            lemma_apart_parent(a as int, k, blk as int, b);
            lemma_pow2_pos(k);
        }
        lemma_pow2_unfold(c);
        lemma_wf_push(st2, c, par);
        lemma_size_push(st2, c, par);
        lemma_bytes_push(st2, c, par);
        let st3 = st2.update(c as int, seq![par] + st2[c as int]);
        assert(l.no_duplicates());
        assert(st2[b as int] =~= l.remove(j0));
        assert(st3 =~= merge_stage(ls, ptr, ord, c));
        assert(free_bytes(st3) =~= free_bytes(ls).union(block_bytes(ptr, ord)));
        assert(st3[c as int][0] == par);
    }
}

/// What giving back the block `(ptr, ord)` leaves: well formed lists whose free
/// bytes are the old free bytes and the returned block's.
pub proof fn lemma_merge_layers(ls: Seq<Seq<usize>>, ptr: int, ord: nat)
    requires
        layers_wf(ls),
        returnable(ls, ptr, ord),
        merge_order(ls, ptr, ord, ord) < LAYER_COUNT,
    ensures
        layers_wf(merge_stage(ls, ptr, ord, merge_order(ls, ptr, ord, ord))),
        free_bytes(merge_stage(ls, ptr, ord, merge_order(ls, ptr, ord, ord))) == free_bytes(
            ls,
        ).union(block_bytes(ptr, ord)),
        free_size(merge_stage(ls, ptr, ord, merge_order(ls, ptr, ord, ord))) == free_size(ls)
            + pow2(ord),
{
    lemma_merge_order_above(ls, ptr, ord, ord);
    lemma_merge_stage(ls, ptr, ord, merge_order(ls, ptr, ord, ord));
}


/// The block an allocation takes is large enough for the request, a multiple of
/// the requested alignment, and at least a machine word.
pub proof fn lemma_request_covers(size: usize, align: usize)
    requires
        valid_layout(size, align),
    ensures
        size <= pow2(request_order(size as nat, align as nat)),
        (pow2(request_order(size as nat, align as nat)) as int) % (align as int) == 0,
        word_bytes() <= pow2(request_order(size as nat, align as nat)),
        forall|a: int|
            a % (pow2(request_order(size as nat, align as nat)) as int) == 0 ==> #[trigger] (a
                % (align as int)) == 0,
{
    let ord = request_order(size as nat, align as nat);
    lemma_request_order_fits(size, align);
    lemma_word_order();
    lemma_ceil_log2_bounds(size as nat);
    lemma_pow2_monotone(ceil_log2(size as nat), ord);
    lemma_pow2_monotone(log2(word_bytes()), ord);
    lemma_pow2_pos(ord);
    vstd::arithmetic::div_mod::lemma_mod_self_0(pow2(ord) as int);
    lemma_align_smaller(pow2(ord) as int, ord, log2(align as nat));
    assert forall|a: int| a % (pow2(ord) as int) == 0 implies #[trigger] (a % (align as int)) == 0 by {
        lemma_align_smaller(a, ord, log2(align as nat));
    }
}

/// Giving back, with the same layout, the block an allocation handed out puts
/// back exactly the free bytes there were before the allocation (whenever the
/// merging stays below the top order, which `dealloc` requires). The block is
/// one `dealloc` accepts.
pub proof fn lemma_dealloc_undoes_allocate(ls: Seq<Seq<usize>>, size: usize, align: usize)
    requires
        layers_wf(ls),
        valid_layout(size, align),
        first_nonempty(ls, request_order(size as nat, align as nat)) < LAYER_COUNT,
        merge_order(
            split_layers(
                ls,
                request_order(size as nat, align as nat),
                first_nonempty(ls, request_order(size as nat, align as nat)),
            ),
            ls[first_nonempty(ls, request_order(size as nat, align as nat)) as int][0] as int,
            request_order(size as nat, align as nat),
            request_order(size as nat, align as nat),
        ) < LAYER_COUNT,
    ensures
        ({
            let ord = request_order(size as nat, align as nat);
            let i = first_nonempty(ls, ord);
            let h = ls[i as int][0] as int;
            let after = split_layers(ls, ord, i);
            &&& returnable(after, h, ord)
            &&& free_bytes(merge_stage(after, h, ord, merge_order(after, h, ord, ord)))
                == free_bytes(ls)
            &&& free_size(merge_stage(after, h, ord, merge_order(after, h, ord, ord)))
                == free_size(ls)
        }),
{
    let ord = request_order(size as nat, align as nat);
    let i = first_nonempty(ls, ord);
    let h = ls[i as int][0] as int;
    lemma_first_nonempty_hit(ls, ord);
    lemma_split_layers(ls, ord, i);
    let after = split_layers(ls, ord, i);
    lemma_merge_layers(after, h, ord);
    assert(free_bytes(ls).difference(block_bytes(h, ord)).union(block_bytes(h, ord))
        =~= free_bytes(ls));
}

/// The bytes held by a block followed by more blocks.
proof fn lemma_blocks_size_front(b: (usize, nat), rest: Seq<(usize, nat)>)
    ensures
        blocks_size(seq![b] + rest) == pow2(b.1) + blocks_size(rest),
    decreases rest.len(),
{
    let s = seq![b] + rest;
    if rest.len() > 0 {
        lemma_blocks_size_front(b, rest.drop_last());
        assert(s.drop_last() =~= seq![b] + rest.drop_last());
        assert(s.last() == rest.last());
    } else {
        assert(s =~= seq![b]);
        assert(s.drop_last() =~= Seq::<(usize, nat)>::empty());
        assert(blocks_size(s.drop_last()) == 0);
        assert(s.last() == b);
    }
}

/// `manage` on `[cur, end)` cuts consecutive, well-aligned blocks that start at
/// `cur` and end less than a word before `end`.
pub proof fn lemma_cut_blocks_cover(cur: nat, end: nat)
    requires
        0 < cur <= end <= usize::MAX,
    ensures
        cur + blocks_size(cut_blocks(cur, end)) <= end,
        end < cur + blocks_size(cut_blocks(cur, end)) + word_bytes(),
        forall|j: int|
            0 <= j < cut_blocks(cur, end).len() ==> (#[trigger] cut_blocks(cur, end)[j]).0 as int
                % (pow2(cut_blocks(cur, end)[j].1) as int) == 0,
    decreases end - cur,
{
    let bs = cut_blocks(cur, end);
    if cur + word_bytes() > end {
        assert(bs.len() == 0);
    } else {
        let k = cut_order(cur, end);
        lemma_log2_bounds((end - cur) as nat);
        lemma_pow2_monotone(k, log2((end - cur) as nat));
        lemma_pow2_pos(k);
        let next = cur + pow2(k);
        lemma_cut_blocks_cover(next, end);
        let rest = cut_blocks(next, end);
        lemma_blocks_size_front((cur as usize, k), rest);
        lemma_low_order_divides(cur);
        lemma_align_smaller(cur as int, low_order(cur), k);
        lemma_word_order();
        assert forall|j: int| 0 <= j < bs.len() implies (#[trigger] bs[j]).0 as int % (pow2(
            bs[j].1,
        ) as int) == 0 by {
            if j > 0 {
                assert(bs[j] == rest[j - 1]);
            }
        }
    }
}


/// `(a, k)` lies wholly below `start` or wholly at or above `start + len`.
pub open spec fn outside(a: int, k: nat, start: int, len: int) -> bool {
    a + pow2(k) <= start || start + len <= a
}

impl Heap {
    /// Whether no free block overlaps the `len` bytes at `start`.
    pub fn clear_of(&self, start: usize, len: usize) -> (b: bool)
        requires
            self.wf(),
        ensures
            b == (forall|a: usize, k: nat| #[trigger]
                is_block(self.layers(), a, k) ==> outside(a as int, k, start as int, len as int)),
    {
        let ghost ls = self.layers();
        let mut k: usize = 0;
        while k < LAYER_COUNT
            invariant
                self.wf(),
                ls == self.layers(),
                k <= LAYER_COUNT,
                forall|a: usize, l: nat| #[trigger]
                    is_block(ls, a, l) && l < k ==> outside(a as int, l, start as int, len as int),
            decreases LAYER_COUNT - k,
        {
            proof {
                lemma_usize_pow2_no_overflow(k as nat);
                lemma_usize_shl_is_mul(1, k);
                lemma_word_order();
            }
            let size = 1usize << k;
            let ghost l0 = ls[k as int];
            let mut it = self.layer[k].iter();
            loop
                invariant
                    self.wf(),
                    ls == self.layers(),
                    k < LAYER_COUNT,
                    size == pow2(k as nat),
                    l0 == ls[k as int],
                    it.list()@ == l0,
                    it.position() <= l0.len(),
                    forall|j: int|
                        0 <= j < it.position() ==> outside(
                            #[trigger] l0[j] as int,
                            k as nat,
                            start as int,
                            len as int,
                        ),
                    forall|a: usize, l: nat| #[trigger]
                        is_block(ls, a, l) && l < k ==> outside(
                            a as int,
                            l,
                            start as int,
                            len as int,
                        ),
                ensures
                    forall|j: int|
                        0 <= j < l0.len() ==> outside(
                            #[trigger] l0[j] as int,
                            k as nat,
                            start as int,
                            len as int,
                        ),
                decreases l0.len() - it.position(),
            {
                let ghost pos = it.position();
                match it.next() {
                    Some(a) => {
                        let below = a <= start && start - a >= size;
                        let above = a >= start && a - start >= len;
                        if !below && !above {
                            proof {
                                assert(l0[pos as int] == a);
                                assert(is_block(ls, a, k as nat));
                            }
                            return false;
                        }
                    },
                    None => {
                        break;
                    },
                }
            }
            proof {
                assert forall|a: usize, l: nat| #[trigger]
                    is_block(ls, a, l) && l < k + 1 implies outside(
                    a as int,
                    l,
                    start as int,
                    len as int,
                ) by {
                    if l == k {
                        let j = choose|j: int| 0 <= j < l0.len() && l0[j] == a;
                        assert(outside(l0[j] as int, k as nat, start as int, len as int));
                    }
                }
            }
            k = k + 1;
        }
        true
    }

    /// The bytes `manage(start, end)` would hand to the heap, or `None` when
    /// cutting `[start, end)` would overflow or need an order with no free list.
    pub fn cut_total(start: usize, end: usize) -> (r: Option<usize>)
        requires
            start <= end,
        ensures
            r is Some <==> cuts_fit(start as nat, end as nat),
            r matches Some(t) ==> t == blocks_size(cut_blocks(start as nat, end as nat)),
    {
        let w = core::mem::size_of::<usize>();
        let mut cur = start;
        let mut sum: usize = 0;
        loop
            invariant
                start <= cur <= end,
                w == word_bytes(),
                sum == cur - start,
                cuts_fit(start as nat, end as nat) == cuts_fit(cur as nat, end as nat),
                blocks_size(cut_blocks(start as nat, end as nat)) == sum + blocks_size(
                    cut_blocks(cur as nat, end as nat),
                ),
            decreases end - cur,
        {
            if cur > usize::MAX - w {
                return None;
            }
            if cur + w > end {
                proof {
                    assert(cut_blocks(cur as nat, end as nat).len() == 0);
                }
                return Some(sum);
            }
            if cur == 0 {
                return None;
            }
            let ghost k = cut_order(cur as nat, end as nat);
            proof {
                lemma_lowbit(cur as u64);
                lemma_low_order_divides(cur as nat);
                lemma_log2_bounds((end - cur) as nat);
                lemma_pow2_pos(low_order(cur as nat));
                let p = pow2(low_order(cur as nat));
                lemma_fundamental_div_mod(cur as int, p as int);
                let q = (cur as int) / (p as int);
                assert(p <= cur) by (nonlinear_arith)
                    requires
                        cur == p * q + 0,
                        q % 2 == 1,
                        p > 0,
                ;
            }
            let c = cur as u64;
            let lowbit = (c & (!c + 1)) as usize;
            let prev = prev_power_of_2(end - cur);
            let size = if lowbit < prev {
                lowbit
            } else {
                prev
            };
            proof {
                let lo = low_order(cur as nat);
                let lg = log2((end - cur) as nat);
                if lo <= lg {
                    lemma_pow2_monotone(lo, lg);
                } else {
                    lemma_pow2_strictly_increases(lg, lo);
                }
                assert(size == pow2(k));
                lemma_pow2_monotone(k, lg);
                lemma_log2_usize((end - cur) as usize);
                lemma_usize_pow2_no_overflow(k);
            }
            let order = order_of(size);
            proof {
                lemma_log2_pow2(order as nat);
                lemma_log2_pow2(k);
            }
            if order >= LAYER_COUNT {
                return None;
            }
            proof {
                lemma_blocks_size_front((cur as usize, k), cut_blocks((cur + size) as nat, end as nat));
            }
            cur = cur + size;
            sum = sum + size;
        }
    }

    /// Whether `manage(start, end)` may be called on this heap: the range is
    /// ordered, cutting it needs no order without a free list and overflows
    /// nothing, it overlaps no free block, and the total stays addressable.
    pub fn can_manage(&self, start: usize, end: usize) -> (b: bool)
        requires
            self.wf(),
        ensures
            b == (start <= end && cuts_fit(start as nat, end as nat) && (forall|a: usize, k: nat|
                #[trigger] is_block(self.layers(), a, k) ==> a + pow2(k) <= start || end <= a)
                && self.total_bytes() + blocks_size(cut_blocks(start as nat, end as nat))
                <= usize::MAX),
    {
        if start > end {
            return false;
        }
        match Heap::cut_total(start, end) {
            None => false,
            Some(t) => {
                if self.total > usize::MAX - t {
                    return false;
                }
                self.clear_of(start, end - start)
            },
        }
    }

    /// Whether merging the returned block `(ptr, ord)` stops below the top
    /// order.
    fn merge_stops(&self, ptr: usize, ord: usize) -> (b: bool)
        requires
            self.wf(),
            ord < LAYER_COUNT,
            (ptr as int) % (pow2(ord as nat) as int) == 0,
        ensures
            b == (merge_order(self.layers(), ptr as int, ord as nat, ord as nat) < LAYER_COUNT),
    {
        let ghost ls = self.layers();
        let mut c = ord;
        let mut cp = ptr;
        while c < LAYER_COUNT
            invariant
                self.wf(),
                ls == self.layers(),
                ord <= c <= LAYER_COUNT,
                cp == merged_block(ptr as int, ord as nat, c as nat),
                (cp as int) % (pow2(c as nat) as int) == 0,
                merge_order(ls, ptr as int, ord as nat, ord as nat) == merge_order(
                    ls,
                    ptr as int,
                    ord as nat,
                    c as nat,
                ),
            decreases LAYER_COUNT - c,
        {
            proof {
                lemma_xor_buddy(cp, c);
                lemma_parent_aligned(cp as int, c as nat);
            }
            let bd = cp ^ (1usize << c);
            if !self.layer[c].contains(bd) {
                proof {
                    assert(self.layers()[c as int] == self.layer@[c as int]@);
                    assert(!buddy_free(ls, ptr as int, ord as nat, c as nat));
                }
                return true;
            }
            proof {
                assert(self.layers()[c as int] == self.layer@[c as int]@);
                assert(buddy_free(ls, ptr as int, ord as nat, c as nat));
            }
            cp = if cp < bd {
                cp
            } else {
                bd
            };
            c = c + 1;
        }
        false
    }

    /// Whether `dealloc(ptr, size, align)` may be called on this heap: `ptr`
    /// is a nonzero, well-placed block of the request's order, which has a free
    /// list; it overlaps no free block; that many bytes are handed out; and
    /// merging it stops below the top order.
    pub fn can_dealloc(&self, ptr: usize, size: usize, align: usize) -> (b: bool)
        requires
            self.wf(),
            valid_layout(size, align),
        ensures
            b == ({
                let ord = request_order(size as nat, align as nat);
                &&& ptr != 0
                &&& ord < LAYER_COUNT
                &&& (ptr as int) % (pow2(ord) as int) == 0
                &&& ptr + pow2(ord) <= usize::MAX + 1
                &&& forall|a: usize, k: nat| #[trigger]
                    is_block(self.layers(), a, k) ==> apart(ptr as int, ord, a as int, k)
                &&& pow2(ord) <= self.allocated_bytes()
                &&& merge_order(self.layers(), ptr as int, ord, ord) < LAYER_COUNT
            }),
    {
        let s = request_size(size, align);
        proof {
            lemma_request_order_fits(size, align);
            lemma_usize_pow2_no_overflow(request_order(size as nat, align as nat));
        }
        let ord = order_of(s);
        proof {
            lemma_log2_pow2(ord as nat);
            lemma_log2_pow2(request_order(size as nat, align as nat));
        }
        if ptr == 0 || ord >= LAYER_COUNT || ptr % s != 0 || ptr - 1 > usize::MAX - s {
            return false;
        }
        if s > self.allocated {
            return false;
        }
        if !self.clear_of(ptr, s) {
            return false;
        }
        self.merge_stops(ptr, ord)
    }
}


/// Free blocks are fully merged: no free block has its buddy on the free list
/// of its own order.
pub open spec fn fully_merged(ls: Seq<Seq<usize>>) -> bool {
    forall|a: usize, k: nat| #[trigger]
        is_block(ls, a, k) ==> !(0 <= buddy(a as int, k) <= usize::MAX && ls[k as int].contains(
            buddy(a as int, k) as usize,
        ))
}

/// The halves of a block of order `k + 1` at `h`: the lower one is `h`, its
/// buddy is the upper one, and the other way round.
proof fn lemma_halves_of(h: int, k: nat)
    requires
        h >= 0,
        h % (pow2(k + 1) as int) == 0,
    ensures
        h % (pow2(k) as int) == 0,
        buddy(h, k) == h + pow2(k),
        parent(h, k) == h,
        buddy(h + pow2(k), k) == h,
{
    let p = pow2(k) as int;
    lemma_pow2_pos(k);
    lemma_pow2_unfold(k + 1);
    lemma_align_smaller(h, k + 1, k);
    lemma_fundamental_div_mod(h, 2 * p);
    let r = h / (2 * p);
    assert(h == p * (2 * r)) by (nonlinear_arith)
        requires
            h == (2 * p) * r + h % (2 * p),
            h % (2 * p) == 0,
    ;
    assert(h + p == p * (2 * r + 1)) by (nonlinear_arith)
        requires
            h == p * (2 * r),
    ;
    vstd::arithmetic::div_mod::lemma_div_multiples_vanish(2 * r, p);
    vstd::arithmetic::div_mod::lemma_div_multiples_vanish(2 * r + 1, p);
}

/// The buddy of the buddy of a block is the block itself.
proof fn lemma_buddy_twice(b: int, k: nat)
    requires
        b >= 0,
        b % (pow2(k) as int) == 0,
    ensures
        buddy(b, k) >= 0,
        buddy(buddy(b, k), k) == b,
{
    let p = pow2(k) as int;
    lemma_pow2_pos(k);
    lemma_fundamental_div_mod(b, p);
    let q = b / p;
    assert(b == p * q);
    if q % 2 == 0 {
        assert(b + p == p * (q + 1)) by (nonlinear_arith)
            requires
                b == p * q,
        ;
        vstd::arithmetic::div_mod::lemma_div_multiples_vanish(q + 1, p);
    } else {
        assert(q >= 1);
        assert(b - p == p * (q - 1)) by (nonlinear_arith)
            requires
                b == p * q,
        ;
        assert(b - p >= 0) by (nonlinear_arith)
            requires
                b - p == p * (q - 1),
                p > 0,
                q >= 1,
        ;
        vstd::arithmetic::div_mod::lemma_div_multiples_vanish(q - 1, p);
    }
}

/// An address on a list with its head dropped was on the list.
proof fn lemma_contains_drop_first(s: Seq<usize>, y: usize)
    requires
        s.len() > 0,
        s.drop_first().contains(y),
    ensures
        s.contains(y),
{
    let j = choose|j: int| 0 <= j < s.drop_first().len() && s.drop_first()[j] == y;
    assert(s[j + 1] == y);
}

/// An allocation keeps the free blocks fully merged: the halves it leaves free
/// are of different orders, and the list it took its block from only lost one.
pub proof fn lemma_allocate_keeps_merged(ls: Seq<Seq<usize>>, ord: nat, i: nat)
    requires
        layers_wf(ls),
        fully_merged(ls),
        ord <= i < LAYER_COUNT,
        i == first_nonempty(ls, ord),
    ensures
        fully_merged(split_layers(ls, ord, i)),
{
    lemma_first_nonempty_hit(ls, ord);
    let h = ls[i as int][0];
    let after = split_layers(ls, ord, i);
    assert(is_block(ls, h, i)) by {
        assert(ls[i as int][0] == h);
    }
    assert forall|a: usize, k: nat| #[trigger] is_block(after, a, k) implies !(0 <= buddy(
        a as int,
        k,
    ) <= usize::MAX && after[k as int].contains(buddy(a as int, k) as usize)) by {
        let bd = buddy(a as int, k);
        if k == i {
            lemma_contains_drop_first(ls[i as int], a);
            assert(is_block(ls, a, k));
            if 0 <= bd <= usize::MAX && after[k as int].contains(bd as usize) {
                lemma_contains_drop_first(ls[i as int], bd as usize);
            }
        } else if ord <= k < i {
            assert(block_ok(h as int, i));
            lemma_pow2_strictly_increases(k, i);
            let x = (h + pow2(k)) as usize;
            assert(x as int == h + pow2(k));
            assert(after[k as int] == seq![x]);
            assert(a == x);
            lemma_align_smaller(h as int, i, k + 1);
            lemma_halves_of(h as int, k);
            lemma_pow2_pos(k);
            assert(bd == h);
            if after[k as int].contains(bd as usize) {
                assert(after[k as int][0] == bd);
            }
        } else {
            assert(after[k as int] == ls[k as int]);
            assert(is_block(ls, a, k));
        }
    }
}

/// Bytes held by the heap's users stay clear of an allocation: the block it
/// hands out shares no byte with them, and they and the new block share no
/// byte with the free blocks left. So a block handed out is never handed out
/// again while it is held.
pub proof fn lemma_allocate_clear_of_held(ls: Seq<Seq<usize>>, ord: nat, i: nat, held: Set<int>)
    requires
        layers_wf(ls),
        ord <= i < LAYER_COUNT,
        i == first_nonempty(ls, ord),
        held.disjoint(free_bytes(ls)),
    ensures
        block_bytes(ls[i as int][0] as int, ord).disjoint(held),
        free_bytes(split_layers(ls, ord, i)).disjoint(
            held.union(block_bytes(ls[i as int][0] as int, ord)),
        ),
{
    lemma_split_layers(ls, ord, i);
}

/// Bytes held by the heap's users stay clear of a deallocation: once the
/// returned block is free, the blocks still held share no byte with the free
/// blocks.
pub proof fn lemma_dealloc_clear_of_held(ls: Seq<Seq<usize>>, ptr: int, ord: nat, held: Set<int>)
    requires
        layers_wf(ls),
        returnable(ls, ptr, ord),
        merge_order(ls, ptr, ord, ord) < LAYER_COUNT,
        held.disjoint(free_bytes(ls).union(block_bytes(ptr, ord))),
    ensures
        free_bytes(merge_stage(ls, ptr, ord, merge_order(ls, ptr, ord, ord))).disjoint(held),
{
    lemma_merge_layers(ls, ptr, ord);
}

/// Where merging stops from order `k`: every order from `k` below it has the
/// buddy free, and the order it stops at, below the top, does not.
proof fn lemma_merge_order_facts(ls: Seq<Seq<usize>>, ptr: int, ord: nat, k: nat)
    requires
        k <= LAYER_COUNT,
    ensures
        merge_order(ls, ptr, ord, k) >= k,
        merge_order(ls, ptr, ord, k) < LAYER_COUNT ==> !buddy_free(
            ls,
            ptr,
            ord,
            merge_order(ls, ptr, ord, k),
        ),
        forall|c: nat| k <= c < merge_order(ls, ptr, ord, k) ==> #[trigger] buddy_free(ls, ptr, ord, c),
    decreases LAYER_COUNT - k,
{
    if k < LAYER_COUNT && buddy_free(ls, ptr, ord, k) {
        lemma_merge_order_facts(ls, ptr, ord, k + 1);
    }
}

/// A deallocation keeps the free blocks fully merged: merging goes on while
/// the buddy is free, so the block it stops with has no free buddy, and the
/// other lists only lost blocks.
pub proof fn lemma_dealloc_keeps_merged(ls: Seq<Seq<usize>>, ptr: int, ord: nat)
    requires
        layers_wf(ls),
        fully_merged(ls),
        returnable(ls, ptr, ord),
        merge_order(ls, ptr, ord, ord) < LAYER_COUNT,
    ensures
        fully_merged(merge_stage(ls, ptr, ord, merge_order(ls, ptr, ord, ord))),
{
    let m = merge_order(ls, ptr, ord, ord);
    lemma_merge_order_above(ls, ptr, ord, ord);
    lemma_merge_stage(ls, ptr, ord, m);
    lemma_merge_order_facts(ls, ptr, ord, m);
    lemma_merge_order_facts(ls, ptr, ord, ord);
    let st = merge_stage(ls, ptr, ord, m);
    let blk = merged_block(ptr, ord, m);
    assert forall|a: usize, k: nat| #[trigger] is_block(st, a, k) implies !(0 <= buddy(
        a as int,
        k,
    ) <= usize::MAX && st[k as int].contains(buddy(a as int, k) as usize)) by {
        let bd = buddy(a as int, k);
        if 0 <= bd <= usize::MAX && st[k as int].contains(bd as usize) {
            if ord <= k < m {
                assert(buddy_free(ls, ptr, ord, k));
                let l = ls[k as int];
                let j = l.index_of(merge_buddy(ptr, ord, k) as usize);
                assert(l.no_duplicates());
                assert(st[k as int] == l.remove(j));
                lemma_contains_remove(l, j, a);
                lemma_contains_remove(l, j, bd as usize);
                assert(is_block(ls, a, k));
            } else if k == m {
                lemma_contains_push_front(ls[k as int], blk as usize, a);
                lemma_contains_push_front(ls[k as int], blk as usize, bd as usize);
                assert(block_ok(a as int, k));
                if a as int == blk {
                    lemma_parent_aligned(blk, k);
                    assert(buddy_free(ls, ptr, ord, m));
                } else {
                    assert(is_block(ls, a, k));
                    if bd == blk {
                        lemma_buddy_twice(a as int, k);
                        assert(buddy_free(ls, ptr, ord, m));
                    }
                }
            } else {
                assert(st[k as int] == ls[k as int]);
                assert(is_block(ls, a, k));
            }
        }
    }
}

/// Merging a block at `h`, aligned to order `i`, builds nothing but `h` itself
/// up to order `i`.
proof fn lemma_merged_block_stays(h: int, ord: nat, i: nat, k: nat)
    requires
        h >= 0,
        h % (pow2(i) as int) == 0,
        k <= i,
    ensures
        merged_block(h, ord, k) == h,
    decreases k,
{
    if k > ord {
        lemma_merged_block_stays(h, ord, i, (k - 1) as nat);
        lemma_align_smaller(h, i, k);
        lemma_halves_of(h, (k - 1) as nat);
    }
}

/// After an allocation of order `ord` split the head `h` of the list of order
/// `i`, giving the block back merges it with each half split off, and, the free
/// blocks having been fully merged, stops at order `i`.
proof fn lemma_merge_back_order(ls: Seq<Seq<usize>>, ord: nat, i: nat, k: nat)
    requires
        layers_wf(ls),
        fully_merged(ls),
        ord <= k <= i < LAYER_COUNT,
        ls[i as int].len() > 0,
    ensures
        merge_order(split_layers(ls, ord, i), ls[i as int][0] as int, ord, k) == i,
    decreases i - k,
{
    let h = ls[i as int][0];
    let after = split_layers(ls, ord, i);
    assert(is_block(ls, h, i)) by {
        assert(ls[i as int][0] == h);
    }
    assert(block_ok(h as int, i));
    lemma_merged_block_stays(h as int, ord, i, k);
    if k < i {
        lemma_align_smaller(h as int, i, k + 1);
        lemma_halves_of(h as int, k);
        lemma_pow2_strictly_increases(k, i);
        let x = (h + pow2(k)) as usize;
        assert(x as int == h + pow2(k));
        assert(after[k as int] == seq![x]);
        assert(after[k as int][0] == x);
        assert(buddy_free(after, h as int, ord, k));
        lemma_merge_back_order(ls, ord, i, k + 1);
    } else {
        let bd = buddy(h as int, i);
        if 0 <= bd <= usize::MAX && after[i as int].contains(bd as usize) {
            lemma_contains_drop_first(ls[i as int], bd as usize);
        }
        assert(!buddy_free(after, h as int, ord, k));
    }
}

/// Giving back, with the same layout, the block an allocation has just handed
/// out restores the free lists exactly as they were, whenever the free blocks
/// were fully merged: each half split off merges back in, and merging stops at
/// the order the block was taken from (so `dealloc` accepts the block).
pub proof fn lemma_dealloc_restores_lists(ls: Seq<Seq<usize>>, size: usize, align: usize)
    requires
        layers_wf(ls),
        fully_merged(ls),
        valid_layout(size, align),
        first_nonempty(ls, request_order(size as nat, align as nat)) < LAYER_COUNT,
    ensures
        ({
            let ord = request_order(size as nat, align as nat);
            let i = first_nonempty(ls, ord);
            let h = ls[i as int][0] as int;
            let after = split_layers(ls, ord, i);
            &&& returnable(after, h, ord)
            &&& merge_order(after, h, ord, ord) == i
            &&& merge_stage(after, h, ord, merge_order(after, h, ord, ord)) == ls
        }),
{
    let ord = request_order(size as nat, align as nat);
    let i = first_nonempty(ls, ord);
    let h = ls[i as int][0];
    let after = split_layers(ls, ord, i);
    lemma_first_nonempty_hit(ls, ord);
    assert(first_nonempty(ls, i) == i);
    lemma_first_nonempty_below(ls, ord, i);
    lemma_split_layers(ls, ord, i);
    lemma_merge_back_order(ls, ord, i, ord);
    assert(is_block(ls, h, i)) by {
        assert(ls[i as int][0] == h);
    }
    assert(block_ok(h as int, i));
    lemma_merged_block_stays(h as int, ord, i, i);
    let back = merge_stage(after, h as int, ord, i);
    assert forall|k: int| 0 <= k < ls.len() implies #[trigger] back[k] =~= ls[k] by {
        if ord <= k < i {
            let kn = k as nat;
            lemma_align_smaller(h as int, i, kn + 1);
            lemma_halves_of(h as int, kn);
            lemma_merged_block_stays(h as int, ord, i, kn);
            lemma_pow2_strictly_increases(kn, i);
            let x = (h + pow2(kn)) as usize;
            assert(x as int == h + pow2(kn));
            assert(after[k] == seq![x]);
            assert(after[k][0] == x);
            assert(merge_buddy(h as int, ord, kn) == x);
            assert(after[k].index_of(x) == 0);
            assert(ls[k].len() == 0);
        } else if k == i {
            assert(ls[k][0] == h);
        }
    }
    assert(back =~= ls);
}

/// The block merging builds by order `k` is aligned to its order and holds
/// the returned block `(ptr, ord)`.
proof fn lemma_merged_block_holds(ptr: int, ord: nat, k: nat)
    requires
        ptr >= 0,
        ptr % (pow2(ord) as int) == 0,
        ord <= k,
    ensures
        merged_block(ptr, ord, k) >= 0,
        merged_block(ptr, ord, k) % (pow2(k) as int) == 0,
        merged_block(ptr, ord, k) <= ptr,
        ptr + pow2(ord) <= merged_block(ptr, ord, k) + pow2(k),
    decreases k,
{
    if k > ord {
        let b = (k - 1) as nat;
        lemma_merged_block_holds(ptr, ord, b);
        let m = merged_block(ptr, ord, b);
        lemma_parent_aligned(m, b);
        lemma_buddy_twice(m, b);
    }
}

/// After a deallocation the returned block lies inside exactly one free block:
/// the block merging built, which is on the free list of the order merging
/// stopped at; every other free block shares no byte with it.
pub proof fn lemma_dealloc_block_inside(ls: Seq<Seq<usize>>, ptr: int, ord: nat)
    requires
        layers_wf(ls),
        returnable(ls, ptr, ord),
        merge_order(ls, ptr, ord, ord) < LAYER_COUNT,
    ensures
        ({
            let m = merge_order(ls, ptr, ord, ord);
            let st = merge_stage(ls, ptr, ord, m);
            let b = merged_block(ptr, ord, m);
            &&& is_block(st, b as usize, m)
            &&& block_bytes(ptr, ord).subset_of(block_bytes(b, m))
            &&& forall|a: usize, k: nat| #[trigger]
                is_block(st, a, k) && !(a as int == b && k == m) ==> apart(ptr, ord, a as int, k)
        }),
{
    let m = merge_order(ls, ptr, ord, ord);
    lemma_merge_order_above(ls, ptr, ord, ord);
    lemma_merge_stage(ls, ptr, ord, m);
    lemma_merged_block_holds(ptr, ord, m);
    let st = merge_stage(ls, ptr, ord, m);
    let b = merged_block(ptr, ord, m);
    assert forall|a: usize, k: nat| #[trigger]
        is_block(st, a, k) && !(a as int == b && k == m) implies apart(ptr, ord, a as int, k) by {
        assert(apart(b, m, a as int, k));
        lemma_pow2_pos(k);
    }
}

/// The search an allocation makes finds the lowest non-empty free list at or
/// above order `k`: it finds one exactly when some list from `k` up to the top
/// holds a block, and every list it passes over is empty.
pub proof fn lemma_first_nonempty_is_lowest(ls: Seq<Seq<usize>>, k: nat)
    ensures
        first_nonempty(ls, k) < LAYER_COUNT <==> exists|j: int|
            k <= j < LAYER_COUNT && #[trigger] ls[j].len() > 0,
        first_nonempty(ls, k) < LAYER_COUNT ==> k <= first_nonempty(ls, k) && ls[first_nonempty(
            ls,
            k,
        ) as int].len() > 0,
        forall|j: int| k <= j < first_nonempty(ls, k) ==> #[trigger] ls[j].len() == 0,
    decreases LAYER_COUNT - k,
{
    if k < LAYER_COUNT && ls[k as int].len() == 0 {
        lemma_first_nonempty_is_lowest(ls, k + 1);
        assert forall|j: int| k <= j < first_nonempty(ls, k) implies #[trigger] ls[j].len() == 0 by {
            if j > k {
                assert(k + 1 <= j);
            }
        }
        if exists|j: int| k <= j < LAYER_COUNT && #[trigger] ls[j].len() > 0 {
            let j = choose|j: int| k <= j < LAYER_COUNT && #[trigger] ls[j].len() > 0;
            assert(j != k);
            assert(k + 1 <= j < LAYER_COUNT && ls[j].len() > 0);
        }
    } else if k < LAYER_COUNT {
        assert(ls[k as int].len() > 0);
    }
}

/// The blocks `manage` cuts from `[cur, end)` are each well aligned, inside the
/// range, and as large as they can be: doubling one would break its alignment
/// or pass `end`.
pub proof fn lemma_cut_blocks_maximal(cur: nat, end: nat)
    requires
        end <= usize::MAX,
    ensures
        forall|i: int|
            0 <= i < cut_blocks(cur, end).len() ==> {
                let a = #[trigger] cut_blocks(cur, end)[i].0 as int;
                let k = cut_blocks(cur, end)[i].1;
                &&& cur <= a
                &&& a % (pow2(k) as int) == 0
                &&& a + pow2(k) <= end
                &&& !(a % (pow2(k + 1) as int) == 0 && a + pow2(k + 1) <= end)
            },
    decreases end - cur,
{
    if !(cur == 0 || cur + word_bytes() > end) {
        let k = cut_order(cur, end);
        let lo = low_order(cur);
        let lg = log2((end - cur) as nat);
        lemma_log2_bounds((end - cur) as nat);
        lemma_pow2_monotone(k, lg);
        lemma_pow2_pos(k);
        lemma_low_order_divides(cur);
        lemma_align_smaller(cur as int, lo, k);
        lemma_pow2_unfold(k + 1);
        if cur % pow2(k + 1) == 0 && cur + pow2(k + 1) <= end {
            if k == lo {
                lemma_halves_of(cur as int, k);
            } else {
                assert(k == lg);
            }
        }
        lemma_cut_blocks_maximal(cur + pow2(k), end);
        let rest = cut_blocks(cur + pow2(k), end);
        assert(cut_blocks(cur, end) == seq![(cur as usize, k)] + rest);
        assert forall|i: int| 0 <= i < cut_blocks(cur, end).len() implies {
            let a = #[trigger] cut_blocks(cur, end)[i].0 as int;
            let k = cut_blocks(cur, end)[i].1;
            &&& cur <= a
            &&& a % (pow2(k) as int) == 0
            &&& a + pow2(k) <= end
            &&& !(a % (pow2(k + 1) as int) == 0 && a + pow2(k + 1) <= end)
        } by {
            if i > 0 {
                assert(cut_blocks(cur, end)[i] == rest[i - 1]);
            }
        }
    }
}

/// Handing the heap a range that is one aligned block of order `k`, a word or
/// more, puts exactly that block on the free list of order `k`.
pub proof fn lemma_manage_aligned_block(ls: Seq<Seq<usize>>, a: nat, k: nat)
    requires
        a > 0,
        a % pow2(k) == 0,
        word_bytes() <= pow2(k),
        a + pow2(k) <= usize::MAX,
        k < ls.len(),
    ensures
        cut_blocks(a, a + pow2(k)) == seq![(a as usize, k)],
        push_blocks(ls, cut_blocks(a, a + pow2(k))) == ls.update(
            k as int,
            seq![a as usize] + ls[k as int],
        ),
{
    let end = a + pow2(k);
    let lo = low_order(a);
    lemma_log2_pow2(k);
    lemma_low_order_divides(a);
    lemma_pow2_pos(lo);
    if lo < k {
        lemma_align_smaller(a as int, k, lo + 1);
        lemma_halves_of(a as int, lo);
    }
    assert(((end - a) as nat) == pow2(k));
    assert(log2(((end - a) as nat)) == k);
    assert(cut_order(a, end) == k);
    assert(cut_blocks(end, end) == Seq::<(usize, nat)>::empty());
    assert(cut_blocks(a, end) =~= seq![(a as usize, k)]);
    let bs = seq![(a as usize, k)];
    assert(bs.drop_last() =~= Seq::<(usize, nat)>::empty());
    assert(push_blocks(ls, bs.drop_last()) == ls);
    assert(bs.last() == (a as usize, k));
}

} // verus!
