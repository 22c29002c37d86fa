use vstd::prelude::*;
use vstd::arithmetic::div_mod::{lemma_fundamental_div_mod, lemma_mod_multiples_basic};

use super::{align_up, align_up_spec, lemma_align_up};

verus! {

/// Bytes taken by one free-list node: a size and a link.
pub const NODE_SIZE: usize = 16;

/// Alignment of a free-list node.
pub const NODE_ALIGN: usize = 8;

/// A span of memory `[start, start + size)`, as a pair of integers.
pub type Span = (int, int);

/// Two spans share no byte.
pub open spec fn disjoint(a: Span, b: Span) -> bool {
    a.0 + a.1 <= b.0 || b.0 + b.1 <= a.0
}

/// `n` is a power of two.
pub open spec fn is_power_of_two(n: int) -> bool
    decreases n,
{
    if n <= 1 {
        n == 1
    } else {
        n % 2 == 0 && is_power_of_two(n / 2)
    }
}

/// The alignment a request gets once it must also hold a node.
pub open spec fn node_align(align: int) -> int {
    if align < NODE_ALIGN {
        NODE_ALIGN as int
    } else {
        align
    }
}

/// The size a request gets once it must also hold a node: padded to its
/// alignment and at least one node long.
pub open spec fn node_size(size: int, align: int) -> int {
    let padded = align_up_spec(size, node_align(align));
    if padded < NODE_SIZE {
        NODE_SIZE as int
    } else {
        padded
    }
}

/// A layout the allocator accepts: a power-of-two alignment, and a size that
/// stays within `isize::MAX` once padded.
pub open spec fn valid_request(size: int, align: int) -> bool {
    &&& is_power_of_two(align)
    &&& 0 <= size
    &&& align_up_spec(size, node_align(align)) <= isize::MAX
}

/// A block of `size` bytes aligned to `align` can be cut from the front of
/// `region` without leaving a tail too small to hold a node.
pub open spec fn region_fits(region: Span, size: int, align: int) -> bool {
    let alloc_end = align_up_spec(region.0, align) + size;
    let region_end = region.0 + region.1;
    &&& alloc_end <= region_end
    &&& (region_end - alloc_end == 0 || region_end - alloc_end >= NODE_SIZE)
}

/// Index of the first region of `list` that fits the request, or `list.len()`
/// when none does.
pub open spec fn first_fit(list: Seq<Span>, size: int, align: int) -> int
    decreases list.len(),
{
    if list.len() == 0 {
        0
    } else if region_fits(list[0], size, align) {
        0
    } else {
        1 + first_fit(list.drop_first(), size, align)
    }
}

/// Sum of the sizes of the spans of `list`.
pub open spec fn total_size(list: Seq<Span>) -> int
    decreases list.len(),
{
    if list.len() == 0 {
        0
    } else {
        list[0].1 + total_size(list.drop_first())
    }
}

/// A span that can hold a node in place.
pub open spec fn node_ok(s: Span) -> bool {
    s.0 % NODE_ALIGN as int == 0 && s.1 >= NODE_SIZE
}

/// `first_fit` is an index of the list or its length; the region there fits
/// and none before it does.
pub proof fn lemma_first_fit(list: Seq<Span>, size: int, align: int)
    ensures
        0 <= first_fit(list, size, align) <= list.len(),
        first_fit(list, size, align) < list.len() ==> region_fits(
            list[first_fit(list, size, align)],
            size,
            align,
        ),
        forall|j: int|
            0 <= j < first_fit(list, size, align) ==> !region_fits(#[trigger] list[j], size, align),
    decreases list.len(),
{
    if list.len() > 0 && !region_fits(list[0], size, align) {
        lemma_first_fit(list.drop_first(), size, align);
        assert forall|j: int| 0 <= j < first_fit(list, size, align) implies !region_fits(
            #[trigger] list[j],
            size,
            align,
        ) by {
            if j > 0 {
                assert(list[j] == list.drop_first()[j - 1]);
            }
        }
    }
}

/// The first fitting region is the one at `i` when none before it fits and
/// it does, or `i` is the length.
proof fn lemma_first_fit_at(list: Seq<Span>, size: int, align: int, i: int)
    requires
        0 <= i <= list.len(),
        forall|j: int| 0 <= j < i ==> !region_fits(#[trigger] list[j], size, align),
        i < list.len() ==> region_fits(list[i], size, align),
    ensures
        first_fit(list, size, align) == i,
    decreases list.len(),
{
    if list.len() > 0 && i > 0 {
        assert(!region_fits(list[0], size, align));
        assert forall|j: int| 0 <= j < i - 1 implies !region_fits(
            #[trigger] list.drop_first()[j],
            size,
            align,
        ) by {
            assert(list.drop_first()[j] == list[j + 1]);
        }
        lemma_first_fit_at(list.drop_first(), size, align, i - 1);
    }
}

/// No span of a list of non-negative sizes is larger than their sum.
proof fn lemma_total_size_bounds(list: Seq<Span>, i: int)
    requires
        0 <= i < list.len(),
        forall|j: int| 0 <= j < list.len() ==> (#[trigger] list[j]).1 >= 0,
    ensures
        list[i].1 <= total_size(list),
    decreases list.len(),
{
    let rest = list.drop_first();
    assert forall|j: int| 0 <= j < rest.len() implies (#[trigger] rest[j]).1 >= 0 by {
        assert(rest[j] == list[j + 1]);
    }
    if i > 0 {
        assert(rest[i - 1] == list[i]);
        lemma_total_size_bounds(rest, i - 1);
    }
    lemma_total_size_nonneg(rest);
}

/// Sizes that are not negative have a sum that is not negative.
proof fn lemma_total_size_nonneg(list: Seq<Span>)
    requires
        forall|j: int| 0 <= j < list.len() ==> (#[trigger] list[j]).1 >= 0,
    ensures
        total_size(list) >= 0,
    decreases list.len(),
{
    if list.len() > 0 {
        let rest = list.drop_first();
        assert forall|j: int| 0 <= j < rest.len() implies (#[trigger] rest[j]).1 >= 0 by {
            assert(rest[j] == list[j + 1]);
        }
        lemma_total_size_nonneg(rest);
    }
}

/// A power of two is below eight only as 1, 2 or 4, and else a multiple of eight.
proof fn lemma_power_of_two_and_eight(n: int)
    requires
        is_power_of_two(n),
    ensures
        n > 0,
        n < 8 ==> n == 1 || n == 2 || n == 4,
        n >= 8 ==> n % 8 == 0,
    decreases n,
{
    if n >= 2 {
        let m = n / 2;
        lemma_power_of_two_and_eight(m);
        if m >= 8 {
            lemma_fundamental_div_mod(m, 8);
        }
    }
}

/// A multiple of a multiple of eight is a multiple of eight.
proof fn lemma_multiple_of_eight(x: int, m: int)
    requires
        x >= 0,
        m > 0,
        x % m == 0,
        m % 8 == 0,
    ensures
        x % 8 == 0,
{
    lemma_fundamental_div_mod(x, m);
    lemma_fundamental_div_mod(m, 8);
    let k = (x / m) * (m / 8);
    assert(x == k * 8) by (nonlinear_arith)
        requires
            x == m * (x / m),
            m == 8 * (m / 8),
            k == (x / m) * (m / 8),
    ;
    lemma_mod_multiples_basic(k, 8);
}

/// What `allocate(size, align)` does to an allocator `pre`, leaving `post`
/// and returning `r`: it serves the request from the first free region that
/// fits it, cutting the block from the region's front; a tail long enough to
/// hold a node goes back to the front of the list, and a gap before the block
/// stays unused.
pub open spec fn allocate_result(
    pre: LinkedListAllocator,
    post: LinkedListAllocator,
    size: int,
    align: int,
    r: Option<usize>,
) -> bool {
    let sz = node_size(size, align);
    let al = node_align(align);
    let list = pre.free_list();
    let i = first_fit(list, sz, al);
    &&& post.heap_start() == pre.heap_start()
    &&& post.heap_end() == pre.heap_end()
    &&& post.initialized() == pre.initialized()
    &&& r is None <==> i == list.len()
    &&& r is None ==> post.free_list() == list && post.live() == pre.live()
    &&& r matches Some(a) ==> {
        let region_end = list[i].0 + list[i].1;
        &&& a == align_up_spec(list[i].0, al)
        &&& a as int % align == 0
        &&& post.in_heap((a as int, sz))
        &&& post.live() == pre.live().insert((a as int, sz))
        &&& post.free_list() == if region_end > a + sz {
            list.remove(i).insert(0, (a + sz, region_end - (a + sz)))
        } else {
            list.remove(i)
        }
    }
}

/// What `deallocate(ptr, size, align)` does to an allocator `pre`, leaving
/// `post`: the block, with the size that `allocate` reserved for the same
/// request, leaves the live blocks and goes to the front of the free list.
pub open spec fn deallocate_result(
    pre: LinkedListAllocator,
    post: LinkedListAllocator,
    ptr: int,
    size: int,
    align: int,
) -> bool {
    let block = (ptr, node_size(size, align));
    &&& post.heap_start() == pre.heap_start()
    &&& post.heap_end() == pre.heap_end()
    &&& post.initialized() == pre.initialized()
    &&& post.free_list() == pre.free_list().insert(0, block)
    &&& post.live() == pre.live().remove(block)
}

/// Two blocks that are live at the same time share no byte, and each lies
/// within the heap. Every operation of the allocator keeps it well formed, so
/// this holds after any sequence of `allocate` and `deallocate` calls.
pub proof fn lemma_live_blocks_disjoint(a: LinkedListAllocator, b: Span, c: Span)
    requires
        a.wf(),
        a.live().contains(b),
        a.live().contains(c),
        b != c,
    ensures
        disjoint(b, c),
        a.in_heap(b),
        a.in_heap(c),
{
}

/// A live block shares no byte with any free region.
pub proof fn lemma_live_block_not_free(a: LinkedListAllocator, b: Span, i: int)
    requires
        a.wf(),
        a.live().contains(b),
        0 <= i < a.free_list().len(),
    ensures
        disjoint(b, a.free_list()[i]),
{
}

/// Allocating a block, freeing it, and asking again with the same size and
/// alignment succeeds: the freed region is at the front of the list and fits
/// the request exactly, so the same address comes back.
pub proof fn lemma_free_then_reallocate(
    s0: LinkedListAllocator,
    s1: LinkedListAllocator,
    s2: LinkedListAllocator,
    s3: LinkedListAllocator,
    size: int,
    align: int,
    a: usize,
    r: Option<usize>,
)
    requires
        valid_request(size, align),
        allocate_result(s0, s1, size, align, Some(a)),
        deallocate_result(s1, s2, a as int, size, align),
        allocate_result(s2, s3, size, align, r),
    ensures
        r == Some(a),
        s3.in_heap((a as int, node_size(size, align))),
        s3.live().contains((a as int, node_size(size, align))),
{
    let sz = node_size(size, align);
    let al = node_align(align);
    let list0 = s0.free_list();
    let i = first_fit(list0, sz, al);
    lemma_power_of_two_and_eight(align);
    lemma_first_fit(list0, sz, al);
    lemma_align_up(list0[i].0, al);
    let list2 = s2.free_list();
    assert(list2[0] == (a as int, sz));
    assert(align_up_spec(a as int, al) == a);
    assert(region_fits(list2[0], sz, al));
    assert(first_fit(list2, sz, al) == 0);
}

/// A free region, kept in the allocator's list.
struct ListNode {
    start: usize,
    size: usize,
}

impl ListNode {
    spec fn view(&self) -> Span {
        (self.start as int, self.size as int)
    }

    fn new(start: usize, size: usize) -> (r: Self)
        ensures
            r.start == start,
            r.size == size,
    {
        ListNode { start, size }
    }

    fn start_addr(&self) -> (r: usize)
        ensures
            r == self.start,
    {
        self.start
    }

    fn end_addr(&self) -> (r: usize)
        requires
            self.start + self.size <= usize::MAX,
        ensures
            r == self.start + self.size,
    {
        self.start + self.size
    }
}

/// Why the heap could not be handed to the allocator.
#[derive(Debug, Clone, Copy, PartialEq, Eq, Structural)]
pub enum HeapInitError {
    /// The allocator already manages a heap.
    AlreadyInitialized,
    /// The region is misaligned for a node, shorter than a node, or runs past
    /// the end of the address space.
    InvalidRegion,
}

/// A first-fit allocator over a singly linked list of free regions.
///
/// The list is kept in an arena: `nodes[0]` is the node right after the head,
/// and a freed region goes in at the front. Blocks handed out and not yet
/// returned are tracked as ghost state, so the invariant can say that no two
/// of them, nor any of them and a free region, overlap.
pub struct LinkedListAllocator {
    nodes: Vec<ListNode>,
    heap_start: usize,
    heap_end: usize,
    initialized: bool,
    live: Ghost<Set<Span>>,
}

impl LinkedListAllocator {
    /// The free regions, from the head of the list on.
    pub closed spec fn free_list(&self) -> Seq<Span> {
        self.nodes@.map_values(|n: ListNode| n@)
    }

    /// The blocks handed out and not yet returned, as `(address, size)` with
    /// the size that the allocator reserved.
    pub closed spec fn live(&self) -> Set<Span> {
        self.live@
    }

    pub closed spec fn initialized(&self) -> bool {
        self.initialized
    }

    pub closed spec fn heap_start(&self) -> int {
        self.heap_start as int
    }

    pub closed spec fn heap_end(&self) -> int {
        self.heap_end as int
    }

    /// The bytes that the free list holds.
    pub open spec fn free_capacity(&self) -> int {
        total_size(self.free_list())
    }

    /// A span lies within the heap.
    pub open spec fn in_heap(&self, s: Span) -> bool {
        self.heap_start() <= s.0 && s.0 + s.1 <= self.heap_end()
    }

    pub closed spec fn wf(&self) -> bool {
        let list = self.free_list();
        &&& self.heap_start <= self.heap_end
        &&& forall|i: int| 0 <= i < list.len() ==> node_ok(#[trigger] list[i])
        &&& forall|i: int| 0 <= i < list.len() ==> self.in_heap(#[trigger] list[i])
        &&& forall|i: int, j: int|
            0 <= i < list.len() && 0 <= j < list.len() && i != j ==> disjoint(
                #[trigger] list[i],
                #[trigger] list[j],
            )
        &&& forall|b: Span| #[trigger] self.live@.contains(b) ==> node_ok(b) && self.in_heap(b)
        &&& forall|b: Span, i: int|
            self.live@.contains(b) && 0 <= i < list.len() ==> #[trigger] disjoint(b, list[i])
        &&& forall|b: Span, c: Span|
            self.live@.contains(b) && self.live@.contains(c) && b != c ==> #[trigger] disjoint(
                b,
                c,
            )
        &&& !self.initialized ==> list.len() == 0 && self.live@.is_empty()
    }

    /// Whether the allocator manages a heap already.
    pub fn is_initialized(&self) -> (r: bool)
        ensures
            r == self.initialized(),
    {
        self.initialized
    }

    /// An allocator that manages no memory yet.
    pub fn new() -> (r: Self)
        ensures
            r.wf(),
            !r.initialized(),
            r.free_list() == Seq::<Span>::empty(),
            r.live() == Set::<Span>::empty(),
    {
        let r = LinkedListAllocator {
            nodes: Vec::new(),
            heap_start: 0,
            heap_end: 0,
            initialized: false,
            live: Ghost(Set::empty()),
        };
        assert(r.free_list() =~= Seq::<Span>::empty());
        r
    }

    /// Whether a block of `size` bytes aligned to `align` can be cut from
    /// `region`; if so, where it starts.
    fn alloc_from_region(region: &ListNode, size: usize, align: usize) -> (r: Result<usize, ()>)
        requires
            align > 0,
            region.start + region.size <= usize::MAX,
        ensures
            r is Ok <==> region_fits(region@, size as int, align as int),
            r matches Ok(s) ==> s == align_up_spec(region.start as int, align as int),
    {
        let start = region.start_addr();
        assert(start % align <= start) by (nonlinear_arith)
            requires
                align > 0,
        ;
        if start % align != 0 && start - start % align > usize::MAX - align {
            return Err(());
        }
        let alloc_start = align_up(start, align);
        let alloc_end = match alloc_start.checked_add(size) {
            Some(e) => e,
            None => return Err(()),
        };
        if alloc_end > region.end_addr() {
            return Err(());
        }
        let excess_size = region.end_addr() - alloc_end;
        if excess_size > 0 && excess_size < NODE_SIZE {
            return Err(());
        }
        Ok(alloc_start)
    }

    /// Unlinks the first region that fits the request and returns it with the
    /// start of the block cut from it.
    fn find_region(&mut self, size: usize, align: usize) -> (r: Option<(ListNode, usize)>)
        requires
            old(self).wf(),
            align > 0,
        ensures
            ({
                let list = old(self).free_list();
                let i = first_fit(list, size as int, align as int);
                &&& r is None <==> i == list.len()
                &&& r is None ==> *final(self) == *old(self)
                &&& r matches Some((n, s)) ==> {
                    &&& n@ == list[i]
                    &&& s == align_up_spec(n.start as int, align as int)
                    &&& final(self).free_list() == list.remove(i)
                }
            }),
            final(self).live() == old(self).live(),
            final(self).heap_start() == old(self).heap_start(),
            final(self).heap_end() == old(self).heap_end(),
            final(self).initialized() == old(self).initialized(),
    {
        let ghost list = self.free_list();
        let mut i: usize = 0;
        while i < self.nodes.len()
            invariant
                *self == *old(self),
                list == self.free_list(),
                self.wf(),
                align > 0,
                0 <= i <= self.nodes.len(),
                forall|j: int| 0 <= j < i ==> !region_fits(#[trigger] list[j], size as int, align as int),
            decreases self.nodes.len() - i,
        {
            assert(list[i as int] == self.nodes@[i as int]@);
            if let Ok(alloc_start) = Self::alloc_from_region(&self.nodes[i], size, align) {
                proof {
                    lemma_first_fit_at(list, size as int, align as int, i as int);
                }
                let node = self.nodes.remove(i);
                proof {
                    assert(self.free_list() =~= list.remove(i as int));
                }
                return Some((node, alloc_start));
            }
            i += 1;
        }
        proof {
            lemma_first_fit_at(list, size as int, align as int, i as int);
        }
        None
    }
    /// Widens a request so that the block can later hold a node: the
    /// alignment becomes at least a node's, and the size is padded to it and
    /// made at least one node long.
    fn size_align(size: usize, align: usize) -> (r: (usize, usize))
        requires
            valid_request(size as int, align as int),
        ensures
            r.0 == node_size(size as int, align as int),
            r.1 == node_align(align as int),
    {
        proof {
            lemma_power_of_two_and_eight(align as int);
        }
        let align = if align < NODE_ALIGN {
            NODE_ALIGN
        } else {
            align
        };
        let padded = align_up(size, align);
        let size = if padded < NODE_SIZE {
            NODE_SIZE
        } else {
            padded
        };
        (size, align)
    }

    /// Puts the region `[addr, addr + size)` at the front of the free list.
    fn add_free_region(&mut self, addr: usize, size: usize)
        requires
            node_ok((addr as int, size as int)),
        ensures
            final(self).free_list() == old(self).free_list().insert(0, (addr as int, size as int)),
            final(self).live() == old(self).live(),
            final(self).heap_start() == old(self).heap_start(),
            final(self).heap_end() == old(self).heap_end(),
            final(self).initialized() == old(self).initialized(),
    {
        let node = ListNode::new(addr, size);
        self.nodes.insert(0, node);
        assert(self.free_list() =~= old(self).free_list().insert(0, (addr as int, size as int)));
    }

    /// Hands the region `[heap_start, heap_start + heap_size)` to the
    /// allocator as one free region. This is done once: a second call is
    /// refused, as is a region that cannot hold a node.
    pub fn init(&mut self, heap_start: usize, heap_size: usize) -> (r: Result<(), HeapInitError>)
        requires
            old(self).wf(),
        ensures
            final(self).wf(),
            old(self).initialized() ==> r == Err::<(), _>(HeapInitError::AlreadyInitialized),
            !old(self).initialized() && (heap_start % NODE_ALIGN != 0 || heap_size < NODE_SIZE
                || heap_start + heap_size > usize::MAX) ==> r == Err::<(), _>(
                HeapInitError::InvalidRegion,
            ),
            !old(self).initialized() && heap_start % NODE_ALIGN == 0 && heap_size >= NODE_SIZE
                && heap_start + heap_size <= usize::MAX ==> r is Ok,
            r is Err ==> *final(self) == *old(self),
            r is Ok ==> {
                &&& final(self).initialized()
                &&& final(self).heap_start() == heap_start
                &&& final(self).heap_end() == heap_start + heap_size
                &&& final(self).free_list() == seq![(heap_start as int, heap_size as int)]
                &&& final(self).live() == Set::<Span>::empty()
            },
    {
        if self.initialized {
            return Err(HeapInitError::AlreadyInitialized);
        }
        if heap_start % NODE_ALIGN != 0 || heap_size < NODE_SIZE || heap_start > usize::MAX
            - heap_size {
            return Err(HeapInitError::InvalidRegion);
        }
        self.heap_start = heap_start;
        self.heap_end = heap_start + heap_size;
        self.add_free_region(heap_start, heap_size);
        self.initialized = true;
        assert(self.free_list() =~= seq![(heap_start as int, heap_size as int)]);
        Ok(())
    }

    /// Reserves a block of `size` bytes aligned to `align`, from the first
    /// free region that can hold it. Returns its address, or `None` when no
    /// free region can.
    #[verifier::spinoff_prover]
    #[verifier::rlimit(40)]
    pub fn allocate(&mut self, size: usize, align: usize) -> (r: Option<usize>)
        requires
            old(self).wf(),
            valid_request(size as int, align as int),
        ensures
            final(self).wf(),
            allocate_result(*old(self), *final(self), size as int, align as int, r),
            size > old(self).free_capacity() ==> r is None,
    {
        let (sz, al) = Self::size_align(size, align);
        let ghost list = self.free_list();
        let ghost pre = *self;
        proof {
            lemma_power_of_two_and_eight(align as int);
            lemma_first_fit(list, sz as int, al as int);
            lemma_align_up(size as int, al as int);
            lemma_multiple_of_eight(align_up_spec(size as int, al as int), al as int);
        }
        match self.find_region(sz, al) {
            Some((region, alloc_start)) => {
                let ghost i = first_fit(list, sz as int, al as int);
                let ghost b = (alloc_start as int, sz as int);
                proof {
                    lemma_align_up(region.start as int, al as int);
                    lemma_multiple_of_eight(alloc_start as int, al as int);
                    if align < 8 {
                        lemma_fundamental_div_mod(alloc_start as int, 8);
                    }
                    assert(list[i] == region@);
                    assert(node_ok(list[i]) && pre.in_heap(list[i]));
                }
                let alloc_end = alloc_start + sz;
                let excess_size = region.end_addr() - alloc_end;
                let ghost mid = self.free_list();
                if excess_size > 0 {
                    self.add_free_region(alloc_end, excess_size);
                }
                self.live = Ghost(self.live@.insert(b));
                proof {
                    let tail = (alloc_end as int, excess_size as int);
                    if excess_size > 0 {
                        assert(self.free_list() =~= list.remove(i).insert(0, tail));
                    } else {
                        assert(self.free_list() =~= list.remove(i));
                    }
                    Self::lemma_cut_block(pre, *self, i, b, excess_size > 0);
                    if size > pre.free_capacity() {
                        lemma_total_size_bounds(list, i);
                    }
                }
                Some(alloc_start)
            },
            None => None,
        }
    }

    /// Cutting a block from the front of free region `i`, and giving the
    /// tail back when it is long enough, keeps the allocator well formed.
    proof fn lemma_cut_block(pre: Self, post: Self, i: int, b: Span, tail: bool)
        requires
            pre.wf(),
            0 <= i < pre.free_list().len(),
            pre.free_list()[i].0 <= b.0,
            b.0 + b.1 <= pre.free_list()[i].0 + pre.free_list()[i].1,
            node_ok(b),
            tail ==> node_ok(
                (b.0 + b.1, pre.free_list()[i].0 + pre.free_list()[i].1 - (b.0 + b.1)),
            ),
            post.free_list() == if tail {
                pre.free_list().remove(i).insert(
                    0,
                    (b.0 + b.1, pre.free_list()[i].0 + pre.free_list()[i].1 - (b.0 + b.1)),
                )
            } else {
                pre.free_list().remove(i)
            },
            post.live() == pre.live().insert(b),
            post.heap_start() == pre.heap_start(),
            post.heap_end() == pre.heap_end(),
            post.initialized() == pre.initialized(),
            post.initialized(),
        ensures
            post.wf(),
    {
        let list = pre.free_list();
        let post_list = post.free_list();
        let off: int = if tail { 1 } else { 0 };
        assert forall|k: int| 0 <= k < post_list.len() implies node_ok(#[trigger] post_list[k])
            && post.in_heap(post_list[k]) && disjoint(b, post_list[k]) && (forall|c: Span|
            pre.live@.contains(c) ==> disjoint(c, post_list[k])) by {
            if !(tail && k == 0) {
                let m = k - off;
                let j = if m < i { m } else { m + 1 };
                assert(post_list[k] == list[j]);
                assert(disjoint(list[i], list[j]));
                assert forall|c: Span| pre.live@.contains(c) implies disjoint(c, post_list[k]) by {
                    assert(disjoint(c, list[j]));
                }
            } else {
                assert forall|c: Span| pre.live@.contains(c) implies disjoint(c, post_list[k]) by {
                    assert(disjoint(c, list[i]));
                }
            }
        }
        assert forall|k: int, l: int|
            0 <= k < post_list.len() && 0 <= l < post_list.len() && k != l implies disjoint(
            #[trigger] post_list[k],
            #[trigger] post_list[l],
        ) by {
            let mk = k - off;
            let ml = l - off;
            let jk = if mk < i { mk } else { mk + 1 };
            let jl = if ml < i { ml } else { ml + 1 };
            if tail && k == 0 {
                assert(post_list[l] == list[jl]);
                assert(disjoint(list[i], list[jl]));
            } else if tail && l == 0 {
                assert(post_list[k] == list[jk]);
                assert(disjoint(list[i], list[jk]));
            } else {
                assert(post_list[k] == list[jk]);
                assert(post_list[l] == list[jl]);
            }
        }
        assert forall|c: Span, k: int|
            post.live@.contains(c) && 0 <= k < post_list.len() implies #[trigger] disjoint(
            c,
            post_list[k],
        ) by {
            if c != b {
                assert(pre.live@.contains(c));
            }
        }
        assert forall|c: Span, d: Span|
            post.live@.contains(c) && post.live@.contains(d) && c != d implies #[trigger] disjoint(
            c,
            d,
        ) by {
            if c == b {
                assert(pre.live@.contains(d));
                assert(disjoint(d, list[i]));
            } else if d == b {
                assert(pre.live@.contains(c));
                assert(disjoint(c, list[i]));
            } else {
                assert(pre.live@.contains(c));
                assert(pre.live@.contains(d));
            }
        }
        assert forall|c: Span| #[trigger] post.live@.contains(c) implies node_ok(c) && post.in_heap(
            c,
        ) by {
            if c != b {
                assert(pre.live@.contains(c));
            }
        }
    }

    /// Returns the block at `ptr` that `allocate(size, align)` handed out:
    /// it becomes a free region at the front of the list. Freed regions are
    /// not merged with their neighbours.
    pub fn deallocate(&mut self, ptr: usize, size: usize, align: usize)
        requires
            old(self).wf(),
            valid_request(size as int, align as int),
            old(self).live().contains((ptr as int, node_size(size as int, align as int))),
        ensures
            final(self).wf(),
            deallocate_result(*old(self), *final(self), ptr as int, size as int, align as int),
    {
        let (sz, _) = Self::size_align(size, align);
        let ghost pre = *self;
        let ghost list = self.free_list();
        let ghost b = (ptr as int, sz as int);
        self.add_free_region(ptr, sz);
        self.live = Ghost(self.live@.remove(b));
        proof {
            let post = self.free_list();
            assert forall|k: int| 0 <= k < post.len() implies node_ok(#[trigger] post[k])
                && self.in_heap(post[k]) by {
                if k > 0 {
                    assert(post[k] == list[k - 1]);
                }
            }
            assert forall|k: int, l: int|
                0 <= k < post.len() && 0 <= l < post.len() && k != l implies disjoint(
                #[trigger] post[k],
                #[trigger] post[l],
            ) by {
                if k == 0 {
                    assert(post[l] == list[l - 1]);
                    assert(disjoint(b, list[l - 1]));
                } else if l == 0 {
                    assert(post[k] == list[k - 1]);
                    assert(disjoint(b, list[k - 1]));
                } else {
                    assert(post[k] == list[k - 1]);
                    assert(post[l] == list[l - 1]);
                }
            }
            assert forall|c: Span, k: int|
                self.live@.contains(c) && 0 <= k < post.len() implies #[trigger] disjoint(c, post[k]) by {
                assert(pre.live@.contains(c));
                if k == 0 {
                    assert(disjoint(c, b));
                } else {
                    assert(post[k] == list[k - 1]);
                }
            }
            assert forall|c: Span, d: Span|
                self.live@.contains(c) && self.live@.contains(d) && c != d implies #[trigger] disjoint(c, d) by {
                assert(pre.live@.contains(c));
                assert(pre.live@.contains(d));
            }
            assert forall|c: Span| #[trigger] self.live@.contains(c) implies node_ok(c)
                && self.in_heap(c) by {
                assert(pre.live@.contains(c));
            }
        }
    }
}

} // verus!
