use vstd::prelude::*;

verus! {

/// The bytes of a block of class `k`.
pub open spec fn class_size(k: usize) -> usize {
    1usize << k
}

/// A free block of class `k` at `b`: not null and aligned to its size.
pub open spec fn block_ok(b: usize, k: usize) -> bool {
    &&& k < usize::BITS
    &&& b != 0
    &&& b & (((1usize << k) - 1) as usize) == 0
}

/// The class of a request for `size` bytes aligned to `align`: the least `c >= 3` whose
/// block size covers both (blocks are never smaller than a machine word).
pub open spec fn is_class(c: usize, size: usize, align: usize) -> bool {
    &&& 3 <= c < usize::BITS
    &&& class_size(c) >= size
    &&& class_size(c) >= align
    &&& (c == 3 || class_size((c - 1) as usize) < size || class_size((c - 1) as usize) < align)
}

/// The class of the largest block that the greedy split of an arena puts at `cur` when
/// `rem` bytes are left: grown from class `k` while the block stays aligned and fits.
pub open spec fn greedy_class(cur: usize, rem: usize, k: usize) -> usize
    decreases usize::BITS - k,
{
    if k + 1 < usize::BITS && cur & (((1usize << (k + 1) as usize) - 1) as usize) == 0 && (1usize
        << (k + 1) as usize) <= rem {
        greedy_class(cur, rem, (k + 1) as usize)
    } else {
        k
    }
}

/// The blocks, as (address, class) pairs in order, into which the arena `cur..end` is split:
/// at each step the largest block that is aligned at `cur` and fits what is left.
pub open spec fn greedy_blocks(cur: usize, end: usize) -> Seq<(usize, usize)>
    decreases end - cur,
{
    if cur != 0 && cur <= end && end - cur >= 8 {
        let k = greedy_class(cur, (end - cur) as usize, 0);
        if k < usize::BITS && cur + (1usize << k) <= end && (1usize << k) > 0 {
            seq![(cur, k)] + greedy_blocks((cur + (1usize << k)) as usize, end)
        } else {
            Seq::empty()
        }
    } else {
        Seq::empty()
    }
}

/// The free lists after pushing `blocks` in order, each onto the list of its class.
pub open spec fn push_blocks(lists: Seq<Seq<usize>>, blocks: Seq<(usize, usize)>) -> Seq<
    Seq<usize>,
>
    decreases blocks.len(),
{
    if blocks.len() == 0 {
        lists
    } else {
        let (b, k) = blocks.last();
        push_blocks(lists, blocks.drop_last()).update(
            k as int,
            push_blocks(lists, blocks.drop_last())[k as int].push(b),
        )
    }
}

/// The bytes the blocks cover.
pub open spec fn blocks_bytes(blocks: Seq<(usize, usize)>) -> int
    decreases blocks.len(),
{
    if blocks.len() == 0 {
        0
    } else {
        blocks_bytes(blocks.drop_last()) + class_size(blocks.last().1)
    }
}

/// The least class `>= c` whose free list is not empty, if any below `order`.
pub open spec fn first_free(lists: Seq<Seq<usize>>, c: int, order: int) -> Option<int>
    decreases order - c,
{
    if c >= order {
        None
    } else if lists[c].len() > 0 {
        Some(c)
    } else {
        first_free(lists, c + 1, order)
    }
}

/// The free lists after block `b`, the last of list `i`, is split down to class `c`: list `i`
/// loses it, and each list `k` with `c <= k < i` gains the upper half `b + 2^k`.
pub open spec fn split_lists(lists: Seq<Seq<usize>>, b: usize, c: int, i: int) -> Seq<Seq<usize>> {
    Seq::new(
        lists.len(),
        |k: int|
            if c <= k < i {
                lists[k].push((b + class_size(k as usize)) as usize)
            } else if k == i {
                lists[k].drop_last()
            } else {
                lists[k]
            },
    )
}

/// The last index of `x` in `s`.
pub open spec fn last_index(s: Seq<usize>, x: usize) -> Option<int>
    decreases s.len(),
{
    if s.len() == 0 {
        None
    } else if s.last() == x {
        Some(s.len() - 1)
    } else {
        last_index(s.drop_last(), x)
    }
}

/// The free lists after coalescing: `cur`, of class `c`, is the last of list `c`; while its
/// buddy `cur ^ 2^c` is also free in list `c` (the last such entry is taken), both leave the
/// list and the merged block joins list `c + 1`.
pub open spec fn coalesce(lists: Seq<Seq<usize>>, cur: usize, c: int, order: int) -> Seq<
    Seq<usize>,
>
    decreases order - c,
{
    if c + 1 >= order || c < 0 {
        lists
    } else {
        let buddy = cur ^ class_size(c as usize);
        match last_index(lists[c], buddy) {
            Some(idx) => {
                let merged = if cur < buddy {
                    cur
                } else {
                    buddy
                };
                coalesce(
                    lists.update(c, lists[c].remove(idx).drop_last()).update(
                        c + 1,
                        lists[c + 1].push(merged),
                    ),
                    merged,
                    c + 1,
                    order,
                )
            },
            None => lists,
        }
    }
}

proof fn lemma_class_step(c: usize, x: usize)
    by (bit_vector)
    requires
        c < usize::BITS,
        (1usize << c) < x,
        x <= (1usize << (usize::BITS - 1) as usize),
    ensures
        c + 1 < usize::BITS,
        (1usize << (c + 1) as usize) == (1usize << c) * 2,
        (1usize << 3usize) == 8,
{
}

proof fn lemma_split_block(b: usize, k: usize, i: usize)
    by (bit_vector)
    requires
        k < i < usize::BITS,
        b != 0,
        b & (((1usize << i) - 1) as usize) == 0,
    ensures
        b & (((1usize << k) - 1) as usize) == 0,
        b + (1usize << k) <= (b | (((1usize << i) - 1) as usize)),
        (b + (1usize << k)) as usize & (((1usize << k) - 1) as usize) == 0,
        (b + (1usize << k)) as usize != 0,
{
}

proof fn lemma_merge_block(p: usize, c: usize)
    by (bit_vector)
    requires
        c + 1 < usize::BITS,
        p != 0,
        p & (((1usize << c) - 1) as usize) == 0,
        (p ^ (1usize << c)) != 0,
    ensures
        ({
            let q = p ^ (1usize << c);
            let m = if p < q {
                p
            } else {
                q
            };
            &&& m != 0
            &&& m & (((1usize << (c + 1) as usize) - 1) as usize) == 0
            &&& q & (((1usize << c) - 1) as usize) == 0
            &&& (q as int == p as int + (1usize << c) as int || p as int == q as int + (
            1usize << c) as int)
        }),
{
}

/// The free lists while block `b`, taken from list `i`, is being split: it now sits last in
/// list `j`, above the upper half `b + 2^j`, and each list `k` with `j < k < i` has gained
/// the upper half `b + 2^k`.
pub open spec fn split_partial(lists: Seq<Seq<usize>>, b: usize, i: int, j: int) -> Seq<
    Seq<usize>,
> {
    Seq::new(
        lists.len(),
        |k: int|
            if j < k < i {
                lists[k].push((b + class_size(k as usize)) as usize)
            } else if k == j && j < i {
                lists[k].push((b + class_size(k as usize)) as usize).push(b)
            } else if k == i && j < i {
                lists[k].drop_last()
            } else {
                lists[k]
            },
    )
}

/// The class and block size of a request for `size` bytes aligned to `align`.
fn size_class(size: usize, align: usize) -> (r: (usize, usize))
    requires
        size <= (1usize << (usize::BITS - 1) as usize),
        align <= (1usize << (usize::BITS - 1) as usize),
    ensures
        is_class(r.0, size, align),
        r.1 == class_size(r.0),
{
    let mut class: usize = 3;
    let mut bytes: usize = 8;
    proof {
        assert((1usize << 3usize) == 8usize && 3 < usize::BITS) by (bit_vector);
    }
    while bytes < size || bytes < align
        invariant
            3 <= class < usize::BITS,
            bytes == class_size(class),
            class == 3 || class_size((class - 1) as usize) < size || class_size((class - 1) as usize)
                < align,
            size <= (1usize << (usize::BITS - 1) as usize),
            align <= (1usize << (usize::BITS - 1) as usize),
        decreases usize::BITS - class,
    {
        proof {
            lemma_class_step(
                class,
                if bytes < size {
                    size
                } else {
                    align
                },
            );
        }
        bytes = bytes * 2;
        class = class + 1;
    }
    (class, bytes)
}

/// Only one class fits a request.
proof fn lemma_class_unique(c: usize, size: usize, align: usize)
    requires
        is_class(c, size, align),
    ensures
        forall|d: usize| #[trigger] is_class(d, size, align) ==> d == c,
{
    assert forall|d: usize| #[trigger] is_class(d, size, align) implies d == c by {
        if d < c {
            lemma_class_monotone(d, (c - 1) as usize);
        } else if c < d {
            lemma_class_monotone(c, (d - 1) as usize);
        }
    }
}

proof fn lemma_class_monotone(a: usize, b: usize)
    by (bit_vector)
    requires
        a <= b < usize::BITS,
    ensures
        (1usize << a) <= (1usize << b),
{
}

proof fn lemma_one_shift(k: usize)
    by (bit_vector)
    requires
        k < usize::BITS,
    ensures
        (1usize << k) > 0,
{
}

/// What `last_index` finds is there.
proof fn lemma_last_index(s: Seq<usize>, x: usize)
    ensures
        last_index(s, x) matches Some(i) ==> 0 <= i < s.len() && s[i] == x,
    decreases s.len(),
{
    if s.len() > 0 && s.last() != x {
        lemma_last_index(s.drop_last(), x);
    }
}

/// A block and its buddy differ.
proof fn lemma_last_not_buddy(p: usize, c: usize)
    by (bit_vector)
    requires
        c < usize::BITS,
    ensures
        p ^ (1usize << c) != p,
{
}

/// `x` rounded up to a multiple of 8.
pub open spec fn round_up8(x: usize) -> usize {
    ((x + 7) as usize & !7usize) as usize
}

/// `x` rounded down to a multiple of 8.
pub open spec fn round_down8(x: usize) -> usize {
    x & !7usize
}

proof fn lemma_round8(start: usize, end: usize)
    by (bit_vector)
    requires
        0 < start,
        (start + 7) as usize > start,
    ensures
        ((start + 7) as usize & !7usize) >= start,
        ((start + 7) as usize & !7usize) > 0,
        (end & !7usize) <= end,
{
}

/// The class of the block the greedy split puts at `cur` when `rem` bytes are left.
fn greedy_class_at(cur: usize, rem: usize) -> (k: usize)
    requires
        cur != 0,
        rem >= 8,
    ensures
        k == greedy_class(cur, rem, 0),
        k < usize::BITS,
        (1usize << k) <= rem,
        (1usize << k) > 0,
        cur & (((1usize << k) - 1) as usize) == 0,
{
    let mut k: usize = 0;
    let mut done = false;
    proof {
        lemma_shift_base(cur);
    }
    while !done && k + 1 < usize::BITS as usize
        invariant
            k < usize::BITS,
            done ==> greedy_class(cur, rem, k) == k,
            greedy_class(cur, rem, k) == greedy_class(cur, rem, 0),
            (1usize << k) <= rem,
            (1usize << k) > 0,
            cur & (((1usize << k) - 1) as usize) == 0,
        decreases usize::BITS - k + (if done {
            0int
        } else {
            1int
        }),
    {
        proof {
            lemma_one_shift((k + 1) as usize);
        }
        let next = 1usize << (k + 1);
        if cur & (next - 1) == 0 && next <= rem {
            k = k + 1;
        } else {
            done = true;
        }
    }
    k
}

proof fn lemma_shift_base(cur: usize)
    by (bit_vector)
    ensures
        (1usize << 0usize) == 1,
        cur & (((1usize << 0usize) - 1) as usize) == 0,
{
}

proof fn lemma_buddy_of_aligned(b: usize, k: usize, i: usize)
    by (bit_vector)
    requires
        k < i < usize::BITS,
        b & (((1usize << i) - 1) as usize) == 0,
    ensures
        b ^ (1usize << k) == (b + (1usize << k)) as usize,
        b < b + (1usize << k),
        b + (1usize << k) <= (b | (((1usize << i) - 1) as usize)),
{
}

/// An element that a sequence lacks has no last position in it.
proof fn lemma_last_index_absent(s: Seq<usize>, x: usize)
    requires
        !s.contains(x),
    ensures
        last_index(s, x) is None,
    decreases s.len(),
{
    if s.len() > 0 {
        assert(s.last() == s[s.len() - 1]);
        assert forall|t: int| 0 <= t < s.drop_last().len() implies s.drop_last()[t] != x by {
            assert(s.drop_last()[t] == s[t]);
        }
        lemma_last_index_absent(s.drop_last(), x);
    }
}

/// Freeing block `b` into list `k` while the split of `b` (taken from list `i`) has reached
/// class `k` undoes the split.
proof fn lemma_coalesce_undoes_split(lists: Seq<Seq<usize>>, order: int, b: usize, i: int, k: int)
    requires
        lists.len() == order,
        order <= usize::BITS,
        0 <= k <= i < order,
        lists[i].len() > 0,
        lists[i].last() == b,
        block_ok(b, i as usize),
        i + 1 < order ==> !lists[i].drop_last().contains(b ^ class_size(i as usize)),
    ensures
        coalesce(split_partial(lists, b, i, k), b, k, order) == lists,
    decreases i - k,
{
    let t = split_partial(lists, b, i, k);
    if k < i {
        lemma_buddy_of_aligned(b, k as usize, i as usize);
        let buddy = b ^ class_size(k as usize);
        let s = lists[k].push(buddy);
        assert(t[k] == s.push(b));
        assert(s.push(b).drop_last() =~= s);
        assert(last_index(s, buddy) == Some(lists[k].len() as int));
        assert(last_index(t[k], buddy) == Some(lists[k].len() as int));
        assert(s.push(b).remove(lists[k].len() as int).drop_last() =~= lists[k]);
        let next = t.update(k, t[k].remove(lists[k].len() as int).drop_last()).update(
            k + 1,
            t[k + 1].push(b),
        );
        assert forall|j: int| 0 <= j < order implies #[trigger] next[j] =~= split_partial(
            lists,
            b,
            i,
            k + 1,
        )[j] by {
            if j == i && k + 1 == i {
                assert(lists[i].drop_last().push(b) =~= lists[i]);
            }
        }
        assert(next =~= split_partial(lists, b, i, k + 1));
        lemma_coalesce_undoes_split(lists, order, b, i, k + 1);
    } else {
        assert(t =~= lists) by {
            assert forall|j: int| 0 <= j < order implies #[trigger] t[j] == lists[j] by {}
        }
        if i + 1 < order {
            lemma_last_not_buddy(b, i as usize);
            lemma_last_index_absent(lists[i].drop_last(), b ^ class_size(i as usize));
            assert(lists[i].drop_last() =~= lists[i].drop_last());
        }
    }
}

/// Taking a block with `allocate` and giving it straight back with `dealloc` (same request)
/// leaves the free lists as they were, provided the block taken (the last of list `i`) is
/// not free beside its buddy in that list, as in a heap that has merged all it could.
pub proof fn lemma_allocate_then_dealloc_restores(
    lists: Seq<Seq<usize>>,
    order: int,
    c: usize,
    i: int,
)
    requires
        lists.len() == order,
        order <= usize::BITS,
        c <= i < order,
        lists[i].len() > 0,
        block_ok(lists[i].last(), i as usize),
        i + 1 < order ==> !lists[i].drop_last().contains(lists[i].last() ^ class_size(i as usize)),
    ensures
        coalesce(
            split_lists(lists, lists[i].last(), c as int, i).update(
                c as int,
                split_lists(lists, lists[i].last(), c as int, i)[c as int].push(lists[i].last()),
            ),
            lists[i].last(),
            c as int,
            order,
        ) == lists,
{
    let b = lists[i].last();
    let sl = split_lists(lists, b, c as int, i);
    let pushed = sl.update(c as int, sl[c as int].push(b));
    assert forall|j: int| 0 <= j < order implies #[trigger] pushed[j] =~= split_partial(
        lists,
        b,
        i,
        c as int,
    )[j] by {
        if j == i && c as int == i {
            assert(lists[i].drop_last().push(b) =~= lists[i]);
        }
    }
    assert(pushed =~= split_partial(lists, b, i, c as int));
    lemma_coalesce_undoes_split(lists, order, b, i, c as int);
}

/// Whether the block at `a` of class `ka` and the block at `b` of class `kb` share no byte.
pub open spec fn apart(a: usize, ka: usize, b: usize, kb: usize) -> bool {
    a + class_size(ka) <= b || b + class_size(kb) <= a
}

/// Whether no two entries of the free lists share a byte.
pub open spec fn lists_disjoint(lists: Seq<Seq<usize>>) -> bool {
    forall|k1: int, t1: int, k2: int, t2: int|
        0 <= k1 < lists.len() && 0 <= t1 < lists[k1].len() && 0 <= k2 < lists.len() && 0 <= t2
            < lists[k2].len() && (k1 != k2 || t1 != t2) ==> apart(
            #[trigger] lists[k1][t1],
            k1 as usize,
            #[trigger] lists[k2][t2],
            k2 as usize,
        )
}

/// Whether the block at `x` of class `kx` shares no byte with any free block.
pub open spec fn apart_from_all(lists: Seq<Seq<usize>>, x: usize, kx: usize) -> bool {
    forall|k: int, t: int|
        0 <= k < lists.len() && 0 <= t < lists[k].len() ==> apart(
            x,
            kx,
            #[trigger] lists[k][t],
            k as usize,
        )
}

proof fn lemma_class_double(k: usize)
    by (bit_vector)
    requires
        k + 1 < usize::BITS,
    ensures
        (1usize << (k + 1) as usize) as int == (1usize << k) as int * 2,
        (1usize << k) > 0,
{
}

/// Block sizes double from class to class.
proof fn lemma_class_sizes(k: usize, j: usize)
    requires
        k < j < usize::BITS,
    ensures
        class_size(k) as int * 2 <= class_size(j) as int,
        class_size(k) > 0,
{
    lemma_class_double(k);
    lemma_class_monotone((k + 1) as usize, j);
}

/// Taking one entry out of a free list keeps the lists disjoint.
proof fn lemma_remove_disjoint(lists: Seq<Seq<usize>>, c: int, j: int)
    requires
        lists_disjoint(lists),
        0 <= c < lists.len(),
        0 <= j < lists[c].len(),
    ensures
        lists_disjoint(lists.update(c, lists[c].remove(j))),
{
    let l2 = lists.update(c, lists[c].remove(j));
    assert forall|k1: int, t1: int, k2: int, t2: int|
        0 <= k1 < l2.len() && 0 <= t1 < l2[k1].len() && 0 <= k2 < l2.len() && 0 <= t2
            < l2[k2].len() && (k1 != k2 || t1 != t2) implies apart(
        #[trigger] l2[k1][t1],
        k1 as usize,
        #[trigger] l2[k2][t2],
        k2 as usize,
    ) by {
        let o1 = if k1 == c && t1 >= j {
            t1 + 1
        } else {
            t1
        };
        let o2 = if k2 == c && t2 >= j {
            t2 + 1
        } else {
            t2
        };
        assert(l2[k1][t1] == lists[k1][o1]);
        assert(l2[k2][t2] == lists[k2][o2]);
    }
}

/// Adding a block that shares no byte with any free block keeps the lists disjoint.
proof fn lemma_push_disjoint(lists: Seq<Seq<usize>>, c: int, x: usize)
    requires
        lists_disjoint(lists),
        0 <= c < lists.len(),
        apart_from_all(lists, x, c as usize),
    ensures
        lists_disjoint(lists.update(c, lists[c].push(x))),
{
    let l2 = lists.update(c, lists[c].push(x));
    assert forall|k1: int, t1: int, k2: int, t2: int|
        0 <= k1 < l2.len() && 0 <= t1 < l2[k1].len() && 0 <= k2 < l2.len() && 0 <= t2
            < l2[k2].len() && (k1 != k2 || t1 != t2) implies apart(
        #[trigger] l2[k1][t1],
        k1 as usize,
        #[trigger] l2[k2][t2],
        k2 as usize,
    ) by {
        let new1 = k1 == c && t1 == lists[c].len();
        let new2 = k2 == c && t2 == lists[c].len();
        if !new1 {
            assert(l2[k1][t1] == lists[k1][t1]);
        }
        if !new2 {
            assert(l2[k2][t2] == lists[k2][t2]);
        }
        if new1 && !new2 {
            assert(apart(x, c as usize, lists[k2][t2], k2 as usize));
        }
        if new2 && !new1 {
            assert(apart(x, c as usize, lists[k1][t1], k1 as usize));
        }
    }
}

/// The upper half `b + 2^k` of a split lies inside the block at `b` of class `i`, after
/// the block at `b` of class `c`.
proof fn lemma_half_inside(b: usize, c: usize, k: usize, i: usize)
    requires
        c <= k < i < usize::BITS,
        block_ok(b, i),
    ensures
        ((b + class_size(k)) as usize) as int == b + class_size(k),
        b + class_size(c) <= b + class_size(k),
        b + class_size(k) + class_size(k) <= b + class_size(i),
        class_size(k) > 0,
{
    lemma_split_block(b, k, i);
    lemma_class_sizes(k, i);
    if c < k {
        lemma_class_sizes(c, k);
    }
}

/// A block that shares no byte with either of two adjacent buddies shares none with the
/// block they merge into.
proof fn lemma_apart_union(y: usize, ky: usize, cur: usize, buddy: usize, c: usize)
    requires
        apart(cur, c, y, ky),
        apart(buddy, c, y, ky),
        buddy == cur + class_size(c) || cur == buddy + class_size(c),
        c + 1 < usize::BITS,
        ky < usize::BITS,
    ensures
        apart(
            if cur < buddy {
                cur
            } else {
                buddy
            },
            (c + 1) as usize,
            y,
            ky,
        ),
{
    lemma_class_double(c);
    lemma_one_shift(ky);
}

/// Merging the last block of list `c` with its buddy at position `idx` keeps the lists
/// disjoint.
proof fn lemma_merge_disjoint(before: Seq<Seq<usize>>, c: int, idx: int, merged: usize)
    requires
        lists_disjoint(before),
        0 <= c,
        c + 1 < before.len(),
        before.len() <= usize::BITS,
        0 <= idx < before[c].len() - 1,
        ({
            let cur = before[c].last();
            let buddy = before[c][idx];
            &&& buddy == cur + class_size(c as usize) || cur == buddy + class_size(c as usize)
            &&& merged == if cur < buddy {
                cur
            } else {
                buddy
            }
        }),
    ensures
        lists_disjoint(
            before.update(c, before[c].remove(idx).drop_last()).update(
                c + 1,
                before[c + 1].push(merged),
            ),
        ),
{
    let last = before[c].len() - 1;
    let l2 = before.update(c, before[c].remove(idx).drop_last());
    assert forall|k1: int, t1: int, k2: int, t2: int|
        0 <= k1 < l2.len() && 0 <= t1 < l2[k1].len() && 0 <= k2 < l2.len() && 0 <= t2
            < l2[k2].len() && (k1 != k2 || t1 != t2) implies apart(
        #[trigger] l2[k1][t1],
        k1 as usize,
        #[trigger] l2[k2][t2],
        k2 as usize,
    ) by {
        let o1 = if k1 == c && t1 >= idx {
            t1 + 1
        } else {
            t1
        };
        let o2 = if k2 == c && t2 >= idx {
            t2 + 1
        } else {
            t2
        };
        assert(l2[k1][t1] == before[k1][o1]);
        assert(l2[k2][t2] == before[k2][o2]);
    }
    assert forall|k: int, t: int|
        0 <= k < l2.len() && 0 <= t < l2[k].len() implies apart(
        merged,
        (c + 1) as usize,
        #[trigger] l2[k][t],
        k as usize,
    ) by {
        let o = if k == c && t >= idx {
            t + 1
        } else {
            t
        };
        assert(l2[k][t] == before[k][o]);
        assert(apart(before[c][last], c as usize, before[k][o], k as usize));
        assert(apart(before[c][idx], c as usize, before[k][o], k as usize));
        lemma_apart_union(before[k][o], k as usize, before[c][last], before[c][idx], c as usize);
    }
    lemma_push_disjoint(l2, c + 1, merged);
    assert(l2[c + 1] == before[c + 1]);
}

/// The split of `b` (the last of list `i`) down to class `c` keeps the lists disjoint, and
/// the class-`c` block at `b` shares no byte with what stays free.
proof fn lemma_split_disjoint(lists: Seq<Seq<usize>>, b: usize, c: usize, i: int)
    requires
        lists_disjoint(lists),
        0 <= c <= i < lists.len(),
        lists.len() <= usize::BITS,
        lists[i].len() > 0,
        lists[i].last() == b,
        block_ok(b, i as usize),
    ensures
        lists_disjoint(split_lists(lists, b, c as int, i)),
        apart_from_all(split_lists(lists, b, c as int, i), b, c),
{
    let sl = split_lists(lists, b, c as int, i);
    let last = lists[i].len() - 1;
    assert(lists[i][last] == b);
    assert forall|k1: int, t1: int, k2: int, t2: int|
        0 <= k1 < sl.len() && 0 <= t1 < sl[k1].len() && 0 <= k2 < sl.len() && 0 <= t2
            < sl[k2].len() && (k1 != k2 || t1 != t2) implies apart(
        #[trigger] sl[k1][t1],
        k1 as usize,
        #[trigger] sl[k2][t2],
        k2 as usize,
    ) by {
        let new1 = c <= k1 < i && t1 == lists[k1].len();
        let new2 = c <= k2 < i && t2 == lists[k2].len();
        if new1 {
            assert(sl[k1][t1] == (b + class_size(k1 as usize)) as usize);
            lemma_half_inside(b, c, k1 as usize, i as usize);
        } else {
            assert(sl[k1][t1] == lists[k1][t1]);
            if k1 == i {
                assert(t1 < last);
            }
        }
        if new2 {
            assert(sl[k2][t2] == (b + class_size(k2 as usize)) as usize);
            lemma_half_inside(b, c, k2 as usize, i as usize);
        } else {
            assert(sl[k2][t2] == lists[k2][t2]);
            if k2 == i {
                assert(t2 < last);
            }
        }
        if new1 && new2 {
            if k1 < k2 {
                lemma_class_sizes(k1 as usize, k2 as usize);
            } else {
                lemma_class_sizes(k2 as usize, k1 as usize);
            }
            assert(apart(sl[k1][t1], k1 as usize, sl[k2][t2], k2 as usize));
        } else if new1 {
            assert(apart(lists[k2][t2], k2 as usize, lists[i][last], i as usize));
            let x = sl[k1][t1];
            let y = sl[k2][t2];
            assert(x as int == b + class_size(k1 as usize));
            assert(y + class_size(k2 as usize) <= b || b + class_size(i as usize) <= y);
            assert(x + class_size(k1 as usize) <= b + class_size(i as usize));
            assert(apart(sl[k1][t1], k1 as usize, sl[k2][t2], k2 as usize));
        } else if new2 {
            assert(apart(lists[k1][t1], k1 as usize, lists[i][last], i as usize));
            assert(apart(sl[k1][t1], k1 as usize, sl[k2][t2], k2 as usize));
        } else {
            assert(apart(lists[k1][t1], k1 as usize, lists[k2][t2], k2 as usize));
        }
    }
    assert forall|k: int, t: int|
        0 <= k < sl.len() && 0 <= t < sl[k].len() implies apart(
        b,
        c,
        #[trigger] sl[k][t],
        k as usize,
    ) by {
        if c <= k < i && t == lists[k].len() {
            assert(sl[k][t] == (b + class_size(k as usize)) as usize);
            lemma_half_inside(b, c, k as usize, i as usize);
        } else {
            assert(sl[k][t] == lists[k][t]);
            if k == i {
                assert(t < last);
            }
            assert(apart(lists[k][t], k as usize, lists[i][last], i as usize));
            if c < i {
                lemma_class_sizes(c, i as usize);
            }
        }
    }
}

/// A buddy-system allocator over free lists of power-of-two blocks, list `k` holding the
/// free blocks of `2^k` bytes, the most recently freed last.
pub struct Heap<const ORDER: usize> {
    free_list: Vec<Vec<usize>>,
    user: usize,
    allocated: usize,
    total: usize,
}

impl<const ORDER: usize> Heap<ORDER> {
    /// The free lists.
    pub closed spec fn spec_lists(&self) -> Seq<Seq<usize>> {
        self.free_list@.map_values(|l: Vec<usize>| l@)
    }

    /// Bytes requested by the live allocations.
    pub closed spec fn spec_user(&self) -> usize {
        self.user
    }

    /// Bytes of the blocks given to the live allocations.
    pub closed spec fn spec_allocated(&self) -> usize {
        self.allocated
    }

    /// Bytes ever added to the arena.
    pub closed spec fn spec_total(&self) -> usize {
        self.total
    }

    pub open spec fn wf(&self) -> bool {
        &&& self.spec_lists().len() == ORDER
        &&& ORDER <= usize::BITS
        &&& forall|k: int, t: int|
            0 <= k < ORDER && 0 <= t < self.spec_lists()[k].len() ==> block_ok(
                #[trigger] self.spec_lists()[k][t],
                k as usize,
            )
        &&& lists_disjoint(self.spec_lists())
    }

    /// A heap with no memory.
    pub fn new() -> (r: Self)
        requires
            ORDER <= usize::BITS,
        ensures
            r.wf(),
            r.spec_lists() == Seq::new(ORDER as nat, |k: int| Seq::<usize>::empty()),
            r.spec_user() == 0,
            r.spec_allocated() == 0,
            r.spec_total() == 0,
    {
        let mut free_list: Vec<Vec<usize>> = Vec::new();
        let mut k: usize = 0;
        while k < ORDER
            invariant
                k <= ORDER,
                free_list@.len() == k,
                forall|j: int| 0 <= j < k ==> (#[trigger] free_list@[j])@.len() == 0,
            decreases ORDER - k,
        {
            free_list.push(Vec::new());
            k = k + 1;
        }
        let r = Heap { free_list, user: 0, allocated: 0, total: 0 };
        proof {
            assert forall|j: int| 0 <= j < ORDER implies #[trigger] r.spec_lists()[j] =~= Seq::<
                usize,
            >::empty() by {}
            assert(r.spec_lists() =~= Seq::new(ORDER as nat, |k: int| Seq::<usize>::empty()));
        }
        r
    }

    /// A heap with no memory.
    pub fn empty() -> (r: Self)
        requires
            ORDER <= usize::BITS,
        ensures
            r.wf(),
            r.spec_lists() == Seq::new(ORDER as nat, |k: int| Seq::<usize>::empty()),
            r.spec_user() == 0,
            r.spec_allocated() == 0,
            r.spec_total() == 0,
    {
        Self::new()
    }

    pub fn stats_alloc_user(&self) -> (r: usize)
        ensures
            r == self.spec_user(),
    {
        self.user
    }

    pub fn stats_alloc_actual(&self) -> (r: usize)
        ensures
            r == self.spec_allocated(),
    {
        self.allocated
    }

    pub fn stats_total_bytes(&self) -> (r: usize)
        ensures
            r == self.spec_total(),
    {
        self.total
    }

    fn push_block(&mut self, k: usize, b: usize)
        requires
            k < old(self).spec_lists().len(),
        ensures
            final(self).spec_lists() == old(self).spec_lists().update(
                k as int,
                old(self).spec_lists()[k as int].push(b),
            ),
            final(self).spec_user() == old(self).spec_user(),
            final(self).spec_allocated() == old(self).spec_allocated(),
            final(self).spec_total() == old(self).spec_total(),
    {
        self.free_list[k].push(b);
        proof {
            assert(self.spec_lists() =~= old(self).spec_lists().update(
                k as int,
                old(self).spec_lists()[k as int].push(b),
            ));
        }
    }

    fn pop_block(&mut self, k: usize) -> (r: Option<usize>)
        requires
            k < old(self).spec_lists().len(),
        ensures
            r == if old(self).spec_lists()[k as int].len() > 0 {
                Some(old(self).spec_lists()[k as int].last())
            } else {
                None::<usize>
            },
            final(self).spec_lists() == if old(self).spec_lists()[k as int].len() > 0 {
                old(self).spec_lists().update(k as int, old(self).spec_lists()[k as int].drop_last())
            } else {
                old(self).spec_lists()
            },
            final(self).spec_user() == old(self).spec_user(),
            final(self).spec_allocated() == old(self).spec_allocated(),
            final(self).spec_total() == old(self).spec_total(),
    {
        let r = self.free_list[k].pop();
        proof {
            if old(self).spec_lists()[k as int].len() > 0 {
                assert(self.spec_lists() =~= old(self).spec_lists().update(
                    k as int,
                    old(self).spec_lists()[k as int].drop_last(),
                ));
            } else {
                assert(self.spec_lists() =~= old(self).spec_lists());
            }
        }
        r
    }

    /// Takes a block for `size` bytes aligned to `align` and returns its address: the last
    /// free block of the least class, not below the request's class `c`, whose list is not
    /// empty, split in halves down to class `c` (each upper half going to the free list of
    /// its class). Fails, changing nothing, when no such list exists.
    pub fn allocate(&mut self, size: usize, align: usize) -> (r: Result<usize, ()>)
        requires
            old(self).wf(),
            size <= (1usize << (usize::BITS - 1) as usize),
            align <= (1usize << (usize::BITS - 1) as usize),
            old(self).spec_user() + size <= usize::MAX,
            forall|c: usize|
                #[trigger] is_class(c, size, align) ==> old(self).spec_allocated() + class_size(c)
                    <= usize::MAX,
        ensures
            final(self).wf(),
            final(self).spec_total() == old(self).spec_total(),
            forall|c: usize|
                #[trigger] is_class(c, size, align) ==> match first_free(
                    old(self).spec_lists(),
                    c as int,
                    ORDER as int,
                ) {
                    None => r is Err && *final(self) == *old(self),
                    Some(i) => {
                        &&& r == Ok::<usize, ()>(old(self).spec_lists()[i].last())
                        &&& final(self).spec_lists() == split_lists(
                            old(self).spec_lists(),
                            old(self).spec_lists()[i].last(),
                            c as int,
                            i,
                        )
                        &&& apart_from_all(final(self).spec_lists(), old(self).spec_lists()[i].last(), c)
                        &&& final(self).spec_user() == old(self).spec_user() + size
                        &&& final(self).spec_allocated() == old(self).spec_allocated()
                            + class_size(c)
                    },
                },
    {
        let ghost lists = self.spec_lists();
        let (class, bytes) = size_class(size, align);
        proof {
            lemma_class_unique(class, size, align);
        }
        let mut i = class;
        while i < self.free_list.len()
            invariant
                self.wf(),
                self.spec_lists() == lists,
                *self == *old(self),
                class <= i,
                is_class(class, size, align),
                forall|d: usize| #[trigger] is_class(d, size, align) ==> d == class,
                bytes == class_size(class),
                old(self).spec_user() + size <= usize::MAX,
                old(self).spec_allocated() + bytes <= usize::MAX,
                first_free(lists, class as int, ORDER as int) == first_free(
                    lists,
                    i as int,
                    ORDER as int,
                ),
            decreases ORDER - i,
        {
            if self.free_list[i].len() > 0 {
                let ghost b = lists[i as int].last();
                proof {
                    assert(first_free(lists, i as int, ORDER as int) == Some(i as int));
                    assert(block_ok(lists[i as int][lists[i as int].len() - 1], i));
                    assert(split_partial(lists, b, i as int, i as int) =~= lists) by {
                        assert(lists[i as int].drop_last().push(b) =~= lists[i as int]);
                    }
                }
                let mut j = i;
                while j > class
                    invariant
                        class <= j <= i < ORDER,
                        ORDER <= usize::BITS,
                        block_ok(b, i),
                        lists_disjoint(lists),
                        self.spec_lists() == split_partial(lists, b, i as int, j as int),
                        lists.len() == ORDER,
                        lists[i as int].len() > 0,
                        b == lists[i as int].last(),
                        old(self).spec_user() + size <= usize::MAX,
                        old(self).spec_allocated() + bytes <= usize::MAX,
                        self.spec_user() == old(self).spec_user(),
                        self.spec_allocated() == old(self).spec_allocated(),
                        self.spec_total() == old(self).spec_total(),
                    decreases j,
                {
                    proof {
                        let sp = split_partial(lists, b, i as int, j as int);
                        if j < i {
                            assert(sp[j as int] == lists[j as int].push(
                                (b + class_size(j as usize)) as usize,
                            ).push(b));
                        } else {
                            assert(sp[j as int] == lists[j as int]);
                        }
                        assert(sp[j as int].len() > 0);
                        assert(sp[j as int].last() == b);
                    }
                    let ghost before = self.spec_lists();
                    let block = match self.pop_block(j) {
                        Some(x) => x,
                        None => {
                            return Err(());
                        },
                    };
                    proof {
                        assert(block == b);
                        lemma_split_block(b, (j - 1) as usize, i);
                        lemma_one_shift((j - 1) as usize);
                    }
                    let half = block + (1usize << (j - 1));
                    self.push_block(j - 1, half);
                    self.push_block(j - 1, block);
                    proof {
                        let sp = split_partial(lists, b, i as int, (j - 1) as int);
                        assert forall|k: int| 0 <= k < ORDER implies #[trigger] self.spec_lists()[k]
                            =~= sp[k] by {
                            if k == j && j < i {
                                assert(lists[k].push((b + class_size(k as usize)) as usize).push(
                                    b,
                                ).drop_last() =~= lists[k].push(
                                    (b + class_size(k as usize)) as usize,
                                ));
                            }
                        }
                        assert(self.spec_lists() =~= sp);
                    }
                    j = j - 1;
                }
                proof {
                    let sp = split_partial(lists, b, i as int, class as int);
                    if class < i {
                        assert(sp[class as int] == lists[class as int].push(
                            (b + class_size(class)) as usize,
                        ).push(b));
                    }
                    assert(sp[class as int].len() > 0);
                    assert(sp[class as int].last() == b);
                }
                let result = match self.pop_block(class) {
                    Some(x) => x,
                    None => {
                        return Err(());
                    },
                };
                proof {
                    let sl = split_lists(lists, b, class as int, i as int);
                    assert forall|k: int| 0 <= k < ORDER implies #[trigger] self.spec_lists()[k]
                        =~= sl[k] by {
                        if k == class && class < i {
                            assert(lists[k].push((b + class_size(k as usize)) as usize).push(
                                b,
                            ).drop_last() =~= lists[k].push((b + class_size(k as usize)) as usize));
                        }
                    }
                    assert(self.spec_lists() =~= sl);
                    lemma_split_disjoint(lists, b, class, i as int);
                    assert forall|k: int, t: int|
                        0 <= k < ORDER && 0 <= t < self.spec_lists()[k].len() implies block_ok(
                        #[trigger] self.spec_lists()[k][t],
                        k as usize,
                    ) by {
                        if class <= k < i && t == lists[k].len() {
                            lemma_split_block(b, k as usize, i);
                        } else if k == i {
                            assert(self.spec_lists()[k][t] == lists[k][t]);
                        } else {
                            assert(self.spec_lists()[k][t] == lists[k][t]);
                        }
                    }
                }
                if result == 0 {
                    return Err(());
                }
                self.user = self.user + size;
                self.allocated = self.allocated + bytes;
                proof {
                    assert forall|c: usize| #[trigger] is_class(c, size, align) implies first_free(
                        lists,
                        c as int,
                        ORDER as int,
                    ) == Some(i as int) && c == class by {}
                }
                return Ok(result);
            }
            i = i + 1;
        }
        Err(())
    }

    fn remove_block(&mut self, k: usize, idx: usize)
        requires
            k < old(self).spec_lists().len(),
            idx < old(self).spec_lists()[k as int].len(),
        ensures
            final(self).spec_lists() == old(self).spec_lists().update(
                k as int,
                old(self).spec_lists()[k as int].remove(idx as int),
            ),
            final(self).spec_user() == old(self).spec_user(),
            final(self).spec_allocated() == old(self).spec_allocated(),
            final(self).spec_total() == old(self).spec_total(),
    {
        self.free_list[k].remove(idx);
        proof {
            assert(self.spec_lists() =~= old(self).spec_lists().update(
                k as int,
                old(self).spec_lists()[k as int].remove(idx as int),
            ));
        }
    }

    /// The last position of `x` in free list `k`.
    fn find_last(&self, k: usize, x: usize) -> (r: Option<usize>)
        requires
            k < self.spec_lists().len(),
        ensures
            r matches Some(i) ==> last_index(self.spec_lists()[k as int], x) == Some(i as int),
            r is None ==> last_index(self.spec_lists()[k as int], x) is None,
    {
        let ghost l = self.spec_lists()[k as int];
        let list = &self.free_list[k];
        let mut t = list.len();
        proof {
            assert(l == self.free_list@[k as int]@);
            assert(l.subrange(0, t as int) =~= l);
        }
        while t > 0
            invariant
                list@ == l,
                l == self.spec_lists()[k as int],
                t <= l.len(),
                last_index(l, x) == last_index(l.subrange(0, t as int), x),
            decreases t,
        {
            proof {
                assert(l.subrange(0, t as int).drop_last() =~= l.subrange(0, t - 1));
            }
            if list[t - 1] == x {
                proof {
                    assert(l.subrange(0, t as int).last() == l[t - 1]);
                }
                return Some(t - 1);
            }
            t = t - 1;
        }
        None
    }

    /// Gives back the block at `ptr` that was handed out for `size` bytes aligned to `align`:
    /// it joins the free list of its class, then, while its buddy (the block whose address
    /// differs from it in the class's size bit) is free in the same list, the two merge into
    /// one block of the next class.
    pub fn dealloc(&mut self, ptr: usize, size: usize, align: usize)
        requires
            old(self).wf(),
            size <= (1usize << (usize::BITS - 1) as usize),
            align <= (1usize << (usize::BITS - 1) as usize),
            size <= old(self).spec_user(),
            forall|c: usize|
                #[trigger] is_class(c, size, align) ==> c < ORDER && block_ok(ptr, c) && class_size(
                    c,
                ) <= old(self).spec_allocated() && apart_from_all(old(self).spec_lists(), ptr, c),
        ensures
            final(self).wf(),
            final(self).spec_total() == old(self).spec_total(),
            final(self).spec_user() == old(self).spec_user() - size,
            forall|c: usize|
                #[trigger] is_class(c, size, align) ==> {
                    &&& final(self).spec_lists() == coalesce(
                        old(self).spec_lists().update(
                            c as int,
                            old(self).spec_lists()[c as int].push(ptr),
                        ),
                        ptr,
                        c as int,
                        ORDER as int,
                    )
                    &&& final(self).spec_allocated() == old(self).spec_allocated() - class_size(c)
                },
    {
        let (class, bytes) = size_class(size, align);
        proof {
            lemma_class_unique(class, size, align);
        }
        let ghost start = old(self).spec_lists().update(
            class as int,
            old(self).spec_lists()[class as int].push(ptr),
        );
        let ghost target = coalesce(start, ptr, class as int, ORDER as int);
        self.push_block(class, ptr);
        proof {
            lemma_push_disjoint(old(self).spec_lists(), class as int, ptr);
            assert forall|k: int, t: int|
                0 <= k < ORDER && 0 <= t < self.spec_lists()[k].len() implies block_ok(
                #[trigger] self.spec_lists()[k][t],
                k as usize,
            ) by {
                if k != class || t < old(self).spec_lists()[k].len() {
                    assert(self.spec_lists()[k][t] == old(self).spec_lists()[k][t]);
                }
            }
        }
        let mut current_ptr = ptr;
        let mut current_class = class;
        let mut done = false;
        while !done && current_class + 1 < self.free_list.len()
            invariant
                done ==> coalesce(self.spec_lists(), current_ptr, current_class as int, ORDER as int)
                    == self.spec_lists(),
                self.wf(),
                current_class < ORDER,
                block_ok(current_ptr, current_class),
                self.spec_lists()[current_class as int].len() > 0,
                self.spec_lists()[current_class as int].last() == current_ptr,
                coalesce(self.spec_lists(), current_ptr, current_class as int, ORDER as int)
                    == target,
                self.spec_user() == old(self).spec_user(),
                self.spec_allocated() == old(self).spec_allocated(),
                self.spec_total() == old(self).spec_total(),
            decreases ORDER - current_class + (if done {
                0int
            } else {
                1int
            }),
        {
            let buddy = current_ptr ^ (1usize << current_class);
            let ghost before = self.spec_lists();
            let ghost current_ptr_before = current_ptr;
            match self.find_last(current_class, buddy) {
                Some(idx) => {
                    proof {
                        lemma_last_index(before[current_class as int], buddy);
                        assert(last_index(before[current_class as int], buddy) == Some(idx as int));
                        assert(before[current_class as int][idx as int] == buddy);
                        assert(block_ok(before[current_class as int][idx as int], current_class));
                        lemma_merge_block(current_ptr, current_class);
                        lemma_last_not_buddy(current_ptr, current_class);
                        assert(idx != before[current_class as int].len() - 1);
                    }
                    self.remove_block(current_class, idx);
                    let ghost removed = self.spec_lists();
                    proof {
                        assert(removed[current_class as int].len() > 0);
                    }
                    let _ = self.pop_block(current_class);
                    let merged = if current_ptr < buddy {
                        current_ptr
                    } else {
                        buddy
                    };
                    current_class = current_class + 1;
                    current_ptr = merged;
                    self.push_block(current_class, merged);
                    proof {
                        let c0 = (current_class - 1) as int;
                        lemma_merge_disjoint(before, c0, idx as int, merged);
                        assert(buddy == current_ptr_before ^ class_size(c0 as usize));
                        assert(coalesce(before, current_ptr_before, c0, ORDER as int) == coalesce(
                            before.update(c0, before[c0].remove(idx as int).drop_last()).update(
                                c0 + 1,
                                before[c0 + 1].push(merged),
                            ),
                            merged,
                            c0 + 1,
                            ORDER as int,
                        ));
                        assert(self.spec_lists() =~= before.update(
                            c0,
                            before[c0].remove(idx as int).drop_last(),
                        ).update(c0 + 1, before[c0 + 1].push(merged)));
                        assert forall|k: int, t: int|
                            0 <= k < ORDER && 0 <= t < self.spec_lists()[k].len() implies block_ok(
                            #[trigger] self.spec_lists()[k][t],
                            k as usize,
                        ) by {
                            if k == c0 {
                                assert(before[c0].remove(idx as int).drop_last()[t] == before[c0].remove(
                                    idx as int,
                                )[t]);
                                if t < idx {
                                    assert(before[c0].remove(idx as int)[t] == before[c0][t]);
                                } else {
                                    assert(before[c0].remove(idx as int)[t] == before[c0][t + 1]);
                                }
                            } else if k == c0 + 1 && t < before[k].len() {
                                assert(self.spec_lists()[k][t] == before[k][t]);
                            } else if k != c0 + 1 {
                                assert(self.spec_lists()[k][t] == before[k][t]);
                            }
                        }
                    }
                },
                None => {
                    done = true;
                },
            }
        }
        proof {
            assert(self.spec_lists() == target);
            assert forall|c: usize| #[trigger] is_class(c, size, align) implies c == class by {}
        }
        self.user = self.user - size;
        self.allocated = self.allocated - bytes;
    }

    /// Adds the arena `start..end`, its ends rounded inward to multiples of 8, split greedily
    /// into blocks (see `greedy_blocks`), each pushed onto the free list of its class.
    pub fn add_to_heap(&mut self, start: usize, end: usize)
        requires
            old(self).wf(),
            0 < start <= usize::MAX - 7,
            round_up8(start) <= round_down8(end),
            forall|t: int|
                0 <= t < greedy_blocks(round_up8(start), round_down8(end)).len() ==> (
                #[trigger] greedy_blocks(round_up8(start), round_down8(end))[t]).1 < ORDER,
            old(self).spec_total() + (round_down8(end) - round_up8(start)) <= usize::MAX,
            forall|k: int, t: int|
                0 <= k < old(self).spec_lists().len() && 0 <= t < old(self).spec_lists()[k].len() ==> #[trigger] old(self).spec_lists()[k][t] + class_size(
                    k as usize,
                ) <= round_up8(start) || round_down8(end) <= old(self).spec_lists()[k][t],
        ensures
            final(self).wf(),
            final(self).spec_lists() == push_blocks(
                old(self).spec_lists(),
                greedy_blocks(round_up8(start), round_down8(end)),
            ),
            final(self).spec_total() == old(self).spec_total() + blocks_bytes(
                greedy_blocks(round_up8(start), round_down8(end)),
            ),
            final(self).spec_user() == old(self).spec_user(),
            final(self).spec_allocated() == old(self).spec_allocated(),
    {
        proof {
            lemma_round8(start, end);
        }
        let start = (start + 7) & !7usize;
        let end = end & !7usize;
        let ghost all = greedy_blocks(start, end);
        let mut total: usize = 0;
        let mut current_start = start;
        let ghost done_blocks = Seq::<(usize, usize)>::empty();
        proof {
            assert(all =~= done_blocks + greedy_blocks(current_start, end));
        }
        while end - current_start >= 8
            invariant
                self.wf(),
                forall|k: int, t: int|
                    0 <= k < self.spec_lists().len() && 0 <= t < self.spec_lists()[k].len()
                        ==> #[trigger] self.spec_lists()[k][t] + class_size(k as usize)
                        <= current_start || end <= self.spec_lists()[k][t],
                0 < start <= current_start <= end,
                all == greedy_blocks(start, end),
                all == done_blocks + greedy_blocks(current_start, end),
                forall|t: int| 0 <= t < all.len() ==> (#[trigger] all[t]).1 < ORDER,
                self.spec_lists() == push_blocks(old(self).spec_lists(), done_blocks),
                total == blocks_bytes(done_blocks),
                total == current_start - start,
                old(self).spec_total() + (end - start) <= usize::MAX,
                self.spec_total() == old(self).spec_total(),
                self.spec_user() == old(self).spec_user(),
                self.spec_allocated() == old(self).spec_allocated(),
            decreases end - current_start,
        {
            let class = greedy_class_at(current_start, end - current_start);
            let size = 1usize << class;
            proof {
                assert(greedy_blocks(current_start, end) =~= seq![(current_start, class)]
                    + greedy_blocks((current_start + size) as usize, end));
                assert(all[done_blocks.len() as int] == (current_start, class));
                let next = done_blocks.push((current_start, class));
                assert(next.drop_last() =~= done_blocks);
                assert(all =~= next + greedy_blocks((current_start + size) as usize, end));
            }
            total = total + size;
            let ghost before = self.spec_lists();
            proof {
                assert forall|k: int, t: int|
                    0 <= k < before.len() && 0 <= t < before[k].len() implies apart(
                    current_start,
                    class,
                    #[trigger] before[k][t],
                    k as usize,
                ) by {}
                lemma_push_disjoint(before, class as int, current_start);
            }
            self.push_block(class, current_start);
            proof {
                assert forall|k: int, t: int|
                    0 <= k < self.spec_lists().len() && 0 <= t < self.spec_lists()[k].len()
                        implies #[trigger] self.spec_lists()[k][t] + class_size(k as usize)
                    <= current_start + size || end <= self.spec_lists()[k][t] by {
                    if k != class || t < before[k].len() {
                        assert(self.spec_lists()[k][t] == before[k][t]);
                    }
                }
                let next = done_blocks.push((current_start, class));
                assert(next.drop_last() =~= done_blocks);
                assert forall|k: int, t: int|
                    0 <= k < ORDER && 0 <= t < self.spec_lists()[k].len() implies block_ok(
                    #[trigger] self.spec_lists()[k][t],
                    k as usize,
                ) by {
                    if k != class || t < self.spec_lists()[k].len() - 1 {
                        assert(self.spec_lists()[k][t] == push_blocks(
                            old(self).spec_lists(),
                            done_blocks,
                        )[k][t]);
                    }
                }
                done_blocks = next;
            }
            current_start = current_start + size;
        }
        proof {
            assert(greedy_blocks(current_start, end) =~= Seq::<(usize, usize)>::empty());
            assert(all =~= done_blocks);
        }
        self.total = self.total + total;
    }

    /// Adds the arena of `size` bytes at `start` (see `add_to_heap`).
    pub fn init(&mut self, start: usize, size: usize)
        requires
            old(self).wf(),
            0 < start <= usize::MAX - 7,
            start + size <= usize::MAX,
            round_up8(start) <= round_down8((start + size) as usize),
            forall|t: int|
                0 <= t < greedy_blocks(round_up8(start), round_down8((start + size) as usize)).len()
                    ==> (#[trigger] greedy_blocks(
                    round_up8(start),
                    round_down8((start + size) as usize),
                )[t]).1 < ORDER,
            old(self).spec_total() + (round_down8((start + size) as usize) - round_up8(start))
                <= usize::MAX,
            forall|k: int, t: int|
                0 <= k < old(self).spec_lists().len() && 0 <= t < old(self).spec_lists()[k].len() ==> #[trigger] old(self).spec_lists()[k][t] + class_size(
                    k as usize,
                ) <= round_up8(start) || round_down8((start + size) as usize) <= old(self).spec_lists()[k][t],
        ensures
            final(self).wf(),
            final(self).spec_lists() == push_blocks(
                old(self).spec_lists(),
                greedy_blocks(round_up8(start), round_down8((start + size) as usize)),
            ),
            final(self).spec_total() == old(self).spec_total() + blocks_bytes(
                greedy_blocks(round_up8(start), round_down8((start + size) as usize)),
            ),
            final(self).spec_user() == old(self).spec_user(),
            final(self).spec_allocated() == old(self).spec_allocated(),
    {
        self.add_to_heap(start, start + size);
    }

    /// The free blocks of class `class`, the most recently freed last.
    pub fn free_blocks(&self, class: usize) -> (r: Vec<usize>)
        requires
            class < self.spec_lists().len(),
        ensures
            r@ == self.spec_lists()[class as int],
    {
        let list = &self.free_list[class];
        let mut r: Vec<usize> = Vec::new();
        let mut t: usize = 0;
        while t < list.len()
            invariant
                t <= list@.len(),
                list@ == self.spec_lists()[class as int],
                r@ == list@.subrange(0, t as int),
            decreases list@.len() - t,
        {
            r.push(list[t]);
            t = t + 1;
            proof {
                assert(r@ =~= list@.subrange(0, t as int));
            }
        }
        proof {
            assert(list@.subrange(0, t as int) =~= list@);
        }
        r
    }
}

} // verus!
