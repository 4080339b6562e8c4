//! Circular doubly linked list in the style of the Linux kernel's intrusive
//! lists.
//!
//! Nodes live in a node memory shared by any number of lists (a `Vec` of
//! nodes, addressed by index) and link to each other by index. A list is
//! identified by its head node, a sentinel that carries no data: an empty list
//! is a head whose `prev` and `next` both point to itself.
//!
//! ```text
//!   head <-> a <-> b <-> c <-> (back to head)
//! ```

use vstd::prelude::*;

verus! {

/// A list node: the indices of its predecessor and successor.
#[derive(Clone, Copy, Debug, PartialEq, Eq, Structural)]
pub struct ListNode {
    pub prev: usize,
    pub next: usize,
}

// ---------------------------------------------------------------------------
// The effect of each operation on the node memory
// ---------------------------------------------------------------------------

/// `n` with its successor replaced by `next`.
pub open spec fn with_next(n: ListNode, next: usize) -> ListNode {
    ListNode { prev: n.prev, next }
}

/// `n` with its predecessor replaced by `prev`.
pub open spec fn with_prev(n: ListNode, prev: usize) -> ListNode {
    ListNode { prev, next: n.next }
}

/// A node linked to itself: an empty list head, or a detached node.
pub open spec fn self_linked(i: usize) -> ListNode {
    ListNode { prev: i, next: i }
}

/// Node memory after `list_init(list)`: `list` links to itself.
pub open spec fn init_spec(s: Seq<ListNode>, list: usize) -> Seq<ListNode> {
    s.update(list as int, self_linked(list))
}

/// Node memory after `list_add(head, new)`: `new` is linked between `head`
/// and the node `a` that followed `head`.
pub open spec fn add_spec(s: Seq<ListNode>, head: usize, new: usize) -> Seq<ListNode> {
    let a = s[head as int].next;
    let s1 = s.update(new as int, ListNode { prev: head, next: a });
    let s2 = s1.update(a as int, with_prev(s1[a as int], new));
    s2.update(head as int, with_next(s2[head as int], new))
}

/// Node memory after `list_add_tail(head, new)`: `new` is linked between the
/// node `z` that preceded `head` and `head`.
pub open spec fn add_tail_spec(s: Seq<ListNode>, head: usize, new: usize) -> Seq<ListNode> {
    let z = s[head as int].prev;
    let s1 = s.update(new as int, ListNode { prev: z, next: head });
    let s2 = s1.update(z as int, with_next(s1[z as int], new));
    s2.update(head as int, with_prev(s2[head as int], new))
}

/// Node memory after `list_del(entry)`: the neighbours `p` and `n` of `entry`
/// are linked to each other, and `entry` is linked to itself.
pub open spec fn del_spec(s: Seq<ListNode>, entry: usize) -> Seq<ListNode> {
    let p = s[entry as int].prev;
    let n = s[entry as int].next;
    let s1 = s.update(p as int, with_next(s[p as int], n));
    let s2 = s1.update(n as int, with_prev(s1[n as int], p));
    s2.update(entry as int, self_linked(entry))
}

// ---------------------------------------------------------------------------
// The abstract list
// ---------------------------------------------------------------------------

/// The node after position `i` of the list with head `head` and elements
/// `elems`, where position -1 is the head: the next element, or the head
/// after the last one.
pub open spec fn succ(head: usize, elems: Seq<usize>, i: int) -> usize {
    if i + 1 < elems.len() {
        elems[i + 1]
    } else {
        head
    }
}

/// The node before element `i`: the previous element, or the head before
/// the first one.
pub open spec fn pred(head: usize, elems: Seq<usize>, i: int) -> usize {
    if i > 0 {
        elems[i - 1]
    } else {
        head
    }
}

/// In node memory `s`, `head` heads a circular list whose elements are
/// `elems`, in order: distinct nodes other than the head, each linked to its
/// neighbours in both directions, the head following the last element.
pub open spec fn is_ring(s: Seq<ListNode>, head: usize, elems: Seq<usize>) -> bool {
    &&& head < s.len()
    &&& elems.no_duplicates()
    &&& forall|i: int| 0 <= i < elems.len() ==> #[trigger] elems[i] < s.len() && elems[i] != head
    &&& s[head as int].next == succ(head, elems, -1)
    &&& s[head as int].prev == (if elems.len() == 0 { head } else { elems.last() })
    &&& forall|i: int| 0 <= i < elems.len() ==> #[trigger] s[elems[i] as int].next == succ(head, elems, i)
    &&& forall|i: int| 0 <= i < elems.len() ==> #[trigger] s[elems[i] as int].prev == pred(head, elems, i)
}

/// `head` heads a well-formed circular list in `s`.
pub open spec fn list_wf(s: Seq<ListNode>, head: usize) -> bool {
    exists|elems: Seq<usize>| is_ring(s, head, elems)
}

/// The elements of the list headed by `head`, in order (meaningful when
/// `list_wf(s, head)`).
pub open spec fn list_view(s: Seq<ListNode>, head: usize) -> Seq<usize> {
    choose|elems: Seq<usize>| is_ring(s, head, elems)
}

// ---------------------------------------------------------------------------
// Operations
// ---------------------------------------------------------------------------

/// Initialises `list` as an empty list head: its `prev` and `next` point to
/// itself.
pub fn list_init(nodes: &mut Vec<ListNode>, list: usize)
    requires
        list < old(nodes).len(),
    ensures
        final(nodes)@ == init_spec(old(nodes)@, list),
        list_wf(final(nodes)@, list),
        list_view(final(nodes)@, list) == Seq::<usize>::empty(),
{
    nodes[list].prev = list;
    nodes[list].next = list;
    proof {
        lemma_init_ring(old(nodes)@, list);
    }
}

/// Inserts `new` right after `head`, at the front of the list.
pub fn list_add(nodes: &mut Vec<ListNode>, head: usize, new: usize)
    requires
        head < old(nodes).len(),
        new < old(nodes).len(),
        old(nodes)[head as int].next < old(nodes).len(),
    ensures
        final(nodes)@ == add_spec(old(nodes)@, head, new),
        list_wf(old(nodes)@, head) && new != head && !list_view(old(nodes)@, head).contains(new)
            ==> list_wf(final(nodes)@, head)
            && list_view(final(nodes)@, head) == seq![new] + list_view(old(nodes)@, head),
{
    let head_next = nodes[head].next;
    nodes[new].next = head_next;
    nodes[new].prev = head;

    let head_next = nodes[head].next;
    nodes[head_next].prev = new;
    nodes[head].next = new;
    proof {
        assert(nodes@ =~= add_spec(old(nodes)@, head, new));
        if list_wf(old(nodes)@, head) && new != head && !list_view(old(nodes)@, head).contains(new) {
            lemma_add_ring(old(nodes)@, head, list_view(old(nodes)@, head), new);
            lemma_view_is_ring(nodes@, head, seq![new] + list_view(old(nodes)@, head));
        }
    }
}

/// Inserts `new` right before `head`, at the back of the list.
pub fn list_add_tail(nodes: &mut Vec<ListNode>, head: usize, new: usize)
    requires
        head < old(nodes).len(),
        new < old(nodes).len(),
        old(nodes)[head as int].prev < old(nodes).len(),
    ensures
        final(nodes)@ == add_tail_spec(old(nodes)@, head, new),
        list_wf(old(nodes)@, head) && new != head && !list_view(old(nodes)@, head).contains(new)
            ==> list_wf(final(nodes)@, head)
            && list_view(final(nodes)@, head) == list_view(old(nodes)@, head).push(new),
{
    nodes[new].next = head;
    let head_prev = nodes[head].prev;
    nodes[new].prev = head_prev;

    let head_prev = nodes[head].prev;
    nodes[head_prev].next = new;
    nodes[head].prev = new;
    proof {
        assert(nodes@ =~= add_tail_spec(old(nodes)@, head, new));
        if list_wf(old(nodes)@, head) && new != head && !list_view(old(nodes)@, head).contains(new) {
            lemma_add_tail_ring(old(nodes)@, head, list_view(old(nodes)@, head), new);
            lemma_view_is_ring(nodes@, head, list_view(old(nodes)@, head).push(new));
        }
    }
}

/// Unlinks `entry` from the list it is in: its neighbours are linked to each
/// other, and `entry` is linked to itself, marking it as detached.
pub fn list_del(nodes: &mut Vec<ListNode>, entry: usize)
    requires
        entry < old(nodes).len(),
        old(nodes)[entry as int].prev < old(nodes).len(),
        old(nodes)[entry as int].next < old(nodes).len(),
    ensures
        final(nodes)@ == del_spec(old(nodes)@, entry),
        final(nodes)@[entry as int] == self_linked(entry),
        forall|h: usize|
            #[trigger] list_wf(old(nodes)@, h) && list_view(old(nodes)@, h).contains(entry)
                ==> list_wf(final(nodes)@, h)
                && list_view(final(nodes)@, h) == list_view(old(nodes)@, h).remove(
                    list_view(old(nodes)@, h).index_of(entry),
                ),
{
    let entry_prev = nodes[entry].prev;
    let entry_next = nodes[entry].next;
    nodes[entry_prev].next = entry_next;
    let entry_next = nodes[entry].next;
    let entry_prev = nodes[entry].prev;
    nodes[entry_next].prev = entry_prev;

    // Link to itself: marks the node as detached.
    nodes[entry].prev = entry;
    nodes[entry].next = entry;
    proof {
        assert(nodes@ =~= del_spec(old(nodes)@, entry));
        assert forall|h: usize|
            #[trigger] list_wf(old(nodes)@, h) && list_view(old(nodes)@, h).contains(entry) implies list_wf(nodes@, h)
                && list_view(nodes@, h) == list_view(old(nodes)@, h).remove(
                    list_view(old(nodes)@, h).index_of(entry),
                ) by {
            let e = list_view(old(nodes)@, h);
            let k = e.index_of(entry);
            lemma_del_ring(old(nodes)@, h, e, k);
            lemma_view_is_ring(nodes@, h, e.remove(k));
        }
    }
}

/// Whether the list headed by `list` is empty: its head links to itself.
pub fn list_empty(nodes: &Vec<ListNode>, list: usize) -> (r: bool)
    requires
        list < nodes.len(),
    ensures
        r == (nodes@[list as int].next == list),
        list_wf(nodes@, list) ==> (r <==> list_view(nodes@, list).len() == 0),
{
    proof {
        if list_wf(nodes@, list) {
            let e = list_view(nodes@, list);
            if e.len() > 0 {
                assert(e[0] != list);
            }
        }
    }
    nodes[list].next == list
}

/// The first node of the list headed by `head`, or `None` when the list is
/// empty.
pub fn list_first_entry(nodes: &Vec<ListNode>, head: usize) -> (r: Option<usize>)
    requires
        head < nodes.len(),
    ensures
        r == (if nodes@[head as int].next == head { None } else { Some(nodes@[head as int].next) }),
        list_wf(nodes@, head) ==> r == (if list_view(nodes@, head).len() == 0 {
            None
        } else {
            Some(list_view(nodes@, head)[0])
        }),
{
    if list_empty(nodes, head) {
        return None;
    }
    Some(nodes[head].next)
}

/// Calls `callback` on every node of the list headed by `head`, from the
/// first to the last, and returns what the calls returned, in that order.
pub fn list_for_each<R, F: Fn(usize) -> R>(nodes: &Vec<ListNode>, head: usize, callback: F) -> (results: Vec<R>)
    requires
        list_wf(nodes@, head),
        forall|i: int|
            0 <= i < list_view(nodes@, head).len() ==> call_requires(callback, (#[trigger] list_view(nodes@, head)[i],)),
    ensures
        results.len() == list_view(nodes@, head).len(),
        forall|i: int|
            0 <= i < results.len() ==> call_ensures(callback, (list_view(nodes@, head)[i],), #[trigger] results[i]),
{
    let ghost e = list_view(nodes@, head);
    let mut results: Vec<R> = Vec::new();
    let mut pos = nodes[head].next;
    while pos != head
        invariant
            is_ring(nodes@, head, e),
            e == list_view(nodes@, head),
            results.len() <= e.len(),
            pos == succ(head, e, results.len() - 1),
            forall|i: int| 0 <= i < e.len() ==> call_requires(callback, (#[trigger] e[i],)),
            forall|i: int| 0 <= i < results.len() ==> call_ensures(callback, (e[i],), #[trigger] results[i]),
        decreases e.len() - results.len(),
    {
        proof {
            if results.len() == e.len() {
                assert(pos == head);
            }
            assert(pos == e[results.len() as int]);
        }
        let r = callback(pos);
        results.push(r);
        pos = nodes[pos].next;
    }
    proof {
        if results.len() < e.len() {
            assert(e[results.len() as int] != head);
        }
    }
    results
}

/// Number of nodes in the list headed by `head`.
pub fn list_len(nodes: &Vec<ListNode>, head: usize) -> (count: usize)
    requires
        list_wf(nodes@, head),
    ensures
        count == list_view(nodes@, head).len(),
{
    let ghost e = list_view(nodes@, head);
    proof {
        lemma_ring_len_bound(nodes@, head, e);
    }
    let mut count: usize = 0;
    let mut pos = nodes[head].next;
    while pos != head
        invariant
            is_ring(nodes@, head, e),
            e.len() < nodes.len(),
            count <= e.len(),
            pos == succ(head, e, count - 1),
        decreases e.len() - count,
    {
        proof {
            if count == e.len() {
                assert(pos == head);
            }
            assert(pos == e[count as int]);
        }
        count += 1;
        pos = nodes[pos].next;
    }
    proof {
        if count < e.len() {
            assert(e[count as int] != head);
        }
    }
    count
}


// ---------------------------------------------------------------------------
// Lemmas
// ---------------------------------------------------------------------------

/// After `list_init`, the head forms an empty list.
proof fn lemma_init_ring(s: Seq<ListNode>, list: usize)
    requires
        list < s.len(),
    ensures
        is_ring(init_spec(s, list), list, Seq::empty()),
        list_wf(init_spec(s, list), list),
        list_view(init_spec(s, list), list) == Seq::<usize>::empty(),
{
    lemma_view_is_ring(init_spec(s, list), list, Seq::empty());
}

/// Two lists with the same head in the same memory agree up to position `i`.
proof fn lemma_ring_prefix(s: Seq<ListNode>, head: usize, e1: Seq<usize>, e2: Seq<usize>, i: int)
    requires
        is_ring(s, head, e1),
        is_ring(s, head, e2),
        0 <= i < e1.len(),
        i < e2.len(),
    ensures
        e1[i] == e2[i],
    decreases i,
{
    if i > 0 {
        lemma_ring_prefix(s, head, e1, e2, i - 1);
        assert(s[e1[i - 1] as int].next == succ(head, e1, i - 1));
        assert(s[e2[i - 1] as int].next == succ(head, e2, i - 1));
    }
}

/// The elements of a list are determined by the memory and the head.
pub proof fn lemma_ring_unique(s: Seq<ListNode>, head: usize, e1: Seq<usize>, e2: Seq<usize>)
    requires
        is_ring(s, head, e1),
        is_ring(s, head, e2),
    ensures
        e1 == e2,
{
    if e1.len() < e2.len() {
        if e1.len() == 0 {
            assert(e2[0] != head);
        } else {
            let k = e1.len() - 1;
            lemma_ring_prefix(s, head, e1, e2, k);
            assert(s[e1[k] as int].next == succ(head, e1, k));
            assert(s[e2[k] as int].next == succ(head, e2, k));
            assert(e2[k + 1] != head);
        }
    } else if e2.len() < e1.len() {
        if e2.len() == 0 {
            assert(e1[0] != head);
        } else {
            let k = e2.len() - 1;
            lemma_ring_prefix(s, head, e1, e2, k);
            assert(s[e1[k] as int].next == succ(head, e1, k));
            assert(s[e2[k] as int].next == succ(head, e2, k));
            assert(e1[k + 1] != head);
        }
    } else {
        assert forall|i: int| 0 <= i < e1.len() implies e1[i] == e2[i] by {
            lemma_ring_prefix(s, head, e1, e2, i);
        }
        assert(e1 =~= e2);
    }
}

/// A list given by its elements is well formed and its view is those elements.
pub proof fn lemma_view_is_ring(s: Seq<ListNode>, head: usize, e: Seq<usize>)
    requires
        is_ring(s, head, e),
    ensures
        list_wf(s, head),
        list_view(s, head) == e,
{
    let v = list_view(s, head);
    assert(is_ring(s, head, v));
    lemma_ring_unique(s, head, v, e);
}

/// Inserting a node that is in no position of the list at the front gives
/// the list with that node first.
proof fn lemma_add_ring(s: Seq<ListNode>, head: usize, e: Seq<usize>, new: usize)
    requires
        is_ring(s, head, e),
        new < s.len(),
        new != head,
        !e.contains(new),
    ensures
        is_ring(add_spec(s, head, new), head, seq![new] + e),
{
    let t = add_spec(s, head, new);
    let f = seq![new] + e;
    assert forall|i: int| 0 <= i < e.len() implies e[i] != new by {
        if e[i] == new {
            assert(e.contains(new));
        }
    }
    assert(f.no_duplicates()) by {
        assert forall|i: int, j: int| 0 <= i < f.len() && 0 <= j < f.len() && i != j implies f[i] != f[j] by {
            if i > 0 && j > 0 {
                assert(f[i] == e[i - 1]);
                assert(f[j] == e[j - 1]);
            } else if i == 0 {
                assert(f[j] == e[j - 1]);
            } else {
                assert(f[i] == e[i - 1]);
            }
        }
    }
    assert forall|i: int|
        #![trigger f[i]]
        0 <= i < f.len() implies t[f[i] as int].next == succ(head, f, i) && t[f[i] as int].prev == pred(
            head,
            f,
            i,
        ) by {
        if i > 0 {
            assert(f[i] == e[i - 1]);
            assert(s[e[i - 1] as int].next == succ(head, e, i - 1));
            assert(s[e[i - 1] as int].prev == pred(head, e, i - 1));
            if i > 1 {
                assert(f[i - 1] == e[i - 2]);
            }
            if i + 1 < f.len() {
                assert(f[i + 1] == e[i]);
            }
            if i == 1 {
                assert(e[0] == s[head as int].next);
            } else {
                assert(e[i - 1] != e[0]);
            }
        }
    }
    if e.len() > 0 {
        assert(f.last() == e.last());
        assert(e.last() == e[e.len() - 1]);
        assert(s[e[e.len() - 1] as int].next == succ(head, e, e.len() - 1));
        if e.len() > 1 {
            assert(e[e.len() - 1] != e[0]);
        }
    }
}

/// Inserting a node that is in no position of the list at the back gives
/// the list with that node last.
proof fn lemma_add_tail_ring(s: Seq<ListNode>, head: usize, e: Seq<usize>, new: usize)
    requires
        is_ring(s, head, e),
        new < s.len(),
        new != head,
        !e.contains(new),
    ensures
        is_ring(add_tail_spec(s, head, new), head, e.push(new)),
{
    let t = add_tail_spec(s, head, new);
    let f = e.push(new);
    let n = e.len();
    assert forall|i: int| 0 <= i < e.len() implies e[i] != new by {
        if e[i] == new {
            assert(e.contains(new));
        }
    }
    assert(f.no_duplicates()) by {
        assert forall|i: int, j: int| 0 <= i < f.len() && 0 <= j < f.len() && i != j implies f[i] != f[j] by {
            if i < n && j < n {
                assert(f[i] == e[i]);
                assert(f[j] == e[j]);
            } else if i == n {
                assert(f[j] == e[j]);
            } else {
                assert(f[i] == e[i]);
            }
        }
    }
    assert forall|i: int|
        #![trigger f[i]]
        0 <= i < f.len() implies t[f[i] as int].next == succ(head, f, i) && t[f[i] as int].prev == pred(
            head,
            f,
            i,
        ) by {
        if i < n {
            assert(f[i] == e[i]);
            assert(s[e[i] as int].next == succ(head, e, i));
            assert(s[e[i] as int].prev == pred(head, e, i));
            if i > 0 {
                assert(f[i - 1] == e[i - 1]);
            }
            if i + 1 < n {
                assert(f[i + 1] == e[i + 1]);
            }
            if i == n - 1 {
                assert(e.last() == e[i]);
            } else {
                assert(e[i] != e[n - 1]);
            }
        } else {
            if n > 0 {
                assert(f[n - 1] == e[n - 1]);
            }
        }
    }
    if n > 0 {
        assert(f[0] == e[0]);
        if n > 1 {
            assert(e[0] != e[n - 1]);
        }
    }
}

/// Unlinking element `k` of a list gives the list without that element.
proof fn lemma_del_ring(s: Seq<ListNode>, head: usize, e: Seq<usize>, k: int)
    requires
        is_ring(s, head, e),
        0 <= k < e.len(),
    ensures
        is_ring(del_spec(s, e[k]), head, e.remove(k)),
        e.remove(k).len() == e.len() - 1,
{
    let x = e[k];
    let t = del_spec(s, x);
    let f = e.remove(k);
    let n = e.len();
    let p = pred(head, e, k);
    let q = succ(head, e, k);
    assert(s[x as int].prev == p && s[x as int].next == q);
    assert(f.len() == n - 1);
    assert forall|i: int| 0 <= i < f.len() implies #[trigger] f[i] == (if i < k { e[i] } else { e[i + 1] }) by {}
    assert(p != x) by {
        if k > 0 {
            assert(e[k - 1] != e[k]);
        }
    }
    assert(q != x) by {
        if k + 1 < n {
            assert(e[k + 1] != e[k]);
        }
    }
    assert(p != q || n == 1) by {
        if k > 0 && k + 1 < n {
            assert(e[k - 1] != e[k + 1]);
        }
    }
    assert(f.no_duplicates()) by {
        assert forall|i: int, j: int| 0 <= i < f.len() && 0 <= j < f.len() && i != j implies f[i] != f[j] by {
            let ii = if i < k { i } else { i + 1 };
            let jj = if j < k { j } else { j + 1 };
            assert(f[i] == e[ii]);
            assert(f[j] == e[jj]);
        }
    }
    assert forall|i: int| 0 <= i < f.len() implies #[trigger] f[i] < t.len() && f[i] != head by {
        let ii = if i < k { i } else { i + 1 };
        assert(f[i] == e[ii]);
    }
    assert forall|i: int|
        #![trigger f[i]]
        0 <= i < f.len() implies t[f[i] as int].next == succ(head, f, i) && t[f[i] as int].prev == pred(
            head,
            f,
            i,
        ) by {
        let ii = if i < k { i } else { i + 1 };
        let y = e[ii];
        assert(f[i] == y);
        assert(y != x);
        assert(s[y as int].next == succ(head, e, ii));
        assert(s[y as int].prev == pred(head, e, ii));
        if i + 1 < f.len() {
            let jj = if i + 1 < k { i + 1 } else { i + 2 };
            assert(f[i + 1] == e[jj]);
        }
        if i > 0 {
            let jj = if i - 1 < k { i - 1 } else { i };
            assert(f[i - 1] == e[jj]);
        }
        if ii == k - 1 {
            assert(y == p);
        } else if k > 0 {
            assert(e[ii] != e[k - 1]);
        }
        if ii == k + 1 {
            assert(y == q);
        } else if ii + 1 < n && k + 1 < n {
            assert(e[ii] != e[k + 1]);
        }
    }
    if f.len() > 0 {
        assert(f[0] == (if k == 0 { e[1] } else { e[0] }));
        assert(f.last() == f[f.len() - 1]);
        assert(f[f.len() - 1] == (if k == n - 1 { e[n - 2] } else { e[n - 1] }));
    }
    assert(e.last() == e[n - 1]);
    if k > 0 {
        assert(e[0] != x);
    }
    if k < n - 1 {
        assert(e[n - 1] != x);
    }
    assert(t[head as int].next == succ(head, f, -1));
    assert(t[head as int].prev == (if f.len() == 0 { head } else { f.last() }));
}

/// A list's elements are fewer than the nodes of the memory holding it.
proof fn lemma_ring_len_bound(s: Seq<ListNode>, head: usize, e: Seq<usize>)
    requires
        is_ring(s, head, e),
    ensures
        e.len() < s.len(),
{
    let all = seq![head] + e;
    assert forall|i: int, j: int| 0 <= i < all.len() && 0 <= j < all.len() && i != j implies all[i] != all[j] by {
        if i > 0 {
            assert(all[i] == e[i - 1]);
        }
        if j > 0 {
            assert(all[j] == e[j - 1]);
        }
    }
    assert forall|i: int| 0 <= i < all.len() implies #[trigger] all[i] < s.len() by {
        if i > 0 {
            assert(all[i] == e[i - 1]);
        }
    }
    lemma_distinct_below(all, s.len());
}

/// A sequence of distinct numbers all below `n` has at most `n` entries.
proof fn lemma_distinct_below(e: Seq<usize>, n: nat)
    requires
        e.no_duplicates(),
        forall|i: int| 0 <= i < e.len() ==> #[trigger] e[i] < n,
    ensures
        e.len() <= n,
    decreases n,
{
    if n == 0 {
        if e.len() > 0 {
            assert(e[0] < n);
        }
    } else if exists|k: int| 0 <= k < e.len() && e[k] == n - 1 {
        let k = choose|k: int| 0 <= k < e.len() && e[k] == n - 1;
        let t = e.remove(k);
        assert forall|i: int| 0 <= i < t.len() implies #[trigger] t[i] == (if i < k { e[i] } else { e[i + 1] }) by {}
        assert forall|i: int, j: int| 0 <= i < t.len() && 0 <= j < t.len() && i != j implies t[i] != t[j] by {
            let ii = if i < k { i } else { i + 1 };
            let jj = if j < k { j } else { j + 1 };
            assert(t[i] == e[ii]);
            assert(t[j] == e[jj]);
        }
        assert forall|i: int| 0 <= i < t.len() implies #[trigger] t[i] < (n - 1) as nat by {
            let ii = if i < k { i } else { i + 1 };
            assert(t[i] == e[ii]);
            assert(e[ii] != e[k]);
        }
        lemma_distinct_below(t, (n - 1) as nat);
    } else {
        assert forall|i: int| 0 <= i < e.len() implies #[trigger] e[i] < (n - 1) as nat by {
            assert(e[i] < n);
            assert(e[i] != n - 1);
        }
        lemma_distinct_below(e, (n - 1) as nat);
    }
}

/// A list stays intact when every node it consists of keeps its links.
proof fn lemma_ring_frame(s: Seq<ListNode>, t: Seq<ListNode>, head: usize, e: Seq<usize>)
    requires
        is_ring(s, head, e),
        t.len() == s.len(),
        t[head as int] == s[head as int],
        forall|i: int| 0 <= i < e.len() ==> t[#[trigger] e[i] as int] == s[e[i] as int],
    ensures
        is_ring(t, head, e),
{
    assert forall|i: int|
        #![trigger e[i]]
        0 <= i < e.len() implies t[e[i] as int].next == succ(head, e, i) && t[e[i] as int].prev == pred(
            head,
            e,
            i,
        ) by {
        assert(t[e[i] as int] == s[e[i] as int]);
        assert(s[e[i] as int].next == succ(head, e, i));
        assert(s[e[i] as int].prev == pred(head, e, i));
    }
}

/// `node` is neither the head nor an element of the list headed by `head`.
pub open spec fn outside_list(s: Seq<ListNode>, head: usize, node: usize) -> bool {
    node != head && !list_view(s, head).contains(node)
}

/// Law: inserting a detached node at the front of a list and then unlinking
/// it again restores the node memory, apart from the node itself, which is
/// left linked to itself.
pub proof fn lemma_add_then_del_restores(s: Seq<ListNode>, head: usize, new: usize)
    requires
        list_wf(s, head),
        new < s.len(),
        outside_list(s, head, new),
    ensures
        del_spec(add_spec(s, head, new), new) == s.update(new as int, self_linked(new)),
        s[new as int] == self_linked(new) ==> del_spec(add_spec(s, head, new), new) == s,
{
    let e = list_view(s, head);
    let a = s[head as int].next;
    assert(a != new) by {
        if e.len() > 0 {
            assert(e[0] == a);
        }
    }
    assert(s[a as int].prev == head) by {
        if e.len() > 0 {
            assert(s[e[0] as int].prev == pred(head, e, 0));
        }
    }
    let r = del_spec(add_spec(s, head, new), new);
    assert(r =~= s.update(new as int, self_linked(new)));
    if s[new as int] == self_linked(new) {
        assert(r =~= s);
    }
}

/// Law: inserting a detached node at the back of a list and then unlinking
/// it again restores the node memory, apart from the node itself, which is
/// left linked to itself.
pub proof fn lemma_add_tail_then_del_restores(s: Seq<ListNode>, head: usize, new: usize)
    requires
        list_wf(s, head),
        new < s.len(),
        outside_list(s, head, new),
    ensures
        del_spec(add_tail_spec(s, head, new), new) == s.update(new as int, self_linked(new)),
        s[new as int] == self_linked(new) ==> del_spec(add_tail_spec(s, head, new), new) == s,
{
    let e = list_view(s, head);
    let z = s[head as int].prev;
    assert(z != new) by {
        if e.len() > 0 {
            assert(e.last() == e[e.len() - 1]);
        }
    }
    assert(s[z as int].next == head) by {
        if e.len() > 0 {
            assert(e.last() == e[e.len() - 1]);
            assert(s[e[e.len() - 1] as int].next == succ(head, e, e.len() - 1));
        }
    }
    let r = del_spec(add_tail_spec(s, head, new), new);
    assert(r =~= s.update(new as int, self_linked(new)));
    if s[new as int] == self_linked(new) {
        assert(r =~= s);
    }
}

/// Law: unlinking a node that is already detached (linked to itself)
/// changes nothing, so unlinking a node twice is harmless.
pub proof fn lemma_del_detached_is_noop(s: Seq<ListNode>, entry: usize)
    requires
        entry < s.len(),
        s[entry as int] == self_linked(entry),
    ensures
        del_spec(s, entry) == s,
{
    assert(del_spec(s, entry) =~= s);
}

/// Law: inserting at the front or back of a list makes it one node longer,
/// and unlinking one of its nodes one node shorter.
pub proof fn lemma_list_len_changes_by_one(s: Seq<ListNode>, head: usize, node: usize)
    requires
        list_wf(s, head),
        node < s.len(),
    ensures
        outside_list(s, head, node) ==> list_view(add_spec(s, head, node), head).len() == list_view(s, head).len() + 1,
        outside_list(s, head, node) ==> list_view(add_tail_spec(s, head, node), head).len() == list_view(s, head).len() + 1,
        list_view(s, head).contains(node) ==> list_view(del_spec(s, node), head).len() == list_view(s, head).len() - 1,
{
    let e = list_view(s, head);
    if outside_list(s, head, node) {
        lemma_add_ring(s, head, e, node);
        lemma_view_is_ring(add_spec(s, head, node), head, seq![node] + e);
        lemma_add_tail_ring(s, head, e, node);
        lemma_view_is_ring(add_tail_spec(s, head, node), head, e.push(node));
    }
    if e.contains(node) {
        let k = e.index_of(node);
        lemma_del_ring(s, head, e, k);
        lemma_view_is_ring(del_spec(s, node), head, e.remove(k));
    }
}

/// Law: lists share one node memory without interfering. Inserting `new`
/// after `head` leaves intact every other list that contains none of the
/// nodes the insertion relinks (`head`, `new` and the node after `head`).
pub proof fn lemma_add_keeps_other_lists(s: Seq<ListNode>, head: usize, new: usize, other: usize)
    requires
        head < s.len(),
        new < s.len(),
        s[head as int].next < s.len(),
        list_wf(s, other),
        outside_list(s, other, head),
        outside_list(s, other, new),
        outside_list(s, other, s[head as int].next),
    ensures
        list_wf(add_spec(s, head, new), other),
        list_view(add_spec(s, head, new), other) == list_view(s, other),
{
    let e = list_view(s, other);
    let t = add_spec(s, head, new);
    assert forall|i: int| 0 <= i < e.len() implies t[#[trigger] e[i] as int] == s[e[i] as int] by {
        assert(e.contains(e[i]));
    }
    lemma_ring_frame(s, t, other, e);
    lemma_view_is_ring(t, other, e);
}

/// Law: inserting `new` before `head` leaves intact every other list that
/// contains none of the nodes the insertion relinks (`head`, `new` and the
/// node before `head`).
pub proof fn lemma_add_tail_keeps_other_lists(s: Seq<ListNode>, head: usize, new: usize, other: usize)
    requires
        head < s.len(),
        new < s.len(),
        s[head as int].prev < s.len(),
        list_wf(s, other),
        outside_list(s, other, head),
        outside_list(s, other, new),
        outside_list(s, other, s[head as int].prev),
    ensures
        list_wf(add_tail_spec(s, head, new), other),
        list_view(add_tail_spec(s, head, new), other) == list_view(s, other),
{
    let e = list_view(s, other);
    let t = add_tail_spec(s, head, new);
    assert forall|i: int| 0 <= i < e.len() implies t[#[trigger] e[i] as int] == s[e[i] as int] by {
        assert(e.contains(e[i]));
    }
    lemma_ring_frame(s, t, other, e);
    lemma_view_is_ring(t, other, e);
}

/// Law: unlinking `entry` leaves intact every other list that contains none
/// of the nodes the removal relinks (`entry` and its two neighbours).
pub proof fn lemma_del_keeps_other_lists(s: Seq<ListNode>, entry: usize, other: usize)
    requires
        entry < s.len(),
        s[entry as int].prev < s.len(),
        s[entry as int].next < s.len(),
        list_wf(s, other),
        outside_list(s, other, entry),
        outside_list(s, other, s[entry as int].prev),
        outside_list(s, other, s[entry as int].next),
    ensures
        list_wf(del_spec(s, entry), other),
        list_view(del_spec(s, entry), other) == list_view(s, other),
{
    let e = list_view(s, other);
    let t = del_spec(s, entry);
    assert forall|i: int| 0 <= i < e.len() implies t[#[trigger] e[i] as int] == s[e[i] as int] by {
        assert(e.contains(e[i]));
    }
    lemma_ring_frame(s, t, other, e);
    lemma_view_is_ring(t, other, e);
}

} // verus!
