use vstd::prelude::*;
use std::collections::HashMap;

verus! {

broadcast use vstd::std_specs::hash::group_hash_axioms;

/// One entry of the time-ordered memory access log: the row at which the
/// access happened and the (word-aligned) address it touched.
#[derive(Clone, Copy, Debug, PartialEq, Eq, Structural)]
pub struct MemoryAccess {
    pub idx: usize,
    pub address: u32,
}

/// Log2 of the size of a memory page in bytes.
pub const PAGE_SIZE_BYTES_LOG: u32 = 10;

/// Size of a memory page in bytes.
pub const PAGE_SIZE_BYTES: u32 = 1024;

/// Size of a memory word in bytes.
pub const BYTES_PER_WORD: u32 = 4;

/// Number of words in one page.
pub const WORDS_PER_PAGE: u32 = 256;

/// The page that holds `addr`.
pub open spec fn page_of(addr: u32) -> u32 {
    addr >> PAGE_SIZE_BYTES_LOG
}

/// The access log is ordered by row index.
pub open spec fn sorted_by_idx(log: Seq<MemoryAccess>) -> bool {
    forall|i: int, j: int| 0 <= i <= j < log.len() ==> #[trigger] log[i].idx <= #[trigger] log[j].idx
}

/// The pages touched by the accesses whose row lies in `[from, from + n)`.
pub open spec fn window_pages(log: Seq<MemoryAccess>, from: int, n: int) -> Set<u32> {
    Set::new(
        |p: u32|
            exists|k: int|
                0 <= k < log.len() && from <= #[trigger] log[k].idx < from + n && page_of(log[k].address) == p,
    )
}

/// Each element is smaller than the next: ascending and free of duplicates.
pub open spec fn strictly_ascending(s: Seq<u32>) -> bool {
    forall|i: int, j: int| 0 <= i < j < s.len() ==> #[trigger] s[i] < #[trigger] s[j]
}

/// The ascending, duplicate-free list of the pages of `window_pages`.
pub open spec fn selected_pages(log: Seq<MemoryAccess>, from: int, n: int) -> Seq<u32> {
    choose|s: Seq<u32>| strictly_ascending(s) && s.to_set() == window_pages(log, from, n)
}

/// Two ascending, duplicate-free lists with the same elements are equal:
/// the page list that a window yields does not depend on how it was built.
pub proof fn lemma_pages_unique(a: Seq<u32>, b: Seq<u32>)
    requires
        strictly_ascending(a),
        strictly_ascending(b),
        a.to_set() == b.to_set(),
    ensures
        a == b,
    decreases a.len(),
{
    if a.len() == 0 {
        if b.len() > 0 {
            assert(b.to_set().contains(b[0]));
        }
        assert(a =~= b);
    } else if b.len() == 0 {
        assert(a.to_set().contains(a[0]));
    } else {
        let x = a.last();
        let y = b.last();
        assert(a.to_set().contains(x));
        assert(b.to_set().contains(y));
        assert(b.to_set().contains(x));
        assert(a.to_set().contains(y));
        let i = choose|i: int| 0 <= i < b.len() && b[i] == x;
        let j = choose|j: int| 0 <= j < a.len() && a[j] == y;
        if i < b.len() - 1 {
            assert(b[i] < b[b.len() - 1]);
            assert(a[j] <= x);
        }
        if j < a.len() - 1 {
            assert(a[j] < a[a.len() - 1]);
        }
        assert(x == y);
        let a2 = a.drop_last();
        let b2 = b.drop_last();
        assert forall|z: u32| a2.to_set().contains(z) <==> b2.to_set().contains(z) by {
            if a2.to_set().contains(z) {
                let k = choose|k: int| 0 <= k < a2.len() && a2[k] == z;
                assert(a[k] < x);
                assert(b.to_set().contains(z));
                let m = choose|m: int| 0 <= m < b.len() && b[m] == z;
                assert(m != b.len() - 1);
                assert(b2[m] == z);
            }
            if b2.to_set().contains(z) {
                let k = choose|k: int| 0 <= k < b2.len() && b2[k] == z;
                assert(b[k] < y);
                assert(a.to_set().contains(z));
                let m = choose|m: int| 0 <= m < a.len() && a[m] == z;
                assert(m != a.len() - 1);
                assert(a2[m] == z);
            }
        }
        assert(a2.to_set() =~= b2.to_set());
        lemma_pages_unique(a2, b2);
        assert(a =~= a2.push(x));
        assert(b =~= b2.push(y));
    }
}

/// Checks that the access log is ordered by row index.
pub fn is_sorted_by_idx(log: &Vec<MemoryAccess>) -> (r: bool)
    ensures
        r == sorted_by_idx(log@),
{
    let mut k: usize = 1;
    if log.len() == 0 {
        return true;
    }
    while k < log.len()
        invariant
            1 <= k <= log@.len(),
            forall|i: int, j: int| 0 <= i <= j < k ==> #[trigger] log@[i].idx <= #[trigger] log@[j].idx,
        decreases log@.len() - k,
    {
        if log[k - 1].idx > log[k].idx {
            return false;
        }
        proof {
            assert forall|i: int, j: int| 0 <= i <= j < k + 1 implies #[trigger] log@[i].idx
                <= #[trigger] log@[j].idx by {
                if j == k && i < k {
                    assert(log@[i].idx <= log@[k - 1].idx);
                }
            }
        }
        k += 1;
    }
    true
}

/// Position of the first access whose row is at or after `from`.
pub fn lower_bound(log: &Vec<MemoryAccess>, from: usize) -> (r: usize)
    requires
        sorted_by_idx(log@),
    ensures
        r <= log@.len(),
        forall|k: int| 0 <= k < r ==> #[trigger] log@[k].idx < from,
        forall|k: int| r <= k < log@.len() ==> #[trigger] log@[k].idx >= from,
{
    let mut lo: usize = 0;
    let mut hi: usize = log.len();
    while lo < hi
        invariant
            lo <= hi <= log@.len(),
            sorted_by_idx(log@),
            forall|k: int| 0 <= k < lo ==> #[trigger] log@[k].idx < from,
            forall|k: int| hi <= k < log@.len() ==> #[trigger] log@[k].idx >= from,
        decreases hi - lo,
    {
        let mid = lo + (hi - lo) / 2;
        if log[mid].idx < from {
            proof {
                assert forall|k: int| 0 <= k < mid + 1 implies #[trigger] log@[k].idx < from by {
                    assert(log@[k].idx <= log@[mid as int].idx);
                }
            }
            lo = mid + 1;
        } else {
            proof {
                assert forall|k: int| mid <= k < log@.len() implies #[trigger] log@[k].idx >= from by {
                    assert(log@[mid as int].idx <= log@[k].idx);
                }
            }
            hi = mid;
        }
    }
    lo
}

/// Adds `p` to an ascending, duplicate-free list, keeping it so.
fn insert_page(pages: &mut Vec<u32>, p: u32)
    requires
        strictly_ascending(old(pages)@),
    ensures
        strictly_ascending(final(pages)@),
        final(pages)@.to_set() == old(pages)@.to_set().insert(p),
{
    let mut i: usize = 0;
    while i < pages.len() && pages[i] < p
        invariant
            0 <= i <= pages@.len(),
            forall|k: int| 0 <= k < i ==> #[trigger] pages@[k] < p,
        decreases pages@.len() - i,
    {
        i += 1;
    }
    if i < pages.len() && pages[i] == p {
        proof {
            assert(pages@.to_set().insert(p) =~= pages@.to_set());
        }
        return;
    }
    let ghost before = pages@;
    pages.insert(i, p);
    proof {
        assert(pages@ =~= before.take(i as int).push(p) + before.skip(i as int));
        assert forall|x: u32| pages@.to_set().contains(x) <==> before.to_set().insert(p).contains(x) by {
            if x == p {
                assert(pages@[i as int] == p);
            }
            if before.to_set().contains(x) && x != p {
                let k = choose|k: int| 0 <= k < before.len() && before[k] == x;
                if k < i {
                    assert(pages@[k] == x);
                } else {
                    assert(pages@[k + 1] == x);
                }
            }
            if pages@.to_set().contains(x) {
                let k = choose|k: int| 0 <= k < pages@.len() && pages@[k] == x;
                if k < i {
                    assert(before[k] == x);
                } else if k > i {
                    assert(before[k - 1] == x);
                }
            }
        }
        assert(pages@.to_set() =~= before.to_set().insert(p));
    }
}

/// The pages touched by accesses with row index in `[from, from + num_rows)`,
/// in ascending page order. Locates the first access of the window by binary
/// search, then scans forward until the window ends.
pub fn select_pages(log: &Vec<MemoryAccess>, from: usize, num_rows: usize) -> (r: Vec<u32>)
    requires
        sorted_by_idx(log@),
    ensures
        strictly_ascending(r@),
        r@.to_set() == window_pages(log@, from as int, num_rows as int),
{
    let start = lower_bound(log, from);
    let mut pages: Vec<u32> = Vec::new();
    let mut j: usize = start;
    while j < log.len() && log[j].idx - from < num_rows
        invariant
            start <= j <= log@.len(),
            sorted_by_idx(log@),
            strictly_ascending(pages@),
            forall|k: int| 0 <= k < start ==> #[trigger] log@[k].idx < from,
            forall|k: int| start <= k < log@.len() ==> #[trigger] log@[k].idx >= from,
            pages@.to_set() == Set::new(
                |p: u32|
                    exists|k: int|
                        start <= k < j && from <= #[trigger] log@[k].idx < from + num_rows && page_of(log@[k].address) == p,
            ),
        decreases log@.len() - j,
    {
        let access = log[j];
        insert_page(&mut pages, access.address >> PAGE_SIZE_BYTES_LOG);
        j += 1;
    }
    proof {
        if j < log@.len() {
            assert forall|k: int| j <= k < log@.len() implies #[trigger] log@[k].idx >= from + num_rows by {
                assert(log@[j as int].idx <= log@[k].idx);
            }
        }
        assert(pages@.to_set() =~= window_pages(log@, from as int, num_rows as int));
    }
    pages
}

/// The value that `updates` leaves at `addr` when merged over `old`:
/// the last write at `addr` wins, and an address not written keeps its value.
pub open spec fn merged_value(old: Map<u32, u64>, updates: Seq<(u32, u64)>, addr: u32) -> Option<u64>
    decreases updates.len(),
{
    if updates.len() == 0 {
        if old.contains_key(addr) { Some(old[addr]) } else { None }
    } else {
        let last = updates.last();
        if last.0 == addr {
            Some(last.1)
        } else {
            merged_value(old, updates.drop_last(), addr)
        }
    }
}

/// `new` is what merging `updates` into `old` leaves.
pub open spec fn snapshot_merged(old: Map<u32, u64>, updates: Seq<(u32, u64)>, new: Map<u32, u64>) -> bool {
    &&& forall|a: u32| #[trigger] new.contains_key(a) <==> merged_value(old, updates, a) is Some
    &&& forall|a: u32| new.contains_key(a) ==> Some(#[trigger] new[a]) == merged_value(old, updates, a)
}

/// A merge never drops an address, keeps the value of every address that it
/// does not write, and gives every changed address the value of its last
/// write in the update.
pub proof fn lemma_snapshot_monotone(old: Map<u32, u64>, updates: Seq<(u32, u64)>, new: Map<u32, u64>, a: u32)
    requires
        snapshot_merged(old, updates, new),
    ensures
        old.contains_key(a) ==> new.contains_key(a),
        (forall|k: int| 0 <= k < updates.len() ==> (#[trigger] updates[k]).0 != a) ==> (
        new.contains_key(a) == old.contains_key(a) && (old.contains_key(a) ==> new[a] == old[a])),
        new.contains_key(a) && !(old.contains_key(a) && new[a] == old[a]) ==> exists|k: int|
            0 <= k < updates.len() && #[trigger] updates[k] == (a, new[a]) && forall|j: int|
                k < j < updates.len() ==> (#[trigger] updates[j]).0 != a,
    decreases updates.len(),
{
    if updates.len() > 0 {
        let rest = updates.drop_last();
        let last = updates.last();
        let mid = Map::new(
            |b: u32| merged_value(old, rest, b) is Some,
            |b: u32| merged_value(old, rest, b)->Some_0,
        );
        lemma_snapshot_monotone(old, rest, mid, a);
        if last.0 != a {
            assert(merged_value(old, updates, a) == merged_value(old, rest, a));
            if forall|k: int| 0 <= k < updates.len() ==> (#[trigger] updates[k]).0 != a {
                assert forall|k: int| 0 <= k < rest.len() implies (#[trigger] rest[k]).0 != a by {
                    assert(rest[k] == updates[k]);
                }
            }
            if new.contains_key(a) && !(old.contains_key(a) && new[a] == old[a]) {
                assert(mid.contains_key(a) && mid[a] == new[a]);
                let k = choose|k: int|
                    0 <= k < rest.len() && #[trigger] rest[k] == (a, mid[a]) && forall|j: int|
                        k < j < rest.len() ==> (#[trigger] rest[j]).0 != a;
                assert(updates[k] == (a, new[a]));
                assert forall|j: int| k < j < updates.len() implies (#[trigger] updates[j]).0 != a by {
                    if j < rest.len() {
                        assert(rest[j] == updates[j]);
                    }
                }
            }
        } else {
            assert(merged_value(old, updates, a) == Some(last.1));
            if forall|k: int| 0 <= k < updates.len() ==> (#[trigger] updates[k]).0 != a {
                assert(updates[updates.len() - 1].0 != a);
            }
            if new.contains_key(a) && !(old.contains_key(a) && new[a] == old[a]) {
                assert(updates[updates.len() - 1] == (a, new[a]));
            }
        }
    }
}

/// Sparse word-address to value map, accumulated over the chunks of a run.
pub struct MemorySnapshot {
    values: HashMap<u32, u64>,
}

impl View for MemorySnapshot {
    type V = Map<u32, u64>;

    closed spec fn view(&self) -> Map<u32, u64> {
        self.values@
    }
}

impl MemorySnapshot {
    /// An empty snapshot.
    pub fn new() -> (r: Self)
        ensures
            r@ == Map::<u32, u64>::empty(),
    {
        MemorySnapshot { values: HashMap::new() }
    }

    /// Merges the writes that one executor run reports, in order.
    pub fn merge(&mut self, updates: &Vec<(u32, u64)>)
        ensures
            snapshot_merged(old(self)@, updates@, final(self)@),
    {
        let ghost start = self@;
        let mut i: usize = 0;
        while i < updates.len()
            invariant
                0 <= i <= updates@.len(),
                forall|a: u32| #[trigger] self@.contains_key(a) <==> merged_value(start, updates@.take(i as int), a) is Some,
                forall|a: u32| self@.contains_key(a) ==> Some(#[trigger] self@[a]) == merged_value(start, updates@.take(i as int), a),
            decreases updates@.len() - i,
        {
            let (addr, value) = updates[i];
            let ghost before = self@;
            self.values.insert(addr, value);
            assert(self@ == before.insert(addr, value));
            proof {
                let t = updates@.take(i as int + 1);
                assert(t.drop_last() =~= updates@.take(i as int));
                assert forall|a: u32| #[trigger] merged_value(start, t, a) == (if a == addr {
                    Some(value)
                } else {
                    merged_value(start, updates@.take(i as int), a)
                }) by {
                    assert(t.last() == (addr, value));
                }
            }
            i += 1;
        }
        proof {
            assert(updates@.take(i as int) =~= updates@);
        }
    }

    /// The value known at `addr`, or zero where nothing was ever written.
    pub fn get_or_zero(&self, addr: u32) -> (r: u64)
        ensures
            r == (if self@.contains_key(addr) { self@[addr] } else { 0 }),
    {
        match self.values.get(&addr) {
            Some(v) => *v,
            None => 0,
        }
    }
}

} // verus!
