use vstd::prelude::*;

use crate::memory::{page_of, MemorySnapshot, BYTES_PER_WORD, PAGE_SIZE_BYTES, PAGE_SIZE_BYTES_LOG, WORDS_PER_PAGE};

verus! {

/// Number of distinct pages in the 32-bit address space.
pub const NUM_PAGES: u32 = 4194304;

/// Every page id denotes a page of the 32-bit address space.
pub open spec fn pages_in_range(pages: Seq<u32>) -> bool {
    forall|k: int| 0 <= k < pages.len() ==> #[trigger] pages[k] < NUM_PAGES
}

/// The value a snapshot holds at `addr`; zero where nothing was written.
pub open spec fn value_at(snapshot: Map<u32, u64>, addr: int) -> u64 {
    if snapshot.contains_key(addr as u32) {
        snapshot[addr as u32]
    } else {
        0
    }
}

/// The snapshot's values for every word of `page`, lowest address first.
pub open spec fn page_words(snapshot: Map<u32, u64>, page: u32) -> Seq<u64> {
    Seq::new(
        WORDS_PER_PAGE as nat,
        |w: int| value_at(snapshot, page * PAGE_SIZE_BYTES + w * BYTES_PER_WORD),
    )
}

/// The payload of the selected pages: for each, its id and then its words.
pub open spec fn pages_payload(snapshot: Map<u32, u64>, pages: Seq<u32>) -> Seq<u64>
    decreases pages.len(),
{
    if pages.len() == 0 {
        Seq::empty()
    } else {
        pages_payload(snapshot, pages.drop_last()) + seq![pages.last() as u64] + page_words(
            snapshot,
            pages.last(),
        )
    }
}

/// The input of the next chunk: the final register values, the page count,
/// then each selected page.
pub open spec fn bootloader_input(regs: Seq<u64>, pages: Seq<u32>, snapshot: Map<u32, u64>) -> Seq<u64> {
    regs + seq![pages.len() as u64] + pages_payload(snapshot, pages)
}

/// Every page of the address space has an id below `NUM_PAGES`.
pub proof fn lemma_page_in_range(addr: u32)
    ensures
        page_of(addr) < NUM_PAGES,
{
    assert((addr >> 10u32) < 4194304u32) by (bit_vector);
}

/// Serialises the final register values and the selected pages, read from
/// the snapshot, into the next chunk's bootloader input.
pub fn build_bootloader_input(regs: &Vec<u64>, pages: &Vec<u32>, snapshot: &MemorySnapshot) -> (r: Vec<u64>)
    requires
        pages_in_range(pages@),
    ensures
        r@ == bootloader_input(regs@, pages@, snapshot@),
{
    let mut out: Vec<u64> = Vec::new();
    let mut k: usize = 0;
    while k < regs.len()
        invariant
            k <= regs@.len(),
            out@ == regs@.take(k as int),
        decreases regs@.len() - k,
    {
        out.push(regs[k]);
        k += 1;
        assert(out@ =~= regs@.take(k as int));
    }
    assert(regs@.take(k as int) =~= regs@);
    out.push(pages.len() as u64);
    let ghost head = out@;
    let mut p: usize = 0;
    while p < pages.len()
        invariant
            p <= pages@.len(),
            pages_in_range(pages@),
            head == regs@ + seq![pages@.len() as u64],
            out@ == head + pages_payload(snapshot@, pages@.take(p as int)),
        decreases pages@.len() - p,
    {
        let page = pages[p];
        assert(page < NUM_PAGES);
        let start_addr = page << PAGE_SIZE_BYTES_LOG;
        assert(page < 4194304u32 ==> (page << 10u32) == page * 1024u32) by (bit_vector);
        let ghost before = out@;
        out.push(page as u64);
        let mut w: u32 = 0;
        while w < WORDS_PER_PAGE
            invariant
                w <= WORDS_PER_PAGE,
                page < NUM_PAGES,
                start_addr == page * PAGE_SIZE_BYTES,
                out@ == before + seq![page as u64] + page_words(snapshot@, page).take(w as int),
            decreases WORDS_PER_PAGE - w,
        {
            let addr = start_addr + w * BYTES_PER_WORD;
            out.push(snapshot.get_or_zero(addr));
            w += 1;
            assert(out@ =~= before + seq![page as u64] + page_words(snapshot@, page).take(w as int));
        }
        proof {
            assert(page_words(snapshot@, page).take(w as int) =~= page_words(snapshot@, page));
            let t = pages@.take(p as int + 1);
            assert(t.drop_last() =~= pages@.take(p as int));
            assert(t.last() == page);
            assert(out@ =~= head + pages_payload(snapshot@, t));
        }
        p += 1;
    }
    assert(pages@.take(p as int) =~= pages@);
    out
}

} // verus!
