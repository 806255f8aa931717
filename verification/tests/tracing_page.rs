use lib::errors::TracingPageError;
use lib::tracing::excess::{Excess, Reminder};
use lib::tracing::metadata::{Info, Metadata, Side};
use lib::tracing::page::{TracingPage, METADATA_ARRAY_SIZE};

fn free(pa: u64, sz: u64) -> Metadata {
    Metadata::new_free(pa, pa + 0x100_0000, sz)
}

fn taken(pa: u64, sz: u64) -> Metadata {
    Metadata::new_taken(pa, pa + 0x100_0000, sz)
}

fn page_of(entries: &[Metadata]) -> TracingPage {
    let mut page = TracingPage::new();
    for md in entries {
        page.append_unchecked(*md);
    }
    page
}

#[test]
fn side_shrinks_from_the_right_end() {
    let mut md1 = Metadata::new_free(0x10000, 0x10000, 0x1000);
    let mut md2 = Metadata::new_free(0x10000, 0x10000, 0x1000);
    md1.shrink(0x100, Side::Left);
    md2.shrink(0x100, Side::Right);
    assert_eq!(md1.size(), 0xF00);
    assert_eq!(md2.size(), 0xF00);
    assert_eq!(md1.paddr, 0x10100);
    assert_eq!(md2.paddr, 0x10000);
}

#[test]
fn excess_pops_in_push_order() {
    let m1 = free(0x1000, 0x1000);
    let m2 = free(0x2000, 0x2000);
    let mut excess = Excess::none();
    excess.push(m1);
    assert_eq!(excess.size(), 1);
    excess.push(m2);
    assert_eq!(excess.size(), 2);
    assert_eq!(excess.pop(), Some(m1));
    assert_eq!(excess.pop(), Some(m2));
    assert_eq!(excess.pop(), None);
    assert!(excess.is_none());
}

#[test]
fn reminder_of_empty_entry_is_zero() {
    assert_eq!(Reminder::positive(free(0x1000, 0)), Reminder::Zero);
    assert_eq!(Reminder::negative(free(0x1000, 0x10)), Reminder::Negative(free(0x1000, 0x10)));
    assert!(Reminder::zero().is_zero());
}

#[test]
fn append_merges_contiguous_free_entries() {
    let mut page = page_of(&[free(0x1000, 0x1000)]);
    assert_eq!(page.append(free(0x2000, 0x1000)), None);
    assert_eq!(page.iterate(), vec![free(0x1000, 0x2000)]);
    assert_eq!(page.append(taken(0x3000, 0x1000)), None);
    assert_eq!(page.iterate(), vec![free(0x1000, 0x2000), taken(0x3000, 0x1000)]);
}

#[test]
fn push_merges_contiguous_free_entries() {
    let mut page = page_of(&[free(0x2000, 0x1000)]);
    assert_eq!(page.push(free(0x1000, 0x1000)), None);
    assert_eq!(page.iterate(), vec![free(0x1000, 0x2000)]);
    assert_eq!(page.try_push(taken(0x1800, 0x100)), Err(TracingPageError::PushPreconditions));
}

#[test]
fn insert_keeps_order() {
    let mut page = page_of(&[taken(0x1000, 0x1000), taken(0x4000, 0x1000)]);
    let excess = page.insert(taken(0x2000, 0x1000)).unwrap();
    assert!(excess.is_none());
    assert_eq!(page.iterate(), vec![taken(0x1000, 0x1000), taken(0x2000, 0x1000), taken(0x4000, 0x1000)]);
    let excess = page.insert(free(0x3000, 0x1000)).unwrap();
    assert!(excess.is_none());
    assert_eq!(page.size(), 4);
}

#[test]
fn take_lower_higher_and_middle_parts() {
    let mut page = page_of(&[free(0x1000, 0x3000)]);
    assert!(page.take(0x1000, 0x1000).unwrap().is_none());
    assert_eq!(page.iterate(), vec![taken(0x1000, 0x1000), free(0x2000, 0x2000)]);
    assert!(page.take(0x3800, 0x800).unwrap().is_none());
    assert_eq!(page.iterate(), vec![taken(0x1000, 0x1000), free(0x2000, 0x1800), taken(0x3800, 0x800)]);
    assert!(page.take(0x2800, 0x400).unwrap().is_none());
    assert_eq!(
        page.iterate(),
        vec![taken(0x1000, 0x1000), free(0x2000, 0x800), taken(0x2800, 0x400), free(0x2C00, 0xC00), taken(0x3800, 0x800)]
    );
}

#[test]
fn take_errors() {
    let mut page = page_of(&[taken(0x1000, 0x1000), free(0x2000, 0x1000)]);
    assert_eq!(page.take(0x1000, 0x10).unwrap_err(), TracingPageError::EntryIsTaken);
    assert_eq!(page.take(0x2000, 0x2000).unwrap_err(), TracingPageError::EntrySizeMismatch);
    assert_eq!(page.take(0x9000, 0x10).unwrap_err(), TracingPageError::NotFound);
    assert_eq!(page.size(), 2);
}

#[test]
fn drop_frees_and_merges() {
    let mut page = page_of(&[free(0x1000, 0x1000), taken(0x2000, 0x1000), free(0x3000, 0x1000)]);
    assert_eq!(page.drop(0x2000), Ok(0x1000));
    assert_eq!(page.iterate(), vec![free(0x1000, 0x3000)]);
    assert_eq!(page.drop(0x1000), Err(TracingPageError::EntryIsFree));
    assert_eq!(page.drop(0x1800), Err(TracingPageError::DropPreconditions));
    assert_eq!(page.drop(0x8000), Err(TracingPageError::NotFound));
}

#[test]
fn take_then_drop_gives_back_the_page() {
    let original = vec![taken(0x0, 0x1000), free(0x1000, 0x4000), taken(0x5000, 0x1000)];
    let mut page = page_of(&original);
    assert!(page.take(0x2000, 0x1000).unwrap().is_none());
    assert_eq!(page.size(), 5);
    assert_eq!(page.drop(0x2000), Ok(0x1000));
    assert_eq!(page.iterate(), original);
}

#[test]
fn resize_shrinks_into_next_free_entry() {
    let mut page = page_of(&[taken(0x1000, 0x2000), free(0x3000, 0x1000)]);
    assert_eq!(page.resize(0x1000, 0x1000), Ok(Reminder::Zero));
    assert_eq!(page.iterate(), vec![taken(0x1000, 0x1000), free(0x2000, 0x2000)]);
    assert_eq!(page.resize(0x1000, 0x2800), Ok(Reminder::Zero));
    assert_eq!(page.iterate(), vec![taken(0x1000, 0x2800), free(0x3800, 0x800)]);
    assert_eq!(page.resize(0x1000, 0x3000), Ok(Reminder::Zero));
    assert_eq!(page.iterate(), vec![taken(0x1000, 0x3000)]);
    assert_eq!(page.resize(0x1000, 0x4000), Err(TracingPageError::ResizePreconditions));
    assert_eq!(page.resize(0x1800, 0x10), Err(TracingPageError::ResizePreconditions));
}

#[test]
fn resize_shrink_without_free_neighbour_inserts_free_entry() {
    let mut page = page_of(&[taken(0x1000, 0x2000), taken(0x3000, 0x1000)]);
    assert_eq!(page.resize(0x1000, 0x1000), Ok(Reminder::Zero));
    assert_eq!(page.iterate(), vec![taken(0x1000, 0x1000), free(0x2000, 0x1000), taken(0x3000, 0x1000)]);
}

#[test]
fn remove_whole_and_partial_entries() {
    let mut page = page_of(&[free(0x1000, 0x1000), free(0x3000, 0x3000)]);
    assert_eq!(page.try_remove(0x1000, 0x1000), Ok(Reminder::Zero));
    assert_eq!(page.iterate(), vec![free(0x3000, 0x3000)]);
    assert_eq!(page.try_remove(0x5000, 0x1000), Ok(Reminder::Zero));
    assert_eq!(page.iterate(), vec![free(0x3000, 0x2000)]);
    assert_eq!(page.try_remove(0x3000, 0x800), Ok(Reminder::Zero));
    assert_eq!(page.iterate(), vec![free(0x3800, 0x1800)]);
    assert_eq!(page.try_remove(0x9000, 0x10), Err(TracingPageError::RemovePreconditions));
}

#[test]
fn split_extract_and_pop() {
    let mut page = page_of(&[free(0x1000, 0x1000), taken(0x2000, 0x1000)]);
    assert_eq!(page.split(0, 0x400), Ok(None));
    assert_eq!(page.iterate(), vec![free(0x1000, 0x400), free(0x1400, 0xC00), taken(0x2000, 0x1000)]);
    assert_eq!(page.try_extract(1), Ok(free(0x1400, 0xC00)));
    assert_eq!(page.try_extract(5), Err(TracingPageError::ExtractPreconditions));
    assert_eq!(page.try_pop(), Ok(taken(0x2000, 0x1000)));
    assert_eq!(page.try_pop(), Ok(free(0x1000, 0x400)));
    assert_eq!(page.try_pop(), Err(TracingPageError::PopPreconditions));
}

#[test]
fn split_out_of_bounds_index() {
    let mut page = page_of(&[free(0x1000, 0x1000)]);
    assert_eq!(page.split(1, 0x400), Err(TracingPageError::SplitPreconditions));
    assert_eq!(page.split(usize::MAX, 0x400), Err(TracingPageError::SplitPreconditions));
    assert_eq!(page.split(0, 0x2000), Err(TracingPageError::EntrySizeMismatch));
    assert_eq!(page.iterate(), vec![free(0x1000, 0x1000)]);
}

#[test]
fn full_page_overflows_its_last_entry() {
    let mut page = TracingPage::new();
    page.fill_taken(0x10000, 0x10000, 0x10);
    assert!(page.is_full());
    assert_eq!(page.size(), METADATA_ARRAY_SIZE);
    let last = page.entry_at(METADATA_ARRAY_SIZE - 1);
    let overflow = page.push(taken(0x1000, 0x10));
    assert_eq!(overflow, Some(last));
    assert_eq!(page.entry_at(0), taken(0x1000, 0x10));
    assert_eq!(page.append(taken(0x10_0000_0000, 0x10)), Some(taken(0x10_0000_0000, 0x10)));
}

#[test]
fn alternate_fill() {
    let mut page = TracingPage::new();
    page.fill_alternate(0x10000, 0x10000, 0x10);
    assert!(page.entry_at(0).is_taken());
    assert!(page.entry_at(1).is_free());
    assert_eq!(page.entry_at(2).lower_paddr(), 0x10020);
    page.clear();
    assert!(page.is_empty());
}

#[test]
fn contains_paddr_bounds() {
    let page = page_of(&[taken(0x1000, 0x1000), free(0x2000, 0x1000)]);
    assert!(page.contains_paddr(0x3000));
    assert!(!page.contains_paddr_strict(0x3000));
    assert!(page.contains_paddr_strict(0x1000));
    assert!(!page.contains_paddr(0xFFF));
    assert_eq!(page.lower_paddr(), 0x1000);
    assert_eq!(page.higher_paddr(), 0x3000);
}

#[test]
fn info_sizes() {
    let mut info = Info::Free(0x10);
    info.add_size(0x10);
    assert_eq!(info.size(), 0x20);
    info.sub_size(0x8);
    assert_eq!(info, Info::Free(0x18));
    assert!(Info::Uninit.is_none());
}

#[test]
fn insert_merges_a_free_entry_with_both_free_neighbours() {
    let mut page = page_of(&[
        Metadata::new_free(0x1000, 0xA000, 0x100),
        Metadata::new_free(0x1200, 0xA200, 0x100),
    ]);
    let r = page.insert(Metadata::new_free(0x1100, 0xA100, 0x100));
    assert!(r.unwrap().is_none());
    assert_eq!(page.size(), 1);
    let md = page.entry_at(0);
    assert!(md.is_free());
    assert_eq!((md.lower_paddr(), md.lower_laddr(), md.size()), (0x1000, 0xA000, 0x300));
    assert!(page.metadata[1].is_none());
}

#[test]
fn remove_from_inside_a_free_entry_over_the_next_taken_entry() {
    let mut page = page_of(&[
        Metadata::new_free(0x1000, 0xA000, 0x100),
        Metadata::new_taken(0x1100, 0xA100, 0x100),
    ]);
    let r = page.remove(0x1040, 0x1C0);
    assert!(matches!(r, Ok(Reminder::Zero)));
    assert_eq!(page.size(), 1);
    let md = page.entry_at(0);
    assert!(md.is_free());
    assert_eq!((md.lower_paddr(), md.lower_laddr(), md.size()), (0x1000, 0xA000, 0x40));
    assert!(page.metadata[1].is_none());
}

#[test]
fn remove_from_inside_the_last_free_entry_goes_on_in_the_next_page() {
    let mut page = page_of(&[Metadata::new_free(0x1000, 0xA000, 0x100)]);
    match page.remove(0x1040, 0x140) {
        Ok(Reminder::Negative(md)) => {
            assert_eq!((md.lower_paddr(), md.lower_laddr(), md.size()), (0x1100, 0xA100, 0x80));
        },
        _ => panic!("expected a reminder for the next page"),
    }
    assert_eq!(page.entry_at(0).size(), 0x40);
}

#[test]
fn split_before_the_last_entry_of_a_full_page_hands_back_the_last_entry() {
    let entries: Vec<Metadata> = (0..METADATA_ARRAY_SIZE as u64).map(|k| taken(0x1000 + 0x20 * k, 0x20)).collect();
    let mut page = page_of(&entries);
    let n = METADATA_ARRAY_SIZE;
    let r = page.split(n - 2, 0x10);
    let last = r.unwrap().unwrap();
    assert_eq!(last.lower_paddr(), entries[n - 1].lower_paddr());
    assert_eq!(page.size(), n);
    assert_eq!(page.entry_at(n - 2).size(), 0x10);
    assert_eq!(page.entry_at(n - 1).lower_paddr(), entries[n - 2].lower_paddr() + 0x10);
    assert_eq!(page.entry_at(n - 1).size(), 0x10);
    assert!(page.entry_at(n - 1).is_taken());
}

#[test]
fn take_middle_near_the_end_of_an_almost_full_page_hands_back_the_last_entries() {
    let n = METADATA_ARRAY_SIZE - 1;
    let mut entries: Vec<Metadata> = (0..n as u64).map(|k| taken(0x1000 + 0x40 * k, 0x40)).collect();
    let i = n - 3;
    entries[i] = free(0x1000 + 0x40 * i as u64, 0x40);
    let mut page = page_of(&entries);
    let p = entries[i].lower_paddr();
    let mut excess = page.take(p + 0x10, 0x10).unwrap();
    assert_eq!(page.size(), n);
    assert_eq!(page.entry_at(i).size(), 0x10);
    assert!(page.entry_at(i + 1).is_taken());
    assert_eq!(page.entry_at(i + 1).lower_paddr(), p + 0x10);
    assert_eq!(page.entry_at(i + 2).lower_paddr(), p + 0x20);
    assert!(page.entry_at(i + 2).is_free());
    assert_eq!(excess.pop().unwrap().lower_paddr(), entries[n - 2].lower_paddr());
    assert_eq!(excess.pop().unwrap().lower_paddr(), entries[n - 1].lower_paddr());
    assert!(excess.is_none());
}

#[test]
fn insert_merges_a_free_entry_with_the_free_entry_after_a_taken_one() {
    let mut page = page_of(&[
        Metadata::new_taken(0x1000, 0xA000, 0x100),
        Metadata::new_free(0x1200, 0xA200, 0x100),
    ]);
    let r = page.insert(Metadata::new_free(0x1100, 0xA100, 0x100));
    assert!(r.unwrap().is_none());
    assert_eq!(page.size(), 2);
    let md = page.entry_at(1);
    assert!(md.is_free());
    assert_eq!((md.lower_paddr(), md.lower_laddr(), md.size()), (0x1100, 0xA100, 0x200));
}

#[test]
fn remove_entry_sized_run_from_inside_an_entry() {
    // 0x100 Bytes from 0x1040: the upper 0xC0 Bytes of the first entry and
    // the lower 0x40 Bytes of the contiguous free entry after it
    let mut page = page_of(&[free(0x1000, 0x100), free(0x1100, 0x100)]);
    assert_eq!(page.remove(0x1040, 0x100), Ok(Reminder::Zero));
    assert_eq!(page.iterate(), vec![free(0x1000, 0x40), free(0x1140, 0xC0)]);
    // on the last entry, what lies beyond the page is left to the next one
    let mut page = page_of(&[free(0x1000, 0x100)]);
    assert_eq!(page.remove(0x1040, 0x100), Ok(Reminder::Negative(free(0x1100, 0x40))));
    assert_eq!(page.iterate(), vec![free(0x1000, 0x40)]);
}
