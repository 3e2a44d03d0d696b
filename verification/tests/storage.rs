use artisan::archetype::{BlobVec, Column, ItemLayout};

fn layout(size: usize, align: usize) -> ItemLayout {
    ItemLayout::from_size_align(size, align).unwrap()
}

#[test]
fn layout_accepts_power_of_two_alignments() {
    assert_eq!(ItemLayout::from_size_align(12, 4), Some(ItemLayout { size: 12, align: 4 }));
    assert_eq!(ItemLayout::from_size_align(0, 1), Some(ItemLayout { size: 0, align: 1 }));
    assert_eq!(ItemLayout::from_size_align(8, 3), None);
    assert_eq!(ItemLayout::from_size_align(8, 0), None);
    assert_eq!(ItemLayout::from_size_align(usize::MAX, 8), None);
}

#[test]
fn blob_vec_push_get_and_capacity_growth() {
    let mut b = BlobVec::new(layout(4, 4), 0);
    assert!(b.is_empty());
    assert_eq!(b.capacity(), 0);
    assert_eq!(b.item_size(), 4);
    assert_eq!(b.item_layout(), layout(4, 4));
    b.push_raw(&[1, 2, 3, 4]);
    assert_eq!(b.capacity(), 8);
    for i in 0..8u8 {
        b.push_raw(&[i, i, i, i]);
    }
    assert_eq!(b.len(), 9);
    assert_eq!(b.capacity(), 16);
    assert_eq!(b.get_raw(0), &vec![1, 2, 3, 4]);
    assert_eq!(b.get_raw(8), &vec![7, 7, 7, 7]);
}

#[test]
fn blob_vec_zero_sized_items_never_grow() {
    let mut b = BlobVec::new(layout(0, 1), 4);
    assert_eq!(b.capacity(), usize::MAX);
    b.push_raw(&[]);
    b.push_raw(&[]);
    assert_eq!(b.len(), 2);
    assert_eq!(b.capacity(), usize::MAX);
}

#[test]
fn blob_vec_swap_remove_moves_last_row() {
    let mut b = BlobVec::new(layout(1, 1), 4);
    b.push_raw(&[10]);
    b.push_raw(&[20]);
    b.push_raw(&[30]);
    let out = b.swap_remove_forget(0);
    assert_eq!(out, vec![10]);
    assert_eq!(b.as_ptr(), &[vec![30], vec![20]][..]);
    b.swap_remove_drop(1);
    assert_eq!(b.as_ptr(), &[vec![30]][..]);
    b.swap_remove_forget_no_copy(0);
    assert!(b.is_empty());
}

#[test]
fn blob_vec_write_and_clear() {
    let mut b = BlobVec::new(layout(2, 2), 2);
    b.push_raw(&[1, 1]);
    b.write_raw(0, &[9, 9]);
    assert_eq!(b.get_raw(0), &vec![9, 9]);
    b.clear();
    assert_eq!(b.len(), 0);
    assert_eq!(b.capacity(), 2);
}

#[test]
fn array_layout_multiplies_the_size() {
    let l = BlobVec::array_layout(layout(12, 4), 10);
    assert_eq!(l, ItemLayout { size: 128, align: 64 });
}

#[test]
fn column_swap_remove_keeps_ticks_with_values() {
    let mut c = Column::new(layout(1, 1), 4);
    assert_eq!(c.last_added_tick, 0);
    c.data.push_raw(&[1]);
    c.added_ticks.push(5);
    c.changed_ticks.push(6);
    c.data.push_raw(&[2]);
    c.added_ticks.push(7);
    c.changed_ticks.push(8);
    let (v, added, changed) = c.swap_remove_forget(0);
    assert_eq!((v, added, changed), (vec![1], 5, 6));
    assert_eq!(c.added_ticks, vec![7]);
    assert_eq!(c.changed_ticks, vec![8]);
    c.clear();
    assert_eq!(c.data.len(), 0);
    assert!(c.added_ticks.is_empty());
}
