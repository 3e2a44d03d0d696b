use vstd::prelude::*;

use crate::entity::Entity;

verus! {

/// The size and alignment of one component value, as `std::alloc::Layout`
/// describes them.
#[derive(Clone, Copy, PartialEq, Eq, Structural, Debug)]
pub struct ItemLayout {
    pub size: usize,
    pub align: usize,
}

/// `n` is a power of two.
pub open spec fn is_power_of_two(n: usize) -> bool {
    n > 0 && n & ((n - 1) as usize) == 0
}

/// The largest size that a layout of alignment `align` may have: its size,
/// rounded up to `align`, must not exceed `isize::MAX`.
pub open spec fn max_size_for_align(align: usize) -> int {
    isize::MAX as int - (align as int - 1)
}

/// `x` rounded up to the next multiple of `align`.
pub open spec fn round_up(x: int, align: int) -> int {
    (x + align - 1) / align * align
}

impl ItemLayout {
    /// The conditions under which `Layout::from_size_align` accepts a pair.
    pub open spec fn valid(self) -> bool {
        &&& is_power_of_two(self.align)
        &&& self.size as int <= max_size_for_align(self.align)
    }

    /// The layout of `size` bytes at alignment `align`, or `None` where
    /// `align` is not a power of two or the rounded size would pass
    /// `isize::MAX`.
    pub fn from_size_align(size: usize, align: usize) -> (r: Option<ItemLayout>)
        ensures
            r is Some <==> (ItemLayout { size, align }).valid(),
            r matches Some(l) ==> l == (ItemLayout { size, align }),
    {
        if align == 0 {
            return None;
        }
        let mask: usize = align - 1;
        if align & mask != 0 {
            return None;
        }
        if (size as u128) + (mask as u128) > (isize::MAX as u128) {
            return None;
        }
        Some(ItemLayout { size, align })
    }
}

/// Type-erased storage of equally sized component values, one per row.
///
/// Each row holds the bytes of one value. The logical capacity follows the
/// growth policy of the storage: zero-sized items never need room, others
/// start at the requested capacity and double (from 8 when empty).
pub struct BlobVec {
    items: Vec<Vec<u8>>,
    cap: usize,
    item_layout: ItemLayout,
}

impl BlobVec {
    /// The rows, each as its bytes.
    pub closed spec fn view(&self) -> Seq<Seq<u8>> {
        self.items@.map_values(|v: Vec<u8>| v@)
    }

    pub closed spec fn spec_capacity(&self) -> usize {
        self.cap
    }

    pub closed spec fn spec_item_layout(&self) -> ItemLayout {
        self.item_layout
    }

    /// Every row holds exactly one item's worth of bytes, and the rows fit in
    /// the capacity.
    pub closed spec fn wf(&self) -> bool {
        &&& forall|i: int| 0 <= i < self.items@.len() ==> #[trigger] self.items@[i]@.len()
            == self.item_layout.size
        &&& self.items@.len() <= self.cap
        &&& self.item_layout.size == 0 ==> self.cap == usize::MAX
    }

    /// The row count stays below the capacity.
    pub proof fn lemma_wf(&self)
        requires
            self.wf(),
        ensures
            self.view().len() <= self.spec_capacity(),
            forall|i: int| 0 <= i < self.view().len() ==> #[trigger] self.view()[i].len()
                == self.spec_item_layout().size,
            self.spec_item_layout().size == 0 ==> self.spec_capacity() == usize::MAX,
    {
    }

    /// Empty storage for items of `item_layout`; zero-sized items get an
    /// unbounded capacity, others `initial_cap`.
    pub fn new(item_layout: ItemLayout, initial_cap: usize) -> (r: BlobVec)
        ensures
            r.wf(),
            r@ == Seq::<Seq<u8>>::empty(),
            r.spec_item_layout() == item_layout,
            r.spec_capacity() == if item_layout.size == 0 { usize::MAX } else { initial_cap },
    {
        let cap = if item_layout.size == 0 { usize::MAX } else { initial_cap };
        let r = BlobVec { items: Vec::new(), cap, item_layout };
        assert(r@ =~= Seq::<Seq<u8>>::empty());
        r
    }

    pub fn len(&self) -> (n: usize)
        ensures
            n == self@.len(),
    {
        self.items.len()
    }

    pub fn is_empty(&self) -> (b: bool)
        ensures
            b <==> self@.len() == 0,
    {
        self.items.len() == 0
    }

    pub fn capacity(&self) -> (c: usize)
        ensures
            c == self.spec_capacity(),
    {
        self.cap
    }

    pub fn item_layout(&self) -> (l: ItemLayout)
        ensures
            l == self.spec_item_layout(),
    {
        self.item_layout
    }

    pub fn item_size(&self) -> (s: usize)
        ensures
            s == self.spec_item_layout().size,
    {
        self.item_layout.size
    }

    /// All rows, from the first on.
    pub fn as_ptr(&self) -> (rows: &[Vec<u8>])
        ensures
            rows@.map_values(|v: Vec<u8>| v@) == self@,
    {
        self.items.as_slice()
    }

    /// The bytes of row `row`.
    pub fn get_raw(&self, row: usize) -> (bytes: &Vec<u8>)
        requires
            row < self@.len(),
        ensures
            bytes@ == self@[row as int],
    {
        &self.items[row]
    }

    /// Overwrites row `row` with `value`.
    pub fn write_raw(&mut self, row: usize, value: &[u8])
        requires
            old(self).wf(),
            row < old(self)@.len(),
            value@.len() == old(self).spec_item_layout().size,
        ensures
            final(self).wf(),
            final(self)@ == old(self)@.update(row as int, value@),
            final(self).spec_capacity() == old(self).spec_capacity(),
            final(self).spec_item_layout() == old(self).spec_item_layout(),
    {
        let v = vstd::slice::slice_to_vec(value);
        self.items.set(row, v);
        assert(self@ =~= old(self)@.update(row as int, value@));
    }

    /// Appends `value` as a new last row, growing the capacity when full.
    pub fn push_raw(&mut self, value: &[u8])
        requires
            old(self).wf(),
            value@.len() == old(self).spec_item_layout().size,
            old(self)@.len() < usize::MAX,
        ensures
            final(self).wf(),
            final(self)@ == old(self)@.push(value@),
            final(self).spec_item_layout() == old(self).spec_item_layout(),
            final(self).spec_capacity() == if old(self)@.len() < old(self).spec_capacity() {
                old(self).spec_capacity()
            } else {
                grown_capacity(old(self).spec_capacity())
            },
    {
        if self.items.len() == self.cap {
            self.grow();
        }
        let v = vstd::slice::slice_to_vec(value);
        self.items.push(v);
        assert(self@ =~= old(self)@.push(value@));
    }

    /// Removes row `row`, moving the last row into its place.
    pub fn swap_remove_drop(&mut self, row: usize)
        requires
            old(self).wf(),
            row < old(self)@.len(),
        ensures
            final(self).wf(),
            final(self)@ == swap_removed(old(self)@, row as int),
            final(self).spec_capacity() == old(self).spec_capacity(),
            final(self).spec_item_layout() == old(self).spec_item_layout(),
    {
        let _ = self.items.swap_remove(row);
        assert(self@ =~= swap_removed(old(self)@, row as int));
    }

    /// Removes row `row` as `swap_remove_drop` does and hands its bytes back.
    pub fn swap_remove_forget(&mut self, row: usize) -> (out: Vec<u8>)
        requires
            old(self).wf(),
            row < old(self)@.len(),
        ensures
            final(self).wf(),
            out@ == old(self)@[row as int],
            final(self)@ == swap_removed(old(self)@, row as int),
            final(self).spec_capacity() == old(self).spec_capacity(),
            final(self).spec_item_layout() == old(self).spec_item_layout(),
    {
        let out = self.items.swap_remove(row);
        assert(self@ =~= swap_removed(old(self)@, row as int));
        out
    }

    /// Removes row `row` after its value was moved elsewhere.
    pub fn swap_remove_forget_no_copy(&mut self, row: usize)
        requires
            old(self).wf(),
            row < old(self)@.len(),
        ensures
            final(self).wf(),
            final(self)@ == swap_removed(old(self)@, row as int),
            final(self).spec_capacity() == old(self).spec_capacity(),
            final(self).spec_item_layout() == old(self).spec_item_layout(),
    {
        let _ = self.items.swap_remove(row);
        assert(self@ =~= swap_removed(old(self)@, row as int));
    }

    /// Removes every row; the capacity stays.
    pub fn clear(&mut self)
        requires
            old(self).wf(),
        ensures
            final(self).wf(),
            final(self)@ == Seq::<Seq<u8>>::empty(),
            final(self).spec_capacity() == old(self).spec_capacity(),
            final(self).spec_item_layout() == old(self).spec_item_layout(),
    {
        self.items.clear();
        assert(self@ =~= Seq::<Seq<u8>>::empty());
    }

    fn grow(&mut self)
        requires
            old(self).wf(),
            old(self)@.len() == old(self).spec_capacity(),
            old(self)@.len() < usize::MAX,
        ensures
            final(self).wf(),
            final(self)@ == old(self)@,
            final(self).spec_capacity() == grown_capacity(old(self).spec_capacity()),
            final(self).spec_item_layout() == old(self).spec_item_layout(),
            final(self)@.len() < final(self).spec_capacity(),
    {
        let new_cap = if self.cap == 0 {
            8
        } else if self.cap <= usize::MAX / 2 {
            self.cap * 2
        } else {
            usize::MAX
        };
        self.cap = new_cap;
    }

    /// The allocation layout of `count` items of `item`: aligned to at least
    /// a cache line (64 bytes), its size the items' total rounded up to that
    /// alignment.
    pub fn array_layout(item: ItemLayout, count: usize) -> (l: ItemLayout)
        requires
            item.valid(),
            item.size * count + array_align(item) - 1 <= usize::MAX,
            round_up(item.size * count, array_align(item) as int) <= max_size_for_align(
                array_align(item),
            ),
        ensures
            l.align == array_align(item),
            l.size == round_up(item.size * count, l.align as int),
            l.valid(),
    {
        let align: usize = if item.align < 64 { 64 } else { item.align };
        proof {
            lemma_pow2_ge_one(item.align);
            lemma_pow2_64();
        }
        assert(is_power_of_two(align));
        let total: usize = item.size * count;
        let y: usize = total + (align - 1);
        let q: usize = y / align;
        proof {
            vstd::arithmetic::div_mod::lemma_fundamental_div_mod(y as int, align as int);
            vstd::arithmetic::mul::lemma_mul_is_commutative(q as int, align as int);
        }
        let size: usize = q * align;
        ItemLayout { size, align }
    }
}

/// The alignment that `BlobVec::array_layout` gives storage of `item`.
pub open spec fn array_align(item: ItemLayout) -> usize {
    if item.align < 64 { 64 } else { item.align }
}

proof fn lemma_pow2_ge_one(a: usize)
    requires
        is_power_of_two(a),
    ensures
        a >= 1,
{
}

proof fn lemma_pow2_64()
    ensures
        is_power_of_two(64),
{
    assert(64usize & 63usize == 0) by (bit_vector);
}


/// One component's storage inside an archetype: the values, and per row the
/// tick at which the value was added and the tick of its last change, plus
/// the latest such ticks of the whole column.
pub struct Column {
    pub data: BlobVec,
    pub added_ticks: Vec<u32>,
    pub changed_ticks: Vec<u32>,
    pub last_added_tick: u32,
    pub last_changed_tick: u32,
}

impl Column {
    /// The values and the tick lists have one entry per row.
    pub open spec fn wf(&self) -> bool {
        &&& self.data.wf()
        &&& self.added_ticks@.len() == self.data@.len()
        &&& self.changed_ticks@.len() == self.data@.len()
    }

    pub open spec fn len(&self) -> nat {
        self.data@.len()
    }

    /// An empty column for values of `layout`.
    pub fn new(layout: ItemLayout, initial_cap: usize) -> (c: Column)
        ensures
            c.wf(),
            c.data@ == Seq::<Seq<u8>>::empty(),
            c.data.spec_item_layout() == layout,
            c.data.spec_capacity() == if layout.size == 0 { usize::MAX } else { initial_cap },
            c.last_added_tick == 0,
            c.last_changed_tick == 0,
    {
        Column {
            data: BlobVec::new(layout, initial_cap),
            added_ticks: Vec::with_capacity(initial_cap),
            changed_ticks: Vec::with_capacity(initial_cap),
            last_added_tick: 0,
            last_changed_tick: 0,
        }
    }

    /// Removes row `row` from values and ticks alike, the last row taking its
    /// place.
    pub fn swap_remove_drop(&mut self, row: usize)
        requires
            old(self).wf(),
            row < old(self).len(),
        ensures
            final(self).wf(),
            final(self).data@ == swap_removed(old(self).data@, row as int),
            final(self).added_ticks@ == swap_removed(old(self).added_ticks@, row as int),
            final(self).changed_ticks@ == swap_removed(old(self).changed_ticks@, row as int),
            final(self).data.spec_item_layout() == old(self).data.spec_item_layout(),
            final(self).data.spec_capacity() == old(self).data.spec_capacity(),
            final(self).last_added_tick == old(self).last_added_tick,
            final(self).last_changed_tick == old(self).last_changed_tick,
    {
        self.data.swap_remove_drop(row);
        self.added_ticks.swap_remove(row);
        self.changed_ticks.swap_remove(row);
    }

    /// Removes row `row` and hands back its value with its added and changed
    /// ticks.
    pub fn swap_remove_forget(&mut self, row: usize) -> (r: (Vec<u8>, u32, u32))
        requires
            old(self).wf(),
            row < old(self).len(),
        ensures
            final(self).wf(),
            r.0@ == old(self).data@[row as int],
            r.1 == old(self).added_ticks@[row as int],
            r.2 == old(self).changed_ticks@[row as int],
            final(self).data@ == swap_removed(old(self).data@, row as int),
            final(self).added_ticks@ == swap_removed(old(self).added_ticks@, row as int),
            final(self).changed_ticks@ == swap_removed(old(self).changed_ticks@, row as int),
            final(self).data.spec_item_layout() == old(self).data.spec_item_layout(),
            final(self).data.spec_capacity() == old(self).data.spec_capacity(),
            final(self).last_added_tick == old(self).last_added_tick,
            final(self).last_changed_tick == old(self).last_changed_tick,
    {
        let v = self.data.swap_remove_forget(row);
        let added = self.added_ticks.swap_remove(row);
        let changed = self.changed_ticks.swap_remove(row);
        (v, added, changed)
    }

    /// Removes row `row`, whose value was copied elsewhere, and hands back its
    /// ticks.
    pub fn swap_remove_forget_no_copy(&mut self, row: usize) -> (r: (u32, u32))
        requires
            old(self).wf(),
            row < old(self).len(),
        ensures
            final(self).wf(),
            r.0 == old(self).added_ticks@[row as int],
            r.1 == old(self).changed_ticks@[row as int],
            final(self).data@ == swap_removed(old(self).data@, row as int),
            final(self).added_ticks@ == swap_removed(old(self).added_ticks@, row as int),
            final(self).changed_ticks@ == swap_removed(old(self).changed_ticks@, row as int),
            final(self).data.spec_item_layout() == old(self).data.spec_item_layout(),
            final(self).data.spec_capacity() == old(self).data.spec_capacity(),
            final(self).last_added_tick == old(self).last_added_tick,
            final(self).last_changed_tick == old(self).last_changed_tick,
    {
        self.data.swap_remove_forget_no_copy(row);
        let added = self.added_ticks.swap_remove(row);
        let changed = self.changed_ticks.swap_remove(row);
        (added, changed)
    }

    /// Removes every row.
    pub fn clear(&mut self)
        requires
            old(self).wf(),
        ensures
            final(self).wf(),
            final(self).data@ == Seq::<Seq<u8>>::empty(),
            final(self).added_ticks@ == Seq::<u32>::empty(),
            final(self).changed_ticks@ == Seq::<u32>::empty(),
            final(self).data.spec_item_layout() == old(self).data.spec_item_layout(),
            final(self).data.spec_capacity() == old(self).data.spec_capacity(),
            final(self).last_added_tick == old(self).last_added_tick,
            final(self).last_changed_tick == old(self).last_changed_tick,
    {
        self.data.clear();
        self.added_ticks.clear();
        self.changed_ticks.clear();
    }
}

/// The entities that share one set of components, with one column per
/// component of the signature and cached moves to neighbouring archetypes.
pub struct Archetype {
    pub id: u32,
    pub last_modified_tick: u32,
    pub entities: Vec<Entity>,
    pub columns: Vec<Column>,
    pub signature: Vec<usize>,
    pub component_to_column: Vec<u32>,
    pub add_edges: Vec<(usize, u32)>,
    pub remove_edges: Vec<(usize, u32)>,
}


/// Marks a component absent from an archetype in `component_to_column`.
pub const NO_COLUMN: u32 = 0xffff_ffff;

/// Each element of `s` is smaller than the next.
pub open spec fn strictly_sorted(s: Seq<usize>) -> bool {
    forall|i: int, j: int| 0 <= i < j < s.len() ==> s[i] < s[j]
}

/// One row taken out of an archetype: per column, the value with its added
/// and changed ticks.
pub open spec fn row_cells(cells: Seq<(Vec<u8>, u32, u32)>) -> Seq<(Seq<u8>, u32, u32)> {
    cells.map_values(|c: (Vec<u8>, u32, u32)| (c.0@, c.1, c.2))
}

impl Archetype {
    pub open spec fn len(&self) -> nat {
        self.entities@.len()
    }

    /// The signature lists component `c`.
    pub open spec fn has_component(&self, c: usize) -> bool {
        self.signature@.contains(c)
    }

    /// The column of component `c`.
    pub open spec fn col_of(&self, c: usize) -> int {
        self.component_to_column@[c as int] as int
    }

    /// Every column is sound and holds one row per entity.
    pub open spec fn columns_wf(&self) -> bool {
        forall|i: int|
            0 <= i < self.columns@.len() ==> {
                &&& (#[trigger] self.columns@[i]).wf()
                &&& self.columns@[i].len() == self.entities@.len()
            }
    }

    /// The archetype stored at index `idx` of a world whose components have
    /// `layouts`: its signature is sorted without repeats, and
    /// `component_to_column` and the columns follow it.
    pub open spec fn wf(&self, idx: int, layouts: Seq<ItemLayout>) -> bool {
        &&& self.id == idx
        &&& strictly_sorted(self.signature@)
        &&& forall|i: int| 0 <= i < self.signature@.len() ==> #[trigger] self.signature@[i] < layouts.len()
        &&& self.columns@.len() == self.signature@.len()
        &&& self.component_to_column@.len() == layouts.len()
        &&& forall|i: int|
            0 <= i < self.signature@.len() ==> self.component_to_column@[#[trigger] self.signature@[i] as int]
                == i
        &&& forall|c: int|
            0 <= c < layouts.len() ==> {
                ||| #[trigger] self.component_to_column@[c] == NO_COLUMN
                ||| (self.component_to_column@[c] < self.signature@.len()
                    && self.signature@[self.component_to_column@[c] as int] == c)
            }
        &&& self.columns_wf()
        &&& forall|i: int|
            0 <= i < self.columns@.len() ==> (#[trigger] self.columns@[i]).data.spec_item_layout()
                == layouts[self.signature@[i] as int]
    }

    /// Takes row `row` out of every column (the last row moving into its
    /// place) and out of the entity list, and hands the row's cells back in
    /// column order.
    pub fn take_row(&mut self, row: usize) -> (cells: Vec<(Vec<u8>, u32, u32)>)
        requires
            old(self).columns_wf(),
            row < old(self).len(),
        ensures
            final(self).columns_wf(),
            cells@.len() == old(self).columns@.len(),
            forall|i: int|
                0 <= i < cells@.len() ==> row_cells(cells@)[i] == (
                    old(self).columns@[i].data@[row as int],
                    old(self).columns@[i].added_ticks@[row as int],
                    old(self).columns@[i].changed_ticks@[row as int],
                ),
            final(self).entities@ == swap_removed(old(self).entities@, row as int),
            final(self).columns@.len() == old(self).columns@.len(),
            forall|i: int|
                0 <= i < old(self).columns@.len() ==> {
                    &&& (#[trigger] final(self).columns@[i]).data@ == swap_removed(
                        old(self).columns@[i].data@,
                        row as int,
                    )
                    &&& final(self).columns@[i].added_ticks@ == swap_removed(
                        old(self).columns@[i].added_ticks@,
                        row as int,
                    )
                    &&& final(self).columns@[i].changed_ticks@ == swap_removed(
                        old(self).columns@[i].changed_ticks@,
                        row as int,
                    )
                    &&& final(self).columns@[i].data.spec_item_layout() == old(
                        self,
                    ).columns@[i].data.spec_item_layout()
                    &&& final(self).columns@[i].last_added_tick == old(
                        self,
                    ).columns@[i].last_added_tick
                    &&& final(self).columns@[i].last_changed_tick == old(
                        self,
                    ).columns@[i].last_changed_tick
                },
            final(self).id == old(self).id,
            final(self).last_modified_tick == old(self).last_modified_tick,
            final(self).signature == old(self).signature,
            final(self).component_to_column == old(self).component_to_column,
            final(self).add_edges == old(self).add_edges,
            final(self).remove_edges == old(self).remove_edges,
    {
        let mut cells: Vec<(Vec<u8>, u32, u32)> = Vec::new();
        let n = self.columns.len();
        let mut i: usize = 0;
        while i < n
            invariant
                n == old(self).columns@.len(),
                self.columns@.len() == n,
                0 <= i <= n,
                cells@.len() == i,
                row < old(self).len(),
                self.entities == old(self).entities,
                old(self).columns_wf(),
                forall|j: int|
                    0 <= j < i ==> row_cells(cells@)[j] == (
                        old(self).columns@[j].data@[row as int],
                        old(self).columns@[j].added_ticks@[row as int],
                        old(self).columns@[j].changed_ticks@[row as int],
                    ),
                forall|j: int|
                    i <= j < n ==> #[trigger] self.columns@[j] == old(self).columns@[j],
                forall|j: int|
                    0 <= j < i ==> {
                        &&& (#[trigger] self.columns@[j]).wf()
                        &&& self.columns@[j].data@ == swap_removed(
                            old(self).columns@[j].data@,
                            row as int,
                        )
                        &&& self.columns@[j].added_ticks@ == swap_removed(
                            old(self).columns@[j].added_ticks@,
                            row as int,
                        )
                        &&& self.columns@[j].changed_ticks@ == swap_removed(
                            old(self).columns@[j].changed_ticks@,
                            row as int,
                        )
                        &&& self.columns@[j].data.spec_item_layout() == old(
                            self,
                        ).columns@[j].data.spec_item_layout()
                        &&& self.columns@[j].last_added_tick == old(self).columns@[j].last_added_tick
                        &&& self.columns@[j].last_changed_tick == old(
                            self,
                        ).columns@[j].last_changed_tick
                    },
                self.id == old(self).id,
                self.last_modified_tick == old(self).last_modified_tick,
                self.signature == old(self).signature,
                self.component_to_column == old(self).component_to_column,
                self.add_edges == old(self).add_edges,
                self.remove_edges == old(self).remove_edges,
            decreases n - i,
        {
            assert(self.columns@[i as int].wf() && self.columns@[i as int].len() == old(self).len());
            let cell = self.columns[i].swap_remove_forget(row);
            let ghost prev = cells@;
            cells.push(cell);
            assert(row_cells(cells@) =~= row_cells(prev).push((cell.0@, cell.1, cell.2)));
            i = i + 1;
        }
        self.entities.swap_remove(row);
        cells
    }

    /// Appends `entity` as a new last row, with `cells` as the values and
    /// ticks of its columns in column order.
    pub fn push_row(&mut self, entity: Entity, cells: Vec<(Vec<u8>, u32, u32)>)
        requires
            old(self).columns_wf(),
            cells@.len() == old(self).columns@.len(),
            old(self).len() < usize::MAX,
            forall|i: int|
                0 <= i < cells@.len() ==> (#[trigger] cells@[i]).0@.len() == old(
                    self,
                ).columns@[i].data.spec_item_layout().size,
        ensures
            final(self).columns_wf(),
            final(self).entities@ == old(self).entities@.push(entity),
            final(self).columns@.len() == old(self).columns@.len(),
            forall|i: int|
                0 <= i < old(self).columns@.len() ==> {
                    &&& (#[trigger] final(self).columns@[i]).data@ == old(self).columns@[i].data@.push(
                        row_cells(cells@)[i].0,
                    )
                    &&& final(self).columns@[i].added_ticks@ == old(
                        self,
                    ).columns@[i].added_ticks@.push(cells@[i].1)
                    &&& final(self).columns@[i].changed_ticks@ == old(
                        self,
                    ).columns@[i].changed_ticks@.push(cells@[i].2)
                    &&& final(self).columns@[i].data.spec_item_layout() == old(
                        self,
                    ).columns@[i].data.spec_item_layout()
                    &&& final(self).columns@[i].last_added_tick == old(
                        self,
                    ).columns@[i].last_added_tick
                    &&& final(self).columns@[i].last_changed_tick == old(
                        self,
                    ).columns@[i].last_changed_tick
                },
            final(self).id == old(self).id,
            final(self).last_modified_tick == old(self).last_modified_tick,
            final(self).signature == old(self).signature,
            final(self).component_to_column == old(self).component_to_column,
            final(self).add_edges == old(self).add_edges,
            final(self).remove_edges == old(self).remove_edges,
    {
        let n = self.columns.len();
        let mut cells = cells;
        let ghost cells0 = cells@;
        let mut i: usize = 0;
        while i < n
            invariant
                n == old(self).columns@.len(),
                self.columns@.len() == n,
                0 <= i <= n,
                cells0.len() == n,
                cells@ == cells0.subrange(i as int, n as int),
                old(self).len() < usize::MAX,
                self.entities == old(self).entities,
                old(self).columns_wf(),
                forall|j: int|
                    0 <= j < n ==> (#[trigger] cells0[j]).0@.len() == old(
                        self,
                    ).columns@[j].data.spec_item_layout().size,
                forall|j: int|
                    i <= j < n ==> #[trigger] self.columns@[j] == old(self).columns@[j],
                forall|j: int|
                    0 <= j < i ==> {
                        &&& (#[trigger] self.columns@[j]).wf()
                        &&& self.columns@[j].data@ == old(self).columns@[j].data@.push(
                            cells0[j].0@,
                        )
                        &&& self.columns@[j].added_ticks@ == old(
                            self,
                        ).columns@[j].added_ticks@.push(cells0[j].1)
                        &&& self.columns@[j].changed_ticks@ == old(
                            self,
                        ).columns@[j].changed_ticks@.push(cells0[j].2)
                        &&& self.columns@[j].data.spec_item_layout() == old(
                            self,
                        ).columns@[j].data.spec_item_layout()
                        &&& self.columns@[j].last_added_tick == old(self).columns@[j].last_added_tick
                        &&& self.columns@[j].last_changed_tick == old(
                            self,
                        ).columns@[j].last_changed_tick
                    },
                self.id == old(self).id,
                self.last_modified_tick == old(self).last_modified_tick,
                self.signature == old(self).signature,
                self.component_to_column == old(self).component_to_column,
                self.add_edges == old(self).add_edges,
                self.remove_edges == old(self).remove_edges,
            decreases n - i,
        {
            assert(cells@[0] == cells0[i as int]);
            let cell = cells.remove(0);
            assert(cells@ =~= cells0.subrange(i + 1, n as int));
            assert(self.columns@[i as int].wf() && self.columns@[i as int].len() == old(self).len());
            self.columns[i].data.push_raw(cell.0.as_slice());
            self.columns[i].added_ticks.push(cell.1);
            self.columns[i].changed_ticks.push(cell.2);
            i = i + 1;
        }
        self.entities.push(entity);
    }
}

/// The capacity after one growth step from `cap`.
pub open spec fn grown_capacity(cap: usize) -> usize {
    if cap == 0 {
        8
    } else if cap <= usize::MAX / 2 {
        (cap * 2) as usize
    } else {
        usize::MAX
    }
}

/// `s` with its element `i` replaced by the last one, and the last one
/// dropped.
pub open spec fn swap_removed<A>(s: Seq<A>, i: int) -> Seq<A> {
    s.update(i, s.last()).drop_last()
}

} // verus!
