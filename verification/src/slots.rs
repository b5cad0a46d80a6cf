//! A fixed-capacity slot allocator, and a grid whose cells name slots.

use vstd::prelude::*;
use vstd::set_lib::set_int_range;
use crate::vector::UVec2;

verus! {

/// An unsigned integer type that can number slots and address grid cells.
///
/// Its largest value is never a slot number: a grid cell that holds it is empty.
pub trait SlotIndex: Copy + Sized {
    /// The value as a natural number.
    spec fn as_nat(&self) -> nat;

    /// The largest value of the type, as a natural number.
    spec fn max_nat() -> nat;

    /// Every value lies in `0..=max_nat()`, and equal numbers are equal values.
    proof fn lemma_as_nat(a: Self, b: Self)
        ensures
            a.as_nat() <= Self::max_nat(),
            a.as_nat() == b.as_nat() ==> a == b,
            Self::max_nat() <= usize::MAX,
    ;

    fn to_usize(&self) -> (r: usize)
        ensures
            r == self.as_nat(),
    ;

    fn from_usize(n: usize) -> (r: Self)
        requires
            n <= Self::max_nat(),
        ensures
            r.as_nat() == n,
    ;

    fn max_value() -> (r: Self)
        ensures
            r.as_nat() == Self::max_nat(),
    ;

    fn is_max(&self) -> (r: bool)
        ensures
            r == (self.as_nat() == Self::max_nat()),
    ;
}

impl SlotIndex for u8 {
    open spec fn as_nat(&self) -> nat {
        *self as nat
    }

    open spec fn max_nat() -> nat {
        u8::MAX as nat
    }

    proof fn lemma_as_nat(a: Self, b: Self) {
    }

    fn to_usize(&self) -> (r: usize)
        ensures
            r == *self,
    {
        *self as usize
    }

    fn from_usize(n: usize) -> (r: Self)
        ensures
            r == n,
    {
        n as u8
    }

    fn max_value() -> (r: Self)
        ensures
            r == u8::MAX,
    {
        u8::MAX
    }

    fn is_max(&self) -> (r: bool)
        ensures
            r == (*self == u8::MAX),
    {
        *self == u8::MAX
    }
}

impl SlotIndex for u16 {
    open spec fn as_nat(&self) -> nat {
        *self as nat
    }

    open spec fn max_nat() -> nat {
        u16::MAX as nat
    }

    proof fn lemma_as_nat(a: Self, b: Self) {
    }

    fn to_usize(&self) -> (r: usize)
        ensures
            r == *self,
    {
        *self as usize
    }

    fn from_usize(n: usize) -> (r: Self)
        ensures
            r == n,
    {
        n as u16
    }

    fn max_value() -> (r: Self)
        ensures
            r == u16::MAX,
    {
        u16::MAX
    }

    fn is_max(&self) -> (r: bool)
        ensures
            r == (*self == u16::MAX),
    {
        *self == u16::MAX
    }
}

impl SlotIndex for usize {
    open spec fn as_nat(&self) -> nat {
        *self as nat
    }

    open spec fn max_nat() -> nat {
        usize::MAX as nat
    }

    proof fn lemma_as_nat(a: Self, b: Self) {
    }

    fn to_usize(&self) -> (r: usize)
        ensures
            r == *self,
    {
        *self
    }

    fn from_usize(n: usize) -> (r: Self)
        ensures
            r == n,
    {
        n
    }

    fn max_value() -> (r: Self)
        ensures
            r == usize::MAX,
    {
        usize::MAX
    }

    fn is_max(&self) -> (r: bool)
        ensures
            r == (*self == usize::MAX),
    {
        *self == usize::MAX
    }
}

/// A sequence of distinct integers drawn from `0..n` has at most `n` elements.
proof fn lemma_distinct_below_len(s: Seq<int>, n: int)
    requires
        0 <= n,
        s.no_duplicates(),
        forall|i: int| 0 <= i < s.len() ==> 0 <= #[trigger] s[i] < n,
    ensures
        s.len() <= n,
{
    s.unique_seq_to_set();
    vstd::set_lib::lemma_int_range(0, n);
    assert(s.to_set().subset_of(set_int_range(0, n))) by {
        assert forall|k: int| s.to_set().contains(k) implies set_int_range(0, n).contains(k) by {
            let i = choose|i: int| 0 <= i < s.len() && s[i] == k;
            assert(0 <= s[i] < n);
        }
    }
    vstd::set_lib::lemma_len_subset(s.to_set(), set_int_range(0, n));
}

/// `N` slots, each empty or holding an item, and the list of empty slots.
///
/// `push` fills the slot at the end of the free list and `pop` puts a slot
/// back at its end, so the slot freed last is the one filled next.
pub struct Slots<T, S: SlotIndex, const N: usize> {
    slots: Vec<Option<T>>,
    free: Vec<S>,
}

impl<T, S: SlotIndex, const N: usize> Slots<T, S, N> {
    /// The content of each slot, indexed by slot number.
    pub closed spec fn items(&self) -> Seq<Option<T>> {
        self.slots@
    }

    /// Which slots hold an item, indexed by slot number.
    pub open spec fn occupied(&self) -> Seq<bool> {
        self.items().map_values(|o: Option<T>| o is Some)
    }

    /// The numbers of the occupied slots.
    pub open spec fn occupied_slots(&self) -> Set<int> {
        Set::new(|k: int| 0 <= k < N && self.items()[k] is Some)
    }

    /// The empty slots, in the order in which `push` takes them from the end.
    pub closed spec fn free_slots(&self) -> Seq<S> {
        self.free@
    }

    /// The numbers of the empty slots, in free-list order.
    pub open spec fn free_indices(&self) -> Seq<int> {
        self.free_slots().map_values(|s: S| s.as_nat() as int)
    }

    /// The slot structure is consistent: `N` slots whose numbers fit in `S`
    /// below its largest value, and a free list that names each empty slot
    /// exactly once and nothing else.
    pub open spec fn wf(&self) -> bool {
        &&& self.items().len() == N
        &&& N <= S::max_nat()
        &&& self.free_indices().no_duplicates()
        &&& forall|i: int| 0 <= i < self.free_indices().len() ==> 0 <= #[trigger] self.free_indices()[i] < N
        &&& forall|k: int| 0 <= k < N ==> (#[trigger] self.items()[k] is None <==> self.free_indices().contains(k))
    }

    /// The state right after construction: all slots empty, the free list `0, 1, .., N - 1`.
    pub open spec fn is_fresh(&self) -> bool {
        &&& self.items() == Seq::new(N as nat, |i: int| None::<T>)
        &&& self.free_indices() == Seq::new(N as nat, |i: int| i)
    }

    /// A full set of empty slots.
    pub fn new() -> (r: Self)
        requires
            N <= S::max_nat(),
        ensures
            r.wf(),
            r.is_fresh(),
    {
        let mut r = Slots { slots: Vec::new(), free: Vec::new() };
        r.fill_fresh();
        r
    }

    /// Empties every slot and resets the free list to `0, 1, .., N - 1`.
    pub fn init(&mut self)
        requires
            N <= S::max_nat(),
        ensures
            final(self).wf(),
            final(self).is_fresh(),
    {
        self.fill_fresh();
    }

    fn fill_fresh(&mut self)
        requires
            N <= S::max_nat(),
        ensures
            final(self).wf(),
            final(self).is_fresh(),
    {
        let mut slots: Vec<Option<T>> = Vec::new();
        let mut free: Vec<S> = Vec::new();
        let mut i: usize = 0;
        while i < N
            invariant
                i <= N,
                N <= S::max_nat(),
                slots@.len() == i,
                free@.len() == i,
                forall|j: int| 0 <= j < i ==> #[trigger] slots@[j] is None,
                forall|j: int| 0 <= j < i ==> (#[trigger] free@[j]).as_nat() == j,
            decreases N - i,
        {
            slots.push(None);
            free.push(S::from_usize(i));
            i = i + 1;
        }
        self.slots = slots;
        self.free = free;
        assert(self.items() =~= Seq::new(N as nat, |i: int| None::<T>));
        assert(self.free_indices() =~= Seq::new(N as nat, |i: int| i));
        assert forall|k: int| 0 <= k < N implies (#[trigger] self.items()[k] is None
            <==> self.free_indices().contains(k)) by {
            assert(self.free_indices()[k] == k);
        }
    }

    /// Puts `item` into the slot at the end of the free list and returns that
    /// slot; `Err(())` when every slot is occupied.
    pub fn push(&mut self, item: T) -> (r: Result<S, ()>)
        requires
            old(self).wf(),
        ensures
            final(self).wf(),
            r is Err <==> old(self).free_slots().len() == 0,
            r is Err <==> forall|k: int| 0 <= k < N ==> #[trigger] old(self).items()[k] is Some,
            r is Err ==> final(self).items() == old(self).items() && final(self).free_slots()
                == old(self).free_slots(),
            r matches Ok(s) ==> {
                &&& s == old(self).free_slots().last()
                &&& final(self).items() == old(self).items().update(s.as_nat() as int, Some(item))
                &&& final(self).free_slots() == old(self).free_slots().drop_last()
            },
    {
        proof {
            if self.free@.len() == 0 {
                assert forall|k: int| 0 <= k < N implies #[trigger] self.items()[k] is Some by {
                    assert(!self.free_indices().contains(k));
                }
            } else {
                let k = self.free_indices().last();
                assert(self.free_indices()[self.free_indices().len() - 1] == k);
                assert(self.items()[k] is None);
            }
        }
        match self.free.pop() {
            None => {
                proof {
                    assert(self.free@ =~= old(self).free@);
                }
                Err(())
            },
            Some(slot) => {
                let i = slot.to_usize();
                self.slots.set(i, Some(item));
                proof {
                    let old_free = old(self).free_indices();
                    assert(self.free_indices() =~= old_free.drop_last());
                    assert(old_free[old_free.len() - 1] == i);
                    assert forall|k: int| 0 <= k < N implies (#[trigger] self.items()[k] is None
                        <==> self.free_indices().contains(k)) by {
                        if k == i {
                            if self.free_indices().contains(k) {
                                let j = choose|j: int| 0 <= j < self.free_indices().len() && self.free_indices()[j] == k;
                                assert(old_free[j] == old_free[old_free.len() - 1]);
                            }
                        } else {
                            if old_free.contains(k) {
                                let j = choose|j: int| 0 <= j < old_free.len() && old_free[j] == k;
                                assert(self.free_indices()[j] == k);
                            }
                        }
                    }
                }
                Ok(slot)
            },
        }
    }

    /// Takes the item out of `slot` and puts the slot at the end of the free
    /// list; `None`, with nothing changed, when the slot is empty.
    pub fn pop(&mut self, slot: S) -> (r: Option<T>)
        requires
            old(self).wf(),
            slot.as_nat() < N,
        ensures
            final(self).wf(),
            r == old(self).items()[slot.as_nat() as int],
            r is None ==> final(self).items() == old(self).items() && final(self).free_slots()
                == old(self).free_slots(),
            r is Some ==> {
                &&& final(self).items() == old(self).items().update(slot.as_nat() as int, None)
                &&& final(self).free_slots() == old(self).free_slots().push(slot)
            },
    {
        let i = slot.to_usize();
        let taken = self.slots[i].take();
        match taken {
            Some(item) => {
                self.free.push(slot);
                proof {
                    let old_free = old(self).free_indices();
                    assert(self.free_indices() =~= old_free.push(i as int));
                    assert forall|k: int| 0 <= k < N implies (#[trigger] self.items()[k] is None
                        <==> self.free_indices().contains(k)) by {
                        if k == i {
                            assert(self.free_indices()[old_free.len() as int] == k);
                        } else {
                            if self.free_indices().contains(k) {
                                let j = choose|j: int| 0 <= j < self.free_indices().len() && self.free_indices()[j] == k;
                                assert(old_free[j] == k);
                            }
                            if old_free.contains(k) {
                                let j = choose|j: int| 0 <= j < old_free.len() && old_free[j] == k;
                                assert(self.free_indices()[j] == k);
                            }
                        }
                    }
                }
                Some(item)
            },
            None => {
                proof {
                    assert(self.slots@ =~= old(self).slots@);
                }
                None
            },
        }
    }

    /// The item in `slot`, if any.
    pub fn get(&self, slot: S) -> (r: Option<&T>)
        requires
            self.wf(),
            slot.as_nat() < N,
        ensures
            match self.items()[slot.as_nat() as int] {
                Some(item) => r matches Some(x) && *x == item,
                None => r is None,
            },
    {
        self.slots[slot.to_usize()].as_ref()
    }

    /// A mutable borrow of the item in `slot`, if any. Writing through it
    /// changes that item and nothing else.
    pub fn get_mut(&mut self, slot: S) -> (r: Option<&mut T>)
        requires
            old(self).wf(),
            slot.as_nat() < N,
        ensures
            final(self).wf(),
            final(self).free_slots() == old(self).free_slots(),
            final(self).occupied() == old(self).occupied(),
            match old(self).items()[slot.as_nat() as int] {
                Some(item) => r is Some && *r.unwrap() == item && final(self).items()
                    == old(self).items().update(slot.as_nat() as int, Some(*final(r.unwrap()))),
                None => r is None && final(self).items() == old(self).items(),
            },
    {
        let i = slot.to_usize();
        self.slots[i].as_mut()
    }
}

/// A slot number paired with (a borrow of) the item in that slot.
pub struct SlotItem<T, S> {
    pub item: T,
    pub slot: S,
}

/// Why `push_at` put nothing into the grid.
#[derive(Clone, Copy, PartialEq, Eq, Debug, Structural)]
pub enum MappedSlotsPushError {
    PosOutOfBounds,
    AlreadyOccupied,
    Full,
}

/// Why `pop_at` took nothing out of the grid.
#[derive(Clone, Copy, PartialEq, Eq, Debug, Structural)]
pub enum MappedSlotsPopAtError {
    PosOutOfBounds,
    NotOccupied,
}

/// A grid position outside the `W` by `H` grid.
#[derive(Clone, Copy, PartialEq, Eq, Debug, Structural)]
pub struct MappedSlotsOutOfBoundsError;

/// A `W` by `H` grid whose cells each name one of `N` slots or hold the
/// largest value of `S`, which marks an empty cell.
pub struct MappedSlots<T, S: SlotIndex, const W: usize, const H: usize, const N: usize> {
    slots: Slots<T, S, N>,
    map: Vec<Vec<S>>,
}

/// The column of a grid position.
pub open spec fn col<P: SlotIndex>(pos: UVec2<P>) -> int {
    pos.x.as_nat() as int
}

/// The row of a grid position.
pub open spec fn row<P: SlotIndex>(pos: UVec2<P>) -> int {
    pos.y.as_nat() as int
}

/// Whether `(x, y)` lies inside a `w` by `h` grid.
pub open spec fn in_grid(x: int, y: int, w: int, h: int) -> bool {
    0 <= x < w && 0 <= y < h
}

impl<T, S: SlotIndex, const W: usize, const H: usize, const N: usize> MappedSlots<T, S, W, H, N> {
    /// The slots behind the grid.
    pub closed spec fn slots(&self) -> Slots<T, S, N> {
        self.slots
    }

    /// The content of each slot, indexed by slot number.
    pub open spec fn items(&self) -> Seq<Option<T>> {
        self.slots().items()
    }

    /// The empty slots, in free-list order.
    pub open spec fn free_slots(&self) -> Seq<S> {
        self.slots().free_slots()
    }

    /// The cells, row by row: `grid()[y][x]`.
    pub closed spec fn grid(&self) -> Seq<Seq<S>> {
        self.map@.map_values(|row: Vec<S>| row@)
    }

    /// The value stored in cell `(x, y)`.
    pub open spec fn cell(&self, x: int, y: int) -> S {
        self.grid()[y][x]
    }

    /// Whether cell `(x, y)` holds the empty marker.
    pub open spec fn cell_empty(&self, x: int, y: int) -> bool {
        self.cell(x, y).as_nat() == S::max_nat()
    }

    /// The slot that cell `(x, y)` names, if any.
    pub open spec fn occupant(&self, x: int, y: int) -> Option<S> {
        if self.cell_empty(x, y) {
            None
        } else {
            Some(self.cell(x, y))
        }
    }

    /// The grid has `H` rows of `W` cells.
    pub open spec fn shape_ok(&self) -> bool {
        &&& self.grid().len() == H
        &&& forall|y: int| 0 <= y < H ==> #[trigger] self.grid()[y].len() == W
    }

    /// The cells outside `(x, y)` agree with those of `other`.
    pub open spec fn same_cells_except(&self, other: Self, x: int, y: int) -> bool {
        forall|a: int, b: int|
            in_grid(a, b, W as int, H as int) && (a, b) != (x, y) ==> #[trigger] self.grid()[b][a]
                == other.grid()[b][a]
    }

    /// The cells of `grid` and the occupancy of the slots agree: every cell
    /// that is not empty names an occupied slot, no two cells name the same
    /// slot, and every occupied slot is named by some cell.
    pub open spec fn agrees(grid: Seq<Seq<S>>, occupied: Seq<bool>) -> bool {
        &&& forall|x: int, y: int|
            in_grid(x, y, W as int, H as int) && (#[trigger] grid[y][x]).as_nat() != S::max_nat() ==> {
                &&& grid[y][x].as_nat() < N
                &&& occupied[grid[y][x].as_nat() as int]
            }
        &&& forall|x1: int, y1: int, x2: int, y2: int|
            in_grid(x1, y1, W as int, H as int) && in_grid(x2, y2, W as int, H as int)
                && (#[trigger] grid[y1][x1]).as_nat() != S::max_nat() && grid[y1][x1].as_nat()
                == (#[trigger] grid[y2][x2]).as_nat() ==> x1 == x2 && y1 == y2
        &&& forall|k: int|
            0 <= k < N && #[trigger] occupied[k] ==> exists|x: int, y: int|
                in_grid(x, y, W as int, H as int) && (#[trigger] grid[y][x]).as_nat() == k
    }

    /// The grid has `H` rows of `W` cells, the slots are consistent, and the
    /// cells agree with the occupancy of the slots.
    pub open spec fn wf(&self) -> bool {
        &&& self.slots().wf()
        &&& self.shape_ok()
        &&& Self::agrees(self.grid(), self.slots().occupied())
    }

    /// The state right after construction: every cell empty, every slot empty,
    /// the free list `0, 1, .., N - 1`.
    pub open spec fn is_fresh(&self) -> bool {
        &&& self.slots().is_fresh()
        &&& forall|x: int, y: int| in_grid(x, y, W as int, H as int) ==> #[trigger] self.cell_empty(x, y)
    }

    /// An empty grid over a full set of empty slots.
    pub fn new() -> (r: Self)
        requires
            N <= S::max_nat(),
        ensures
            r.wf(),
            r.is_fresh(),
    {
        let mut r = MappedSlots { slots: Slots::new(), map: Vec::new() };
        r.fill_empty_grid();
        r
    }

    /// Empties every cell and every slot, and resets the free list.
    pub fn init(&mut self)
        requires
            N <= S::max_nat(),
        ensures
            final(self).wf(),
            final(self).is_fresh(),
    {
        self.slots.init();
        self.fill_empty_grid();
    }

    fn fill_empty_grid(&mut self)
        requires
            old(self).slots().wf(),
            old(self).slots().is_fresh(),
        ensures
            final(self).wf(),
            final(self).is_fresh(),
    {
        let mut map: Vec<Vec<S>> = Vec::new();
        let mut y: usize = 0;
        while y < H
            invariant
                y <= H,
                map@.len() == y,
                forall|b: int, a: int| 0 <= b < y && 0 <= a < W ==> (#[trigger] map@[b]@[a]).as_nat() == S::max_nat(),
                forall|b: int| 0 <= b < y ==> (#[trigger] map@[b]@).len() == W,
            decreases H - y,
        {
            let mut row: Vec<S> = Vec::new();
            let mut x: usize = 0;
            while x < W
                invariant
                    x <= W,
                    row@.len() == x,
                    forall|a: int| 0 <= a < x ==> (#[trigger] row@[a]).as_nat() == S::max_nat(),
                decreases W - x,
            {
                row.push(S::max_value());
                x = x + 1;
            }
            map.push(row);
            y = y + 1;
        }
        self.map = map;
        assert forall|k: int| 0 <= k < N implies !(#[trigger] self.items()[k] is Some) by {
            assert(self.slots().items()[k] == None::<T>);
        }
    }

    /// Which slot, if any, the cell at `pos` names; an error when `pos` lies
    /// outside the grid.
    pub fn get_slot_at<P: SlotIndex>(&self, pos: UVec2<P>) -> (r: Result<
        Option<S>,
        MappedSlotsOutOfBoundsError,
    >)
        requires
            self.shape_ok(),
        ensures
            r is Err <==> !in_grid(col(pos), row(pos), W as int, H as int),
            r matches Ok(o) ==> o == self.occupant(col(pos), row(pos)),
    {
        let x = pos.x.to_usize();
        let y = pos.y.to_usize();
        if y >= H || x >= W {
            return Err(MappedSlotsOutOfBoundsError);
        }
        let slot = self.map[y][x];
        if !slot.is_max() {
            Ok(Some(slot))
        } else {
            Ok(None)
        }
    }

    /// Writes `slot` into the cell at `pos` (`None` writes the empty marker)
    /// and leaves the slots as they are. This can make a cell name an empty
    /// slot or two cells name one slot: `wf` is not kept, and restoring it is
    /// the caller's task.
    pub fn set_slot_at<P: SlotIndex>(&mut self, pos: UVec2<P>, slot: Option<S>) -> (r: Result<
        (),
        MappedSlotsOutOfBoundsError,
    >)
        requires
            old(self).shape_ok(),
        ensures
            final(self).shape_ok(),
            final(self).slots() == old(self).slots(),
            r is Err <==> !in_grid(col(pos), row(pos), W as int, H as int),
            r is Err ==> final(self).grid() == old(self).grid(),
            r is Ok ==> {
                &&& final(self).same_cells_except(*old(self), col(pos), row(pos))
                &&& slot matches Some(s) ==> final(self).cell(col(pos), row(pos)) == s
                &&& slot is None ==> final(self).cell_empty(col(pos), row(pos))
            },
    {
        let value = match slot {
            Some(s) => s,
            None => S::max_value(),
        };
        let x = pos.x.to_usize();
        let y = pos.y.to_usize();
        if y >= H || x >= W {
            return Err(MappedSlotsOutOfBoundsError);
        }
        self.set_cell(x, y, value);
        Ok(())
    }

    /// Puts `item` into a fresh slot and names that slot in the empty cell at
    /// `pos`. Fails, changing nothing, when `pos` lies outside the grid, when
    /// the cell is occupied, or when every slot is taken, checked in that order.
    pub fn push_at<P: SlotIndex>(&mut self, pos: UVec2<P>, item: T) -> (r: Result<
        S,
        MappedSlotsPushError,
    >)
        requires
            old(self).wf(),
        ensures
            final(self).wf(),
            !in_grid(col(pos), row(pos), W as int, H as int) ==> r == Err::<S, _>(
                MappedSlotsPushError::PosOutOfBounds,
            ),
            in_grid(col(pos), row(pos), W as int, H as int) && !old(self).cell_empty(col(pos), row(pos))
                ==> r == Err::<S, _>(MappedSlotsPushError::AlreadyOccupied),
            in_grid(col(pos), row(pos), W as int, H as int) && old(self).cell_empty(col(pos), row(pos))
                && old(self).free_slots().len() == 0 ==> r == Err::<S, _>(MappedSlotsPushError::Full),
            in_grid(col(pos), row(pos), W as int, H as int) && old(self).cell_empty(col(pos), row(pos))
                && old(self).free_slots().len() > 0 ==> r is Ok,
            r is Err ==> {
                &&& final(self).items() == old(self).items()
                &&& final(self).free_slots() == old(self).free_slots()
                &&& final(self).grid() == old(self).grid()
            },
            r matches Ok(s) ==> {
                &&& s == old(self).free_slots().last()
                &&& final(self).items() == old(self).items().update(s.as_nat() as int, Some(item))
                &&& final(self).free_slots() == old(self).free_slots().drop_last()
                &&& final(self).cell(col(pos), row(pos)) == s
                &&& final(self).same_cells_except(*old(self), col(pos), row(pos))
            },
    {
        let x = pos.x.to_usize();
        let y = pos.y.to_usize();
        if y >= H || x >= W {
            return Err(MappedSlotsPushError::PosOutOfBounds);
        }
        proof {
            assert(self.grid()[y as int] == self.map@[y as int]@);
        }
        if !self.map[y][x].is_max() {
            return Err(MappedSlotsPushError::AlreadyOccupied);
        }
        let slot = match self.slots.push(item) {
            Err(_) => {
                proof {
                    Self::lemma_wf_same_views(*old(self), *self);
                }
                return Err(MappedSlotsPushError::Full);
            },
            Ok(slot) => slot,
        };
        proof {
            let f = old(self).slots().free_indices();
            assert(f[f.len() - 1] == slot.as_nat());
        }
        self.set_cell(x, y, slot);
        proof {
            Self::lemma_wf_after_fill(*old(self), *self, x as int, y as int, slot);
        }
        Ok(slot)
    }

    /// The item in `slot`, if any.
    pub fn get(&self, slot: S) -> (r: Option<&T>)
        requires
            self.slots().wf(),
            slot.as_nat() < N,
        ensures
            match self.items()[slot.as_nat() as int] {
                Some(item) => r matches Some(x) && *x == item,
                None => r is None,
            },
    {
        self.slots.get(slot)
    }

    /// A mutable borrow of the item in `slot`, if any. Writing through it
    /// changes that item and nothing else.
    pub fn get_mut(&mut self, slot: S) -> (r: Option<&mut T>)
        requires
            old(self).slots().wf(),
            slot.as_nat() < N,
        ensures
            final(self).slots().wf(),
            old(self).wf() ==> final(self).wf(),
            final(self).free_slots() == old(self).free_slots(),
            final(self).grid() == old(self).grid(),
            match old(self).items()[slot.as_nat() as int] {
                Some(item) => r is Some && *r.unwrap() == item && final(self).items()
                    == old(self).items().update(slot.as_nat() as int, Some(*final(r.unwrap()))),
                None => r is None && final(self).items() == old(self).items(),
            },
    {
        self.slots.get_mut(slot)
    }

    /// The slot named by the cell at `pos` and the item in it; `None` for an
    /// empty cell, an error when `pos` lies outside the grid.
    pub fn get_at<P: SlotIndex>(&self, pos: UVec2<P>) -> (r: Result<
        Option<SlotItem<&T, S>>,
        MappedSlotsOutOfBoundsError,
    >)
        requires
            self.wf(),
        ensures
            r is Err <==> !in_grid(col(pos), row(pos), W as int, H as int),
            r matches Ok(o) ==> (o is None <==> self.cell_empty(col(pos), row(pos))),
            r matches Ok(Some(si)) ==> {
                &&& si.slot == self.cell(col(pos), row(pos))
                &&& self.items()[si.slot.as_nat() as int] == Some(*si.item)
            },
    {
        let slot = self.get_slot_at(pos)?;
        match slot {
            None => Ok(None),
            Some(slot) => {
                proof {
                    assert(self.grid()[row(pos)][col(pos)] == slot);
                }
                Ok(Some(SlotItem { slot, item: self.get(slot).unwrap() }))
            },
        }
    }

    /// Like `get_at`, with a mutable borrow of the item. Writing through it
    /// changes that item and nothing else.
    pub fn get_at_mut<P: SlotIndex>(&mut self, pos: UVec2<P>) -> (r: Result<
        Option<SlotItem<&mut T, S>>,
        MappedSlotsOutOfBoundsError,
    >)
        requires
            old(self).wf(),
        ensures
            final(self).wf(),
            final(self).free_slots() == old(self).free_slots(),
            final(self).grid() == old(self).grid(),
            r is Err <==> !in_grid(col(pos), row(pos), W as int, H as int),
            r matches Ok(o) ==> (o is None <==> old(self).cell_empty(col(pos), row(pos))),
            !(r matches Ok(Some(_))) ==> final(self).items() == old(self).items(),
            r matches Ok(Some(si)) ==> {
                &&& si.slot == old(self).cell(col(pos), row(pos))
                &&& old(self).items()[si.slot.as_nat() as int] == Some(*si.item)
                &&& final(self).items() == old(self).items().update(
                    si.slot.as_nat() as int,
                    Some(*final(si.item)),
                )
            },
    {
        let slot = self.get_slot_at(pos)?;
        match slot {
            None => Ok(None),
            Some(slot) => {
                proof {
                    assert(self.grid()[row(pos)][col(pos)] == slot);
                }
                Ok(Some(SlotItem { slot, item: self.get_mut(slot).unwrap() }))
            },
        }
    }

    /// Takes the item named by the cell at `pos` out of its slot and empties
    /// the cell. Fails, changing nothing, when `pos` lies outside the grid or
    /// the cell is empty.
    pub fn pop_at<P: SlotIndex>(&mut self, pos: UVec2<P>) -> (r: Result<T, MappedSlotsPopAtError>)
        requires
            old(self).wf(),
        ensures
            final(self).wf(),
            !in_grid(col(pos), row(pos), W as int, H as int) ==> r == Err::<T, _>(
                MappedSlotsPopAtError::PosOutOfBounds,
            ),
            in_grid(col(pos), row(pos), W as int, H as int) && old(self).cell_empty(col(pos), row(pos))
                ==> r == Err::<T, _>(MappedSlotsPopAtError::NotOccupied),
            r is Err ==> {
                &&& final(self).items() == old(self).items()
                &&& final(self).free_slots() == old(self).free_slots()
                &&& final(self).grid() == old(self).grid()
            },
            in_grid(col(pos), row(pos), W as int, H as int) && !old(self).cell_empty(col(pos), row(pos))
                ==> {
                let s = old(self).cell(col(pos), row(pos));
                &&& r is Ok
                &&& Some(r->Ok_0) == old(self).items()[s.as_nat() as int]
                &&& final(self).items() == old(self).items().update(s.as_nat() as int, None)
                &&& final(self).free_slots() == old(self).free_slots().push(s)
                &&& final(self).cell_empty(col(pos), row(pos))
                &&& final(self).same_cells_except(*old(self), col(pos), row(pos))
            },
    {
        let x = pos.x.to_usize();
        let y = pos.y.to_usize();
        if y >= H || x >= W {
            return Err(MappedSlotsPopAtError::PosOutOfBounds);
        }
        proof {
            assert(self.grid()[y as int] == self.map@[y as int]@);
        }
        let slot = self.map[y][x];
        proof {
            assert(old(self).cell(x as int, y as int) == slot);
            if !old(self).cell_empty(x as int, y as int) {
                assert(old(self).cell(x as int, y as int).as_nat() < N);
            }
        }
        self.set_cell(x, y, S::max_value());
        if !slot.is_max() {
            let item = self.slots.pop(slot).unwrap();
            proof {
                Self::lemma_wf_after_clear(*old(self), *self, x as int, y as int);
            }
            Ok(item)
        } else {
            proof {
                S::lemma_as_nat(self.cell(x as int, y as int), slot);
                assert(self.grid() =~= old(self).grid()) by {
                    assert forall|b: int| 0 <= b < H implies self.grid()[b] =~= old(self).grid()[b] by {
                        assert forall|a: int| 0 <= a < W implies self.grid()[b][a] == old(self).grid()[b][a] by {
                            assert(self.cell(a, b) == old(self).cell(a, b));
                        }
                    }
                }
                Self::lemma_wf_same_views(*old(self), *self);
            }
            Err(MappedSlotsPopAtError::NotOccupied)
        }
    }

    /// Agreement of grid and slots depends only on the cells, the slot
    /// contents and the free list.
    proof fn lemma_wf_same_views(a: Self, b: Self)
        requires
            a.wf(),
            b.items() == a.items(),
            b.free_slots() == a.free_slots(),
            b.grid() == a.grid(),
        ensures
            b.wf(),
    {
        assert(b.slots().free_indices() == a.slots().free_indices());
        assert(b.slots().occupied() == a.slots().occupied());
    }

    /// Exchanging the contents of two cells, with the slots' occupancy
    /// unchanged, keeps the grid and its slots in agreement.
    pub proof fn lemma_swap_keeps_wf(a: Self, b: Self, x1: int, y1: int, x2: int, y2: int)
        requires
            a.wf(),
            in_grid(x1, y1, W as int, H as int),
            in_grid(x2, y2, W as int, H as int),
            b.slots().wf(),
            b.shape_ok(),
            b.slots().occupied() == a.slots().occupied(),
            b.cell(x1, y1) == a.cell(x2, y2),
            b.cell(x2, y2) == a.cell(x1, y1),
            forall|c: int, d: int|
                in_grid(c, d, W as int, H as int) && (c, d) != (x1, y1) && (c, d) != (x2, y2)
                    ==> #[trigger] b.cell(c, d) == a.cell(c, d),
        ensures
            b.wf(),
    {
        let g0 = a.grid();
        let g1 = b.grid();
        let o = a.slots().occupied();
        assert forall|c: int, d: int| in_grid(c, d, W as int, H as int) implies {
            &&& (#[trigger] g1[d][c]) == g0[if (c, d) == (x1, y1) { y2 } else if (c, d) == (x2, y2) { y1 } else { d }][
                if (c, d) == (x1, y1) { x2 } else if (c, d) == (x2, y2) { x1 } else { c }]
        } by {
            if (c, d) != (x1, y1) && (c, d) != (x2, y2) {
                assert(b.cell(c, d) == a.cell(c, d));
            }
        }
        assert forall|x1a: int, y1a: int, x2a: int, y2a: int|
            in_grid(x1a, y1a, W as int, H as int) && in_grid(x2a, y2a, W as int, H as int)
                && (#[trigger] g1[y1a][x1a]).as_nat() != S::max_nat() && g1[y1a][x1a].as_nat()
                == (#[trigger] g1[y2a][x2a]).as_nat() implies x1a == x2a && y1a == y2a by {
            let sx1 = if (x1a, y1a) == (x1, y1) { x2 } else if (x1a, y1a) == (x2, y2) { x1 } else { x1a };
            let sy1 = if (x1a, y1a) == (x1, y1) { y2 } else if (x1a, y1a) == (x2, y2) { y1 } else { y1a };
            let sx2 = if (x2a, y2a) == (x1, y1) { x2 } else if (x2a, y2a) == (x2, y2) { x1 } else { x2a };
            let sy2 = if (x2a, y2a) == (x1, y1) { y2 } else if (x2a, y2a) == (x2, y2) { y1 } else { y2a };
            assert(g1[y1a][x1a] == g0[sy1][sx1]);
            assert(g1[y2a][x2a] == g0[sy2][sx2]);
        }
        assert forall|j: int| 0 <= j < N && #[trigger] o[j] implies exists|c: int, d: int|
            in_grid(c, d, W as int, H as int) && (#[trigger] g1[d][c]).as_nat() == j by {
            let (c, d) = choose|c: int, d: int|
                in_grid(c, d, W as int, H as int) && (#[trigger] g0[d][c]).as_nat() == j;
            if (c, d) == (x1, y1) {
                assert(g1[y2][x2] == g0[d][c]);
            } else if (c, d) == (x2, y2) {
                assert(g1[y1][x1] == g0[d][c]);
            } else {
                assert(g1[d][c] == g0[d][c]);
            }
        }
    }

    /// `pop_at` undoes `push_at`: pushing an item into the empty cell
    /// `(x, y)` (state `a` to `b`, as `push_at` ensures) and popping that cell
    /// again (state `b` to `c`, as `pop_at` ensures) gives the item back and
    /// returns the cells, the slots and the free list to what they were.
    pub proof fn lemma_pop_at_undoes_push_at(a: Self, b: Self, c: Self, x: int, y: int, item: T, popped: T)
        requires
            a.wf(),
            in_grid(x, y, W as int, H as int),
            a.cell_empty(x, y),
            a.free_slots().len() > 0,
            b.items() == a.items().update(a.free_slots().last().as_nat() as int, Some(item)),
            b.free_slots() == a.free_slots().drop_last(),
            b.cell(x, y) == a.free_slots().last(),
            b.same_cells_except(a, x, y),
            Some(popped) == b.items()[b.cell(x, y).as_nat() as int],
            c.items() == b.items().update(b.cell(x, y).as_nat() as int, None),
            c.free_slots() == b.free_slots().push(b.cell(x, y)),
            c.cell_empty(x, y),
            c.same_cells_except(b, x, y),
            c.shape_ok(),
        ensures
            popped == item,
            c.items() == a.items(),
            c.free_slots() == a.free_slots(),
            c.grid() == a.grid(),
    {
        let s = a.free_slots().last();
        let k = s.as_nat() as int;
        lemma_pop_undoes_push(a.slots(), item);
        S::lemma_as_nat(c.cell(x, y), a.cell(x, y));
        assert(c.items() =~= a.items());
        assert(c.free_slots() =~= a.free_slots());
        assert(c.grid() =~= a.grid()) by {
            assert forall|d: int| 0 <= d < H implies c.grid()[d] =~= a.grid()[d] by {
                assert forall|e: int| 0 <= e < W implies c.grid()[d][e] == a.grid()[d][e] by {
                    if (e, d) != (x, y) {
                        assert(c.grid()[d][e] == b.grid()[d][e]);
                    }
                }
            }
        }
    }

    /// The cells that name a slot.
    pub open spec fn occupied_cells(&self) -> Set<(int, int)> {
        Set::new(|c: (int, int)| in_grid(c.0, c.1, W as int, H as int) && !self.cell_empty(c.0, c.1))
    }

    /// The occupied cells and the free list together count exactly `N`: a
    /// consistent grid never has more than `N` occupied cells, and each push
    /// or pop moves one slot between the two.
    pub proof fn lemma_occupied_cells_plus_free(&self)
        requires
            self.wf(),
        ensures
            self.occupied_cells().finite(),
            self.occupied_cells().len() + self.free_slots().len() == N,
            self.occupied_cells().len() <= N,
    {
        let sl = self.slots();
        lemma_occupied_plus_free(sl);
        let occ = sl.occupied_slots();
        let cells = self.occupied_cells();
        let g = self.grid();
        let pos_of = |k: int| choose|c: (int, int)| in_grid(c.0, c.1, W as int, H as int) && g[c.1][c.0].as_nat() == k;
        assert forall|k: int| occ.contains(k) implies {
            let c = pos_of(k);
            in_grid(c.0, c.1, W as int, H as int) && g[c.1][c.0].as_nat() == k
        } by {
            assert(sl.occupied()[k]);
            let (x, y) = choose|x: int, y: int| in_grid(x, y, W as int, H as int) && (#[trigger] g[y][x]).as_nat() == k;
            assert(in_grid((x, y).0, (x, y).1, W as int, H as int) && g[(x, y).1][(x, y).0].as_nat() == k);
        }
        assert(vstd::relations::injective_on(pos_of, occ)) by {
            assert forall|k1: int, k2: int| occ.contains(k1) && occ.contains(k2) && #[trigger] pos_of(k1) == #[trigger] pos_of(k2)
                implies k1 == k2 by {
            }
        }
        assert(occ.map(pos_of) =~= cells) by {
            assert forall|c: (int, int)| occ.map(pos_of).contains(c) implies cells.contains(c) by {
                let k = choose|k: int| occ.contains(k) && pos_of(k) == c;
                assert(g[c.1][c.0].as_nat() == k);
            }
            assert forall|c: (int, int)| cells.contains(c) implies occ.map(pos_of).contains(c) by {
                let k = g[c.1][c.0].as_nat() as int;
                assert(g[c.1][c.0] == self.cell(c.0, c.1));
                assert(sl.occupied()[k]);
                assert(occ.contains(k));
                let d = pos_of(k);
                assert(g[d.1][d.0].as_nat() == k);
                assert(d == c);
                assert(occ.contains(k) && pos_of(k) == c);
            }
        }
        vstd::set_lib::lemma_map_size(occ, cells, pos_of);
    }

    /// Filling the empty cell `(x, y)` with the slot `s`, which was empty
    /// before and is occupied now, keeps the grid and its slots in agreement.
    proof fn lemma_wf_after_fill(old_grid: Self, new_grid: Self, x: int, y: int, s: S)
        requires
            old_grid.wf(),
            in_grid(x, y, W as int, H as int),
            old_grid.cell_empty(x, y),
            s.as_nat() < N,
            old_grid.items()[s.as_nat() as int] is None,
            new_grid.slots().wf(),
            new_grid.shape_ok(),
            new_grid.items() == old_grid.items().update(s.as_nat() as int, new_grid.items()[s.as_nat() as int]),
            new_grid.items()[s.as_nat() as int] is Some,
            new_grid.cell(x, y) == s,
            new_grid.same_cells_except(old_grid, x, y),
        ensures
            new_grid.wf(),
    {
        let k = s.as_nat() as int;
        let g0 = old_grid.grid();
        let g1 = new_grid.grid();
        let o0 = old_grid.slots().occupied();
        let o1 = new_grid.slots().occupied();
        assert(o1 =~= o0.update(k, true));
        assert forall|a: int, b: int| in_grid(a, b, W as int, H as int) && (a, b) != (x, y) implies
            #[trigger] g1[b][a] == g0[b][a] by {
            assert(new_grid.cell(a, b) == old_grid.cell(a, b));
        }
        assert forall|a: int, b: int|
            in_grid(a, b, W as int, H as int) && (#[trigger] g1[b][a]).as_nat() != S::max_nat() implies {
            &&& g1[b][a].as_nat() < N
            &&& o1[g1[b][a].as_nat() as int]
        } by {
            if (a, b) != (x, y) {
                assert(g1[b][a] == g0[b][a]);
            }
        }
        assert forall|x1: int, y1: int, x2: int, y2: int|
            in_grid(x1, y1, W as int, H as int) && in_grid(x2, y2, W as int, H as int)
                && (#[trigger] g1[y1][x1]).as_nat() != S::max_nat() && g1[y1][x1].as_nat()
                == (#[trigger] g1[y2][x2]).as_nat() implies x1 == x2 && y1 == y2 by {
            if (x1, y1) != (x, y) {
                assert(g1[y1][x1] == g0[y1][x1]);
            }
            if (x2, y2) != (x, y) {
                assert(g1[y2][x2] == g0[y2][x2]);
            }
        }
        assert forall|j: int| 0 <= j < N && #[trigger] o1[j] implies exists|a: int, b: int|
            in_grid(a, b, W as int, H as int) && (#[trigger] g1[b][a]).as_nat() == j by {
            if j == k {
                assert(g1[y][x].as_nat() == j);
            } else {
                assert(o0[j]);
                let (a, b) = choose|a: int, b: int|
                    in_grid(a, b, W as int, H as int) && (#[trigger] g0[b][a]).as_nat() == j;
                assert(g1[b][a] == g0[b][a]);
            }
        }
    }

    /// Emptying the cell `(x, y)` and the slot it named keeps the grid and its
    /// slots in agreement.
    proof fn lemma_wf_after_clear(old_grid: Self, new_grid: Self, x: int, y: int)
        requires
            old_grid.wf(),
            in_grid(x, y, W as int, H as int),
            !old_grid.cell_empty(x, y),
            new_grid.slots().wf(),
            new_grid.shape_ok(),
            new_grid.items() == old_grid.items().update(old_grid.cell(x, y).as_nat() as int, None),
            new_grid.cell_empty(x, y),
            new_grid.same_cells_except(old_grid, x, y),
        ensures
            new_grid.wf(),
    {
        let k = old_grid.cell(x, y).as_nat() as int;
        let g0 = old_grid.grid();
        let g1 = new_grid.grid();
        let o0 = old_grid.slots().occupied();
        let o1 = new_grid.slots().occupied();
        assert(o1 =~= o0.update(k, false));
        assert forall|a: int, b: int| in_grid(a, b, W as int, H as int) && (a, b) != (x, y) implies
            #[trigger] g1[b][a] == g0[b][a] by {
            assert(new_grid.cell(a, b) == old_grid.cell(a, b));
        }
        assert(g0[y][x].as_nat() == k);
        assert forall|a: int, b: int|
            in_grid(a, b, W as int, H as int) && (#[trigger] g1[b][a]).as_nat() != S::max_nat() implies {
            &&& g1[b][a].as_nat() < N
            &&& o1[g1[b][a].as_nat() as int]
        } by {
            if (a, b) != (x, y) {
                assert(g1[b][a] == g0[b][a]);
            }
        }
        assert forall|x1: int, y1: int, x2: int, y2: int|
            in_grid(x1, y1, W as int, H as int) && in_grid(x2, y2, W as int, H as int)
                && (#[trigger] g1[y1][x1]).as_nat() != S::max_nat() && g1[y1][x1].as_nat()
                == (#[trigger] g1[y2][x2]).as_nat() implies x1 == x2 && y1 == y2 by {
            if (x1, y1) != (x, y) && (x2, y2) != (x, y) {
                assert(g1[y1][x1] == g0[y1][x1]);
                assert(g1[y2][x2] == g0[y2][x2]);
            }
        }
        assert forall|j: int| 0 <= j < N && #[trigger] o1[j] implies exists|a: int, b: int|
            in_grid(a, b, W as int, H as int) && (#[trigger] g1[b][a]).as_nat() == j by {
            assert(o0[j]);
            let (a, b) = choose|a: int, b: int|
                in_grid(a, b, W as int, H as int) && (#[trigger] g0[b][a]).as_nat() == j;
            assert((a, b) != (x, y));
            assert(g1[b][a] == g0[b][a]);
        }
    }

    /// Writes `value` into cell `(x, y)` and changes nothing else.
    fn set_cell(&mut self, x: usize, y: usize, value: S)
        requires
            old(self).shape_ok(),
            x < W,
            y < H,
        ensures
            final(self).shape_ok(),
            final(self).slots() == old(self).slots(),
            final(self).same_cells_except(*old(self), x as int, y as int),
            final(self).cell(x as int, y as int) == value,
    {
        proof {
            assert(self.grid()[y as int] == self.map@[y as int]@);
        }
        self.map[y].set(x, value);
        proof {
            let old_grid = old(self).grid();
            assert(self.grid() =~= old_grid.update(y as int, old_grid[y as int].update(x as int, value)));
            assert forall|b: int| 0 <= b < H implies #[trigger] self.grid()[b].len() == W by {
                assert(old_grid[b].len() == W);
            }
        }
    }
}

/// Popping the slot that `push` just filled undoes the push: the slot is
/// empty again and the free list is back as it was. Pushing right after a
/// pop refills the slot just freed.
pub proof fn lemma_pop_undoes_push<T, S: SlotIndex, const N: usize>(slots: Slots<T, S, N>, item: T)
    requires
        slots.wf(),
        slots.free_slots().len() > 0,
    ensures
        ({
            let s = slots.free_slots().last();
            let k = s.as_nat() as int;
            &&& slots.items()[k] is None
            &&& slots.items().update(k, Some(item))[k] == Some(item)
            &&& slots.items().update(k, Some(item)).update(k, None) == slots.items()
            &&& slots.free_slots().drop_last().push(s) == slots.free_slots()
            &&& slots.free_slots().push(s).last() == s
            &&& slots.free_slots().push(s).drop_last() == slots.free_slots()
        }),
{
    let f = slots.free_indices();
    assert(f[f.len() - 1] == slots.free_slots().last().as_nat());
}

/// Every slot is either occupied or on the free list: the occupied slots
/// and the free list together count exactly `N`.
pub proof fn lemma_occupied_plus_free<T, S: SlotIndex, const N: usize>(slots: Slots<T, S, N>)
    requires
        slots.wf(),
    ensures
        slots.occupied_slots().finite(),
        slots.occupied_slots().len() + slots.free_slots().len() == N,
{
    let f = slots.free_indices();
    let occ = slots.occupied_slots();
    let emp = f.to_set();
    let all = set_int_range(0, N as int);
    vstd::set_lib::lemma_int_range(0, N as int);
    f.unique_seq_to_set();
    assert(occ.subset_of(all));
    vstd::set_lib::lemma_len_subset(occ, all);
    assert(emp.subset_of(all)) by {
        assert forall|k: int| emp.contains(k) implies all.contains(k) by {
            let i = choose|i: int| 0 <= i < f.len() && f[i] == k;
            assert(0 <= f[i] < N);
        }
    }
    vstd::set_lib::lemma_len_subset(emp, all);
    assert(occ.disjoint(emp));
    assert(occ + emp =~= all) by {
        assert forall|k: int| all.contains(k) implies (occ + emp).contains(k) by {
            if slots.items()[k] is None {
                assert(f.contains(k));
            }
        }
    }
    vstd::set_lib::lemma_set_disjoint_lens(occ, emp);
}

/// A `u8` slot number or coordinate is its numeric value: `as_nat` is the
/// value itself and the largest value is 255, so `to_usize` returns the
/// value and `from_usize(n)` is the `u8` equal to `n`.
pub proof fn lemma_u8_index_is_value(v: u8)
    ensures
        v.as_nat() == v as nat,
        <u8 as SlotIndex>::max_nat() == 255,
{
}

/// A `u16` slot number or coordinate is its numeric value: `as_nat` is the
/// value itself and the largest value is 65535.
pub proof fn lemma_u16_index_is_value(v: u16)
    ensures
        v.as_nat() == v as nat,
        <u16 as SlotIndex>::max_nat() == 65535,
{
}

/// A `usize` slot number or coordinate is its numeric value: `as_nat` is the
/// identity and the largest value is `usize::MAX`, so a `usize` grid
/// position addresses column `pos.x` and row `pos.y`.
pub proof fn lemma_usize_index_is_value(v: usize, pos: UVec2<usize>)
    ensures
        v.as_nat() == v as nat,
        <usize as SlotIndex>::max_nat() == usize::MAX as nat,
        col(pos) == pos.x as int,
        row(pos) == pos.y as int,
{
}

/// The fresh free list of a `u8`-numbered allocator is the slot numbers
/// `0, 1, .., N - 1` in order, so the first `push` returns `N - 1`, the
/// number just below the capacity.
pub proof fn lemma_fresh_u8_free_list<T, const N: usize>(slots: Slots<T, u8, N>, i: int)
    requires
        slots.is_fresh(),
        0 <= i < N,
    ensures
        slots.free_slots().len() == N,
        slots.free_slots()[i] == i,
{
    assert(slots.free_indices().len() == N);
    assert(slots.free_indices()[i] == i);
    assert(slots.free_indices()[i] == slots.free_slots()[i].as_nat() as int);
}

/// The free list never outgrows the `N` slots: it holds at most `N` entries,
/// and fewer than `N` while any slot is occupied.
pub proof fn lemma_free_list_within_capacity<T, S: SlotIndex, const N: usize>(
    slots: Slots<T, S, N>,
    k: int,
)
    requires
        slots.wf(),
    ensures
        slots.free_slots().len() <= N,
        0 <= k < N && slots.items()[k] is Some ==> slots.free_slots().len() < N,
{
    let f = slots.free_indices();
    lemma_distinct_below_len(f, N as int);
    if 0 <= k < N && slots.items()[k] is Some {
        let g = f.push(k);
        assert(!f.contains(k));
        assert forall|i: int, j: int| 0 <= i < j < g.len() implies g[i] != g[j] by {
            if j == f.len() {
                assert(f[i] != k);
            }
        }
        assert forall|i: int| 0 <= i < g.len() implies 0 <= #[trigger] g[i] < N by {
            if i < f.len() {
                assert(0 <= f[i] < N);
            }
        }
        lemma_distinct_below_len(g, N as int);
    }
}

} // verus!
