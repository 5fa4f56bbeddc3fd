//! A fixed 8x8 grid of boolean cells packed into one `u64`.
//!
//! Cells are stored in row-major order: index `x + 8 * y` holds the cell at
//! column `x`, row `y`, and bit `i` of the packed word is the cell at index `i`.
use vstd::prelude::*;

verus! {

/// Number of columns of the grid.
pub const GRID_COLS: u32 = 8;

/// Number of rows of the grid.
pub const GRID_ROWS: u32 = 8;

/// Number of cells of the grid.
pub const GRID_SIZE: u32 = 64;

/// Whether bit `i` of `d` is set.
pub open spec fn bit(d: u64, i: u64) -> bool {
    (d >> i) & 1u64 == 1u64
}

/// The indices of the set bits of `d`.
pub open spec fn bits_of(d: u64) -> Set<nat> {
    Set::new(|i: nat| i < 64 && bit(d, i as u64))
}

/// Every index of the grid.
pub open spec fn all_cells() -> Set<nat> {
    Set::new(|i: nat| i < 64)
}

/// The index of the cell at column `x`, row `y`.
pub open spec fn cell_index(x: int, y: int) -> int {
    x + 8 * y
}

/// `s` with the cell at `i` replaced by `value`.
pub open spec fn with_cell(s: Set<nat>, i: nat, value: bool) -> Set<nat> {
    if value {
        s.insert(i)
    } else {
        s.remove(i)
    }
}

/// Every cell of `s` moved `k` indices up (down where `k` is negative);
/// cells that leave the range of indices are dropped.
pub open spec fn shifted(s: Set<nat>, k: int) -> Set<nat> {
    Set::new(|i: nat| i < 64 && 0 <= i - k && s.contains((i - k) as nat))
}

/// The elements of `s` in `[lo, 64)`, in ascending order.
pub open spec fn ascending_from(s: Set<nat>, lo: nat) -> Seq<nat>
    decreases 64 - lo,
{
    if lo >= 64 {
        Seq::empty()
    } else if s.contains(lo) {
        seq![lo] + ascending_from(s, lo + 1)
    } else {
        ascending_from(s, lo + 1)
    }
}

/// The grid indices held by `s`, in ascending order.
pub open spec fn ascending(s: Set<nat>) -> Seq<nat> {
    ascending_from(s, 0)
}

/// The (column, row) coordinates of the cell at index `i`.
pub open spec fn cell_of(i: nat) -> (u32, u32) {
    ((i % 8) as u32, (i / 8) as u32)
}

/// A grid of 64 boolean cells.
#[derive(Clone, Copy)]
pub struct BitGrid {
    data: u64,
}

impl BitGrid {
    /// The packed word.
    pub closed spec fn mask(&self) -> u64 {
        self.data
    }

    /// The indices of the cells that are set.
    pub open spec fn view(&self) -> Set<nat> {
        bits_of(self.mask())
    }

    /// A grid with every cell unset.
    pub fn new() -> (r: BitGrid)
        ensures
            r@ == Set::<nat>::empty(),
            r.mask() == 0,
    {
        let r = BitGrid { data: 0 };
        proof {
            assert forall|i: nat| !(#[trigger] r@.contains(i)) by {
                if i < 64 {
                    lemma_bit_zero(i as u64);
                }
            }
            assert(r@ =~= Set::<nat>::empty());
        }
        r
    }

    /// A grid whose cell at index `i` is bit `i` of `data`.
    pub fn new_from_mask(data: u64) -> (r: BitGrid)
        ensures
            r@ == bits_of(data),
            r.mask() == data,
    {
        BitGrid { data }
    }

    /// The word with only bit `index` set.
    fn index_mask(index: u32) -> (r: u64)
        requires
            index < 64,
        ensures
            r == 1u64 << index,
            bits_of(r) == set![index as nat],
    {
        let r = 1u64 << index;
        proof {
            assert forall|i: nat| #[trigger] bits_of(r).contains(i) == (i == index) by {
                if i < 64 {
                    lemma_bit_one_shl(index as u64, i as u64);
                }
            }
            assert(bits_of(r) =~= set![index as nat]);
        }
        r
    }

    /// The index of the cell at column `x`, row `y`.
    pub fn index_of_cell(x: u32, y: u32) -> (r: u32)
        requires
            x < 8,
            y < 8,
        ensures
            r == cell_index(x as int, y as int),
    {
        x + y * GRID_COLS
    }

    /// The (column, row) coordinates of the cell at `index`.
    pub fn cell_at_index(index: u32) -> (r: (u32, u32))
        requires
            index < 64,
        ensures
            r == cell_of(index as nat),
            cell_index(r.0 as int, r.1 as int) == index,
            r.0 < 8,
            r.1 < 8,
    {
        (index % GRID_ROWS, index / GRID_ROWS)
    }

    /// Whether the cell at `index` is set.
    pub fn get_at_index(self, index: u32) -> (r: bool)
        requires
            index < 64,
        ensures
            r == self@.contains(index as nat),
    {
        proof {
            lemma_bit_mask(self.data, index as u64);
        }
        self.data & BitGrid::index_mask(index) != 0
    }

    /// Whether the cell at column `x`, row `y` is set.
    pub fn get_at_cell(self, x: u32, y: u32) -> (r: bool)
        requires
            x < 8,
            y < 8,
        ensures
            r == self@.contains(cell_index(x as int, y as int) as nat),
    {
        self.get_at_index(BitGrid::index_of_cell(x, y))
    }

    /// This grid with the cell at `index` set to `value`.
    pub fn set_at_index(self, index: u32, value: bool) -> (r: BitGrid)
        requires
            index < 64,
        ensures
            r@ == with_cell(self@, index as nat, value),
    {
        let m = BitGrid::index_mask(index);
        let r = BitGrid { data: if value { self.data | m } else { self.data & !m } };
        proof {
            assert forall|i: nat| #[trigger] r@.contains(i) == with_cell(self@, index as nat, value).contains(i) by {
                if i < 64 {
                    lemma_bit_one_shl(index as u64, i as u64);
                    lemma_bit_or(self.data, m, i as u64);
                    lemma_bit_and(self.data, !m, i as u64);
                    lemma_bit_not(m, i as u64);
                }
            }
            assert(r@ =~= with_cell(self@, index as nat, value));
        }
        r
    }

    /// This grid with the cell at column `x`, row `y` set to `value`.
    pub fn set_at_cell(self, x: u32, y: u32, value: bool) -> (r: BitGrid)
        requires
            x < 8,
            y < 8,
        ensures
            r@ == with_cell(self@, cell_index(x as int, y as int) as nat, value),
    {
        self.set_at_index(BitGrid::index_of_cell(x, y), value)
    }

    /// Every cell moved by `rows` rows and `cols` columns.
    ///
    /// This is one shift of the packed word by `rows * 8 + cols` bits, not a
    /// translation in the plane: a cell moved past the left or right edge
    /// reappears at the other edge of a neighbouring row. Callers mask such
    /// cells away.
    pub fn shift(self, rows: i32, cols: i32) -> (r: BitGrid)
        requires
            i32::MIN <= rows * 8 <= i32::MAX,
            -64 < rows * 8 + cols < 64,
        ensures
            r@ == shifted(self@, rows * 8 + cols),
            r.mask() == if rows * 8 + cols < 0 {
                self.mask() >> (-(rows * 8 + cols)) as u64
            } else {
                self.mask() << (rows * 8 + cols) as u64
            },
    {
        let directed_amount: i32 = rows * (GRID_COLS as i32) + cols;
        let r = if directed_amount < 0 {
            let amount = (-directed_amount) as u32;
            BitGrid { data: self.data >> amount }
        } else {
            let amount = directed_amount as u32;
            BitGrid { data: self.data << amount }
        };
        proof {
            let k = rows * 8 + cols;
            assert forall|i: nat| #[trigger] r@.contains(i) == shifted(self@, k).contains(i) by {
                if i < 64 {
                    if k < 0 {
                        lemma_bit_shr(self.data, (-k) as u64, i as u64);
                    } else {
                        lemma_bit_shl(self.data, k as u64, i as u64);
                    }
                }
            }
            assert(r@ =~= shifted(self@, k));
        }
        r
    }

    /// The cells set in both grids.
    pub fn intersect(self, other: BitGrid) -> (r: BitGrid)
        ensures
            r@ == self@.intersect(other@),
            r.mask() == self.mask() & other.mask(),
    {
        let r = BitGrid { data: self.data & other.data };
        proof {
            assert forall|i: nat| #[trigger] r@.contains(i) == self@.intersect(other@).contains(i) by {
                if i < 64 {
                    lemma_bit_and(self.data, other.data, i as u64);
                }
            }
            assert(r@ =~= self@.intersect(other@));
        }
        r
    }

    /// The cells set in either grid.
    pub fn union(self, other: BitGrid) -> (r: BitGrid)
        ensures
            r@ == self@.union(other@),
            r.mask() == self.mask() | other.mask(),
    {
        let r = BitGrid { data: self.data | other.data };
        proof {
            assert forall|i: nat| #[trigger] r@.contains(i) == self@.union(other@).contains(i) by {
                if i < 64 {
                    lemma_bit_or(self.data, other.data, i as u64);
                }
            }
            assert(r@ =~= self@.union(other@));
        }
        r
    }

    /// Every cell flipped.
    pub fn negate(self) -> (r: BitGrid)
        ensures
            r@ == all_cells().difference(self@),
            r.mask() == !self.mask(),
    {
        let r = BitGrid { data: !self.data };
        proof {
            assert forall|i: nat| #[trigger] r@.contains(i) == all_cells().difference(self@).contains(i) by {
                if i < 64 {
                    lemma_bit_not(self.data, i as u64);
                }
            }
            assert(r@ =~= all_cells().difference(self@));
        }
        r
    }

    /// Whether no cell is set.
    pub fn none(&self) -> (r: bool)
        ensures
            r == (self@ == Set::<nat>::empty()),
    {
        proof {
            lemma_bits_empty(self.data);
        }
        self.data == 0
    }

    /// An iterator that hands out the indices of the set cells one at a
    /// time, lowest first.
    pub fn set_index_iter(self) -> (r: SetIndexIterator)
        ensures
            r@ == self@,
    {
        SetIndexIterator(self.data)
    }

    /// The indices of the set cells, in ascending order.
    pub fn iter_set_indexes(self) -> (r: Vec<u32>)
        ensures
            r@.map_values(|i: u32| i as nat) == ascending(self@),
    {
        let mut it = self.set_index_iter();
        let mut r: Vec<u32> = Vec::new();
        loop
            invariant
                r@.map_values(|i: u32| i as nat) + ascending(it@) == ascending(self@),
            decreases ascending(it@).len(),
        {
            match it.next() {
                None => {
                    proof {
                        lemma_ascending(it@);
                        if ascending(it@).len() > 0 {
                            assert(it@.contains(ascending(it@)[0]));
                        }
                    }
                    assert(r@.map_values(|i: u32| i as nat) =~= ascending(self@));
                    return r;
                },
                Some(i) => {
                    let ghost before = r@;
                    r.push(i);
                    assert(r@.map_values(|i: u32| i as nat) =~= before.map_values(|i: u32| i as nat).push(
                        i as nat,
                    ));
                },
            }
        }
    }

    /// The (column, row) coordinates of the set cells, in ascending index order.
    pub fn iter_set_cells(self) -> (r: Vec<(u32, u32)>)
        ensures
            r@ == ascending(self@).map_values(|i: nat| cell_of(i)),
    {
        let indexes = self.iter_set_indexes();
        let mut r: Vec<(u32, u32)> = Vec::new();
        let mut k: usize = 0;
        while k < indexes.len()
            invariant
                k <= indexes@.len(),
                indexes@.map_values(|i: u32| i as nat) == ascending(self@),
                r@ == ascending(self@).take(k as int).map_values(|i: nat| cell_of(i)),
            decreases indexes@.len() - k,
        {
            let index = indexes[k];
            proof {
                lemma_ascending(self@);
                assert(indexes@.map_values(|i: u32| i as nat)[k as int] == index as nat);
            }
            assert(ascending(self@)[k as int] == index as nat);
            let cell = BitGrid::cell_at_index(index);
            r.push(cell);
            k = k + 1;
            assert(ascending(self@).take(k as int) =~= ascending(self@).take(k - 1 as int).push(
                index as nat,
            ));
            assert(r@ =~= ascending(self@).take(k as int).map_values(|i: nat| cell_of(i)));
        }
        assert(ascending(self@).take(k as int) =~= ascending(self@));
        r
    }

    /// An iterator over every cell's value, in ascending index order.
    pub fn into_iter(self) -> (r: BitGridIter)
        ensures
            r.grid == self,
            r.index == 0,
    {
        BitGridIter { grid: self, index: 0 }
    }
}

/// The cells of a grid, read one at a time in ascending index order.
pub struct BitGridIter {
    pub grid: BitGrid,
    pub index: u32,
}

impl BitGridIter {
    /// The value of the next cell, or `None` after the last one.
    pub fn next(&mut self) -> (r: Option<bool>)
        requires
            old(self).index <= 64,
        ensures
            final(self).grid == old(self).grid,
            old(self).index < 64 ==> r == Some(old(self).grid@.contains(old(self).index as nat))
                && final(self).index == old(self).index + 1,
            old(self).index == 64 ==> r is None && final(self).index == 64,
    {
        if self.index < GRID_SIZE {
            let result = self.grid.get_at_index(self.index);
            self.index = self.index + 1;
            Some(result)
        } else {
            None
        }
    }
}

/// The indices of the set bits of a word, taken off from the lowest.
pub struct SetIndexIterator(u64);

impl SetIndexIterator {
    /// The bits not yet taken.
    pub closed spec fn word(&self) -> u64 {
        self.0
    }

    /// The indices not yet taken.
    pub open spec fn view(&self) -> Set<nat> {
        bits_of(self.word())
    }

    /// The lowest index not yet taken, which is then taken; `None` once every
    /// index has been taken.
    pub fn next(&mut self) -> (r: Option<u32>)
        ensures
            match r {
                None => old(self)@ == Set::<nat>::empty() && final(self)@ == old(self)@,
                Some(t) => t < 64 && final(self)@ == old(self)@.remove(t as nat) && ascending(
                    old(self)@,
                ) == seq![t as nat] + ascending(final(self)@),
            },
    {
        proof {
            lemma_bits_empty(self.0);
        }
        if self.0 == 0 {
            None
        } else {
            let x = self.0;
            proof {
                vstd::std_specs::bits::axiom_u64_trailing_zeros(x);
            }
            let result = x.trailing_zeros();
            self.0 = x & (x - 1);
            proof {
                let t = result as u64;
                assert forall|i: nat| #[trigger] bits_of(self.0).contains(i) == bits_of(x).remove(
                    t as nat,
                ).contains(i) by {
                    if i < 64 {
                        lemma_clear_lowest(x, t, i as u64);
                    }
                }
                assert(bits_of(self.0) =~= bits_of(x).remove(t as nat));
                assert forall|i: nat| i < t implies !bits_of(x).contains(i) by {
                    assert((x >> (i as u64)) & 1u64 == 0u64);
                }
                lemma_ascending_pop(bits_of(x), t as nat);
            }
            Some(result)
        }
    }
}

// Facts about single bits of a word.

proof fn lemma_bit_one_shl(k: u64, i: u64)
    requires
        k < 64,
        i < 64,
    ensures
        bit(1u64 << k, i) == (i == k),
{
    assert(k < 64 && i < 64 ==> (bit(1u64 << k, i) == (i == k))) by (bit_vector);
}

proof fn lemma_bit_mask(a: u64, i: u64)
    requires
        i < 64,
    ensures
        ((a & (1u64 << i)) != 0) == bit(a, i),
{
    assert(i < 64 ==> (((a & (1u64 << i)) != 0) == bit(a, i))) by (bit_vector);
}

/// Clearing the lowest set bit of `x` with `x & (x - 1)`.
proof fn lemma_clear_lowest(x: u64, t: u64, i: u64)
    requires
        x != 0,
        t < 64,
        i < 64,
        bit(x, t),
        x << vstd::prelude::sub(64u64, t) == 0,
    ensures
        bit(x & vstd::prelude::sub(x, 1u64), i) == (bit(x, i) && i != t),
        x & vstd::prelude::sub(x, 1u64) < x,
{
    assert(x != 0 && t < 64 && i < 64 && bit(x, t) && x << vstd::prelude::sub(64u64, t) == 0
        ==> (bit(x & vstd::prelude::sub(x, 1u64), i) == (bit(x, i) && i != t))) by (bit_vector);
    assert(x != 0 ==> x & vstd::prelude::sub(x, 1u64) < x) by (bit_vector);
}

/// A word with no set bit in the grid's range is zero, and the other way round.
proof fn lemma_bits_empty(d: u64)
    ensures
        (bits_of(d) == Set::<nat>::empty()) == (d == 0),
{
    if d == 0 {
        assert forall|i: nat| !(#[trigger] bits_of(d).contains(i)) by {
            if i < 64 {
                lemma_bit_zero(i as u64);
            }
        }
        assert(bits_of(d) =~= Set::<nat>::empty());
    } else {
        vstd::std_specs::bits::axiom_u64_trailing_zeros(d);
        let t = d.trailing_zeros();
        assert(bits_of(d).contains(t as nat));
    }
}

/// Two words with the same set bits are equal.
proof fn lemma_bits_injective(a: u64, b: u64)
    requires
        bits_of(a) == bits_of(b),
    ensures
        a == b,
{
    if a != b {
        let d = a ^ b;
        assert(a != b ==> d != 0) by (bit_vector)
            requires
                d == a ^ b,
        ;
        vstd::std_specs::bits::axiom_u64_trailing_zeros(d);
        let t = d.trailing_zeros() as u64;
        assert(t < 64);
        assert(bit(d, t));
        assert(t < 64 && bit(d, t) && d == a ^ b ==> bit(a, t) != bit(b, t)) by (bit_vector);
        assert(bit(a, t) != bit(b, t));
        let n = t as nat;
        assert(n as u64 == t);
        assert(bits_of(a).contains(n) == bit(a, t));
        assert(bits_of(b).contains(n) == bit(b, t));
    }
}

proof fn lemma_bit_zero(i: u64)
    ensures
        !bit(0u64, i),
{
    assert(!bit(0u64, i)) by (bit_vector);
}

proof fn lemma_bit_and(a: u64, b: u64, i: u64)
    requires
        i < 64,
    ensures
        bit(a & b, i) == (bit(a, i) && bit(b, i)),
{
    assert(i < 64 ==> (bit(a & b, i) == (bit(a, i) && bit(b, i)))) by (bit_vector);
}

proof fn lemma_bit_or(a: u64, b: u64, i: u64)
    requires
        i < 64,
    ensures
        bit(a | b, i) == (bit(a, i) || bit(b, i)),
{
    assert(i < 64 ==> (bit(a | b, i) == (bit(a, i) || bit(b, i)))) by (bit_vector);
}

proof fn lemma_bit_not(a: u64, i: u64)
    requires
        i < 64,
    ensures
        bit(!a, i) == !bit(a, i),
{
    assert(i < 64 ==> (bit(!a, i) == !bit(a, i))) by (bit_vector);
}

proof fn lemma_bit_shl(a: u64, k: u64, i: u64)
    requires
        k < 64,
        i < 64,
    ensures
        bit(a << k, i) == (i >= k && bit(a, (i - k) as u64)),
{
    assert(k < 64 && i < 64 ==> (bit(a << k, i) == (i >= k && bit(a, (i - k) as u64))))
        by (bit_vector);
}

proof fn lemma_bit_shr(a: u64, k: u64, i: u64)
    requires
        k < 64,
        i < 64,
    ensures
        bit(a >> k, i) == (i + k < 64 && bit(a, (i + k) as u64)),
{
    assert(k < 64 && i < 64 ==> (bit(a >> k, i) == (i + k < 64 && bit(a, (i + k) as u64))))
        by (bit_vector);
}

// Facts about ascending listings.

proof fn lemma_ascending_agree(s1: Set<nat>, s2: Set<nat>, lo: nat)
    requires
        forall|i: nat| lo <= i < 64 ==> s1.contains(i) == s2.contains(i),
    ensures
        ascending_from(s1, lo) == ascending_from(s2, lo),
    decreases 64 - lo,
{
    if lo < 64 {
        lemma_ascending_agree(s1, s2, lo + 1);
    }
}

proof fn lemma_ascending_skip(s: Set<nat>, lo: nat, t: nat)
    requires
        lo <= t <= 64,
        forall|i: nat| lo <= i < t ==> !s.contains(i),
    ensures
        ascending_from(s, lo) == ascending_from(s, t),
    decreases t - lo,
{
    if lo < t {
        lemma_ascending_skip(s, lo + 1, t);
    }
}

/// `ascending_from(s, lo)` lists exactly the elements of `s` in `[lo, 64)`,
/// each once, in strictly increasing order.
pub proof fn lemma_ascending_from(s: Set<nat>, lo: nat)
    ensures
        forall|k: int|
            0 <= k < ascending_from(s, lo).len() ==> lo <= #[trigger] ascending_from(s, lo)[k] < 64
                && s.contains(ascending_from(s, lo)[k]),
        forall|i: nat| lo <= i < 64 && s.contains(i) ==> #[trigger] ascending_from(s, lo).contains(i),
        forall|a: int, b: int|
            #![trigger ascending_from(s, lo)[a], ascending_from(s, lo)[b]]
            0 <= a < b < ascending_from(s, lo).len() ==> ascending_from(s, lo)[a]
                < ascending_from(s, lo)[b],
    decreases 64 - lo,
{
    if lo < 64 {
        lemma_ascending_from(s, lo + 1);
        let rest = ascending_from(s, lo + 1);
        if s.contains(lo) {
            let r = seq![lo] + rest;
            assert(ascending_from(s, lo) == r);
            assert forall|i: nat| lo <= i < 64 && s.contains(i) implies #[trigger] r.contains(i) by {
                if i == lo {
                    assert(r[0] == lo);
                } else {
                    assert(rest.contains(i));
                    let k = choose|k: int| 0 <= k < rest.len() && rest[k] == i;
                    assert(r[k + 1] == i);
                }
            }
            assert forall|a: int, b: int| #![trigger r[a], r[b]] 0 <= a < b < r.len() implies r[a] < r[b] by {
                if a > 0 {
                    assert(rest[a - 1] < rest[b - 1]);
                } else {
                    assert(r[b] == rest[b - 1]);
                }
            }
        }
    }
}

/// The indices of `s` in ascending order list exactly `s`, sorted.
pub proof fn lemma_ascending(s: Set<nat>)
    ensures
        forall|k: int|
            0 <= k < ascending(s).len() ==> #[trigger] ascending(s)[k] < 64 && s.contains(
                ascending(s)[k],
            ),
        forall|i: nat| i < 64 && s.contains(i) ==> #[trigger] ascending(s).contains(i),
        forall|a: int, b: int|
            #![trigger ascending(s)[a], ascending(s)[b]]
            0 <= a < b < ascending(s).len() ==> ascending(s)[a] < ascending(s)[b],
{
    lemma_ascending_from(s, 0);
}

/// Taking the smallest element `t` off `s` takes the first index off its
/// ascending listing.
proof fn lemma_ascending_pop(s: Set<nat>, t: nat)
    requires
        t < 64,
        s.contains(t),
        forall|i: nat| i < t ==> !s.contains(i),
    ensures
        ascending(s) == seq![t] + ascending(s.remove(t)),
{
    lemma_ascending_skip(s, 0, t);
    lemma_ascending_skip(s.remove(t), 0, t + 1);
    lemma_ascending_agree(s, s.remove(t), t + 1);
}

/// Two grids with the same set cells are the same grid.
pub proof fn lemma_view_injective(a: BitGrid, b: BitGrid)
    requires
        a@ == b@,
    ensures
        a == b,
{
    lemma_bits_injective(a.data, b.data);
}

/// Setting a cell to a value and reading it back gives that value, and
/// setting it to the same value again changes nothing.
pub proof fn lemma_set_then_get(b: BitGrid, x: u32, y: u32, value: bool)
    requires
        x < 8,
        y < 8,
    ensures
        with_cell(b@, cell_index(x as int, y as int) as nat, value).contains(
            cell_index(x as int, y as int) as nat,
        ) == value,
        with_cell(
            with_cell(b@, cell_index(x as int, y as int) as nat, value),
            cell_index(x as int, y as int) as nat,
            value,
        ) == with_cell(b@, cell_index(x as int, y as int) as nat, value),
{
    let i = cell_index(x as int, y as int) as nat;
    assert(with_cell(with_cell(b@, i, value), i, value) =~= with_cell(b@, i, value));
}

/// A grid intersected or united with itself is itself, and so is a grid
/// negated twice.
pub proof fn lemma_self_operations(b: BitGrid)
    ensures
        b@.intersect(b@) == b@,
        b@.union(b@) == b@,
        all_cells().difference(all_cells().difference(b@)) == b@,
        b.mask() & b.mask() == b.mask(),
        b.mask() | b.mask() == b.mask(),
        !(!b.mask()) == b.mask(),
{
    assert(b@.intersect(b@) =~= b@);
    assert(b@.union(b@) =~= b@);
    assert(all_cells().difference(all_cells().difference(b@)) =~= b@);
    let d = b.mask();
    assert(d & d == d && d | d == d && !(!d) == d) by (bit_vector);
}

/// The empty grid has no set cell, and a grid in which some cell has been set
/// has one.
pub proof fn lemma_emptiness(b: BitGrid, x: u32, y: u32)
    requires
        x < 8,
        y < 8,
    ensures
        bits_of(0) == Set::<nat>::empty(),
        with_cell(b@, cell_index(x as int, y as int) as nat, true) != Set::<nat>::empty(),
{
    lemma_bits_empty(0);
    assert(with_cell(b@, cell_index(x as int, y as int) as nat, true).contains(
        cell_index(x as int, y as int) as nat,
    ));
}

} // verus!
