use vstd::prelude::*;

verus! {

/// The position in the row-major store of the cell `(x, y)` of an `x_len` by `y_len` grid,
/// whose first row is the one with the largest `y`.
pub open spec fn store_index(x_len: int, y_len: int, x: int, y: int) -> int {
    (y_len - 1 - y) * x_len + x
}

/// Distinct cells of a grid have distinct positions in its store, all within it.
pub proof fn lemma_store_index(x_len: int, y_len: int, x: int, y: int, x2: int, y2: int)
    requires
        0 <= x < x_len,
        0 <= y < y_len,
        0 <= x2 < x_len,
        0 <= y2 < y_len,
    ensures
        0 <= store_index(x_len, y_len, x, y) < x_len * y_len,
        (x, y) != (x2, y2) ==> store_index(x_len, y_len, x, y) != store_index(x_len, y_len, x2, y2),
{
    let r = y_len - 1 - y;
    let r2 = y_len - 1 - y2;
    assert(0 <= r * x_len + x < x_len * y_len) by (nonlinear_arith)
        requires
            0 <= r < y_len,
            0 <= x < x_len,
    ;
    if r != r2 {
        assert(r * x_len + x != r2 * x_len + x2) by (nonlinear_arith)
            requires
                r != r2,
                0 <= x < x_len,
                0 <= x2 < x_len,
        ;
    }
}

/// A two-dimensional array of values, `x_len` wide and `y_len` high.
#[derive(Debug)]
pub struct Grid<T> {
    store: Vec<T>,
    x_len: usize,
    y_len: usize,
}

impl<T> Grid<T> {
    /// The grid is well formed: it stores exactly `width() * height()` cells.
    pub closed spec fn wf(self) -> bool {
        self.store.len() == self.x_len * self.y_len
    }

    /// The width.
    pub closed spec fn width(self) -> nat {
        self.x_len as nat
    }

    /// The height.
    pub closed spec fn height(self) -> nat {
        self.y_len as nat
    }

    /// The cells in the order in which they are stored: rows from the largest `y` down, each
    /// from `x = 0` up.
    pub closed spec fn cells(self) -> Seq<T> {
        self.store@
    }

    /// The value of the cell `(x, y)`, for `x < width()` and `y < height()`.
    pub open spec fn cell(self, x: int, y: int) -> T {
        self.cells()[store_index(self.width() as int, self.height() as int, x, y)]
    }
}

proof fn lemma_index_split(x_len: int, y_len: int, x: int, y: int)
    requires
        0 <= x < x_len,
        0 <= y < y_len,
    ensures
        store_index(x_len, y_len, x, y) % x_len == x,
        store_index(x_len, y_len, x, y) / x_len == y_len - 1 - y,
{
    let r = y_len - 1 - y;
    assert(store_index(x_len, y_len, x, y) == x_len * r + x) by (nonlinear_arith)
        requires
            store_index(x_len, y_len, x, y) == r * x_len + x,
    ;
    vstd::arithmetic::div_mod::lemma_fundamental_div_mod_converse(
        store_index(x_len, y_len, x, y),
        x_len,
        r,
        x,
    );
}

impl<T: Copy + Default> Grid<T> {
    /// An `x_len` by `y_len` grid whose cells all hold `T::default()`.
    pub fn new(x_len: usize, y_len: usize) -> (r: Self)
        requires
            x_len * y_len <= usize::MAX,
        ensures
            r.wf(),
            r.width() == x_len,
            r.height() == y_len,
            r.cells().len() == x_len * y_len,
            forall|i: int, j: int|
                0 <= i < r.cells().len() && 0 <= j < r.cells().len() ==> #[trigger] r.cells()[i]
                    == #[trigger] r.cells()[j],
            forall|i: int| 0 <= i < r.cells().len() ==> call_ensures(T::default, (), #[trigger] r.cells()[i]),
    {
        let n = x_len * y_len;
        let make = T::default;
        let value = make();
        let mut store: Vec<T> = Vec::new();
        while store.len() < n
            invariant
                store.len() <= n,
                forall|i: int| 0 <= i < store.len() ==> #[trigger] store@[i] == value,
                call_ensures(T::default, (), value),
            decreases n - store.len(),
        {
            store.push(value);
        }
        Grid { store, x_len, y_len }
    }

    /// An `x_len` by `y_len` grid over the values of `vec`, stored row by row from the largest
    /// `y` down.
    pub fn from_vec(x_len: usize, y_len: usize, vec: Vec<T>) -> (r: Self)
        requires
            vec.len() == x_len * y_len,
        ensures
            r.wf(),
            r.width() == x_len,
            r.height() == y_len,
            r.cells() == vec@,
    {
        Grid { store: vec, x_len, y_len }
    }

    /// The `x_len` by `y_len` grid whose cell `(x, y)` holds `f(x, y)`.
    pub fn from_fn(x_len: usize, y_len: usize, f: impl Fn(usize, usize) -> T + Sync) -> (r: Self) where T: Send
        requires
            x_len * y_len <= usize::MAX,
            forall|x: usize, y: usize| x < x_len && y < y_len ==> #[trigger] f.requires((x, y)),
        ensures
            r.wf(),
            r.width() == x_len,
            r.height() == y_len,
            forall|x: int, y: int|
                0 <= x < x_len && 0 <= y < y_len ==> f.ensures(
                    (x as usize, y as usize),
                    #[trigger] r.cell(x, y),
                ),
    {
        let store = fill_from_fn(x_len, y_len, &f);
        let r = Grid { store, x_len, y_len };
        proof {
            assert forall|x: int, y: int| 0 <= x < x_len && 0 <= y < y_len implies f.ensures(
                (x as usize, y as usize),
                #[trigger] r.cell(x, y),
            ) by {
                lemma_index_split(x_len as int, y_len as int, x, y);
                lemma_store_index(x_len as int, y_len as int, x, y, x, y);
            }
        }
        r
    }

    /// Replaces the value of every cell `(x, y)` by `f(x, y)`.
    pub fn regenerate_from_fn(&mut self, f: impl Fn(usize, usize) -> T + Sync) where T: Send
        requires
            old(self).wf(),
            forall|x: usize, y: usize|
                x < old(self).width() && y < old(self).height() ==> #[trigger] f.requires((x, y)),
        ensures
            final(self).wf(),
            final(self).width() == old(self).width(),
            final(self).height() == old(self).height(),
            forall|x: int, y: int|
                0 <= x < final(self).width() && 0 <= y < final(self).height() ==> f.ensures(
                    (x as usize, y as usize),
                    #[trigger] final(self).cell(x, y),
                ),
    {
        let x_len = self.x_len;
        let y_len = self.y_len;
        let store = fill_from_fn(x_len, y_len, &f);
        *self = Grid { store, x_len, y_len };
        proof {
            assert forall|x: int, y: int| 0 <= x < x_len && 0 <= y < y_len implies f.ensures(
                (x as usize, y as usize),
                #[trigger] self.cell(x, y),
            ) by {
                lemma_index_split(x_len as int, y_len as int, x, y);
                lemma_store_index(x_len as int, y_len as int, x, y, x, y);
            }
        }
    }

    /// The width.
    pub fn x_len(&self) -> (r: usize)
        ensures
            r == self.width(),
    {
        self.x_len
    }

    /// The height.
    pub fn y_len(&self) -> (r: usize)
        ensures
            r == self.height(),
    {
        self.y_len
    }

    /// The number of cells: `width() * height()`.
    pub fn len(&self) -> (r: usize)
        requires
            self.wf(),
        ensures
            r == self.width() * self.height(),
            r == self.cells().len(),
    {
        self.store.len()
    }

    /// The value of the cell `(x_index, y_index)`.
    pub fn get(&self, x_index: usize, y_index: usize) -> (r: T)
        requires
            self.wf(),
            x_index < self.width(),
            y_index < self.height(),
        ensures
            r == self.cell(x_index as int, y_index as int),
    {
        proof {
            lemma_store_index(
                self.x_len as int,
                self.y_len as int,
                x_index as int,
                y_index as int,
                x_index as int,
                y_index as int,
            );
        }
        self.store[(self.y_len - 1 - y_index) * self.x_len + x_index]
    }

    /// Sets the cell `(x_index, y_index)` to `item`; every other cell keeps its value.
    pub fn set(&mut self, x_index: usize, y_index: usize, item: T)
        requires
            old(self).wf(),
            x_index < old(self).width(),
            y_index < old(self).height(),
        ensures
            final(self).wf(),
            final(self).width() == old(self).width(),
            final(self).height() == old(self).height(),
            final(self).cell(x_index as int, y_index as int) == item,
            forall|x: int, y: int|
                0 <= x < old(self).width() && 0 <= y < old(self).height() && (x, y) != (
                    x_index as int,
                    y_index as int,
                ) ==> #[trigger] final(self).cell(x, y) == old(self).cell(x, y),
    {
        proof {
            lemma_store_index(
                self.x_len as int,
                self.y_len as int,
                x_index as int,
                y_index as int,
                x_index as int,
                y_index as int,
            );
        }
        let index = (self.y_len - 1 - y_index) * self.x_len + x_index;
        let x_len = self.x_len;
        let y_len = self.y_len;
        self.store.set(index, item);
        proof {
            assert forall|x: int, y: int|
                0 <= x < x_len && 0 <= y < y_len && (x, y) != (
                    x_index as int,
                    y_index as int,
                ) implies #[trigger] self.cell(x, y) == old(self).cell(x, y) by {
                lemma_store_index(x_len as int, y_len as int, x, y, x_index as int, y_index as int);
            }
        }
    }
}

/// The values `f(index % x_len, y_len - 1 - index / x_len)` for every index of the store.
fn fill_from_fn<T, F: Fn(usize, usize) -> T>(x_len: usize, y_len: usize, f: &F) -> (store: Vec<T>)
    requires
        x_len * y_len <= usize::MAX,
        forall|x: usize, y: usize| x < x_len && y < y_len ==> #[trigger] f.requires((x, y)),
    ensures
        store.len() == x_len * y_len,
        forall|k: int|
            0 <= k < x_len * y_len ==> f.ensures(
                ((k % x_len as int) as usize, (y_len - 1 - k / x_len as int) as usize),
                #[trigger] store@[k],
            ),
{
    let n = x_len * y_len;
    let mut store: Vec<T> = Vec::new();
    let mut index: usize = 0;
    while index < n
        invariant
            n == x_len * y_len,
            index <= n,
            store.len() == index,
            forall|x: usize, y: usize| x < x_len && y < y_len ==> #[trigger] f.requires((x, y)),
            forall|k: int|
                0 <= k < index ==> f.ensures(
                    ((k % x_len as int) as usize, (y_len - 1 - k / x_len as int) as usize),
                    #[trigger] store@[k],
                ),
        decreases n - index,
    {
        proof {
            assert(x_len > 0) by (nonlinear_arith)
                requires
                    index < n,
                    n == x_len * y_len,
                    index >= 0,
            ;
            vstd::arithmetic::div_mod::lemma_fundamental_div_mod(index as int, x_len as int);
            assert(index / x_len < y_len) by (nonlinear_arith)
                requires
                    index == x_len * (index / x_len) + index % x_len,
                    index % x_len >= 0,
                    index < x_len * y_len,
                    x_len > 0,
            ;
        }
        let x = index % x_len;
        let y = y_len - 1 - index / x_len;
        let value = f(x, y);
        store.push(value);
        index = index + 1;
    }
    store
}

} // verus!
