//! Cells and rows of versioned tables, and their order.

use vstd::prelude::*;

use crate::octets::{bytes_eq, bytes_order, Order};
use crate::text::{str_order, Dup, Same};

verus! {

broadcast use crate::text::lemma_bytes_deep_view;

/// One cell, over the types of its text and of its bytes. A real number is
/// kept as its bits.
#[derive(Debug, Clone, PartialEq, Eq, PartialOrd, Ord, Hash)]
pub enum VcValue<T = String, B = Vec<u8>> {
    Null,
    Integer(i64),
    Real(u64),
    Text(T),
    Blob(B),
}

/// What a cell stands for.
pub type CellModel = VcValue<Seq<char>, Seq<u8>>;

/// What a row stands for.
pub type RowModel = Seq<CellModel>;

impl DeepView for VcValue {
    type V = CellModel;

    open spec fn deep_view(&self) -> CellModel {
        match *self {
            VcValue::Null => VcValue::Null,
            VcValue::Integer(i) => VcValue::Integer(i),
            VcValue::Real(b) => VcValue::Real(b),
            VcValue::Text(s) => VcValue::Text(s@),
            VcValue::Blob(b) => VcValue::Blob(b@),
        }
    }
}

impl Dup for VcValue {
    fn dup(&self) -> (r: Self) {
        match self {
            VcValue::Null => VcValue::Null,
            VcValue::Integer(i) => VcValue::Integer(*i),
            VcValue::Real(b) => VcValue::Real(*b),
            VcValue::Text(s) => VcValue::Text(s.clone()),
            VcValue::Blob(b) => VcValue::Blob(b.dup()),
        }
    }
}

impl Same for VcValue {
    fn same(&self, other: &Self) -> (r: bool) {
        match (self, other) {
            (VcValue::Null, VcValue::Null) => true,
            (VcValue::Integer(a), VcValue::Integer(b)) => *a == *b,
            (VcValue::Real(a), VcValue::Real(b)) => *a == *b,
            (VcValue::Text(a), VcValue::Text(b)) => *a == *b,
            (VcValue::Blob(a), VcValue::Blob(b)) => bytes_eq(a.as_slice(), b.as_slice()),
            _ => false,
        }
    }
}

/// A row of a table.
#[derive(Debug, Clone, PartialEq, Eq, PartialOrd, Ord, Hash)]
pub struct VcRow {
    pub values: Vec<VcValue>,
}

impl DeepView for VcRow {
    type V = RowModel;

    open spec fn deep_view(&self) -> RowModel {
        self.values.deep_view()
    }
}

impl Dup for VcRow {
    fn dup(&self) -> (r: Self) {
        VcRow { values: self.values.dup() }
    }
}

impl Same for VcRow {
    fn same(&self, other: &Self) -> (r: bool) {
        self.values.same(&other.values)
    }
}

impl VcRow {
    pub fn new(values: Vec<VcValue>) -> (r: Self)
        ensures
            r.deep_view() == values.deep_view(),
    {
        VcRow { values }
    }
}

/// The place of a cell's kind in the order of cells.
pub open spec fn cell_rank(v: CellModel) -> int {
    match v {
        VcValue::Null => 0,
        VcValue::Integer(_) => 1,
        VcValue::Real(_) => 2,
        VcValue::Text(_) => 3,
        VcValue::Blob(_) => 4,
    }
}

/// Cell order: by kind, then by value.
pub open spec fn cell_lt(a: CellModel, b: CellModel) -> bool {
    if cell_rank(a) != cell_rank(b) {
        cell_rank(a) < cell_rank(b)
    } else {
        match (a, b) {
            (VcValue::Integer(x), VcValue::Integer(y)) => x < y,
            (VcValue::Real(x), VcValue::Real(y)) => x < y,
            (VcValue::Text(x), VcValue::Text(y)) => crate::text::text_lt(x, y),
            (VcValue::Blob(x), VcValue::Blob(y)) => crate::octets::bytes_lt(x, y),
            _ => false,
        }
    }
}

pub proof fn lemma_cell_lt_total(a: CellModel, b: CellModel)
    ensures
        !cell_lt(a, a),
        !(cell_lt(a, b) && cell_lt(b, a)),
        cell_lt(a, b) || a == b || cell_lt(b, a),
{
    match (a, b) {
        (VcValue::Text(x), VcValue::Text(y)) => {
            crate::text::lemma_text_lt_total(x, y);
        },
        (VcValue::Blob(x), VcValue::Blob(y)) => {
            crate::octets::lemma_bytes_lt_total(x, y);
        },
        _ => {},
    }
    match a {
        VcValue::Text(x) => {
            crate::text::lemma_text_lt_total(x, x);
        },
        VcValue::Blob(x) => {
            crate::octets::lemma_bytes_lt_total(x, x);
        },
        _ => {},
    }
}

pub proof fn lemma_cell_lt_trans(a: CellModel, b: CellModel, c: CellModel)
    requires
        cell_lt(a, b),
        cell_lt(b, c),
    ensures
        cell_lt(a, c),
{
    match (a, b, c) {
        (VcValue::Text(x), VcValue::Text(y), VcValue::Text(z)) => {
            crate::octets::lemma_bytes_lt_trans(
                crate::text::utf8(x),
                crate::text::utf8(y),
                crate::text::utf8(z),
            );
        },
        (VcValue::Blob(x), VcValue::Blob(y), VcValue::Blob(z)) => {
            crate::octets::lemma_bytes_lt_trans(x, y, z);
        },
        _ => {},
    }
}

/// Compare two cells.
pub fn cell_order(a: &VcValue, b: &VcValue) -> (r: Order)
    ensures
        r == Order::Before <==> cell_lt(a.deep_view(), b.deep_view()),
        r == Order::Equal <==> a.deep_view() == b.deep_view(),
        r == Order::After <==> cell_lt(b.deep_view(), a.deep_view()),
{
    match (a, b) {
        (VcValue::Null, VcValue::Null) => Order::Equal,
        (VcValue::Integer(x), VcValue::Integer(y)) => if *x < *y {
            Order::Before
        } else if *x == *y {
            Order::Equal
        } else {
            Order::After
        },
        (VcValue::Real(x), VcValue::Real(y)) => if *x < *y {
            Order::Before
        } else if *x == *y {
            Order::Equal
        } else {
            Order::After
        },
        (VcValue::Text(x), VcValue::Text(y)) => str_order(x.as_str(), y.as_str()),
        (VcValue::Blob(x), VcValue::Blob(y)) => bytes_order(x.as_slice(), y.as_slice()),
        _ => if rank(a) < rank(b) {
            Order::Before
        } else {
            Order::After
        },
    }
}

fn rank(v: &VcValue) -> (r: u8)
    ensures
        r == cell_rank(v.deep_view()),
{
    match v {
        VcValue::Null => 0,
        VcValue::Integer(_) => 1,
        VcValue::Real(_) => 2,
        VcValue::Text(_) => 3,
        VcValue::Blob(_) => 4,
    }
}

/// Row order: the first differing cell decides, and a proper prefix comes first.
pub open spec fn row_lt(a: RowModel, b: RowModel) -> bool {
    exists|k: int|
        0 <= k <= a.len() && k < b.len() && #[trigger] a.take(k) == b.take(k) && (k == a.len() || (k
            < a.len() && cell_lt(a[k], b[k])))
}

/// The order is total and strict.
pub proof fn lemma_row_lt_total(a: RowModel, b: RowModel)
    ensures
        !row_lt(a, a),
        !(row_lt(a, b) && row_lt(b, a)),
        row_lt(a, b) || a == b || row_lt(b, a),
{
    if row_lt(a, a) {
        let k = choose|k: int|
            0 <= k <= a.len() && k < a.len() && #[trigger] a.take(k) == a.take(k) && (k == a.len() || (k
                < a.len() && cell_lt(a[k], a[k])));
        lemma_cell_lt_total(a[k], a[k]);
    }
    if row_lt(a, b) && row_lt(b, a) {
        let k = choose|k: int|
            0 <= k <= a.len() && k < b.len() && #[trigger] a.take(k) == b.take(k) && (k == a.len() || (k
                < a.len() && cell_lt(a[k], b[k])));
        let m = choose|m: int|
            0 <= m <= b.len() && m < a.len() && #[trigger] b.take(m) == a.take(m) && (m == b.len() || (m
                < b.len() && cell_lt(b[m], a[m])));
        if k < m {
            assert(b.take(m)[k] == a.take(m)[k]);
            lemma_cell_lt_total(a[k], b[k]);
        } else if m < k {
            assert(a.take(k)[m] == b.take(k)[m]);
            lemma_cell_lt_total(a[m], b[m]);
        } else {
            lemma_cell_lt_total(a[k], b[k]);
        }
    }
    assert(a.take(0) =~= b.take(0));
    lemma_row_lt_connected(a, b, 0);
}

proof fn lemma_row_lt_connected(a: RowModel, b: RowModel, k: int)
    requires
        0 <= k <= a.len(),
        k <= b.len(),
        a.take(k) == b.take(k),
    ensures
        row_lt(a, b) || a == b || row_lt(b, a),
    decreases a.len() - k,
{
    if k == a.len() && k == b.len() {
        assert(a.take(k) =~= a);
        assert(b.take(k) =~= b);
    } else if k < a.len() && k < b.len() {
        if a[k] == b[k] {
            assert(a.take(k + 1) =~= a.take(k).push(a[k]));
            assert(b.take(k + 1) =~= b.take(k).push(b[k]));
            lemma_row_lt_connected(a, b, k + 1);
        } else {
            lemma_cell_lt_total(a[k], b[k]);
        }
    }
}

/// The order is transitive.
pub proof fn lemma_row_lt_trans(a: RowModel, b: RowModel, c: RowModel)
    requires
        row_lt(a, b),
        row_lt(b, c),
    ensures
        row_lt(a, c),
{
    let k = choose|k: int|
        0 <= k <= a.len() && k < b.len() && #[trigger] a.take(k) == b.take(k) && (k == a.len() || (k
            < a.len() && cell_lt(a[k], b[k])));
    let m = choose|m: int|
        0 <= m <= b.len() && m < c.len() && #[trigger] b.take(m) == c.take(m) && (m == b.len() || (m
            < b.len() && cell_lt(b[m], c[m])));
    if k <= m {
        assert(a.take(k) =~= c.take(k)) by {
            assert forall|j: int| 0 <= j < k implies a[j] == c[j] by {
                assert(a.take(k)[j] == b.take(k)[j]);
                assert(b.take(m)[j] == c.take(m)[j]);
            }
        }
        if k < m {
            assert(b.take(m)[k] == c.take(m)[k]);
        } else if k < a.len() {
            lemma_cell_lt_trans(a[k], b[k], c[k]);
        }
    } else {
        assert(a.take(m) =~= c.take(m)) by {
            assert forall|j: int| 0 <= j < m implies a[j] == c[j] by {
                assert(a.take(k)[j] == b.take(k)[j]);
                assert(b.take(m)[j] == c.take(m)[j]);
            }
        }
        assert(a.take(k)[m] == b.take(k)[m]);
    }
}

/// Compare two rows.
pub fn row_order(a: &Vec<VcValue>, b: &Vec<VcValue>) -> (r: Order)
    ensures
        r == Order::Before <==> row_lt(a.deep_view(), b.deep_view()),
        r == Order::Equal <==> a.deep_view() == b.deep_view(),
        r == Order::After <==> row_lt(b.deep_view(), a.deep_view()),
{
    let ghost x = a.deep_view();
    let ghost y = b.deep_view();
    proof {
        lemma_row_lt_total(x, y);
        lemma_row_lt_total(y, x);
    }
    let mut i: usize = 0;
    while i < a.len() && i < b.len()
        invariant
            i <= a.len(),
            i <= b.len(),
            x == a.deep_view(),
            y == b.deep_view(),
            forall|j: int| 0 <= j < i ==> x[j] == y[j],
            !row_lt(x, x),
            !(row_lt(x, y) && row_lt(y, x)),
        decreases a.len() - i,
    {
        assert(x[i as int] == a@[i as int].deep_view());
        assert(y[i as int] == b@[i as int].deep_view());
        assert(x.take(i as int) =~= y.take(i as int));
        proof {
            lemma_cell_lt_total(x[i as int], y[i as int]);
        }
        match cell_order(&a[i], &b[i]) {
            Order::Equal => {
                i = i + 1;
            },
            Order::Before => {
                assert(row_lt(x, y));
                return Order::Before;
            },
            Order::After => {
                assert(y.take(i as int) == x.take(i as int));
                assert(row_lt(y, x));
                return Order::After;
            },
        }
    }
    assert(x.take(i as int) =~= y.take(i as int));
    if i == a.len() && i == b.len() {
        assert(x =~= y);
        Order::Equal
    } else if i == a.len() {
        assert(row_lt(x, y));
        Order::Before
    } else {
        assert(y.take(i as int) == x.take(i as int));
        assert(row_lt(y, x));
        Order::After
    }
}

/// Are the rows in order, each no greater than those behind it?
pub open spec fn rows_sorted(s: Seq<RowModel>) -> bool {
    forall|i: int, j: int| 0 <= i < j < s.len() ==> !row_lt(#[trigger] s[j], #[trigger] s[i])
}

/// Are the rows strictly increasing?
pub open spec fn rows_increasing(s: Seq<RowModel>) -> bool {
    forall|i: int, j: int| 0 <= i < j < s.len() ==> row_lt(#[trigger] s[i], #[trigger] s[j])
}

/// Where a row goes in a sorted list: behind all that do not come after it.
fn place(v: &Vec<Vec<VcValue>>, row: &Vec<VcValue>) -> (i: usize)
    ensures
        i <= v@.len(),
        forall|j: int|
            0 <= j < i ==> !row_lt(row.deep_view(), #[trigger] v.deep_view()[j]),
        i < v@.len() ==> row_lt(row.deep_view(), v.deep_view()[i as int]),
{
    let mut i: usize = 0;
    while i < v.len()
        invariant
            i <= v@.len(),
            forall|j: int|
                0 <= j < i ==> !row_lt(row.deep_view(), #[trigger] v.deep_view()[j]),
        decreases v.len() - i,
    {
        assert(v.deep_view()[i as int] == v@[i as int].deep_view());
        match row_order(row, &v[i]) {
            Order::Before => {
                return i;
            },
            _ => {
                i = i + 1;
            },
        }
    }
    i
}

/// Insert a row into a sorted list.
pub fn insert_row(v: &mut Vec<Vec<VcValue>>, row: Vec<VcValue>)
    requires
        rows_sorted(old(v).deep_view()),
    ensures
        rows_sorted(final(v).deep_view()),
        final(v).deep_view().to_multiset() == old(v).deep_view().to_multiset().insert(
            row.deep_view(),
        ),
{
    let ghost s = v.deep_view();
    let ghost t = row.deep_view();
    let i: usize = place(v, &row);
    v.insert(i, row);
    proof {
        let r = s.insert(i as int, t);
        assert(v.deep_view() =~= r);
        assert forall|a: int, b: int| 0 <= a < b < r.len() implies !row_lt(
            #[trigger] r[b],
            #[trigger] r[a],
        ) by {
            let x = if a < i {
                a
            } else {
                a - 1
            };
            let y = if b < i {
                b
            } else {
                b - 1
            };
            if a != i {
                assert(r[a] == s[x]);
            }
            if b != i {
                assert(r[b] == s[y]);
            }
            if a == i && row_lt(s[y], t) {
                lemma_row_lt_trans(s[y], t, s[i as int]);
                lemma_row_lt_total(s[y], s[y]);
                if y > i {
                    assert(!row_lt(s[y], s[i as int]));
                }
            }
        }
        lemma_multiset_insert(s, i as int, t);
    }
}

/// Inserting at any place adds one occurrence.
pub proof fn lemma_multiset_insert<A>(s: Seq<A>, i: int, t: A)
    requires
        0 <= i <= s.len(),
    ensures
        s.insert(i, t).to_multiset() == s.to_multiset().insert(t),
{
    let a = s.take(i);
    let b = s.skip(i);
    assert(s =~= a + b);
    assert(s.insert(i, t) =~= a + (seq![t] + b));
    vstd::seq_lib::lemma_multiset_commutative(a, b);
    vstd::seq_lib::lemma_multiset_commutative(a, seq![t] + b);
    vstd::seq_lib::lemma_multiset_commutative(seq![t], b);
    assert(seq![t] =~= Seq::<A>::empty().push(t));
    broadcast use vstd::seq_lib::group_to_multiset_ensures;

    assert(seq![t].to_multiset() =~= vstd::multiset::Multiset::singleton(t));
    assert(s.insert(i, t).to_multiset() =~= s.to_multiset().insert(t));
}

/// Insert a row into a list of distinct rows, unless it is there.
pub fn insert_distinct(v: &mut Vec<Vec<VcValue>>, row: Vec<VcValue>)
    requires
        rows_increasing(old(v).deep_view()),
    ensures
        rows_increasing(final(v).deep_view()),
        final(v).deep_view().to_set() == old(v).deep_view().to_set().insert(row.deep_view()),
{
    let ghost s = v.deep_view();
    let ghost t = row.deep_view();
    let mut i: usize = 0;
    while i < v.len()
        invariant
            i <= v@.len(),
            *v == *old(v),
            s == v.deep_view(),
            t == row.deep_view(),
            rows_increasing(s),
            forall|j: int| 0 <= j < i ==> row_lt(#[trigger] s[j], t),
        decreases v.len() - i,
    {
        assert(s[i as int] == v@[i as int].deep_view());
        match row_order(&v[i], &row) {
            Order::Before => {
                i = i + 1;
            },
            Order::Equal => {
                assert(s.to_set().contains(t));
                assert(s.to_set().insert(t) =~= s.to_set());
                return ;
            },
            Order::After => {
                proof {
                    assert forall|j: int| i <= j < s.len() implies row_lt(t, #[trigger] s[j]) by {
                        if j > i {
                            lemma_row_lt_trans(t, s[i as int], s[j]);
                        }
                    }
                }
                v.insert(i, row);
                proof {
                    lemma_insert_distinct(s, i as int, t);
                    assert(v.deep_view() =~= s.insert(i as int, t));
                }
                return ;
            },
        }
    }
    v.push(row);
    proof {
        lemma_insert_distinct(s, i as int, t);
        assert(v.deep_view() =~= s.insert(i as int, t));
    }
}

proof fn lemma_insert_distinct(s: Seq<RowModel>, i: int, t: RowModel)
    requires
        rows_increasing(s),
        0 <= i <= s.len(),
        forall|j: int| 0 <= j < i ==> row_lt(#[trigger] s[j], t),
        forall|j: int| i <= j < s.len() ==> row_lt(t, #[trigger] s[j]),
    ensures
        rows_increasing(s.insert(i, t)),
        s.insert(i, t).to_set() == s.to_set().insert(t),
{
    let r = s.insert(i, t);
    assert forall|a: int, b: int| 0 <= a < b < r.len() implies row_lt(
        #[trigger] r[a],
        #[trigger] r[b],
    ) by {
        let x = if a < i {
            a
        } else {
            a - 1
        };
        let y = if b < i {
            b
        } else {
            b - 1
        };
        if a != i {
            assert(r[a] == s[x]);
        }
        if b != i {
            assert(r[b] == s[y]);
        }
    }
    assert forall|x: RowModel| r.to_set().contains(x) <==> s.to_set().insert(t).contains(x) by {
        if r.contains(x) && x != t {
            let j = choose|j: int| 0 <= j < r.len() && r[j] == x;
            let y = if j < i {
                j
            } else {
                j - 1
            };
            assert(s[y] == x);
        }
        if s.contains(x) {
            let j = choose|j: int| 0 <= j < s.len() && s[j] == x;
            let y = if j < i {
                j
            } else {
                j + 1
            };
            assert(r[y] == x);
        }
        assert(r[i] == t);
    }
    assert(r.to_set() =~= s.to_set().insert(t));
}

/// An increasing list is fixed by its set of rows.
pub proof fn lemma_increasing_unique(a: Seq<RowModel>, b: Seq<RowModel>)
    requires
        rows_increasing(a),
        rows_increasing(b),
        a.to_set() == b.to_set(),
    ensures
        a == b,
    decreases a.len(),
{
    if a.len() == 0 {
        if b.len() > 0 {
            assert(b.to_set().contains(b[0]));
            assert(a.to_set().contains(b[0]));
        }
        assert(a =~= b);
    } else {
        assert(a.to_set().contains(a[0]));
        assert(b.contains(a[0]));
        assert(b.len() > 0);
        assert(b.to_set().contains(b[0]));
        assert(a.contains(b[0]));
        let i = choose|i: int| 0 <= i < b.len() && b[i] == a[0];
        let j = choose|j: int| 0 <= j < a.len() && a[j] == b[0];
        lemma_row_lt_total(a[0], b[0]);
        assert(a[0] == b[0]);
        let x = a.drop_first();
        let y = b.drop_first();
        assert forall|r: RowModel| x.to_set().contains(r) <==> y.to_set().contains(r) by {
            lemma_row_lt_total(a[0], a[0]);
            if x.contains(r) {
                let k = choose|k: int| 0 <= k < x.len() && x[k] == r;
                assert(a[k + 1] == r);
                assert(row_lt(a[0], a[k + 1]));
                assert(a.to_set().contains(r));
                assert(b.contains(r));
                let m = choose|m: int| 0 <= m < b.len() && b[m] == r;
                assert(m > 0);
                assert(y[m - 1] == r);
            }
            if y.contains(r) {
                let k = choose|k: int| 0 <= k < y.len() && y[k] == r;
                assert(b[k + 1] == r);
                assert(row_lt(b[0], b[k + 1]));
                assert(b.to_set().contains(r));
                assert(a.contains(r));
                let m = choose|m: int| 0 <= m < a.len() && a[m] == r;
                assert(m > 0);
                assert(x[m - 1] == r);
            }
        }
        assert(x.to_set() =~= y.to_set());
        assert(rows_increasing(x));
        assert(rows_increasing(y));
        lemma_increasing_unique(x, y);
        assert(a =~= seq![a[0]] + x);
        assert(b =~= seq![b[0]] + y);
    }
}

/// A sorted list is fixed by its multiset of rows.
pub proof fn lemma_sorted_unique(a: Seq<RowModel>, b: Seq<RowModel>)
    requires
        rows_sorted(a),
        rows_sorted(b),
        a.to_multiset() == b.to_multiset(),
    ensures
        a == b,
    decreases a.len(),
{
    broadcast use vstd::seq_lib::group_to_multiset_ensures;

    assert(a.len() == a.to_multiset().len());
    assert(b.len() == b.to_multiset().len());
    if a.len() == 0 {
        assert(a =~= b);
    } else {
        assert(a.contains(a[0]));
        assert(b.to_multiset().count(a[0]) > 0);
        assert(b.contains(b[0]));
        assert(a.to_multiset().count(b[0]) > 0);
        let i = choose|i: int| 0 <= i < b.len() && b[i] == a[0];
        let j = choose|j: int| 0 <= j < a.len() && a[j] == b[0];
        lemma_row_lt_total(a[0], b[0]);
        assert(a[0] == b[0]);
        let x = a.drop_first();
        let y = b.drop_first();
        assert(a.remove(0) =~= x);
        assert(b.remove(0) =~= y);
        assert(x.to_multiset() =~= y.to_multiset());
        assert(rows_sorted(x));
        assert(rows_sorted(y));
        lemma_sorted_unique(x, y);
        assert(a =~= seq![a[0]] + x);
        assert(b =~= seq![b[0]] + y);
    }
}

/// Cells of different kinds come in the order of their kinds: null, integers, real numbers,
/// texts, blobs.
pub proof fn law_kinds_come_in_order(i: i64, r: u64, t: Seq<char>, b: Seq<u8>)
    ensures
        cell_lt(VcValue::Null, VcValue::Integer(i)),
        cell_lt(VcValue::Integer(i), VcValue::Real(r)),
        cell_lt(VcValue::Real(r), VcValue::Text(t)),
        cell_lt(VcValue::Text(t), VcValue::Blob(b)),
{
}

/// Blobs come as their bytes do: where two part, the one with the lesser byte is first, and
/// a blob comes before every longer one that begins with it.
pub proof fn law_blobs_come_by_bytes(
    front: Seq<u8>,
    c: u8,
    d: u8,
    left: Seq<u8>,
    right: Seq<u8>,
)
    requires
        c < d,
    ensures
        cell_lt(VcValue::Blob(front + seq![c] + left), VcValue::Blob(front + seq![d] + right)),
        cell_lt(VcValue::Blob(front), VcValue::Blob(front + seq![c] + left)),
{
    let a = front + seq![c] + left;
    let b = front + seq![d] + right;
    let n = front.len() as int;
    assert(a.take(n) =~= front && b.take(n) =~= front && front.take(n) =~= front);
    assert(a[n] == c && b[n] == d);
    assert(crate::octets::bytes_lt(a, b));
    assert(crate::octets::bytes_lt(front, a));
}

/// Rows come by their first cells that differ, and a row before every longer one that begins
/// with it.
pub proof fn law_rows_come_by_cells(
    front: RowModel,
    c: CellModel,
    d: CellModel,
    left: RowModel,
    right: RowModel,
)
    requires
        cell_lt(c, d),
    ensures
        row_lt(front + seq![c] + left, front + seq![d] + right),
        row_lt(front, front + seq![c] + left),
{
    let a = front + seq![c] + left;
    let b = front + seq![d] + right;
    let n = front.len() as int;
    assert(a.take(n) =~= front && b.take(n) =~= front && front.take(n) =~= front);
    assert(a[n] == c && b[n] == d);
}

} // verus!
