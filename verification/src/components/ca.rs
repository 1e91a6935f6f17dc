//! Channel arrays: how the elements of an array channel are named and where
//! in a record each of them lies.

use vstd::prelude::*;
use crate::block::{first_or, lookup, read_u64s, u64s_le, BlockDesc, BlockInfo, BlockModel};
use crate::data_serde::{dec_text, string_push_str, usize_to_string, DataModel, DataValue};
use crate::error::MdfError;
use crate::parser::DescMap;

verus! {

// ---------------------------------------------------------------------------
// Index tuples in row-major order
// ---------------------------------------------------------------------------

/// The product of the sizes from place `k` on: the number of elements of
/// the sub-array that the dimensions from `k` on span.
pub open spec fn dims_product(dims: Seq<u64>, k: int) -> nat
    decreases dims.len() - k,
{
    if k < 0 || k >= dims.len() {
        1
    } else {
        (dims[k] as nat) * dims_product(dims, k + 1)
    }
}

/// The index in dimension `k` of the element that comes `n`th in
/// row-major order.
pub open spec fn index_digit(dims: Seq<u64>, n: int, k: int) -> int {
    (n / dims_product(dims, k + 1) as int) % (dims[k] as int)
}

/// The index tuple of the element that comes `n`th in row-major order.
pub open spec fn index_tuple(dims: Seq<u64>, n: int) -> Seq<int> {
    Seq::new(dims.len(), |k: int| index_digit(dims, n, k))
}

/// Whether the tuple `a` comes before the tuple `b` in lexicographic order:
/// they agree up to some place, and there `a` is smaller.
pub open spec fn lex_less(a: Seq<int>, b: Seq<int>) -> bool {
    exists|k: int|
        0 <= k < a.len() && k < b.len() && a[k] < b[k] && (forall|j: int|
            0 <= j < k ==> a[j] == b[j])
}

/// The text `[i]` for each index of the tuple, in order.
pub open spec fn index_suffix(tuple: Seq<int>, k: int) -> Seq<char>
    decreases k,
{
    if k <= 0 {
        Seq::empty()
    } else {
        index_suffix(tuple, k - 1) + "["@ + dec_text(tuple[k - 1] as nat) + "]"@
    }
}

/// The name of the array element with the index tuple `tuple`.
pub open spec fn element_name(base: Seq<char>, tuple: Seq<int>) -> Seq<char> {
    base + index_suffix(tuple, tuple.len() as int)
}

proof fn lemma_product_positive(dims: Seq<u64>, k: int)
    requires
        0 <= k <= dims.len(),
        dims_product(dims, 0) > 0,
    ensures
        dims_product(dims, k) > 0,
        dims_product(dims, k) <= dims_product(dims, 0),
    decreases k,
{
    if k > 0 {
        lemma_product_positive(dims, k - 1);
        let a = dims[k - 1] as nat;
        let b = dims_product(dims, k);
        assert(dims_product(dims, k - 1) == a * b);
        assert(a * b > 0 ==> (b > 0 && b <= a * b)) by (nonlinear_arith);
    }
}

/// Every index of a tuple lies within its dimension.
pub proof fn lemma_index_digit_in_range(dims: Seq<u64>, n: int, k: int)
    requires
        0 <= k < dims.len(),
        0 <= n < dims_product(dims, 0),
    ensures
        0 <= index_digit(dims, n, k) < dims[k],
{
    lemma_product_positive(dims, k);
    lemma_product_positive(dims, k + 1);
    let p = dims_product(dims, k + 1) as int;
    let d = dims[k] as int;
    assert(dims_product(dims, k) == (dims[k] as nat) * dims_product(dims, k + 1));
    assert(d > 0) by (nonlinear_arith)
        requires
            d * p > 0,
            p > 0,
            d >= 0,
    ;
    assert(0 <= (n / p) % d < d) by (nonlinear_arith)
        requires
            d > 0,
            p > 0,
    ;
}

/// The part of `n` that the dimensions from `k` on tell of.
spec fn tail_part(dims: Seq<u64>, n: int, k: int) -> int {
    n % (dims_product(dims, k) as int)
}

proof fn lemma_digit_split(dims: Seq<u64>, n: int, k: int)
    requires
        0 <= k < dims.len(),
        0 <= n,
        dims_product(dims, 0) > 0,
    ensures
        tail_part(dims, n, k) == index_digit(dims, n, k) * dims_product(dims, k + 1) + tail_part(
            dims,
            n,
            k + 1,
        ),
        0 <= tail_part(dims, n, k + 1) < dims_product(dims, k + 1),
{
    lemma_product_positive(dims, k);
    lemma_product_positive(dims, k + 1);
    let p = dims_product(dims, k + 1) as int;
    let d = dims[k] as int;
    assert(dims_product(dims, k) == (dims[k] as nat) * dims_product(dims, k + 1));
    assert(d > 0) by (nonlinear_arith)
        requires
            d * p > 0,
            p > 0,
            d >= 0,
    ;
    vstd::arithmetic::div_mod::lemma_fundamental_div_mod(n, p);
    vstd::arithmetic::div_mod::lemma_fundamental_div_mod(n / p, d);
    vstd::arithmetic::div_mod::lemma_mod_bound(n, p);
    vstd::arithmetic::div_mod::lemma_mod_bound(n / p, d);
    let q = n / p;
    let r = n % p;
    // n == p * q + r, q == d * (q / d) + q % d
    assert(n == (d * p) * (q / d) + ((q % d) * p + r)) by (nonlinear_arith)
        requires
            n == p * q + r,
            q == d * (q / d) + q % d,
    ;
    assert(0 <= (q % d) * p + r < d * p) by (nonlinear_arith)
        requires
            0 <= q % d < d,
            0 <= r < p,
            p > 0,
    ;
    vstd::arithmetic::div_mod::lemma_fundamental_div_mod_converse(
        n,
        d * p,
        q / d,
        (q % d) * p + r,
    );
}

/// Elements later in row-major order have index tuples later in
/// lexicographic order.
pub proof fn lemma_row_major_is_lexicographic(dims: Seq<u64>, a: int, b: int)
    requires
        0 <= a < b < dims_product(dims, 0),
    ensures
        lex_less(index_tuple(dims, a), index_tuple(dims, b)),
{
    let p = dims_product(dims, 0);
    vstd::arithmetic::div_mod::lemma_small_mod(a as nat, p);
    vstd::arithmetic::div_mod::lemma_small_mod(b as nat, p);
    lemma_first_difference(dims, a, b, 0);
}

proof fn lemma_first_difference(dims: Seq<u64>, a: int, b: int, k: int)
    requires
        0 <= k <= dims.len(),
        0 <= a,
        0 <= b,
        dims_product(dims, 0) > 0,
        tail_part(dims, a, k) < tail_part(dims, b, k),
        forall|j: int| 0 <= j < k ==> index_digit(dims, a, j) == index_digit(dims, b, j),
    ensures
        lex_less(index_tuple(dims, a), index_tuple(dims, b)),
    decreases dims.len() - k,
{
    if k >= dims.len() {
        // The product of no sizes is 1, so both parts are 0.
        assert(dims_product(dims, k) == 1);
        assert(false);
    } else {
        lemma_digit_split(dims, a, k);
        lemma_digit_split(dims, b, k);
        let p = dims_product(dims, k + 1) as int;
        let da = index_digit(dims, a, k);
        let db = index_digit(dims, b, k);
        let ra = tail_part(dims, a, k + 1);
        let rb = tail_part(dims, b, k + 1);
        assert(da <= db) by (nonlinear_arith)
            requires
                da * p + ra < db * p + rb,
                0 <= ra < p,
                0 <= rb < p,
        ;
        if da < db {
            let ta = index_tuple(dims, a);
            let tb = index_tuple(dims, b);
            assert(ta[k] < tb[k]);
            assert(forall|j: int| 0 <= j < k ==> ta[j] == tb[j]);
        } else {
            assert(ra < rb) by (nonlinear_arith)
                requires
                    da * p + ra < db * p + rb,
                    da == db,
            ;
            lemma_first_difference(dims, a, b, k + 1);
        }
    }
}

// ---------------------------------------------------------------------------
// Strides
// ---------------------------------------------------------------------------

/// The stride before the rows are put in order: the base, multiplied in
/// turn by the sizes taken from the last dimension backwards.
pub open spec fn row_chain(base: int, dims: Seq<u64>, k: int) -> int
    decreases k,
{
    if k <= 0 {
        base
    } else {
        row_chain(base, dims, k - 1) * dims[dims.len() - k]
    }
}

/// The stride of dimension `k` in column orientation: the base, multiplied
/// in turn by the sizes of the dimensions before `k`.
pub open spec fn column_stride(base: int, dims: Seq<u64>, k: int) -> int
    decreases k,
{
    if k <= 0 {
        base
    } else {
        column_stride(base, dims, k - 1) * dims[k - 1]
    }
}

/// The stride of dimension `k`: in row orientation the chain of products
/// read backwards, so that the last dimension has the base as its stride.
pub open spec fn stride(base: int, dims: Seq<u64>, row_oriented: bool, k: int) -> int {
    if row_oriented {
        row_chain(base, dims, dims.len() - 1 - k)
    } else {
        column_stride(base, dims, k)
    }
}

/// The sum of index times stride over the first `k` dimensions.
pub open spec fn offset_upto(index: Seq<usize>, strides: Seq<u64>, k: int) -> int
    decreases k,
{
    if k <= 0 {
        0
    } else {
        offset_upto(index, strides, k - 1) + index[k - 1] * strides[k - 1]
    }
}

proof fn lemma_offset_grows(index: Seq<usize>, strides: Seq<u64>, k: int, n: int)
    requires
        0 <= k <= n,
    ensures
        0 <= offset_upto(index, strides, k) <= offset_upto(index, strides, n),
    decreases n,
{
    if n > 0 {
        if k < n {
            lemma_offset_grows(index, strides, k, n - 1);
        } else {
            lemma_offset_grows(index, strides, k - 1, n - 1);
        }
        assert(index[n - 1] * strides[n - 1] >= 0) by (nonlinear_arith)
            requires
                index[n - 1] >= 0,
                strides[n - 1] >= 0,
        ;
    }
}

// ---------------------------------------------------------------------------
// The array descriptor
// ---------------------------------------------------------------------------

/// The descriptor of a channel array: its dimensions and the strides by
/// which an index tuple becomes a byte offset.
#[derive(Debug)]
pub struct ChannelArray {
    ca_type: u8,
    ca_storage: u8,
    ca_ndim: u16,
    ca_flags: u32,
    ca_byte_offset_base: i32,
    ca_inval_bit_pos_base: u32,
    ca_dim_size: Vec<u64>,
    f_vec: Vec<u64>,
    row_oriented: bool,
    elements: usize,
    suffix_products: Vec<usize>,
}

/// What a `ChannelArray` holds.
pub struct ArrayModel {
    pub ca_type: u8,
    pub ca_storage: u8,
    pub ca_ndim: u16,
    pub ca_flags: u32,
    pub ca_byte_offset_base: i32,
    pub ca_inval_bit_pos_base: u32,
    pub ca_dim_size: Seq<u64>,
    pub f_vec: Seq<u64>,
    pub row_oriented: bool,
}

impl ArrayModel {
    /// Whether the descriptor is sound: it has a dimension, a size for
    /// each, the stride of each, and no more elements than can be counted.
    pub open spec fn wf(&self) -> bool {
        &&& self.ca_ndim >= 1
        &&& self.ca_dim_size.len() == self.ca_ndim
        &&& self.f_vec.len() == self.ca_ndim
        &&& self.ca_byte_offset_base >= 0
        &&& self.row_oriented == is_row_oriented(self.ca_flags)
        &&& dims_product(self.ca_dim_size, 0) <= usize::MAX
        &&& forall|k: int|
            0 <= k < self.ca_ndim ==> #[trigger] self.f_vec[k] == stride(
                self.ca_byte_offset_base as int,
                self.ca_dim_size,
                self.row_oriented,
                k,
            )
    }
}

impl View for ChannelArray {
    type V = ArrayModel;

    closed spec fn view(&self) -> ArrayModel {
        ArrayModel {
            ca_type: self.ca_type,
            ca_storage: self.ca_storage,
            ca_ndim: self.ca_ndim,
            ca_flags: self.ca_flags,
            ca_byte_offset_base: self.ca_byte_offset_base,
            ca_inval_bit_pos_base: self.ca_inval_bit_pos_base,
            ca_dim_size: self.ca_dim_size@,
            f_vec: self.f_vec@,
            row_oriented: self.row_oriented,
        }
    }
}

/// The strides of the dimensions, or nothing where one of them does not fit
/// in 64 bits.
fn compute_strides(base: u64, dims: &Vec<u64>, row_oriented: bool) -> (r: Option<Vec<u64>>)
    requires
        dims@.len() >= 1,
    ensures
        match r {
            Some(f) => {
                &&& f@.len() == dims@.len()
                &&& forall|k: int|
                    0 <= k < f@.len() ==> #[trigger] f@[k] == stride(
                        base as int,
                        dims@,
                        row_oriented,
                        k,
                    )
            },
            None => exists|k: int|
                0 <= k < dims@.len() && (#[trigger] stride(base as int, dims@, row_oriented, k))
                    > u64::MAX,
        },
{
    let n: usize = dims.len();
    let mut chain: Vec<u64> = Vec::new();
    chain.push(base);
    let mut i: usize = 1;
    while i < n
        invariant
            1 <= i <= n,
            n == dims@.len(),
            chain@.len() == i,
            forall|k: int|
                0 <= k < i ==> #[trigger] chain@[k] == (if row_oriented {
                    row_chain(base as int, dims@, k)
                } else {
                    column_stride(base as int, dims@, k)
                }),
        decreases n - i,
    {
        let last: u64 = chain[i - 1];
        let size: u64 = if row_oriented {
            dims[n - i]
        } else {
            dims[i - 1]
        };
        if last != 0 && size > u64::MAX / last {
            proof {
                assert(last * size > u64::MAX) by (nonlinear_arith)
                    requires
                        last > 0,
                        size > u64::MAX / last,
                ;
                if row_oriented {
                    assert(stride(base as int, dims@, row_oriented, n - 1 - i) == row_chain(
                        base as int,
                        dims@,
                        i as int,
                    ));
                } else {
                    assert(stride(base as int, dims@, row_oriented, i as int) == column_stride(
                        base as int,
                        dims@,
                        i as int,
                    ));
                }
            }
            return None;
        }
        assert(last * size <= u64::MAX) by (nonlinear_arith)
            requires
                last == 0 || size <= u64::MAX / last,
                last >= 0,
                size >= 0,
        ;
        chain.push(last * size);
        i += 1;
    }
    if row_oriented {
        let mut f: Vec<u64> = Vec::new();
        let mut k: usize = 0;
        while k < n
            invariant
                k <= n,
                n == chain@.len(),
                f@.len() == k,
                forall|j: int| 0 <= j < k ==> f@[j] == chain@[n - 1 - j],
            decreases n - k,
        {
            f.push(chain[n - 1 - k]);
            k += 1;
        }
        Some(f)
    } else {
        Some(chain)
    }
}

/// The number of elements from each dimension on, or nothing where the
/// array has more elements than can be counted.
fn compute_products(dims: &Vec<u64>) -> (r: Option<Vec<usize>>)
    requires
        dims@.len() <= 0xffff,
        forall|k: int| 0 <= k < dims@.len() ==> #[trigger] dims@[k] > 0,
    ensures
        match r {
            Some(p) => {
                &&& p@.len() == dims@.len() + 1
                &&& forall|k: int| 0 <= k <= dims@.len() ==> #[trigger] p@[k] == dims_product(dims@, k)
            },
            None => dims_product(dims@, 0) > usize::MAX,
        },
{
    let n: usize = dims.len();
    // Built from the last dimension backwards, then put in order.
    let mut back: Vec<usize> = Vec::new();
    back.push(1);
    let mut i: usize = 0;
    while i < n
        invariant
            i <= n,
            n == dims@.len(),
            forall|k: int| 0 <= k < dims@.len() ==> #[trigger] dims@[k] > 0,
            back@.len() == i + 1,
            forall|k: int| 0 <= k <= i ==> #[trigger] back@[k] == dims_product(dims@, n - k),
        decreases n - i,
    {
        let last: usize = back[i];
        let size: u64 = dims[n - 1 - i];
        assert(dims_product(dims@, n - 1 - i) == (size as nat) * dims_product(dims@, n - i));
        if last != 0 && size > (usize::MAX / last) as u64 {
            proof {
                assert(size * last > usize::MAX) by (nonlinear_arith)
                    requires
                        last > 0,
                        size > usize::MAX / last,
                ;
                lemma_product_overflow(dims@, n - 1 - i);
            }
            return None;
        }
        assert(size * last <= usize::MAX) by (nonlinear_arith)
            requires
                last == 0 || size <= usize::MAX / last,
                last >= 0,
                size >= 0,
        ;
        let next: usize = if last == 0 {
            0
        } else {
            (size as usize) * last
        };
        assert(next == size * last) by (nonlinear_arith)
            requires
                next == (if last == 0 {
                    0
                } else {
                    size * last
                }),
        ;
        back.push(next);
        i += 1;
    }
    let mut p: Vec<usize> = Vec::new();
    let mut k: usize = 0;
    while k <= n
        invariant
            k <= n + 1,
            n + 1 == back@.len(),
            n == dims@.len(),
            n <= 0xffff,
            p@.len() == k,
            forall|j: int| 0 <= j < k ==> p@[j] == back@[n - j],
        decreases n + 1 - k,
    {
        p.push(back[n - k]);
        k += 1;
    }
    Some(p)
}

/// Where no size is zero, a product of sizes that is too large from some
/// dimension on is too large from the first on.
proof fn lemma_product_overflow(dims: Seq<u64>, k: int)
    requires
        0 <= k <= dims.len(),
        forall|j: int| 0 <= j < dims.len() ==> #[trigger] dims[j] > 0,
        dims_product(dims, k) > usize::MAX,
    ensures
        dims_product(dims, 0) > usize::MAX,
    decreases k,
{
    if k > 0 {
        let a = dims[k - 1] as nat;
        let b = dims_product(dims, k);
        assert(dims_product(dims, k - 1) == a * b);
        assert(a * b > usize::MAX) by (nonlinear_arith)
            requires
                a >= 1,
                b > usize::MAX,
        ;
        lemma_product_overflow(dims, k - 1);
    }
}

/// An array with a dimension of size zero has no elements.
proof fn lemma_product_zero(dims: Seq<u64>, z: int, k: int)
    requires
        0 <= k <= z < dims.len(),
        dims[z] == 0,
    ensures
        dims_product(dims, k) == 0,
    decreases z - k,
{
    if k < z {
        lemma_product_zero(dims, z, k + 1);
        assert((dims[k] as nat) * dims_product(dims, k + 1) == 0) by (nonlinear_arith)
            requires
                dims_product(dims, k + 1) == 0,
        ;
    } else {
        assert((dims[k] as nat) * dims_product(dims, k + 1) == 0) by (nonlinear_arith)
            requires
                dims[k] == 0,
        ;
    }
}

/// Whether the flags ask for row orientation: bit 6 is clear.
pub open spec fn is_row_oriented(flags: u32) -> bool {
    flags & 0x40 != 0x40
}

/// The descriptor with the given fields, or why there is none: it has no
/// dimension, or not one size for each dimension, or a negative base, or
/// strides or a number of elements too large to hold.
pub open spec fn layout_of(
    ca_type: u8,
    ca_storage: u8,
    ca_ndim: u16,
    ca_flags: u32,
    ca_byte_offset_base: i32,
    ca_inval_bit_pos_base: u32,
    dims: Seq<u64>,
) -> Result<ArrayModel, MdfError> {
    let row_oriented = is_row_oriented(ca_flags);
    if ca_ndim == 0 || dims.len() != ca_ndim || ca_byte_offset_base < 0 {
        Err(MdfError::DataCorrupt)
    } else if exists|k: int|
        0 <= k < dims.len() && (#[trigger] stride(
            ca_byte_offset_base as int,
            dims,
            is_row_oriented(ca_flags),
            k,
        )) > u64::MAX {
        Err(MdfError::DataCorrupt)
    } else if dims_product(dims, 0) > usize::MAX {
        Err(MdfError::DataCorrupt)
    } else {
        Ok(
            ArrayModel {
                ca_type,
                ca_storage,
                ca_ndim,
                ca_flags,
                ca_byte_offset_base,
                ca_inval_bit_pos_base,
                ca_dim_size: dims,
                f_vec: Seq::new(
                    dims.len(),
                    |k: int|
                        stride(ca_byte_offset_base as int, dims, is_row_oriented(ca_flags), k) as u64,
                ),
                row_oriented,
            },
        )
    }
}

/// The sizes of the dimensions, which stand behind the fixed fields of an
/// array block, 64 bits each.
pub open spec fn array_dims(block: BlockModel, ndim: u16) -> Result<Seq<u64>, MdfError> {
    match lookup(block.data, "unparsed_data"@) {
        None => Err(MdfError::SchemaMissing),
        Some(DataModel::Byte(bytes)) => {
            if 8 * ndim > bytes.len() {
                Err(MdfError::IoError)
            } else {
                Ok(u64s_le(bytes, ndim as nat))
            }
        },
        Some(_) => Err(MdfError::UnsupportedDataType),
    }
}

/// The descriptor that the parsed array block `block` holds.
pub open spec fn array_of(block: BlockModel) -> Result<ArrayModel, MdfError> {
    match first_or::<u8>(block.data, "ca_type"@) {
        Err(e) => Err(e),
        Ok(ca_type) => match first_or::<u8>(block.data, "ca_storage"@) {
            Err(e) => Err(e),
            Ok(ca_storage) => match first_or::<u16>(block.data, "ca_ndim"@) {
                Err(e) => Err(e),
                Ok(ca_ndim) => match first_or::<u32>(block.data, "ca_flags"@) {
                    Err(e) => Err(e),
                    Ok(ca_flags) => match first_or::<i32>(block.data, "ca_byte_offset_base"@) {
                        Err(e) => Err(e),
                        Ok(base) => match first_or::<u32>(block.data, "ca_inval_bit_pos_base"@) {
                            Err(e) => Err(e),
                            Ok(inval) => match array_dims(block, ca_ndim) {
                                Err(e) => Err(e),
                                Ok(dims) => layout_of(
                                    ca_type,
                                    ca_storage,
                                    ca_ndim,
                                    ca_flags,
                                    base,
                                    inval,
                                    dims,
                                ),
                            },
                        },
                    },
                },
            },
        },
    }
}

/// The descriptor held by the array block at `offset`.
pub open spec fn spec_array(map: &DescMap, file: Seq<u8>, offset: u64) -> Result<ArrayModel, MdfError> {
    match map.spec_get("CA"@) {
        None => Err(MdfError::SchemaMissing),
        Some(desc) => match desc.spec_parse(file, offset) {
            Err(e) => Err(e),
            Ok(block) => array_of(block),
        },
    }
}

fn position_of_zero(dims: &Vec<u64>) -> (r: Option<usize>)
    ensures
        match r {
            Some(z) => z < dims@.len() && dims@[z as int] == 0,
            None => forall|k: int| 0 <= k < dims@.len() ==> #[trigger] dims@[k] > 0,
        },
{
    let mut i: usize = 0;
    while i < dims.len()
        invariant
            i <= dims@.len(),
            forall|k: int| 0 <= k < i ==> #[trigger] dims@[k] > 0,
        decreases dims@.len() - i,
    {
        if dims[i] == 0 {
            return Some(i);
        }
        i += 1;
    }
    None
}

fn copy_dims(v: &Vec<u64>) -> (r: Vec<u64>)
    ensures
        r@ == v@,
{
    let mut r: Vec<u64> = Vec::new();
    let mut i: usize = 0;
    while i < v.len()
        invariant
            i <= v@.len(),
            r@ == v@.subrange(0, i as int),
        decreases v@.len() - i,
    {
        r.push(v[i]);
        assert(r@ =~= v@.subrange(0, i + 1));
        i += 1;
    }
    assert(v@.subrange(0, i as int) =~= v@);
    r
}

fn copy_products(v: &Vec<usize>) -> (r: Vec<usize>)
    ensures
        r@ == v@,
{
    let mut r: Vec<usize> = Vec::new();
    let mut i: usize = 0;
    while i < v.len()
        invariant
            i <= v@.len(),
            r@ == v@.subrange(0, i as int),
        decreases v@.len() - i,
    {
        r.push(v[i]);
        assert(r@ =~= v@.subrange(0, i + 1));
        i += 1;
    }
    assert(v@.subrange(0, i as int) =~= v@);
    r
}

impl ChannelArray {
    #[verifier::type_invariant]
    spec fn inv(&self) -> bool {
        &&& self@.wf()
        &&& self.elements == dims_product(self.ca_dim_size@, 0)
        &&& self.elements > 0 ==> {
            &&& self.suffix_products@.len() == self.ca_dim_size@.len() + 1
            &&& forall|k: int|
                0 <= k <= self.ca_dim_size@.len() ==> #[trigger] self.suffix_products@[k]
                    == dims_product(self.ca_dim_size@, k)
        }
    }

    /// The descriptor with the given fields and the strides that follow
    /// from them.
    pub fn with_layout(
        ca_type: u8,
        ca_storage: u8,
        ca_ndim: u16,
        ca_flags: u32,
        ca_byte_offset_base: i32,
        ca_inval_bit_pos_base: u32,
        ca_dim_size: Vec<u64>,
    ) -> (r: Result<Self, MdfError>)
        ensures
            match r {
                Ok(ca) => layout_of(
                    ca_type,
                    ca_storage,
                    ca_ndim,
                    ca_flags,
                    ca_byte_offset_base,
                    ca_inval_bit_pos_base,
                    ca_dim_size@,
                ) == Ok::<ArrayModel, MdfError>(ca@) && ca@.wf(),
                Err(e) => layout_of(
                    ca_type,
                    ca_storage,
                    ca_ndim,
                    ca_flags,
                    ca_byte_offset_base,
                    ca_inval_bit_pos_base,
                    ca_dim_size@,
                ) == Err::<ArrayModel, MdfError>(e),
            },
    {
        let row_oriented: bool = ca_flags & 0x40 != 0x40;
        assert(row_oriented == is_row_oriented(ca_flags));
        if ca_ndim == 0 || ca_dim_size.len() != ca_ndim as usize || ca_byte_offset_base < 0 {
            return Err(MdfError::DataCorrupt);
        }
        assert((ca_byte_offset_base as u64) as int == ca_byte_offset_base as int);
        let f_vec: Vec<u64> = match compute_strides(
            ca_byte_offset_base as u64,
            &ca_dim_size,
            row_oriented,
        ) {
            Some(f) => f,
            None => {
                return Err(MdfError::DataCorrupt);
            },
        };
        assert forall|k: int| 0 <= k < ca_dim_size@.len() implies (#[trigger] stride(
            ca_byte_offset_base as int,
            ca_dim_size@,
            row_oriented,
            k,
        )) <= u64::MAX by {
            assert(f_vec@[k] == stride(ca_byte_offset_base as int, ca_dim_size@, row_oriented, k));
        }
        let (elements, suffix_products) = match position_of_zero(&ca_dim_size) {
            Some(z) => {
                proof {
                    lemma_product_zero(ca_dim_size@, z as int, 0);
                }
                (0usize, Vec::new())
            },
            None => match compute_products(&ca_dim_size) {
                None => {
                    return Err(MdfError::DataCorrupt);
                },
                Some(p) => (p[0], p),
            },
        };
        let ghost want = layout_of(
            ca_type,
            ca_storage,
            ca_ndim,
            ca_flags,
            ca_byte_offset_base,
            ca_inval_bit_pos_base,
            ca_dim_size@,
        );
        proof {
            assert(want is Ok);
            assert(f_vec@ =~= want->Ok_0.f_vec);
        }
        Ok(
            ChannelArray {
                ca_type,
                ca_storage,
                ca_ndim,
                ca_flags,
                ca_byte_offset_base,
                ca_inval_bit_pos_base,
                ca_dim_size,
                f_vec,
                row_oriented,
                elements,
                suffix_products,
            },
        )
    }

    /// Reads the array block at `offset`.
    pub fn new(map: &DescMap, file: &[u8], offset: u64) -> (r: Result<Self, MdfError>)
        ensures
            match r {
                Ok(ca) => spec_array(map, file@, offset) == Ok::<ArrayModel, MdfError>(ca@)
                    && ca@.wf(),
                Err(e) => spec_array(map, file@, offset) == Err::<ArrayModel, MdfError>(e),
            },
    {
        let desc: &BlockDesc = match map.get("CA") {
            Some(d) => d,
            None => {
                return Err(MdfError::SchemaMissing);
            },
        };
        let info: BlockInfo = match desc.try_parse_buf(file, offset) {
            Ok(info) => info,
            Err(e) => {
                return Err(e);
            },
        };
        let ca_type: u8 = match info.first_or_error::<u8>("ca_type") {
            Ok(x) => x,
            Err(e) => {
                return Err(e);
            },
        };
        let ca_storage: u8 = match info.first_or_error::<u8>("ca_storage") {
            Ok(x) => x,
            Err(e) => {
                return Err(e);
            },
        };
        let ca_ndim: u16 = match info.first_or_error::<u16>("ca_ndim") {
            Ok(x) => x,
            Err(e) => {
                return Err(e);
            },
        };
        let ca_flags: u32 = match info.first_or_error::<u32>("ca_flags") {
            Ok(x) => x,
            Err(e) => {
                return Err(e);
            },
        };
        let base: i32 = match info.first_or_error::<i32>("ca_byte_offset_base") {
            Ok(x) => x,
            Err(e) => {
                return Err(e);
            },
        };
        let inval: u32 = match info.first_or_error::<u32>("ca_inval_bit_pos_base") {
            Ok(x) => x,
            Err(e) => {
                return Err(e);
            },
        };
        let dims: Vec<u64> = match info.get_data_value("unparsed_data") {
            None => {
                return Err(MdfError::SchemaMissing);
            },
            Some(DataValue::BYTE(bytes)) => {
                if (ca_ndim as usize) > bytes.len() / 8 {
                    return Err(MdfError::IoError);
                }
                read_u64s(bytes.as_slice(), ca_ndim as usize)
            },
            Some(_) => {
                return Err(MdfError::UnsupportedDataType);
            },
        };
        Self::with_layout(ca_type, ca_storage, ca_ndim, ca_flags, base, inval, dims)
    }

    /// The number of elements of the array: the product of the sizes of its
    /// dimensions.
    pub fn get_elements_num(&self) -> (n: usize)
        ensures
            n == dims_product(self@.ca_dim_size, 0),
            self@.wf(),
    {
        proof {
            use_type_invariant(self);
        }
        self.elements
    }

    /// The index tuples of all elements, in row-major order.
    pub fn generate_array_indexs(&self) -> (r: Vec<Vec<usize>>)
        ensures
            self@.wf(),
            r@.len() == dims_product(self@.ca_dim_size, 0),
            forall|n: int|
                0 <= n < r@.len() ==> (#[trigger] r@[n])@.len() == self@.ca_dim_size.len(),
            forall|n: int, k: int|
                0 <= n < r@.len() && 0 <= k < self@.ca_dim_size.len() ==> (#[trigger] r@[n]@[k])
                    == index_digit(self@.ca_dim_size, n, k),
    {
        proof {
            use_type_invariant(self);
        }
        let total: usize = self.elements;
        let ndim: usize = self.ca_dim_size.len();
        let mut out: Vec<Vec<usize>> = Vec::new();
        let mut n: usize = 0;
        while n < total
            invariant
                n <= total,
                total == self.elements,
                total == dims_product(self.ca_dim_size@, 0),
                ndim == self.ca_dim_size@.len(),
                total > 0 ==> self.suffix_products@.len() == ndim + 1,
                total > 0 ==> forall|k: int|
                    0 <= k <= ndim ==> #[trigger] self.suffix_products@[k] == dims_product(
                        self.ca_dim_size@,
                        k,
                    ),
                out@.len() == n,
                forall|m: int| 0 <= m < n ==> (#[trigger] out@[m])@.len() == ndim,
                forall|m: int, k: int|
                    0 <= m < n && 0 <= k < ndim ==> (#[trigger] out@[m]@[k]) == index_digit(
                        self.ca_dim_size@,
                        m,
                        k,
                    ),
            decreases total - n,
        {
            let tuple: Vec<usize> = self.tuple_at(n);
            out.push(tuple);
            n += 1;
        }
        out
    }

    fn tuple_at(&self, n: usize) -> (tuple: Vec<usize>)
        requires
            n < dims_product(self.ca_dim_size@, 0),
        ensures
            tuple@.len() == self.ca_dim_size@.len(),
            forall|k: int|
                0 <= k < tuple@.len() ==> #[trigger] tuple@[k] == index_digit(
                    self.ca_dim_size@,
                    n as int,
                    k,
                ),
    {
        proof {
            use_type_invariant(self);
        }
        let ndim: usize = self.ca_dim_size.len();
        let mut tuple: Vec<usize> = Vec::new();
        let mut k: usize = 0;
        while k < ndim
            invariant
                k <= ndim,
                ndim == self.ca_dim_size@.len(),
                n < dims_product(self.ca_dim_size@, 0),
                self.suffix_products@.len() == ndim + 1,
                forall|j: int|
                    0 <= j <= ndim ==> #[trigger] self.suffix_products@[j] == dims_product(
                        self.ca_dim_size@,
                        j,
                    ),
                tuple@.len() == k,
                forall|j: int|
                    0 <= j < k ==> #[trigger] tuple@[j] == index_digit(
                        self.ca_dim_size@,
                        n as int,
                        j,
                    ),
            decreases ndim - k,
        {
            proof {
                lemma_product_positive(self.ca_dim_size@, k + 1);
                lemma_index_digit_in_range(self.ca_dim_size@, n as int, k as int);
            }
            let below: usize = self.suffix_products[k + 1];
            let size: u64 = self.ca_dim_size[k];
            let digit: u64 = ((n / below) as u64) % size;
            let ghost q: int = (n / below) as int;
            let ghost d: int = size as int;
            assert(q % d <= q) by (nonlinear_arith)
                requires
                    d > 0,
                    q >= 0,
            ;
            tuple.push(digit as usize);
            k += 1;
        }
        tuple
    }

    /// The names of all elements, in row-major order: the channel's name
    /// followed by each index in square brackets.
    pub fn generate_array_names(&self, channel_name: &str) -> (r: Vec<String>)
        ensures
            self@.wf(),
            r@.len() == dims_product(self@.ca_dim_size, 0),
            forall|n: int|
                0 <= n < r@.len() ==> (#[trigger] r@[n])@ == element_name(
                    channel_name@,
                    index_tuple(self@.ca_dim_size, n),
                ),
    {
        proof {
            use_type_invariant(self);
        }
        let total: usize = self.elements;
        let ndim: usize = self.ca_dim_size.len();
        let mut out: Vec<String> = Vec::new();
        let mut n: usize = 0;
        while n < total
            invariant
                n <= total,
                total == dims_product(self.ca_dim_size@, 0),
                ndim == self.ca_dim_size@.len(),
                out@.len() == n,
                forall|m: int|
                    0 <= m < n ==> (#[trigger] out@[m])@ == element_name(
                        channel_name@,
                        index_tuple(self.ca_dim_size@, m),
                    ),
            decreases total - n,
        {
            let tuple: Vec<usize> = self.tuple_at(n);
            let ghost want = index_tuple(self.ca_dim_size@, n as int);
            let mut name: String = channel_name.to_owned();
            let mut k: usize = 0;
            while k < ndim
                invariant
                    k <= ndim,
                    ndim == tuple@.len(),
                    want.len() == ndim,
                    forall|j: int| 0 <= j < ndim ==> #[trigger] tuple@[j] == want[j],
                    name@ == channel_name@ + index_suffix(want, k as int),
                decreases ndim - k,
            {
                string_push_str(&mut name, "[");
                let digits: String = usize_to_string(tuple[k]);
                string_push_str(&mut name, digits.as_str());
                string_push_str(&mut name, "]");
                proof {
                    assert(name@ =~= channel_name@ + index_suffix(want, k + 1));
                }
                k += 1;
            }
            out.push(name);
            n += 1;
        }
        out
    }

    /// The byte offset of the element with the index tuple `index`: the sum
    /// of each index times the stride of its dimension. A tuple of another
    /// length than the array has dimensions is out of range; an offset that
    /// does not fit in 32 bits is corrupt.
    pub fn calculate_byte_offset(&self, index: &Vec<usize>) -> (r: Result<u32, MdfError>)
        ensures
            self@.wf(),
            match r {
                Ok(off) => {
                    &&& index@.len() == self@.ca_ndim
                    &&& off == offset_upto(index@, self@.f_vec, index@.len() as int)
                },
                Err(e) => {
                    &&& index@.len() != self@.ca_ndim ==> e == MdfError::OutOfRange
                    &&& index@.len() == self@.ca_ndim ==> e == MdfError::DataCorrupt && offset_upto(
                        index@,
                        self@.f_vec,
                        index@.len() as int,
                    ) > u32::MAX
                },
            },
    {
        proof {
            use_type_invariant(self);
        }
        if index.len() != self.ca_ndim as usize {
            return Err(MdfError::OutOfRange);
        }
        let ndim: usize = index.len();
        let mut sum: u64 = 0;
        let mut k: usize = 0;
        while k < ndim
            invariant
                k <= ndim,
                ndim == index@.len(),
                ndim == self.f_vec@.len(),
                self@.wf(),
                index@.len() == self@.ca_ndim,
                self.f_vec@ == self@.f_vec,
                sum == offset_upto(index@, self.f_vec@, k as int),
                sum <= u32::MAX,
            decreases ndim - k,
        {
            let i: u64 = index[k] as u64;
            let f: u64 = self.f_vec[k];
            let room: u64 = 0xffff_ffff - sum;
            if i != 0 && f > room / i {
                proof {
                    assert(i * f > room) by (nonlinear_arith)
                        requires
                            i > 0,
                            f > room / i,
                    ;
                    lemma_offset_grows(index@, self.f_vec@, k + 1, ndim as int);
                }
                return Err(MdfError::DataCorrupt);
            }
            assert(i * f <= room) by (nonlinear_arith)
                requires
                    i == 0 || f <= room / i,
                    i >= 0,
                    f >= 0,
                    room >= 0,
            ;
            sum = sum + i * f;
            k += 1;
        }
        Ok(sum as u32)
    }
}

impl Clone for ChannelArray {
    fn clone(&self) -> (r: Self)
        ensures
            r@ == self@,
    {
        proof {
            use_type_invariant(self);
        }
        ChannelArray {
            ca_type: self.ca_type,
            ca_storage: self.ca_storage,
            ca_ndim: self.ca_ndim,
            ca_flags: self.ca_flags,
            ca_byte_offset_base: self.ca_byte_offset_base,
            ca_inval_bit_pos_base: self.ca_inval_bit_pos_base,
            ca_dim_size: copy_dims(&self.ca_dim_size),
            f_vec: copy_dims(&self.f_vec),
            row_oriented: self.row_oriented,
            elements: self.elements,
            suffix_products: copy_products(&self.suffix_products),
        }
    }
}

} // verus!
