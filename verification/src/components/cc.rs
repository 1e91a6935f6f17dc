//! Conversion rules: how a raw value becomes a physical one.
//!
//! Numbers are doubles, kept as their bit patterns. What a rule decides by
//! comparing (which row of a table, which range, which text) is decided
//! here; where a result has to be calculated, the rule hands out the
//! formula with its numbers, and the calculation is the caller's.

use vstd::prelude::*;
use crate::block::{
    first_or, lookup, normal_link, variable_link, BlockDesc, BlockInfo, BlockModel,
};
use crate::data_serde::{clone_strings, str_eq, DataModel, DataValue};
use crate::error::MdfError;
use crate::parser::{
    get_clean_text, peek_block_type, spec_block_type, spec_clean_text, spec_text_or_empty,
    text_or_empty, DescMap,
};
use crate::float_bits::{
    is_nan, real_eq, real_equal, real_le, real_less, real_less_eq, real_lt, real_within,
};

verus! {

// ---------------------------------------------------------------------------
// Scans
// ---------------------------------------------------------------------------

/// The first place from `k` on whose breakpoint lies above `x`; the number
/// of breakpoints where none does.
pub open spec fn first_above_from(xs: Seq<u64>, x: u64, k: int) -> int
    decreases xs.len() - k,
{
    if k < 0 || k >= xs.len() {
        xs.len() as int
    } else if real_lt(x, xs[k]) {
        k
    } else {
        first_above_from(xs, x, k + 1)
    }
}

/// The first place whose breakpoint lies above `x`; the number of
/// breakpoints where none does.
pub open spec fn first_above(xs: Seq<u64>, x: u64) -> int {
    first_above_from(xs, x, 0)
}

/// The first place from `k` on whose key equals `x`; the number of keys
/// where none does.
pub open spec fn first_equal_from(keys: Seq<u64>, x: u64, k: int) -> int
    decreases keys.len() - k,
{
    if k < 0 || k >= keys.len() {
        keys.len() as int
    } else if real_eq(x, keys[k]) {
        k
    } else {
        first_equal_from(keys, x, k + 1)
    }
}

/// The first range from the `k`th on that holds `x`, where the ranges
/// stand in `flat` in groups of `step` numbers, lower bound first and upper
/// bound second; `count` where none holds `x`.
pub open spec fn first_range_from(flat: Seq<u64>, step: int, count: int, x: u64, k: int) -> int
    decreases count - k,
{
    if k < 0 || k >= count {
        count
    } else if real_within(x, flat[step * k], flat[step * k + 1]) {
        k
    } else {
        first_range_from(flat, step, count, x, k + 1)
    }
}

/// What `first_above` finds: no breakpoint before it lies above `x`, and
/// the one at it does.
pub proof fn lemma_first_above(xs: Seq<u64>, x: u64, k: int)
    requires
        0 <= k <= xs.len(),
    ensures
        k <= first_above_from(xs, x, k) <= xs.len(),
        forall|j: int| k <= j < first_above_from(xs, x, k) ==> !real_lt(x, #[trigger] xs[j]),
        first_above_from(xs, x, k) < xs.len() ==> real_lt(x, xs[first_above_from(xs, x, k)]),
    decreases xs.len() - k,
{
    if k < xs.len() && !real_lt(x, xs[k]) {
        lemma_first_above(xs, x, k + 1);
    }
}

/// What `first_equal_from` finds: no key before it equals `x`, and the one
/// at it does.
pub proof fn lemma_first_equal(keys: Seq<u64>, x: u64, k: int)
    requires
        0 <= k <= keys.len(),
    ensures
        k <= first_equal_from(keys, x, k) <= keys.len(),
        forall|j: int| k <= j < first_equal_from(keys, x, k) ==> !real_eq(x, #[trigger] keys[j]),
        first_equal_from(keys, x, k) < keys.len() ==> real_eq(
            x,
            keys[first_equal_from(keys, x, k)],
        ),
    decreases keys.len() - k,
{
    if k < keys.len() && !real_eq(x, keys[k]) {
        lemma_first_equal(keys, x, k + 1);
    }
}

/// What `first_range_from` finds: no range before it holds `x`, and the
/// one at it does.
pub proof fn lemma_first_range(flat: Seq<u64>, step: int, count: int, x: u64, k: int)
    requires
        0 <= k <= count,
    ensures
        k <= first_range_from(flat, step, count, x, k) <= count,
        forall|j: int|
            k <= j < first_range_from(flat, step, count, x, k) ==> !real_within(
                x,
                #[trigger] flat[step * j],
                flat[step * j + 1],
            ),
        first_range_from(flat, step, count, x, k) < count ==> real_within(
            x,
            flat[step * first_range_from(flat, step, count, x, k)],
            flat[step * first_range_from(flat, step, count, x, k) + 1],
        ),
    decreases count - k,
{
    if k < count && !real_within(x, flat[step * k], flat[step * k + 1]) {
        lemma_first_range(flat, step, count, x, k + 1);
    }
}

/// The first place whose breakpoint lies above `x`.
pub fn find_first_above(xs: &Vec<u64>, x: u64) -> (k: usize)
    ensures
        k == first_above(xs@, x),
        k <= xs@.len(),
{
    let mut k: usize = 0;
    while k < xs.len()
        invariant
            k <= xs@.len(),
            first_above(xs@, x) == first_above_from(xs@, x, k as int),
        decreases xs@.len() - k,
    {
        if real_less(x, xs[k]) {
            return k;
        }
        k += 1;
    }
    k
}

/// The first place whose key equals `x`.
pub fn find_first_equal(keys: &Vec<u64>, x: u64) -> (k: usize)
    ensures
        k == first_equal_from(keys@, x, 0),
        k <= keys@.len(),
{
    let mut k: usize = 0;
    while k < keys.len()
        invariant
            k <= keys@.len(),
            first_equal_from(keys@, x, 0) == first_equal_from(keys@, x, k as int),
        decreases keys@.len() - k,
    {
        if real_equal(x, keys[k]) {
            return k;
        }
        k += 1;
    }
    k
}

/// The first of `count` ranges that holds `x`, the ranges standing in
/// `flat` in groups of `step` numbers.
pub fn find_first_range(flat: &Vec<u64>, step: usize, count: usize, x: u64) -> (k: usize)
    requires
        2 <= step <= 3,
        step * count <= flat@.len(),
    ensures
        k == first_range_from(flat@, step as int, count as int, x, 0),
        k <= count,
{
    let len: usize = flat.len();
    let mut k: usize = 0;
    while k < count
        invariant
            k <= count,
            2 <= step <= 3,
            step * count <= len,
            len == flat@.len(),
            first_range_from(flat@, step as int, count as int, x, 0) == first_range_from(
                flat@,
                step as int,
                count as int,
                x,
                k as int,
            ),
        decreases count - k,
    {
        assert(step * k + step <= step * count) by (nonlinear_arith)
            requires
                k < count,
                step >= 0,
        ;
        let lo: u64 = flat[step * k];
        let hi: u64 = flat[step * k + 1];
        if real_less_eq(lo, x) && real_less_eq(x, hi) {
            return k;
        }
        k += 1;
    }
    k
}

// ---------------------------------------------------------------------------
// Tables and ranges
// ---------------------------------------------------------------------------

/// The value of a table without interpolation at `x`: the value that
/// belongs to the last breakpoint not above `x`, and the first value where
/// every breakpoint lies above `x`.
pub open spec fn table_value(xs: Seq<u64>, ys: Seq<u64>, x: u64) -> u64 {
    let k = first_above(xs, x);
    if k == 0 {
        ys[0]
    } else {
        ys[k - 1]
    }
}

/// The value of a table without interpolation at `x`. A table without
/// rows, or with more breakpoints than values or fewer, cannot be used.
pub fn table_lookup(xs: &Vec<u64>, ys: &Vec<u64>, x: u64) -> (r: Result<u64, MdfError>)
    ensures
        r is Ok <==> (xs@.len() > 0 && xs@.len() == ys@.len()),
        r is Ok ==> r->Ok_0 == table_value(xs@, ys@, x),
        r is Err ==> r->Err_0 == MdfError::UnsupportedConversion,
{
    if xs.len() == 0 || xs.len() != ys.len() {
        return Err(MdfError::UnsupportedConversion);
    }
    let k: usize = find_first_above(xs, x);
    if k == 0 {
        Ok(ys[0])
    } else {
        Ok(ys[k - 1])
    }
}

/// What a table with interpolation gives at `x`: a value, where `x` lies
/// outside the breakpoints; else the row at whose breakpoint `x` first lies
/// below, between which and the row before the value is interpolated.
#[derive(Debug, Clone, Copy, PartialEq, Eq, Structural)]
pub enum Interpolation {
    Value(u64),
    Between(usize),
}

/// What a table with interpolation gives at `x`: the first value below
/// the first breakpoint, the last value where no breakpoint lies above
/// `x`, and between two rows otherwise.
pub open spec fn table_int_step(xs: Seq<u64>, ys: Seq<u64>, x: u64) -> Interpolation {
    let k = first_above(xs, x);
    if k == 0 {
        Interpolation::Value(ys[0])
    } else if k == xs.len() {
        Interpolation::Value(ys[ys.len() - 1])
    } else {
        Interpolation::Between(k as usize)
    }
}

/// What a table with interpolation gives at `x`. A table without rows, or
/// with more breakpoints than values or fewer, cannot be used.
pub fn table_int_lookup(xs: &Vec<u64>, ys: &Vec<u64>, x: u64) -> (r: Result<Interpolation, MdfError>)
    ensures
        r is Ok <==> (xs@.len() > 0 && xs@.len() == ys@.len()),
        r is Ok ==> r->Ok_0 == table_int_step(xs@, ys@, x),
        r is Ok ==> (r->Ok_0 matches Interpolation::Between(k) ==> 1 <= k < xs@.len()),
        r is Err ==> r->Err_0 == MdfError::UnsupportedConversion,
{
    if xs.len() == 0 || xs.len() != ys.len() {
        return Err(MdfError::UnsupportedConversion);
    }
    let k: usize = find_first_above(xs, x);
    if k == 0 {
        Ok(Interpolation::Value(ys[0]))
    } else if k == xs.len() {
        Ok(Interpolation::Value(ys[ys.len() - 1]))
    } else {
        Ok(Interpolation::Between(k))
    }
}

/// The number of ranges in a value-range rule: its numbers are the ranges,
/// three numbers each, and the default value last.
pub open spec fn range_count(flat: Seq<u64>) -> int {
    (flat.len() - 1) / 3
}

/// The value of a value-range rule at `x`: the value of the first range
/// that holds `x`, and the default, the last number, where none does.
pub open spec fn value_range_value(flat: Seq<u64>, x: u64) -> u64 {
    let k = first_range_from(flat, 3, range_count(flat), x, 0);
    if k < range_count(flat) {
        flat[3 * k + 2]
    } else {
        flat[flat.len() - 1]
    }
}

/// The value of a value-range rule at `x`. A rule without numbers cannot
/// be used.
pub fn value_range_lookup(flat: &Vec<u64>, x: u64) -> (r: Result<u64, MdfError>)
    ensures
        r is Ok <==> flat@.len() > 0,
        r is Ok ==> r->Ok_0 == value_range_value(flat@, x),
        r is Err ==> r->Err_0 == MdfError::UnsupportedConversion,
{
    if flat.len() == 0 {
        return Err(MdfError::UnsupportedConversion);
    }
    let count: usize = (flat.len() - 1) / 3;
    let k: usize = find_first_range(flat, 3, count, x);
    if k < count {
        Ok(flat[3 * k + 2])
    } else {
        Ok(flat[flat.len() - 1])
    }
}

/// The place, among `refs` references, of the one that a value-to-text
/// rule selects for `x`: that of the first key equal to `x`, and the last
/// reference, the default, where no key is.
pub open spec fn value2text_index(keys: Seq<u64>, refs: int, x: u64) -> int {
    let k = first_equal_from(keys, x, 0);
    if k < keys.len() {
        k
    } else {
        refs - 1
    }
}

/// The place, among `refs` references, of the one that a range-to-text
/// rule selects for `x`: that of the first range holding `x`, the ranges
/// being pairs of bounds, and the last reference, the default, where no
/// range does.
pub open spec fn range2text_index(bounds: Seq<u64>, refs: int, x: u64) -> int {
    let count = bounds.len() as int / 2;
    let k = first_range_from(bounds, 2, count, x, 0);
    if k < count {
        k
    } else {
        refs - 1
    }
}

// ---------------------------------------------------------------------------
// Conversion rules
// ---------------------------------------------------------------------------

/// What a value-to-text rule refers to: a text, or another rule.
#[derive(Debug)]
pub enum TextOrScale {
    Text(String),
    Scale(Conversion),
}

/// The kinds of conversion rule, each with its numbers and references.
/// Numbers are doubles as bit patterns; links are file offsets.
#[derive(Debug)]
pub enum CcType {
    OneToOne,
    Linear((u64, u64)),
    Rational([u64; 6]),
    Algebraic(String),
    TableInt((Vec<u64>, Vec<u64>)),
    Table((Vec<u64>, Vec<u64>)),
    ValueRange(Vec<u64>),
    Value2Text((Vec<u64>, Vec<TextOrScale>)),
    ValueRange2Text((Vec<u64>, Vec<TextOrScale>)),
    Text2Value((Vec<u64>, Vec<u64>)),
    Text2Text(Vec<u64>),
    BitfieldText((Vec<u64>, Vec<u64>)),
    NotImplemented,
}

/// A conversion rule with its name, its unit and its comment.
#[derive(Debug)]
pub struct Conversion {
    name: String,
    unit: String,
    comment: String,
    inverse_ref: u64,
    cc_type: CcType,
}

/// What a `TextOrScale` holds.
pub enum RefModel {
    Text(Seq<char>),
    Scale(ConversionModel),
}

/// What a `CcType` holds.
pub enum CcModel {
    OneToOne,
    Linear(u64, u64),
    Rational(Seq<u64>),
    Algebraic(Seq<char>),
    TableInt(Seq<u64>, Seq<u64>),
    Table(Seq<u64>, Seq<u64>),
    ValueRange(Seq<u64>),
    Value2Text(Seq<u64>, Seq<RefModel>),
    ValueRange2Text(Seq<u64>, Seq<RefModel>),
    Text2Value(Seq<u64>, Seq<u64>),
    Text2Text(Seq<u64>),
    BitfieldText(Seq<u64>, Seq<u64>),
    NotImplemented,
}

/// What a `Conversion` holds.
pub struct ConversionModel {
    pub name: Seq<char>,
    pub unit: Seq<char>,
    pub comment: Seq<char>,
    pub inverse_ref: u64,
    pub kind: CcModel,
}

/// What a reference holds.
pub open spec fn ref_model(r: TextOrScale) -> RefModel
    decreases r,
{
    match r {
        TextOrScale::Text(s) => RefModel::Text(s@),
        TextOrScale::Scale(c) => RefModel::Scale(conversion_model(c)),
    }
}

/// What each of the references holds.
pub open spec fn ref_models(v: Seq<TextOrScale>) -> Seq<RefModel>
    decreases v,
{
    if v.len() == 0 {
        Seq::empty()
    } else {
        ref_models(v.drop_last()).push(ref_model(v.last()))
    }
}

/// What a kind of rule holds.
pub open spec fn cc_model(t: CcType) -> CcModel
    decreases t,
{
    match t {
        CcType::OneToOne => CcModel::OneToOne,
        CcType::Linear(p) => CcModel::Linear(p.0, p.1),
        CcType::Rational(a) => CcModel::Rational(a@),
        CcType::Algebraic(s) => CcModel::Algebraic(s@),
        CcType::TableInt(p) => CcModel::TableInt(p.0@, p.1@),
        CcType::Table(p) => CcModel::Table(p.0@, p.1@),
        CcType::ValueRange(v) => CcModel::ValueRange(v@),
        CcType::Value2Text(p) => CcModel::Value2Text(p.0@, ref_models(p.1@)),
        CcType::ValueRange2Text(p) => CcModel::ValueRange2Text(p.0@, ref_models(p.1@)),
        CcType::Text2Value(p) => CcModel::Text2Value(p.0@, p.1@),
        CcType::Text2Text(v) => CcModel::Text2Text(v@),
        CcType::BitfieldText(p) => CcModel::BitfieldText(p.0@, p.1@),
        CcType::NotImplemented => CcModel::NotImplemented,
    }
}

/// What a rule holds.
pub closed spec fn conversion_model(c: Conversion) -> ConversionModel
    decreases c,
{
    ConversionModel {
        name: c.name@,
        unit: c.unit@,
        comment: c.comment@,
        inverse_ref: c.inverse_ref,
        kind: cc_model(c.cc_type),
    }
}

/// `ref_models` keeps the number and the order of the references.
pub proof fn lemma_ref_models(v: Seq<TextOrScale>)
    ensures
        ref_models(v).len() == v.len(),
        forall|i: int| 0 <= i < v.len() ==> (#[trigger] ref_models(v)[i]) == ref_model(v[i]),
    decreases v.len(),
{
    if v.len() > 0 {
        lemma_ref_models(v.drop_last());
        assert forall|i: int| 0 <= i < v.len() implies (#[trigger] ref_models(v)[i]) == ref_model(
            v[i],
        ) by {
            if i < v.len() - 1 {
                assert(v.drop_last()[i] == v[i]);
            }
        }
    }
}

impl View for TextOrScale {
    type V = RefModel;

    open spec fn view(&self) -> RefModel {
        ref_model(*self)
    }
}

impl View for CcType {
    type V = CcModel;

    open spec fn view(&self) -> CcModel {
        cc_model(*self)
    }
}

impl View for Conversion {
    type V = ConversionModel;

    open spec fn view(&self) -> ConversionModel {
        conversion_model(*self)
    }
}

/// The rule that stands for a nil link: no texts, and every value stays
/// as it is.
pub open spec fn default_conversion() -> ConversionModel {
    ConversionModel {
        name: Seq::empty(),
        unit: Seq::empty(),
        comment: Seq::empty(),
        inverse_ref: 0,
        kind: CcModel::OneToOne,
    }
}

impl CcModel {
    /// Whether the rule yields numbers.
    pub open spec fn is_num(&self) -> bool {
        match self {
            CcModel::OneToOne => true,
            CcModel::Linear(_, _) => true,
            CcModel::Rational(_) => true,
            CcModel::TableInt(_, _) => true,
            CcModel::Table(_, _) => true,
            CcModel::ValueRange(_) => true,
            CcModel::Text2Value(_, _) => true,
            CcModel::Algebraic(_) => true,
            _ => false,
        }
    }
}

impl CcType {
    /// Whether the rule yields numbers.
    pub fn is_num(&self) -> (r: bool)
        ensures
            r == self@.is_num(),
    {
        match self {
            CcType::OneToOne => true,
            CcType::Linear(_) => true,
            CcType::Rational(_) => true,
            CcType::TableInt(_) => true,
            CcType::Table(_) => true,
            CcType::ValueRange(_) => true,
            CcType::Text2Value(_) => true,
            CcType::Algebraic(_) => true,
            _ => false,
        }
    }
}

/// What is left to do once a numeric rule has decided all that it decides
/// by comparing: nothing, where the result is one of the rule's numbers or
/// the input itself; else one calculation on doubles.
#[derive(Debug)]
pub enum NumericStep {
    /// The result.
    Value(u64),
    /// The result is `a + b * x`, for the pair `(a, b)`.
    Linear(u64, u64),
    /// The result is `(a x² + b x + c) / (d x² + e x + f)`, for the six
    /// numbers `a` to `f`.
    Rational([u64; 6]),
    /// The result is the value of this formula with `X` set to `x`.
    Algebraic(String),
    /// The result lies on the line through `(x0, y0)` and `(x1, y1)`, for
    /// the four numbers `x0`, `y0`, `x1`, `y1`.
    Interpolate(u64, u64, u64, u64),
}

/// What a `NumericStep` holds.
pub enum NumericStepModel {
    Value(u64),
    Linear(u64, u64),
    Rational(Seq<u64>),
    Algebraic(Seq<char>),
    Interpolate(u64, u64, u64, u64),
}

impl View for NumericStep {
    type V = NumericStepModel;

    open spec fn view(&self) -> NumericStepModel {
        match self {
            NumericStep::Value(v) => NumericStepModel::Value(*v),
            NumericStep::Linear(a, b) => NumericStepModel::Linear(*a, *b),
            NumericStep::Rational(v) => NumericStepModel::Rational(v@),
            NumericStep::Algebraic(t) => NumericStepModel::Algebraic(t@),
            NumericStep::Interpolate(x0, y0, x1, y1) => NumericStepModel::Interpolate(
                *x0,
                *y0,
                *x1,
                *y1,
            ),
        }
    }
}

/// What is left to do once a text-yielding rule has chosen: nothing, where
/// it chose a text; else what the numeric rule that it chose leaves to do.
#[derive(Debug)]
pub enum MixedStep {
    Text(String),
    Number(NumericStep),
}

/// What a `MixedStep` holds.
pub enum MixedStepModel {
    Text(Seq<char>),
    Number(NumericStepModel),
}

impl View for MixedStep {
    type V = MixedStepModel;

    open spec fn view(&self) -> MixedStepModel {
        match self {
            MixedStep::Text(t) => MixedStepModel::Text(t@),
            MixedStep::Number(n) => MixedStepModel::Number(n@),
        }
    }
}

/// What a numeric rule makes of `x`. Identity gives `x`. A table without
/// interpolation and a value-range rule give one of their numbers. A table
/// with interpolation gives its first or last value outside the
/// breakpoints and the two rows to interpolate between inside. Linear,
/// rational and algebraic rules give their formula. Other rules yield no
/// number, and a table or range rule without numbers cannot be used.
pub open spec fn numeric_step(kind: CcModel, x: u64) -> Result<NumericStepModel, MdfError> {
    match kind {
        CcModel::OneToOne => Ok(NumericStepModel::Value(x)),
        CcModel::Linear(a, b) => Ok(NumericStepModel::Linear(a, b)),
        CcModel::Rational(v) => Ok(NumericStepModel::Rational(v)),
        CcModel::Algebraic(t) => Ok(NumericStepModel::Algebraic(t)),
        CcModel::TableInt(xs, ys) => {
            if xs.len() == 0 || xs.len() != ys.len() {
                Err(MdfError::UnsupportedConversion)
            } else {
                match table_int_step(xs, ys, x) {
                    Interpolation::Value(v) => Ok(NumericStepModel::Value(v)),
                    Interpolation::Between(k) => Ok(
                        NumericStepModel::Interpolate(xs[k - 1], ys[k - 1], xs[k as int], ys[k as int]),
                    ),
                }
            }
        },
        CcModel::Table(xs, ys) => {
            if xs.len() == 0 || xs.len() != ys.len() {
                Err(MdfError::UnsupportedConversion)
            } else {
                Ok(NumericStepModel::Value(table_value(xs, ys, x)))
            }
        },
        CcModel::ValueRange(flat) => {
            if flat.len() == 0 {
                Err(MdfError::UnsupportedConversion)
            } else {
                Ok(NumericStepModel::Value(value_range_value(flat, x)))
            }
        },
        _ => Err(MdfError::UnsupportedConversion),
    }
}

/// What the reference `r` of a text-yielding rule makes of `x`: its text;
/// or, where it is a rule, what that rule makes of `x`, a number where the
/// rule is numeric.
pub open spec fn ref_step(r: RefModel, x: u64) -> Result<MixedStepModel, MdfError>
    decreases r, 0nat,
{
    match r {
        RefModel::Text(t) => Ok(MixedStepModel::Text(t)),
        RefModel::Scale(c) => {
            if c.kind.is_num() {
                match numeric_step(c.kind, x) {
                    Ok(n) => Ok(MixedStepModel::Number(n)),
                    Err(e) => Err(e),
                }
            } else {
                mixed_step(c, x)
            }
        },
    }
}

/// What a text-yielding rule makes of `x`. A value-to-text rule selects
/// the reference of the first key equal to `x`, a range-to-text rule that
/// of the first range holding `x`; where there is none, both select their
/// last reference, the default. Other rules, and rules in which the place
/// selected holds no reference, cannot be used.
pub open spec fn mixed_step(c: ConversionModel, x: u64) -> Result<MixedStepModel, MdfError>
    decreases c, 1nat,
{
    match c.kind {
        CcModel::Value2Text(keys, refs) => {
            let i = value2text_index(keys, refs.len() as int, x);
            if 0 <= i < refs.len() {
                ref_step(refs[i], x)
            } else {
                Err(MdfError::UnsupportedConversion)
            }
        },
        CcModel::ValueRange2Text(bounds, refs) => {
            let i = range2text_index(bounds, refs.len() as int, x);
            if 0 <= i < refs.len() {
                ref_step(refs[i], x)
            } else {
                Err(MdfError::UnsupportedConversion)
            }
        },
        _ => Err(MdfError::UnsupportedConversion),
    }
}

fn copy_u64s(v: &Vec<u64>) -> (r: Vec<u64>)
    ensures
        r@ == v@,
{
    let mut r: Vec<u64> = Vec::new();
    let mut i: usize = 0;
    while i < v.len()
        invariant
            i <= v@.len(),
            r@ == v@.subrange(0, i as int),
        decreases v@.len() - i,
    {
        r.push(v[i]);
        assert(r@ =~= v@.subrange(0, i + 1));
        i += 1;
    }
    assert(v@.subrange(0, i as int) =~= v@);
    r
}

impl Default for Conversion {
    fn default() -> (r: Self)
        ensures
            r@ == default_conversion(),
    {
        Conversion {
            name: String::new(),
            unit: String::new(),
            comment: String::new(),
            inverse_ref: 0,
            cc_type: CcType::OneToOne,
        }
    }
}

impl Clone for TextOrScale {
    fn clone(&self) -> (r: Self)
        ensures
            r@ == self@,
        decreases self, 0nat,
    {
        match self {
            TextOrScale::Text(s) => TextOrScale::Text(s.clone()),
            TextOrScale::Scale(c) => TextOrScale::Scale(c.clone()),
        }
    }
}

impl Clone for CcType {
    fn clone(&self) -> (r: Self)
        ensures
            r@ == self@,
        decreases self, 1nat,
    {
        match self {
            CcType::OneToOne => CcType::OneToOne,
            CcType::Linear(p) => CcType::Linear((p.0, p.1)),
            CcType::Rational(a) => CcType::Rational(*a),
            CcType::Algebraic(s) => CcType::Algebraic(s.clone()),
            CcType::TableInt(p) => CcType::TableInt((copy_u64s(&p.0), copy_u64s(&p.1))),
            CcType::Table(p) => CcType::Table((copy_u64s(&p.0), copy_u64s(&p.1))),
            CcType::ValueRange(v) => CcType::ValueRange(copy_u64s(v)),
            CcType::Value2Text(p) => {
                let refs = clone_refs(&p.1);
                let r = CcType::Value2Text((copy_u64s(&p.0), refs));
                proof {
                    lemma_ref_models(refs@);
                    lemma_ref_models(p.1@);
                    assert(ref_models(refs@) =~= ref_models(p.1@));
                }
                r
            },
            CcType::ValueRange2Text(p) => {
                let refs = clone_refs(&p.1);
                let r = CcType::ValueRange2Text((copy_u64s(&p.0), refs));
                proof {
                    lemma_ref_models(refs@);
                    lemma_ref_models(p.1@);
                    assert(ref_models(refs@) =~= ref_models(p.1@));
                }
                r
            },
            CcType::Text2Value(p) => CcType::Text2Value((copy_u64s(&p.0), copy_u64s(&p.1))),
            CcType::Text2Text(v) => CcType::Text2Text(copy_u64s(v)),
            CcType::BitfieldText(p) => CcType::BitfieldText((copy_u64s(&p.0), copy_u64s(&p.1))),
            CcType::NotImplemented => CcType::NotImplemented,
        }
    }
}

fn clone_refs(v: &Vec<TextOrScale>) -> (r: Vec<TextOrScale>)
    ensures
        r@.len() == v@.len(),
        forall|i: int| 0 <= i < v@.len() ==> (#[trigger] r@[i])@ == v@[i]@,
    decreases v, 0nat,
{
    let mut r: Vec<TextOrScale> = Vec::new();
    let mut i: usize = 0;
    while i < v.len()
        invariant
            i <= v@.len(),
            r@.len() == i,
            forall|j: int| 0 <= j < i ==> (#[trigger] r@[j])@ == v@[j]@,
        decreases v@.len() - i,
    {
        proof {
            assert(decreases_to!(v => v[i as int]));
        }
        let item: TextOrScale = v[i].clone();
        r.push(item);
        i += 1;
    }
    r
}

impl Clone for Conversion {
    fn clone(&self) -> (r: Self)
        ensures
            r@ == self@,
        decreases self, 2nat,
    {
        Conversion {
            name: self.name.clone(),
            unit: self.unit.clone(),
            comment: self.comment.clone(),
            inverse_ref: self.inverse_ref,
            cc_type: self.cc_type.clone(),
        }
    }
}

// ---------------------------------------------------------------------------
// Text in, value out
// ---------------------------------------------------------------------------

/// The clean texts of the blocks that the first `k` links point to, or the
/// error of the first that cannot be read.
pub open spec fn texts_upto(map: &DescMap, file: Seq<u8>, links: Seq<u64>, k: int) -> Result<
    Seq<Seq<char>>,
    MdfError,
>
    decreases k,
{
    if k <= 0 {
        Ok(Seq::empty())
    } else {
        match texts_upto(map, file, links, k - 1) {
            Err(e) => Err(e),
            Ok(done) => match spec_clean_text(map, file, links[k - 1]) {
                Err(e) => Err(e),
                Ok(t) => Ok(done.push(t)),
            },
        }
    }
}

/// The first place from `k` on, below `count`, whose key is the text `s`;
/// `count` where there is none.
pub open spec fn first_text_from(keys: Seq<Seq<char>>, count: int, s: Seq<char>, k: int) -> int
    decreases count - k,
{
    if k < 0 || k >= count {
        count
    } else if keys[k] == s {
        k
    } else {
        first_text_from(keys, count, s, k + 1)
    }
}

/// The texts at the even places of `v`.
pub open spec fn even_places(v: Seq<Seq<char>>) -> Seq<Seq<char>> {
    Seq::new((v.len() / 2) as nat, |i: int| v[2 * i])
}

/// The texts at the odd places of `v`.
pub open spec fn odd_places(v: Seq<Seq<char>>) -> Seq<Seq<char>> {
    Seq::new((v.len() / 2) as nat, |i: int| v[2 * i + 1])
}

/// The number that a text-to-value rule gives for the text `s`: the value
/// in the place of the first key that is `s`, among the keys that have a
/// value beside them; the last value, the default, where no key is `s`.
pub open spec fn text2value_value(keys: Seq<Seq<char>>, values: Seq<u64>, s: Seq<char>) -> u64 {
    let count = if keys.len() <= values.len() {
        keys.len() as int
    } else {
        values.len() as int
    };
    let k = first_text_from(keys, count, s, 0);
    if k < count {
        values[k]
    } else {
        values[values.len() - 1]
    }
}

/// The text that a text-to-text rule gives for the text `s`, the rule's
/// texts being pairs of key and result with the default last.
pub open spec fn text2text_value(texts: Seq<Seq<char>>, s: Seq<char>) -> Seq<char> {
    let keys = even_places(texts);
    let k = first_text_from(keys, keys.len() as int, s, 0);
    if k < keys.len() {
        odd_places(texts)[k]
    } else {
        texts[texts.len() - 1]
    }
}

/// What a rule makes of the texts `inp`. A text-to-value rule gives a
/// number for each, a text-to-text rule a text for each, identity gives the
/// texts back. A text-to-text rule needs an odd number of texts, a
/// text-to-value rule at least the default value. Other rules take no text.
pub open spec fn from_text(kind: CcModel, map: &DescMap, file: Seq<u8>, inp: Seq<Seq<char>>) -> Result<
    DataModel,
    MdfError,
> {
    match kind {
        CcModel::Text2Value(links, values) => match texts_upto(map, file, links, links.len() as int) {
            Err(e) => Err(e),
            Ok(keys) => {
                if values.len() == 0 {
                    Err(MdfError::UnsupportedConversion)
                } else {
                    Ok(
                        DataModel::Real(
                            Seq::new(inp.len(), |i: int| text2value_value(keys, values, inp[i])),
                        ),
                    )
                }
            },
        },
        CcModel::Text2Text(links) => {
            if links.len() % 2 == 0 {
                Err(MdfError::UnsupportedConversion)
            } else {
                match texts_upto(map, file, links, links.len() as int) {
                    Err(e) => Err(e),
                    Ok(texts) => Ok(
                        DataModel::Strings(
                            Seq::new(inp.len(), |i: int| text2text_value(texts, inp[i])),
                        ),
                    ),
                }
            }
        },
        CcModel::OneToOne => Ok(DataModel::Strings(inp)),
        _ => Err(MdfError::UnsupportedConversion),
    }
}

/// Once a text cannot be read, none of the later ones changes the error.
proof fn lemma_texts_upto_err(map: &DescMap, file: Seq<u8>, links: Seq<u64>, k: int, n: int)
    requires
        0 <= k <= n,
        texts_upto(map, file, links, k) is Err,
    ensures
        texts_upto(map, file, links, n) == texts_upto(map, file, links, k),
    decreases n - k,
{
    if k < n {
        lemma_texts_upto_err(map, file, links, k, n - 1);
    }
}

proof fn lemma_texts_upto_len(map: &DescMap, file: Seq<u8>, links: Seq<u64>, k: int)
    requires
        0 <= k,
        texts_upto(map, file, links, k) is Ok,
    ensures
        texts_upto(map, file, links, k)->Ok_0.len() == k,
    decreases k,
{
    if k > 0 {
        lemma_texts_upto_len(map, file, links, k - 1);
    }
}

fn read_texts(map: &DescMap, file: &[u8], links: &Vec<u64>) -> (r: Result<Vec<String>, MdfError>)
    ensures
        match r {
            Ok(texts) => texts_upto(map, file@, links@, links@.len() as int) == Ok::<
                Seq<Seq<char>>,
                MdfError,
            >(texts.deep_view()) && texts@.len() == links@.len(),
            Err(e) => texts_upto(map, file@, links@, links@.len() as int) == Err::<
                Seq<Seq<char>>,
                MdfError,
            >(e),
        },
{
    let mut texts: Vec<String> = Vec::new();
    let mut i: usize = 0;
    assert(texts.deep_view() =~= Seq::<Seq<char>>::empty());
    while i < links.len()
        invariant
            i <= links@.len(),
            texts@.len() == i,
            texts_upto(map, file@, links@, i as int) == Ok::<Seq<Seq<char>>, MdfError>(
                texts.deep_view(),
            ),
        decreases links@.len() - i,
    {
        match get_clean_text(map, file, links[i]) {
            Ok(t) => {
                let ghost before = texts.deep_view();
                let ghost tv = t@;
                texts.push(t);
                assert(texts.deep_view() =~= before.push(tv));
            },
            Err(e) => {
                proof {
                    lemma_texts_upto_err(map, file@, links@, i + 1, links@.len() as int);
                }
                return Err(e);
            },
        }
        i += 1;
    }
    Ok(texts)
}

fn find_text(keys: &Vec<String>, step: usize, offset: usize, count: usize, s: &String) -> (k: usize)
    requires
        1 <= step <= 2,
        offset < step,
        step * count <= keys@.len(),
    ensures
        k <= count,
        forall|j: int| 0 <= j < k ==> (#[trigger] keys@[step * j + offset])@ != s@,
        k < count ==> keys@[step * k + offset]@ == s@,
{
    let len: usize = keys.len();
    let mut k: usize = 0;
    while k < count
        invariant
            k <= count,
            1 <= step <= 2,
            offset < step,
            step * count <= len,
            len == keys@.len(),
            forall|j: int| 0 <= j < k ==> (#[trigger] keys@[step * j + offset])@ != s@,
        decreases count - k,
    {
        assert(step * k + step <= step * count) by (nonlinear_arith)
            requires
                k < count,
                step >= 0,
        ;
        if keys[step * k + offset] == *s {
            return k;
        }
        k += 1;
    }
    k
}

/// `first_text_from` finds the first place whose key is `s`.
proof fn lemma_first_text(keys: Seq<Seq<char>>, count: int, s: Seq<char>, k: int, found: int)
    requires
        0 <= k <= found <= count,
        forall|j: int| k <= j < found ==> (#[trigger] keys[j]) != s,
        found < count ==> keys[found] == s,
    ensures
        first_text_from(keys, count, s, k) == found,
    decreases found - k,
{
    if k < found {
        lemma_first_text(keys, count, s, k + 1, found);
    }
}

impl Conversion {
    /// The rule's unit.
    pub fn get_unit(&self) -> (s: &str)
        ensures
            s@ == self@.unit,
    {
        self.unit.as_str()
    }

    /// The comment on the rule.
    pub fn get_comment(&self) -> (s: &str)
        ensures
            s@ == self@.comment,
    {
        self.comment.as_str()
    }

    /// Whether the rule names an inverse rule.
    pub fn is_inverse(&self) -> (b: bool)
        ensures
            b == (self@.inverse_ref != 0),
    {
        self.inverse_ref != 0
    }

    /// The rule's name.
    pub fn get_cc_name(&self) -> (s: &str)
        ensures
            s@ == self@.name,
    {
        self.name.as_str()
    }

    /// The kind of the rule with its numbers and references.
    pub fn get_cc_type(&self) -> (t: &CcType)
        ensures
            t@ == self@.kind,
    {
        &self.cc_type
    }

    /// What the rule, as a numeric rule, makes of the double `x`.
    pub fn convert_num_value(&self, x: u64) -> (r: Result<NumericStep, MdfError>)
        ensures
            match r {
                Ok(step) => numeric_step(self@.kind, x) == Ok::<NumericStepModel, MdfError>(step@),
                Err(e) => numeric_step(self@.kind, x) == Err::<NumericStepModel, MdfError>(e),
            },
    {
        match &self.cc_type {
            CcType::OneToOne => Ok(NumericStep::Value(x)),
            CcType::Linear(p) => Ok(NumericStep::Linear(p.0, p.1)),
            CcType::Rational(a) => Ok(NumericStep::Rational(*a)),
            CcType::Algebraic(t) => Ok(NumericStep::Algebraic(t.clone())),
            CcType::TableInt(p) => {
                match table_int_lookup(&p.0, &p.1, x) {
                    Err(e) => Err(e),
                    Ok(Interpolation::Value(v)) => Ok(NumericStep::Value(v)),
                    Ok(Interpolation::Between(k)) => Ok(
                        NumericStep::Interpolate(p.0[k - 1], p.1[k - 1], p.0[k], p.1[k]),
                    ),
                }
            },
            CcType::Table(p) => {
                match table_lookup(&p.0, &p.1, x) {
                    Err(e) => Err(e),
                    Ok(v) => Ok(NumericStep::Value(v)),
                }
            },
            CcType::ValueRange(flat) => {
                match value_range_lookup(flat, x) {
                    Err(e) => Err(e),
                    Ok(v) => Ok(NumericStep::Value(v)),
                }
            },
            _ => Err(MdfError::UnsupportedConversion),
        }
    }

    /// What the rule, as a text-yielding rule, makes of the double `x`.
    pub fn convert_to_mix(&self, x: u64) -> (r: Result<MixedStep, MdfError>)
        ensures
            match r {
                Ok(step) => mixed_step(self@, x) == Ok::<MixedStepModel, MdfError>(step@),
                Err(e) => mixed_step(self@, x) == Err::<MixedStepModel, MdfError>(e),
            },
        decreases self, 1nat,
    {
        match &self.cc_type {
            CcType::Value2Text(p) => {
                let k: usize = find_first_equal(&p.0, x);
                let n_refs: usize = p.1.len();
                proof {
                    lemma_ref_models(p.1@);
                }
                let i: usize = if k < p.0.len() {
                    k
                } else if n_refs == 0 {
                    return Err(MdfError::UnsupportedConversion);
                } else {
                    n_refs - 1
                };
                if i >= n_refs {
                    return Err(MdfError::UnsupportedConversion);
                }
                proof {
                    assert(decreases_to!(self => self.cc_type));
                    assert(p == self.cc_type->Value2Text_0);
                    assert(decreases_to!(self.cc_type => self.cc_type->Value2Text_0));
                    assert(decreases_to!(p => p.1));
                    assert(decreases_to!(p.1 => p.1[i as int]));
                    assert(decreases_to!(self => p.1[i as int]));
                }
                Self::to_mix(&p.1[i], x)
            },
            CcType::ValueRange2Text(p) => {
                let count: usize = p.0.len() / 2;
                let k: usize = find_first_range(&p.0, 2, count, x);
                let n_refs: usize = p.1.len();
                proof {
                    lemma_ref_models(p.1@);
                }
                let i: usize = if k < count {
                    k
                } else if n_refs == 0 {
                    return Err(MdfError::UnsupportedConversion);
                } else {
                    n_refs - 1
                };
                if i >= n_refs {
                    return Err(MdfError::UnsupportedConversion);
                }
                proof {
                    assert(decreases_to!(self => self.cc_type));
                    assert(p == self.cc_type->ValueRange2Text_0);
                    assert(decreases_to!(self.cc_type => self.cc_type->ValueRange2Text_0));
                    assert(decreases_to!(p => p.1));
                    assert(decreases_to!(p.1 => p.1[i as int]));
                    assert(decreases_to!(self => p.1[i as int]));
                }
                Self::to_mix(&p.1[i], x)
            },
            _ => Err(MdfError::UnsupportedConversion),
        }
    }

    fn to_mix(conv: &TextOrScale, x: u64) -> (r: Result<MixedStep, MdfError>)
        ensures
            match r {
                Ok(step) => ref_step(conv@, x) == Ok::<MixedStepModel, MdfError>(step@),
                Err(e) => ref_step(conv@, x) == Err::<MixedStepModel, MdfError>(e),
            },
        decreases conv, 0nat,
    {
        match conv {
            TextOrScale::Text(text) => Ok(MixedStep::Text(text.clone())),
            TextOrScale::Scale(c) => {
                if c.cc_type.is_num() {
                    match c.convert_num_value(x) {
                        Ok(n) => Ok(MixedStep::Number(n)),
                        Err(e) => Err(e),
                    }
                } else {
                    c.convert_to_mix(x)
                }
            },
        }
    }

    /// What the rule makes of the texts `inp`. The texts that the rule
    /// compares with are read from the file.
    pub fn convert_from_text(&self, map: &DescMap, file: &[u8], inp: &Vec<String>) -> (r: Result<
        DataValue,
        MdfError,
    >)
        ensures
            match r {
                Ok(v) => from_text(self@.kind, map, file@, inp.deep_view()) == Ok::<
                    DataModel,
                    MdfError,
                >(v@),
                Err(e) => from_text(self@.kind, map, file@, inp.deep_view()) == Err::<
                    DataModel,
                    MdfError,
                >(e),
            },
    {
        match &self.cc_type {
            CcType::Text2Value(p) => {
                let keys: Vec<String> = match read_texts(map, file, &p.0) {
                    Ok(k) => k,
                    Err(e) => {
                        return Err(e);
                    },
                };
                let values: &Vec<u64> = &p.1;
                if values.len() == 0 {
                    return Err(MdfError::UnsupportedConversion);
                }
                let count: usize = if keys.len() <= values.len() {
                    keys.len()
                } else {
                    values.len()
                };
                let default_value: u64 = values[values.len() - 1];
                let mut result: Vec<u64> = Vec::new();
                let mut i: usize = 0;
                while i < inp.len()
                    invariant
                        i <= inp@.len(),
                        values@.len() > 0,
                        count <= keys@.len(),
                        count <= values@.len(),
                        count == keys@.len() || count == values@.len(),
                        default_value == values@[values@.len() - 1],
                        result@.len() == i,
                        forall|j: int|
                            0 <= j < i ==> result@[j] == text2value_value(
                                keys.deep_view(),
                                values@,
                                inp.deep_view()[j],
                            ),
                    decreases inp@.len() - i,
                {
                    let k: usize = find_text(&keys, 1, 0, count, &inp[i]);
                    proof {
                        let dk = keys.deep_view();
                        assert forall|j: int| 0 <= j < k implies (#[trigger] dk[j]) != inp@[i as int]@ by {
                            assert(keys@[1 * j + 0]@ != inp@[i as int]@);
                        }
                        if k < count {
                            assert(dk[k as int] == keys@[1 * k + 0]@);
                        }
                        lemma_first_text(dk, count as int, inp@[i as int]@, 0, k as int);
                    }
                    if k < count {
                        result.push(values[k]);
                    } else {
                        result.push(default_value);
                    }
                    i += 1;
                }
                let out = DataValue::REAL(result);
                proof {
                    let want = Seq::new(
                        inp.deep_view().len(),
                        |i: int| text2value_value(keys.deep_view(), values@, inp.deep_view()[i]),
                    );
                    assert(result@ =~= want);
                }
                Ok(out)
            },
            CcType::Text2Text(links) => {
                let total: usize = links.len();
                if total % 2 == 0 {
                    return Err(MdfError::UnsupportedConversion);
                }
                let texts: Vec<String> = match read_texts(map, file, links) {
                    Ok(t) => t,
                    Err(e) => {
                        return Err(e);
                    },
                };
                let half: usize = total / 2;
                let mut result: Vec<String> = Vec::new();
                let mut i: usize = 0;
                let ghost dt = texts.deep_view();
                while i < inp.len()
                    invariant
                        i <= inp@.len(),
                        texts@.len() == total,
                        total % 2 == 1,
                        half == total / 2,
                        dt == texts.deep_view(),
                        result@.len() == i,
                        forall|j: int|
                            0 <= j < i ==> (#[trigger] result@[j])@ == text2text_value(
                                dt,
                                inp.deep_view()[j],
                            ),
                    decreases inp@.len() - i,
                {
                    let k: usize = find_text(&texts, 2, 0, half, &inp[i]);
                    proof {
                        let keys = even_places(dt);
                        assert forall|j: int| 0 <= j < k implies (#[trigger] keys[j]) != inp@[i as int]@ by {
                            assert(keys[j] == texts@[2 * j + 0]@);
                        }
                        if k < half {
                            assert(keys[k as int] == texts@[2 * k + 0]@);
                        }
                        lemma_first_text(keys, keys.len() as int, inp@[i as int]@, 0, k as int);
                    }
                    if k < half {
                        result.push(texts[2 * k + 1].clone());
                    } else {
                        result.push(texts[total - 1].clone());
                    }
                    i += 1;
                }
                let out = DataValue::STRINGS(result);
                proof {
                    let want = Seq::new(
                        inp.deep_view().len(),
                        |i: int| text2text_value(dt, inp.deep_view()[i]),
                    );
                    assert(result.deep_view() =~= want);
                }
                Ok(out)
            },
            CcType::OneToOne => Ok(DataValue::STRINGS(clone_strings(inp))),
            _ => Err(MdfError::UnsupportedConversion),
        }
    }
}

// ---------------------------------------------------------------------------
// Reading a rule from its block
// ---------------------------------------------------------------------------

/// How deep rules may be nested in the references of other rules. A rule
/// nested deeper is replaced by the default rule.
pub open spec fn nesting_limit() -> nat {
    32
}

/// The numbers of the field named `name`, or why there are none: the field
/// is missing, or it does not hold 64-bit numbers.
pub open spec fn u64s_field(data: Seq<(Seq<char>, DataModel)>, name: Seq<char>) -> Result<
    Seq<u64>,
    MdfError,
> {
    match lookup(data, name) {
        None => Err(MdfError::SchemaMissing),
        Some(DataModel::U64(s)) => Ok(s),
        Some(_) => Err(MdfError::UnsupportedDataType),
    }
}

/// The first `n` numbers at the even places of `v`.
pub open spec fn even_numbers(v: Seq<u64>, n: int) -> Seq<u64> {
    Seq::new(n as nat, |i: int| v[2 * i])
}

/// The first `n` numbers at the odd places of `v`.
pub open spec fn odd_numbers(v: Seq<u64>, n: int) -> Seq<u64> {
    Seq::new(n as nat, |i: int| v[2 * i + 1])
}

/// What the link `link` of a text-yielding rule refers to. A text block,
/// and a link whose block cannot be told, gives a text, empty where it
/// cannot be read. A conversion block gives that rule, and the default
/// rule where it cannot be read or lies too deep. Any other block gives
/// nothing.
pub open spec fn ref_at(map: &DescMap, file: Seq<u8>, link: u64, depth: nat) -> Option<RefModel>
    decreases depth, 0nat, 0nat,
{
    let kind = match spec_block_type(file, link) {
        Ok(k) => k,
        Err(_) => "TX"@,
    };
    if kind == "TX"@ {
        Some(RefModel::Text(spec_text_or_empty(map, file, link)))
    } else if kind == "CC"@ {
        if depth == 0 {
            Some(RefModel::Scale(default_conversion()))
        } else {
            Some(
                RefModel::Scale(
                    match spec_conversion(map, file, link, (depth - 1) as nat) {
                        Ok(c) => c,
                        Err(_) => default_conversion(),
                    },
                ),
            )
        }
    } else {
        None
    }
}

/// What the first `k` links refer to, or nothing where one of them refers
/// to nothing.
pub open spec fn refs_upto(map: &DescMap, file: Seq<u8>, links: Seq<u64>, depth: nat, k: nat) -> Option<
    Seq<RefModel>,
>
    decreases depth, 1nat, k,
{
    if k == 0 {
        Some(Seq::empty())
    } else {
        match refs_upto(map, file, links, depth, (k - 1) as nat) {
            None => None,
            Some(done) => match ref_at(map, file, links[k - 1], depth) {
                None => None,
                Some(r) => Some(done.push(r)),
            },
        }
    }
}

/// The kind of rule that the type number `t` selects, with the numbers
/// `vals` and the links `refs` of the block. Each kind asks for a certain
/// number of values and links, as the block's own counts declare them; a
/// block that has them otherwise is `NotImplemented`. `Ok(None)` stands for
/// a text-yielding rule with a reference to a block that is neither text
/// nor rule: such a rule is replaced by the default rule.
pub open spec fn kind_of(
    map: &DescMap,
    file: Seq<u8>,
    t: u8,
    vals: Seq<u64>,
    val_count: u16,
    refs: Seq<u64>,
    ref_count: u16,
    depth: nat,
) -> Result<Option<CcModel>, MdfError>
    decreases depth, 2nat, 0nat,
{
    if t == 0 {
        Ok(Some(CcModel::OneToOne))
    } else if t == 1 && vals.len() == 2 {
        Ok(Some(CcModel::Linear(vals[0], vals[1])))
    } else if t == 2 && vals.len() == 6 {
        Ok(Some(CcModel::Rational(vals)))
    } else if t == 3 && ref_count == 1 && refs.len() == 1 {
        match spec_clean_text(map, file, refs[0]) {
            Err(e) => Err(e),
            Ok(text) => Ok(Some(CcModel::Algebraic(text))),
        }
    } else if (t == 4 || t == 5) && vals.len() == val_count && vals.len() % 2 == 0 {
        let keys = even_numbers(vals, val_count as int / 2);
        let values = odd_numbers(vals, val_count as int / 2);
        if t == 4 {
            Ok(Some(CcModel::TableInt(keys, values)))
        } else {
            Ok(Some(CcModel::Table(keys, values)))
        }
    } else if t == 6 && vals.len() == val_count {
        Ok(Some(CcModel::ValueRange(vals)))
    } else if t == 7 && vals.len() == val_count && refs.len() == ref_count && ref_count == val_count
        + 1 {
        match refs_upto(map, file, refs, depth, refs.len()) {
            None => Ok(None),
            Some(r) => Ok(Some(CcModel::Value2Text(vals, r))),
        }
    } else if t == 8 && vals.len() == val_count && refs.len() == val_count / 2 + 1 {
        match refs_upto(map, file, refs, depth, refs.len()) {
            None => Ok(None),
            Some(r) => Ok(
                Some(CcModel::ValueRange2Text(vals.subrange(0, 2 * (val_count as int / 2)), r)),
            ),
        }
    } else if t == 9 && vals.len() == ref_count + 1 && refs.len() == ref_count {
        Ok(Some(CcModel::Text2Value(refs, vals)))
    } else if t == 10 && refs.len() == ref_count {
        Ok(Some(CcModel::Text2Text(refs)))
    } else if t == 11 && ref_count == val_count && vals.len() == val_count && refs.len()
        == ref_count {
        Ok(Some(CcModel::BitfieldText(vals, refs)))
    } else {
        Ok(Some(CcModel::NotImplemented))
    }
}

/// The rule that the parsed conversion block `block` describes.
pub open spec fn conversion_of(map: &DescMap, file: Seq<u8>, block: BlockModel, depth: nat) -> Result<
    ConversionModel,
    MdfError,
>
    decreases depth, 3nat, 0nat,
{
    match normal_link(block.link_map, "cc_tx_name"@) {
        None => Err(MdfError::SchemaMissing),
        Some(name_at) => match normal_link(block.link_map, "cc_md_unit"@) {
            None => Err(MdfError::SchemaMissing),
            Some(unit_at) => match normal_link(block.link_map, "cc_md_comment"@) {
                None => Err(MdfError::SchemaMissing),
                Some(comment_at) => match normal_link(block.link_map, "cc_cc_inverse"@) {
                    None => Err(MdfError::SchemaMissing),
                    Some(inverse) => match first_or::<u8>(block.data, "cc_type"@) {
                        Err(e) => Err(e),
                        Ok(t) => match u64s_field(block.data, "cc_val"@) {
                            Err(e) => Err(e),
                            Ok(vals) => match first_or::<u16>(block.data, "cc_val_count"@) {
                                Err(e) => Err(e),
                                Ok(val_count) => match first_or::<u16>(
                                    block.data,
                                    "cc_ref_count"@,
                                ) {
                                    Err(e) => Err(e),
                                    Ok(ref_count) => {
                                        let refs = match variable_link(
                                            block.link_map,
                                            "cc_ref"@,
                                        ) {
                                            Some(r) => r,
                                            None => Seq::empty(),
                                        };
                                        match kind_of(
                                            map,
                                            file,
                                            t,
                                            vals,
                                            val_count,
                                            refs,
                                            ref_count,
                                            depth,
                                        ) {
                                            Err(e) => Err(e),
                                            Ok(None) => Ok(default_conversion()),
                                            Ok(Some(kind)) => Ok(
                                                ConversionModel {
                                                    name: spec_text_or_empty(map, file, name_at),
                                                    unit: spec_text_or_empty(map, file, unit_at),
                                                    comment: spec_text_or_empty(
                                                        map,
                                                        file,
                                                        comment_at,
                                                    ),
                                                    inverse_ref: inverse,
                                                    kind,
                                                },
                                            ),
                                        }
                                    },
                                },
                            },
                        },
                    },
                },
            },
        },
    }
}

/// The rule described by the conversion block at `offset`, with rules
/// nested up to `depth` deep; the default rule where the link is nil.
pub open spec fn spec_conversion(map: &DescMap, file: Seq<u8>, offset: u64, depth: nat) -> Result<
    ConversionModel,
    MdfError,
>
    decreases depth, 4nat, 0nat,
{
    if offset == 0 {
        Ok(default_conversion())
    } else {
        match map.spec_get("CC"@) {
            None => Err(MdfError::SchemaMissing),
            Some(desc) => match desc.spec_parse(file, offset) {
                Err(e) => Err(e),
                Ok(block) => conversion_of(map, file, block, depth),
            },
        }
    }
}

fn u64s_of<'a>(info: &'a BlockInfo, name: &str) -> (r: Result<&'a Vec<u64>, MdfError>)
    ensures
        match r {
            Ok(v) => u64s_field(info@.data, name@) == Ok::<Seq<u64>, MdfError>(v@),
            Err(e) => u64s_field(info@.data, name@) == Err::<Seq<u64>, MdfError>(e),
        },
{
    match info.get_data_value(name) {
        None => Err(MdfError::SchemaMissing),
        Some(DataValue::UINT64(v)) => Ok(v),
        Some(_) => Err(MdfError::UnsupportedDataType),
    }
}

fn take_every_other(v: &Vec<u64>, n: usize, odd: bool) -> (r: Vec<u64>)
    requires
        2 * n <= v@.len(),
    ensures
        r@ == if odd {
            odd_numbers(v@, n as int)
        } else {
            even_numbers(v@, n as int)
        },
{
    let len: usize = v.len();
    let shift: usize = if odd {
        1
    } else {
        0
    };
    let mut r: Vec<u64> = Vec::new();
    let mut i: usize = 0;
    while i < n
        invariant
            i <= n,
            2 * n <= len,
            len == v@.len(),
            shift == (if odd {
                1int
            } else {
                0int
            }),
            r@.len() == i,
            forall|j: int| 0 <= j < i ==> r@[j] == v@[2 * j + shift],
        decreases n - i,
    {
        r.push(v[2 * i + shift]);
        i += 1;
    }
    if odd {
        assert(r@ =~= odd_numbers(v@, n as int));
    } else {
        assert(r@ =~= even_numbers(v@, n as int));
    }
    r
}

fn take_first(v: &Vec<u64>, n: usize) -> (r: Vec<u64>)
    requires
        n <= v@.len(),
    ensures
        r@ == v@.subrange(0, n as int),
{
    let mut r: Vec<u64> = Vec::new();
    let mut i: usize = 0;
    while i < n
        invariant
            i <= n,
            n <= v@.len(),
            r@ == v@.subrange(0, i as int),
        decreases n - i,
    {
        r.push(v[i]);
        assert(r@ =~= v@.subrange(0, i + 1));
        i += 1;
    }
    r
}

impl Conversion {
    /// Reads the conversion block at `offset`. A nil link gives the default
    /// rule, which leaves every value as it is.
    pub fn new(map: &DescMap, file: &[u8], offset: u64) -> (r: Result<Self, MdfError>)
        ensures
            match r {
                Ok(c) => spec_conversion(map, file@, offset, nesting_limit()) == Ok::<
                    ConversionModel,
                    MdfError,
                >(c@),
                Err(e) => spec_conversion(map, file@, offset, nesting_limit()) == Err::<
                    ConversionModel,
                    MdfError,
                >(e),
            },
    {
        Self::new_nested(map, file, offset, 32)
    }

    fn new_nested(map: &DescMap, file: &[u8], offset: u64, depth: usize) -> (r: Result<
        Self,
        MdfError,
    >)
        ensures
            match r {
                Ok(c) => spec_conversion(map, file@, offset, depth as nat) == Ok::<
                    ConversionModel,
                    MdfError,
                >(c@),
                Err(e) => spec_conversion(map, file@, offset, depth as nat) == Err::<
                    ConversionModel,
                    MdfError,
                >(e),
            },
        decreases depth, 4nat,
    {
        if offset == 0 {
            return Ok(Conversion::default());
        }
        let desc: &BlockDesc = match map.get("CC") {
            Some(d) => d,
            None => {
                return Err(MdfError::SchemaMissing);
            },
        };
        let info: BlockInfo = match desc.try_parse_buf(file, offset) {
            Ok(info) => info,
            Err(e) => {
                return Err(e);
            },
        };
        let name_at: u64 = match info.get_link_offset_normal("cc_tx_name") {
            Some(x) => x,
            None => {
                return Err(MdfError::SchemaMissing);
            },
        };
        let unit_at: u64 = match info.get_link_offset_normal("cc_md_unit") {
            Some(x) => x,
            None => {
                return Err(MdfError::SchemaMissing);
            },
        };
        let comment_at: u64 = match info.get_link_offset_normal("cc_md_comment") {
            Some(x) => x,
            None => {
                return Err(MdfError::SchemaMissing);
            },
        };
        let inverse_ref: u64 = match info.get_link_offset_normal("cc_cc_inverse") {
            Some(x) => x,
            None => {
                return Err(MdfError::SchemaMissing);
            },
        };
        let cc_type_raw: u8 = match info.first_or_error::<u8>("cc_type") {
            Ok(x) => x,
            Err(e) => {
                return Err(e);
            },
        };
        let cc_val: &Vec<u64> = match u64s_of(&info, "cc_val") {
            Ok(x) => x,
            Err(e) => {
                return Err(e);
            },
        };
        let cc_val_count: u16 = match info.first_or_error::<u16>("cc_val_count") {
            Ok(x) => x,
            Err(e) => {
                return Err(e);
            },
        };
        let cc_ref_count: u16 = match info.first_or_error::<u16>("cc_ref_count") {
            Ok(x) => x,
            Err(e) => {
                return Err(e);
            },
        };
        let cc_ref: Vec<u64> = match info.get_link_offset_vec("cc_ref") {
            Some(v) => v,
            None => Vec::new(),
        };
        let cc_type: CcType = match Self::read_kind(
            map,
            file,
            cc_type_raw,
            cc_val,
            cc_val_count,
            cc_ref,
            cc_ref_count,
            depth,
        ) {
            Err(e) => {
                return Err(e);
            },
            Ok(None) => {
                return Ok(Conversion::default());
            },
            Ok(Some(kind)) => kind,
        };
        let name: String = text_or_empty(map, file, name_at);
        let unit: String = text_or_empty(map, file, unit_at);
        let comment: String = text_or_empty(map, file, comment_at);
        Ok(Conversion { name, unit, comment, inverse_ref, cc_type })
    }

    fn read_kind(
        map: &DescMap,
        file: &[u8],
        t: u8,
        vals: &Vec<u64>,
        val_count: u16,
        refs: Vec<u64>,
        ref_count: u16,
        depth: usize,
    ) -> (r: Result<Option<CcType>, MdfError>)
        ensures
            match r {
                Ok(Some(kind)) => kind_of(
                    map,
                    file@,
                    t,
                    vals@,
                    val_count,
                    refs@,
                    ref_count,
                    depth as nat,
                ) == Ok::<Option<CcModel>, MdfError>(Some(kind@)),
                Ok(None) => kind_of(map, file@, t, vals@, val_count, refs@, ref_count, depth as nat)
                    == Ok::<Option<CcModel>, MdfError>(None),
                Err(e) => kind_of(map, file@, t, vals@, val_count, refs@, ref_count, depth as nat)
                    == Err::<Option<CcModel>, MdfError>(e),
            },
        decreases depth, 2nat,
    {
        let n_vals: usize = vals.len();
        let n_refs: usize = refs.len();
        if t == 0 {
            Ok(Some(CcType::OneToOne))
        } else if t == 1 && n_vals == 2 {
            Ok(Some(CcType::Linear((vals[0], vals[1]))))
        } else if t == 2 && n_vals == 6 {
            let a: [u64; 6] = [vals[0], vals[1], vals[2], vals[3], vals[4], vals[5]];
            assert(a@ =~= vals@);
            Ok(Some(CcType::Rational(a)))
        } else if t == 3 && ref_count == 1 && n_refs == 1 {
            match get_clean_text(map, file, refs[0]) {
                Err(e) => Err(e),
                Ok(text) => Ok(Some(CcType::Algebraic(text))),
            }
        } else if (t == 4 || t == 5) && n_vals == val_count as usize && n_vals % 2 == 0 {
            let half: usize = (val_count / 2) as usize;
            let keys: Vec<u64> = take_every_other(vals, half, false);
            let values: Vec<u64> = take_every_other(vals, half, true);
            if t == 4 {
                Ok(Some(CcType::TableInt((keys, values))))
            } else {
                Ok(Some(CcType::Table((keys, values))))
            }
        } else if t == 6 && n_vals == val_count as usize {
            Ok(Some(CcType::ValueRange(copy_u64s(vals))))
        } else if t == 7 && n_vals == val_count as usize && n_refs == ref_count as usize
            && ref_count as u32 == val_count as u32 + 1 {
            match Self::read_refs(map, file, &refs, depth) {
                None => Ok(None),
                Some(r) => {
                    proof {
                        lemma_ref_models(r@);
                        assert(ref_models(r@) =~= refs_upto(
                            map,
                            file@,
                            refs@,
                            depth as nat,
                            refs@.len(),
                        )->0);
                    }
                    Ok(Some(CcType::Value2Text((copy_u64s(vals), r))))
                },
            }
        } else if t == 8 && n_vals == val_count as usize && n_refs == (val_count / 2) as usize + 1 {
            match Self::read_refs(map, file, &refs, depth) {
                None => Ok(None),
                Some(r) => {
                    proof {
                        lemma_ref_models(r@);
                        assert(ref_models(r@) =~= refs_upto(
                            map,
                            file@,
                            refs@,
                            depth as nat,
                            refs@.len(),
                        )->0);
                    }
                    let bounds: Vec<u64> = take_first(vals, 2 * ((val_count / 2) as usize));
                    Ok(Some(CcType::ValueRange2Text((bounds, r))))
                },
            }
        } else if t == 9 && n_vals == ref_count as usize + 1 && n_refs == ref_count as usize {
            Ok(Some(CcType::Text2Value((refs, copy_u64s(vals)))))
        } else if t == 10 && n_refs == ref_count as usize {
            Ok(Some(CcType::Text2Text(refs)))
        } else if t == 11 && ref_count == val_count && n_vals == val_count as usize && n_refs
            == ref_count as usize {
            Ok(Some(CcType::BitfieldText((copy_u64s(vals), refs))))
        } else {
            Ok(Some(CcType::NotImplemented))
        }
    }

    fn read_refs(map: &DescMap, file: &[u8], links: &Vec<u64>, depth: usize) -> (r: Option<
        Vec<TextOrScale>,
    >)
        ensures
            match r {
                Some(v) => {
                    &&& refs_upto(map, file@, links@, depth as nat, links@.len()) is Some
                    &&& v@.len() == links@.len()
                    &&& forall|i: int|
                        0 <= i < v@.len() ==> ref_model(#[trigger] v@[i]) == refs_upto(
                            map,
                            file@,
                            links@,
                            depth as nat,
                            links@.len(),
                        )->0[i]
                    &&& refs_upto(map, file@, links@, depth as nat, links@.len())->0.len()
                        == links@.len()
                },
                None => refs_upto(map, file@, links@, depth as nat, links@.len()) is None,
            },
        decreases depth, 1nat,
    {
        let mut out: Vec<TextOrScale> = Vec::new();
        let mut i: usize = 0;
        while i < links.len()
            invariant
                i <= links@.len(),
                out@.len() == i,
                refs_upto(map, file@, links@, depth as nat, i as nat) is Some,
                refs_upto(map, file@, links@, depth as nat, i as nat)->0.len() == i,
                forall|j: int|
                    0 <= j < i ==> ref_model(#[trigger] out@[j]) == refs_upto(
                        map,
                        file@,
                        links@,
                        depth as nat,
                        i as nat,
                    )->0[j],
            decreases links@.len() - i,
        {
            match Self::read_ref(map, file, links[i], depth) {
                Some(r) => {
                    out.push(r);
                },
                None => {
                    proof {
                        lemma_refs_upto_none(map, file@, links@, depth as nat, (i + 1) as nat, links@.len());
                    }
                    return None;
                },
            }
            i += 1;
        }
        Some(out)
    }

    fn read_ref(map: &DescMap, file: &[u8], link: u64, depth: usize) -> (r: Option<TextOrScale>)
        ensures
            match r {
                Some(x) => ref_at(map, file@, link, depth as nat) == Some(ref_model(x)),
                None => ref_at(map, file@, link, depth as nat) is None,
            },
        decreases depth, 0nat,
    {
        let kind: String = match peek_block_type(file, link) {
            Ok(k) => k,
            Err(_) => "TX".to_owned(),
        };
        if str_eq(kind.as_str(), "TX") {
            Some(TextOrScale::Text(text_or_empty(map, file, link)))
        } else if str_eq(kind.as_str(), "CC") {
            if depth == 0 {
                Some(TextOrScale::Scale(Conversion::default()))
            } else {
                match Self::new_nested(map, file, link, depth - 1) {
                    Ok(c) => Some(TextOrScale::Scale(c)),
                    Err(_) => Some(TextOrScale::Scale(Conversion::default())),
                }
            }
        } else {
            None
        }
    }
}

/// Once a link refers to nothing, none of the later ones changes that.
proof fn lemma_refs_upto_none(map: &DescMap, file: Seq<u8>, links: Seq<u64>, depth: nat, k: nat, n: nat)
    requires
        k <= n,
        refs_upto(map, file, links, depth, k) is None,
    ensures
        refs_upto(map, file, links, depth, n) is None,
    decreases n - k,
{
    if k < n {
        lemma_refs_upto_none(map, file, links, depth, k, (n - 1) as nat);
    }
}

// ---------------------------------------------------------------------------
// What holds of the rules
// ---------------------------------------------------------------------------

/// Whether the breakpoints are numbers in rising order, equal neighbours
/// allowed.
pub open spec fn rising(xs: Seq<u64>) -> bool {
    forall|i: int, j: int| 0 <= i <= j < xs.len() ==> real_le(#[trigger] xs[i], #[trigger] xs[j])
}

/// Whether the breakpoints are numbers in strictly rising order.
pub open spec fn strictly_rising(xs: Seq<u64>) -> bool {
    &&& forall|i: int| 0 <= i < xs.len() ==> !is_nan(#[trigger] xs[i])
    &&& forall|i: int, j: int|
        0 <= i < j < xs.len() ==> real_lt(#[trigger] xs[i], #[trigger] xs[j])
}

/// Below the first breakpoint a table with interpolation gives its first
/// value.
pub proof fn lemma_table_int_below(xs: Seq<u64>, ys: Seq<u64>, x: u64)
    requires
        xs.len() > 0,
        xs.len() == ys.len(),
        real_lt(x, xs[0]),
    ensures
        table_int_step(xs, ys, x) == Interpolation::Value(ys[0]),
        numeric_step(CcModel::TableInt(xs, ys), x) == Ok::<NumericStepModel, MdfError>(
            NumericStepModel::Value(ys[0]),
        ),
{
}

/// Above the last breakpoint a table with interpolation gives its last
/// value, where its breakpoints rise.
pub proof fn lemma_table_int_above(xs: Seq<u64>, ys: Seq<u64>, x: u64)
    requires
        xs.len() > 0,
        xs.len() == ys.len(),
        rising(xs),
        real_lt(xs[xs.len() - 1], x),
    ensures
        table_int_step(xs, ys, x) == Interpolation::Value(ys[ys.len() - 1]),
        numeric_step(CcModel::TableInt(xs, ys), x) == Ok::<NumericStepModel, MdfError>(
            NumericStepModel::Value(ys[ys.len() - 1]),
        ),
{
    lemma_first_above(xs, x, 0);
    let k = first_above(xs, x);
    if k < xs.len() {
        assert(real_le(xs[k], xs[xs.len() - 1]));
        assert(false);
    }
}

/// Between two breakpoints a table with interpolation hands out the two
/// rows that `x` lies between: the breakpoint of the first is not above
/// `x`, that of the second is.
pub proof fn lemma_table_int_inside(xs: Seq<u64>, ys: Seq<u64>, x: u64)
    requires
        xs.len() > 0,
        xs.len() == ys.len(),
        xs.len() <= usize::MAX,
        0 < first_above(xs, x) < xs.len(),
    ensures
        ({
            let k = first_above(xs, x);
            &&& numeric_step(CcModel::TableInt(xs, ys), x) == Ok::<NumericStepModel, MdfError>(
                NumericStepModel::Interpolate(xs[k - 1], ys[k - 1], xs[k], ys[k]),
            )
            &&& !real_lt(x, xs[k - 1])
            &&& real_lt(x, xs[k])
        }),
{
    lemma_first_above(xs, x, 0);
}

/// A table without interpolation gives, for every `x`, the value in the
/// row before the first breakpoint that lies above `x`, and its first value
/// where already the first breakpoint lies above `x`.
pub proof fn lemma_table_left_constant(xs: Seq<u64>, ys: Seq<u64>, x: u64)
    requires
        xs.len() > 0,
        xs.len() == ys.len(),
    ensures
        ({
            let k = first_above(xs, x);
            &&& 0 <= k <= xs.len()
            &&& k >= 1 ==> table_value(xs, ys, x) == ys[k - 1]
            &&& k == 0 ==> table_value(xs, ys, x) == ys[0]
            &&& forall|j: int| 0 <= j < k ==> !real_lt(x, #[trigger] xs[j])
            &&& k < xs.len() ==> real_lt(x, xs[k])
        }),
{
    lemma_first_above(xs, x, 0);
}

/// At a breakpoint itself a table without interpolation gives the value of
/// that breakpoint's row, where the breakpoints rise strictly: each value
/// holds from its own breakpoint up to the next.
pub proof fn lemma_table_at_breakpoint(xs: Seq<u64>, ys: Seq<u64>, m: int)
    requires
        xs.len() == ys.len(),
        0 <= m < xs.len(),
        strictly_rising(xs),
    ensures
        table_value(xs, ys, xs[m]) == ys[m],
{
    let x = xs[m];
    lemma_first_above(xs, x, 0);
    let k = first_above(xs, x);
    assert(!is_nan(xs[m]));
    if k <= m {
        if k < m {
            assert(real_lt(xs[k], xs[m]));
        }
        assert(false);
    }
    if k > m + 1 {
        assert(real_lt(xs[m], xs[m + 1]));
        assert(!real_lt(x, xs[m + 1]));
        assert(false);
    }
}

/// Where no range of a value-range rule holds `x`, also where `x` lies
/// between two ranges, the rule gives its default, the last number.
pub proof fn lemma_value_range_default(flat: Seq<u64>, x: u64)
    requires
        flat.len() > 0,
        forall|k: int|
            0 <= k < range_count(flat) ==> !real_within(x, #[trigger] flat[3 * k], flat[3 * k + 1]),
    ensures
        value_range_value(flat, x) == flat[flat.len() - 1],
        numeric_step(CcModel::ValueRange(flat), x) == Ok::<NumericStepModel, MdfError>(
            NumericStepModel::Value(flat[flat.len() - 1]),
        ),
{
    lemma_first_range(flat, 3, range_count(flat), x, 0);
}

/// Where a range of a value-range rule holds `x`, the rule gives the value
/// of the first such range.
pub proof fn lemma_value_range_match(flat: Seq<u64>, x: u64, k: int)
    requires
        flat.len() > 0,
        0 <= k < range_count(flat),
        real_within(x, flat[3 * k], flat[3 * k + 1]),
        forall|j: int| 0 <= j < k ==> !real_within(x, #[trigger] flat[3 * j], flat[3 * j + 1]),
    ensures
        value_range_value(flat, x) == flat[3 * k + 2],
{
    lemma_first_range(flat, 3, range_count(flat), x, 0);
    let found = first_range_from(flat, 3, range_count(flat), x, 0);
    if found < k {
        assert(!real_within(x, flat[3 * found], flat[3 * found + 1]));
    }
    if found > k {
        assert(!real_within(x, flat[3 * k], flat[3 * k + 1]));
    }
}

/// Where no key of a value-to-text rule equals `x`, the rule gives what its
/// last reference, the default, makes of `x`.
pub proof fn lemma_value2text_default(c: ConversionModel, x: u64)
    requires
        c.kind is Value2Text,
        c.kind->Value2Text_1.len() > 0,
        forall|k: int|
            0 <= k < c.kind->Value2Text_0.len() ==> !real_eq(x, #[trigger] c.kind->Value2Text_0[k]),
    ensures
        mixed_step(c, x) == ref_step(c.kind->Value2Text_1[c.kind->Value2Text_1.len() - 1], x),
{
    lemma_first_equal(c.kind->Value2Text_0, x, 0);
}

/// A reference to a numeric rule gives a number, never a text.
pub proof fn lemma_numeric_scale_gives_number(inner: ConversionModel, x: u64)
    requires
        inner.kind.is_num(),
    ensures
        ref_step(RefModel::Scale(inner), x) is Ok ==> ref_step(RefModel::Scale(inner), x)->Ok_0
            is Number,
        ref_step(RefModel::Scale(inner), x) is Ok <==> numeric_step(inner.kind, x) is Ok,
{
}

/// Where no key of a value-to-text rule equals `x` and the default is a
/// numeric rule, the result is a number, not a text.
pub proof fn lemma_value2text_default_number(c: ConversionModel, inner: ConversionModel, x: u64)
    requires
        c.kind is Value2Text,
        c.kind->Value2Text_1.len() > 0,
        c.kind->Value2Text_1[c.kind->Value2Text_1.len() - 1] == RefModel::Scale(inner),
        inner.kind.is_num(),
        forall|k: int|
            0 <= k < c.kind->Value2Text_0.len() ==> !real_eq(x, #[trigger] c.kind->Value2Text_0[k]),
    ensures
        mixed_step(c, x) is Ok ==> mixed_step(c, x)->Ok_0 is Number,
{
    lemma_value2text_default(c, x);
    lemma_numeric_scale_gives_number(inner, x);
}

/// A text as the default of a value-to-text rule is what the rule gives
/// where no key equals `x`.
pub proof fn lemma_value2text_default_text(c: ConversionModel, text: Seq<char>, x: u64)
    requires
        c.kind is Value2Text,
        c.kind->Value2Text_1.len() > 0,
        c.kind->Value2Text_1[c.kind->Value2Text_1.len() - 1] == RefModel::Text(text),
        forall|k: int|
            0 <= k < c.kind->Value2Text_0.len() ==> !real_eq(x, #[trigger] c.kind->Value2Text_0[k]),
    ensures
        mixed_step(c, x) == Ok::<MixedStepModel, MdfError>(MixedStepModel::Text(text)),
{
    lemma_value2text_default(c, x);
}

} // verus!
