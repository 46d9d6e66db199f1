//! The formula functions of the spreadsheet and what each computes.
//!
//! Function ids: 0 assignment, 1 sleep-assignment, 2 add, 3 sub, 4 mul,
//! 5 divide, 6 max, 7 min, 8 sum, 9 avg, 10 stdev.
//! Integer overflow in add, sub, mul, sum and in `i32::MIN / -1` wraps, as in a
//! release build of two's complement arithmetic.
use vstd::prelude::*;
use crate::info::{CellInfo, Info, mask_bit0, mask_bit1, lemma_mask_bits};
use crate::sheet::Sheet;

verus! {

/// Whether the id names a range function (`MAX`, `MIN`, `SUM`, `AVG`, `STDEV`).
pub open spec fn is_range_id(f: u8) -> bool {
    6 <= f <= 10
}

/// Returns `true` if the function ID corresponds to a range-based function.
pub fn is_range_function(i: u8) -> (r: bool)
    ensures
        r == is_range_id(i),
{
    6 <= i && i <= 10
}

/// Returns `true` if the function ID corresponds to an arithmetic function.
pub fn is_arithmetic_function(i: u8) -> (r: bool)
    ensures
        r == (2 <= i <= 5),
{
    2 <= i && i <= 5
}

/// Returns `true` if the function ID corresponds to a single-argument function.
pub fn is_single_arg_function(i: u8) -> (r: bool)
    ensures
        r == (i <= 1),
{
    i <= 1
}

/// Whether argument `k` (0 or 1) of the formula names a cell.
pub open spec fn arg_is_cell(info: Info, k: int) -> bool {
    if k == 0 {
        mask_bit0(info.arg_mask)
    } else {
        mask_bit1(info.arg_mask)
    }
}

/// Every argument that the formula reads from the sheet is a cell of a sheet
/// of `len` cells.
pub open spec fn args_in_bounds(info: Info, len: int) -> bool {
    if is_range_id(info.function_id) {
        0 <= info.arg[0] < len && 0 <= info.arg[1] < len
    } else if info.function_id <= 1 {
        arg_is_cell(info, 0) ==> 0 <= info.arg[0] < len
    } else if info.function_id <= 5 {
        &&& arg_is_cell(info, 0) ==> 0 <= info.arg[0] < len
        &&& arg_is_cell(info, 1) ==> 0 <= info.arg[1] < len
    } else {
        true
    }
}

/// The value of argument `k`: the named cell's value, or the literal.
pub open spec fn arg_val(info: Info, data: Seq<CellInfo>, k: int) -> i32 {
    if arg_is_cell(info, k) {
        data[info.arg[k] as int].value
    } else {
        info.arg[k]
    }
}

/// Some argument names a cell that holds an error.
pub open spec fn args_invalid(info: Info, data: Seq<CellInfo>) -> bool {
    (arg_is_cell(info, 0) && data[info.arg[0] as int].info.invalid) || (arg_is_cell(info, 1)
        && data[info.arg[1] as int].info.invalid)
}

/// The cell with a new value and error flag, everything else kept.
pub open spec fn with_result(c: CellInfo, value: i32, invalid: bool) -> CellInfo {
    CellInfo { value, info: Info { invalid, ..c.info }, ..c }
}

pub open spec fn min_int(a: int, b: int) -> int {
    if a <= b {
        a
    } else {
        b
    }
}

pub open spec fn max_int(a: int, b: int) -> int {
    if a >= b {
        a
    } else {
        b
    }
}

/// The cells from row `i`, column `j` to the end of the rectangle
/// `rows ..= xmax`, `columns ymin ..= ymax`, row by row.
pub open spec fn rect_rest(i: int, j: int, xmax: int, ymin: int, ymax: int, m: int) -> Seq<int>
    decreases xmax - i + 1, ymax - j + 1,
{
    if i > xmax {
        Seq::empty()
    } else if j > ymax {
        rect_rest(i + 1, ymin, xmax, ymin, ymax, m)
    } else {
        seq![i * m + j] + rect_rest(i, j + 1, xmax, ymin, ymax, m)
    }
}

/// Top row, bottom row, left column and right column of the range between
/// the formula's two corner cells (in either order).
pub open spec fn range_bounds(info: Info, m: int) -> (int, int, int, int) {
    let a0 = info.arg[0] as int;
    let a1 = info.arg[1] as int;
    (
        min_int(a0 / m, a1 / m),
        max_int(a0 / m, a1 / m),
        min_int(a0 % m, a1 % m),
        max_int(a0 % m, a1 % m),
    )
}

/// The cells of the formula's range, row by row.
pub open spec fn range_cells(info: Info, m: int) -> Seq<int> {
    let (xmin, xmax, ymin, ymax) = range_bounds(info, m);
    rect_rest(xmin, ymin, xmax, ymin, ymax, m)
}

/// Scans the cells in order: the values met before the first cell holding an
/// error, and whether such a cell was met.
pub open spec fn scan_values(data: Seq<CellInfo>, s: Seq<int>) -> (Seq<i32>, bool)
    decreases s.len(),
{
    if s.len() == 0 {
        (Seq::empty(), false)
    } else if data[s[0]].info.invalid {
        (Seq::empty(), true)
    } else {
        let rest = scan_values(data, s.drop_first());
        (seq![data[s[0]].value] + rest.0, rest.1)
    }
}

/// The values met in the formula's range, and whether an error was met.
pub open spec fn range_scan(info: Info, data: Seq<CellInfo>, m: int) -> (Seq<i32>, bool) {
    scan_values(data, range_cells(info, m))
}

/// The largest of `vals`, or `i32::MIN` for none.
pub open spec fn max_of(vals: Seq<i32>) -> i32
    decreases vals.len(),
{
    if vals.len() == 0 {
        i32::MIN
    } else {
        max_int(max_of(vals.drop_last()) as int, vals.last() as int) as i32
    }
}

/// The smallest of `vals`, or `i32::MAX` for none.
pub open spec fn min_of(vals: Seq<i32>) -> i32
    decreases vals.len(),
{
    if vals.len() == 0 {
        i32::MAX
    } else {
        min_int(min_of(vals.drop_last()) as int, vals.last() as int) as i32
    }
}

/// The sum of `vals`, wrapping around in 32 bits.
pub open spec fn wrapped_sum_of(vals: Seq<i32>) -> i32
    decreases vals.len(),
{
    if vals.len() == 0 {
        0
    } else {
        vstd::wrapping::i32_specs::wrapping_add(wrapped_sum_of(vals.drop_last()), vals.last())
    }
}

/// The exact sum of `vals`.
pub open spec fn sum_of(vals: Seq<i32>) -> int
    decreases vals.len(),
{
    if vals.len() == 0 {
        0
    } else {
        sum_of(vals.drop_last()) + vals.last()
    }
}

/// `a / b` rounded toward zero, as Rust's integer division gives it.
pub open spec fn trunc_div(a: int, b: int) -> int {
    if a >= 0 {
        a / b
    } else {
        -((-a) / b)
    }
}

/// The average of `vals` (nonempty), rounded toward zero.
pub open spec fn avg_of(vals: Seq<i32>) -> int {
    trunc_div(sum_of(vals), vals.len() as int)
}

/// The sum of the squared distances of `vals` from `mean`.
pub open spec fn sq_dev_of(vals: Seq<i32>, mean: int) -> int
    decreases vals.len(),
{
    if vals.len() == 0 {
        0
    } else {
        sq_dev_of(vals.drop_last(), mean) + (vals.last() - mean) * (vals.last() - mean)
    }
}

/// `r` is the integer nearest to the square root of `num / den`, halves
/// rounded up: `(r - 1/2)^2 <= num / den < (r + 1/2)^2`.
pub open spec fn is_rounded_sqrt(r: int, num: int, den: int) -> bool {
    &&& r >= 0
    &&& (r == 0 || (2 * r - 1) * (2 * r - 1) * den <= 4 * num)
    &&& 4 * num < (2 * r + 1) * (2 * r + 1) * den
}

/// The integer nearest to `sqrt(num / den)`, halves rounded up.
pub open spec fn rounded_sqrt(num: int, den: int) -> int {
    choose|r: int| is_rounded_sqrt(r, num, den)
}

/// The standard deviation of `vals` (nonempty) as `STDEV` computes it:
/// the mean is rounded toward zero, the square root of the mean squared
/// distance from it is rounded to the nearest integer, and the result is
/// capped at `i32::MAX`.
pub open spec fn stdev_of(vals: Seq<i32>) -> i32 {
    let r = rounded_sqrt(sq_dev_of(vals, avg_of(vals)), vals.len() as int);
    if r > i32::MAX {
        i32::MAX
    } else {
        r as i32
    }
}


/// The wrapped quotient `v1 / v2` (`v2 != 0`): rounded toward zero, with
/// `i32::MIN / -1` wrapping to `i32::MIN`.
pub open spec fn wrapped_div(v1: i32, v2: i32) -> i32 {
    if v1 == i32::MIN && v2 == -1 {
        i32::MIN
    } else {
        trunc_div(v1 as int, v2 as int) as i32
    }
}

/// What the arithmetic function `f` (2 to 5) gives for two valid operands.
pub open spec fn binary_op(f: u8, v1: i32, v2: i32) -> i32 {
    if f == 2 {
        vstd::wrapping::i32_specs::wrapping_add(v1, v2)
    } else if f == 3 {
        vstd::wrapping::i32_specs::wrapping_sub(v1, v2)
    } else if f == 4 {
        vstd::wrapping::i32_specs::wrapping_mul(v1, v2)
    } else {
        wrapped_div(v1, v2)
    }
}

/// The cell after an assignment: a copy of the named cell's value and error
/// flag, or the literal with no error.
pub open spec fn assign_result(c: CellInfo, data: Seq<CellInfo>) -> CellInfo {
    if arg_is_cell(c.info, 0) {
        let a = data[c.info.arg[0] as int];
        with_result(c, a.value, a.info.invalid)
    } else {
        with_result(c, c.info.arg[0], false)
    }
}

/// The cell after an arithmetic function: an error (value kept) when an operand
/// cell holds one or, for division, when the divisor is 0.
pub open spec fn binary_result(c: CellInfo, data: Seq<CellInfo>) -> CellInfo {
    arith_result(c, data, c.info.function_id)
}

/// The cell after the arithmetic function `f` (2 to 5) is applied to its operands.
pub open spec fn arith_result(c: CellInfo, data: Seq<CellInfo>, f: u8) -> CellInfo {
    let bad = args_invalid(c.info, data) || (f == 5 && arg_val(c.info, data, 1) == 0);
    if bad {
        with_result(c, c.value, true)
    } else {
        with_result(c, binary_op(f, arg_val(c.info, data, 0), arg_val(c.info, data, 1)), false)
    }
}

/// The cell after a range function. `MAX`, `MIN` and `SUM` leave the value
/// accumulated up to the first error in the range; `AVG` and `STDEV` keep the
/// old value on an error.
pub open spec fn range_result(c: CellInfo, data: Seq<CellInfo>, m: int) -> CellInfo {
    let (vals, bad) = range_scan(c.info, data, m);
    let f = c.info.function_id;
    if f == 6 {
        with_result(c, max_of(vals), bad)
    } else if f == 7 {
        with_result(c, min_of(vals), bad)
    } else if f == 8 {
        with_result(c, wrapped_sum_of(vals), bad)
    } else if bad {
        with_result(c, c.value, true)
    } else if f == 9 {
        with_result(c, avg_of(vals) as i32, false)
    } else {
        with_result(c, stdev_of(vals), false)
    }
}

/// The cell after its formula is evaluated against the sheet `data` of `m`
/// columns. A cell in literal mode, or with an unknown function id, is left as is.
pub open spec fn eval_cell(c: CellInfo, data: Seq<CellInfo>, m: int) -> CellInfo {
    let f = c.info.function_id;
    if c.literal_mode {
        c
    } else if f <= 1 {
        assign_result(c, data)
    } else if f <= 5 {
        binary_result(c, data)
    } else if f <= 10 {
        range_result(c, data, m)
    } else {
        c
    }
}

/// Seconds that evaluating the cell asks to sleep: a `SLEEP` formula with a
/// valid, positive result sleeps that many seconds.
pub open spec fn sleep_secs(c: CellInfo, data: Seq<CellInfo>, m: int) -> u64 {
    let r = eval_cell(c, data, m);
    if !c.literal_mode && c.info.function_id == 1 && !r.info.invalid && r.value > 0 {
        r.value as u64
    } else {
        0
    }
}

/// A cell index below `n * m` lies in a row below `n`.
pub proof fn lemma_row_bound(a: int, n: int, m: int)
    requires
        0 <= a < n * m,
        m > 0,
    ensures
        a / m < n,
        a % m < m,
        0 <= a / m,
        0 <= a % m,
{
    vstd::arithmetic::div_mod::lemma_fundamental_div_mod(a, m);
    vstd::arithmetic::div_mod::lemma_mod_pos_bound(a, m);
    assert(0 <= a / m) by {
        vstd::arithmetic::div_mod::lemma_div_pos_is_pos(a, m);
    }
    let q = a / m;
    let r = a % m;
    assert(q < n) by (nonlinear_arith)
        requires
            a == m * q + r,
            0 <= r,
            a < n * m,
            m > 0,
    ;
}

/// Row `i < n`, column `j < m` lies in a sheet of `n * m` cells.
pub proof fn lemma_cell_bound(i: int, j: int, n: int, m: int)
    requires
        0 <= i < n,
        0 <= j < m,
    ensures
        0 <= i * m + j < n * m,
{
    assert(0 <= i * m + j < n * m) by (nonlinear_arith)
        requires
            0 <= i < n,
            0 <= j < m,
    ;
}

/// A sheet with a cell has at least one column.
pub proof fn lemma_columns_positive(a: int, n: int, m: int)
    requires
        0 <= a < n * m,
        0 <= n,
        0 <= m,
    ensures
        m > 0,
{
    if m == 0 {
        assert(n * m == 0) by (nonlinear_arith)
            requires
                m == 0,
        ;
    }
}

/// One step of a scan: the first cell either stops it or contributes its value.
pub proof fn lemma_scan_step(data: Seq<CellInfo>, c: int, r: Seq<int>)
    ensures
        scan_values(data, seq![c] + r) == (if data[c].info.invalid {
            (Seq::<i32>::empty(), true)
        } else {
            (seq![data[c].value] + scan_values(data, r).0, scan_values(data, r).1)
        }),
{
    assert((seq![c] + r).drop_first() =~= r);
    assert((seq![c] + r)[0] == c);
}

/// Retrieves argument values and whether an operand cell holds an error.
fn get_args(info: &Info, sheet: &Sheet) -> (r: (i32, i32, bool))
    requires
        arg_is_cell(*info, 0) ==> 0 <= info.arg[0] < sheet.data@.len(),
        arg_is_cell(*info, 1) ==> 0 <= info.arg[1] < sheet.data@.len(),
    ensures
        r == (arg_val(*info, sheet.data@, 0), arg_val(*info, sheet.data@, 1), args_invalid(
            *info,
            sheet.data@,
        )),
{
    proof {
        lemma_mask_bits(info.arg_mask);
    }
    let val1 = if info.arg_mask & 0b1 != 0 {
        sheet.get(info.arg[0] as usize).value
    } else {
        info.arg[0]
    };
    let val2 = if info.arg_mask & 0b10 != 0 {
        sheet.get(info.arg[1] as usize).value
    } else {
        info.arg[1]
    };
    let invalid = (info.arg_mask & 0b1 != 0 && sheet.get(info.arg[0] as usize).info.invalid) || (
    info.arg_mask & 0b10 != 0 && sheet.get(info.arg[1] as usize).info.invalid);
    (val1, val2, invalid)
}

/// The values of the formula's range up to its first cell holding an error,
/// row by row, and whether such a cell was met.
fn range_values(info: &Info, sheet: &Sheet) -> (r: (Vec<i32>, bool))
    requires
        sheet.wf(),
        0 <= info.arg[0] < sheet.data@.len(),
        0 <= info.arg[1] < sheet.data@.len(),
    ensures
        sheet.m > 0,
        (r.0@, r.1) == range_scan(*info, sheet.data@, sheet.m as int),
{
    let ghost data = sheet.data@;
    let ghost n = sheet.n as int;
    let ghost m = sheet.m as int;
    proof {
        lemma_columns_positive(info.arg[0] as int, n, m);
        lemma_row_bound(info.arg[0] as int, n, m);
        lemma_row_bound(info.arg[1] as int, n, m);
    }
    let (x1, y1) = sheet.get_row_and_column(info.arg[0] as usize);
    let (x2, y2) = sheet.get_row_and_column(info.arg[1] as usize);
    let x_min = if x1 <= x2 { x1 } else { x2 };
    let x_max = if x1 >= x2 { x1 } else { x2 };
    let y_min = if y1 <= y2 { y1 } else { y2 };
    let y_max = if y1 >= y2 { y1 } else { y2 };
    let total = sheet.data.len();
    let ghost full = range_cells(*info, m);
    let mut vals: Vec<i32> = Vec::new();
    let mut i = x_min;
    while i <= x_max
        invariant
            sheet.wf(),
            data == sheet.data@,
            total == n * m,
            full == range_cells(*info, m),
            n == sheet.n,
            m == sheet.m,
            m > 0,
            x_min <= i <= x_max + 1,
            x_max < n,
            y_min <= y_max < m,
            full == rect_rest(x_min as int, y_min as int, x_max as int, y_min as int, y_max as int, m),
            ({
                let sr = scan_values(data, rect_rest(i as int, y_min as int, x_max as int, y_min as int, y_max as int, m));
                scan_values(data, full) == (vals@ + sr.0, sr.1)
            }),
        decreases x_max + 1 - i,
    {
        let mut j = y_min;
        while j <= y_max
            invariant
                sheet.wf(),
                data == sheet.data@,
                total == n * m,
                full == range_cells(*info, m),
                n == sheet.n,
                m == sheet.m,
                m > 0,
                x_min <= i <= x_max,
                x_max < n,
                y_min <= j <= y_max + 1,
                y_max < m,
                ({
                    let sr = scan_values(data, rect_rest(i as int, j as int, x_max as int, y_min as int, y_max as int, m));
                    scan_values(data, full) == (vals@ + sr.0, sr.1)
                }),
            decreases y_max + 1 - j,
        {
            proof {
                lemma_cell_bound(i as int, j as int, n, m);
            }
            let cell = sheet.get_cell(i, j);
            let cell_data = sheet.get(cell);
            let ghost rest = rect_rest(i as int, j as int + 1, x_max as int, y_min as int, y_max as int, m);
            proof {
                assert(rect_rest(i as int, j as int, x_max as int, y_min as int, y_max as int, m)
                    == seq![cell as int] + rest);
                lemma_scan_step(data, cell as int, rest);
            }
            if cell_data.info.invalid {
                proof {
                    assert(vals@ + Seq::<i32>::empty() =~= vals@);
                }
                return (vals, true);
            }
            proof {
                assert(vals@.push(cell_data.value) + scan_values(data, rest).0 =~= vals@ + (seq![
                    cell_data.value,
                ] + scan_values(data, rest).0));
            }
            vals.push(cell_data.value);
            j = j + 1;
        }
        i = i + 1;
    }
    proof {
        assert(vals@ + Seq::<i32>::empty() =~= vals@);
    }
    (vals, false)
}


/// Taking one more element of a sequence appends that element.
pub proof fn lemma_take_last<A>(s: Seq<A>, k: int)
    requires
        0 <= k < s.len(),
    ensures
        s.take(k + 1).drop_last() == s.take(k),
        s.take(k + 1).last() == s[k],
{
    assert(s.take(k + 1).drop_last() =~= s.take(k));
}

/// A scan that meets no error returns a value for every cell.
pub proof fn lemma_scan_len(data: Seq<CellInfo>, s: Seq<int>)
    ensures
        scan_values(data, s).0.len() <= s.len(),
        !scan_values(data, s).1 ==> scan_values(data, s).0.len() == s.len(),
    decreases s.len(),
{
    if s.len() > 0 {
        lemma_scan_len(data, s.drop_first());
    }
}

/// The range of a formula holds at least one cell.
pub proof fn lemma_range_nonempty(info: Info, m: int)
    requires
        m > 0,
        info.arg[0] >= 0,
        info.arg[1] >= 0,
    ensures
        range_cells(info, m).len() > 0,
{
    let (xmin, xmax, ymin, ymax) = range_bounds(info, m);
    assert(xmin <= xmax && ymin <= ymax);
    assert(rect_rest(xmin, ymin, xmax, ymin, ymax, m) == seq![xmin * m + ymin] + rect_rest(
        xmin,
        ymin + 1,
        xmax,
        ymin,
        ymax,
        m,
    ));
}

/// `0 <= x <= k * c` gives `x / k <= c`.
pub proof fn lemma_div_upper(x: int, k: int, c: int)
    requires
        k > 0,
        0 <= x <= k * c,
    ensures
        0 <= x / k <= c,
{
    vstd::arithmetic::div_mod::lemma_fundamental_div_mod(x, k);
    vstd::arithmetic::div_mod::lemma_mod_pos_bound(x, k);
    vstd::arithmetic::div_mod::lemma_div_pos_is_pos(x, k);
    let q = x / k;
    let r = x % k;
    assert(q <= c) by (nonlinear_arith)
        requires
            x == k * q + r,
            0 <= r,
            x <= k * c,
            k > 0,
    ;
}

/// The truncated average of `k` values of `i32` is an `i32`.
pub proof fn lemma_avg_bounds(s: int, k: int)
    requires
        k > 0,
        k * (i32::MIN as int) <= s <= k * (i32::MAX as int),
    ensures
        i32::MIN <= trunc_div(s, k) <= i32::MAX,
{
    if s >= 0 {
        lemma_div_upper(s, k, i32::MAX as int);
    } else {
        lemma_div_upper(-s, k, -(i32::MIN as int));
    }
}

/// The largest value found so far.
fn running_max(vals: &Vec<i32>) -> (r: i32)
    ensures
        r == max_of(vals@),
{
    let mut value = i32::MIN;
    let mut k: usize = 0;
    while k < vals.len()
        invariant
            k <= vals@.len(),
            value == max_of(vals@.take(k as int)),
        decreases vals@.len() - k,
    {
        proof {
            lemma_take_last(vals@, k as int);
        }
        if vals[k] > value {
            value = vals[k];
        }
        k = k + 1;
    }
    assert(vals@.take(vals@.len() as int) =~= vals@);
    value
}

/// The smallest value found so far.
fn running_min(vals: &Vec<i32>) -> (r: i32)
    ensures
        r == min_of(vals@),
{
    let mut value = i32::MAX;
    let mut k: usize = 0;
    while k < vals.len()
        invariant
            k <= vals@.len(),
            value == min_of(vals@.take(k as int)),
        decreases vals@.len() - k,
    {
        proof {
            lemma_take_last(vals@, k as int);
        }
        if vals[k] < value {
            value = vals[k];
        }
        k = k + 1;
    }
    assert(vals@.take(vals@.len() as int) =~= vals@);
    value
}

/// The wrapped sum of the values.
fn running_wrapped_sum(vals: &Vec<i32>) -> (r: i32)
    ensures
        r == wrapped_sum_of(vals@),
{
    let mut value: i32 = 0;
    let mut k: usize = 0;
    while k < vals.len()
        invariant
            k <= vals@.len(),
            value == wrapped_sum_of(vals@.take(k as int)),
        decreases vals@.len() - k,
    {
        proof {
            lemma_take_last(vals@, k as int);
        }
        value = value.wrapping_add(vals[k]);
        k = k + 1;
    }
    assert(vals@.take(vals@.len() as int) =~= vals@);
    value
}

/// The exact sum of the values, which lies between `len * i32::MIN` and `len * i32::MAX`.
fn exact_sum(vals: &Vec<i32>) -> (r: i128)
    ensures
        r == sum_of(vals@),
        vals@.len() * (i32::MIN as int) <= r <= vals@.len() * (i32::MAX as int),
{
    let mut total: i128 = 0;
    let mut k: usize = 0;
    while k < vals.len()
        invariant
            k <= vals@.len(),
            total == sum_of(vals@.take(k as int)),
            k * (i32::MIN as int) <= total <= k * (i32::MAX as int),
        decreases vals@.len() - k,
    {
        proof {
            lemma_take_last(vals@, k as int);
        }
        total = total + vals[k] as i128;
        k = k + 1;
    }
    assert(vals@.take(vals@.len() as int) =~= vals@);
    total
}

/// The integer square root: `s * s <= f < (s + 1) * (s + 1)`.
fn isqrt(f: u128) -> (s: u128)
    requires
        f < 0x1_0000_0000_0000_0000_0,
    ensures
        s * s <= f < (s + 1) * (s + 1),
        s < 0x4_0000_0000,
{
    let mut lo: u128 = 0;
    let mut hi: u128 = 0x4_0000_0000;
    assert(hi * hi == 0x10_0000_0000_0000_0000) by (nonlinear_arith)
        requires
            hi == 0x4_0000_0000u128,
    ;
    while hi - lo > 1
        invariant
            lo < hi <= 0x4_0000_0000,
            lo * lo <= f,
            f < hi * hi,
        decreases hi - lo,
    {
        let mid = lo + (hi - lo) / 2;
        assert(mid * mid <= 0x10_0000_0000_0000_0000) by (nonlinear_arith)
            requires
                mid <= 0x4_0000_0000u128,
        ;
        if mid * mid <= f {
            lo = mid;
        } else {
            hi = mid;
        }
    }
    lo
}

/// `(s + 1) / 2` is the rounded square root of `num / den` when `s` is the
/// integer square root of `floor(4 * num / den)`.
pub proof fn lemma_rounded_from_isqrt(num: int, den: int, f: int, s: int)
    requires
        den > 0,
        num >= 0,
        f == (4 * num) / den,
        s >= 0,
        s * s <= f < (s + 1) * (s + 1),
    ensures
        is_rounded_sqrt((s + 1) / 2, num, den),
{
    let r = (s + 1) / 2;
    vstd::arithmetic::div_mod::lemma_fundamental_div_mod(4 * num, den);
    vstd::arithmetic::div_mod::lemma_mod_pos_bound(4 * num, den);
    let rr = (4 * num) % den;
    assert(4 * num == den * f + rr);
    assert(2 * r <= s + 1 && s <= 2 * r);
    if r > 0 {
        assert((2 * r - 1) * (2 * r - 1) <= s * s) by (nonlinear_arith)
            requires
                0 <= 2 * r - 1 <= s,
        ;
        assert((2 * r - 1) * (2 * r - 1) * den <= f * den) by (nonlinear_arith)
            requires
                (2 * r - 1) * (2 * r - 1) <= f,
                den > 0,
        ;
        assert(f * den <= 4 * num) by (nonlinear_arith)
            requires
                4 * num == den * f + rr,
                rr >= 0,
        ;
    }
    assert((s + 1) * (s + 1) <= (2 * r + 1) * (2 * r + 1)) by (nonlinear_arith)
        requires
            0 <= s + 1 <= 2 * r + 1,
    ;
    assert(4 * num < (2 * r + 1) * (2 * r + 1) * den) by (nonlinear_arith)
        requires
            4 * num == den * f + rr,
            rr < den,
            f + 1 <= (2 * r + 1) * (2 * r + 1),
            den > 0,
    ;
}

/// There is only one rounded square root.
pub proof fn lemma_rounded_unique(a: int, b: int, num: int, den: int)
    requires
        den > 0,
        is_rounded_sqrt(a, num, den),
        is_rounded_sqrt(b, num, den),
    ensures
        a == b,
{
    if a < b {
        assert((2 * a + 1) * (2 * a + 1) * den <= (2 * b - 1) * (2 * b - 1) * den) by (nonlinear_arith)
            requires
                0 <= a < b,
                den > 0,
        ;
    } else if b < a {
        assert((2 * b + 1) * (2 * b + 1) * den <= (2 * a - 1) * (2 * a - 1) * den) by (nonlinear_arith)
            requires
                0 <= b < a,
                den > 0,
        ;
    }
}

/// A rounded square root that was found is the one the specification names.
pub proof fn lemma_rounded_is_chosen(r: int, num: int, den: int)
    requires
        den > 0,
        is_rounded_sqrt(r, num, den),
    ensures
        rounded_sqrt(num, den) == r,
{
    let c = rounded_sqrt(num, den);
    assert(is_rounded_sqrt(c, num, den));
    lemma_rounded_unique(c, r, num, den);
}

/// The standard deviation of a nonempty list of values, as `stdev_of` states it.
fn stdev_value(vals: &Vec<i32>) -> (r: i32)
    requires
        vals@.len() > 0,
    ensures
        r == stdev_of(vals@),
{
    let count = vals.len();
    let total = exact_sum(vals);
    proof {
        lemma_avg_bounds(total as int, count as int);
    }
    let mean: i128 = total / (count as i128);
    assert(mean == avg_of(vals@));
    let ghost c: int = 18446744065119617025;
    let mut dev: u128 = 0;
    let mut k: usize = 0;
    while k < vals.len()
        invariant
            k <= vals@.len() == count,
            count <= usize::MAX,
            i32::MIN <= mean <= i32::MAX,
            dev == sq_dev_of(vals@.take(k as int), mean as int),
            dev <= k * c,
            c == 18446744065119617025,
        decreases vals@.len() - k,
    {
        proof {
            lemma_take_last(vals@, k as int);
        }
        let d: i128 = vals[k] as i128 - mean;
        assert(d * d <= c) by (nonlinear_arith)
            requires
                -4294967295 <= d <= 4294967295,
                c == 18446744065119617025,
        ;
        assert(d * d >= 0) by (nonlinear_arith);
        assert(dev + d * d <= (k + 1) * c) by (nonlinear_arith)
            requires
                dev <= k * c,
                d * d <= c,
        ;
        assert((k + 1) * c < 0x1_0000_0000_0000_0000_0000_0000_0000_0000) by (nonlinear_arith)
            requires
                k + 1 <= usize::MAX,
                c == 18446744065119617025,
                usize::MAX <= 0xffff_ffff_ffff_ffff,
        ;
        dev = dev + (d * d) as u128;
        k = k + 1;
    }
    assert(vals@.take(vals@.len() as int) =~= vals@);
    let ghost num = sq_dev_of(vals@, mean as int);
    let cnt = count as u128;
    let q = dev / cnt;
    let rem = dev % cnt;
    proof {
        lemma_div_upper(dev as int, count as int, c);
        vstd::arithmetic::div_mod::lemma_fundamental_div_mod(dev as int, count as int);
        vstd::arithmetic::div_mod::lemma_mod_pos_bound(dev as int, count as int);
    }
    let t = (4 * rem) / cnt;
    let f = 4 * q + t;
    proof {
        vstd::arithmetic::div_mod::lemma_fundamental_div_mod(4 * rem as int, count as int);
        vstd::arithmetic::div_mod::lemma_mod_pos_bound(4 * rem as int, count as int);
        let r2 = (4 * rem as int) % (count as int);
        assert(4 * num == (4 * q + t) * count + r2) by (nonlinear_arith)
            requires
                num == dev,
                dev == count * q + rem,
                4 * rem == count * t + r2,
        ;
        vstd::arithmetic::div_mod::lemma_fundamental_div_mod_converse(
            4 * num,
            count as int,
            (4 * q + t) as int,
            r2,
        );
        lemma_div_upper(4 * rem as int, count as int, 4);
    }
    let s = isqrt(f);
    let r = (s + 1) / 2;
    proof {
        lemma_rounded_from_isqrt(num, count as int, f as int, s as int);
        lemma_rounded_is_chosen(r as int, num, count as int);
    }
    if r > i32::MAX as u128 {
        i32::MAX
    } else {
        r as i32
    }
}

/// Computes the maximum value from a 2D cell range. An error in the range
/// stops the scan: the value is then the maximum of the cells before it.
pub fn max(cell_info: &mut CellInfo, sheet: &Sheet)
    requires
        sheet.wf(),
        0 <= old(cell_info).info.arg[0] < sheet.data@.len(),
        0 <= old(cell_info).info.arg[1] < sheet.data@.len(),
    ensures
        ({
            let (vals, bad) = range_scan(old(cell_info).info, sheet.data@, sheet.m as int);
            *final(cell_info) == with_result(*old(cell_info), max_of(vals), bad)
        }),
{
    let (vals, bad) = range_values(&cell_info.info, sheet);
    cell_info.value = running_max(&vals);
    cell_info.info.invalid = bad;
}

/// Computes the minimum value from a 2D cell range. An error in the range
/// stops the scan: the value is then the minimum of the cells before it.
pub fn min(cell_info: &mut CellInfo, sheet: &Sheet)
    requires
        sheet.wf(),
        0 <= old(cell_info).info.arg[0] < sheet.data@.len(),
        0 <= old(cell_info).info.arg[1] < sheet.data@.len(),
    ensures
        ({
            let (vals, bad) = range_scan(old(cell_info).info, sheet.data@, sheet.m as int);
            *final(cell_info) == with_result(*old(cell_info), min_of(vals), bad)
        }),
{
    let (vals, bad) = range_values(&cell_info.info, sheet);
    cell_info.value = running_min(&vals);
    cell_info.info.invalid = bad;
}

/// Computes the sum of a 2D cell range. An error in the range stops the scan:
/// the value is then the sum of the cells before it.
pub fn sum(cell_info: &mut CellInfo, sheet: &Sheet)
    requires
        sheet.wf(),
        0 <= old(cell_info).info.arg[0] < sheet.data@.len(),
        0 <= old(cell_info).info.arg[1] < sheet.data@.len(),
    ensures
        ({
            let (vals, bad) = range_scan(old(cell_info).info, sheet.data@, sheet.m as int);
            *final(cell_info) == with_result(*old(cell_info), wrapped_sum_of(vals), bad)
        }),
{
    let (vals, bad) = range_values(&cell_info.info, sheet);
    cell_info.value = running_wrapped_sum(&vals);
    cell_info.info.invalid = bad;
}

/// Computes the average of a 2D cell range, rounded toward zero; an error in
/// the range leaves the value unchanged and marks the cell.
pub fn avg(cell_info: &mut CellInfo, sheet: &Sheet)
    requires
        sheet.wf(),
        0 <= old(cell_info).info.arg[0] < sheet.data@.len(),
        0 <= old(cell_info).info.arg[1] < sheet.data@.len(),
    ensures
        ({
            let (vals, bad) = range_scan(old(cell_info).info, sheet.data@, sheet.m as int);
            &&& bad ==> *final(cell_info) == with_result(*old(cell_info), old(cell_info).value, true)
            &&& !bad ==> *final(cell_info) == with_result(*old(cell_info), avg_of(vals) as i32, false)
        }),
{
    let (vals, bad) = range_values(&cell_info.info, sheet);
    if bad {
        cell_info.info.invalid = true;
        return;
    }
    proof {
        lemma_range_nonempty(cell_info.info, sheet.m as int);
        lemma_scan_len(sheet.data@, range_cells(cell_info.info, sheet.m as int));
    }
    let count = vals.len();
    let total = exact_sum(&vals);
    proof {
        lemma_avg_bounds(total as int, count as int);
    }
    cell_info.value = (total / (count as i128)) as i32;
    cell_info.info.invalid = false;
}

/// Computes the standard deviation of a 2D cell range (see `stdev_of`); an
/// error in the range leaves the value unchanged and marks the cell.
pub fn stdev(cell_info: &mut CellInfo, sheet: &Sheet)
    requires
        sheet.wf(),
        0 <= old(cell_info).info.arg[0] < sheet.data@.len(),
        0 <= old(cell_info).info.arg[1] < sheet.data@.len(),
    ensures
        ({
            let (vals, bad) = range_scan(old(cell_info).info, sheet.data@, sheet.m as int);
            &&& bad ==> *final(cell_info) == with_result(*old(cell_info), old(cell_info).value, true)
            &&& !bad ==> *final(cell_info) == with_result(*old(cell_info), stdev_of(vals), false)
        }),
{
    let (vals, bad) = range_values(&cell_info.info, sheet);
    if bad {
        cell_info.info.invalid = true;
        return;
    }
    proof {
        lemma_range_nonempty(cell_info.info, sheet.m as int);
        lemma_scan_len(sheet.data@, range_cells(cell_info.info, sheet.m as int));
    }
    cell_info.value = stdev_value(&vals);
    cell_info.info.invalid = false;
}


/// Assigns a value or a cell's value (and its error flag) into a cell.
pub fn assignment(cell_info: &mut CellInfo, sheet: &Sheet)
    requires
        arg_is_cell(old(cell_info).info, 0) ==> 0 <= old(cell_info).info.arg[0] < sheet.data@.len(),
    ensures
        *final(cell_info) == assign_result(*old(cell_info), sheet.data@),
{
    proof {
        lemma_mask_bits(cell_info.info.arg_mask);
    }
    let is_cell_arg = cell_info.info.arg_mask & 0b1 != 0;
    if is_cell_arg {
        let arg_cell = sheet.get(cell_info.info.arg[0] as usize);
        cell_info.value = arg_cell.value;
        cell_info.info.invalid = arg_cell.info.invalid;
    } else {
        cell_info.value = cell_info.info.arg[0];
        cell_info.info.invalid = false;
    }
}

/// Evaluates a `SLEEP` formula: assigns like `assignment` and returns how many
/// seconds the caller is to sleep (the value, when it is valid and positive).
pub fn sleep_assignment(cell_info: &mut CellInfo, sheet: &Sheet) -> (secs: u64)
    requires
        arg_is_cell(old(cell_info).info, 0) ==> 0 <= old(cell_info).info.arg[0] < sheet.data@.len(),
    ensures
        *final(cell_info) == assign_result(*old(cell_info), sheet.data@),
        secs == (if !final(cell_info).info.invalid && final(cell_info).value > 0 {
            final(cell_info).value as u64
        } else {
            0
        }),
{
    assignment(cell_info, sheet);
    if !cell_info.info.invalid && cell_info.value > 0 {
        cell_info.value as u64
    } else {
        0
    }
}

/// Adds two arguments if both are valid; otherwise marks the cell, keeping its value.
pub fn add(cell_info: &mut CellInfo, sheet: &Sheet)
    requires
        arg_is_cell(old(cell_info).info, 0) ==> 0 <= old(cell_info).info.arg[0] < sheet.data@.len(),
        arg_is_cell(old(cell_info).info, 1) ==> 0 <= old(cell_info).info.arg[1] < sheet.data@.len(),
    ensures
        *final(cell_info) == arith_result(*old(cell_info), sheet.data@, 2),
{
    let (v1, v2, invalid) = get_args(&cell_info.info, sheet);
    cell_info.info.invalid = invalid;
    if !invalid {
        cell_info.value = v1.wrapping_add(v2);
    }
}

/// Subtracts two arguments if both are valid; otherwise marks the cell, keeping its value.
pub fn sub(cell_info: &mut CellInfo, sheet: &Sheet)
    requires
        arg_is_cell(old(cell_info).info, 0) ==> 0 <= old(cell_info).info.arg[0] < sheet.data@.len(),
        arg_is_cell(old(cell_info).info, 1) ==> 0 <= old(cell_info).info.arg[1] < sheet.data@.len(),
    ensures
        *final(cell_info) == arith_result(*old(cell_info), sheet.data@, 3),
{
    let (v1, v2, invalid) = get_args(&cell_info.info, sheet);
    cell_info.info.invalid = invalid;
    if !invalid {
        cell_info.value = v1.wrapping_sub(v2);
    }
}

/// Multiplies two arguments if both are valid; otherwise marks the cell, keeping its value.
pub fn mul(cell_info: &mut CellInfo, sheet: &Sheet)
    requires
        arg_is_cell(old(cell_info).info, 0) ==> 0 <= old(cell_info).info.arg[0] < sheet.data@.len(),
        arg_is_cell(old(cell_info).info, 1) ==> 0 <= old(cell_info).info.arg[1] < sheet.data@.len(),
    ensures
        *final(cell_info) == arith_result(*old(cell_info), sheet.data@, 4),
{
    let (v1, v2, invalid) = get_args(&cell_info.info, sheet);
    cell_info.info.invalid = invalid;
    if !invalid {
        cell_info.value = v1.wrapping_mul(v2);
    }
}

/// Divides two arguments if both are valid and the divisor is non-zero;
/// otherwise marks the cell, keeping its value.
pub fn divide(cell_info: &mut CellInfo, sheet: &Sheet)
    requires
        arg_is_cell(old(cell_info).info, 0) ==> 0 <= old(cell_info).info.arg[0] < sheet.data@.len(),
        arg_is_cell(old(cell_info).info, 1) ==> 0 <= old(cell_info).info.arg[1] < sheet.data@.len(),
    ensures
        *final(cell_info) == arith_result(*old(cell_info), sheet.data@, 5),
{
    let (v1, v2, invalid) = get_args(&cell_info.info, sheet);
    let div_by_zero = v2 == 0;
    cell_info.info.invalid = invalid || div_by_zero;
    if !cell_info.info.invalid {
        cell_info.value = if v1 == i32::MIN && v2 == -1 {
            i32::MIN
        } else {
            v1 / v2
        };
    }
}

/// Evaluates the cell's formula against the sheet, unless the cell is in
/// literal mode or names no known function. Returns the seconds that a
/// `SLEEP` formula asks the caller to sleep.
pub fn apply_function(cell_info: &mut CellInfo, sheet: &Sheet) -> (secs: u64)
    requires
        sheet.wf(),
        !old(cell_info).literal_mode ==> args_in_bounds(old(cell_info).info, sheet.data@.len() as int),
    ensures
        *final(cell_info) == eval_cell(*old(cell_info), sheet.data@, sheet.m as int),
        secs == sleep_secs(*old(cell_info), sheet.data@, sheet.m as int),
{
    if cell_info.literal_mode {
        return 0;
    }
    let func_idx = cell_info.info.function_id;
    match func_idx {
        0 => {
            assignment(cell_info, sheet);
            0
        },
        1 => sleep_assignment(cell_info, sheet),
        2 => {
            self::add(cell_info, sheet);
            0
        },
        3 => {
            self::sub(cell_info, sheet);
            0
        },
        4 => {
            self::mul(cell_info, sheet);
            0
        },
        5 => {
            divide(cell_info, sheet);
            0
        },
        6 => {
            max(cell_info, sheet);
            0
        },
        7 => {
            min(cell_info, sheet);
            0
        },
        8 => {
            sum(cell_info, sheet);
            0
        },
        9 => {
            avg(cell_info, sheet);
            0
        },
        10 => {
            stdev(cell_info, sheet);
            0
        },
        _ => 0,
    }
}

} // verus!
