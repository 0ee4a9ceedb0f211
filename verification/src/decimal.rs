//! Price texts as the exchanges send them ("100.25", "1e-3", "inf", ...), read as
//! exact decimal numbers and ordered by value.
//!
//! The accepted texts are those of the floating-point grammar of Rust's standard
//! library (`Sign? ( 'inf' | 'infinity' | 'nan' | Number )`, case-insensitive,
//! `Number ::= (Digit+ | Digit+ '.' Digit* | Digit* '.' Digit+) Exp?`,
//! `Exp ::= 'e' Sign? Digit+`).
use vstd::prelude::*;

verus! {

/// Exponents are read with saturation at this magnitude.
pub const EXP_CAP: u64 = 100_000_000_000_000_000;

pub open spec fn is_digit(c: char) -> bool {
    '0' <= c && c <= '9'
}

pub open spec fn digit_val(c: char) -> nat {
    (c as u32 - '0' as u32) as nat
}

/// Number of consecutive ASCII digits in `t` from position `i` on.
pub open spec fn digit_run(t: Seq<char>, i: int) -> nat
    decreases t.len() - i,
{
    if 0 <= i < t.len() && is_digit(t[i]) {
        1 + digit_run(t, i + 1)
    } else {
        0
    }
}

/// The value of a sequence of decimal digits.
pub open spec fn digits_value(d: Seq<char>) -> nat
    decreases d.len(),
{
    if d.len() == 0 {
        0
    } else {
        digits_value(d.drop_last()) * 10 + digit_val(d.last())
    }
}

pub open spec fn ci(c: char, lo: char, up: char) -> bool {
    c == lo || c == up
}

pub open spec fn is_nan_word(b: Seq<char>) -> bool {
    b.len() == 3 && ci(b[0], 'n', 'N') && ci(b[1], 'a', 'A') && ci(b[2], 'n', 'N')
}

pub open spec fn is_inf_word(b: Seq<char>) -> bool {
    &&& b.len() == 3 || b.len() == 8
    &&& ci(b[0], 'i', 'I') && ci(b[1], 'n', 'N') && ci(b[2], 'f', 'F')
    &&& b.len() == 8 ==> ci(b[3], 'i', 'I') && ci(b[4], 'n', 'N') && ci(b[5], 'i', 'I') && ci(
        b[6],
        't',
        'T',
    ) && ci(b[7], 'y', 'Y')
}

pub open spec fn sign_len(s: Seq<char>) -> int {
    if s.len() > 0 && (s[0] == '+' || s[0] == '-') {
        1
    } else {
        0
    }
}

pub open spec fn is_neg(s: Seq<char>) -> bool {
    s.len() > 0 && s[0] == '-'
}

/// The text after its sign.
pub open spec fn body(s: Seq<char>) -> Seq<char> {
    s.skip(sign_len(s))
}

pub open spec fn int_len(b: Seq<char>) -> int {
    digit_run(b, 0) as int
}

pub open spec fn has_point(b: Seq<char>) -> bool {
    int_len(b) < b.len() && b[int_len(b)] == '.'
}

pub open spec fn frac_len(b: Seq<char>) -> int {
    if has_point(b) {
        digit_run(b, int_len(b) + 1) as int
    } else {
        0
    }
}

/// Where the mantissa (digits and point) ends.
pub open spec fn mant_end(b: Seq<char>) -> int {
    if has_point(b) {
        int_len(b) + 1 + frac_len(b)
    } else {
        int_len(b)
    }
}

/// Start of the exponent digits (after `e` and its optional sign).
pub open spec fn exp_start(b: Seq<char>) -> int {
    let m = mant_end(b);
    if m + 1 < b.len() && (b[m + 1] == '+' || b[m + 1] == '-') {
        m + 2
    } else {
        m + 1
    }
}

pub open spec fn exp_is_neg(b: Seq<char>) -> bool {
    let m = mant_end(b);
    m + 1 < b.len() && b[m + 1] == '-'
}

pub open spec fn is_number_body(b: Seq<char>) -> bool {
    let m = mant_end(b);
    &&& int_len(b) + frac_len(b) >= 1
    &&& m == b.len() || {
        &&& ci(b[m], 'e', 'E')
        &&& digit_run(b, exp_start(b)) >= 1
        &&& exp_start(b) + digit_run(b, exp_start(b)) == b.len()
    }
}

/// The texts that the standard library reads as a floating-point number.
pub open spec fn is_px_text(s: Seq<char>) -> bool {
    let b = body(s);
    is_nan_word(b) || is_inf_word(b) || is_number_body(b)
}

/// Magnitude of a price: zero, a finite value `0.d1d2... * 10^point` (with `d1 != 0`
/// and no trailing zero digits), or infinity.
pub enum Mag {
    Zero,
    Fin { point: int, sig: Seq<char> },
    Inf,
}

pub enum PxModel {
    Nan,
    Val { neg: bool, mag: Mag },
}

pub open spec fn lead_zeros(d: Seq<char>) -> nat
    decreases d.len(),
{
    if d.len() > 0 && d[0] == '0' {
        1 + lead_zeros(d.drop_first())
    } else {
        0
    }
}

pub open spec fn strip_trailing_zeros(d: Seq<char>) -> Seq<char>
    decreases d.len(),
{
    if d.len() > 0 && d.last() == '0' {
        strip_trailing_zeros(d.drop_last())
    } else {
        d
    }
}

pub open spec fn sat_exp(v: nat) -> int {
    if v > EXP_CAP {
        EXP_CAP as int
    } else {
        v as int
    }
}

/// The decimal exponent written after `e` (0 when there is none), saturated at `EXP_CAP`.
pub open spec fn exp_value(b: Seq<char>) -> int {
    if mant_end(b) == b.len() {
        0
    } else {
        let v = sat_exp(digits_value(b.subrange(exp_start(b), b.len() as int)));
        if exp_is_neg(b) {
            -v
        } else {
            v
        }
    }
}

/// All mantissa digits, integer part then fraction part.
pub open spec fn mant_digits(b: Seq<char>) -> Seq<char> {
    if has_point(b) {
        b.subrange(0, int_len(b)) + b.subrange(int_len(b) + 1, int_len(b) + 1 + frac_len(b))
    } else {
        b.subrange(0, int_len(b))
    }
}

pub open spec fn number_mag(b: Seq<char>) -> Mag {
    let all = mant_digits(b);
    let z = lead_zeros(all);
    if z == all.len() {
        Mag::Zero
    } else {
        Mag::Fin {
            point: int_len(b) - z + exp_value(b),
            sig: strip_trailing_zeros(all.skip(z as int)),
        }
    }
}

/// The value that a price text denotes.
pub open spec fn px_model(s: Seq<char>) -> PxModel {
    let b = body(s);
    if is_nan_word(b) {
        PxModel::Nan
    } else if is_inf_word(b) {
        PxModel::Val { neg: is_neg(s), mag: Mag::Inf }
    } else {
        PxModel::Val { neg: is_neg(s), mag: number_mag(b) }
    }
}

/// Lexicographic order of significand digits (a proper prefix is smaller).
pub open spec fn sig_order(a: Seq<char>, b: Seq<char>) -> int
    decreases a.len(),
{
    if a.len() == 0 && b.len() == 0 {
        0
    } else if a.len() == 0 {
        -1
    } else if b.len() == 0 {
        1
    } else if a[0] < b[0] {
        -1
    } else if a[0] > b[0] {
        1
    } else {
        sig_order(a.drop_first(), b.drop_first())
    }
}

pub open spec fn mag_order(a: Mag, b: Mag) -> int {
    match (a, b) {
        (Mag::Zero, Mag::Zero) => 0,
        (Mag::Zero, _) => -1,
        (_, Mag::Zero) => 1,
        (Mag::Inf, Mag::Inf) => 0,
        (Mag::Inf, _) => 1,
        (_, Mag::Inf) => -1,
        (Mag::Fin { point: pa, sig: sa }, Mag::Fin { point: pb, sig: sb }) => {
            if pa < pb {
                -1
            } else if pa > pb {
                1
            } else {
                sig_order(sa, sb)
            }
        },
    }
}

pub open spec fn px_sign(neg: bool, m: Mag) -> int {
    match m {
        Mag::Zero => 0,
        _ => if neg {
            -1
        } else {
            1
        },
    }
}

/// Order of two prices: -1, 0 or 1. Not-a-number compares equal to everything,
/// and so do the two zeros.
pub open spec fn px_order(a: PxModel, b: PxModel) -> int {
    match (a, b) {
        (PxModel::Val { neg: na, mag: ma }, PxModel::Val { neg: nb, mag: mb }) => {
            let sa = px_sign(na, ma);
            let sb = px_sign(nb, mb);
            if sa < sb {
                -1
            } else if sa > sb {
                1
            } else if sa == 0 {
                0
            } else if sa == 1 {
                mag_order(ma, mb)
            } else {
                mag_order(mb, ma)
            }
        },
        _ => 0,
    }
}

/// Order of two price texts.
pub open spec fn px_text_order(a: Seq<char>, b: Seq<char>) -> int {
    px_order(px_model(a), px_model(b))
}

// ------------------------------------------------------------------------------------------
// Executable reading and comparison
// ------------------------------------------------------------------------------------------
pub enum PxMag {
    Zero,
    Fin { point: i128, sig: Vec<char> },
    Inf,
}

pub enum PxValue {
    Nan,
    Val { neg: bool, mag: PxMag },
}

impl View for PxMag {
    type V = Mag;

    open spec fn view(&self) -> Mag {
        match self {
            PxMag::Zero => Mag::Zero,
            PxMag::Fin { point, sig } => Mag::Fin { point: *point as int, sig: sig@ },
            PxMag::Inf => Mag::Inf,
        }
    }
}

impl View for PxValue {
    type V = PxModel;

    open spec fn view(&self) -> PxModel {
        match self {
            PxValue::Nan => PxModel::Nan,
            PxValue::Val { neg, mag } => PxModel::Val { neg: *neg, mag: mag@ },
        }
    }
}

pub(crate) fn is_digit_exec(c: char) -> (r: bool)
    ensures
        r == is_digit(c),
{
    '0' <= c && c <= '9'
}

pub(crate) fn digit_run_exec(t: &Vec<char>, i: usize) -> (r: usize)
    requires
        i <= t.len(),
    ensures
        r == digit_run(t@, i as int),
        i + r <= t.len(),
{
    let mut j = i;
    while j < t.len() && is_digit_exec(t[j])
        invariant
            i <= j <= t.len(),
            digit_run(t@, i as int) == (j - i) + digit_run(t@, j as int),
        decreases t.len() - j,
    {
        j += 1;
    }
    j - i
}

pub(crate) proof fn lemma_digit_run_bound(t: Seq<char>, i: int)
    requires
        0 <= i <= t.len(),
    ensures
        i + digit_run(t, i) <= t.len(),
        forall|k: int| i <= k < i + digit_run(t, i) ==> is_digit(#[trigger] t[k]),
    decreases t.len() - i,
{
    if i < t.len() && is_digit(t[i]) {
        lemma_digit_run_bound(t, i + 1);
    }
}

pub(crate) fn ci_exec(c: char, lo: char, up: char) -> (r: bool)
    ensures
        r == ci(c, lo, up),
{
    c == lo || c == up
}

/// Saturated value of the digits `t[start..end]`.
fn exp_digits_exec(t: &Vec<char>, start: usize, end: usize) -> (r: u64)
    requires
        start <= end <= t.len(),
        forall|k: int| start <= k < end ==> is_digit(#[trigger] t@[k]),
    ensures
        r == sat_exp(digits_value(t@.subrange(start as int, end as int))),
{
    let cap1: u64 = EXP_CAP + 1;
    let mut acc: u64 = 0;
    let mut j = start;
    assert(t@.subrange(start as int, start as int) =~= Seq::<char>::empty());
    while j < end
        invariant
            start <= j <= end <= t.len(),
            forall|k: int| start <= k < end ==> is_digit(#[trigger] t@[k]),
            acc == (if digits_value(t@.subrange(start as int, j as int)) > EXP_CAP {
                cap1 as nat
            } else {
                digits_value(t@.subrange(start as int, j as int))
            }),
            cap1 == EXP_CAP + 1,
        decreases end - j,
    {
        let c = t[j];
        assert(is_digit(t@[j as int]));
        let d: u64 = (c as u32 - '0' as u32) as u64;
        let ghost prev = t@.subrange(start as int, j as int);
        let ghost next = t@.subrange(start as int, j + 1);
        assert(next.drop_last() =~= prev);
        assert(next.last() == c);
        assert(digits_value(next) == digits_value(prev) * 10 + digit_val(c));
        if acc >= cap1 {
            acc = cap1;
        } else {
            acc = acc * 10 + d;
            if acc > EXP_CAP {
                acc = cap1;
            }
        }
        j += 1;
    }
    if acc > EXP_CAP {
        EXP_CAP
    } else {
        acc
    }
}

/// Reads a price text; `None` when it is not in the floating-point grammar.
pub fn parse_px(t: &Vec<char>) -> (r: Option<PxValue>)
    ensures
        is_px_text(t@) <==> r is Some,
        r matches Some(v) ==> v@ == px_model(t@),
{
    let n = t.len();
    let sl: usize = if n > 0 && (t[0] == '+' || t[0] == '-') {
        1
    } else {
        0
    };
    let neg = n > 0 && t[0] == '-';
    let ghost s = t@;
    let ghost b = body(s);
    assert(sl == sign_len(s));
    assert(b =~= s.subrange(sl as int, n as int));
    let bl = n - sl;
    if bl == 3 && ci_exec(t[sl], 'n', 'N') && ci_exec(t[sl + 1], 'a', 'A') && ci_exec(
        t[sl + 2],
        'n',
        'N',
    ) {
        assert(is_nan_word(b));
        return Some(PxValue::Nan);
    }
    assert(!is_nan_word(b));
    if (bl == 3 || bl == 8) && ci_exec(t[sl], 'i', 'I') && ci_exec(t[sl + 1], 'n', 'N')
        && ci_exec(t[sl + 2], 'f', 'F') && (bl == 3 || (ci_exec(t[sl + 3], 'i', 'I') && ci_exec(
        t[sl + 4],
        'n',
        'N',
    ) && ci_exec(t[sl + 5], 'i', 'I') && ci_exec(t[sl + 6], 't', 'T') && ci_exec(
        t[sl + 7],
        'y',
        'Y',
    ))) {
        assert(is_inf_word(b));
        return Some(PxValue::Val { neg, mag: PxMag::Inf });
    }
    assert(!is_inf_word(b));
    match parse_number_mag(t, sl) {
        Some(mag) => Some(PxValue::Val { neg, mag }),
        None => None,
    }
}

/// Reads the number after the sign, which ends at `sl`.
fn parse_number_mag(t: &Vec<char>, sl: usize) -> (r: Option<PxMag>)
    requires
        sl <= t.len(),
    ensures
        is_number_body(t@.skip(sl as int)) <==> r is Some,
        r matches Some(m) ==> m@ == number_mag(t@.skip(sl as int)),
{
    let n = t.len();
    let ghost s = t@;
    let ghost b = s.skip(sl as int);
    let il = digit_run_exec(t, sl);
    proof {
        lemma_digit_run_shift(s, sl as int, 0);
        lemma_digit_run_bound(s, sl as int);
    }
    assert(il == int_len(b));
    let hp = sl + il < n && t[sl + il] == '.';
    assert(hp == has_point(b));
    let fl: usize = if hp {
        let r = digit_run_exec(t, sl + il + 1);
        proof {
            lemma_digit_run_shift(s, sl as int, il + 1);
            lemma_digit_run_bound(s, sl + il + 1);
        }
        r
    } else {
        0
    };
    assert(fl == frac_len(b));
    let me: usize = if hp {
        sl + il + 1 + fl
    } else {
        sl + il
    };
    assert(me - sl == mant_end(b));
    if il + fl < 1 {
        return None;
    }
    let exp = match exponent_part(t, sl, me) {
        Some(e) => e,
        None => {
            return None;
        },
    };
    assert(is_number_body(b));
    assert(exp == exp_value(b));
    let all = mantissa_digits(t, sl, il, hp, fl);
    assert(all@ =~= mant_digits(b));
    Some(digits_mag(&all, il, exp))
}

/// Reads the exponent that follows the mantissa ending at `me`.
fn exponent_part(t: &Vec<char>, sl: usize, me: usize) -> (r: Option<i128>)
    requires
        sl <= me <= t.len(),
        me - sl == mant_end(t@.skip(sl as int)),
    ensures
        ({
            let b = t@.skip(sl as int);
            let m = mant_end(b);
            &&& r is Some <==> (m == b.len() || {
                &&& ci(b[m], 'e', 'E')
                &&& digit_run(b, exp_start(b)) >= 1
                &&& exp_start(b) + digit_run(b, exp_start(b)) == b.len()
            })
            &&& r matches Some(e) ==> e == exp_value(b)
            &&& r matches Some(e) ==> -(EXP_CAP as int) <= e <= EXP_CAP as int
        }),
{
    let n = t.len();
    let ghost s = t@;
    let ghost b = s.skip(sl as int);
    if me == n {
        return Some(0);
    }
    if !ci_exec(t[me], 'e', 'E') {
        return None;
    }
    let es: usize = if me + 1 < n && (t[me + 1] == '+' || t[me + 1] == '-') {
        me + 2
    } else {
        me + 1
    };
    let eneg = me + 1 < n && t[me + 1] == '-';
    assert(es - sl == exp_start(b));
    assert(eneg == exp_is_neg(b));
    let el = digit_run_exec(t, es);
    proof {
        lemma_digit_run_shift(s, sl as int, es - sl);
        lemma_digit_run_bound(s, es as int);
    }
    if el < 1 || es + el != n {
        return None;
    }
    let v = exp_digits_exec(t, es, n);
    assert(b.subrange(exp_start(b), b.len() as int) =~= s.subrange(es as int, n as int));
    if eneg {
        Some(-(v as i128))
    } else {
        Some(v as i128)
    }
}

/// The mantissa digits of the number that starts at `sl`, without the point.
fn mantissa_digits(t: &Vec<char>, sl: usize, il: usize, hp: bool, fl: usize) -> (all: Vec<char>)
    requires
        sl + il <= t.len(),
        hp ==> sl + il + 1 + fl <= t.len(),
        !hp ==> fl == 0,
    ensures
        hp ==> all@ =~= t@.subrange(sl as int, (sl + il) as int) + t@.subrange(
            (sl + il + 1) as int,
            (sl + il + 1 + fl) as int,
        ),
        !hp ==> all@ =~= t@.subrange(sl as int, (sl + il) as int),
{
    let mut all: Vec<char> = Vec::new();
    let mut k = sl;
    while k < sl + il
        invariant
            sl <= k <= sl + il <= t.len(),
            all@ =~= t@.subrange(sl as int, k as int),
        decreases sl + il - k,
    {
        all.push(t[k]);
        k += 1;
    }
    if hp {
        let mut k = sl + il + 1;
        while k < sl + il + 1 + fl
            invariant
                sl + il + 1 <= k <= sl + il + 1 + fl <= t.len(),
                all@ =~= t@.subrange(sl as int, (sl + il) as int) + t@.subrange(
                    (sl + il + 1) as int,
                    k as int,
                ),
            decreases sl + il + 1 + fl - k,
        {
            all.push(t[k]);
            k += 1;
        }
    }
    all
}

/// Normal form of `0.all * 10^(il + exp)`.
fn digits_mag(all: &Vec<char>, il: usize, exp: i128) -> (m: PxMag)
    requires
        -(EXP_CAP as int) <= exp <= EXP_CAP as int,
    ensures
        m@ == (if lead_zeros(all@) == all@.len() {
            Mag::Zero
        } else {
            Mag::Fin {
                point: il - lead_zeros(all@) + exp,
                sig: strip_trailing_zeros(all@.skip(lead_zeros(all@) as int)),
            }
        }),
{
    let mut z: usize = 0;
    assert(all@.skip(0) =~= all@);
    while z < all.len() && all[z] == '0'
        invariant
            z <= all.len(),
            lead_zeros(all@) == z + lead_zeros(all@.skip(z as int)),
        decreases all.len() - z,
    {
        assert(all@.skip(z as int).drop_first() =~= all@.skip(z + 1));
        z += 1;
    }
    assert(lead_zeros(all@.skip(z as int)) == 0);
    if z == all.len() {
        return PxMag::Zero;
    }
    let mut e: usize = all.len();
    assert(all@.skip(z as int) =~= all@.subrange(z as int, all.len() as int));
    while e > z && all[e - 1] == '0'
        invariant
            z < all.len(),
            z <= e <= all.len(),
            strip_trailing_zeros(all@.skip(z as int)) == strip_trailing_zeros(
                all@.subrange(z as int, e as int),
            ),
        decreases e,
    {
        assert(all@.subrange(z as int, e as int).drop_last() =~= all@.subrange(
            z as int,
            e - 1,
        ));
        e -= 1;
    }
    assert(strip_trailing_zeros(all@.subrange(z as int, e as int)) == all@.subrange(
        z as int,
        e as int,
    ));
    let mut sig: Vec<char> = Vec::new();
    let mut k = z;
    while k < e
        invariant
            z <= k <= e <= all.len(),
            sig@ =~= all@.subrange(z as int, k as int),
        decreases e - k,
    {
        sig.push(all[k]);
        k += 1;
    }
    let point: i128 = il as i128 - z as i128 + exp;
    PxMag::Fin { point, sig }
}

pub(crate) proof fn lemma_digit_run_shift(s: Seq<char>, sl: int, i: int)
    requires
        0 <= sl <= s.len(),
        0 <= i,
    ensures
        digit_run(s.skip(sl), i) == digit_run(s, sl + i),
    decreases s.len() - sl - i,
{
    if sl + i < s.len() {
        lemma_digit_run_shift(s, sl, i + 1);
    }
}

fn sig_order_exec(a: &Vec<char>, b: &Vec<char>) -> (r: i8)
    ensures
        r == sig_order(a@, b@),
{
    let mut i: usize = 0;
    assert(a@.skip(0) =~= a@);
    assert(b@.skip(0) =~= b@);
    while i < a.len() && i < b.len() && a[i] == b[i]
        invariant
            i <= a.len(),
            i <= b.len(),
            sig_order(a@, b@) == sig_order(a@.skip(i as int), b@.skip(i as int)),
        decreases a.len() - i,
    {
        assert(a@.skip(i as int).drop_first() =~= a@.skip(i + 1));
        assert(b@.skip(i as int).drop_first() =~= b@.skip(i + 1));
        i += 1;
    }
    if i == a.len() && i == b.len() {
        0
    } else if i == a.len() {
        -1
    } else if i == b.len() {
        1
    } else if a[i] < b[i] {
        -1
    } else {
        1
    }
}

fn mag_order_exec(a: &PxMag, b: &PxMag) -> (r: i8)
    ensures
        r == mag_order(a@, b@),
{
    match (a, b) {
        (PxMag::Zero, PxMag::Zero) => 0,
        (PxMag::Zero, _) => -1,
        (_, PxMag::Zero) => 1,
        (PxMag::Inf, PxMag::Inf) => 0,
        (PxMag::Inf, _) => 1,
        (_, PxMag::Inf) => -1,
        (PxMag::Fin { point: pa, sig: sa }, PxMag::Fin { point: pb, sig: sb }) => {
            if *pa < *pb {
                -1
            } else if *pa > *pb {
                1
            } else {
                sig_order_exec(sa, sb)
            }
        },
    }
}

fn px_sign_exec(neg: bool, m: &PxMag) -> (r: i8)
    ensures
        r == px_sign(neg, m@),
{
    match m {
        PxMag::Zero => 0,
        _ => if neg {
            -1
        } else {
            1
        },
    }
}

/// Compares two read prices: -1, 0 or 1.
pub fn px_order_exec(a: &PxValue, b: &PxValue) -> (r: i8)
    ensures
        r == px_order(a@, b@),
{
    match (a, b) {
        (PxValue::Val { neg: na, mag: ma }, PxValue::Val { neg: nb, mag: mb }) => {
            let sa = px_sign_exec(*na, ma);
            let sb = px_sign_exec(*nb, mb);
            if sa < sb {
                -1
            } else if sa > sb {
                1
            } else if sa == 0 {
                0
            } else if sa == 1 {
                mag_order_exec(ma, mb)
            } else {
                mag_order_exec(mb, ma)
            }
        },
        _ => 0,
    }
}

/// The characters of a string slice.
pub fn str_chars(s: &str) -> (v: Vec<char>)
    ensures
        v@ == s@,
{
    let mut v: Vec<char> = Vec::new();
    for c in it: s.chars()
        invariant
            v@ == it.seq().take(it.index() as int),
            it.seq() == s@,
    {
        v.push(c);
    }
    v
}

// ------------------------------------------------------------------------------------------
// The order of prices
// ------------------------------------------------------------------------------------------
proof fn lemma_sig_antisym(a: Seq<char>, b: Seq<char>)
    ensures
        sig_order(a, b) == -sig_order(b, a),
    decreases a.len(),
{
    if a.len() > 0 && b.len() > 0 && a[0] == b[0] {
        lemma_sig_antisym(a.drop_first(), b.drop_first());
    }
}

proof fn lemma_sig_refl(a: Seq<char>)
    ensures
        sig_order(a, a) == 0,
    decreases a.len(),
{
    if a.len() > 0 {
        lemma_sig_refl(a.drop_first());
    }
}

proof fn lemma_sig_trans(a: Seq<char>, b: Seq<char>, c: Seq<char>)
    requires
        sig_order(a, b) <= 0,
        sig_order(b, c) <= 0,
    ensures
        sig_order(a, c) <= 0,
    decreases a.len(),
{
    if a.len() > 0 && b.len() > 0 && c.len() > 0 && a[0] == b[0] && b[0] == c[0] {
        lemma_sig_trans(a.drop_first(), b.drop_first(), c.drop_first());
    }
}

proof fn lemma_mag_laws(a: Mag, b: Mag, c: Mag)
    ensures
        mag_order(a, a) == 0,
        mag_order(a, b) == -mag_order(b, a),
        mag_order(a, b) <= 0 && mag_order(b, c) <= 0 ==> mag_order(a, c) <= 0,
{
    match a {
        Mag::Fin { point, sig } => {
            lemma_sig_refl(sig);
        },
        _ => {},
    }
    match (a, b) {
        (Mag::Fin { point: pa, sig: sa }, Mag::Fin { point: pb, sig: sb }) => {
            lemma_sig_antisym(sa, sb);
        },
        _ => {},
    }
    match (a, b, c) {
        (
            Mag::Fin { point: pa, sig: sa },
            Mag::Fin { point: pb, sig: sb },
            Mag::Fin { point: pc, sig: sc },
        ) => {
            if mag_order(a, b) <= 0 && mag_order(b, c) <= 0 && pa == pb && pb == pc {
                lemma_sig_trans(sa, sb, sc);
            }
        },
        _ => {},
    }
}

/// Whether a price text is a number other than not-a-number.
pub open spec fn is_ordered_px(t: Seq<char>) -> bool {
    is_px_text(t) && !(px_model(t) is Nan)
}

/// The order of price texts is a total preorder on numbers other than
/// not-a-number: every price is equal to itself, swapping the two prices
/// swaps the result, and "no greater than" is transitive.
pub proof fn law_px_order_total_preorder(a: Seq<char>, b: Seq<char>, c: Seq<char>)
    requires
        is_ordered_px(a),
        is_ordered_px(b),
        is_ordered_px(c),
    ensures
        px_text_order(a, a) == 0,
        px_text_order(a, b) == -px_text_order(b, a),
        px_text_order(a, b) <= 0 && px_text_order(b, c) <= 0 ==> px_text_order(a, c) <= 0,
{
    let (ma, mb, mc) = (px_model(a), px_model(b), px_model(c));
    match (ma, mb, mc) {
        (
            PxModel::Val { neg: na, mag: xa },
            PxModel::Val { neg: nb, mag: xb },
            PxModel::Val { neg: nc, mag: xc },
        ) => {
            lemma_mag_laws(xa, xb, xc);
            lemma_mag_laws(xb, xa, xc);
            lemma_mag_laws(xc, xb, xa);
            lemma_mag_laws(xb, xc, xa);
        },
        _ => {},
    }
}

/// Whether every character of `d` is a decimal digit.
pub open spec fn all_digits(d: Seq<char>) -> bool {
    forall|i: int| 0 <= i < d.len() ==> is_digit(#[trigger] d[i])
}

/// The sign of a number text: nothing, `+` or `-`.
pub open spec fn is_sign_part(s: Seq<char>) -> bool {
    s.len() == 0 || s == seq!['+'] || s == seq!['-']
}

/// The exponent of a number text: nothing, or `e` or `E`, then a sign, then
/// one digit or more.
pub open spec fn is_exp_part(e: Seq<char>) -> bool {
    e.len() == 0 || exists|sg: Seq<char>, d: Seq<char>|
        {
            &&& is_sign_part(sg)
            &&& d.len() >= 1
            &&& all_digits(d)
            &&& ci(e[0], 'e', 'E')
            &&& #[trigger] (seq![e[0]] + sg + d) == e
        }
}

proof fn lemma_digit_run_exact(x: Seq<char>, i: int, k: nat)
    requires
        0 <= i,
        i + k <= x.len(),
        forall|j: int| i <= j < i + k ==> is_digit(#[trigger] x[j]),
        i + k == x.len() || !is_digit(x[i + k]),
    ensures
        digit_run(x, i) == k,
    decreases k,
{
    if k > 0 {
        lemma_digit_run_exact(x, i + 1, (k - 1) as nat);
    }
}

/// The exponent part that stands at `m` in `b`, after the mantissa.
proof fn lemma_exp_part(b: Seq<char>, m: int, e: Seq<char>)
    requires
        0 <= m,
        m + e.len() == b.len(),
        b == b.take(m) + e,
        is_exp_part(e),
        e.len() > 0,
    ensures
        m < b.len(),
        ci(b[m], 'e', 'E'),
        ({
            let es = if m + 1 < b.len() && (b[m + 1] == '+' || b[m + 1] == '-') {
                m + 2
            } else {
                m + 1
            };
            digit_run(b, es) >= 1 && es + digit_run(b, es) == b.len()
        }),
{
    let (sg, d) = choose|sg: Seq<char>, d: Seq<char>|
        {
            &&& is_sign_part(sg)
            &&& d.len() >= 1
            &&& all_digits(d)
            &&& ci(e[0], 'e', 'E')
            &&& #[trigger] (seq![e[0]] + sg + d) == e
        };
    assert(e.len() == 1 + sg.len() + d.len());
    assert(b[m] == (b.take(m) + e)[m]);
    assert(b[m] == e[0]);
    let es = m + 1 + sg.len();
    assert(b[m + 1] == (b.take(m) + e)[m + 1]);
    if sg.len() == 0 {
        assert(e[1] == d[0]);
        assert(is_digit(d[0]));
    } else {
        assert(e[1] == sg[0]);
    }
    assert forall|j: int| es <= j < es + d.len() implies is_digit(#[trigger] b[j]) by {
        assert(b[j] == (b.take(m) + e)[j]);
        assert(e[j - m] == (seq![e[0]] + sg + d)[j - m]);
    }
    lemma_digit_run_exact(b, es, d.len());
}

proof fn lemma_sign_body(s: Seq<char>, b: Seq<char>)
    requires
        is_sign_part(s),
        b.len() > 0,
        b[0] != '+' && b[0] != '-',
    ensures
        body(s + b) == b,
        is_neg(s + b) == (s == seq!['-']),
{
    if s.len() == 0 {
        assert(s + b =~= b);
    } else {
        assert((s + b)[0] == s[0]);
        assert((s + b).skip(1) =~= b);
    }
}

/// Every text of the number grammar with a point is a price text: a sign, digits,
/// a point, digits (one digit at least on either side of the point) and an
/// exponent.
pub proof fn law_point_numbers_are_px_texts(s: Seq<char>, d1: Seq<char>, d2: Seq<char>, e: Seq<char>)
    requires
        is_sign_part(s),
        all_digits(d1),
        all_digits(d2),
        d1.len() + d2.len() >= 1,
        is_exp_part(e),
    ensures
        is_px_text(s + d1 + seq!['.'] + d2 + e),
        mant_digits(body(s + d1 + seq!['.'] + d2 + e)) == d1 + d2,
        frac_len(body(s + d1 + seq!['.'] + d2 + e)) == d2.len(),
        is_neg(s + d1 + seq!['.'] + d2 + e) == (s == seq!['-']),
        e.len() == 0 ==> exp_value(body(s + d1 + seq!['.'] + d2 + e)) == 0,
{
    let b = d1 + seq!['.'] + d2 + e;
    assert(s + d1 + seq!['.'] + d2 + e =~= s + b);
    lemma_point_body(d1, d2, e);
    lemma_sign_body(s, b);
}

#[verifier::rlimit(30)]
proof fn lemma_point_body(d1: Seq<char>, d2: Seq<char>, e: Seq<char>)
    requires
        all_digits(d1),
        all_digits(d2),
        d1.len() + d2.len() >= 1,
        is_exp_part(e),
    ensures
        ({
            let b = d1 + seq!['.'] + d2 + e;
            &&& b.len() > 0
            &&& b[0] != '+' && b[0] != '-'
            &&& is_number_body(b)
            &&& mant_digits(b) == d1 + d2
            &&& frac_len(b) == d2.len()
            &&& e.len() == 0 ==> exp_value(b) == 0
        }),
{
    let b = d1 + seq!['.'] + d2 + e;
    if d1.len() > 0 {
        assert(b[0] == d1[0]);
    } else {
        assert(b[0] == '.');
    }
    let il = d1.len() as int;
    assert forall|j: int| 0 <= j < il implies is_digit(#[trigger] b[j]) by {
        assert(b[j] == d1[j]);
    }
    assert(b[il] == '.');
    lemma_digit_run_exact(b, 0, d1.len());
    assert(has_point(b));
    let m = il + 1 + d2.len();
    assert forall|j: int| il + 1 <= j < m implies is_digit(#[trigger] b[j]) by {
        assert(b[j] == d2[j - il - 1]);
    }
    if e.len() > 0 {
        let (sg, d) = choose|sg: Seq<char>, d: Seq<char>|
            {
                &&& is_sign_part(sg)
                &&& d.len() >= 1
                &&& all_digits(d)
                &&& ci(e[0], 'e', 'E')
                &&& #[trigger] (seq![e[0]] + sg + d) == e
            };
        assert(b[m] == e[0]);
    } else {
        assert(m == b.len());
    }
    lemma_digit_run_exact(b, il + 1, d2.len());
    assert(mant_end(b) == m);
    if e.len() > 0 {
        assert(b == b.take(m) + e);
        lemma_exp_part(b, m, e);
    }
    assert(is_number_body(b));
    assert(mant_digits(b) =~= d1 + d2);
}

/// Every text of the number grammar without a point is a price text: a sign,
/// one digit or more, and an exponent.
pub proof fn law_integer_numbers_are_px_texts(s: Seq<char>, d: Seq<char>, e: Seq<char>)
    requires
        is_sign_part(s),
        all_digits(d),
        d.len() >= 1,
        is_exp_part(e),
    ensures
        is_px_text(s + d + e),
        mant_digits(body(s + d + e)) == d,
        frac_len(body(s + d + e)) == 0,
        is_neg(s + d + e) == (s == seq!['-']),
        e.len() == 0 ==> exp_value(body(s + d + e)) == 0,
{
    let b = d + e;
    assert(s + d + e =~= s + b);
    lemma_integer_body(d, e);
    lemma_sign_body(s, b);
}

#[verifier::rlimit(30)]
proof fn lemma_integer_body(d: Seq<char>, e: Seq<char>)
    requires
        all_digits(d),
        d.len() >= 1,
        is_exp_part(e),
    ensures
        ({
            let b = d + e;
            &&& b.len() > 0
            &&& b[0] != '+' && b[0] != '-'
            &&& is_number_body(b)
            &&& mant_digits(b) == d
            &&& frac_len(b) == 0
            &&& e.len() == 0 ==> exp_value(b) == 0
        }),
{
    let b = d + e;
    assert(b[0] == d[0]);
    assert(is_digit(d[0]));
    let il = d.len() as int;
    assert forall|j: int| 0 <= j < il implies is_digit(#[trigger] b[j]) by {
        assert(b[j] == d[j]);
    }
    if e.len() > 0 {
        let (sg, dd) = choose|sg: Seq<char>, dd: Seq<char>|
            {
                &&& is_sign_part(sg)
                &&& dd.len() >= 1
                &&& all_digits(dd)
                &&& ci(e[0], 'e', 'E')
                &&& #[trigger] (seq![e[0]] + sg + dd) == e
            };
        assert(b[il] == e[0]);
    }
    lemma_digit_run_exact(b, 0, d.len());
    assert(!has_point(b));
    assert(mant_end(b) == il);
    if e.len() > 0 {
        assert(b == b.take(il) + e);
        lemma_exp_part(b, il, e);
    }
    assert(is_number_body(b));
    assert(mant_digits(b) =~= d);
}

// ------------------------------------------------------------------------------------------
// The order of prices is the order of the values they write
// ------------------------------------------------------------------------------------------
/// 10 to the power `k`.
pub open spec fn pow10(k: nat) -> nat
    decreases k,
{
    if k == 0 {
        1
    } else {
        10 * pow10((k - 1) as nat)
    }
}

/// -1, 0 or 1 as `x` is below, equal to or above `y`.
pub open spec fn order_of_ints(x: int, y: int) -> int {
    if x < y {
        -1
    } else if x > y {
        1
    } else {
        0
    }
}

proof fn lemma_pow10_add(a: nat, b: nat)
    ensures
        pow10(a + b) == pow10(a) * pow10(b),
    decreases a,
{
    if a > 0 {
        lemma_pow10_add((a - 1) as nat, b);
        assert(pow10(a + b) == 10 * pow10((a - 1 + b) as nat));
        let x = pow10((a - 1) as nat);
        let y = pow10(b);
        assert(pow10(a) == 10 * x);
        assert(pow10((a - 1 + b) as nat) == x * y);
        assert(10 * (x * y) == (10 * x) * y) by (nonlinear_arith);
        let pa = pow10(a);
        assert(pa * y == 10 * (x * y)) by (nonlinear_arith)
            requires
                pa == 10 * x,
        ;
    } else {
        let y = pow10(b);
        assert(pow10(0) == 1);
        assert(1 * y == y);
    }
}

proof fn lemma_pow10_pos(a: nat)
    ensures
        pow10(a) >= 1,
    decreases a,
{
    if a > 0 {
        lemma_pow10_pos((a - 1) as nat);
    }
}

proof fn lemma_pow10_mono(a: nat, b: nat)
    requires
        a <= b,
    ensures
        pow10(a) <= pow10(b),
{
    lemma_pow10_add(a, (b - a) as nat);
    lemma_pow10_pos((b - a) as nat);
    let x = pow10(a);
    let y = pow10((b - a) as nat);
    assert(x <= x * y) by (nonlinear_arith)
        requires
            y >= 1,
    ;
}

/// The value of a digit string is its first digit's, scaled, plus the rest's.
proof fn lemma_dv_first(x: Seq<char>)
    requires
        x.len() > 0,
    ensures
        digits_value(x) == digit_val(x[0]) * pow10((x.len() - 1) as nat) + digits_value(x.drop_first()),
    decreases x.len(),
{
    if x.len() == 1 {
        assert(x.drop_last() =~= Seq::<char>::empty());
        assert(x.drop_first() =~= Seq::<char>::empty());
        assert(pow10(0) == 1);
        let d = digit_val(x[0]);
        assert(d * 1 == d);
        assert(x.last() == x[0]);
    } else {
        let y = x.drop_last();
        let mid = x.drop_first().drop_last();
        lemma_dv_first(y);
        assert(y.drop_first() =~= mid);
        assert(x.drop_first().last() == x.last());
        let p = pow10((x.len() - 2) as nat);
        assert(pow10((x.len() - 1) as nat) == 10 * p);
        let d = digit_val(x[0]);
        let v = digits_value(mid);
        assert((d * p + v) * 10 == d * (10 * p) + v * 10) by (nonlinear_arith);
        assert(digits_value(y) == d * p + v);
        assert(digits_value(x) == digits_value(y) * 10 + digit_val(x.last()));
        assert(digits_value(x.drop_first()) == v * 10 + digit_val(x.last()));
        let p1 = pow10((x.len() - 1) as nat);
        assert(d * p1 == d * (10 * p) ) by (nonlinear_arith)
            requires
                p1 == 10 * p,
        ;
    }
}

proof fn lemma_dv_upper(x: Seq<char>)
    requires
        all_digits(x),
    ensures
        digits_value(x) < pow10(x.len()),
    decreases x.len(),
{
    if x.len() > 0 {
        let y = x.drop_last();
        assert(all_digits(y)) by {
            assert forall|i: int| 0 <= i < y.len() implies is_digit(#[trigger] y[i]) by {
                assert(y[i] == x[i]);
            }
        }
        lemma_dv_upper(y);
        assert(is_digit(x[x.len() - 1]));
        assert(digit_val(x.last()) <= 9);
        assert(pow10(x.len()) == 10 * pow10(y.len()));
    }
}

/// Whether `s` is a significand in normal form: digits, neither starting nor
/// ending with zero.
pub open spec fn normal_sig(s: Seq<char>) -> bool {
    &&& s.len() > 0
    &&& all_digits(s)
    &&& s[0] != '0'
    &&& s.last() != '0'
}

proof fn lemma_dv_lower(x: Seq<char>)
    requires
        normal_sig(x),
    ensures
        digits_value(x) >= pow10((x.len() - 1) as nat),
        digits_value(x) >= 1,
{
    lemma_dv_first(x);
    assert(is_digit(x[0]));
    assert(digit_val(x[0]) >= 1);
    let p = pow10((x.len() - 1) as nat);
    lemma_pow10_pos((x.len() - 1) as nat);
    let d = digit_val(x[0]);
    assert(d * p >= p) by (nonlinear_arith)
        requires
            d >= 1,
    ;
}

proof fn lemma_dv_lead(x: Seq<char>)
    requires
        all_digits(x),
    ensures
        lead_zeros(x) <= x.len(),
        digits_value(x) == digits_value(x.skip(lead_zeros(x) as int)),
        lead_zeros(x) < x.len() ==> x[lead_zeros(x) as int] != '0',
    decreases x.len(),
{
    if x.len() > 0 && x[0] == '0' {
        let y = x.drop_first();
        assert(all_digits(y)) by {
            assert forall|i: int| 0 <= i < y.len() implies is_digit(#[trigger] y[i]) by {
                assert(y[i] == x[i + 1]);
            }
        }
        lemma_dv_lead(y);
        lemma_dv_first(x);
        assert(digit_val(x[0]) == 0);
        let d0 = digit_val(x[0]);
        let p0 = pow10((x.len() - 1) as nat);
        assert(d0 * p0 == 0) by (nonlinear_arith)
            requires
                d0 == 0,
        ;
        assert(digits_value(x) == digits_value(y));
        assert(lead_zeros(x) == 1 + lead_zeros(y));
        assert(x.skip(lead_zeros(x) as int) =~= y.skip(lead_zeros(y) as int));
        if lead_zeros(x) < x.len() {
            assert(x[lead_zeros(x) as int] == y[lead_zeros(y) as int]);
        }
    } else {
        assert(x.skip(0) =~= x);
    }
}

proof fn lemma_dv_strip(x: Seq<char>)
    requires
        all_digits(x),
    ensures
        strip_trailing_zeros(x).len() <= x.len(),
        strip_trailing_zeros(x) == x.take(strip_trailing_zeros(x).len() as int),
        digits_value(x) == digits_value(strip_trailing_zeros(x)) * pow10(
            (x.len() - strip_trailing_zeros(x).len()) as nat,
        ),
        strip_trailing_zeros(x).len() > 0 ==> strip_trailing_zeros(x).last() != '0',
    decreases x.len(),
{
    if x.len() > 0 && x.last() == '0' {
        let y = x.drop_last();
        assert(all_digits(y)) by {
            assert forall|i: int| 0 <= i < y.len() implies is_digit(#[trigger] y[i]) by {
                assert(y[i] == x[i]);
            }
        }
        lemma_dv_strip(y);
        let st = strip_trailing_zeros(y);
        assert(st == strip_trailing_zeros(x));
        assert(y.take(st.len() as int) =~= x.take(st.len() as int));
        let k = (y.len() - st.len()) as nat;
        assert((x.len() - st.len()) as nat == k + 1);
        assert(pow10(k + 1) == 10 * pow10(k));
        assert(digit_val(x.last()) == 0);
        assert(digits_value(x) == digits_value(y) * 10 + digit_val(x.last()));
        let a = digits_value(st);
        let q = pow10(k);
        assert((a * q) * 10 == a * (10 * q)) by (nonlinear_arith);
        assert(digits_value(y) == a * q);
        let q1 = pow10(k + 1);
        assert(a * q1 == (a * q) * 10) by (nonlinear_arith)
            requires
                q1 == 10 * q,
        ;
    } else {
        assert(x.take(x.len() as int) =~= x);
        assert(pow10(0) == 1);
        let v = digits_value(x);
        assert(v * 1 == v);
    }
}

proof fn lemma_dv_pos(x: Seq<char>)
    requires
        all_digits(x),
        x.len() > 0,
        x.last() != '0',
    ensures
        digits_value(x) >= 1,
{
    assert(is_digit(x[x.len() - 1]));
}

proof fn lemma_zero_mul(a: nat, b: nat)
    requires
        a == 0,
    ensures
        a * b == 0,
{
}

proof fn lemma_mul_lt(a: nat, b: nat, c: nat)
    requires
        a < b,
        c >= 1,
    ensures
        a * c < b * c,
{
    assert(a * c < b * c) by (nonlinear_arith)
        requires
            a < b,
            c >= 1,
    ;
}

proof fn lemma_mul_le(a: nat, b: nat, c: nat)
    requires
        a <= b,
    ensures
        a * c <= b * c,
{
    assert(a * c <= b * c) by (nonlinear_arith)
        requires
            a <= b,
    ;
}

/// The value of the digits `s`, scaled to `q` digits: its first digit's part
/// and the rest's, which is below one unit of the first.
proof fn lemma_v_split(s: Seq<char>, q: nat)
    requires
        all_digits(s),
        s.len() > 0,
        s.len() <= q,
    ensures
        digits_value(s) * pow10((q - s.len()) as nat) == digit_val(s[0]) * pow10((q - 1) as nat)
            + digits_value(s.drop_first()) * pow10((q - s.len()) as nat),
        digits_value(s.drop_first()) * pow10((q - s.len()) as nat) < pow10((q - 1) as nat),
        digit_val(s[0]) <= 9,
{
    let r = s.drop_first();
    assert(all_digits(r)) by {
        assert forall|i: int| 0 <= i < r.len() implies is_digit(#[trigger] r[i]) by {
            assert(r[i] == s[i + 1]);
        }
    }
    assert(is_digit(s[0]));
    lemma_dv_first(s);
    lemma_dv_upper(r);
    let k = (q - s.len()) as nat;
    let m = (s.len() - 1) as nat;
    lemma_pow10_add(m, k);
    assert(m + k == (q - 1) as nat);
    let d = digit_val(s[0]);
    let pm = pow10(m);
    let pk = pow10(k);
    let vr = digits_value(r);
    assert((d * pm + vr) * pk == d * (pm * pk) + vr * pk) by (nonlinear_arith);
    lemma_pow10_pos(k);
    lemma_mul_lt(vr, pow10(r.len()), pk);
}

/// Whether `s` is made of digits and is empty or ends with a non-zero digit.
spec fn sig_tail_ok(s: Seq<char>) -> bool {
    &&& all_digits(s)
    &&& s.len() == 0 || s.last() != '0'
}

/// The order of significands is the order of their values, both scaled to `q`
/// digits.
proof fn lemma_sig_value(s1: Seq<char>, s2: Seq<char>, q: nat)
    requires
        sig_tail_ok(s1),
        sig_tail_ok(s2),
        s1.len() <= q,
        s2.len() <= q,
    ensures
        sig_order(s1, s2) == order_of_ints(
            (digits_value(s1) * pow10((q - s1.len()) as nat)) as int,
            (digits_value(s2) * pow10((q - s2.len()) as nat)) as int,
        ),
    decreases s1.len(),
{
    let p1 = pow10((q - s1.len()) as nat);
    let p2 = pow10((q - s2.len()) as nat);
    lemma_pow10_pos((q - s1.len()) as nat);
    lemma_pow10_pos((q - s2.len()) as nat);
    let v1 = digits_value(s1);
    let v2 = digits_value(s2);
    if s1.len() == 0 && s2.len() == 0 {
        lemma_zero_mul(v1, p1);
        lemma_zero_mul(v2, p2);
    } else if s1.len() == 0 {
        lemma_dv_pos(s2);
        lemma_zero_mul(v1, p1);
        assert(v2 * p2 >= 1) by (nonlinear_arith)
            requires
                v2 >= 1,
                p2 >= 1,
        ;
    } else if s2.len() == 0 {
        lemma_dv_pos(s1);
        lemma_zero_mul(v2, p2);
        assert(v1 * p1 >= 1) by (nonlinear_arith)
            requires
                v1 >= 1,
                p1 >= 1,
        ;
    } else {
        lemma_v_split(s1, q);
        lemma_v_split(s2, q);
        let r1 = s1.drop_first();
        let r2 = s2.drop_first();
        let d1 = digit_val(s1[0]);
        let d2 = digit_val(s2[0]);
        let pq = pow10((q - 1) as nat);
        let w1 = digits_value(r1) * p1;
        let w2 = digits_value(r2) * p2;
        assert(v1 * p1 == d1 * pq + w1);
        assert(v2 * p2 == d2 * pq + w2);
        assert(is_digit(s1[0]) && is_digit(s2[0]));
        if s1[0] < s2[0] {
            assert(d1 < d2);
            assert((d1 + 1) * pq <= d2 * pq) by (nonlinear_arith)
                requires
                    d1 + 1 <= d2,
            ;
            assert((d1 + 1) * pq == d1 * pq + pq) by (nonlinear_arith);
            assert(v1 * p1 < v2 * p2);
            assert(sig_order(s1, s2) == -1);
        } else if s1[0] > s2[0] {
            assert(d1 > d2);
            assert((d2 + 1) * pq <= d1 * pq) by (nonlinear_arith)
                requires
                    d2 + 1 <= d1,
            ;
            assert((d2 + 1) * pq == d2 * pq + pq) by (nonlinear_arith);
            assert(v1 * p1 > v2 * p2);
            assert(sig_order(s1, s2) == 1);
        } else {
            assert(d1 == d2);
            assert(sig_tail_ok(r1)) by {
                assert forall|i: int| 0 <= i < r1.len() implies is_digit(#[trigger] r1[i]) by {
                    assert(r1[i] == s1[i + 1]);
                }
                if r1.len() > 0 {
                    assert(r1.last() == s1.last());
                }
            }
            assert(sig_tail_ok(r2)) by {
                assert forall|i: int| 0 <= i < r2.len() implies is_digit(#[trigger] r2[i]) by {
                    assert(r2[i] == s2[i + 1]);
                }
                if r2.len() > 0 {
                    assert(r2.last() == s2.last());
                }
            }
            lemma_sig_value(r1, r2, (q - 1) as nat);
            assert((q - 1 - r1.len()) as nat == (q - s1.len()) as nat);
            assert((q - 1 - r2.len()) as nat == (q - s2.len()) as nat);
            assert(sig_order(s1, s2) == sig_order(r1, r2));
        }
    }
}

/// A normal significand `s` at `point`, counted in units of `10^e`: at least
/// `10^(point - 1 - e)` and below `10^(point - e)`.
proof fn lemma_fin_bounds(p: int, s: Seq<char>, e: int)
    requires
        normal_sig(s),
        e <= p - s.len(),
    ensures
        digits_value(s) * pow10((p - s.len() - e) as nat) < pow10((p - e) as nat),
        digits_value(s) * pow10((p - s.len() - e) as nat) >= pow10((p - 1 - e) as nat),
{
    let k = (p - s.len() - e) as nat;
    let n = s.len() as nat;
    lemma_dv_upper(s);
    lemma_dv_lower(s);
    lemma_pow10_pos(k);
    lemma_mul_lt(digits_value(s), pow10(n), pow10(k));
    lemma_pow10_add(n, k);
    assert(n + k == (p - e) as nat);
    lemma_mul_le(pow10((n - 1) as nat), digits_value(s), pow10(k));
    lemma_pow10_add((n - 1) as nat, k);
    assert((n - 1) as nat + k == (p - 1 - e) as nat);
}

/// The order of two finite magnitudes is the order of their values, counted
/// in units of `10^e`.
proof fn lemma_fin_order(p1: int, s1: Seq<char>, p2: int, s2: Seq<char>, e: int)
    requires
        normal_sig(s1),
        normal_sig(s2),
        e <= p1 - s1.len(),
        e <= p2 - s2.len(),
    ensures
        mag_order(Mag::Fin { point: p1, sig: s1 }, Mag::Fin { point: p2, sig: s2 }) == order_of_ints(
            (digits_value(s1) * pow10((p1 - s1.len() - e) as nat)) as int,
            (digits_value(s2) * pow10((p2 - s2.len() - e) as nat)) as int,
        ),
{
    if p1 == p2 {
        let q = (p1 - e) as nat;
        lemma_sig_value(s1, s2, q);
        assert((q - s1.len()) as nat == (p1 - s1.len() - e) as nat);
        assert((q - s2.len()) as nat == (p2 - s2.len() - e) as nat);
    } else if p1 < p2 {
        lemma_fin_bounds(p1, s1, e);
        lemma_fin_bounds(p2, s2, e);
        lemma_pow10_mono((p1 - e) as nat, (p2 - 1 - e) as nat);
    } else {
        lemma_fin_bounds(p1, s1, e);
        lemma_fin_bounds(p2, s2, e);
        lemma_pow10_mono((p2 - e) as nat, (p1 - 1 - e) as nat);
    }
}

/// The mantissa digits of a number, and its normal form.
proof fn lemma_number_norm(b: Seq<char>)
    requires
        is_number_body(b),
    ensures
        all_digits(mant_digits(b)),
        mant_digits(b).len() == int_len(b) + frac_len(b),
        number_mag(b) is Zero <==> digits_value(mant_digits(b)) == 0,
        number_mag(b) matches Mag::Fin { point, sig } ==> {
            &&& normal_sig(sig)
            &&& point - sig.len() >= exp_value(b) - frac_len(b)
            &&& digits_value(mant_digits(b)) == digits_value(sig) * pow10(
                (point - sig.len() - (exp_value(b) - frac_len(b))) as nat,
            )
        },
{
    let il = int_len(b);
    lemma_digit_run_bound(b, 0);
    if has_point(b) {
        lemma_digit_run_bound(b, il + 1);
    }
    let all = mant_digits(b);
    assert(all_digits(all)) by {
        assert forall|i: int| 0 <= i < all.len() implies is_digit(#[trigger] all[i]) by {
            if i < il {
                assert(all[i] == b[i]);
            } else {
                assert(all[i] == b[i + 1]);
            }
        }
    }
    lemma_dv_lead(all);
    let z = lead_zeros(all);
    let x = all.skip(z as int);
    if z == all.len() {
        assert(x =~= Seq::<char>::empty());
    } else {
        assert(all_digits(x)) by {
            assert forall|i: int| 0 <= i < x.len() implies is_digit(#[trigger] x[i]) by {
                assert(x[i] == all[i + z]);
            }
        }
        assert(x[0] != '0');
        assert(is_digit(x[0]));
        lemma_dv_first(x);
        lemma_pow10_pos((x.len() - 1) as nat);
        let d0 = digit_val(x[0]);
        let p0 = pow10((x.len() - 1) as nat);
        assert(d0 * p0 >= 1) by (nonlinear_arith)
            requires
                d0 >= 1,
                p0 >= 1,
        ;
        lemma_dv_strip(x);
        let sg = strip_trailing_zeros(x);
        if sg.len() == 0 {
            lemma_zero_mul(digits_value(sg), pow10((x.len() - sg.len()) as nat));
            assert(false);
        }
        assert(sg[0] == x[0]);
        assert(all_digits(sg)) by {
            assert forall|i: int| 0 <= i < sg.len() implies is_digit(#[trigger] sg[i]) by {
                assert(sg[i] == x[i]);
            }
        }
        assert(normal_sig(sg));
    }
}

/// Whether a price text writes a finite number (neither `inf` nor `nan`).
pub open spec fn is_finite_px(t: Seq<char>) -> bool {
    is_px_text(t) && is_number_body(body(t))
}

/// The exponent of the unit of the last mantissa digit of a finite number
/// text, which writes its mantissa digits, read as an integer, times ten to
/// this power (the exponent being read as written, up to `EXP_CAP`).
pub open spec fn value_exp(t: Seq<char>) -> int {
    exp_value(body(t)) - frac_len(body(t))
}

/// The value that a finite number text writes, counted in units of `10^e`
/// (`e` at most its `value_exp`): its mantissa digits read as an integer,
/// times `10^(value_exp - e)`, negative after a `-`.
pub open spec fn value_in_units(t: Seq<char>, e: int) -> int {
    let v = digits_value(mant_digits(body(t))) * pow10((value_exp(t) - e) as nat);
    if is_neg(t) {
        -(v as int)
    } else {
        v as int
    }
}

proof fn lemma_units(t: Seq<char>, e: int)
    requires
        is_finite_px(t),
        e <= value_exp(t),
    ensures
        px_model(t) == (PxModel::Val { neg: is_neg(t), mag: number_mag(body(t)) }),
        ({
            let u = digits_value(mant_digits(body(t))) * pow10((value_exp(t) - e) as nat);
            &&& (number_mag(body(t)) is Zero <==> u == 0)
            &&& number_mag(body(t)) matches Mag::Fin { point, sig } ==> normal_sig(sig) && e <= point
                - sig.len() && u == digits_value(sig) * pow10((point - sig.len() - e) as nat)
            &&& value_in_units(t, e) == if is_neg(t) {
                -(u as int)
            } else {
                u as int
            }
        }),
{
    let b = body(t);
    if b.len() > 0 && !is_digit(b[0]) {
        assert(digit_run(b, 0) == 0);
    }
    assert(!is_nan_word(b));
    assert(!is_inf_word(b));
    lemma_number_norm(b);
    let m = digits_value(mant_digits(b));
    let k = (value_exp(t) - e) as nat;
    lemma_pow10_pos(k);
    let u = m * pow10(k);
    if m == 0 {
        lemma_zero_mul(m, pow10(k));
    } else {
        assert(u >= 1) by (nonlinear_arith)
            requires
                m >= 1,
                pow10(k) >= 1,
                u == m * pow10(k),
        ;
    }
    match number_mag(b) {
        Mag::Fin { point, sig } => {
            let tt = (point - sig.len() - value_exp(t)) as nat;
            lemma_pow10_add(tt, k);
            assert(tt + k == (point - sig.len() - e) as nat);
            let ds = digits_value(sig);
            assert((ds * pow10(tt)) * pow10(k) == ds * (pow10(tt) * pow10(k))) by (nonlinear_arith);
        },
        _ => {},
    }
}

/// The order of finite price texts is the order of the values they write:
/// counted in units of the smaller of their two last-digit units, the value
/// of `a` is below, equal to or above that of `b` as the order is -1, 0 or 1.
pub proof fn law_px_order_is_value_order(a: Seq<char>, b: Seq<char>)
    requires
        is_finite_px(a),
        is_finite_px(b),
    ensures
        ({
            let e = if value_exp(a) < value_exp(b) {
                value_exp(a)
            } else {
                value_exp(b)
            };
            px_text_order(a, b) == order_of_ints(value_in_units(a, e), value_in_units(b, e))
        }),
{
    let e = if value_exp(a) < value_exp(b) {
        value_exp(a)
    } else {
        value_exp(b)
    };
    lemma_units(a, e);
    lemma_units(b, e);
    match (number_mag(body(a)), number_mag(body(b))) {
        (Mag::Fin { point: pa, sig: sa }, Mag::Fin { point: pb, sig: sb }) => {
            lemma_fin_order(pa, sa, pb, sb, e);
            lemma_fin_order(pb, sb, pa, sa, e);
        },
        _ => {},
    }
}

/// Whether `t` is written as the sign `s`, the digits `d1`, a point when
/// `point` (else nothing), the digits `d2` and the exponent `e`, with one digit
/// at least before the exponent and, without a point, before it.
pub open spec fn number_form(
    t: Seq<char>,
    s: Seq<char>,
    d1: Seq<char>,
    point: bool,
    d2: Seq<char>,
    e: Seq<char>,
) -> bool {
    &&& is_sign_part(s)
    &&& all_digits(d1)
    &&& all_digits(d2)
    &&& is_exp_part(e)
    &&& if point {
        d1.len() + d2.len() >= 1 && t == s + d1 + seq!['.'] + d2 + e
    } else {
        d1.len() >= 1 && d2.len() == 0 && t == s + d1 + e
    }
}

proof fn lemma_exp_form(b: Seq<char>)
    requires
        is_number_body(b),
    ensures
        is_exp_part(b.skip(mant_end(b))),
{
    let m = mant_end(b);
    let e = b.skip(m);
    if m < b.len() {
        let es = exp_start(b);
        lemma_digit_run_bound(b, es);
        let sg = b.subrange(m + 1, es);
        let dd = b.skip(es);
        assert(is_sign_part(sg)) by {
            if es == m + 2 {
                assert(sg =~= seq![b[m + 1]]);
            } else {
                assert(sg =~= Seq::<char>::empty());
            }
        }
        assert(all_digits(dd)) by {
            assert forall|i: int| 0 <= i < dd.len() implies is_digit(#[trigger] dd[i]) by {
                assert(dd[i] == b[i + es]);
            }
        }
        assert(seq![e[0]] + sg + dd =~= e);
    } else {
        assert(e =~= Seq::<char>::empty());
    }
}

#[verifier::rlimit(30)]
proof fn lemma_body_form(b: Seq<char>)
    requires
        is_number_body(b),
    ensures
        all_digits(b.take(int_len(b))),
        is_exp_part(b.skip(mant_end(b))),
        has_point(b) ==> {
            let d2 = b.subrange(int_len(b) + 1, mant_end(b));
            &&& all_digits(d2)
            &&& int_len(b) + d2.len() >= 1
            &&& b == b.take(int_len(b)) + seq!['.'] + d2 + b.skip(mant_end(b))
        },
        !has_point(b) ==> int_len(b) >= 1 && b == b.take(int_len(b)) + b.skip(mant_end(b)),
{
    let il = int_len(b);
    lemma_digit_run_bound(b, 0);
    let d1 = b.take(il);
    assert(all_digits(d1)) by {
        assert forall|i: int| 0 <= i < d1.len() implies is_digit(#[trigger] d1[i]) by {
            assert(d1[i] == b[i]);
        }
    }
    let m = mant_end(b);
    let e = b.skip(m);
    lemma_exp_form(b);
    if has_point(b) {
        lemma_digit_run_bound(b, il + 1);
        let d2 = b.subrange(il + 1, m);
        assert(all_digits(d2)) by {
            assert forall|i: int| 0 <= i < d2.len() implies is_digit(#[trigger] d2[i]) by {
                assert(d2[i] == b[i + il + 1]);
            }
        }
        assert(b =~= d1 + seq!['.'] + d2 + e);
    } else {
        assert(b =~= d1 + e);
    }
}

/// Every price text is in the grammar: after its sign, a word for infinity or
/// not-a-number, or digits, a point and digits (one digit at least on either
/// side), or digits alone, then an exponent.
#[verifier::rlimit(30)]
pub proof fn law_px_texts_are_in_the_grammar(t: Seq<char>)
    requires
        is_px_text(t),
    ensures
        is_nan_word(body(t)) || is_inf_word(body(t)) || exists|
            s: Seq<char>,
            d1: Seq<char>,
            point: bool,
            d2: Seq<char>,
            e: Seq<char>,
        |
            #[trigger] number_form(t, s, d1, point, d2, e),
{
    let b = body(t);
    if !is_nan_word(b) && !is_inf_word(b) {
        let sl = sign_len(t);
        let s = t.take(sl);
        assert(is_sign_part(s)) by {
            if sl == 1 {
                assert(s =~= seq![t[0]]);
            } else {
                assert(s =~= Seq::<char>::empty());
            }
        }
        assert(t =~= s + b);
        lemma_body_form(b);
        let d1 = b.take(int_len(b));
        let e = b.skip(mant_end(b));
        if has_point(b) {
            let d2 = b.subrange(int_len(b) + 1, mant_end(b));
            assert(s + d1 + seq!['.'] + d2 + e =~= s + (d1 + seq!['.'] + d2 + e));
            assert(number_form(t, s, d1, true, d2, e));
        } else {
            let d2 = Seq::<char>::empty();
            assert(s + d1 + e =~= s + (d1 + e));
            assert(number_form(t, s, d1, false, d2, e));
        }
    }
}

/// Infinity is above every finite price and minus infinity below it.
pub proof fn law_infinity_is_beyond_every_number(a: Seq<char>, b: Seq<char>)
    requires
        is_finite_px(a),
        is_px_text(b),
        is_inf_word(body(b)),
    ensures
        px_text_order(a, b) == if is_neg(b) {
            1int
        } else {
            -1int
        },
        px_text_order(b, a) == -px_text_order(a, b),
{
    lemma_units(a, value_exp(a));
    let bb = body(b);
    assert(!is_nan_word(bb));
}

} // verus!
