use vstd::prelude::*;
use crate::text::{digits_of, push_char, push_digits, repeat_char};

verus! {

/// A decimal number: `units / 10^scale`, negative where `negative` is set (which also keeps
/// the sign of a negative zero).
#[derive(Clone, Copy, PartialEq, Eq, Structural, Debug)]
pub struct Decimal {
    pub negative: bool,
    pub units: u128,
    pub scale: usize,
}

/// The largest count of units that decimal text is read into, exclusive.
pub open spec fn units_cap() -> nat {
    1000000000000000000000000000000
}

/// Ten to the power `n`.
pub open spec fn pow10(n: nat) -> nat
    decreases n,
{
    if n == 0 {
        1
    } else {
        10 * pow10((n - 1) as nat)
    }
}

pub open spec fn is_digit(c: char) -> bool {
    '0' <= c <= '9'
}

pub open spec fn all_digits(s: Seq<char>) -> bool {
    forall|i: int| 0 <= i < s.len() ==> is_digit(#[trigger] s[i])
}

/// The number that a string of decimal digits writes.
pub open spec fn digits_value(s: Seq<char>) -> nat
    decreases s.len(),
{
    if s.len() == 0 {
        0
    } else {
        digits_value(s.drop_last()) * 10 + ((s.last() as int) - ('0' as int)) as nat
    }
}

/// Decimal text: an optional minus sign, the whole digits, and a point and the fraction
/// digits where there are any.
pub open spec fn decimal_text(negative: bool, whole: Seq<char>, frac: Seq<char>) -> Seq<char> {
    (if negative {
        seq!['-']
    } else {
        Seq::empty()
    }) + whole + (if frac.len() == 0 {
        Seq::empty()
    } else {
        seq!['.'] + frac
    })
}

/// `text` writes the decimal `d`.
pub open spec fn reads_as(text: Seq<char>, d: Decimal) -> bool {
    exists|whole: Seq<char>, frac: Seq<char>|
        whole.len() > 0 && all_digits(whole) && all_digits(frac) && #[trigger] decimal_text(
            d.negative,
            whole,
            frac,
        ) == text && d.units == digits_value(whole + frac) && d.scale == frac.len()
}

pub proof fn lemma_pow10_positive(n: nat)
    ensures
        pow10(n) >= 1,
    decreases n,
{
    if n > 0 {
        lemma_pow10_positive((n - 1) as nat);
    }
}

pub proof fn lemma_pow10_monotonic(a: nat, b: nat)
    requires
        a <= b,
    ensures
        pow10(a) <= pow10(b),
    decreases b,
{
    if a < b {
        lemma_pow10_monotonic(a, (b - 1) as nat);
        lemma_pow10_positive((b - 1) as nat);
    }
}

proof fn lemma_digits_value_prefix(s: Seq<char>, k: int)
    requires
        0 <= k <= s.len(),
        all_digits(s),
    ensures
        digits_value(s.take(k)) <= digits_value(s),
    decreases s.len(),
{
    if k < s.len() {
        assert(s.drop_last().take(k) =~= s.take(k));
        assert(all_digits(s.drop_last())) by {
            assert forall|i: int| 0 <= i < s.drop_last().len() implies is_digit(#[trigger] s.drop_last()[i]) by {
                assert(s.drop_last()[i] == s[i]);
            }
        }
        lemma_digits_value_prefix(s.drop_last(), k);
    } else {
        assert(s.take(k) =~= s);
    }
}

/// Reads the digits of `text` in `[from, to)` into `units`, failing where the value reaches
/// the cap.
fn read_digits(text: &str, from: usize, to: usize, units: u128) -> (r: Option<u128>)
    requires
        from <= to <= text@.len(),
        all_digits(text@.subrange(from as int, to as int)),
        units < units_cap(),
    ensures
        r matches Some(u) ==> u == units * pow10((to - from) as nat) + digits_value(
            text@.subrange(from as int, to as int),
        ) && u < units_cap(),
        r is None ==> units * pow10((to - from) as nat) + digits_value(
            text@.subrange(from as int, to as int),
        ) >= units_cap(),
{
    let ghost s = text@.subrange(from as int, to as int);
    let mut u = units;
    let mut i = from;
    assert(pow10(0) == 1);
    assert(s.take(0) =~= Seq::<char>::empty());
    assert(digits_value(s.take(0)) == 0);
    assert(units * pow10(0) == units);
    while i < to
        invariant
            from <= i <= to <= text@.len(),
            s == text@.subrange(from as int, to as int),
            all_digits(s),
            u < units_cap(),
            u == units * pow10((i - from) as nat) + digits_value(s.take(i - from)),
        decreases to - i,
    {
        let c = text.get_char(i);
        assert(s[i - from] == c);
        assert(is_digit(c));
        let d = (c as u32 - '0' as u32) as u128;
        proof {
            assert(s.take(i - from + 1).drop_last() =~= s.take(i - from));
            assert(units * pow10((i + 1 - from) as nat) == units * pow10((i - from) as nat) * 10) by (nonlinear_arith)
                requires pow10((i + 1 - from) as nat) == 10 * pow10((i - from) as nat);
        }
        if u >= 100000000000000000000000000000 || u * 10 + d >= 1000000000000000000000000000000 {
            proof {
                let next = units * pow10((i + 1 - from) as nat) + digits_value(s.take(i + 1 - from));
                assert(next == u * 10 + d);
                lemma_digits_value_prefix(s, i + 1 - from);
                assert(s.take(to - from) =~= s);
                lemma_pow10_monotonic((i + 1 - from) as nat, (to - from) as nat);
                assert(units * pow10((i + 1 - from) as nat) <= units * pow10((to - from) as nat)) by (nonlinear_arith)
                    requires pow10((i + 1 - from) as nat) <= pow10((to - from) as nat);
            }
            return None;
        }
        u = u * 10 + d;
        i = i + 1;
    }
    assert(s.take(to - from) =~= s);
    Some(u)
}

/// A decimal text splits in one way only: its sign, its whole digits up to the first
/// character that is no digit, then a point and the fraction digits up to the end.
proof fn lemma_decimal_split(text: Seq<char>, negative: bool, whole: Seq<char>, frac: Seq<char>, start: int, whole_end: int)
    requires
        decimal_text(negative, whole, frac) == text,
        whole.len() > 0,
        all_digits(whole),
        all_digits(frac),
        start == (if text.len() > 0 && text[0] == '-' { 1int } else { 0int }),
        start <= whole_end <= text.len(),
        all_digits(text.subrange(start, whole_end)),
        whole_end == text.len() || !is_digit(text[whole_end]),
    ensures
        negative == (start == 1),
        whole == text.subrange(start, whole_end),
        frac.len() == 0 <==> whole_end == text.len(),
        frac.len() > 0 ==> text[whole_end] == '.' && frac == text.subrange(whole_end + 1, text.len() as int),
{
    let sg: Seq<char> = if negative { seq!['-'] } else { Seq::empty() };
    let tail: Seq<char> = if frac.len() == 0 { Seq::empty() } else { seq!['.'] + frac };
    assert(text =~= sg + whole + tail);
    if negative {
        assert(text[0] == '-');
    } else {
        assert(text[0] == whole[0]);
        assert(is_digit(whole[0]));
    }
    let p = start + whole.len();
    assert forall|k: int| start <= k < p implies text[k] == whole[k - start] by {}
    if whole_end < p {
        assert(is_digit(whole[whole_end - start]));
        assert(text[whole_end] == whole[whole_end - start]);
    }
    if whole_end > p {
        assert(text.subrange(start, whole_end)[p - start] == text[p]);
        assert(is_digit(text[p]));
        if frac.len() > 0 {
            assert(text[p] == '.');
        }
    }
    assert(whole_end == p);
    assert(whole =~= text.subrange(start, whole_end));
    if frac.len() > 0 {
        assert(text[p] == '.');
        assert(frac =~= text.subrange(whole_end + 1, text.len() as int));
    }
}

/// The end of the run of digits of `text` that starts at `from`.
fn digit_run_end(text: &str, from: usize) -> (end: usize)
    requires
        from <= text@.len(),
    ensures
        from <= end <= text@.len(),
        all_digits(text@.subrange(from as int, end as int)),
        end == text@.len() || !is_digit(text@[end as int]),
{
    let n = text.unicode_len();
    let mut i = from;
    while i < n && '0' <= text.get_char(i) && text.get_char(i) <= '9'
        invariant
            n == text@.len(),
            from <= i <= n,
            all_digits(text@.subrange(from as int, i as int)),
        decreases n - i,
    {
        assert(text@.subrange(from as int, i + 1) =~= text@.subrange(from as int, i as int).push(text@[i as int]));
        i = i + 1;
    }
    i
}

/// What any reading of `text` must be, given where its digit runs end.
proof fn lemma_readings(text: Seq<char>, start: int, whole_end: int, has_point: bool, j: int)
    requires
        start == (if text.len() > 0 && text[0] == '-' { 1int } else { 0int }),
        start <= whole_end <= text.len(),
        all_digits(text.subrange(start, whole_end)),
        whole_end == text.len() || !is_digit(text[whole_end]),
        has_point == (whole_end < text.len() && text[whole_end] == '.'),
        has_point ==> whole_end + 1 <= j <= text.len() && all_digits(text.subrange(whole_end + 1, j))
            && (j == text.len() || !is_digit(text[j])),
    ensures
        forall|d: Decimal| #[trigger] reads_as(text, d) ==> {
            &&& whole_end > start
            &&& if has_point { j == text.len() && j > whole_end + 1 } else { whole_end == text.len() }
            &&& d.negative == (start == 1)
            &&& d.units == digits_value(text.subrange(start, whole_end) + (if has_point {
                text.subrange(whole_end + 1, j)
            } else {
                Seq::empty()
            }))
            &&& d.scale == (if has_point { j - (whole_end + 1) } else { 0 })
        },
{
    assert forall|d: Decimal| #[trigger] reads_as(text, d) implies {
        &&& whole_end > start
        &&& if has_point { j == text.len() && j > whole_end + 1 } else { whole_end == text.len() }
        &&& d.negative == (start == 1)
        &&& d.units == digits_value(text.subrange(start, whole_end) + (if has_point {
            text.subrange(whole_end + 1, j)
        } else {
            Seq::empty()
        }))
        &&& d.scale == (if has_point { j - (whole_end + 1) } else { 0 })
    } by {
        let (w, f) = choose|w: Seq<char>, f: Seq<char>|
            w.len() > 0 && all_digits(w) && all_digits(f) && #[trigger] decimal_text(d.negative, w, f) == text
                && d.units == digits_value(w + f) && d.scale == f.len();
        lemma_decimal_split(text, d.negative, w, f, start, whole_end);
        if f.len() > 0 {
            let fs = whole_end + 1;
            assert forall|k: int| fs <= k < text.len() implies text[k] == f[k - fs] by {}
            if j < text.len() {
                assert(is_digit(f[j - fs]));
            }
            assert(text.subrange(fs, text.len() as int)[0] == text[fs]);
            assert(f =~= text.subrange(fs, j));
        } else {
            assert(f =~= Seq::<char>::empty());
        }
    }
}

/// Reads decimal text of the form `-?[0-9]+(\.[0-9]+)?` whose digits, taken as one number,
/// stay below the cap; anything else reads as nothing.
pub fn parse_decimal(text: &str) -> (r: Option<Decimal>)
    ensures
        r matches Some(d) ==> reads_as(text@, d) && d.units < units_cap(),
        r is None ==> forall|d: Decimal| d.units < units_cap() ==> !reads_as(text@, d),
{
    let n = text.unicode_len();
    let negative = n > 0 && text.get_char(0) == '-';
    let start: usize = if negative {
        1
    } else {
        0
    };
    let whole_end = digit_run_end(text, start);
    let has_point = whole_end < n && text.get_char(whole_end) == '.';
    let frac_start = if has_point {
        whole_end + 1
    } else {
        whole_end
    };
    let j = if has_point {
        digit_run_end(text, frac_start)
    } else {
        whole_end
    };
    let ghost whole = text@.subrange(start as int, whole_end as int);
    let ghost frac: Seq<char> = if has_point { text@.subrange(frac_start as int, j as int) } else { Seq::empty() };
    proof {
        lemma_readings(text@, start as int, whole_end as int, has_point, j as int);
    }
    let well_formed = whole_end > start && (if has_point { j == n && j > frac_start } else { whole_end == n });
    if !well_formed {
        return None;
    }
    let from_whole = read_digits(text, start, whole_end, 0);
    let read = match from_whole {
        Some(u) => if has_point {
            read_digits(text, frac_start, j, u)
        } else {
            Some(u)
        },
        None => None,
    };
    proof {
        lemma_digits_concat(whole, frac);
        assert(frac.len() == 0 ==> whole + frac =~= whole);
        if from_whole is None {
            lemma_digits_value_prefix(whole + frac, whole.len() as int);
            assert((whole + frac).take(whole.len() as int) =~= whole);
            lemma_pow10_positive(frac.len());
            assert(digits_value(whole) * pow10(frac.len()) >= digits_value(whole)) by (nonlinear_arith)
                requires pow10(frac.len()) >= 1;
        }
        if !has_point {
            assert(pow10(0) == 1);
        }
    }
    match read {
        Some(units) => {
            let scale: usize = j - frac_start;
            let d = Decimal { negative, units, scale };
            proof {
                let tail: Seq<char> = if frac.len() == 0 { Seq::empty() } else { seq!['.'] + frac };
                let sg: Seq<char> = if negative { seq!['-'] } else { Seq::empty() };
                if negative {
                    assert(text@[0] == '-');
                }
                if has_point {
                    assert(text@ =~= sg + whole + tail);
                } else {
                    assert(text@ =~= sg + whole + tail);
                }
                assert(decimal_text(d.negative, whole, frac) == text@);
                assert(all_digits(frac));
                assert(whole.len() > 0);
                assert(d.units == digits_value(whole + frac));
                assert(d.scale == frac.len());
            }
            Some(d)
        },
        None => None,
    }
}

proof fn lemma_digits_concat(a: Seq<char>, b: Seq<char>)
    ensures
        digits_value(a + b) == digits_value(a) * pow10(b.len()) + digits_value(b),
    decreases b.len(),
{
    if b.len() == 0 {
        assert(a + b =~= a);
        assert(pow10(0) == 1);
        assert(digits_value(b) == 0);
        assert(digits_value(a) * 1 == digits_value(a));
    } else {
        assert((a + b).drop_last() =~= a + b.drop_last());
        assert((a + b).last() == b.last());
        assert(digits_value(a + b) == digits_value((a + b).drop_last()) * 10 + ((b.last() as int) - ('0' as int)) as nat);
        assert(digits_value(b) == digits_value(b.drop_last()) * 10 + ((b.last() as int) - ('0' as int)) as nat);
        lemma_digits_concat(a, b.drop_last());
        let p = pow10((b.len() - 1) as nat);
        assert((digits_value(a) * p + digits_value(b.drop_last())) * 10 == digits_value(a) * p * 10
            + digits_value(b.drop_last()) * 10) by (nonlinear_arith);
        assert(digits_value(a) * p * 10 == digits_value(a) * (10 * p)) by (nonlinear_arith);
        assert(pow10(b.len()) == 10 * p);
        assert(digits_value(a) * pow10(b.len()) == digits_value(a) * pow10((b.len() - 1) as nat) * 10)
            by (nonlinear_arith)
            requires pow10(b.len()) == 10 * pow10((b.len() - 1) as nat);
    }
}

/// The decimal that `text` writes, if any (there is at most one).
pub open spec fn decimal_of(text: Seq<char>) -> Option<Decimal> {
    if exists|d: Decimal| d.units < units_cap() && #[trigger] reads_as(text, d) {
        Some(choose|d: Decimal| d.units < units_cap() && #[trigger] reads_as(text, d))
    } else {
        None
    }
}

/// Reads decimal text; the result is the one decimal the text writes, if any.
pub fn read_decimal(text: &str) -> (r: Option<Decimal>)
    ensures
        r == decimal_of(text@),
{
    let r = parse_decimal(text);
    proof {
        match r {
            Some(d) => {
                let d2 = choose|d2: Decimal| d2.units < units_cap() && #[trigger] reads_as(text@, d2);
                lemma_reading_unique(text@, d, d2);
            },
            None => {},
        }
    }
    r
}

proof fn lemma_reading_unique(text: Seq<char>, d1: Decimal, d2: Decimal)
    requires
        reads_as(text, d1),
        reads_as(text, d2),
    ensures
        d1 == d2,
{
    let (w1, f1) = choose|w: Seq<char>, f: Seq<char>|
        w.len() > 0 && all_digits(w) && all_digits(f) && #[trigger] decimal_text(d1.negative, w, f) == text
            && d1.units == digits_value(w + f) && d1.scale == f.len();
    let (w2, f2) = choose|w: Seq<char>, f: Seq<char>|
        w.len() > 0 && all_digits(w) && all_digits(f) && #[trigger] decimal_text(d2.negative, w, f) == text
            && d2.units == digits_value(w + f) && d2.scale == f.len();
    let start: int = if text.len() > 0 && text[0] == '-' { 1 } else { 0 };
    let e = start + w1.len();
    // The whole digits of the first reading end where a digit run from the start ends.
    lemma_decimal_text_shape(text, d1.negative, w1, f1);
    assert(start == (if d1.negative { 1int } else { 0int }));
    assert(text.subrange(start, e) =~= w1);
    lemma_decimal_split(text, d1.negative, w1, f1, start, e);
    lemma_decimal_split(text, d2.negative, w2, f2, start, e);
    assert(w1 == w2);
    assert(f1 == f2);
}

proof fn lemma_decimal_text_shape(text: Seq<char>, negative: bool, w: Seq<char>, f: Seq<char>)
    requires
        decimal_text(negative, w, f) == text,
        w.len() > 0,
        all_digits(w),
    ensures
        negative == (text.len() > 0 && text[0] == '-'),
        ({
            let start: int = if negative { 1 } else { 0 };
            &&& start + w.len() <= text.len()
            &&& text.subrange(start, start + w.len()) == w
            &&& start + w.len() == text.len() || !is_digit(text[start + w.len()])
        }),
{
    let sg: Seq<char> = if negative { seq!['-'] } else { Seq::empty() };
    let tail: Seq<char> = if f.len() == 0 { Seq::empty() } else { seq!['.'] + f };
    assert(text =~= sg + w + tail);
    if !negative {
        assert(text[0] == w[0]);
        assert(is_digit(w[0]));
    }
    let start: int = if negative { 1 } else { 0 };
    assert(text.subrange(start, start + w.len()) =~= w);
    if f.len() > 0 {
        assert(text[start + w.len()] == '.');
    }
}

/// The decimal a hundred times as large.
pub open spec fn hundredfold(d: Decimal) -> Decimal {
    if d.scale >= 2 {
        Decimal { scale: (d.scale - 2) as usize, ..d }
    } else {
        Decimal { units: (d.units * pow10((2 - d.scale) as nat)) as u128, scale: 0, ..d }
    }
}

/// The decimal as a count of `10^-places`, rounded to nearest with ties to even.
pub open spec fn rounded_units(d: Decimal, places: nat) -> nat {
    let u = d.units as nat;
    if d.scale <= places {
        u * pow10((places - d.scale) as nat)
    } else {
        let k = pow10((d.scale - places) as nat);
        let q = u / k;
        let r = u % k;
        if 2 * r > k || (2 * r == k && q % 2 == 1) {
            (q + 1) as nat
        } else {
            q
        }
    }
}

/// Digits padded with leading zeros to `width`.
pub open spec fn zero_padded(s: Seq<char>, width: nat) -> Seq<char> {
    if s.len() >= width {
        s
    } else {
        repeat_char('0', (width - s.len()) as nat) + s
    }
}

/// The decimal written with exactly `places` decimals, rounded to nearest with ties to even;
/// a negative number keeps its sign even where it rounds to zero.
pub open spec fn fixed_text(d: Decimal, places: nat) -> Seq<char> {
    let n = rounded_units(d, places);
    let k = pow10(places);
    (if d.negative {
        seq!['-']
    } else {
        Seq::empty()
    }) + digits_of(n / k) + seq!['.'] + zero_padded(digits_of(n % k), places)
}

/// Powers of ten multiply by adding exponents.
pub proof fn lemma_pow10_add(a: nat, b: nat)
    ensures
        pow10(a + b) == pow10(a) * pow10(b),
    decreases a,
{
    if a > 0 {
        let a1 = (a - 1) as nat;
        lemma_pow10_add(a1, b);
        assert((a + b) as nat - 1 == a1 + b);
        assert(pow10(a + b) == 10 * pow10(a1 + b));
        assert(pow10(a) == 10 * pow10(a1));
        assert(10 * (pow10(a1) * pow10(b)) == (10 * pow10(a1)) * pow10(b)) by (nonlinear_arith);
    } else {
        assert(pow10(0) == 1);
        assert(a + b == b);
    }
}

/// Numbers written as integers with one common number of decimals compare as the numbers
/// do: `xa / 10^sa >= xb / 10^sb` exactly where `xa * 10^sb >= xb * 10^sa`.
pub proof fn lemma_common_scale_compare(xa: int, sa: nat, xb: int, sb: nat, m: nat)
    requires
        sa <= m,
        sb <= m,
    ensures
        (xa * pow10((m - sa) as nat) >= xb * pow10((m - sb) as nat)) <==> (xa * pow10(sb) >= xb * pow10(sa)),
{
    let pa = pow10((m - sa) as nat);
    let pb = pow10((m - sb) as nat);
    let ea = pow10(sa);
    let eb = pow10(sb);
    let big = pow10(m);
    lemma_pow10_add((m - sa) as nat, sa);
    lemma_pow10_add((m - sb) as nat, sb);
    assert((m - sa) as nat + sa == m);
    assert((m - sb) as nat + sb == m);
    lemma_pow10_positive(sa);
    lemma_pow10_positive(sb);
    lemma_pow10_positive(m);
    let ka = xa * pa;
    let kb = xb * pb;
    assert(ka * (ea * eb) == xa * eb * big) by (nonlinear_arith)
        requires ka == xa * pa, pa * ea == big;
    assert(kb * (ea * eb) == xb * ea * big) by (nonlinear_arith)
        requires kb == xb * pb, pb * eb == big;
    assert(ea * eb > 0) by (nonlinear_arith)
        requires ea >= 1, eb >= 1;
    assert((ka >= kb) <==> (ka * (ea * eb) >= kb * (ea * eb))) by (nonlinear_arith)
        requires ea * eb > 0;
    assert((xa * eb * big >= xb * ea * big) <==> (xa * eb >= xb * ea)) by (nonlinear_arith)
        requires big > 0;
}

proof fn lemma_pow10_values()
    ensures
        pow10(2) == 100,
        pow10(4) == 10000,
        pow10(37) == 10000000000000000000000000000000000000,
        pow10(38) == 100000000000000000000000000000000000000,
{
    reveal_with_fuel(pow10, 39);
}

/// Ten to the power `n`.
pub fn pow10_exec(n: usize) -> (r: u128)
    requires
        n <= 38,
    ensures
        r == pow10(n as nat),
{
    let mut r: u128 = 1;
    let mut i: usize = 0;
    proof {
        lemma_pow10_monotonic(0, 38);
    }
    while i < n
        invariant
            i <= n <= 38,
            r == pow10(i as nat),
            r <= pow10(38),
        decreases n - i,
    {
        proof {
            lemma_pow10_monotonic((i + 1) as nat, 38);
            lemma_pow10_values();
        }
        r = r * 10;
        i = i + 1;
    }
    r
}

/// The decimal a hundred times as large.
pub fn times_hundred(d: Decimal) -> (r: Decimal)
    requires
        d.units < units_cap(),
    ensures
        r == hundredfold(d),
        r.units < 100 * units_cap(),
{
    if d.scale >= 2 {
        Decimal { scale: d.scale - 2, ..d }
    } else {
        let k = pow10_exec(2 - d.scale);
        proof {
            lemma_pow10_monotonic((2 - d.scale) as nat, 2);
            lemma_pow10_values();
            assert(d.units * k <= d.units * 100) by (nonlinear_arith)
                requires k <= 100;
        }
        Decimal { units: d.units * k, scale: 0, ..d }
    }
}

fn scaled_up(d: Decimal, places: usize) -> (n: u128)
    requires
        d.units < 100 * units_cap(),
        d.scale <= places <= 4,
    ensures
        n == rounded_units(d, places as nat),
        n < pow10(37),
{
    let k = pow10_exec(places - d.scale);
    proof {
        lemma_pow10_monotonic((places - d.scale) as nat, 4);
        lemma_pow10_values();
        assert(d.units * k <= d.units * 10000) by (nonlinear_arith)
            requires k <= 10000;
    }
    d.units * k
}

fn rounded_down(d: Decimal, places: usize) -> (n: u128)
    requires
        d.units < 100 * units_cap(),
        places < d.scale,
    ensures
        n == rounded_units(d, places as nat),
        n < pow10(37),
{
    let shift = d.scale - places;
    proof {
        lemma_pow10_values();
    }
    if shift > 38 {
        proof {
            let k = pow10(shift as nat);
            lemma_pow10_monotonic(38, shift as nat);
            let u = d.units as nat;
            assert(u / k == 0) by (nonlinear_arith)
                requires u < k, k > 0;
            assert(u % k == u) by (nonlinear_arith)
                requires u < k, k > 0;
        }
        0
    } else {
        let k = pow10_exec(shift);
        proof {
            lemma_pow10_positive(shift as nat);
        }
        let q = d.units / k;
        let r = d.units % k;
        proof {
            assert(q <= d.units) by (nonlinear_arith)
                requires q == d.units / k, k >= 1;
            assert(r < k) by (nonlinear_arith)
                requires r == d.units % k, k >= 1;
            lemma_pow10_monotonic(shift as nat, 38);
        }
        if 2 * r > k || (2 * r == k && q % 2 == 1) {
            q + 1
        } else {
            q
        }
    }
}

/// The decimal as a count of `10^-places`, rounded to nearest with ties to even.
fn round_units(d: Decimal, places: usize) -> (n: u128)
    requires
        d.units < 100 * units_cap(),
        places <= 4,
    ensures
        n == rounded_units(d, places as nat),
        n < pow10(37),
{
    if d.scale <= places {
        scaled_up(d, places)
    } else {
        rounded_down(d, places)
    }
}

/// Appends digits padded with leading zeros to `width`.
fn push_zero_padded(out: &mut String, n: u128, width: usize)
    ensures
        final(out)@ == old(out)@ + zero_padded(digits_of(n as nat), width as nat),
{
    let mut digits = String::new();
    push_digits(&mut digits, n);
    let len = digits.as_str().unicode_len();
    if len < width {
        crate::text::push_repeated(out, '0', width - len);
    }
    crate::text::push_text(out, digits.as_str());
    assert(out@ =~= old(out)@ + zero_padded(digits_of(n as nat), width as nat));
}

/// The decimal written with exactly `places` decimals.
pub fn fixed(d: Decimal, places: usize) -> (r: String)
    requires
        d.units < 100 * units_cap(),
        1 <= places <= 4,
    ensures
        r@ == fixed_text(d, places as nat),
{
    let n = round_units(d, places);
    let k = pow10_exec(places);
    proof {
        lemma_pow10_positive(places as nat);
    }
    let mut r = String::new();
    if d.negative {
        push_char(&mut r, '-');
    }
    push_digits(&mut r, n / k);
    push_char(&mut r, '.');
    push_zero_padded(&mut r, n % k, places);
    assert(r@ =~= fixed_text(d, places as nat));
    r
}

/// `text` is decimal text with the sign `negative`, the whole digits `whole` and the fraction
/// digits `frac`, of any length.
pub open spec fn splits_as(text: Seq<char>, negative: bool, whole: Seq<char>, frac: Seq<char>) -> bool {
    whole.len() > 0 && all_digits(whole) && all_digits(frac) && decimal_text(negative, whole, frac) == text
}

/// The sign and digits that decimal text is written with, if it is decimal text (there is at
/// most one way).
pub open spec fn numeral_of(text: Seq<char>) -> Option<(bool, Seq<char>, Seq<char>)> {
    if exists|n: bool, w: Seq<char>, f: Seq<char>| #[trigger] splits_as(text, n, w, f) {
        Some(choose|n: bool, w: Seq<char>, f: Seq<char>| #[trigger] splits_as(text, n, w, f))
    } else {
        None
    }
}

/// Decimal text taken apart: its sign, its whole digits and its fraction digits.
pub struct Numeral {
    pub negative: bool,
    pub whole: Vec<char>,
    pub frac: Vec<char>,
}

/// What a numeral holds, as plain sequences.
pub open spec fn numeral_view(n: Numeral) -> (bool, Seq<char>, Seq<char>) {
    (n.negative, n.whole@, n.frac@)
}

/// What any split of `text` must be, given where its digit runs end.
proof fn lemma_splits(text: Seq<char>, start: int, whole_end: int, has_point: bool, j: int)
    requires
        start == (if text.len() > 0 && text[0] == '-' { 1int } else { 0int }),
        start <= whole_end <= text.len(),
        all_digits(text.subrange(start, whole_end)),
        whole_end == text.len() || !is_digit(text[whole_end]),
        has_point == (whole_end < text.len() && text[whole_end] == '.'),
        has_point ==> whole_end + 1 <= j <= text.len() && all_digits(text.subrange(whole_end + 1, j))
            && (j == text.len() || !is_digit(text[j])),
    ensures
        forall|n: bool, w: Seq<char>, f: Seq<char>| #[trigger] splits_as(text, n, w, f) ==> {
            &&& whole_end > start
            &&& if has_point { j == text.len() && j > whole_end + 1 } else { whole_end == text.len() }
            &&& n == (start == 1)
            &&& w == text.subrange(start, whole_end)
            &&& f == (if has_point { text.subrange(whole_end + 1, j) } else { Seq::empty() })
        },
{
    assert forall|n: bool, w: Seq<char>, f: Seq<char>| #[trigger] splits_as(text, n, w, f) implies {
        &&& whole_end > start
        &&& if has_point { j == text.len() && j > whole_end + 1 } else { whole_end == text.len() }
        &&& n == (start == 1)
        &&& w == text.subrange(start, whole_end)
        &&& f == (if has_point { text.subrange(whole_end + 1, j) } else { Seq::empty() })
    } by {
        lemma_decimal_split(text, n, w, f, start, whole_end);
        if f.len() > 0 {
            let fs = whole_end + 1;
            assert forall|k: int| fs <= k < text.len() implies text[k] == f[k - fs] by {}
            if j < text.len() {
                assert(is_digit(f[j - fs]));
            }
            assert(text.subrange(fs, text.len() as int)[0] == text[fs]);
            assert(f =~= text.subrange(fs, j));
        } else {
            assert(f =~= Seq::<char>::empty());
        }
    }
}

/// The characters of `text` in `[from, to)`.
fn chars_between(text: &str, from: usize, to: usize) -> (r: Vec<char>)
    requires
        from <= to <= text@.len(),
    ensures
        r@ == text@.subrange(from as int, to as int),
{
    let mut r: Vec<char> = Vec::new();
    let mut i = from;
    while i < to
        invariant
            from <= i <= to <= text@.len(),
            r@ == text@.subrange(from as int, i as int),
        decreases to - i,
    {
        r.push(text.get_char(i));
        i = i + 1;
        assert(r@ =~= text@.subrange(from as int, i as int));
    }
    r
}

/// Takes decimal text of the form `-?[0-9]+(\.[0-9]+)?`, of any length, apart into its sign
/// and digits; anything else gives nothing.
pub fn read_numeral(text: &str) -> (r: Option<Numeral>)
    ensures
        match r {
            Some(n) => numeral_of(text@) == Some(numeral_view(n)),
            None => numeral_of(text@) is None,
        },
{
    let n = text.unicode_len();
    let negative = n > 0 && text.get_char(0) == '-';
    let start: usize = if negative {
        1
    } else {
        0
    };
    let whole_end = digit_run_end(text, start);
    let has_point = whole_end < n && text.get_char(whole_end) == '.';
    let frac_start = if has_point {
        whole_end + 1
    } else {
        whole_end
    };
    let j = if has_point {
        digit_run_end(text, frac_start)
    } else {
        whole_end
    };
    proof {
        lemma_splits(text@, start as int, whole_end as int, has_point, j as int);
    }
    let well_formed = whole_end > start && (if has_point { j == n && j > frac_start } else { whole_end == n });
    if !well_formed {
        return None;
    }
    let whole = chars_between(text, start, whole_end);
    let frac = chars_between(text, frac_start, j);
    let r = Numeral { negative, whole, frac };
    proof {
        let tail: Seq<char> = if frac@.len() == 0 { Seq::empty() } else { seq!['.'] + frac@ };
        let sg: Seq<char> = if negative { seq!['-'] } else { Seq::empty() };
        if negative {
            assert(text@[0] == '-');
        }
        if !has_point {
            assert(frac@ =~= Seq::<char>::empty());
        }
        assert(text@ =~= sg + whole@ + tail);
        assert(splits_as(text@, negative, whole@, frac@));
        let (n2, w2, f2) = choose|n2: bool, w2: Seq<char>, f2: Seq<char>| #[trigger] splits_as(text@, n2, w2, f2);
        assert(splits_as(text@, n2, w2, f2));
    }
    Some(r)
}

/// Digit strings are worth less than ten to the power of their length.
pub proof fn lemma_digits_below(s: Seq<char>)
    requires
        all_digits(s),
    ensures
        digits_value(s) < pow10(s.len()),
    decreases s.len(),
{
    if s.len() > 0 {
        assert(all_digits(s.drop_last())) by {
            assert forall|i: int| 0 <= i < s.drop_last().len() implies is_digit(#[trigger] s.drop_last()[i]) by {
                assert(s.drop_last()[i] == s[i]);
            }
        }
        lemma_digits_below(s.drop_last());
        assert(is_digit(s[s.len() - 1]));
        assert(pow10(s.len()) == 10 * pow10((s.len() - 1) as nat));
        assert(digits_value(s.drop_last()) * 10 + 9 < 10 * pow10((s.len() - 1) as nat)) by (nonlinear_arith)
            requires digits_value(s.drop_last()) < pow10((s.len() - 1) as nat);
    }
}

/// A digit string is worth 0 exactly where all its digits are `0`.
pub proof fn lemma_digits_zero(s: Seq<char>)
    requires
        all_digits(s),
    ensures
        (digits_value(s) == 0) <==> (forall|i: int| 0 <= i < s.len() ==> s[i] == '0'),
    decreases s.len(),
{
    if s.len() > 0 {
        let init = s.drop_last();
        assert(all_digits(init)) by {
            assert forall|i: int| 0 <= i < init.len() implies is_digit(#[trigger] init[i]) by {
                assert(init[i] == s[i]);
            }
        }
        lemma_digits_zero(init);
        assert(is_digit(s[s.len() - 1]));
        if digits_value(s) == 0 {
            assert forall|i: int| 0 <= i < s.len() implies s[i] == '0' by {
                if i < s.len() - 1 {
                    assert(init[i] == s[i]);
                }
            }
        }
        if forall|i: int| 0 <= i < s.len() ==> s[i] == '0' {
            assert forall|i: int| 0 <= i < init.len() implies init[i] == '0' by {
                assert(init[i] == s[i]);
            }
        }
    }
}

/// Two digit strings of one length compare as their first differing digit does.
pub proof fn lemma_digits_first_difference(s: Seq<char>, t: Seq<char>, i: int)
    requires
        s.len() == t.len(),
        all_digits(s),
        all_digits(t),
        0 <= i < s.len(),
        s.subrange(0, i) == t.subrange(0, i),
        s[i] > t[i],
    ensures
        digits_value(s) > digits_value(t),
{
    let k = (s.len() - i - 1) as nat;
    let sh = s.subrange(0, i + 1);
    let th = t.subrange(0, i + 1);
    let sr = s.subrange(i + 1, s.len() as int);
    let tr = t.subrange(i + 1, t.len() as int);
    assert(s =~= sh + sr);
    assert(t =~= th + tr);
    lemma_digits_concat(sh, sr);
    lemma_digits_concat(th, tr);
    assert(sh.drop_last() =~= s.subrange(0, i));
    assert(th.drop_last() =~= t.subrange(0, i));
    assert(all_digits(sr)) by {
        assert forall|q: int| 0 <= q < sr.len() implies is_digit(#[trigger] sr[q]) by {
            assert(sr[q] == s[i + 1 + q]);
        }
    }
    assert(all_digits(tr)) by {
        assert forall|q: int| 0 <= q < tr.len() implies is_digit(#[trigger] tr[q]) by {
            assert(tr[q] == t[i + 1 + q]);
        }
    }
    lemma_digits_below(tr);
    assert(is_digit(s[i]) && is_digit(t[i]));
    let a = digits_value(s.subrange(0, i));
    let ds = ((s[i] as int) - ('0' as int)) as nat;
    let dt = ((t[i] as int) - ('0' as int)) as nat;
    assert(digits_value(sh) == a * 10 + ds);
    assert(digits_value(th) == a * 10 + dt);
    assert(ds >= dt + 1);
    let p = pow10(k);
    assert(sr.len() == k && tr.len() == k);
    assert((a * 10 + ds) * p + digits_value(sr) > (a * 10 + dt) * p + digits_value(tr)) by (nonlinear_arith)
        requires ds >= dt + 1, digits_value(tr) < p, p >= 1;
    lemma_pow10_positive(k);
}

/// Digits padded with zeros on the left keep their value, and zeros on the right multiply it
/// by ten each.
pub proof fn lemma_digits_padded(left: nat, s: Seq<char>, right: nat)
    ensures
        digits_value(repeat_char('0', left) + s + repeat_char('0', right)) == digits_value(s) * pow10(right),
{
    let z1 = repeat_char('0', left);
    let z2 = repeat_char('0', right);
    assert(all_digits(z1));
    assert(all_digits(z2));
    lemma_digits_zero(z1);
    lemma_digits_zero(z2);
    lemma_digits_concat(z1, s);
    lemma_digits_concat(z1 + s, z2);
}

/// The sign of an integer: -1, 0 or 1.
pub open spec fn sign_of(x: int) -> int {
    if x > 0 {
        1
    } else if x < 0 {
        -1
    } else {
        0
    }
}

/// A number given by sign and digits (or nothing, counting as 0), written with `m` decimals
/// as an integer: `-12.5` with two decimals is `-1250`.
pub open spec fn numeral_key(o: Option<(bool, Seq<char>, Seq<char>)>, m: nat) -> int {
    match o {
        Some(t) => {
            let k = (digits_value(t.1 + t.2) * pow10((m - t.2.len()) as nat)) as int;
            if t.0 {
                -k
            } else {
                k
            }
        },
        None => 0,
    }
}

/// What an optional numeral holds.
pub open spec fn opt_numeral(o: Option<Numeral>) -> Option<(bool, Seq<char>, Seq<char>)> {
    match o {
        Some(n) => Some(numeral_view(n)),
        None => None,
    }
}

/// The numeral has digits only, at most `w` whole digits and at most `m` decimals.
pub open spec fn fits(o: Option<Numeral>, w: nat, m: nat) -> bool {
    match o {
        Some(n) => n.whole@.len() <= w && n.frac@.len() <= m && all_digits(n.whole@) && all_digits(n.frac@),
        None => true,
    }
}

/// The digits of a numeral lined up in `w` whole places and `m` decimal places.
pub open spec fn lined_up(n: Numeral, w: nat, m: nat) -> Seq<char> {
    repeat_char('0', (w - n.whole@.len()) as nat) + n.whole@ + n.frac@ + repeat_char('0', (m - n.frac@.len()) as nat)
}

/// The digit at whole place `pos` of a numeral lined up in `w` whole and `m` decimal places.
fn whole_place(n: &Numeral, w: usize, m: usize, pos: usize) -> (c: char)
    requires
        n.whole@.len() <= w,
        n.frac@.len() <= m,
        pos < w,
    ensures
        c == lined_up(*n, w as nat, m as nat)[pos as int],
{
    let lead = w - n.whole.len();
    proof {
        let z1 = repeat_char('0', lead as nat);
        let z2 = repeat_char('0', (m - n.frac@.len()) as nat);
        let s = lined_up(*n, w as nat, m as nat);
        assert(s == z1 + n.whole@ + n.frac@ + z2);
        assert(pos < lead ==> s[pos as int] == z1[pos as int]);
        assert(lead <= pos ==> s[pos as int] == n.whole@[pos - lead]);
    }
    if pos < lead {
        '0'
    } else {
        n.whole[pos - lead]
    }
}

/// The digit at decimal place `q` of a numeral lined up in `w` whole and `m` decimal places.
fn decimal_place(n: &Numeral, w: usize, m: usize, q: usize) -> (c: char)
    requires
        n.whole@.len() <= w,
        n.frac@.len() <= m,
        q < m,
    ensures
        c == lined_up(*n, w as nat, m as nat)[w + q],
{
    let fl = n.frac.len();
    proof {
        let z1 = repeat_char('0', (w - n.whole@.len()) as nat);
        let z2 = repeat_char('0', (m - fl) as nat);
        let s = lined_up(*n, w as nat, m as nat);
        assert(s == z1 + n.whole@ + n.frac@ + z2);
        assert(q < fl ==> s[w + q] == n.frac@[q as int]);
        assert(fl <= q ==> s[w + q] == z2[q - fl]);
    }
    if q < fl {
        n.frac[q]
    } else {
        '0'
    }
}

proof fn lemma_lined_up_value(n: Numeral, w: nat, m: nat)
    requires
        n.whole@.len() <= w,
        n.frac@.len() <= m,
        all_digits(n.whole@),
        all_digits(n.frac@),
    ensures
        digits_value(lined_up(n, w, m)) == digits_value(n.whole@ + n.frac@) * pow10((m - n.frac@.len()) as nat),
        all_digits(lined_up(n, w, m)),
        lined_up(n, w, m).len() == w + m,
{
    let z1 = repeat_char('0', (w - n.whole@.len()) as nat);
    let z2 = repeat_char('0', (m - n.frac@.len()) as nat);
    assert(lined_up(n, w, m) =~= z1 + (n.whole@ + n.frac@) + z2);
    lemma_digits_padded((w - n.whole@.len()) as nat, n.whole@ + n.frac@, (m - n.frac@.len()) as nat);
    let s = lined_up(n, w, m);
    assert forall|i: int| 0 <= i < s.len() implies is_digit(#[trigger] s[i]) by {
        let a = z1.len() as int;
        let b = a + n.whole@.len();
        let c = b + n.frac@.len();
        if i < a {
        } else if i < b {
            assert(s[i] == n.whole@[i - a]);
        } else if i < c {
            assert(s[i] == n.frac@[i - b]);
        } else {
            assert(s[i] == z2[i - c]);
        }
    }
}

/// How the magnitudes of two numerals compare, both lined up in `w` whole and `m` decimal
/// places.
fn compare_magnitudes(a: &Numeral, b: &Numeral, w: usize, m: usize) -> (c: i8)
    requires
        fits(Some(*a), w as nat, m as nat),
        fits(Some(*b), w as nat, m as nat),
    ensures
        c as int == sign_of(digits_value(lined_up(*a, w as nat, m as nat)) - digits_value(lined_up(*b, w as nat, m as nat))),
{
    let ghost sa = lined_up(*a, w as nat, m as nat);
    let ghost sb = lined_up(*b, w as nat, m as nat);
    proof {
        lemma_lined_up_value(*a, w as nat, m as nat);
        lemma_lined_up_value(*b, w as nat, m as nat);
    }
    let mut pos: usize = 0;
    while pos < w
        invariant
            sa.len() == w + m && sb.len() == w + m,
            all_digits(sa) && all_digits(sb),
            fits(Some(*a), w as nat, m as nat),
            fits(Some(*b), w as nat, m as nat),
            sa == lined_up(*a, w as nat, m as nat),
            sb == lined_up(*b, w as nat, m as nat),
            pos <= w,
            sa.subrange(0, pos as int) == sb.subrange(0, pos as int),
        decreases w - pos,
    {
        let da = whole_place(a, w, m, pos);
        let db = whole_place(b, w, m, pos);
        if da > db {
            proof {
                lemma_digits_first_difference(sa, sb, pos as int);
            }
            return 1;
        }
        if da < db {
            proof {
                lemma_digits_first_difference(sb, sa, pos as int);
            }
            return -1;
        }
        assert(sa.subrange(0, pos + 1) =~= sa.subrange(0, pos as int).push(da));
        assert(sb.subrange(0, pos + 1) =~= sb.subrange(0, pos as int).push(db));
        pos = pos + 1;
    }
    let mut q: usize = 0;
    while q < m
        invariant
            sa.len() == w + m && sb.len() == w + m,
            all_digits(sa) && all_digits(sb),
            fits(Some(*a), w as nat, m as nat),
            fits(Some(*b), w as nat, m as nat),
            sa == lined_up(*a, w as nat, m as nat),
            sb == lined_up(*b, w as nat, m as nat),
            q <= m,
            sa.subrange(0, w + q) == sb.subrange(0, w + q),
        decreases m - q,
    {
        let da = decimal_place(a, w, m, q);
        let db = decimal_place(b, w, m, q);
        if da > db {
            proof {
                lemma_digits_first_difference(sa, sb, w + q);
            }
            return 1;
        }
        if da < db {
            proof {
                lemma_digits_first_difference(sb, sa, w + q);
            }
            return -1;
        }
        assert(sa.subrange(0, w + q + 1) =~= sa.subrange(0, w + q).push(da));
        assert(sb.subrange(0, w + q + 1) =~= sb.subrange(0, w + q).push(db));
        q = q + 1;
    }
    assert(sa =~= sa.subrange(0, w + m));
    assert(sb =~= sb.subrange(0, w + m));
    0
}

/// Whether a numeral's digits are all zero.
fn is_zero_numeral(a: &Numeral) -> (r: bool)
    requires
        all_digits(a.whole@),
        all_digits(a.frac@),
    ensures
        r == (digits_value(a.whole@ + a.frac@) == 0),
{
    let ghost s = a.whole@ + a.frac@;
    proof {
        assert(all_digits(s)) by {
            assert forall|i: int| 0 <= i < s.len() implies is_digit(#[trigger] s[i]) by {
                if i < a.whole@.len() {
                    assert(s[i] == a.whole@[i]);
                } else {
                    assert(s[i] == a.frac@[i - a.whole@.len()]);
                }
            }
        }
        lemma_digits_zero(s);
    }
    let mut i: usize = 0;
    while i < a.whole.len()
        invariant
            i <= a.whole@.len(),
            s == a.whole@ + a.frac@,
            (digits_value(s) == 0) <==> (forall|q: int| 0 <= q < s.len() ==> s[q] == '0'),
            forall|q: int| 0 <= q < i ==> s[q] == '0',
        decreases a.whole@.len() - i,
    {
        if a.whole[i] != '0' {
            assert(s[i as int] == a.whole@[i as int]);
            return false;
        }
        assert(s[i as int] == a.whole@[i as int]);
        i = i + 1;
    }
    let mut j: usize = 0;
    while j < a.frac.len()
        invariant
            j <= a.frac@.len(),
            s == a.whole@ + a.frac@,
            (digits_value(s) == 0) <==> (forall|q: int| 0 <= q < s.len() ==> s[q] == '0'),
            forall|q: int| 0 <= q < a.whole@.len() + j ==> s[q] == '0',
        decreases a.frac@.len() - j,
    {
        if a.frac[j] != '0' {
            assert(s[a.whole@.len() + j] == a.frac@[j as int]);
            return false;
        }
        assert(s[a.whole@.len() + j] == a.frac@[j as int]);
        j = j + 1;
    }
    true
}

/// How two optional numerals compare as numbers, both written with `m` decimals (one that is
/// absent counts as 0); `w` is at least the number of whole digits of each.
pub fn compare_numerals(x: &Option<Numeral>, y: &Option<Numeral>, w: usize, m: usize) -> (c: i8)
    requires
        fits(*x, w as nat, m as nat),
        fits(*y, w as nat, m as nat),
    ensures
        c as int == sign_of(numeral_key(opt_numeral(*x), m as nat) - numeral_key(opt_numeral(*y), m as nat)),
{
    // The sign class of each side: -1, 0 or 1.
    let sx: i8 = match x {
        Some(a) => if is_zero_numeral(a) {
            0
        } else if a.negative {
            -1
        } else {
            1
        },
        None => 0,
    };
    let sy: i8 = match y {
        Some(b) => if is_zero_numeral(b) {
            0
        } else if b.negative {
            -1
        } else {
            1
        },
        None => 0,
    };
    proof {
        match x {
            Some(a) => {
                lemma_lined_up_value(*a, w as nat, m as nat);
                lemma_pow10_positive((m - a.frac@.len()) as nat);
                let v = digits_value(a.whole@ + a.frac@);
                let p = pow10((m - a.frac@.len()) as nat);
                assert(v > 0 ==> v * p > 0) by (nonlinear_arith) requires p >= 1;
                assert(v == 0 ==> v * p == 0);
            },
            None => {},
        }
        match y {
            Some(b) => {
                lemma_lined_up_value(*b, w as nat, m as nat);
                lemma_pow10_positive((m - b.frac@.len()) as nat);
                let v = digits_value(b.whole@ + b.frac@);
                let p = pow10((m - b.frac@.len()) as nat);
                assert(v > 0 ==> v * p > 0) by (nonlinear_arith) requires p >= 1;
                assert(v == 0 ==> v * p == 0);
            },
            None => {},
        }
        assert(sign_of(numeral_key(opt_numeral(*x), m as nat)) == sx as int);
        assert(sign_of(numeral_key(opt_numeral(*y), m as nat)) == sy as int);
    }
    if sx != sy {
        if sx > sy {
            1
        } else {
            -1
        }
    } else if sx == 0 {
        0
    } else {
        match (x, y) {
            (Some(a), Some(b)) => {
                let c = compare_magnitudes(a, b, w, m);
                if sx > 0 {
                    c
                } else {
                    -c
                }
            },
            _ => 0,
        }
    }
}

} // verus!
