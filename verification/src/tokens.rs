//! The approximate number of tokens in a text.

use vstd::prelude::*;

use crate::text::characters;

verus! {

/// The kinds of characters that weigh differently.
#[derive(Clone, Copy, PartialEq, Eq, Structural, Debug)]
pub enum CharClass {
    Regular,
    Digit,
    Symbol,
    NonAscii,
}

/// The kind of a character.
pub open spec fn class_of(c: char) -> CharClass {
    if (c as nat) >= 0x80 {
        CharClass::NonAscii
    } else if '0' <= c <= '9' {
        CharClass::Digit
    } else if '!' <= c <= '/' || ':' <= c <= '@' || '[' <= c <= '`' || '{' <= c <= '~' {
        CharClass::Symbol
    } else {
        CharClass::Regular
    }
}

/// Finds the kind of a character.
pub fn classify(c: char) -> (class: CharClass)
    ensures
        class == class_of(c),
{
    if c as u32 >= 0x80 {
        CharClass::NonAscii
    } else if '0' <= c && c <= '9' {
        CharClass::Digit
    } else if ('!' <= c && c <= '/') || (':' <= c && c <= '@') || ('[' <= c && c <= '`') || ('{' <= c
        && c <= '~') {
        CharClass::Symbol
    } else {
        CharClass::Regular
    }
}

/// How many characters of a text are of a kind.
pub open spec fn count_of(text: Seq<char>, class: CharClass) -> nat
    decreases text.len(),
{
    if text.len() == 0 {
        0
    } else {
        count_of(text.drop_last(), class) + if class_of(text.last()) == class {
            1nat
        } else {
            0nat
        }
    }
}

/// No more characters are of a kind than there are characters.
proof fn lemma_count_bound(text: Seq<char>, class: CharClass)
    ensures
        count_of(text, class) <= text.len(),
    decreases text.len(),
{
    if text.len() > 0 {
        lemma_count_bound(text.drop_last(), class);
    }
}

/// Two to the power of 53: from here on, neighbouring binary64 numbers are more than one
/// apart.
pub const MANTISSA: u128 = 0x20_0000_0000_0000;

/// Two to the power of 55: the number one, counted in units of 2^-55. Every binary64
/// number from 1/8 on is a whole number of such units.
pub const ONE: u128 = 0x80_0000_0000_0000;

/// The distance between neighbouring binary64 numbers near `q`.
pub open spec fn spacing(q: nat) -> nat
    decreases q,
{
    if q < MANTISSA {
        1
    } else {
        2 * spacing(q / 2)
    }
}

/// The binary64 number nearest to `num / den`, that with the even significand where two
/// are equally near.
pub open spec fn nearest(num: nat, den: nat) -> nat {
    let step = spacing(num / den);
    let unit = den * step;
    let low = num / unit;
    let rest = num % unit;
    if 2 * rest > unit || (2 * rest == unit && low % 2 == 1) {
        (low + 1) * step
    } else {
        low * step
    }
}

/// The weights of the characters of a text, added up in binary64, in units of 2^-55:
/// 2/9 for a regular character, 1/2 for a digit, 2/3 for a symbol or a character beyond
/// ASCII.
pub open spec fn weight(text: Seq<char>) -> nat {
    let one = ONE as nat;
    let regular = nearest(2 * count_of(text, CharClass::Regular) * one, 9);
    let digits = count_of(text, CharClass::Digit) * one / 2;
    let symbols = nearest(2 * count_of(text, CharClass::Symbol) * one, 3);
    let others = nearest(2 * count_of(text, CharClass::NonAscii) * one, 3);
    nearest(nearest(nearest(regular + digits, 1) + symbols, 1) + others, 1)
}

/// The approximate number of tokens in a text: a third of the characters of a text
/// shorter than five, else the weight of its characters, in either case rounded up and
/// at least one; none for the empty text.
pub open spec fn approx_tokens(text: Seq<char>) -> int {
    if text.len() == 0 {
        0
    } else if text.len() < 5 {
        (text.len() as int + 2) / 3
    } else {
        let estimated = (weight(text) + ONE - 1) / (ONE as int);
        if estimated < 1 {
            1
        } else if estimated > i32::MAX {
            i32::MAX as int
        } else {
            estimated
        }
    }
}

/// Finds the distance between neighbouring binary64 numbers near `q`.
fn step_near(q: u128) -> (step: u128)
    ensures
        step == spacing(q as nat),
        step >= 1,
        step == 1 || step <= q,
{
    let mut step: u128 = 1;
    let mut rest: u128 = q;
    while rest >= MANTISSA
        invariant
            step >= 1,
            step * rest <= q,
            spacing(q as nat) == step * spacing(rest as nat),
            step == 1 || step <= q,
        decreases rest,
    {
        proof {
            let half = (rest / 2) as int;
            assert(2 * step <= step * rest) by (nonlinear_arith)
                requires
                    step >= 1,
                    rest >= 2,
            ;
            assert((2 * step) * half <= step * rest) by (nonlinear_arith)
                requires
                    step >= 1,
                    2 * half <= rest,
            ;
            assert(spacing(rest as nat) == 2 * spacing((rest / 2) as nat));
            assert(step * (2 * spacing(half as nat)) == (2 * step) * spacing(half as nat))
                by (nonlinear_arith);
        }
        rest = rest / 2;
        step = step * 2;
    }
    proof {
        assert(step * spacing(rest as nat) == step) by (nonlinear_arith)
            requires
                spacing(rest as nat) == 1,
        ;
    }
    step
}

/// Finds the binary64 number nearest to `num / den`.
fn round(num: u128, den: u128) -> (r: u128)
    requires
        1 <= den <= 9,
        num < 0x1000_0000_0000_0000_0000_0000_0000_0000,
    ensures
        r == nearest(num as nat, den as nat),
        r <= 2 * (num / den) + 1,
{
    let q: u128 = num / den;
    let step: u128 = step_near(q);
    proof {
        assert(den * step <= num + 9) by (nonlinear_arith)
            requires
                1 <= den <= 9,
                step == 1 || step <= q,
                q == num / den,
        ;
        assert(den * step >= 1) by (nonlinear_arith)
            requires
                den >= 1,
                step >= 1,
        ;
    }
    let unit: u128 = den * step;
    let low: u128 = num / unit;
    let rest: u128 = num % unit;
    proof {
        assert(low * step <= q) by (nonlinear_arith)
            requires
                low == num / unit,
                unit == den * step,
                unit >= 1,
                den >= 1,
                q == num / den,
                num >= 0,
        {
            assert(low * unit <= num);
            assert(low * (den * step) == (low * step) * den);
            assert((low * step) * den <= num);
        }
        assert((low + 1) * step == low * step + step) by (nonlinear_arith);
    }
    if 2 * rest > unit || (2 * rest == unit && low % 2 == 1) {
        (low + 1) * step
    } else {
        low * step
    }
}

/// Estimates the number of tokens in a text.
pub fn estimate_approx_tokens(text: &str) -> (tokens: i32)
    ensures
        tokens == approx_tokens(text@),
{
    let chars: Vec<char> = characters(text);
    let length: usize = chars.len();
    if length == 0 {
        return 0;
    }
    if length < 5 {
        return ((length + 2) / 3) as i32;
    }
    let mut regular: u64 = 0;
    let mut digits: u64 = 0;
    let mut symbols: u64 = 0;
    let mut others: u64 = 0;
    let mut i: usize = 0;
    while i < chars.len()
        invariant
            i <= chars.len(),
            chars@ == text@,
            regular == count_of(text@.take(i as int), CharClass::Regular),
            digits == count_of(text@.take(i as int), CharClass::Digit),
            symbols == count_of(text@.take(i as int), CharClass::Symbol),
            others == count_of(text@.take(i as int), CharClass::NonAscii),
        decreases chars.len() - i,
    {
        proof {
            lemma_count_bound(text@.take(i as int), CharClass::Regular);
            lemma_count_bound(text@.take(i as int), CharClass::Digit);
            lemma_count_bound(text@.take(i as int), CharClass::Symbol);
            lemma_count_bound(text@.take(i as int), CharClass::NonAscii);
            assert(text@.take(i + 1).drop_last() == text@.take(i as int));
            assert(text@.take(i + 1).last() == text@[i as int]);
        }
        match classify(chars[i]) {
            CharClass::Regular => regular += 1,
            CharClass::Digit => digits += 1,
            CharClass::Symbol => symbols += 1,
            CharClass::NonAscii => others += 1,
        }
        i += 1;
    }
    proof {
        assert(text@.take(i as int) == text@);
    }
    let r: u128 = round(2 * (regular as u128) * ONE, 9);
    let d: u128 = (digits as u128) * ONE / 2;
    let s: u128 = round(2 * (symbols as u128) * ONE, 3);
    let o: u128 = round(2 * (others as u128) * ONE, 3);
    let first: u128 = round(r + d, 1);
    let second: u128 = round(first + s, 1);
    let total: u128 = round(second + o, 1);
    let estimated: u128 = (total + (ONE - 1)) / ONE;
    if estimated < 1 {
        1
    } else if estimated > i32::MAX as u128 {
        i32::MAX
    } else {
        estimated as i32
    }
}

/// The spacing near a number: at least one; no more than a 2^52th of the number, where it
/// is more than one; and the number is below 2^53 times the spacing.
proof fn lemma_spacing(q: nat)
    ensures
        spacing(q) >= 1,
        spacing(q) > 1 ==> (MANTISSA / 2) * spacing(q) <= q,
        q < MANTISSA * spacing(q),
    decreases q,
{
    if q >= MANTISSA {
        lemma_spacing(q / 2);
        let s = spacing(q / 2) as int;
        let m = MANTISSA as int;
        assert((m / 2) * (2 * s) == 2 * ((m / 2) * s)) by (nonlinear_arith);
        assert(m * (2 * s) == 2 * (m * s)) by (nonlinear_arith);
    }
}

/// Near a larger number the spacing is the same, or at least twice as large.
proof fn lemma_spacing_grows(p: nat, q: nat)
    requires
        p <= q,
    ensures
        spacing(p) == spacing(q) || 2 * spacing(p) <= spacing(q),
    decreases q,
{
    if q >= MANTISSA {
        lemma_spacing(q / 2);
        if p >= MANTISSA {
            lemma_spacing_grows(p / 2, q / 2);
        }
    }
}

/// What rounding leaves of a fraction, in whole steps.
proof fn lemma_nearest(num: nat, den: nat)
    requires
        den >= 1,
    ensures
        ({
            let step = spacing(num / den);
            let unit = den * step;
            let low = num / unit;
            &&& step >= 1
            &&& unit >= 1
            &&& low * unit <= num < (low + 1) * unit
            &&& nearest(num, den) == low * step || nearest(num, den) == (low + 1) * step
            &&& low < MANTISSA
            &&& step > 1 ==> low >= MANTISSA / 2
        }),
{
    let q = num / den;
    let step = spacing(q);
    let unit = den * step;
    lemma_spacing(q);
    assert(unit >= 1) by (nonlinear_arith)
        requires
            den >= 1,
            step >= 1,
            unit == den * step,
    ;
    let low = num / unit;
    assert(low * unit <= num < (low + 1) * unit) by (nonlinear_arith)
        requires
            unit >= 1,
            low == num / unit,
    ;
    let m = MANTISSA as int;
    assert(low < m) by (nonlinear_arith)
        requires
            q < m * step,
            q == num / den,
            den >= 1,
            unit == den * step,
            unit >= 1,
            low * unit <= num,
    {
        assert(num < (q + 1) * den);
        assert((q + 1) * den <= (m * step) * den);
        assert((m * step) * den == m * unit);
        assert(low * unit < m * unit);
    }
    if step > 1 {
        let h = m / 2;
        assert(low >= h) by (nonlinear_arith)
            requires
                h * step <= q,
                q == num / den,
                den >= 1,
                unit == den * step,
                unit >= 1,
                num < (low + 1) * unit,
        {
            assert(q * den <= num);
            assert((h * step) * den <= q * den);
            assert((h * step) * den == h * unit);
            assert(h * unit < (low + 1) * unit);
        }
    }
}

/// Rounding keeps the order.
proof fn lemma_nearest_grows(a: nat, b: nat, den: nat)
    requires
        den >= 1,
        a <= b,
    ensures
        nearest(a, den) <= nearest(b, den),
{
    lemma_nearest(a, den);
    lemma_nearest(b, den);
    let p = a / den;
    let q = b / den;
    assert(p <= q) by (nonlinear_arith)
        requires
            p == a / den,
            q == b / den,
            den >= 1,
            a <= b,
    ;
    lemma_spacing_grows(p, q);
    let s = spacing(p);
    let t = spacing(q);
    let u = den * s;
    let v = den * t;
    let low = a / u;
    let high = b / v;
    if s == t {
        assert(low <= high) by (nonlinear_arith)
            requires
                low * u <= a,
                a <= b,
                b < (high + 1) * u,
                u >= 1,
        ;
        if low == high {
            assert(a % u == a - low * u) by (nonlinear_arith)
                requires
                    u >= 1,
                    low == a / u,
            ;
            assert(b % u == b - low * u) by (nonlinear_arith)
                requires
                    u >= 1,
                    low == b / u,
            ;
            assert((low + 1) * s == low * s + s) by (nonlinear_arith);
        } else {
            assert((low + 1) * s <= high * s) by (nonlinear_arith)
                requires
                    low < high,
            ;
            assert(low * s <= (low + 1) * s) by (nonlinear_arith);
            assert(high * s <= (high + 1) * s) by (nonlinear_arith);
        }
    } else {
        let m = MANTISSA as int;
        let h = m / 2;
        assert((low + 1) * s <= m * s) by (nonlinear_arith)
            requires
                low < m,
        ;
        assert(low * s <= (low + 1) * s) by (nonlinear_arith);
        assert(h * t <= high * t) by (nonlinear_arith)
            requires
                h <= high,
        ;
        assert(high * t <= (high + 1) * t) by (nonlinear_arith);
        assert(m * s <= h * t) by (nonlinear_arith)
            requires
                m == 2 * h,
                2 * s <= t,
                h >= 0,
        ;
    }
}

/// Rounding changes a fraction by no more than a thousandth of it and one unit.
proof fn lemma_nearest_close(num: nat, den: nat)
    requires
        1 <= den <= 9,
    ensures
        1024 * den * nearest(num, den) <= 1025 * num + 1024 * den,
        1023 * num <= 1024 * den * nearest(num, den) + 1024 * den,
{
    lemma_nearest(num, den);
    let step = spacing(num / den);
    let unit = den * step;
    let low = num / unit;
    let r = nearest(num, den);
    assert(low * unit == den * (low * step)) by (nonlinear_arith)
        requires
            unit == den * step,
    ;
    assert((low + 1) * unit == low * unit + unit) by (nonlinear_arith);
    assert((low + 1) * step == low * step + step) by (nonlinear_arith);
    if step == 1 {
        assert(1024 * den * r <= 1025 * num + 1024 * den) by (nonlinear_arith)
            requires
                r == low * step || r == low * step + step,
                step == 1,
                unit == den * step,
                low * unit <= num,
                low * unit == den * (low * step),
        ;
        assert(1023 * num <= 1024 * den * r + 1024 * den) by (nonlinear_arith)
            requires
                r == low * step || r == low * step + step,
                step == 1,
                unit == den * step,
                num < low * unit + unit,
                low * unit == den * (low * step),
                num >= 0,
        ;
    } else {
        assert(1024 * unit <= low * unit) by (nonlinear_arith)
            requires
                low >= MANTISSA / 2,
                unit >= 1,
        ;
        assert(den * r <= low * unit + unit) by (nonlinear_arith)
            requires
                r == low * step || r == low * step + step,
                unit == den * step,
                low * unit == den * (low * step),
                step >= 1,
        ;
        assert(low * unit <= den * r) by (nonlinear_arith)
            requires
                r == low * step || r == low * step + step,
                low * unit == den * (low * step),
                step >= 1,
                den >= 1,
        ;
        assert(1024 * den * r == 1024 * (den * r)) by (nonlinear_arith);
    }
}

/// Every character is of one kind.
proof fn lemma_counts(text: Seq<char>)
    ensures
        count_of(text, CharClass::Regular) + count_of(text, CharClass::Digit) + count_of(
            text,
            CharClass::Symbol,
        ) + count_of(text, CharClass::NonAscii) == text.len(),
    decreases text.len(),
{
    if text.len() > 0 {
        lemma_counts(text.drop_last());
    }
}

/// The characters of a kind in two texts add up.
proof fn lemma_count_concat(a: Seq<char>, b: Seq<char>, class: CharClass)
    ensures
        count_of(a + b, class) == count_of(a, class) + count_of(b, class),
    decreases b.len(),
{
    if b.len() == 0 {
        assert(a + b == a);
    } else {
        lemma_count_concat(a, b.drop_last(), class);
        assert((a + b).drop_last() == a + b.drop_last());
        assert((a + b).last() == b.last());
    }
}

/// How many characters are of a kind does not depend on their order.
proof fn lemma_count_order(text: Seq<char>, class: CharClass)
    ensures
        count_of(text, class) == text.to_multiset().filter(|c: char| class_of(c) == class).len(),
    decreases text.len(),
{
    broadcast use vstd::multiset::group_multiset_axioms;
    broadcast use vstd::seq_lib::group_to_multiset_ensures;

    let kind = |c: char| class_of(c) == class;
    if text.len() == 0 {
        assert(text.to_multiset().filter(kind) =~= vstd::multiset::Multiset::empty());
    } else {
        let front = text.drop_last();
        let last = text.last();
        lemma_count_order(front, class);
        assert(text == front.push(last));
        assert(text.to_multiset() =~= front.to_multiset().insert(last));
        if kind(last) {
            assert(text.to_multiset().filter(kind) =~= front.to_multiset().filter(kind).insert(
                last,
            ));
        } else {
            assert(text.to_multiset().filter(kind) =~= front.to_multiset().filter(kind));
        }
    }
}

/// The weight of a text of five characters or more is above one, and at most the number of
/// its characters.
proof fn lemma_weight(text: Seq<char>)
    requires
        text.len() >= 5,
    ensures
        ONE < weight(text) <= text.len() * ONE,
{
    let one = ONE as nat;
    let c1 = count_of(text, CharClass::Regular);
    let c2 = count_of(text, CharClass::Digit);
    let c3 = count_of(text, CharClass::Symbol);
    let c4 = count_of(text, CharClass::NonAscii);
    lemma_counts(text);
    let regular = nearest(2 * c1 * one, 9);
    let digits = c2 * one / 2;
    let symbols = nearest(2 * c3 * one, 3);
    let others = nearest(2 * c4 * one, 3);
    let first = nearest(regular + digits, 1);
    let second = nearest(first + symbols, 1);
    let third = nearest(second + others, 1);
    let (x1, x2, x3, x4) = (c1 * one, c2 * one, c3 * one, c4 * one);
    assert(x1 + x2 + x3 + x4 == text.len() * one) by (nonlinear_arith)
        requires
            c1 + c2 + c3 + c4 == text.len(),
            x1 == c1 * one,
            x2 == c2 * one,
            x3 == c3 * one,
            x4 == c4 * one,
    ;
    assert(text.len() * one >= 5 * one) by (nonlinear_arith)
        requires
            text.len() >= 5,
    ;
    lemma_nearest_close(2 * c1 * one, 9);
    lemma_nearest_close(2 * c3 * one, 3);
    lemma_nearest_close(2 * c4 * one, 3);
    lemma_nearest_close(regular + digits, 1);
    lemma_nearest_close(first + symbols, 1);
    lemma_nearest_close(second + others, 1);
    assert(2 * c1 * one == 2 * x1) by (nonlinear_arith)
        requires
            x1 == c1 * one,
    ;
    assert(2 * c3 * one == 2 * x3) by (nonlinear_arith)
        requires
            x3 == c3 * one,
    ;
    assert(2 * c4 * one == 2 * x4) by (nonlinear_arith)
        requires
            x4 == c4 * one,
    ;
    lemma_sum(
        [x1 as int, x2 as int, x3 as int, x4 as int],
        [regular as int, digits as int, symbols as int, others as int],
        first as int,
        second as int,
        third as int,
    );
}

/// What the roundings of a sum add up to.
proof fn lemma_sum(x: [int; 4], part: [int; 4], first: int, second: int, third: int)
    requires
        x[0] >= 0,
        x[1] >= 0,
        x[2] >= 0,
        x[3] >= 0,
        x[0] + x[1] + x[2] + x[3] >= 5 * ONE,
        9216 * part[0] <= 2050 * x[0] + 9216,
        2046 * x[0] <= 9216 * part[0] + 9216,
        part[1] == x[1] / 2,
        3072 * part[2] <= 2050 * x[2] + 3072,
        2046 * x[2] <= 3072 * part[2] + 3072,
        3072 * part[3] <= 2050 * x[3] + 3072,
        2046 * x[3] <= 3072 * part[3] + 3072,
        1024 * first <= 1025 * (part[0] + part[1]) + 1024,
        1023 * (part[0] + part[1]) <= 1024 * first + 1024,
        1024 * second <= 1025 * (first + part[2]) + 1024,
        1023 * (first + part[2]) <= 1024 * second + 1024,
        1024 * third <= 1025 * (second + part[3]) + 1024,
        1023 * (second + part[3]) <= 1024 * third + 1024,
    ensures
        ONE < third <= x[0] + x[1] + x[2] + x[3],
{
}

/// The weight of a text with more characters of each kind is not smaller.
proof fn lemma_weight_grows(a: Seq<char>, b: Seq<char>)
    requires
        forall|class: CharClass| #[trigger] count_of(a, class) <= count_of(b, class),
    ensures
        weight(a) <= weight(b),
{
    let one = ONE as nat;
    assert(count_of(a, CharClass::Regular) <= count_of(b, CharClass::Regular));
    assert(count_of(a, CharClass::Digit) <= count_of(b, CharClass::Digit));
    assert(count_of(a, CharClass::Symbol) <= count_of(b, CharClass::Symbol));
    assert(count_of(a, CharClass::NonAscii) <= count_of(b, CharClass::NonAscii));
    let ra = 2 * count_of(a, CharClass::Regular) * one;
    let rb = 2 * count_of(b, CharClass::Regular) * one;
    let da = count_of(a, CharClass::Digit) * one / 2;
    let db = count_of(b, CharClass::Digit) * one / 2;
    let sa = 2 * count_of(a, CharClass::Symbol) * one;
    let sb = 2 * count_of(b, CharClass::Symbol) * one;
    let oa = 2 * count_of(a, CharClass::NonAscii) * one;
    let ob = 2 * count_of(b, CharClass::NonAscii) * one;
    lemma_nearest_grows(ra, rb, 9);
    lemma_nearest_grows(sa, sb, 3);
    lemma_nearest_grows(oa, ob, 3);
    let fa = nearest(nearest(ra, 9) + da, 1);
    let fb = nearest(nearest(rb, 9) + db, 1);
    lemma_nearest_grows(nearest(ra, 9) + da, nearest(rb, 9) + db, 1);
    let ga = nearest(fa + nearest(sa, 3), 1);
    let gb = nearest(fb + nearest(sb, 3), 1);
    lemma_nearest_grows(fa + nearest(sa, 3), fb + nearest(sb, 3), 1);
    lemma_nearest_grows(ga + nearest(oa, 3), gb + nearest(ob, 3), 1);
}

/// A text has no tokens only where it is empty, and never more tokens than characters.
pub proof fn law_estimate_is_bounded(text: Seq<char>)
    ensures
        approx_tokens(text) == 0 <==> text.len() == 0,
        0 <= approx_tokens(text) <= text.len(),
{
    if text.len() >= 5 {
        lemma_weight(text);
    }
}

/// The estimate does not depend on the order of the characters.
pub proof fn law_estimate_ignores_order(a: Seq<char>, b: Seq<char>)
    requires
        a.to_multiset() == b.to_multiset(),
    ensures
        approx_tokens(a) == approx_tokens(b),
{
    broadcast use vstd::seq_lib::group_to_multiset_ensures;

    assert(a.len() == a.to_multiset().len());
    assert(b.len() == b.to_multiset().len());
    assert forall|class: CharClass| #[trigger] count_of(a, class) == count_of(b, class) by {
        lemma_count_order(a, class);
        lemma_count_order(b, class);
    }
    lemma_weight_grows(a, b);
    lemma_weight_grows(b, a);
}

/// A text that goes on never has fewer tokens.
pub proof fn law_estimate_grows(text: Seq<char>, more: Seq<char>)
    ensures
        approx_tokens(text) <= approx_tokens(text + more),
{
    let longer = text + more;
    if text.len() >= 5 {
        assert forall|class: CharClass| #[trigger] count_of(text, class) <= count_of(
            longer,
            class,
        ) by {
            lemma_count_concat(text, more, class);
        }
        lemma_weight_grows(text, longer);
    } else if longer.len() >= 5 {
        lemma_weight(longer);
    }
}

/// The exact weight of a character, in eighteenths of a token: 12 for one beyond ASCII, 9
/// for a digit, 12 for a symbol, 4 for any other.
pub open spec fn eighteenths(c: char) -> int {
    if c >= '\u{80}' {
        12
    } else if '0' <= c <= '9' {
        9
    } else if c <= ' ' || 'A' <= c <= 'Z' || 'a' <= c <= 'z' || c == '\u{7f}' {
        4
    } else {
        12
    }
}

/// The exact weight of a text, in eighteenths of a token.
pub open spec fn exact_weight(text: Seq<char>) -> int {
    text.fold_left(0int, |sum: int, c: char| sum + eighteenths(c))
}

proof fn lemma_exact_weight(text: Seq<char>)
    ensures
        exact_weight(text) == 4 * count_of(text, CharClass::Regular) + 9 * count_of(
            text,
            CharClass::Digit,
        ) + 12 * count_of(text, CharClass::Symbol) + 12 * count_of(text, CharClass::NonAscii),
    decreases text.len(),
{
    if text.len() > 0 {
        lemma_exact_weight(text.drop_last());
        let c = text.last();
        assert(exact_weight(text) == exact_weight(text.drop_last()) + eighteenths(c));
        law_kinds_are_exact(c);
        assert forall|class: CharClass| #[trigger] count_of(text, class) == count_of(
            text.drop_last(),
            class,
        ) + (if class_of(c) == class {
            1nat
        } else {
            0nat
        }) by {
        }
        assert(eighteenths(c) == (match class_of(c) {
            CharClass::Regular => 4int,
            CharClass::Digit => 9int,
            CharClass::Symbol => 12int,
            CharClass::NonAscii => 12int,
        }));
    }
}

/// Two to the power of 52: binary64 numbers are at most a part in this many from their
/// neighbours.
pub const HALF: u128 = 0x10_0000_0000_0000;

/// Rounding changes a fraction by no more than a 2^52th of it and one unit.
proof fn lemma_nearest_tight(num: nat, den: nat)
    requires
        1 <= den <= 9,
    ensures
        HALF * (den * nearest(num, den)) <= HALF * num + num + HALF * den,
        HALF * num <= HALF * (den * nearest(num, den)) + num + HALF * den,
{
    lemma_nearest(num, den);
    let step = spacing(num / den);
    let unit = den * step;
    let low = num / unit;
    let r = nearest(num, den);
    assert(low * unit == den * (low * step)) by (nonlinear_arith)
        requires
            unit == den * step,
    ;
    assert((low + 1) * unit == low * unit + unit) by (nonlinear_arith);
    assert((low + 1) * step == low * step + step) by (nonlinear_arith);
    assert(den * r <= low * unit + unit) by (nonlinear_arith)
        requires
            r == low * step || r == low * step + step,
            unit == den * step,
            low * unit == den * (low * step),
            step >= 1,
    ;
    assert(low * unit <= den * r) by (nonlinear_arith)
        requires
            r == low * step || r == low * step + step,
            low * unit == den * (low * step),
            step >= 1,
            den >= 1,
    ;
    if step == 1 {
        assert(unit == den) by (nonlinear_arith)
            requires
                unit == den * step,
                step == 1,
        ;
    } else {
        assert(HALF * unit <= low * unit) by (nonlinear_arith)
            requires
                low >= HALF,
                unit >= 1,
        ;
    }
}

/// What the roundings of a sum add up to, to within a 2^48th and a little.
proof fn lemma_tight_sum(x: [int; 4], part: [int; 4], first: int, second: int, third: int)
    requires
        x[0] >= 0,
        x[1] >= 0,
        x[2] >= 0,
        x[3] >= 0,
        HALF * (9 * part[0]) <= HALF * (2 * x[0]) + 2 * x[0] + HALF * 9,
        HALF * (2 * x[0]) <= HALF * (9 * part[0]) + 2 * x[0] + HALF * 9,
        part[1] == x[1] / 2,
        HALF * (3 * part[2]) <= HALF * (2 * x[2]) + 2 * x[2] + HALF * 3,
        HALF * (2 * x[2]) <= HALF * (3 * part[2]) + 2 * x[2] + HALF * 3,
        HALF * (3 * part[3]) <= HALF * (2 * x[3]) + 2 * x[3] + HALF * 3,
        HALF * (2 * x[3]) <= HALF * (3 * part[3]) + 2 * x[3] + HALF * 3,
        HALF * first <= HALF * (part[0] + part[1]) + (part[0] + part[1]) + HALF,
        HALF * (part[0] + part[1]) <= HALF * first + (part[0] + part[1]) + HALF,
        HALF * second <= HALF * (first + part[2]) + (first + part[2]) + HALF,
        HALF * (first + part[2]) <= HALF * second + (first + part[2]) + HALF,
        HALF * third <= HALF * (second + part[3]) + (second + part[3]) + HALF,
        HALF * (second + part[3]) <= HALF * third + (second + part[3]) + HALF,
    ensures
        ({
            let exact = 4 * x[0] + 9 * x[1] + 12 * x[2] + 12 * x[3];
            &&& 0x1_0000_0000_0000 * (18 * third) <= 0x1_0000_0000_0000 * exact + exact
                + 0x1_0000_0000_0000 * 400
            &&& 0x1_0000_0000_0000 * exact <= 0x1_0000_0000_0000 * (18 * third) + exact
                + 0x1_0000_0000_0000 * 400
        }),
{
}

/// The weight of a text is its exact weight but for what rounding changes.
proof fn lemma_weight_is_close(text: Seq<char>)
    ensures
        ({
            let exact = exact_weight(text) * ONE;
            let third = weight(text);
            &&& exact_weight(text) >= 0
            &&& 0x1_0000_0000_0000 * (18 * third) <= 0x1_0000_0000_0000 * exact + exact
                + 0x1_0000_0000_0000 * 400
            &&& 0x1_0000_0000_0000 * exact <= 0x1_0000_0000_0000 * (18 * third) + exact
                + 0x1_0000_0000_0000 * 400
        }),
{
    let one = ONE as nat;
    let c1 = count_of(text, CharClass::Regular);
    let c2 = count_of(text, CharClass::Digit);
    let c3 = count_of(text, CharClass::Symbol);
    let c4 = count_of(text, CharClass::NonAscii);
    lemma_exact_weight(text);
    let regular = nearest(2 * c1 * one, 9);
    let digits = c2 * one / 2;
    let symbols = nearest(2 * c3 * one, 3);
    let others = nearest(2 * c4 * one, 3);
    let first = nearest(regular + digits, 1);
    let second = nearest(first + symbols, 1);
    let third = nearest(second + others, 1);
    let (x1, x2, x3, x4) = (c1 * one, c2 * one, c3 * one, c4 * one);
    assert(exact_weight(text) * one == 4 * x1 + 9 * x2 + 12 * x3 + 12 * x4) by (nonlinear_arith)
        requires
            exact_weight(text) == 4 * c1 + 9 * c2 + 12 * c3 + 12 * c4,
            x1 == c1 * one,
            x2 == c2 * one,
            x3 == c3 * one,
            x4 == c4 * one,
    ;
    lemma_nearest_tight(2 * c1 * one, 9);
    lemma_nearest_tight(2 * c3 * one, 3);
    lemma_nearest_tight(2 * c4 * one, 3);
    lemma_nearest_tight(regular + digits, 1);
    lemma_nearest_tight(first + symbols, 1);
    lemma_nearest_tight(second + others, 1);
    assert(2 * c1 * one == 2 * x1) by (nonlinear_arith)
        requires
            x1 == c1 * one,
    ;
    assert(2 * c3 * one == 2 * x3) by (nonlinear_arith)
        requires
            x3 == c3 * one,
    ;
    assert(2 * c4 * one == 2 * x4) by (nonlinear_arith)
        requires
            x4 == c4 * one,
    ;
    lemma_tight_sum(
        [x1 as int, x2 as int, x3 as int, x4 as int],
        [regular as int, digits as int, symbols as int, others as int],
        first as int,
        second as int,
        third as int,
    );
}

/// The estimate is proportional to the text. A text of fewer than five characters has a
/// third as many tokens, rounded up. A longer one has the exact weight of its characters,
/// rounded up, or one token more where the exact weight is a whole number; only where that
/// is more than an `i32` holds is it the largest `i32`.
pub proof fn law_estimate_is_proportional(text: Seq<char>)
    ensures
        text.len() < 5 ==> text.len() <= 3 * approx_tokens(text) < text.len() + 3,
        text.len() >= 5 && approx_tokens(text) < i32::MAX ==> exact_weight(text) <= 18
            * approx_tokens(text),
        text.len() >= 5 ==> 18 * approx_tokens(text) <= exact_weight(text) + 18,
        approx_tokens(text) <= i32::MAX,
{
    if text.len() >= 5 {
        let k = exact_weight(text);
        let third = weight(text) as int;
        let one = ONE as int;
        let estimated = (third + one - 1) / one;
        lemma_weight_is_close(text);
        lemma_weight(text);
        assert(estimated * one >= third) by (nonlinear_arith)
            requires
                estimated == (third + one - 1) / one,
                one > 0,
        ;
        assert((estimated - 1) * one < third) by (nonlinear_arith)
            requires
                estimated == (third + one - 1) / one,
                one > 0,
        ;
        lemma_estimate_range(k, third, estimated);
    }
}

proof fn lemma_estimate_range(k: int, third: int, estimated: int)
    requires
        k >= 0,
        0x1_0000_0000_0000 * (18 * third) <= 0x1_0000_0000_0000 * (k * ONE) + k * ONE
            + 0x1_0000_0000_0000 * 400,
        0x1_0000_0000_0000 * (k * ONE) <= 0x1_0000_0000_0000 * (18 * third) + k * ONE
            + 0x1_0000_0000_0000 * 400,
        estimated * ONE >= third,
        (estimated - 1) * ONE < third,
    ensures
        k < 0x8000_0000_0000 ==> k <= 18 * estimated <= k + 18,
        k >= 0x8000_0000_0000 ==> estimated > i32::MAX,
{
    if k < 0x8000_0000_0000 {
        assert(18 * estimated > k - 1);
        assert(18 * (estimated - 1) < k + 1);
    }
}

/// A text of five characters or more has at least two tokens for every nine characters,
/// and at most two for every three and one, as long as an `i32` holds them.
pub proof fn law_estimate_keeps_pace_with_the_length(text: Seq<char>)
    requires
        text.len() >= 5,
    ensures
        approx_tokens(text) < i32::MAX ==> 2 * text.len() <= 9 * approx_tokens(text),
        3 * approx_tokens(text) <= 2 * text.len() + 3,
{
    law_estimate_is_proportional(text);
    lemma_exact_weight(text);
    lemma_counts(text);
}

/// The kind of a character is that of its weight: beyond ASCII from U+0080 on; else a digit
/// from `0` to `9`; else a symbol, unless it is a letter, a space or a control character.
pub proof fn law_kinds_are_exact(c: char)
    ensures
        class_of(c) == CharClass::NonAscii <==> c >= '\u{80}',
        class_of(c) == CharClass::Digit <==> '0' <= c <= '9',
        class_of(c) == CharClass::Regular <==> (c <= ' ' || 'A' <= c <= 'Z' || 'a' <= c <= 'z' || c
            == '\u{7f}'),
{
}

/// The spacing of binary64 numbers is a power of two: one below 2^53, and from there on so
/// that the number is from 2^52 to 2^53 times as large.
pub proof fn law_spacing_is_a_power_of_two(q: nat) -> (exponent: nat)
    ensures
        spacing(q) == vstd::arithmetic::power2::pow2(exponent),
        q < 0x20_0000_0000_0000 ==> exponent == 0,
        q >= 0x20_0000_0000_0000 ==> 0x10_0000_0000_0000 * spacing(q) <= q,
        q < 0x20_0000_0000_0000 * spacing(q),
    decreases q,
{
    lemma_spacing(q);
    if q < MANTISSA {
        vstd::arithmetic::power2::lemma2_to64();
        0
    } else {
        let half = law_spacing_is_a_power_of_two(q / 2);
        vstd::arithmetic::power2::lemma_pow2_unfold(half + 1);
        lemma_spacing(q / 2);
        assert(spacing(q) > 1);
        half + 1
    }
}

/// Rounding takes the multiple of the spacing that is nearest to the fraction, and of two
/// that are equally near the one with the even multiple.
pub proof fn law_rounding_is_to_the_nearest(num: nat, den: nat) -> (multiple: nat)
    requires
        den >= 1,
    ensures
        ({
            let step = spacing(num / den);
            let unit = den * step;
            &&& nearest(num, den) == multiple * step
            &&& 2 * (multiple * unit - num) <= unit
            &&& 2 * (num - multiple * unit) <= unit
            &&& 2 * (multiple * unit - num) == unit || 2 * (num - multiple * unit) == unit
                ==> multiple % 2 == 0
        }),
{
    lemma_nearest(num, den);
    let step = spacing(num / den);
    let unit = den * step;
    let low = num / unit;
    let rest = num % unit;
    assert(num == low * unit + rest) by (nonlinear_arith)
        requires
            unit >= 1,
            low == num / unit,
            rest == num % unit,
    ;
    assert((low + 1) * unit == low * unit + unit) by (nonlinear_arith);
    if 2 * rest > unit || (2 * rest == unit && low % 2 == 1) {
        low + 1
    } else {
        low
    }
}

/// The weight of a text is added up in binary64: the regular characters by two ninths, the
/// digits by a half, the symbols and those beyond ASCII by two thirds each, in this order,
/// each part and each sum rounded. The estimate is the weight rounded up to whole tokens, as
/// far as an `i32` holds it.
pub proof fn law_weights_are_added_in_order(text: Seq<char>)
    ensures
        ({
            let regular = text.filter(
                |c: char| c <= ' ' || 'A' <= c <= 'Z' || 'a' <= c <= 'z' || c == '\u{7f}',
            ).len();
            let digits = text.filter(|c: char| '0' <= c <= '9').len();
            let others = text.filter(|c: char| c >= '\u{80}').len();
            let symbols = (text.len() - regular - digits - others) as nat;
            let unit: nat = 0x80_0000_0000_0000;
            let first = nearest(nearest(2 * regular * unit, 9) + digits * unit / 2, 1);
            let second = nearest(first + nearest(2 * symbols * unit, 3), 1);
            weight(text) == nearest(second + nearest(2 * others * unit, 3), 1)
        }),
        text.len() >= 5 && approx_tokens(text) < i32::MAX ==> weight(text) <= approx_tokens(text)
            * 0x80_0000_0000_0000,
        text.len() >= 5 ==> (approx_tokens(text) - 1) * 0x80_0000_0000_0000 < weight(text),
{
    let regular = |c: char| c <= ' ' || 'A' <= c <= 'Z' || 'a' <= c <= 'z' || c == '\u{7f}';
    let digits = |c: char| '0' <= c <= '9';
    let others = |c: char| c >= '\u{80}';
    assert forall|c: char| #[trigger] regular(c) == (class_of(c) == CharClass::Regular) by {
        law_kinds_are_exact(c);
    }
    assert forall|c: char| #[trigger] digits(c) == (class_of(c) == CharClass::Digit) by {
        law_kinds_are_exact(c);
    }
    assert forall|c: char| #[trigger] others(c) == (class_of(c) == CharClass::NonAscii) by {
        law_kinds_are_exact(c);
    }
    lemma_filtered(text, CharClass::Regular, regular);
    lemma_filtered(text, CharClass::Digit, digits);
    lemma_filtered(text, CharClass::NonAscii, others);
    lemma_counts(text);
    if text.len() >= 5 {
        lemma_weight(text);
    }
}

proof fn lemma_filtered(text: Seq<char>, class: CharClass, kind: spec_fn(char) -> bool)
    requires
        forall|c: char| #[trigger] kind(c) == (class_of(c) == class),
    ensures
        text.filter(kind).len() == count_of(text, class),
    decreases text.len(),
{
    reveal(Seq::filter);
    if text.len() > 0 {
        lemma_filtered(text.drop_last(), class, kind);
        assert(kind(text.last()) == (class_of(text.last()) == class));
    }
}

}
