//! Decimal digit sequences: the grammar of unsigned and signed decimal
//! numbers as character sequences, with verified parsing and formatting.

use vstd::prelude::*;

verus! {

/// `c` is one of the ten ASCII decimal digits.
pub open spec fn is_dec_digit(c: char) -> bool {
    48 <= c as u32 <= 57
}

/// Numeric value of an ASCII decimal digit.
pub open spec fn digit_val(c: char) -> int {
    c as u32 - 48
}

/// Every character of `s` is an ASCII decimal digit.
pub open spec fn all_dec_digits(s: Seq<char>) -> bool {
    forall|i: int| 0 <= i < s.len() ==> is_dec_digit(#[trigger] s[i])
}

/// The value of a digit string, most significant digit first.
pub open spec fn dec_value(s: Seq<char>) -> int
    decreases s.len(),
{
    if s.len() == 0 {
        0
    } else {
        dec_value(s.drop_last()) * 10 + digit_val(s.last())
    }
}

/// Ten to the `n`.
pub open spec fn pow10(n: nat) -> nat
    decreases n,
{
    if n == 0 {
        1
    } else {
        10 * pow10((n - 1) as nat)
    }
}

/// The character for the decimal digit `d`.
pub open spec fn dec_digit_char(d: int) -> char {
    if d == 0 {
        '0'
    } else if d == 1 {
        '1'
    } else if d == 2 {
        '2'
    } else if d == 3 {
        '3'
    } else if d == 4 {
        '4'
    } else if d == 5 {
        '5'
    } else if d == 6 {
        '6'
    } else if d == 7 {
        '7'
    } else if d == 8 {
        '8'
    } else {
        '9'
    }
}

/// `n` rendered as exactly `width` decimal digits, zero-padded; the low
/// `width` digits of `n`.
pub open spec fn fmt_fixed(n: int, width: nat) -> Seq<char>
    decreases width,
{
    if width == 0 {
        Seq::<char>::empty()
    } else {
        fmt_fixed(n / 10, (width - 1) as nat) + seq![dec_digit_char(n % 10)]
    }
}

/// `n` rendered as decimal with no leading zeros (a single `0` for zero).
pub open spec fn fmt_min(n: int) -> Seq<char>
    decreases n,
{
    if n < 10 {
        seq![dec_digit_char(if n < 0 { 0 } else { n })]
    } else {
        fmt_min(n / 10) + seq![dec_digit_char(n % 10)]
    }
}

/// A digit string's value is below ten to its length.
pub proof fn lemma_dec_value_bound(s: Seq<char>)
    requires
        all_dec_digits(s),
    ensures
        0 <= dec_value(s) < pow10(s.len()),
    decreases s.len(),
{
    if s.len() == 0 {
    } else {
        assert(all_dec_digits(s.drop_last())) by {
            assert(forall|i: int|
                0 <= i < s.len() - 1 ==> is_dec_digit(#[trigger] s.drop_last()[i]) == is_dec_digit(
                    s[i],
                ));
        }
        lemma_dec_value_bound(s.drop_last());
        let p = pow10((s.len() - 1) as nat);
        let v = dec_value(s.drop_last());
        let d = digit_val(s.last());
        assert(is_dec_digit(s.last()));
        assert(0 <= d <= 9);
        assert(0 <= v < p && 0 <= d <= 9 ==> v * 10 + d < p * 10) by (nonlinear_arith);
        assert(pow10(s.len()) == 10 * p);
    }
}

/// A leading zero-valued digit does not change a digit string's value.
pub proof fn lemma_leading_zero(c: char, s: Seq<char>)
    requires
        digit_val(c) == 0,
    ensures
        dec_value(seq![c] + s) == dec_value(s),
    decreases s.len(),
{
    let z = seq![c] + s;
    if s.len() == 0 {
        assert(z =~= seq![c]);
        assert(dec_value(z) == dec_value(z.drop_last()) * 10 + digit_val(z.last()));
        assert(z.drop_last() =~= Seq::<char>::empty());
    } else {
        assert(z.drop_last() =~= seq![c] + s.drop_last());
        lemma_leading_zero(c, s.drop_last());
        assert(z.last() == s.last());
    }
}

/// Parse the digits of `v` at positions `[start, start + width)` as an
/// unsigned number. Returns `None` unless every character there is a digit.
pub fn parse_fixed_digits(v: &Vec<char>, start: usize, width: usize) -> (r: Option<u64>)
    requires
        start + width <= v@.len(),
        width <= 10,
    ensures
        match r {
            Some(n) => {
                &&& all_dec_digits(v@.subrange(start as int, start + width))
                &&& n == dec_value(v@.subrange(start as int, start + width))
            },
            None => !all_dec_digits(v@.subrange(start as int, start + width)),
        },
{
    let vlen = v.len();
    proof {
        assert(vlen == v@.len());
        lemma_pow10_monotone(0, width as nat);
        lemma_pow10_monotone(width as nat, 10);
        lemma_pow10_10();
    }
    let mut i: usize = 0;
    let mut acc: u64 = 0;
    while i < width
        invariant
            0 <= i <= width,
            start + width <= v@.len(),
            v@.len() <= usize::MAX,
            width <= 10,
            all_dec_digits(v@.subrange(start as int, start + i)),
            acc == dec_value(v@.subrange(start as int, start + i)),
            acc < pow10(i as nat),
            pow10(i as nat) <= pow10(width as nat),
            pow10(width as nat) <= 10000000000,
        decreases width - i,
    {
        proof {
            lemma_pow10_monotone(i as nat + 1, width as nat);
            lemma_pow10_10();
        }
        let c = v[start + i];
        let cu = c as u32;
        if cu < 48 || cu > 57 {
            proof {
                let whole = v@.subrange(start as int, start + width);
                assert(whole[i as int] == c);
                assert(!is_dec_digit(whole[i as int]));
            }
            return None;
        }
        let d = (cu - 48) as u64;
        proof {
            let pre = v@.subrange(start as int, start + i);
            let post = v@.subrange(start as int, start + i + 1);
            assert(post.drop_last() =~= pre);
            assert(post.last() == c);
            assert(acc * 10 + d == dec_value(post));
            assert(0 <= acc < pow10(i as nat) && 0 <= d <= 9 ==> acc * 10 + d < 10 * pow10(
                i as nat,
            )) by (nonlinear_arith);
        }
        acc = acc * 10 + d;
        i = i + 1;
    }
    proof {
        assert(v@.subrange(start as int, start + width) =~= v@.subrange(
            start as int,
            start + i,
        ));
    }
    Some(acc)
}

/// `pow10` is monotone.
pub proof fn lemma_pow10_monotone(a: nat, b: nat)
    requires
        a <= b,
    ensures
        pow10(a) <= pow10(b),
    decreases b,
{
    if a < b {
        lemma_pow10_monotone(a, (b - 1) as nat);
        assert(pow10(b) == 10 * pow10((b - 1) as nat));
    }
}

/// `pow10(10)` evaluated.
pub proof fn lemma_pow10_10()
    ensures
        pow10(10) == 10000000000,
{
    reveal_with_fuel(pow10, 11);
}

/// Append the character of digit `d` to `out`.
pub fn push_digit(out: &mut String, d: u8)
    requires
        d <= 9,
    ensures
        final(out)@ == old(out)@ + seq![dec_digit_char(d as int)],
{
    let s: &str = match d {
        0 => "0",
        1 => "1",
        2 => "2",
        3 => "3",
        4 => "4",
        5 => "5",
        6 => "6",
        7 => "7",
        8 => "8",
        _ => "9",
    };
    proof {
        reveal_strlit("0");
        reveal_strlit("1");
        reveal_strlit("2");
        reveal_strlit("3");
        reveal_strlit("4");
        reveal_strlit("5");
        reveal_strlit("6");
        reveal_strlit("7");
        reveal_strlit("8");
        reveal_strlit("9");
        assert(s@ =~= seq![dec_digit_char(d as int)]);
    }
    out.append(s);
}

/// Append `n`, zero-padded to exactly `width` digits, to `out`.
pub fn push_fixed(out: &mut String, n: u32, width: u8)
    ensures
        final(out)@ == old(out)@ + fmt_fixed(n as int, width as nat),
    decreases width,
{
    if width == 0 {
        proof {
            assert(old(out)@ + fmt_fixed(n as int, 0) =~= old(out)@);
        }
    } else {
        push_fixed(out, n / 10, width - 1);
        push_digit(out, (n % 10) as u8);
        proof {
            assert(old(out)@ + fmt_fixed(n as int / 10, (width - 1) as nat) + seq![
                dec_digit_char(n as int % 10),
            ] =~= old(out)@ + fmt_fixed(n as int, width as nat));
        }
    }
}

/// Append `n` in minimal decimal form to `out`.
pub fn push_min(out: &mut String, n: u32)
    ensures
        final(out)@ == old(out)@ + fmt_min(n as int),
    decreases n,
{
    if n < 10 {
        push_digit(out, n as u8);
    } else {
        push_min(out, n / 10);
        push_digit(out, (n % 10) as u8);
        proof {
            assert(old(out)@ + fmt_min(n as int / 10) + seq![dec_digit_char(n as int % 10)]
                =~= old(out)@ + fmt_min(n as int));
        }
    }
}

/// The digit part of an optionally signed number.
pub open spec fn int_body(s: Seq<char>) -> Seq<char> {
    if s.len() > 0 && (s[0] == '+' || s[0] == '-') {
        s.drop_first()
    } else {
        s
    }
}

/// The sign of an optionally signed number.
pub open spec fn int_sign(s: Seq<char>) -> int {
    if s.len() > 0 && s[0] == '-' {
        -1
    } else {
        1
    }
}

/// `s` is a decimal `i64`: an optional sign, at least one digit, and a value
/// in range.
pub open spec fn is_i64_literal(s: Seq<char>) -> bool {
    let b = int_body(s);
    &&& b.len() > 0
    &&& all_dec_digits(b)
    &&& -9223372036854775808 <= int_sign(s) * dec_value(b) <= 9223372036854775807
}

/// The value of a decimal `i64` literal.
pub open spec fn i64_value(s: Seq<char>) -> int {
    int_sign(s) * dec_value(int_body(s))
}

/// Leading zero-valued digits do not change a digit string's value.
pub proof fn lemma_strip_zeros(s: Seq<char>, k: int)
    requires
        0 <= k <= s.len(),
        forall|j: int| 0 <= j < k ==> digit_val(#[trigger] s[j]) == 0,
    ensures
        dec_value(s) == dec_value(s.subrange(k, s.len() as int)),
    decreases k,
{
    if k > 0 {
        let tail = s.drop_first();
        assert(s =~= seq![s[0]] + tail);
        lemma_leading_zero(s[0], tail);
        assert(forall|j: int|
            0 <= j < k - 1 ==> tail[j] == s[j + 1] && digit_val(#[trigger] s[j + 1]) == 0);
        lemma_strip_zeros(tail, k - 1);
        assert(tail.subrange(k - 1, tail.len() as int) =~= s.subrange(k, s.len() as int));
    } else {
        assert(s.subrange(0, s.len() as int) =~= s);
    }
}

/// A digit string that does not start with zero is at least ten to one less
/// than its length.
pub proof fn lemma_dec_lower_bound(s: Seq<char>)
    requires
        all_dec_digits(s),
        s.len() > 0,
        digit_val(s[0]) >= 1,
    ensures
        dec_value(s) >= pow10((s.len() - 1) as nat),
    decreases s.len(),
{
    assert(is_dec_digit(s[0]));
    if s.len() == 1 {
        assert(dec_value(s.drop_last()) == 0) by {
            assert(s.drop_last() =~= Seq::<char>::empty());
        }
    } else {
        let h = s.drop_last();
        assert(forall|i: int|
            0 <= i < h.len() ==> is_dec_digit(#[trigger] h[i]) == is_dec_digit(s[i]));
        lemma_dec_lower_bound(h);
        let p = pow10((s.len() - 2) as nat);
        assert(dec_value(h) >= p ==> dec_value(h) * 10 >= p * 10) by (nonlinear_arith);
        assert(digit_val(s.last()) >= 0);
        assert(pow10((s.len() - 1) as nat) == 10 * p);
    }
}

/// Parse the characters of `v` at positions `[from, to)` as a decimal `i64`.
/// Returns its value exactly when they form an in-range `i64` literal.
pub fn parse_i64(v: &Vec<char>, from: usize, to: usize) -> (r: Option<i64>)
    requires
        from <= to <= v@.len(),
    ensures
        match r {
            Some(x) => is_i64_literal(v@.subrange(from as int, to as int)) && x == i64_value(
                v@.subrange(from as int, to as int),
            ),
            None => !is_i64_literal(v@.subrange(from as int, to as int)),
        },
{
    let vlen = v.len();
    proof {
        assert(vlen == v@.len());
    }
    let ghost s = v@.subrange(from as int, to as int);
    let (neg, dstart): (bool, usize) = if from < to && (v[from] == '+' || v[from] == '-') {
        (v[from] == '-', from + 1)
    } else {
        (false, from)
    };
    let ghost b = int_body(s);
    proof {
        assert(b =~= v@.subrange(dstart as int, to as int));
    }
    if dstart == to {
        return None;
    }
    if !crate::time::all_digits_x(v, dstart, to) {
        return None;
    }
    let mut z = dstart;
    while z < to && v[z] as u32 == 48
        invariant
            dstart <= z <= to <= v@.len(),
            forall|j: int| dstart <= j < z ==> digit_val(#[trigger] v@[j]) == 0,
        decreases to - z,
    {
        z = z + 1;
    }
    proof {
        assert(forall|j: int|
            0 <= j < z - dstart ==> b[j] == v@[dstart + j] && digit_val(
                #[trigger] b[j],
            ) == 0);
        lemma_strip_zeros(b, z - dstart);
        assert(b.subrange(z - dstart, b.len() as int) =~= v@.subrange(z as int, to as int));
    }
    let ghost digs = v@.subrange(z as int, to as int);
    if to - z > 19 {
        proof {
            assert(forall|j: int|
                0 <= j < digs.len() ==> is_dec_digit(#[trigger] digs[j]) == is_dec_digit(
                    b[j + z - dstart],
                ));
            assert(digs[0] == v@[z as int]);
            assert(digit_val(digs[0]) >= 1);
            lemma_dec_lower_bound(digs);
            lemma_pow10_monotone(19, (digs.len() - 1) as nat);
            assert(pow10(19) == 10000000000000000000) by {
                reveal_with_fuel(pow10, 20);
            }
        }
        return None;
    }
    let mut acc: u64 = 0;
    let mut i = z;
    proof {
        lemma_pow10_monotone(0, 19);
        assert(pow10(19) == 10000000000000000000) by {
            reveal_with_fuel(pow10, 20);
        }
        assert(v@.subrange(z as int, z as int) =~= Seq::<char>::empty());
    }
    while i < to
        invariant
            z <= i <= to <= v@.len(),
            to - z <= 19,
            all_dec_digits(v@.subrange(dstart as int, to as int)),
            dstart <= z,
            acc == dec_value(v@.subrange(z as int, i as int)),
            acc < pow10((i - z) as nat),
            pow10((i - z) as nat) <= pow10(19),
            pow10(19) == 10000000000000000000,
        decreases to - i,
    {
        let cu = v[i] as u32;
        proof {
            let bb = v@.subrange(dstart as int, to as int);
            assert(bb[i - dstart] == v@[i as int]);
            assert(is_dec_digit(v@[i as int]));
        }
        let d = (cu - 48) as u64;
        proof {
            let pre = v@.subrange(z as int, i as int);
            let post = v@.subrange(z as int, i + 1);
            assert(post.drop_last() =~= pre);
            assert(post.last() == v@[i as int]);
            assert(0 <= acc < pow10((i - z) as nat) && 0 <= d <= 9 ==> acc * 10 + d < 10 * pow10(
                (i - z) as nat,
            )) by (nonlinear_arith);
            lemma_pow10_monotone((i - z + 1) as nat, 19);
        }
        acc = acc * 10 + d;
        i = i + 1;
    }
    proof {
        assert(v@.subrange(z as int, i as int) =~= digs);
        assert(dec_value(b) == acc);
    }
    if neg {
        if acc > 9223372036854775808 {
            return None;
        }
        if acc == 9223372036854775808 {
            Some(i64::MIN)
        } else {
            Some(-(acc as i64))
        }
    } else {
        if acc > 9223372036854775807 {
            return None;
        }
        Some(acc as i64)
    }
}

/// `n` rendered as signed decimal with no leading zeros.
pub open spec fn fmt_i64(n: int) -> Seq<char> {
    if n < 0 {
        seq!['-'] + fmt_min(0 - n)
    } else {
        fmt_min(n)
    }
}

/// Append `n` in minimal decimal form to `out`.
pub fn push_min64(out: &mut String, n: u64)
    ensures
        final(out)@ == old(out)@ + fmt_min(n as int),
    decreases n,
{
    if n < 10 {
        push_digit(out, n as u8);
    } else {
        push_min64(out, n / 10);
        push_digit(out, (n % 10) as u8);
        proof {
            assert(old(out)@ + fmt_min(n as int / 10) + seq![dec_digit_char(n as int % 10)]
                =~= old(out)@ + fmt_min(n as int));
        }
    }
}

/// Append `n` in signed minimal decimal form to `out`.
pub fn push_i64(out: &mut String, n: i64)
    ensures
        final(out)@ == old(out)@ + fmt_i64(n as int),
{
    if n < 0 {
        let s: &str = "-";
        proof {
            reveal_strlit("-");
            assert(s@ =~= seq!['-']);
        }
        out.append(s);
        let m: u64 = (0i128 - n as i128) as u64;
        push_min64(out, m);
        proof {
            assert(old(out)@ + seq!['-'] + fmt_min(m as int) =~= old(out)@ + fmt_i64(n as int));
        }
    } else {
        push_min64(out, n as u64);
    }
}

} // verus!
