//! Decimal digit runs: recognition, parsing, rendering and zero-padding.

use vstd::prelude::*;

verus! {

/// ASCII decimal digit.
pub open spec fn is_digit(c: char) -> bool {
    ('0' as u32) <= (c as u32) && (c as u32) <= ('9' as u32)
}

/// Value of one decimal digit.
pub open spec fn digit_val(c: char) -> nat
    recommends
        is_digit(c),
{
    ((c as u32) - ('0' as u32)) as nat
}

pub open spec fn all_digits(s: Seq<char>) -> bool {
    forall|i: int| 0 <= i < s.len() ==> is_digit(s[i])
}

/// Value of a digit run, most significant digit first.
pub open spec fn digits_val(s: Seq<char>) -> nat
    decreases s.len(),
{
    if s.len() == 0 {
        0
    } else {
        digits_val(s.drop_last()) * 10 + digit_val(s.last())
    }
}

/// What `str::parse::<usize>` accepts of a digit run: non-empty, all digits,
/// value within the machine range.
pub open spec fn parse_nat(s: Seq<char>) -> Option<nat> {
    if s.len() >= 1 && all_digits(s) && digits_val(s) <= usize::MAX {
        Some(digits_val(s))
    } else {
        None
    }
}

pub open spec fn digit_char(d: nat) -> char
    recommends
        d < 10,
{
    if d == 0 {
        '0'
    } else if d == 1 {
        '1'
    } else if d == 2 {
        '2'
    } else if d == 3 {
        '3'
    } else if d == 4 {
        '4'
    } else if d == 5 {
        '5'
    } else if d == 6 {
        '6'
    } else if d == 7 {
        '7'
    } else if d == 8 {
        '8'
    } else {
        '9'
    }
}

/// Decimal rendering of a natural number, no leading zeros (except "0").
pub open spec fn dec_of(n: nat) -> Seq<char>
    decreases n,
{
    if n < 10 {
        seq![digit_char(n)]
    } else {
        dec_of(n / 10).push(digit_char(n % 10))
    }
}

pub open spec fn zeros(n: nat) -> Seq<char>
    decreases n,
{
    if n == 0 {
        Seq::empty()
    } else {
        zeros((n - 1) as nat).push('0')
    }
}

/// Left-pad with zeros up to width `w`; longer runs are kept whole.
pub open spec fn pad_left(s: Seq<char>, w: nat) -> Seq<char> {
    if s.len() >= w {
        s
    } else {
        zeros((w - s.len()) as nat) + s
    }
}

/// Rendering of a signed value zero-padded to a total width, the way the
/// standard zero-fill format works: a minus sign counts toward the width.
pub open spec fn render_int(v: int, w: nat) -> Seq<char> {
    if v < 0 {
        seq!['-'] + pad_left(dec_of((-v) as nat), if w == 0 { 0 } else { (w - 1) as nat })
    } else {
        pad_left(dec_of(v as nat), w)
    }
}

pub open spec fn spec_pow10(n: nat) -> nat
    decreases n,
{
    if n == 0 {
        1
    } else {
        spec_pow10((n - 1) as nat) * 10
    }
}

proof fn lemma_digits_val_drop_le(s: Seq<char>)
    requires
        s.len() >= 1,
    ensures
        digits_val(s.drop_last()) <= digits_val(s),
{
}

/// A prefix of a digit run never exceeds the run's value.
pub proof fn lemma_digits_val_prefix_le(s: Seq<char>, i: int)
    requires
        0 <= i <= s.len(),
    ensures
        digits_val(s.take(i)) <= digits_val(s),
    decreases s.len() - i,
{
    if i == s.len() {
        assert(s.take(i) =~= s);
    } else {
        lemma_digits_val_prefix_le(s, i + 1);
        assert(s.take(i + 1).drop_last() =~= s.take(i));
        lemma_digits_val_drop_le(s.take(i + 1));
    }
}

pub exec fn is_digit_exec(c: char) -> (r: bool)
    ensures
        r == is_digit(c),
{
    c >= '0' && c <= '9'
}

pub exec fn digit_val_exec(c: char) -> (r: u32)
    requires
        is_digit(c),
    ensures
        r as nat == digit_val(c),
        r < 10,
{
    (c as u32) - ('0' as u32)
}

/// Parse a digit run; mirrors `str::parse::<usize>` on such input.
pub exec fn parse_digits(s: &Vec<char>) -> (r: Option<usize>)
    ensures
        match r {
            Some(v) => parse_nat(s@) == Some(v as nat),
            None => parse_nat(s@) is None,
        },
{
    if s.len() == 0 {
        return None;
    }
    let mut acc: usize = 0;
    let mut i: usize = 0;
    while i < s.len()
        invariant
            0 <= i <= s@.len(),
            all_digits(s@.take(i as int)),
            acc as nat == digits_val(s@.take(i as int)),
        decreases s@.len() - i,
    {
        let c = s[i];
        if !is_digit_exec(c) {
            return None;
        }
        let d = digit_val_exec(c) as usize;
        proof {
            assert(s@.take(i + 1).drop_last() =~= s@.take(i as int));
            assert(s@.take(i + 1).last() == s@[i as int]);
        }
        if acc > (usize::MAX - d) / 10 {
            proof {
                assert(digits_val(s@.take(i + 1)) == acc * 10 + d);
                assert(acc * 10 + d > usize::MAX) by (nonlinear_arith)
                    requires
                        acc > (usize::MAX - d) / 10,
                        d < 10,
                ;
                lemma_digits_val_prefix_le(s@, i + 1);
            }
            return None;
        }
        proof {
            assert(acc * 10 + d <= usize::MAX) by (nonlinear_arith)
                requires
                    acc <= (usize::MAX - d) / 10,
                    d < 10,
            ;
        }
        acc = acc * 10 + d;
        i = i + 1;
    }
    proof {
        assert(s@.take(i as int) =~= s@);
    }
    Some(acc)
}

pub exec fn digit_char_exec(d: usize) -> (c: char)
    requires
        d < 10,
    ensures
        c == digit_char(d as nat),
{
    if d == 0 {
        '0'
    } else if d == 1 {
        '1'
    } else if d == 2 {
        '2'
    } else if d == 3 {
        '3'
    } else if d == 4 {
        '4'
    } else if d == 5 {
        '5'
    } else if d == 6 {
        '6'
    } else if d == 7 {
        '7'
    } else if d == 8 {
        '8'
    } else {
        '9'
    }
}

/// Decimal rendering of a machine natural.
pub exec fn render_dec(n: usize) -> (v: Vec<char>)
    ensures
        v@ == dec_of(n as nat),
    decreases n,
{
    if n < 10 {
        let mut v: Vec<char> = Vec::new();
        v.push(digit_char_exec(n));
        proof {
            assert(v@ =~= dec_of(n as nat));
        }
        v
    } else {
        let mut v = render_dec(n / 10);
        v.push(digit_char_exec(n % 10));
        v
    }
}

/// Append `n` zeros.
pub exec fn push_zeros(v: &mut Vec<char>, n: usize)
    ensures
        final(v)@ == old(v)@ + zeros(n as nat),
{
    let mut i: usize = 0;
    while i < n
        invariant
            0 <= i <= n,
            v@ == old(v)@ + zeros(i as nat),
        decreases n - i,
    {
        v.push('0');
        proof {
            assert(zeros((i + 1) as nat) == zeros(i as nat).push('0'));
            assert(old(v)@ + zeros(i as nat).push('0') =~= (old(v)@ + zeros(i as nat)).push('0'));
        }
        i = i + 1;
    }
    proof {
        assert(v@ =~= old(v)@ + zeros(n as nat));
    }
}

/// Zero-padded rendering of a signed value given as sign and magnitude.
pub exec fn render_int_exec(negative: bool, mag: usize, w: usize) -> (r: Vec<char>)
    requires
        negative ==> mag >= 1,
    ensures
        r@ == render_int(if negative { -(mag as int) } else { mag as int }, w as nat),
{
    let ghost v: int = if negative { -(mag as int) } else { mag as int };
    if negative {
        let mut out: Vec<char> = Vec::new();
        out.push('-');
        let digits = render_dec(mag);
        let inner_w: usize = if w == 0 {
            0
        } else {
            w - 1
        };
        if digits.len() >= inner_w {
            let mut j: usize = 0;
            while j < digits.len()
                invariant
                    0 <= j <= digits@.len(),
                    digits@ == dec_of(mag as nat),
                    out@ == seq!['-'] + digits@.take(j as int),
                decreases digits@.len() - j,
            {
                out.push(digits[j]);
                proof {
                    assert(digits@.take(j + 1) =~= digits@.take(j as int).push(digits@[j as int]));
                    assert(seq!['-'] + digits@.take(j as int).push(digits@[j as int]) =~= (seq![
                        '-',
                    ] + digits@.take(j as int)).push(digits@[j as int]));
                }
                j = j + 1;
            }
            proof {
                assert(digits@.take(digits@.len() as int) =~= digits@);
                assert(out@ =~= render_int(v, w as nat));
            }
            out
        } else {
            push_zeros(&mut out, inner_w - digits.len());
            let mut j: usize = 0;
            while j < digits.len()
                invariant
                    0 <= j <= digits@.len(),
                    digits@ == dec_of(mag as nat),
                    out@ == seq!['-'] + zeros((inner_w - digits@.len()) as nat) + digits@.take(
                        j as int,
                    ),
                decreases digits@.len() - j,
            {
                out.push(digits[j]);
                proof {
                    assert(digits@.take(j + 1) =~= digits@.take(j as int).push(digits@[j as int]));
                    assert((seq!['-'] + zeros((inner_w - digits@.len()) as nat) + digits@.take(
                        j + 1,
                    )) =~= (seq!['-'] + zeros((inner_w - digits@.len()) as nat) + digits@.take(
                        j as int,
                    )).push(digits@[j as int]));
                }
                j = j + 1;
            }
            proof {
                assert(digits@.take(digits@.len() as int) =~= digits@);
                assert(out@ =~= render_int(v, w as nat));
            }
            out
        }
    } else {
        let digits = render_dec(mag);
        if digits.len() >= w {
            proof {
                assert(digits@ =~= render_int(v, w as nat));
            }
            digits
        } else {
            let mut out: Vec<char> = Vec::new();
            push_zeros(&mut out, w - digits.len());
            let mut j: usize = 0;
            while j < digits.len()
                invariant
                    0 <= j <= digits@.len(),
                    digits@ == dec_of(mag as nat),
                    out@ == zeros((w - digits@.len()) as nat) + digits@.take(j as int),
                decreases digits@.len() - j,
            {
                out.push(digits[j]);
                proof {
                    assert(digits@.take(j + 1) =~= digits@.take(j as int).push(digits@[j as int]));
                    assert((zeros((w - digits@.len()) as nat) + digits@.take(j + 1)) =~= (zeros((w
                        - digits@.len()) as nat) + digits@.take(j as int)).push(
                        digits@[j as int],
                    ));
                }
                j = j + 1;
            }
            proof {
                assert(digits@.take(digits@.len() as int) =~= digits@);
                assert(out@ =~= render_int(v, w as nat));
            }
            out
        }
    }
}

/// Ten to the `n`-th, while it fits the machine range.
pub exec fn pow10_checked(n: usize) -> (r: Option<usize>)
    ensures
        match r {
            Some(v) => v as nat == spec_pow10(n as nat) && spec_pow10(n as nat) <= usize::MAX,
            None => spec_pow10(n as nat) > usize::MAX,
        },
{
    let mut acc: usize = 1;
    let mut i: usize = 0;
    while i < n
        invariant
            0 <= i <= n,
            acc as nat == spec_pow10(i as nat),
        decreases n - i,
    {
        if acc > usize::MAX / 10 {
            proof {
                assert(acc * 10 > usize::MAX) by (nonlinear_arith)
                    requires
                        acc > usize::MAX / 10,
                ;
                lemma_pow10_mono((i + 1) as nat, n as nat);
            }
            return None;
        }
        proof {
            assert(acc * 10 <= usize::MAX) by (nonlinear_arith)
                requires
                    acc <= usize::MAX / 10,
            ;
        }
        acc = acc * 10;
        i = i + 1;
    }
    Some(acc)
}

/// Powers of ten are positive.
pub proof fn lemma_pow10_pos(n: nat)
    ensures
        spec_pow10(n) >= 1,
    decreases n,
{
    if n > 0 {
        lemma_pow10_pos((n - 1) as nat);
    }
}

/// Powers of ten are monotone in the exponent.
pub proof fn lemma_pow10_mono(a: nat, b: nat)
    requires
        a <= b,
    ensures
        spec_pow10(a) <= spec_pow10(b),
    decreases b - a,
{
    if a < b {
        lemma_pow10_mono(a, (b - 1) as nat);
        assert(spec_pow10(b) == spec_pow10((b - 1) as nat) * 10);
    }
}

} // verus!
