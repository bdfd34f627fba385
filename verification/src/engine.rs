//! The executable scan: the state it threads, the small helpers that mirror
//! the model's scanners one for one, and one full construct step.

use vstd::prelude::*;
use crate::alphabets::{
    class_add_exec, class_add_range_exec, complement_exec, escape_expansion_exec,
    escape_literal_exec,
};
use crate::model::{
    bump, draw_at, find_char, iw_digits, iw_end, lemma_bump_bump, lemma_class_scan_range,
    lemma_find_char_before, lemma_find_char_hit, lemma_find_char_range, class_scan, repeat_char, sample_seq,
    scan_digits, scan_nondigits, spec_increment, spec_quant, Env, GenError, Quant, Scan,
};
use vstd::pervasive::VecAdditionalExecFns;
use crate::numerals::{
    digit_val_exec, is_digit, is_digit_exec, lemma_pow10_mono, parse_digits, pow10_checked,
    render_int_exec, spec_pow10,
};

verus! {

/// The scan's executable state; [`st_view`] reads it as the model's [`Scan`].
pub struct ScanSt {
    pub pos: usize,
    pub k: usize,
    pub out: Vec<char>,
    pub stack: Vec<(usize, Vec<char>)>,
    pub next_ord: usize,
    pub groups: Vec<Option<Vec<char>>>,
    pub counter: Option<Vec<char>>,
    pub ascending: bool,
    pub width: Option<usize>,
    pub cursor: usize,
}

pub open spec fn stack_view(s: Seq<(usize, Vec<char>)>) -> Seq<(nat, Seq<char>)> {
    Seq::new(s.len(), |i: int| (s[i].0 as nat, s[i].1@))
}

pub open spec fn st_view(st: ScanSt) -> Scan {
    Scan {
        pos: st.pos as nat,
        k: st.k as nat,
        out: st.out@,
        stack: stack_view(st.stack@),
        next_ord: st.next_ord as nat,
        groups: st.groups.deep_view(),
        counter: match st.counter {
            Some(v) => Some(v@),
            None => None,
        },
        ascending: st.ascending,
        width: st.width,
        cursor: st.cursor as nat,
    }
}

/// Copy a character vector.
pub exec fn copy_chars(v: &Vec<char>) -> (r: Vec<char>)
    ensures
        r@ == v@,
{
    let mut r: Vec<char> = Vec::new();
    let mut i: usize = 0;
    while i < v.len()
        invariant
            0 <= i <= v@.len(),
            r@ == v@.take(i as int),
        decreases v@.len() - i,
    {
        r.push(v[i]);
        proof {
            assert(v@.take(i + 1) =~= v@.take(i as int).push(v@[i as int]));
        }
        i = i + 1;
    }
    proof {
        assert(v@.take(v@.len() as int) =~= v@);
    }
    r
}

/// Copy a subrange of a character vector.
pub exec fn copy_range(v: &Vec<char>, a: usize, b: usize) -> (r: Vec<char>)
    requires
        a <= b <= v@.len(),
    ensures
        r@ == v@.subrange(a as int, b as int),
{
    let mut r: Vec<char> = Vec::new();
    let mut i: usize = a;
    while i < b
        invariant
            a <= i <= b <= v@.len(),
            r@ == v@.subrange(a as int, i as int),
        decreases b - i,
    {
        r.push(v[i]);
        proof {
            assert(v@.subrange(a as int, i + 1) =~= v@.subrange(a as int, i as int).push(
                v@[i as int],
            ));
        }
        i = i + 1;
    }
    r
}

/// Append one vector to another.
pub exec fn extend_chars(dst: &mut Vec<char>, src: &Vec<char>)
    ensures
        final(dst)@ == old(dst)@ + src@,
{
    let mut i: usize = 0;
    while i < src.len()
        invariant
            0 <= i <= src@.len(),
            dst@ == old(dst)@ + src@.take(i as int),
        decreases src@.len() - i,
    {
        dst.push(src[i]);
        proof {
            assert(old(dst)@ + src@.take(i + 1) =~= (old(dst)@ + src@.take(i as int)).push(
                src@[i as int],
            ));
        }
        i = i + 1;
    }
    proof {
        assert(old(dst)@ + src@.take(src@.len() as int) =~= old(dst)@ + src@);
    }
}

/// The characters of a pattern or seed string.
pub exec fn str_to_chars(s: &str) -> (r: Vec<char>)
    ensures
        r@ == s@,
{
    let n = s.unicode_len();
    let mut r: Vec<char> = Vec::new();
    let mut i: usize = 0;
    while i < n
        invariant
            0 <= i <= n,
            n as nat == s@.len(),
            r@ == s@.take(i as int),
        decreases n - i,
    {
        r.push(s.get_char(i));
        proof {
            assert(s@.take(i + 1) =~= s@.take(i as int).push(s@[i as int]));
        }
        i = i + 1;
    }
    proof {
        assert(s@.take(s@.len() as int) =~= s@);
    }
    r
}

/// Append text to the current sink: the innermost open group's accumulator,
/// or the top-level output.
pub exec fn emit_copy(st: &mut ScanSt, t: &Vec<char>)
    ensures
        st_view(*final(st)) == crate::model::spec_emit(st_view(*old(st)), t@),
{
    let ghost s0 = st_view(*old(st));
    if st.stack.len() > 0 {
        match st.stack.pop() {
            Some((ord, mut acc)) => {
                extend_chars(&mut acc, t);
                st.stack.push((ord, acc));
                proof {
                    let target = crate::model::spec_emit(s0, t@);
                    assert(stack_view(st.stack@) =~= target.stack);
                    assert(st_view(*st) == target);
                }
            },
            None => {
                proof {
                    assert(false);
                }
            },
        }
    } else {
        extend_chars(&mut st.out, t);
        proof {
            assert(st_view(*st) == crate::model::spec_emit(s0, t@));
        }
    }
}

/// First position of `c` at or after `from`.
pub exec fn find_char_exec(p: &Vec<char>, c: char, from: usize) -> (r: usize)
    requires
        from <= p@.len(),
    ensures
        r as nat == find_char(p@, c, from as nat),
        from <= r <= p@.len(),
{
    proof {
        lemma_find_char_range(p@, c, from as nat);
    }
    let mut i: usize = from;
    while i < p.len()
        invariant
            from <= i <= p@.len(),
            find_char(p@, c, i as nat) == find_char(p@, c, from as nat),
        decreases p@.len() - i,
    {
        if p[i] == c {
            return i;
        }
        i = i + 1;
    }
    i
}

/// One pre-drawn value reduced to `[0, bound)`.
pub exec fn take_draw(draws: &Vec<usize>, k: usize, bound: usize) -> (r: usize)
    requires
        bound >= 1,
    ensures
        r as nat == draw_at(draws@, k as nat, bound as nat),
        r < bound,
{
    if k < draws.len() {
        draws[k] % bound
    } else {
        0
    }
}

/// Advance the draw index, pegged at the machine maximum.
pub exec fn bump_exec(k: usize, c: usize) -> (r: usize)
    ensures
        r as nat == bump(k as nat, c as nat),
{
    if c > usize::MAX - k {
        usize::MAX
    } else {
        k + c
    }
}

/// One more sample extends the tail.
pub proof fn lemma_sample_snoc(alpha: Seq<char>, ds: Seq<usize>, k0: nat, n: nat)
    requires
        k0 <= usize::MAX,
    ensures
        sample_seq(alpha, ds, k0, n + 1) == sample_seq(alpha, ds, k0, n).push(
            alpha[draw_at(ds, bump(k0, n), alpha.len()) as int],
        ),
    decreases n,
{
    reveal_with_fuel(sample_seq, 2);
    if n == 0 {
        assert(sample_seq(alpha, ds, k0, 1) =~= sample_seq(alpha, ds, k0, 0).push(
            alpha[draw_at(ds, bump(k0, 0), alpha.len()) as int],
        ));
    } else {
        lemma_sample_snoc(alpha, ds, bump(k0, 1), (n - 1) as nat);
        lemma_bump_bump(k0, 1, (n - 1) as nat);
        assert(sample_seq(alpha, ds, k0, n + 1) =~= sample_seq(alpha, ds, k0, n).push(
            alpha[draw_at(ds, bump(k0, n), alpha.len()) as int],
        ));
    }
}

/// Draw `cnt` characters from an alphabet, one pre-drawn value per position.
pub exec fn sample_chars(alpha: &Vec<char>, draws: &Vec<usize>, k0: usize, cnt: usize) -> (t: Vec<
    char,
>)
    requires
        cnt >= 1 ==> alpha@.len() >= 1,
    ensures
        t@ == sample_seq(alpha@, draws@, k0 as nat, cnt as nat),
{
    let mut t: Vec<char> = Vec::new();
    let mut i: usize = 0;
    let mut k: usize = k0;
    while i < cnt
        invariant
            0 <= i <= cnt,
            cnt >= 1 ==> alpha@.len() >= 1,
            k as nat == bump(k0 as nat, i as nat),
            t@ == sample_seq(alpha@, draws@, k0 as nat, i as nat),
        decreases cnt - i,
    {
        let d = take_draw(draws, k, alpha.len());
        t.push(alpha[d]);
        proof {
            lemma_sample_snoc(alpha@, draws@, k0 as nat, i as nat);
            lemma_bump_bump(k0 as nat, i as nat, 1);
        }
        k = bump_exec(k, 1);
        i = i + 1;
    }
    t
}

/// A fixed character repeated `cnt` times.
pub exec fn repeat_chars(c: char, cnt: usize) -> (t: Vec<char>)
    ensures
        t@ == repeat_char(c, cnt as nat),
{
    let mut t: Vec<char> = Vec::new();
    let mut i: usize = 0;
    while i < cnt
        invariant
            0 <= i <= cnt,
            t@ == repeat_char(c, i as nat),
        decreases cnt - i,
    {
        t.push(c);
        i = i + 1;
    }
    t
}

/// Parse the optional `{...}` quantifier suffix at `j`: `Ok(None)` where none
/// starts there, the parsed form and its end, or the malformed-quantifier
/// fault.
pub exec fn check_repeat_spec(p: &Vec<char>, j: usize) -> (r: Result<
    Option<(Quant, usize)>,
    GenError,
>)
    requires
        j <= p@.len(),
    ensures
        match r {
            Ok(None) => spec_quant(p@, j as nat) == Ok::<Option<(Quant, nat)>, GenError>(None),
            Ok(Some((q, after))) => spec_quant(p@, j as nat) == Ok::<
                Option<(Quant, nat)>,
                GenError,
            >(Some((q, after as nat))) && j < after <= p@.len(),
            Err(err) => spec_quant(p@, j as nat) == Err::<Option<(Quant, nat)>, GenError>(err),
        },
{
    if j >= p.len() || p[j] != '{' {
        return Ok(None);
    }
    let e = find_char_exec(p, '}', j + 1);
    if e >= p.len() {
        return Err(GenError::MalformedQuantifier);
    }
    let content = copy_range(p, j + 1, e);
    let after = e + 1;
    let ci = find_char_exec(&content, ':', 0);
    if ci < content.len() {
        let left = copy_range(&content, 0, ci);
        let right = copy_range(&content, ci + 1, content.len());
        proof {
            assert(content@.take(ci as int) =~= left@);
            assert(content@.skip((ci + 1) as int) =~= right@);
        }
        match (parse_digits(&left), parse_digits(&right)) {
            (Some(n), Some(m)) => Ok(Some((Quant::Width(n, m), after))),
            _ => Err(GenError::MalformedQuantifier),
        }
    } else {
        let c1 = find_char_exec(&content, ',', 0);
        if c1 >= content.len() {
            match parse_digits(&content) {
                Some(n) => Ok(Some((Quant::Count(n), after))),
                None => Err(GenError::MalformedQuantifier),
            }
        } else if find_char_exec(&content, ',', c1 + 1) < content.len() {
            Err(GenError::MalformedQuantifier)
        } else {
            let left = copy_range(&content, 0, c1);
            let right = copy_range(&content, c1 + 1, content.len());
            proof {
                assert(content@.take(c1 as int) =~= left@);
                assert(content@.skip((c1 + 1) as int) =~= right@);
            }
            match (parse_digits(&left), parse_digits(&right)) {
                (Some(n), Some(m)) => if n <= m {
                    Ok(Some((Quant::Range(n, m), after)))
                } else {
                    Err(GenError::MalformedQuantifier)
                },
                _ => Err(GenError::MalformedQuantifier),
            }
        }
    }
}

/// Scan a class body starting just past the `[` (and past a `^`): the class
/// in first-insertion order, and the position after the body.
pub exec fn extract_char_class(p: &Vec<char>, j0: usize) -> (r: (Vec<char>, usize))
    requires
        j0 <= p@.len(),
    ensures
        ({
            let scanned = class_scan(p@, j0 as nat, Seq::empty(), None::<char>);
            r.0@ == scanned.0 && r.1 as nat == scanned.1 && j0 <= r.1 <= p@.len()
        }),
{
    proof {
        lemma_class_scan_range(p@, j0 as nat, Seq::empty(), None::<char>);
    }
    let mut acc: Vec<char> = Vec::new();
    let mut rs: Option<char> = None;
    let mut i: usize = j0;
    while i < p.len()
        invariant
            j0 <= i <= p@.len(),
            class_scan(p@, i as nat, acc@, rs) == class_scan(p@, j0 as nat, Seq::empty(), None::<
                char,
            >),
        decreases p@.len() - i,
    {
        let c = p[i];
        if c == ']' {
            return (acc, i + 1);
        } else if c == '-' && rs.is_some() {
            if i + 1 < p.len() {
                let start = match rs {
                    Some(sc) => sc,
                    None => ' ',
                };
                class_add_range_exec(&mut acc, start, p[i + 1]);
                rs = None;
                i = i + 2;
            } else {
                return (acc, p.len());
            }
        } else {
            class_add_exec(&mut acc, c);
            rs = Some(c);
            i = i + 1;
        }
    }
    (acc, p.len())
}

/// Move a counter value one step: the exec twin of [`spec_increment`].
pub exec fn increment_string(value: &Vec<char>, ascending: bool, width: Option<usize>) -> (r: Vec<
    char,
>)
    ensures
        r@ == spec_increment(value@, ascending, width),
{
    let mut pstart: usize = 0;
    while pstart < value.len() && !is_digit_exec(value[pstart])
        invariant
            0 <= pstart <= value@.len(),
            scan_nondigits(value@, pstart as nat) == scan_nondigits(value@, 0),
        decreases value@.len() - pstart,
    {
        pstart = pstart + 1;
    }
    let mut dend: usize = pstart;
    while dend < value.len() && is_digit_exec(value[dend])
        invariant
            pstart <= dend <= value@.len(),
            scan_digits(value@, dend as nat) == scan_digits(value@, pstart as nat),
            forall|q: int| pstart <= q < dend ==> is_digit(value@[q]),
        decreases value@.len() - dend,
    {
        dend = dend + 1;
    }
    proof {
        assert(scan_nondigits(value@, 0) == pstart as nat);
        assert(scan_digits(value@, pstart as nat) == dend as nat);
    }
    let mut prefix = copy_range(value, 0, pstart);
    let digits = copy_range(value, pstart, dend);
    proof {
        assert(value@.take(pstart as int) =~= value@.subrange(0, pstart as int));
    }
    let parsed = parse_digits(&digits);
    match parsed {
        Some(v) if v <= i32::MAX as usize => {
            if ascending && v == i32::MAX as usize {
                extend_chars(&mut prefix, &digits);
                prefix
            } else {
                let w = match width {
                    Some(wv) => wv,
                    None => digits.len(),
                };
                let rendered = if ascending {
                    render_int_exec(false, v + 1, w)
                } else if v == 0 {
                    render_int_exec(true, 1, w)
                } else {
                    render_int_exec(false, v - 1, w)
                };
                extend_chars(&mut prefix, &rendered);
                prefix
            }
        },
        _ => {
            extend_chars(&mut prefix, &digits);
            prefix
        },
    }
}

/// Relies on `String::push`: it appends exactly the one character.
#[verifier::external_body]
fn push_char(s: &mut String, c: char)
    ensures
        final(s)@ == old(s)@ + seq![c],
{
    s.push(c);
}

/// Assemble a `String` from its characters.
pub exec fn chars_to_string(v: &Vec<char>) -> (s: String)
    ensures
        s@ == v@,
{
    let mut s = String::new();
    let mut i: usize = 0;
    while i < v.len()
        invariant
            0 <= i <= v@.len(),
            s@ == v@.take(i as int),
        decreases v@.len() - i,
    {
        push_char(&mut s, v[i]);
        proof {
            assert(v@.take(i as int) + seq![v@[i as int]] =~= v@.take(i + 1));
        }
        i = i + 1;
    }
    proof {
        assert(v@.take(v@.len() as int) =~= v@);
    }
    s
}

/// Read a counter width suffix body starting just past its `{`: the digits
/// it holds and the position after it.
pub exec fn scan_iw(p: &Vec<char>, j: usize) -> (r: (Vec<char>, usize))
    requires
        j <= p@.len(),
    ensures
        r.0@ == iw_digits(p@, j as nat),
        r.1 as nat == iw_end(p@, j as nat),
        j <= r.1 <= p@.len(),
{
    let e = find_char_exec(p, '}', j);
    let mut acc: Vec<char> = Vec::new();
    let mut i: usize = j;
    while i < e
        invariant
            j <= i <= e <= p@.len(),
            e as nat == find_char(p@, '}', j as nat),
            acc@ + iw_digits(p@, i as nat) == iw_digits(p@, j as nat),
        decreases e - i,
    {
        proof {
            lemma_find_char_before(p@, '}', j as nat, i as nat);
        }
        let c = p[i];
        if is_digit_exec(c) {
            acc.push(c);
            proof {
                assert(acc@ + iw_digits(p@, (i + 1) as nat) =~= iw_digits(p@, j as nat));
            }
        }
        i = i + 1;
    }
    proof {
        if (e as nat) < p@.len() {
            lemma_find_char_hit(p@, '}', j as nat);
        }
        assert(iw_digits(p@, e as nat) == Seq::<char>::empty());
        assert(acc@ =~= iw_digits(p@, j as nat));
    }
    if e >= p.len() {
        (acc, p.len())
    } else {
        (acc, e + 1)
    }
}

/// Draw a repetition count offset for `{n,m}`: a value in `[0, m - n]`.
pub exec fn range_draw(draws: &Vec<usize>, k: usize, n: usize, m: usize) -> (r: usize)
    requires
        n <= m,
    ensures
        r as nat == draw_at(draws@, k as nat, (m + 1 - n) as nat),
        r <= m - n,
{
    if m - n < usize::MAX {
        take_draw(draws, k, m - n + 1)
    } else {
        let raw = if k < draws.len() {
            draws[k]
        } else {
            0
        };
        proof {
            assert(m - n == usize::MAX);
            vstd::arithmetic::div_mod::lemma_small_mod(raw as nat, (m + 1 - n) as nat);
        }
        raw
    }
}

/// The `{n:m}` numeric token: a number of exactly `n` digits drawn from the
/// stream, zero-padded to width `m`; a width the machine cannot draw is a
/// malformed quantifier.
pub exec fn numeric_token(n: usize, m: usize, draws: &Vec<usize>, k: usize) -> (r: Result<
    Vec<char>,
    GenError,
>)
    ensures
        match r {
            Ok(t) => crate::model::width_ok(n as nat) && t@ == crate::model::numeric_text(
                n as nat,
                m as nat,
                draws@,
                k as nat,
            ),
            Err(err) => !crate::model::width_ok(n as nat) && err == GenError::MalformedQuantifier,
        },
{
    if n == 0 {
        return Err(GenError::MalformedQuantifier);
    }
    let hi = match pow10_checked(n) {
        Some(h) => h,
        None => {
            return Err(GenError::MalformedQuantifier);
        },
    };
    let lo = match pow10_checked(n - 1) {
        Some(l) => l,
        None => {
            proof {
                lemma_pow10_mono((n - 1) as nat, n as nat);
            }
            return Err(GenError::MalformedQuantifier);
        },
    };
    proof {
        crate::numerals::lemma_pow10_pos((n - 1) as nat);
        assert(spec_pow10(n as nat) == spec_pow10((n - 1) as nat) * 10);
        assert(hi == lo * 10);
        assert(lo >= 1);
        assert(lo < hi) by (nonlinear_arith)
            requires
                hi == lo * 10,
                lo >= 1,
        ;
    }
    let dr = take_draw(draws, k, hi - lo);
    let t = render_int_exec(false, lo + dr, m);
    Ok(t)
}

/// Emit `cnt` draws from a class alphabet; an empty alphabet that must be
/// sampled is the empty-alphabet fault.
pub exec fn class_emit(
    st: &mut ScanSt,
    draws: &Vec<usize>,
    alpha: &Vec<char>,
    cnt: usize,
    k0: usize,
    after: usize,
) -> (r: Result<(), GenError>)
    ensures
        match r {
            Ok(_) => crate::model::emit_draws(
                st_view(*old(st)),
                alpha@,
                draws@,
                cnt as nat,
                k0 as nat,
                after as nat,
            ) == Ok::<Scan, GenError>(st_view(*final(st))),
            Err(err) => crate::model::emit_draws(
                st_view(*old(st)),
                alpha@,
                draws@,
                cnt as nat,
                k0 as nat,
                after as nat,
            ) == Err::<Scan, GenError>(err) && *final(st) == *old(st),
        },
{
    if cnt >= 1 && alpha.len() == 0 {
        return Err(GenError::EmptyAlphabet);
    }
    let t = sample_chars(alpha, draws, k0, cnt);
    st.k = bump_exec(k0, cnt);
    st.pos = after;
    emit_copy(st, &t);
    Ok(())
}


/// The counter directive `\i`, executed.
exec fn counter_step(p: &Vec<char>, st: &mut ScanSt)
    requires
        old(st).pos + 2 <= p@.len(),
    ensures
        ({
            let e = Env { p: p@, pool: None, ds: Seq::empty() };
            st_view(*final(st)) == crate::model::step_counter(e, st_view(*old(st)))
        }),
{
    let ghost e = Env { p: p@, pool: None, ds: Seq::empty() };
    let ghost s0 = st_view(*st);
    let plen = p.len();
    let j0 = st.pos + 2;
    let plus = j0 < plen && p[j0] == '+';
    let minus = j0 < plen && p[j0] == '-';
    let asc = if plus {
        true
    } else if minus {
        false
    } else {
        st.ascending
    };
    let j1 = if plus || minus {
        j0 + 1
    } else {
        j0
    };
    let braced = j1 < plen && p[j1] == '{';
    let mut w = st.width;
    let mut j2 = j1;
    if braced {
        let (digits, endpos) = scan_iw(p, j1 + 1);
        match parse_digits(&digits) {
            Some(v) => {
                w = Some(v);
            },
            None => {},
        }
        j2 = endpos;
    }
    let newtext: Option<Vec<char>> = match &st.counter {
        Some(v) => Some(increment_string(v, asc, w)),
        None => None,
    };
    match newtext {
        Some(nv) => {
            let emitted = copy_chars(&nv);
            st.counter = Some(nv);
            st.ascending = asc;
            st.width = w;
            st.pos = j2;
            emit_copy(st, &emitted);
        },
        None => {
            st.ascending = asc;
            st.width = w;
            st.pos = j2;
            let t = vec!['0'];
            proof {
                assert(t@ =~= seq!['0']);
            }
            emit_copy(st, &t);
        },
    }
    proof {
        assert(st_view(*st) == crate::model::step_counter(e, s0));
    }
}

/// The pool directive `\a`, executed.
exec fn pool_step(p: &Vec<char>, pool: &Option<Vec<Vec<char>>>, draws: &Vec<usize>, st: &mut ScanSt)
    requires
        old(st).pos + 2 <= p@.len(),
        match *pool {
            Some(ref arr) => (if arr@.len() == 0 {
                old(st).cursor == 0
            } else {
                old(st).cursor < arr@.len()
            }),
            None => old(st).cursor == 0,
        },
    ensures
        ({
            let e = Env { p: p@, pool: pool.deep_view(), ds: draws@ };
            st_view(*final(st)) == crate::model::step_pool(e, st_view(*old(st)))
        }),
{
    let ghost e = Env { p: p@, pool: pool.deep_view(), ds: draws@ };
    let ghost s0 = st_view(*st);
    let plen = p.len();
    let j0 = st.pos + 2;
    let plus = j0 < plen && p[j0] == '+';
    let minus = j0 < plen && p[j0] == '-';
    let j = if plus || minus {
        j0 + 1
    } else {
        j0
    };
    match pool {
        Some(arr) => {
            if arr.len() == 0 {
                st.pos = j;
            } else {
                let len = arr.len();
                if plus {
                    let idx = st.cursor % len;
                    proof {
                        assert(arr@[idx as int].deep_view() =~= arr@[idx as int]@);
                    }
                    let t = copy_chars(&arr[idx]);
                    st.cursor = (st.cursor + 1) % len;
                    st.pos = j;
                    emit_copy(st, &t);
                } else if minus {
                    let idx = len - 1 - (st.cursor % len);
                    proof {
                        assert(arr@[idx as int].deep_view() =~= arr@[idx as int]@);
                    }
                    let t = copy_chars(&arr[idx]);
                    st.cursor = (st.cursor + 1) % len;
                    st.pos = j;
                    emit_copy(st, &t);
                } else {
                    let d = take_draw(draws, st.k, len);
                    proof {
                        assert(arr@[d as int].deep_view() =~= arr@[d as int]@);
                    }
                    let t = copy_chars(&arr[d]);
                    st.k = bump_exec(st.k, 1);
                    st.pos = j;
                    emit_copy(st, &t);
                }
            }
        },
        None => {
            st.pos = j;
        },
    }
    proof {
        assert(st_view(*st) == crate::model::step_pool(e, s0));
    }
}

/// A backreference `\1`..`\9`, executed.
exec fn backref_step(p: &Vec<char>, nc: char, st: &mut ScanSt)
    requires
        old(st).pos + 2 <= p@.len(),
        old(st).groups@.len() == crate::model::group_slots(),
        p@[(old(st).pos + 1) as int] == nc,
        ('1' as u32) <= (nc as u32) && (nc as u32) <= ('9' as u32),
    ensures
        ({
            let e = Env { p: p@, pool: None, ds: Seq::empty() };
            st_view(*final(st)) == crate::model::step_backref(e, st_view(*old(st)))
        }),
{
    let ghost e = Env { p: p@, pool: None, ds: Seq::empty() };
    let ghost s0 = st_view(*st);
    let plen = p.len();
    proof {
        assert(st.pos + 2 <= plen);
    }
    let d = digit_val_exec(nc) as usize;
    let t: Vec<char> = match &st.groups[d] {
        Some(g) => copy_chars(g),
        None => Vec::new(),
    };
    proof {
        assert(st.groups.deep_view()[d as int] == match st.groups@[d as int] {
            Some(g) => Some(g.deep_view()),
            None => None::<Seq<char>>,
        });
        match st.groups@[d as int] {
            Some(g) => {
                assert(g.deep_view() =~= g@);
            },
            None => {},
        }
    }
    st.pos = st.pos + 2;
    emit_copy(st, &t);
    proof {
        assert(st_view(*st) == crate::model::step_backref(e, s0));
    }
}

/// An escape with a possible quantifier suffix, executed.
exec fn sampled_step(p: &Vec<char>, nc: char, draws: &Vec<usize>, st: &mut ScanSt) -> (r: Result<
    (),
    GenError,
>)
    requires
        old(st).pos + 2 <= p@.len(),
        p@[(old(st).pos + 1) as int] == nc,
    ensures
        ({
            let e = Env { p: p@, pool: None, ds: draws@ };
            match r {
                Ok(_) => crate::model::step_sampled(e, st_view(*old(st))) == Ok::<Scan, GenError>(
                    st_view(*final(st)),
                ),
                Err(err) => crate::model::step_sampled(e, st_view(*old(st))) == Err::<
                    Scan,
                    GenError,
                >(err),
            }
        }),
{
    let ghost e = Env { p: p@, pool: None, ds: draws@ };
    let ghost s0 = st_view(*st);
    let plen = p.len();
    proof {
        assert(st.pos + 2 <= plen);
    }
    match check_repeat_spec(p, st.pos + 2) {
        Err(err) => Err(err),
        Ok(None) => {
            let after = st.pos + 2;
            emit_escape(st, draws, nc, 1, st.k, after);
            proof {
                assert(Ok::<Scan, GenError>(st_view(*st)) == crate::model::step_sampled(e, s0));
            }
            Ok(())
        },
        Ok(Some((Quant::Count(n), after))) => {
            emit_escape(st, draws, nc, n, st.k, after);
            proof {
                assert(Ok::<Scan, GenError>(st_view(*st)) == crate::model::step_sampled(e, s0));
            }
            Ok(())
        },
        Ok(Some((Quant::Range(n, m), after))) => {
            let dr = range_draw(draws, st.k, n, m);
            let k0 = bump_exec(st.k, 1);
            emit_escape(st, draws, nc, n + dr, k0, after);
            proof {
                assert(Ok::<Scan, GenError>(st_view(*st)) == crate::model::step_sampled(e, s0));
            }
            Ok(())
        },
        Ok(Some((Quant::Width(n, m), after))) => {
            match numeric_token(n, m, draws, st.k) {
                Err(err) => Err(err),
                Ok(t) => {
                    st.k = bump_exec(st.k, 1);
                    st.pos = after;
                    emit_copy(st, &t);
                    proof {
                        assert(Ok::<Scan, GenError>(st_view(*st)) == crate::model::step_sampled(
                            e,
                            s0,
                        ));
                    }
                    Ok(())
                },
            }
        },
    }
}

/// A `[...]` class with a possible quantifier suffix, executed.
exec fn class_step(p: &Vec<char>, draws: &Vec<usize>, st: &mut ScanSt) -> (r: Result<(), GenError>)
    requires
        old(st).pos < p@.len(),
        p@[old(st).pos as int] == '[',
    ensures
        ({
            let e = Env { p: p@, pool: None, ds: draws@ };
            match r {
                Ok(_) => crate::model::step_class(e, st_view(*old(st))) == Ok::<Scan, GenError>(
                    st_view(*final(st)),
                ),
                Err(err) => crate::model::step_class(e, st_view(*old(st))) == Err::<Scan, GenError>(
                    err,
                ),
            }
        }),
{
    let ghost e = Env { p: p@, pool: None, ds: draws@ };
    let ghost s0 = st_view(*st);
    let plen = p.len();
    let neg = st.pos + 1 < plen && p[st.pos + 1] == '^';
    let j0 = if neg {
        st.pos + 2
    } else {
        st.pos + 1
    };
    let (cls, j1) = extract_char_class(p, j0);
    let alpha = if neg {
        complement_exec(&cls)
    } else {
        cls
    };
    match check_repeat_spec(p, j1) {
        Err(err) => Err(err),
        Ok(None) => {
            let r = class_emit(st, draws, &alpha, 1, st.k, j1);
            proof {
                assert(match r {
                    Ok(_) => crate::model::step_class(e, s0) == Ok::<Scan, GenError>(st_view(*st)),
                    Err(err) => crate::model::step_class(e, s0) == Err::<Scan, GenError>(err),
                });
            }
            r
        },
        Ok(Some((Quant::Count(n), after))) => {
            let r = class_emit(st, draws, &alpha, n, st.k, after);
            proof {
                assert(match r {
                    Ok(_) => crate::model::step_class(e, s0) == Ok::<Scan, GenError>(st_view(*st)),
                    Err(err) => crate::model::step_class(e, s0) == Err::<Scan, GenError>(err),
                });
            }
            r
        },
        Ok(Some((Quant::Range(n, m), after))) => {
            let dr = range_draw(draws, st.k, n, m);
            let k0 = bump_exec(st.k, 1);
            let r = class_emit(st, draws, &alpha, n + dr, k0, after);
            proof {
                assert(match r {
                    Ok(_) => crate::model::step_class(e, s0) == Ok::<Scan, GenError>(st_view(*st)),
                    Err(err) => crate::model::step_class(e, s0) == Err::<Scan, GenError>(err),
                });
            }
            r
        },
        Ok(Some((Quant::Width(n, m), after))) => {
            match numeric_token(n, m, draws, st.k) {
                Err(err) => Err(err),
                Ok(t) => {
                    st.k = bump_exec(st.k, 1);
                    st.pos = after;
                    emit_copy(st, &t);
                    proof {
                        assert(Ok::<Scan, GenError>(st_view(*st)) == crate::model::step_class(
                            e,
                            s0,
                        ));
                    }
                    Ok(())
                },
            }
        },
    }
}

/// A group close `)`, executed.
exec fn close_step(st: &mut ScanSt)
    requires
        old(st).pos < usize::MAX,
        old(st).groups@.len() == crate::model::group_slots(),
    ensures
        ({
            let e = Env { p: Seq::empty(), pool: None, ds: Seq::empty() };
            st_view(*final(st)) == crate::model::step_close(e, st_view(*old(st)))
        }),
{
    let ghost e = Env { p: Seq::empty(), pool: None, ds: Seq::empty() };
    let ghost s0 = st_view(*st);
    if st.stack.len() == 0 {
        st.pos = st.pos + 1;
        proof {
            assert(stack_view(st.stack@).len() == 0);
            assert(st_view(*st) == crate::model::step_close(e, s0));
        }
    } else {
        match st.stack.pop() {
            Some((ord, mut acc)) => {
                proof {
                    assert(stack_view(old(st).stack@)[(old(st).stack@.len() - 1) as int] == (
                        ord as nat,
                        acc@,
                    ));
                    assert(stack_view(st.stack@) =~= stack_view(old(st).stack@).drop_last());
                }
                let ghost acc0 = acc@;
                let cut = find_char_exec(&acc, '|', 0);
                acc.truncate(cut);
                proof {
                    assert(acc@ =~= acc0.take(find_char(acc0, '|', 0) as int));
                }
                if 1 <= ord && ord < 10 {
                    let stored = copy_chars(&acc);
                    proof {
                        assert(stored.deep_view() =~= acc@);
                    }
                    st.groups.set(ord, Some(stored));
                    proof {
                        assert forall|i2: int|
                            0 <= i2 < st.groups@.len() implies st.groups.deep_view()[i2] == old(
                            st,
                        ).groups.deep_view().update(ord as int, Some(acc@))[i2] by {
                            if i2 != ord {
                                assert(st.groups@[i2] == old(st).groups@[i2]);
                            }
                        }
                        assert(st.groups.deep_view() =~= old(st).groups.deep_view().update(
                            ord as int,
                            Some(acc@),
                        ));
                    }
                }
                st.pos = st.pos + 1;
                emit_copy(st, &acc);
                proof {
                    assert(st_view(*st) == crate::model::step_close(e, s0));
                }
            },
            None => {
                proof {
                    assert(false);
                }
            },
        }
    }
}

/// One construct of the pattern, executed: the exec twin of
/// [`crate::model::spec_step`]. On a fault the scan state is to be discarded
/// by the caller.
pub exec fn do_step(
    p: &Vec<char>,
    pool: &Option<Vec<Vec<char>>>,
    draws: &Vec<usize>,
    st: &mut ScanSt,
) -> (r: Result<(), GenError>)
    requires
        old(st).pos < p@.len(),
        old(st).groups@.len() == crate::model::group_slots(),
        match *pool {
            Some(ref arr) => (if arr@.len() == 0 {
                old(st).cursor == 0
            } else {
                old(st).cursor < arr@.len()
            }),
            None => old(st).cursor == 0,
        },
    ensures
        ({
            let e = Env { p: p@, pool: pool.deep_view(), ds: draws@ };
            match r {
                Ok(_) => crate::model::spec_step(e, st_view(*old(st))) == Ok::<Scan, GenError>(
                    st_view(*final(st)),
                ) && final(st).groups@.len() == crate::model::group_slots() && (match *pool {
                    Some(ref arr) => (if arr@.len() == 0 {
                        final(st).cursor == 0
                    } else {
                        final(st).cursor < arr@.len()
                    }),
                    None => final(st).cursor == 0,
                }),
                Err(err) => crate::model::spec_step(e, st_view(*old(st))) == Err::<Scan, GenError>(
                    err,
                ),
            }
        }),
{
    let ghost e = Env { p: p@, pool: pool.deep_view(), ds: draws@ };
    let ghost s0 = st_view(*st);
    let plen = p.len();
    let c = p[st.pos];
    if c == '\\' {
        if st.pos + 1 >= plen {
            st.pos = plen;
            proof {
                crate::model::lemma_step_preserves_wf(e, s0);
            }
            return Ok(());
        }
        let nc = p[st.pos + 1];
        if nc == 'i' {
            counter_step(p, st);
            proof {
                assert(st_view(*st) == crate::model::step_counter(e, s0));
                crate::model::lemma_step_preserves_wf(e, s0);
            }
            Ok(())
        } else if nc == 'a' {
            pool_step(p, pool, draws, st);
            proof {
                assert(st_view(*st) == crate::model::step_pool(e, s0));
                crate::model::lemma_step_preserves_wf(e, s0);
            }
            Ok(())
        } else if nc >= '1' && nc <= '9' {
            backref_step(p, nc, st);
            proof {
                assert(st_view(*st) == crate::model::step_backref(e, s0));
                crate::model::lemma_step_preserves_wf(e, s0);
            }
            Ok(())
        } else {
            let r = sampled_step(p, nc, draws, st);
            proof {
                assert(match r {
                    Ok(_) => crate::model::spec_step(e, s0) == Ok::<Scan, GenError>(st_view(*st)),
                    Err(err) => crate::model::spec_step(e, s0) == Err::<Scan, GenError>(err),
                });
                crate::model::lemma_step_preserves_wf(e, s0);
            }
            r
        }
    } else if c == '[' {
        let r = class_step(p, draws, st);
        proof {
            assert(match r {
                Ok(_) => crate::model::spec_step(e, s0) == Ok::<Scan, GenError>(st_view(*st)),
                Err(err) => crate::model::spec_step(e, s0) == Err::<Scan, GenError>(err),
            });
            crate::model::lemma_step_preserves_wf(e, s0);
        }
        r
    } else if c == '(' {
        let j = if st.pos + 1 < plen && p[st.pos + 1] == '?' {
            st.pos + 2
        } else {
            st.pos + 1
        };
        let ord = st.next_ord;
        st.stack.push((ord, Vec::new()));
        st.next_ord = if st.next_ord < 10 {
            st.next_ord + 1
        } else {
            10
        };
        st.pos = j;
        proof {
            assert(stack_view(st.stack@) =~= crate::model::step_open(e, s0).stack);
            assert(st_view(*st) == crate::model::step_open(e, s0));
            crate::model::lemma_step_preserves_wf(e, s0);
        }
        Ok(())
    } else if c == ')' {
        close_step(st);
        proof {
            assert(st_view(*st) == crate::model::step_close(e, s0));
            crate::model::lemma_step_preserves_wf(e, s0);
        }
        Ok(())
    } else {
        st.pos = st.pos + 1;
        let mut t: Vec<char> = Vec::new();
        t.push(c);
        proof {
            assert(t@ =~= seq![c]);
        }
        emit_copy(st, &t);
        proof {
            assert(st_view(*st) == crate::model::step_literal(e, s0));
            crate::model::lemma_step_preserves_wf(e, s0);
        }
        Ok(())
    }
}


/// Emission for an escape character with a resolved count.
pub exec fn emit_escape(
    st: &mut ScanSt,
    draws: &Vec<usize>,
    nc: char,
    cnt: usize,
    k0: usize,
    after: usize,
)
    ensures
        crate::model::escape_emit(
            st_view(*old(st)),
            draws@,
            nc,
            cnt as nat,
            k0 as nat,
            after as nat,
        ) == Ok::<Scan, GenError>(st_view(*final(st))),
{
    match escape_expansion_exec(nc) {
        Some(a) => {
            let alpha = str_to_chars(a);
            match class_emit(st, draws, &alpha, cnt, k0, after) {
                Ok(_) => {},
                Err(_) => {
                    proof {
                        assert(false);
                    }
                },
            }
        },
        None => {
            let t = repeat_chars(escape_literal_exec(nc), cnt);
            st.k = k0;
            st.pos = after;
            emit_copy(st, &t);
        },
    }
}

} // verus!
