//! The mathematical model of one generation call: a small-step scan over the
//! pattern, one construct per step, threading the generator's mutable state
//! and a stream of pre-drawn random values.

use vstd::prelude::*;
use crate::alphabets::{class_add, class_add_range, complement, escape_expansion, escape_literal};
use crate::numerals::{
    dec_of, digit_val, digits_val, is_digit, pad_left, parse_nat, render_int, spec_pow10,
};

verus! {

/// Faults of one generation call. A failing call leaves the generator's
/// state exactly as it was.
#[derive(Clone, Copy, Debug, PartialEq, Eq, Structural)]
pub enum GenError {
    /// A `{...}` suffix after a class or escape whose bounds are missing,
    /// non-numeric, out of machine range, reversed, or whose digit width
    /// admits no number.
    MalformedQuantifier,
    /// A class whose effective alphabet is empty while at least one character
    /// must be drawn from it.
    EmptyAlphabet,
}

/// A parsed quantifier suffix.
#[derive(Clone, Copy, Debug, PartialEq, Eq, Structural)]
pub enum Quant {
    /// `{n}`: exactly `n` repetitions.
    Count(usize),
    /// `{n,m}`: a repetition count drawn from the closed interval `[n, m]`.
    Range(usize, usize),
    /// `{n:m}`: one random number of exactly `n` digits, zero-padded to a
    /// total width of `m`; the underlying class or escape is ignored.
    Width(usize, usize),
}

/// What one scan reads and never changes: the pattern, the value pool, and
/// the stream of pre-drawn values.
pub ghost struct Env {
    pub p: Seq<char>,
    pub pool: Option<Seq<Seq<char>>>,
    pub ds: Seq<usize>,
}

/// The state a scan threads: position, next draw index, output, open-group
/// stack, and the generator fields it may write back.
pub ghost struct Scan {
    pub pos: nat,
    pub k: nat,
    pub out: Seq<char>,
    pub stack: Seq<(nat, Seq<char>)>,
    pub next_ord: nat,
    pub groups: Seq<Option<Seq<char>>>,
    pub counter: Option<Seq<char>>,
    pub ascending: bool,
    pub width: Option<usize>,
    pub cursor: nat,
}

/// The generator's cross-call state.
pub ghost struct Model {
    pub pattern: Seq<char>,
    pub groups: Seq<Option<Seq<char>>>,
    pub counter: Option<Seq<char>>,
    pub ascending: bool,
    pub width: Option<usize>,
    pub pool: Option<Seq<Seq<char>>>,
    pub cursor: nat,
}

/// Group ordinals addressable by a single-digit backreference.
pub open spec fn group_slots() -> nat {
    10
}

/// Validity of a generator state: a full group table, and a pool cursor that
/// stays reduced modulo the pool length.
pub open spec fn wf(m: Model) -> bool {
    &&& m.groups.len() == group_slots()
    &&& match m.pool {
        Some(pool) => (if pool.len() == 0 {
            m.cursor == 0
        } else {
            m.cursor < pool.len()
        }),
        None => m.cursor == 0,
    }
}

/// The `k`-th pre-drawn value reduced to `[0, bound)`; indices beyond the
/// stream are read as zero.
pub open spec fn draw_at(ds: Seq<usize>, k: nat, bound: nat) -> nat
    recommends
        bound >= 1,
{
    if bound == 0 {
        0
    } else if k < ds.len() {
        ((ds[k as int] as nat) % bound) as nat
    } else {
        0
    }
}

/// Advance the draw index, pegged at the machine maximum.
pub open spec fn bump(k: nat, c: nat) -> nat {
    if k + c > usize::MAX {
        usize::MAX as nat
    } else {
        k + c
    }
}

pub proof fn lemma_bump_bump(k: nat, a: nat, b: nat)
    ensures
        bump(bump(k, a), b) == bump(k, a + b),
{
}

/// Append text to the current sink: the innermost open group if one is open,
/// else the top-level output.
pub open spec fn spec_emit(s: Scan, t: Seq<char>) -> Scan {
    if s.stack.len() > 0 {
        let i = (s.stack.len() - 1) as int;
        Scan { stack: s.stack.update(i, (s.stack[i].0, s.stack[i].1 + t)), ..s }
    } else {
        Scan { out: s.out + t, ..s }
    }
}

/// First position of `c` at or after `from`, or the length if absent.
pub open spec fn find_char(s: Seq<char>, c: char, from: nat) -> nat
    decreases s.len() - from,
{
    if from >= s.len() {
        s.len()
    } else if s[from as int] == c {
        from
    } else {
        find_char(s, c, from + 1)
    }
}

pub proof fn lemma_find_char_range(s: Seq<char>, c: char, from: nat)
    requires
        from <= s.len(),
    ensures
        from <= find_char(s, c, from) <= s.len(),
    decreases s.len() - from,
{
    if from < s.len() && s[from as int] != c {
        lemma_find_char_range(s, c, from + 1);
    }
}

/// The found position, inside the text, holds the character.
pub proof fn lemma_find_char_hit(s: Seq<char>, c: char, from: nat)
    requires
        from <= s.len(),
        find_char(s, c, from) < s.len(),
    ensures
        s[find_char(s, c, from) as int] == c,
    decreases s.len() - from,
{
    if from < s.len() && s[from as int] != c {
        lemma_find_char_hit(s, c, from + 1);
    }
}

/// Nothing before the found position matches.
pub proof fn lemma_find_char_before(s: Seq<char>, c: char, from: nat, i: nat)
    requires
        from <= s.len(),
        from <= i < find_char(s, c, from),
    ensures
        s[i as int] != c,
    decreases i - from,
{
    lemma_find_char_range(s, c, from);
    if i > from {
        lemma_find_char_before(s, c, from + 1, i);
    }
}

/// Digits collected inside a counter width suffix `{...}`, up to the closing
/// brace or the end; every other character is skipped.
pub open spec fn iw_digits(p: Seq<char>, j: nat) -> Seq<char>
    decreases p.len() - j,
{
    if j >= p.len() {
        Seq::empty()
    } else if p[j as int] == '}' {
        Seq::empty()
    } else if is_digit(p[j as int]) {
        seq![p[j as int]] + iw_digits(p, j + 1)
    } else {
        iw_digits(p, j + 1)
    }
}

/// Position after a counter width suffix: past the closing brace, or the end.
pub open spec fn iw_end(p: Seq<char>, j: nat) -> nat {
    let e = find_char(p, '}', j);
    if e >= p.len() {
        p.len()
    } else {
        e + 1
    }
}

/// Parse an optional quantifier suffix at `j`: no suffix, a suffix with its
/// end position, or a malformed one.
pub open spec fn spec_quant(p: Seq<char>, j: nat) -> Result<Option<(Quant, nat)>, GenError> {
    if j >= p.len() || p[j as int] != '{' {
        Ok(None)
    } else {
        let e = find_char(p, '}', j + 1);
        if e >= p.len() {
            Err(GenError::MalformedQuantifier)
        } else {
            let content = p.subrange((j + 1) as int, e as int);
            let after = e + 1;
            let ci = find_char(content, ':', 0);
            if ci < content.len() {
                match (parse_nat(content.take(ci as int)), parse_nat(
                    content.skip((ci + 1) as int),
                )) {
                    (Some(n), Some(m)) => Ok(
                        Some((Quant::Width(n as usize, m as usize), after)),
                    ),
                    _ => Err(GenError::MalformedQuantifier),
                }
            } else {
                let c1 = find_char(content, ',', 0);
                if c1 >= content.len() {
                    match parse_nat(content) {
                        Some(n) => Ok(Some((Quant::Count(n as usize), after))),
                        None => Err(GenError::MalformedQuantifier),
                    }
                } else if find_char(content, ',', c1 + 1) < content.len() {
                    Err(GenError::MalformedQuantifier)
                } else {
                    match (parse_nat(content.take(c1 as int)), parse_nat(
                        content.skip((c1 + 1) as int),
                    )) {
                        (Some(n), Some(m)) => if n <= m {
                            Ok(Some((Quant::Range(n as usize, m as usize), after)))
                        } else {
                            Err(GenError::MalformedQuantifier)
                        },
                        _ => Err(GenError::MalformedQuantifier),
                    }
                }
            }
        }
    }
}

pub proof fn lemma_spec_quant_range(p: Seq<char>, j: nat)
    requires
        j <= p.len(),
    ensures
        match spec_quant(p, j) {
            Ok(Some((q, after))) => j < after <= p.len(),
            _ => true,
        },
{
    if j < p.len() {
        lemma_find_char_range(p, '}', j + 1);
    }
}

/// Scan a class body: plain characters join the class, `a-b` spans join as
/// ranges, `]` ends it; a missing `]` consumes the rest of the pattern.
pub open spec fn class_scan(p: Seq<char>, j: nat, acc: Seq<char>, rs: Option<char>) -> (
    Seq<char>,
    nat,
)
    decreases p.len() - j,
{
    if j >= p.len() {
        (acc, p.len())
    } else {
        let c = p[j as int];
        if c == ']' {
            (acc, j + 1)
        } else if c == '-' && rs is Some {
            if j + 1 < p.len() {
                class_scan(
                    p,
                    j + 2,
                    class_add_range(acc, rs.unwrap() as nat, p[(j + 1) as int] as nat),
                    None,
                )
            } else {
                (acc, p.len())
            }
        } else {
            class_scan(p, j + 1, class_add(acc, c), Some(c))
        }
    }
}

pub proof fn lemma_class_scan_range(p: Seq<char>, j: nat, acc: Seq<char>, rs: Option<char>)
    requires
        j <= p.len(),
    ensures
        j <= class_scan(p, j, acc, rs).1 <= p.len(),
    decreases p.len() - j,
{
    if j < p.len() {
        let c = p[j as int];
        if c == ']' {
        } else if c == '-' && rs is Some {
            if j + 1 < p.len() {
                lemma_class_scan_range(
                    p,
                    j + 2,
                    class_add_range(acc, rs.unwrap() as nat, p[(j + 1) as int] as nat),
                    None,
                );
            }
        } else {
            lemma_class_scan_range(p, j + 1, class_add(acc, c), Some(c));
        }
    }
}

/// Independent draws from an alphabet, one per position.
pub open spec fn sample_seq(alpha: Seq<char>, ds: Seq<usize>, k: nat, n: nat) -> Seq<char>
    recommends
        alpha.len() >= 1,
    decreases n,
{
    if n == 0 {
        Seq::empty()
    } else {
        seq![alpha[draw_at(ds, k, alpha.len()) as int]] + sample_seq(
            alpha,
            ds,
            bump(k, 1),
            (n - 1) as nat,
        )
    }
}

/// A fixed character repeated.
pub open spec fn repeat_char(c: char, n: nat) -> Seq<char>
    decreases n,
{
    if n == 0 {
        Seq::empty()
    } else {
        repeat_char(c, (n - 1) as nat).push(c)
    }
}

/// A digit width the machine can draw: at least one digit, and ten to the
/// width still representable.
pub open spec fn width_ok(n: nat) -> bool {
    1 <= n && spec_pow10(n) <= usize::MAX
}

/// The `{n:m}` token: a number drawn uniformly from the `n`-digit range,
/// zero-padded to total width `m`.
pub open spec fn numeric_text(n: nat, m: nat, ds: Seq<usize>, k: nat) -> Seq<char>
    recommends
        width_ok(n),
{
    let lo = spec_pow10((n - 1) as nat);
    let hi = spec_pow10(n);
    pad_left(dec_of(lo + draw_at(ds, k, (hi - lo) as nat)), m)
}

/// Emit `cnt` independent draws from `alpha` and move to `after`; an empty
/// alphabet that must be sampled is a hard fault.
pub open spec fn emit_draws(
    s: Scan,
    alpha: Seq<char>,
    ds: Seq<usize>,
    cnt: nat,
    k0: nat,
    after: nat,
) -> Result<Scan, GenError> {
    if cnt >= 1 && alpha.len() == 0 {
        Err(GenError::EmptyAlphabet)
    } else {
        Ok(spec_emit(Scan { pos: after, k: bump(k0, cnt), ..s }, sample_seq(alpha, ds, k0, cnt)))
    }
}

/// Emit the `{n:m}` numeric token and move to `after`.
pub open spec fn emit_width(s: Scan, ds: Seq<usize>, n: nat, m: nat, after: nat) -> Result<
    Scan,
    GenError,
> {
    if !width_ok(n) {
        Err(GenError::MalformedQuantifier)
    } else {
        Ok(spec_emit(Scan { pos: after, k: bump(s.k, 1), ..s }, numeric_text(n, m, ds, s.k)))
    }
}

/// Emission for an escape character with a resolved repetition count: random
/// alphabets are drawn per position, fixed escapes are repeated.
pub open spec fn escape_emit(s: Scan, ds: Seq<usize>, c: char, cnt: nat, k0: nat, after: nat) -> Result<
    Scan,
    GenError,
> {
    match escape_expansion(c) {
        Some(alpha) => emit_draws(s, alpha, ds, cnt, k0, after),
        None => Ok(
            spec_emit(Scan { pos: after, k: k0, ..s }, repeat_char(escape_literal(c), cnt)),
        ),
    }
}

/// A literal pattern character: itself, into the current sink.
pub open spec fn step_literal(e: Env, s: Scan) -> Scan
    recommends
        s.pos < e.p.len(),
{
    spec_emit(Scan { pos: s.pos + 1, ..s }, seq![e.p[s.pos as int]])
}

/// `(`: open a group, skipping a non-capturing marker, and assign the next
/// ordinal; ordinals beyond the addressable range share a sentinel.
pub open spec fn step_open(e: Env, s: Scan) -> Scan {
    let j = if s.pos + 1 < e.p.len() && e.p[(s.pos + 1) as int] == '?' {
        s.pos + 2
    } else {
        s.pos + 1
    };
    Scan {
        pos: j,
        stack: s.stack.push((s.next_ord, Seq::empty())),
        next_ord: if s.next_ord < group_slots() {
            s.next_ord + 1
        } else {
            group_slots()
        },
        ..s
    }
}

/// `)`: close the innermost open group, keep the text before the first
/// alternation separator, record it under the group's ordinal, and append it
/// to the enclosing sink. An unmatched `)` is skipped.
pub open spec fn step_close(e: Env, s: Scan) -> Scan {
    if s.stack.len() == 0 {
        Scan { pos: s.pos + 1, ..s }
    } else {
        let (ord, acc) = s.stack.last();
        let cut = find_char(acc, '|', 0);
        let resolved = acc.take(cut as int);
        let popped = Scan {
            pos: s.pos + 1,
            stack: s.stack.drop_last(),
            groups: if 1 <= ord && ord < group_slots() {
                s.groups.update(ord as int, Some(resolved))
            } else {
                s.groups
            },
            ..s
        };
        spec_emit(popped, resolved)
    }
}

/// `\i`: update direction and padding width from the suffixes, then advance
/// the counter and emit it; without a seeded counter emit the placeholder.
pub open spec fn step_counter(e: Env, s: Scan) -> Scan {
    let j0 = s.pos + 2;
    let plus = j0 < e.p.len() && e.p[j0 as int] == '+';
    let minus = j0 < e.p.len() && e.p[j0 as int] == '-';
    let asc = if plus {
        true
    } else if minus {
        false
    } else {
        s.ascending
    };
    let j1 = if plus || minus {
        j0 + 1
    } else {
        j0
    };
    let braced = j1 < e.p.len() && e.p[j1 as int] == '{';
    let w = if braced {
        match parse_nat(iw_digits(e.p, j1 + 1)) {
            Some(v) => Some(v as usize),
            None => s.width,
        }
    } else {
        s.width
    };
    let j2 = if braced {
        iw_end(e.p, j1 + 1)
    } else {
        j1
    };
    match s.counter {
        Some(v) => {
            let nv = spec_increment(v, asc, w);
            spec_emit(Scan { pos: j2, counter: Some(nv), ascending: asc, width: w, ..s }, nv)
        },
        None => spec_emit(Scan { pos: j2, ascending: asc, width: w, ..s }, seq!['0']),
    }
}

/// The counter step on one value: split off the leading non-digit prefix and
/// the digit run after it, move the run one step in the current direction,
/// re-render zero-padded to the explicit width (or the run's own length), and
/// keep values the machine range cannot move unchanged.
pub open spec fn spec_increment(value: Seq<char>, ascending: bool, width: Option<usize>) -> Seq<
    char,
> {
    let p = scan_nondigits(value, 0);
    let e = scan_digits(value, p);
    let prefix = value.take(p as int);
    let digits = value.subrange(p as int, e as int);
    if digits.len() >= 1 && digits_val(digits) <= i32::MAX {
        let num = digits_val(digits) as int;
        let delta: int = if ascending {
            1
        } else {
            -1
        };
        if num + delta > i32::MAX {
            prefix + digits
        } else {
            let w: nat = match width {
                Some(wv) => wv as nat,
                None => digits.len(),
            };
            prefix + render_int(num + delta, w)
        }
    } else {
        prefix + digits
    }
}

/// First position at or after `j` holding a digit, or the length.
pub open spec fn scan_nondigits(s: Seq<char>, j: nat) -> nat
    decreases s.len() - j,
{
    if j >= s.len() {
        s.len()
    } else if is_digit(s[j as int]) {
        j
    } else {
        scan_nondigits(s, j + 1)
    }
}

/// First position at or after `j` holding a non-digit, or the length.
pub open spec fn scan_digits(s: Seq<char>, j: nat) -> nat
    decreases s.len() - j,
{
    if j >= s.len() {
        s.len()
    } else if !is_digit(s[j as int]) {
        j
    } else {
        scan_digits(s, j + 1)
    }
}

/// `\a`: an ordered access emits under the wrapping cursor and advances it; a
/// random access draws an index and leaves the cursor; no pool, no text.
pub open spec fn step_pool(e: Env, s: Scan) -> Scan {
    let j0 = s.pos + 2;
    let plus = j0 < e.p.len() && e.p[j0 as int] == '+';
    let minus = j0 < e.p.len() && e.p[j0 as int] == '-';
    let j = if plus || minus {
        j0 + 1
    } else {
        j0
    };
    match e.pool {
        Some(pool) => {
            if pool.len() == 0 {
                Scan { pos: j, ..s }
            } else {
                let len = pool.len();
                if plus {
                    spec_emit(
                        Scan { pos: j, cursor: ((s.cursor + 1) as int % (len as int)) as nat, ..s },
                        pool[(s.cursor % len) as int],
                    )
                } else if minus {
                    spec_emit(
                        Scan { pos: j, cursor: ((s.cursor + 1) as int % (len as int)) as nat, ..s },
                        pool[(len - 1 - (s.cursor % len)) as int],
                    )
                } else {
                    spec_emit(
                        Scan { pos: j, k: bump(s.k, 1), ..s },
                        pool[draw_at(e.ds, s.k, len) as int],
                    )
                }
            }
        },
        None => Scan { pos: j, ..s },
    }
}

/// `\1`..`\9`: emit the recorded text of the group, or nothing.
pub open spec fn step_backref(e: Env, s: Scan) -> Scan
    recommends
        s.pos + 1 < e.p.len(),
        s.groups.len() == group_slots(),
{
    let d = digit_val(e.p[(s.pos + 1) as int]);
    let t = match s.groups[d as int] {
        Some(t) => t,
        None => Seq::empty(),
    };
    spec_emit(Scan { pos: s.pos + 2, ..s }, t)
}

/// An escape with a possible quantifier suffix: resolve the count (drawing
/// one value for a `{n,m}` range), then emit.
pub open spec fn step_sampled(e: Env, s: Scan) -> Result<Scan, GenError>
    recommends
        s.pos + 1 < e.p.len(),
{
    let nc = e.p[(s.pos + 1) as int];
    match spec_quant(e.p, s.pos + 2) {
        Err(err) => Err(err),
        Ok(None) => escape_emit(s, e.ds, nc, 1, s.k, s.pos + 2),
        Ok(Some((Quant::Count(n), after))) => escape_emit(s, e.ds, nc, n as nat, s.k, after),
        Ok(Some((Quant::Range(n, m), after))) => escape_emit(
            s,
            e.ds,
            nc,
            (n + draw_at(e.ds, s.k, (m + 1 - n) as nat)) as nat,
            bump(s.k, 1),
            after,
        ),
        Ok(Some((Quant::Width(n, m), after))) => emit_width(s, e.ds, n as nat, m as nat, after),
    }
}

/// A `[...]` class with a possible quantifier suffix.
pub open spec fn step_class(e: Env, s: Scan) -> Result<Scan, GenError>
    recommends
        s.pos < e.p.len(),
{
    let neg = s.pos + 1 < e.p.len() && e.p[(s.pos + 1) as int] == '^';
    let j0 = if neg {
        s.pos + 2
    } else {
        s.pos + 1
    };
    let scanned = class_scan(e.p, j0, Seq::empty(), None::<char>);
    let cls = scanned.0;
    let j1 = scanned.1;
    let alpha = if neg {
        complement(cls)
    } else {
        cls
    };
    match spec_quant(e.p, j1) {
        Err(err) => Err(err),
        Ok(None) => emit_draws(s, alpha, e.ds, 1, s.k, j1),
        Ok(Some((Quant::Count(n), after))) => emit_draws(s, alpha, e.ds, n as nat, s.k, after),
        Ok(Some((Quant::Range(n, m), after))) => emit_draws(
            s,
            alpha,
            e.ds,
            (n + draw_at(e.ds, s.k, (m + 1 - n) as nat)) as nat,
            bump(s.k, 1),
            after,
        ),
        Ok(Some((Quant::Width(n, m), after))) => emit_width(s, e.ds, n as nat, m as nat, after),
    }
}

/// `\` dispatch: counter, pool, backreference, or a sampled escape; a
/// trailing backslash ends the scan.
pub open spec fn step_escape(e: Env, s: Scan) -> Result<Scan, GenError>
    recommends
        s.pos < e.p.len(),
        s.groups.len() == group_slots(),
{
    if s.pos + 1 >= e.p.len() {
        Ok(Scan { pos: e.p.len(), ..s })
    } else {
        let nc = e.p[(s.pos + 1) as int];
        if nc == 'i' {
            Ok(step_counter(e, s))
        } else if nc == 'a' {
            Ok(step_pool(e, s))
        } else if ('1' as u32) <= (nc as u32) && (nc as u32) <= ('9' as u32) {
            Ok(step_backref(e, s))
        } else {
            step_sampled(e, s)
        }
    }
}

/// One construct of the pattern.
pub open spec fn spec_step(e: Env, s: Scan) -> Result<Scan, GenError>
    recommends
        s.pos < e.p.len(),
        s.groups.len() == group_slots(),
{
    let c = e.p[s.pos as int];
    if c == '\\' {
        step_escape(e, s)
    } else if c == '[' {
        step_class(e, s)
    } else if c == '(' {
        Ok(step_open(e, s))
    } else if c == ')' {
        Ok(step_close(e, s))
    } else {
        Ok(step_literal(e, s))
    }
}

/// Every step moves right.
pub proof fn lemma_step_advances(e: Env, s: Scan)
    requires
        s.pos < e.p.len(),
    ensures
        match spec_step(e, s) {
            Ok(s2) => s.pos < s2.pos <= e.p.len(),
            Err(_) => true,
        },
{
    let c = e.p[s.pos as int];
    if c == '\\' {
        if s.pos + 1 < e.p.len() {
            let nc = e.p[(s.pos + 1) as int];
            if nc == 'i' {
                let j0 = s.pos + 2;
                let plus = j0 < e.p.len() && e.p[j0 as int] == '+';
                let minus = j0 < e.p.len() && e.p[j0 as int] == '-';
                let j1 = if plus || minus {
                    j0 + 1
                } else {
                    j0
                };
                if j1 < e.p.len() && e.p[j1 as int] == '{' {
                    lemma_find_char_range(e.p, '}', j1 + 1);
                }
            } else if nc == 'a' {
            } else if ('1' as u32) <= (nc as u32) && (nc as u32) <= ('9' as u32) {
            } else {
                lemma_spec_quant_range(e.p, s.pos + 2);
            }
        }
    } else if c == '[' {
        let neg = s.pos + 1 < e.p.len() && e.p[(s.pos + 1) as int] == '^';
        let j0 = if neg {
            s.pos + 2
        } else {
            s.pos + 1
        };
        lemma_class_scan_range(e.p, j0, Seq::empty(), None::<char>);
        lemma_spec_quant_range(e.p, class_scan(e.p, j0, Seq::empty(), None::<char>).1);
    }
}

/// The whole pass: one step at a time until the pattern is consumed.
pub open spec fn spec_scan(e: Env, s: Scan) -> Result<Scan, GenError>
    decreases e.p.len() - s.pos,
    via spec_scan_decreases
{
    if s.pos >= e.p.len() {
        Ok(s)
    } else {
        match spec_step(e, s) {
            Ok(s2) => spec_scan(e, s2),
            Err(err) => Err(err),
        }
    }
}

#[via_fn]
proof fn spec_scan_decreases(e: Env, s: Scan) {
    if s.pos < e.p.len() {
        lemma_step_advances(e, s);
    }
}

/// The scan a fresh call starts from.
pub open spec fn init_scan(m: Model) -> Scan {
    Scan {
        pos: 0,
        k: 0,
        out: Seq::empty(),
        stack: Seq::empty(),
        next_ord: 1,
        groups: m.groups,
        counter: m.counter,
        ascending: m.ascending,
        width: m.width,
        cursor: m.cursor,
    }
}

/// The generator state a finished scan leaves behind; an unterminated group's
/// accumulated text is discarded with the stack.
pub open spec fn close_model(m: Model, s: Scan) -> Model {
    Model {
        pattern: m.pattern,
        groups: s.groups,
        counter: s.counter,
        ascending: s.ascending,
        width: s.width,
        pool: m.pool,
        cursor: s.cursor,
    }
}

/// One generation call on a generator state, with the random draws given as a
/// stream: the emitted text and the state left behind, or a fault that leaves
/// the state untouched.
pub open spec fn spec_generate(m: Model, ds: Seq<usize>) -> Result<(Seq<char>, Model), GenError> {
    let e = Env { p: m.pattern, pool: m.pool, ds };
    match spec_scan(e, init_scan(m)) {
        Ok(s) => Ok((s.out, close_model(m, s))),
        Err(err) => Err(err),
    }
}

/// How one executable call relates to the model: on success the text and new
/// state are the model's, on a fault the state is the old one.
pub open spec fn gen_outcome(
    m_old: Model,
    ds: Seq<usize>,
    r: Result<Seq<char>, GenError>,
    m_new: Model,
) -> bool {
    match spec_generate(m_old, ds) {
        Ok(pair) => r == Ok::<Seq<char>, GenError>(pair.0) && m_new == pair.1,
        Err(err) => r == Err::<Seq<char>, GenError>(err) && m_new == m_old,
    }
}

/// One successful step keeps the state well-formed (the fields a scan may
/// write: groups table length, and the reduced cursor).
pub proof fn lemma_step_preserves_wf(e: Env, s: Scan)
    requires
        s.pos < e.p.len(),
        s.groups.len() == group_slots(),
        match e.pool {
            Some(pool) => (if pool.len() == 0 {
                s.cursor == 0
            } else {
                s.cursor < pool.len()
            }),
            None => s.cursor == 0,
        },
    ensures
        match spec_step(e, s) {
            Ok(s2) => s2.groups.len() == group_slots() && (match e.pool {
                Some(pool) => (if pool.len() == 0 {
                    s2.cursor == 0
                } else {
                    s2.cursor < pool.len()
                }),
                None => s2.cursor == 0,
            }),
            Err(_) => true,
        },
{
}

} // verus!
