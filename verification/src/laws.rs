//! Laws of the generator, proved against the model: what every call emits
//! for the stateful directives, classes, groups and the numeric-width
//! quantifier, whatever the random draws.

use vstd::prelude::*;
use crate::alphabets::{class_add, class_add_range, complement, escape_expansion, lemma_comp_from_member};
use crate::model::{
    bump, class_scan, draw_at, find_char, init_scan, numeric_text, repeat_char, sample_seq, spec_emit, spec_increment,
    spec_generate, spec_quant, spec_scan, spec_step, step_backref, step_close, step_counter, step_literal, step_open, step_pool, step_sampled, wf, width_ok, Env, GenError, Model,
    Quant, Scan,
};
use crate::numerals::{dec_of, digit_val, digits_val, parse_nat, spec_pow10, zeros};

verus! {

/// One successful step folds into the scan.
proof fn lemma_scan_step_eq(e: Env, s: Scan, s2: Scan)
    requires
        s.pos < e.p.len(),
        spec_step(e, s) == Ok::<Scan, GenError>(s2),
    ensures
        spec_scan(e, s) == spec_scan(e, s2),
{
}

/// Generation is a function of the generator's state and the draw stream:
/// two generators built identically and driven with identical draws emit
/// identical text and land in identical states.
pub proof fn lemma_generate_deterministic(m1: Model, m2: Model, ds1: Seq<usize>, ds2: Seq<usize>)
    requires
        m1 == m2,
        ds1 == ds2,
    ensures
        spec_generate(m1, ds1) == spec_generate(m2, ds2),
{
}

/// The unsigned pool directive emits a member of the pool: whatever the
/// draws, the output of pattern `\a` on a non-empty pool is one of the
/// pool's values, and the cursor is left alone.
pub proof fn lemma_pool_random_member(m: Model, ds: Seq<usize>)
    requires
        wf(m),
        m.pattern == "\\a"@,
        m.pool is Some,
        m.pool.unwrap().len() >= 1,
    ensures
        spec_generate(m, ds) is Ok,
        m.pool.unwrap().contains(spec_generate(m, ds).unwrap().0),
        spec_generate(m, ds).unwrap().1.cursor == m.cursor,
{
    reveal_strlit("\\a");
    let e = Env { p: m.pattern, pool: m.pool, ds };
    let s0 = init_scan(m);
    let s1 = step_pool(e, s0);
    assert(spec_step(e, s0) == Ok::<Scan, GenError>(s1));
    lemma_scan_step_eq(e, s0, s1);
    let pool = m.pool.unwrap();
    let idx = draw_at(ds, 0, pool.len());
    assert(s1.out =~= pool[idx as int]);
    assert(pool.contains(s1.out));
}

/// A sampled run has one character per position, each a member of the
/// alphabet.
proof fn lemma_sample_members(alpha: Seq<char>, ds: Seq<usize>, k: nat, n: nat)
    requires
        alpha.len() >= 1,
    ensures
        sample_seq(alpha, ds, k, n).len() == n,
        forall|i: int|
            0 <= i < n ==> alpha.contains(#[trigger] sample_seq(alpha, ds, k, n)[i]),
    decreases n,
{
    if n > 0 {
        lemma_sample_members(alpha, ds, bump(k, 1), (n - 1) as nat);
        let t = sample_seq(alpha, ds, k, n);
        let head = alpha[draw_at(ds, k, alpha.len()) as int];
        assert(alpha.contains(head));
        assert forall|i: int| 0 <= i < n implies alpha.contains(#[trigger] t[i]) by {
            if i > 0 {
                assert(t[i] == sample_seq(alpha, ds, bump(k, 1), (n - 1) as nat)[i - 1]);
            }
        }
    }
}

/// Zeros are zeros, as many as asked for.
proof fn lemma_zeros_all(n: nat)
    ensures
        zeros(n).len() == n,
        forall|i: int| 0 <= i < n ==> zeros(n)[i] == '0',
    decreases n,
{
    if n > 0 {
        lemma_zeros_all((n - 1) as nat);
    }
}

/// A three-digit number renders as three characters.
proof fn lemma_dec_three(v: nat)
    requires
        100 <= v <= 999,
    ensures
        dec_of(v).len() == 3,
{
    reveal_with_fuel(dec_of, 4);
    assert(10 <= v / 10 <= 99);
    assert(1 <= v / 10 / 10 <= 9);
}

/// The class pattern `[a-c]{3}` emits three characters, each of `a`, `b`,
/// `c`, whatever the draws.
pub proof fn lemma_class_range_members(m: Model, ds: Seq<usize>)
    requires
        wf(m),
        m.pattern == "[a-c]{3}"@,
    ensures
        spec_generate(m, ds) is Ok,
        spec_generate(m, ds).unwrap().0.len() == 3,
        forall|i: int|
            0 <= i < 3 ==> {
                let c = #[trigger] spec_generate(m, ds).unwrap().0[i];
                c == 'a' || c == 'b' || c == 'c'
            },
{
    reveal_strlit("[a-c]{3}");
    let e = Env { p: m.pattern, pool: m.pool, ds };
    let s0 = init_scan(m);
    let p = e.p;
    assert(p.len() == 8);
    let cls = seq!['a', 'b', 'c'];
    assert(class_add(Seq::empty(), 'a') =~= seq!['a']);
    assert(class_add_range(seq!['a'], 97, 99) =~= cls) by {
        reveal_with_fuel(class_add_range, 5);
        assert(!seq!['a'].contains('b'));
        assert(class_add(seq!['a'], 'b') =~= seq!['a', 'b']);
        assert(!seq!['a', 'b'].contains('c'));
        assert(class_add(seq!['a', 'b'], 'c') =~= cls);
    }
    assert(class_scan(p, 1, Seq::empty(), None::<char>) == (cls, 5nat)) by {
        reveal_with_fuel(class_scan, 4);
    }
    let content = p.subrange(6, 7);
    assert(content =~= seq!['3']);
    assert(find_char(p, '}', 6) == 7) by {
        reveal_with_fuel(find_char, 3);
    }
    assert(find_char(content, ':', 0) == 1 && find_char(content, ',', 0) == 1) by {
        reveal_with_fuel(find_char, 3);
    }
    assert(parse_nat(content) == Some(3nat)) by {
        reveal_with_fuel(digits_val, 3);
        assert(content.drop_last() =~= Seq::<char>::empty());
    }
    assert(spec_quant(p, 5) == Ok::<Option<(Quant, nat)>, GenError>(
        Some((Quant::Count(3), 8nat)),
    ));
    lemma_sample_members(cls, ds, 0, 3);
    let t = sample_seq(cls, ds, 0, 3);
    let s1 = spec_emit(Scan { pos: 8, k: bump(0, 3), ..s0 }, t);
    assert(spec_step(e, s0) == Ok::<Scan, GenError>(s1));
    lemma_scan_step_eq(e, s0, s1);
    assert(s1.out =~= t);
    assert forall|i: int| 0 <= i < 3 implies {
        let c = #[trigger] spec_generate(m, ds).unwrap().0[i];
        c == 'a' || c == 'b' || c == 'c'
    } by {
        assert(cls.contains(t[i]));
        let w = choose|w: int| 0 <= w < cls.len() && cls[w] == t[i];
        assert(w == 0 || w == 1 || w == 2);
    }
}

/// The negated class pattern `[^a-c]{3}` emits three printable characters,
/// none of them `a`, `b` or `c`, whatever the draws.
pub proof fn lemma_negated_class_members(m: Model, ds: Seq<usize>)
    requires
        wf(m),
        m.pattern == "[^a-c]{3}"@,
    ensures
        spec_generate(m, ds) is Ok,
        spec_generate(m, ds).unwrap().0.len() == 3,
        forall|i: int|
            0 <= i < 3 ==> {
                let c = #[trigger] spec_generate(m, ds).unwrap().0[i];
                32 <= (c as nat) < 127 && c != 'a' && c != 'b' && c != 'c'
            },
{
    reveal_strlit("[^a-c]{3}");
    let e = Env { p: m.pattern, pool: m.pool, ds };
    let s0 = init_scan(m);
    let p = e.p;
    assert(p.len() == 9);
    let cls = seq!['a', 'b', 'c'];
    assert(class_add(Seq::empty(), 'a') =~= seq!['a']);
    assert(class_add_range(seq!['a'], 97, 99) =~= cls) by {
        reveal_with_fuel(class_add_range, 5);
        assert(!seq!['a'].contains('b'));
        assert(class_add(seq!['a'], 'b') =~= seq!['a', 'b']);
        assert(!seq!['a', 'b'].contains('c'));
        assert(class_add(seq!['a', 'b'], 'c') =~= cls);
    }
    assert(class_scan(p, 2, Seq::empty(), None::<char>) == (cls, 6nat)) by {
        reveal_with_fuel(class_scan, 4);
    }
    let alpha = complement(cls);
    assert(!cls.contains(' '));
    lemma_comp_from_member(cls, 32, ' ');
    assert(alpha.contains(' '));
    assert(alpha.len() >= 1);
    let content = p.subrange(7, 8);
    assert(content =~= seq!['3']);
    assert(find_char(p, '}', 7) == 8) by {
        reveal_with_fuel(find_char, 3);
    }
    assert(find_char(content, ':', 0) == 1 && find_char(content, ',', 0) == 1) by {
        reveal_with_fuel(find_char, 3);
    }
    assert(parse_nat(content) == Some(3nat)) by {
        reveal_with_fuel(digits_val, 3);
        assert(content.drop_last() =~= Seq::<char>::empty());
    }
    assert(spec_quant(p, 6) == Ok::<Option<(Quant, nat)>, GenError>(
        Some((Quant::Count(3), 9nat)),
    ));
    lemma_sample_members(alpha, ds, 0, 3);
    let t = sample_seq(alpha, ds, 0, 3);
    let s1 = spec_emit(Scan { pos: 9, k: bump(0, 3), ..s0 }, t);
    assert(spec_step(e, s0) == Ok::<Scan, GenError>(s1));
    lemma_scan_step_eq(e, s0, s1);
    assert(s1.out =~= t);
    assert forall|i: int| 0 <= i < 3 implies {
        let c = #[trigger] spec_generate(m, ds).unwrap().0[i];
        32 <= (c as nat) < 127 && c != 'a' && c != 'b' && c != 'c'
    } by {
        assert(alpha.contains(t[i]));
        lemma_comp_from_member(cls, 32, t[i]);
        assert(!cls.contains(t[i]));
        assert(cls[0] == 'a' && cls[1] == 'b' && cls[2] == 'c');
    }
}

/// The numeric-width pattern `[0-9]{3:10}` emits exactly ten characters, the
/// leading seven of them zero padding, whatever the draws.
pub proof fn lemma_numeric_width(m: Model, ds: Seq<usize>)
    requires
        wf(m),
        m.pattern == "[0-9]{3:10}"@,
    ensures
        spec_generate(m, ds) is Ok,
        spec_generate(m, ds).unwrap().0.len() == 10,
        forall|i: int| 0 <= i < 7 ==> #[trigger] spec_generate(m, ds).unwrap().0[i] == '0',
{
    reveal_strlit("[0-9]{3:10}");
    let e = Env { p: m.pattern, pool: m.pool, ds };
    let s0 = init_scan(m);
    let p = e.p;
    assert(p.len() == 11);
    let scanned = class_scan(p, 1, Seq::empty(), None::<char>);
    assert(scanned.1 == 5) by {
        reveal_with_fuel(class_scan, 4);
    }
    let content = p.subrange(6, 10);
    assert(content =~= seq!['3', ':', '1', '0']);
    assert(find_char(p, '}', 6) == 10) by {
        reveal_with_fuel(find_char, 6);
    }
    assert(find_char(content, ':', 0) == 1) by {
        reveal_with_fuel(find_char, 3);
    }
    assert(content.take(1) =~= seq!['3']);
    assert(content.skip(2) =~= seq!['1', '0']);
    assert(parse_nat(content.take(1)) == Some(3nat)) by {
        reveal_with_fuel(digits_val, 3);
        assert(content.take(1).drop_last() =~= Seq::<char>::empty());
    }
    assert(parse_nat(content.skip(2)) == Some(10nat)) by {
        reveal_with_fuel(digits_val, 3);
        assert(content.skip(2).drop_last() =~= seq!['1']);
        assert(seq!['1'].drop_last() =~= Seq::<char>::empty());
    }
    assert(spec_quant(p, 5) == Ok::<Option<(Quant, nat)>, GenError>(
        Some((Quant::Width(3, 10), 11nat)),
    ));
    assert(spec_pow10(3) == 1000 && spec_pow10(2) == 100) by {
        reveal_with_fuel(spec_pow10, 4);
    }
    assert(width_ok(3));
    let v = (100 + draw_at(ds, 0, 900)) as nat;
    assert(100 <= v <= 999);
    lemma_dec_three(v);
    lemma_zeros_all(7);
    let t = numeric_text(3, 10, ds, 0);
    assert(t =~= zeros(7) + dec_of(v));
    assert(t.len() == 10);
    let s1 = spec_emit(Scan { pos: 11, k: bump(0, 1), ..s0 }, t);
    assert(spec_step(e, s0) == Ok::<Scan, GenError>(s1));
    lemma_scan_step_eq(e, s0, s1);
    assert(s1.out =~= t);
    assert forall|i: int| 0 <= i < 7 implies #[trigger] spec_generate(m, ds).unwrap().0[i]
        == '0' by {
        assert(t[i] == zeros(7)[i]);
    }
}

/// Groups capture and backreferences replay them: the pattern
/// `(ab)\+(cd)=\2\+\1` always emits `ab+cd=cd+ab`, so the text after `=`
/// holds the two captures in swapped order, whatever the draws and whatever
/// earlier calls left in the capture table.
#[verifier::rlimit(60)]
pub proof fn lemma_group_backreference(m: Model, ds: Seq<usize>)
    requires
        wf(m),
        m.pattern == "(ab)\\+(cd)=\\2\\+\\1"@,
    ensures
        spec_generate(m, ds) is Ok,
        spec_generate(m, ds).unwrap().0 == "ab+cd=cd+ab"@,
        spec_generate(m, ds).unwrap().1.groups[1] == Some("ab"@),
        spec_generate(m, ds).unwrap().1.groups[2] == Some("cd"@),
{
    reveal_strlit("(ab)\\+(cd)=\\2\\+\\1");
    reveal_strlit("ab+cd=cd+ab");
    reveal_strlit("ab");
    reveal_strlit("cd");
    let e = Env { p: m.pattern, pool: m.pool, ds };
    let p = e.p;
    assert(p.len() == 17);
    let s0 = init_scan(m);
    let s1 = step_open(e, s0);
    assert(spec_step(e, s0) == Ok::<Scan, GenError>(s1));
    lemma_scan_step_eq(e, s0, s1);
    assert(s1.stack.len() == 1);
    let s2 = step_literal(e, s1);
    assert(spec_step(e, s1) == Ok::<Scan, GenError>(s2));
    lemma_scan_step_eq(e, s1, s2);
    let s3 = step_literal(e, s2);
    assert(spec_step(e, s2) == Ok::<Scan, GenError>(s3));
    lemma_scan_step_eq(e, s2, s3);
    assert(s3.stack.len() == 1);
    assert(s3.stack[0].0 == 1);
    assert(s3.stack[0].1 =~= "ab"@);
    let s4 = step_close(e, s3);
    assert(spec_step(e, s3) == Ok::<Scan, GenError>(s4));
    lemma_scan_step_eq(e, s3, s4);
    assert(find_char("ab"@, '|', 0) == 2) by {
        reveal_with_fuel(find_char, 3);
    }
    assert("ab"@.take(2) =~= "ab"@);
    assert(s4.pos == 4);
    assert(s4.stack.len() == 0);
    assert(s4.out =~= "ab"@);
    assert(s4.groups == m.groups.update(1, Some("ab"@)));
    assert(spec_quant(p, 6) == Ok::<Option<(Quant, nat)>, GenError>(None));
    let s5r = step_sampled(e, s4);
    assert(escape_expansion('+') is None);
    assert(repeat_char('+', 1) =~= seq!['+']) by {
        reveal_with_fuel(repeat_char, 2);
    }
    let s5 = spec_emit(Scan { pos: 6, k: s4.k, ..s4 }, seq!['+']);
    assert(s5r == Ok::<Scan, GenError>(s5));
    assert(spec_step(e, s4) == Ok::<Scan, GenError>(s5));
    lemma_scan_step_eq(e, s4, s5);
    assert(s5.out =~= "ab"@ + seq!['+']);
    let s6 = step_open(e, s5);
    assert(spec_step(e, s5) == Ok::<Scan, GenError>(s6));
    lemma_scan_step_eq(e, s5, s6);
    assert(s6.pos == 7 && s6.stack.len() == 1 && s6.stack[0].0 == 2);
    let s7 = step_literal(e, s6);
    assert(spec_step(e, s6) == Ok::<Scan, GenError>(s7));
    lemma_scan_step_eq(e, s6, s7);
    let s8 = step_literal(e, s7);
    assert(spec_step(e, s7) == Ok::<Scan, GenError>(s8));
    lemma_scan_step_eq(e, s7, s8);
    assert(s8.stack.len() == 1);
    assert(s8.stack[0].0 == 2);
    assert(s8.stack[0].1 =~= "cd"@);
    let s9 = step_close(e, s8);
    assert(spec_step(e, s8) == Ok::<Scan, GenError>(s9));
    lemma_scan_step_eq(e, s8, s9);
    assert(find_char("cd"@, '|', 0) == 2) by {
        reveal_with_fuel(find_char, 3);
    }
    assert("cd"@.take(2) =~= "cd"@);
    assert(s9.pos == 10);
    assert(s9.stack.len() == 0);
    assert(s9.out =~= s5.out + "cd"@);
    assert(s9.groups == m.groups.update(1, Some("ab"@)).update(2, Some("cd"@)));
    let s10 = step_literal(e, s9);
    assert(spec_step(e, s9) == Ok::<Scan, GenError>(s10));
    lemma_scan_step_eq(e, s9, s10);
    assert(s10.pos == 11);
    assert(digit_val('2') == 2);
    let s11 = step_backref(e, s10);
    assert(spec_step(e, s10) == Ok::<Scan, GenError>(s11));
    lemma_scan_step_eq(e, s10, s11);
    assert(s11.pos == 13);
    assert(s11.out =~= s10.out + "cd"@);
    assert(spec_quant(p, 15) == Ok::<Option<(Quant, nat)>, GenError>(None));
    let s12r = step_sampled(e, s11);
    let s12 = spec_emit(Scan { pos: 15, k: s11.k, ..s11 }, seq!['+']);
    assert(s12r == Ok::<Scan, GenError>(s12));
    assert(spec_step(e, s11) == Ok::<Scan, GenError>(s12));
    lemma_scan_step_eq(e, s11, s12);
    assert(digit_val('1') == 1);
    let s13 = step_backref(e, s12);
    assert(spec_step(e, s12) == Ok::<Scan, GenError>(s13));
    lemma_scan_step_eq(e, s12, s13);
    assert(s13.pos == 17);
    assert(s13.out =~= s12.out + "ab"@);
    assert(spec_scan(e, s13) == Ok::<Scan, GenError>(s13));
    assert(s13.out =~= "ab+cd=cd+ab"@);
}

/// The bare counter directive advances the counter one step in the current
/// direction and emits the new value; with no counter seeded it emits the
/// placeholder and seeds nothing.
pub proof fn lemma_counter_directive(m: Model, ds: Seq<usize>)
    requires
        wf(m),
        m.pattern == "\\i"@,
    ensures
        spec_generate(m, ds) is Ok,
        match m.counter {
            Some(v) => spec_generate(m, ds).unwrap().0 == spec_increment(v, m.ascending, m.width)
                && spec_generate(m, ds).unwrap().1.counter == Some(
                spec_increment(v, m.ascending, m.width),
            ),
            None => spec_generate(m, ds).unwrap().0 == seq!['0'] && spec_generate(
                m,
                ds,
            ).unwrap().1.counter is None,
        },
{
    reveal_strlit("\\i");
    let e = Env { p: m.pattern, pool: m.pool, ds };
    let s0 = init_scan(m);
    let s1 = step_counter(e, s0);
    assert(spec_step(e, s0) == Ok::<Scan, GenError>(s1));
    lemma_scan_step_eq(e, s0, s1);
    match m.counter {
        Some(v) => {
            assert(s1.out =~= spec_increment(v, m.ascending, m.width));
        },
        None => {
            assert(s1.out =~= seq!['0']);
        },
    }
}

/// The ascending pool directive emits the value under the cursor and
/// advances the cursor by one, wrapping modulo the pool length.
pub proof fn lemma_pool_ascending_wraps(m: Model, ds: Seq<usize>)
    requires
        wf(m),
        m.pattern == "\\a+"@,
        m.pool is Some,
        m.pool.unwrap().len() >= 1,
    ensures
        spec_generate(m, ds) is Ok,
        spec_generate(m, ds).unwrap().0 == m.pool.unwrap()[(m.cursor % m.pool.unwrap().len()) as int],
        spec_generate(m, ds).unwrap().1.cursor == (m.cursor + 1) % m.pool.unwrap().len(),
{
    reveal_strlit("\\a+");
    let e = Env { p: m.pattern, pool: m.pool, ds };
    let s0 = init_scan(m);
    let s1 = step_pool(e, s0);
    assert(spec_step(e, s0) == Ok::<Scan, GenError>(s1));
    lemma_scan_step_eq(e, s0, s1);
    assert(s1.out =~= m.pool.unwrap()[(m.cursor % m.pool.unwrap().len()) as int]);
}

/// The descending pool directive walks the pool from its far end, the same
/// cursor wrapping modulo the pool length.
pub proof fn lemma_pool_descending_wraps(m: Model, ds: Seq<usize>)
    requires
        wf(m),
        m.pattern == "\\a-"@,
        m.pool is Some,
        m.pool.unwrap().len() >= 1,
    ensures
        spec_generate(m, ds) is Ok,
        spec_generate(m, ds).unwrap().0 == m.pool.unwrap()[(m.pool.unwrap().len() - 1 - (m.cursor
            % m.pool.unwrap().len())) as int],
        spec_generate(m, ds).unwrap().1.cursor == (m.cursor + 1) % m.pool.unwrap().len(),
{
    reveal_strlit("\\a-");
    let e = Env { p: m.pattern, pool: m.pool, ds };
    let s0 = init_scan(m);
    let s1 = step_pool(e, s0);
    assert(spec_step(e, s0) == Ok::<Scan, GenError>(s1));
    lemma_scan_step_eq(e, s0, s1);
    assert(s1.out =~= m.pool.unwrap()[(m.pool.unwrap().len() - 1 - (m.cursor % m.pool.unwrap().len())) as int]);
}

} // verus!
