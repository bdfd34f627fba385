//! The pattern generator: its cross-call state, construction, and the two
//! generation entry points.

use vstd::prelude::*;
use crate::engine::{chars_to_string, copy_chars, do_step, st_view, str_to_chars, ScanSt};
use crate::model::{
    close_model, gen_outcome, group_slots, init_scan, lemma_step_advances, lemma_step_preserves_wf,
    spec_generate, spec_scan, spec_step, wf, Env, GenError, Model, Scan,
};
use crate::numerals::{digit_val_exec, is_digit_exec};
use crate::sampling::random_draws;

verus! {

/// A generation call's outcome read as the model sees it.
pub open spec fn gen_text(r: Result<String, GenError>) -> Result<Seq<char>, GenError> {
    match r {
        Ok(text) => Ok(text@),
        Err(err) => Err(err),
    }
}

/// A generator instance: the immutable pattern, the capture-group table, the
/// counter with its direction and padding width, and the value pool with its
/// cursor. One instance produces one series of values across repeated calls.
pub struct RegexGenerator {
    pattern: Vec<char>,
    groups: Vec<Option<Vec<char>>>,
    counter: Option<Vec<char>>,
    ascending: bool,
    width: Option<usize>,
    pool: Option<Vec<Vec<char>>>,
    cursor: usize,
}

impl View for RegexGenerator {
    type V = Model;

    closed spec fn view(&self) -> Model {
        Model {
            pattern: self.pattern@,
            groups: self.groups.deep_view(),
            counter: match self.counter {
                Some(v) => Some(v@),
                None => None,
            },
            ascending: self.ascending,
            width: self.width,
            pool: self.pool.deep_view(),
            cursor: self.cursor as nat,
        }
    }
}

/// Copy the capture-group table.
fn copy_groups(g: &Vec<Option<Vec<char>>>) -> (r: Vec<Option<Vec<char>>>)
    ensures
        r.deep_view() == g.deep_view(),
        r@.len() == g@.len(),
{
    let mut r: Vec<Option<Vec<char>>> = Vec::new();
    let mut i: usize = 0;
    while i < g.len()
        invariant
            0 <= i <= g@.len(),
            r@.len() == i as nat,
            forall|q: int| 0 <= q < i ==> r.deep_view()[q] == g.deep_view()[q],
        decreases g@.len() - i,
    {
        match &g[i] {
            Some(v) => {
                let cp = copy_chars(v);
                proof {
                    assert(cp.deep_view() =~= v.deep_view());
                }
                r.push(Some(cp));
            },
            None => {
                r.push(None);
            },
        }
        i = i + 1;
    }
    proof {
        assert(r.deep_view() =~= g.deep_view());
    }
    r
}

impl RegexGenerator {
    /// Construct a generator from the pattern text, an optional counter seed,
    /// and an optional value pool. Nothing is validated here: a malformed
    /// quantifier surfaces on the generation call that reaches it.
    pub fn new(
        pattern: &str,
        increment_value: Option<String>,
        array_values: Option<Vec<String>>,
    ) -> (r: RegexGenerator)
        ensures
            r@.pattern == pattern@,
            r@.groups == Seq::new(group_slots(), |i: int| None::<Seq<char>>),
            r@.counter == (match increment_value {
                Some(s) => Some(s@),
                None => None::<Seq<char>>,
            }),
            r@.ascending == true,
            r@.width is None,
            r@.pool == array_values.deep_view(),
            r@.cursor == 0,
            wf(r@),
    {
        let pat = str_to_chars(pattern);
        let mut groups: Vec<Option<Vec<char>>> = Vec::new();
        let mut gi: usize = 0;
        while gi < 10
            invariant
                0 <= gi <= 10,
                groups@.len() == gi as nat,
                forall|q: int| 0 <= q < gi ==> groups@[q] is None,
            decreases 10 - gi,
        {
            groups.push(None);
            gi = gi + 1;
        }
        let counter = match &increment_value {
            Some(s) => Some(str_to_chars(s.as_str())),
            None => None,
        };
        let pool = match &array_values {
            Some(vs) => {
                let mut pv: Vec<Vec<char>> = Vec::new();
                let mut i: usize = 0;
                while i < vs.len()
                    invariant
                        0 <= i <= vs@.len(),
                        pv@.len() == i as nat,
                        forall|q: int| 0 <= q < i ==> pv@[q]@ == #[trigger] vs@[q]@,
                    decreases vs@.len() - i,
                {
                    pv.push(str_to_chars(vs[i].as_str()));
                    i = i + 1;
                }
                Some(pv)
            },
            None => None,
        };
        let r = RegexGenerator {
            pattern: pat,
            groups,
            counter,
            ascending: true,
            width: None,
            pool,
            cursor: 0,
        };
        proof {
            assert(r@.groups =~= Seq::new(group_slots(), |i: int| None::<Seq<char>>));
            match array_values {
                Some(vs) => {
                    let pv2 = r.pool.unwrap();
                    assert forall|q: int| 0 <= q < pv2@.len() implies pv2.deep_view()[q]
                        == vs.deep_view()[q] by {
                        assert(pv2@[q].deep_view() =~= pv2@[q]@);
                    }
                    assert(r.pool.deep_view() is Some);
                    assert(r.pool.deep_view().unwrap() =~= vs.deep_view());
                },
                None => {},
            }
        }
        r
    }

    /// One generation pass with the random draws given as an explicit stream:
    /// the emitted text and the state left behind are exactly the model's on
    /// that stream, and a fault leaves the generator as it was.
    pub fn generate_with_draws(&mut self, draws: &Vec<usize>) -> (r: Result<String, GenError>)
        requires
            wf(old(self)@),
        ensures
            wf(final(self)@),
            match r {
                Ok(text) => gen_outcome(old(self)@, draws@, Ok(text@), final(self)@),
                Err(err) => gen_outcome(old(self)@, draws@, Err(err), final(self)@),
            },
    {
        let ghost m0 = self@;
        let ghost env = Env { p: self.pattern@, pool: self.pool.deep_view(), ds: draws@ };
        let plen = self.pattern.len();
        let mut st = ScanSt {
            pos: 0,
            k: 0,
            out: Vec::new(),
            stack: Vec::new(),
            next_ord: 1,
            groups: copy_groups(&self.groups),
            counter: match &self.counter {
                Some(v) => Some(copy_chars(v)),
                None => None,
            },
            ascending: self.ascending,
            width: self.width,
            cursor: self.cursor,
        };
        proof {
            assert(st_view(st).stack =~= init_scan(m0).stack);
            assert(st_view(st).out =~= init_scan(m0).out);
            assert(st_view(st) == init_scan(m0));
        }
        while st.pos < plen
            invariant
                wf(m0),
                m0 == self@,
                plen as nat == self.pattern@.len(),
                env == (Env { p: self.pattern@, pool: self.pool.deep_view(), ds: draws@ }),
                st.pos <= plen,
                st.groups@.len() == group_slots(),
                match self.pool {
                    Some(ref arr) => (if arr@.len() == 0 {
                        st.cursor == 0
                    } else {
                        st.cursor < arr@.len()
                    }),
                    None => st.cursor == 0,
                },
                spec_scan(env, st_view(st)) == spec_scan(env, init_scan(m0)),
            decreases plen - st.pos,
        {
            let ghost pre = st_view(st);
            match do_step(&self.pattern, &self.pool, draws, &mut st) {
                Ok(()) => {
                    proof {
                        lemma_step_advances(env, pre);
                        assert(spec_scan(env, pre) == spec_scan(env, st_view(st)));
                    }
                },
                Err(err) => {
                    proof {
                        assert(spec_scan(env, pre) == Err::<Scan, GenError>(err));
                        assert(spec_generate(m0, draws@) == Err::<(Seq<char>, Model), GenError>(
                            err,
                        ));
                    }
                    return Err(err);
                },
            }
        }
        let ghost fin = st_view(st);
        proof {
            assert(spec_scan(env, fin) == Ok::<Scan, GenError>(fin));
        }
        let text = chars_to_string(&st.out);
        self.groups = st.groups;
        self.counter = st.counter;
        self.ascending = st.ascending;
        self.width = st.width;
        self.cursor = st.cursor;
        proof {
            assert(self@ == close_model(m0, fin));
            assert(spec_generate(m0, draws@) == Ok::<(Seq<char>, Model), GenError>(
                (fin.out, close_model(m0, fin)),
            ));
        }
        Ok(text)
    }

    /// One generation pass on fresh random draws: some draw stream gives
    /// exactly this text and this state. A fault leaves the generator as it
    /// was.
    pub fn generate(&mut self) -> (r: Result<String, GenError>)
        requires
            wf(old(self)@),
        ensures
            wf(final(self)@),
            exists|ds: Seq<usize>|
                #![trigger gen_outcome(old(self)@, ds, gen_text(r), final(self)@)]
                gen_outcome(old(self)@, ds, gen_text(r), final(self)@),
    {
        let budget = draw_budget(&self.pattern);
        let draws = random_draws(budget);
        let r = self.generate_with_draws(&draws);
        proof {
            assert(gen_outcome(old(self)@, draws@, gen_text(r), self@));
        }
        r
    }
}

/// How many random values one pass could want: one per pattern character,
/// plus room for the repetition counts its quantifiers can draw. The scan
/// reads missing draws as zero, so this only sizes the stream; large
/// quantifier bounds are capped rather than allocated in full.
fn draw_budget(p: &Vec<char>) -> (n: usize)
{
    let mut budget: usize = 16;
    let mut i: usize = 0;
    while i < p.len()
        invariant
            0 <= i <= p@.len(),
            budget <= 1_008_300,
        decreases p@.len() - i,
    {
        if is_digit_exec(p[i]) {
            let ghost i0 = i;
            let mut run: usize = 0;
            while i < p.len() && is_digit_exec(p[i])
                invariant
                    i0 <= i <= p@.len(),
                    run <= 8199,
                decreases p@.len() - i,
            {
                let d = digit_val_exec(p[i]) as usize;
                run = if run > 819 {
                    8192
                } else {
                    run * 10 + d
                };
                i = i + 1;
            }
            proof {
                assert(i > i0);
            }
            budget = if budget > 1_000_000 {
                1_000_000
            } else {
                budget + run
            };
        } else {
            budget = if budget > 1_000_000 {
                1_000_000
            } else {
                budget + 1
            };
            i = i + 1;
        }
    }
    budget
}

} // verus!
