//! Semantics of the target instruction set: a one-directional unbounded
//! tape of wrapping byte cells, a pointer starting at cell 0, and an
//! output channel. Programs are modelled structurally, with loops as
//! nodes; `flat_p` maps a structured program to its instruction text.

use vstd::prelude::*;
use crate::table::{PLUS, MINUS, LT, GT, LB, RB, DOT, NL, frag_for, raw_frag, mult_frag};
use crate::assemble::{rep_seq, patch, mid_frags, partial_body, program_spec};

verus! {

/// One instruction: increment, decrement, pointer moves, output, or a
/// loop that repeats its body while the current cell is nonzero.
pub enum Instr {
    Inc,
    Dec,
    Right,
    Left,
    Out,
    Loop(Box<Prog>),
}

/// A program: a sequence of instructions.
pub enum Prog {
    Nil,
    Cons(Instr, Box<Prog>),
}

/// A machine state: the tape (cells not in the map hold 0), the pointer,
/// and the output produced so far.
pub struct MState {
    pub tape: Map<int, u8>,
    pub ptr: int,
    pub out: Seq<u8>,
}

/// The value of cell `i`: 0 unless written before.
pub open spec fn rd(st: MState, i: int) -> u8 {
    if st.tape.dom().contains(i) {
        st.tape[i]
    } else {
        0
    }
}

/// The state with cell `i` set to `v`.
pub open spec fn wr(st: MState, i: int, v: u8) -> MState {
    MState { tape: st.tape.insert(i, v), ptr: st.ptr, out: st.out }
}

pub open spec fn wrap_inc(v: u8) -> u8 {
    if v == 255 {
        0
    } else {
        (v + 1) as u8
    }
}

pub open spec fn wrap_dec(v: u8) -> u8 {
    if v == 0 {
        255
    } else {
        (v - 1) as u8
    }
}

/// Runs one instruction. `None` means the run failed (pointer moved left
/// of cell 0) or the fuel bounding loop iterations ran out.
pub open spec fn run_i(i: Instr, st: MState, fuel: nat) -> Option<MState>
    decreases fuel, i,
{
    match i {
        Instr::Inc => Some(wr(st, st.ptr, wrap_inc(rd(st, st.ptr)))),
        Instr::Dec => Some(wr(st, st.ptr, wrap_dec(rd(st, st.ptr)))),
        Instr::Right => Some(MState { tape: st.tape, ptr: st.ptr + 1, out: st.out }),
        Instr::Left => if st.ptr == 0 {
            None
        } else {
            Some(MState { tape: st.tape, ptr: st.ptr - 1, out: st.out })
        },
        Instr::Out => Some(MState { tape: st.tape, ptr: st.ptr, out: st.out.push(rd(st, st.ptr)) }),
        Instr::Loop(body) => if rd(st, st.ptr) == 0 {
            Some(st)
        } else if fuel == 0 {
            None
        } else {
            match run_p(*body, st, fuel) {
                None => None,
                Some(st2) => run_i(Instr::Loop(body), st2, (fuel - 1) as nat),
            }
        },
    }
}

/// Runs a program from left to right.
pub open spec fn run_p(p: Prog, st: MState, fuel: nat) -> Option<MState>
    decreases fuel, p,
{
    match p {
        Prog::Nil => Some(st),
        Prog::Cons(i, rest) => match run_i(i, st, fuel) {
            None => None,
            Some(st2) => run_p(*rest, st2, fuel),
        },
    }
}

/// The instruction text of one instruction.
pub open spec fn flat_i(i: Instr) -> Seq<u8>
    decreases i,
{
    match i {
        Instr::Inc => seq![PLUS],
        Instr::Dec => seq![MINUS],
        Instr::Right => seq![GT],
        Instr::Left => seq![LT],
        Instr::Out => seq![DOT],
        Instr::Loop(body) => seq![LB] + flat_p(*body) + seq![RB],
    }
}

/// The instruction text of a program.
pub open spec fn flat_p(p: Prog) -> Seq<u8>
    decreases p,
{
    match p {
        Prog::Nil => Seq::empty(),
        Prog::Cons(i, rest) => flat_i(i) + flat_p(*rest),
    }
}

/// Program concatenation.
pub open spec fn app_p(a: Prog, b: Prog) -> Prog
    decreases a,
{
    match a {
        Prog::Nil => b,
        Prog::Cons(i, rest) => Prog::Cons(i, Box::new(app_p(*rest, b))),
    }
}

/// `n` repetitions of one instruction.
pub open spec fn rep_i(i: Instr, n: int) -> Prog
    decreases n,
{
    if n <= 0 {
        Prog::Nil
    } else {
        Prog::Cons(i, Box::new(rep_i(i, n - 1)))
    }
}

/// The single-instruction program.
pub open spec fn one(i: Instr) -> Prog {
    Prog::Cons(i, Box::new(Prog::Nil))
}

/// The initial state: all cells 0, pointer at cell 0, no output.
pub open spec fn init_state() -> MState {
    MState { tape: Map::empty(), ptr: 0, out: Seq::empty() }
}

pub proof fn lemma_flat_app(a: Prog, b: Prog)
    ensures
        flat_p(app_p(a, b)) == flat_p(a) + flat_p(b),
    decreases a,
{
    match a {
        Prog::Nil => {
            assert(flat_p(app_p(a, b)) =~= flat_p(a) + flat_p(b));
        },
        Prog::Cons(i, rest) => {
            lemma_flat_app(*rest, b);
            assert(flat_i(i) + (flat_p(*rest) + flat_p(b)) =~= (flat_i(i) + flat_p(*rest)) + flat_p(
                b,
            ));
        },
    }
}

/// Running a concatenation runs the first part, then the second from where
/// the first ended.
pub proof fn lemma_run_app(a: Prog, b: Prog, st: MState, fuel: nat)
    ensures
        run_p(app_p(a, b), st, fuel) == match run_p(a, st, fuel) {
            None => None::<MState>,
            Some(st2) => run_p(b, st2, fuel),
        },
    decreases a,
{
    match a {
        Prog::Nil => {},
        Prog::Cons(i, rest) => {
            match run_i(i, st, fuel) {
                None => {},
                Some(st2) => {
                    lemma_run_app(*rest, b, st2, fuel);
                },
            }
        },
    }
}

/// Cell arithmetic: the value of a byte cell after adding `k` (of either
/// sign), wrapping modulo 256.
pub open spec fn addm(v: u8, k: int) -> u8 {
    ((v + k) % 256) as u8
}

proof fn lemma_addm_compose(v: u8, a: int, b: int)
    ensures
        addm(addm(v, a), b) == addm(v, a + b),
{
    let m = 256int;
    let q = (v + a) / m;
    vstd::arithmetic::div_mod::lemma_fundamental_div_mod(v + a, m);
    assert(addm(v, a) + b == m * (-q) + (v + a + b));
    vstd::arithmetic::div_mod::lemma_mod_multiples_vanish(-q, v + a + b, m);
    vstd::arithmetic::div_mod::lemma_mod_division_less_than_divisor(v + a, m);
    vstd::arithmetic::div_mod::lemma_mod_division_less_than_divisor(addm(v, a) + b, m);
}

proof fn lemma_addm_small(v: u8, k: int)
    requires
        0 <= v + k < 256,
    ensures
        addm(v, k) == v + k,
{
    vstd::arithmetic::div_mod::lemma_small_mod((v + k) as nat, 256);
}

/// Repeated increments add their count to the current cell.
proof fn lemma_rep_inc(n: int, st: MState, fuel: nat)
    requires
        n >= 0,
    ensures
        ({
            let r = run_p(rep_i(Instr::Inc, n), st, fuel);
            &&& r is Some
            &&& r->Some_0.ptr == st.ptr
            &&& r->Some_0.out == st.out
            &&& rd(r->Some_0, st.ptr) == addm(rd(st, st.ptr), n)
            &&& forall|j: int| j != st.ptr ==> rd(r->Some_0, j) == rd(st, j)
        }),
    decreases n,
{
    if n <= 0 {
        lemma_addm_small(rd(st, st.ptr), 0);
    } else {
        let st2 = wr(st, st.ptr, wrap_inc(rd(st, st.ptr)));
        assert(rep_i(Instr::Inc, n) == Prog::Cons(Instr::Inc, Box::new(rep_i(Instr::Inc, n - 1))));
        assert(run_i(Instr::Inc, st, fuel) == Some(st2));
        assert(run_p(rep_i(Instr::Inc, n), st, fuel) == run_p(rep_i(Instr::Inc, n - 1), st2, fuel));
        assert(rd(st2, st.ptr) == addm(rd(st, st.ptr), 1)) by {
            if rd(st, st.ptr) == 255 {
                vstd::arithmetic::div_mod::lemma_mod_self_0(256);
            } else {
                lemma_addm_small(rd(st, st.ptr), 1);
            }
        }
        lemma_rep_inc(n - 1, st2, fuel);
        lemma_addm_compose(rd(st, st.ptr), 1, n - 1);
        let r = run_p(rep_i(Instr::Inc, n), st, fuel);
        assert forall|j: int| j != st.ptr implies rd(r->Some_0, j) == rd(st, j) by {
            assert(rd(st2, j) == rd(st, j));
        }
    }
}

/// Repeated decrements subtract their count from the current cell.
proof fn lemma_rep_dec(n: int, st: MState, fuel: nat)
    requires
        n >= 0,
    ensures
        ({
            let r = run_p(rep_i(Instr::Dec, n), st, fuel);
            &&& r is Some
            &&& r->Some_0.ptr == st.ptr
            &&& r->Some_0.out == st.out
            &&& rd(r->Some_0, st.ptr) == addm(rd(st, st.ptr), -n)
            &&& forall|j: int| j != st.ptr ==> rd(r->Some_0, j) == rd(st, j)
        }),
    decreases n,
{
    if n <= 0 {
        lemma_addm_small(rd(st, st.ptr), 0);
    } else {
        let st2 = wr(st, st.ptr, wrap_dec(rd(st, st.ptr)));
        assert(rep_i(Instr::Dec, n) == Prog::Cons(Instr::Dec, Box::new(rep_i(Instr::Dec, n - 1))));
        assert(run_i(Instr::Dec, st, fuel) == Some(st2));
        assert(run_p(rep_i(Instr::Dec, n), st, fuel) == run_p(rep_i(Instr::Dec, n - 1), st2, fuel));
        assert(rd(st2, st.ptr) == addm(rd(st, st.ptr), -1)) by {
            if rd(st, st.ptr) == 0 {
                vstd::arithmetic::div_mod::lemma_mod_multiples_vanish(1, -1, 256);
                vstd::arithmetic::div_mod::lemma_small_mod(255, 256);
            } else {
                lemma_addm_small(rd(st, st.ptr), -1);
            }
        }
        lemma_rep_dec(n - 1, st2, fuel);
        lemma_addm_compose(rd(st, st.ptr), -1, -(n - 1));
        let r = run_p(rep_i(Instr::Dec, n), st, fuel);
        assert forall|j: int| j != st.ptr implies rd(r->Some_0, j) == rd(st, j) by {
            assert(rd(st2, j) == rd(st, j));
        }
    }
}

/// The repeated sign symbol of a nonzero delta adjusts the current cell by
/// the delta's magnitude in the delta's direction.
proof fn lemma_rep_sign(d: int, n: int, st: MState, fuel: nat)
    requires
        n >= 0,
        d != 0,
    ensures
        ({
            let r = run_p(rep_i(sign_instr(d), n), st, fuel);
            &&& r is Some
            &&& r->Some_0.ptr == st.ptr
            &&& r->Some_0.out == st.out
            &&& rd(r->Some_0, st.ptr) == addm(rd(st, st.ptr), if d > 0 { n } else { -n })
            &&& forall|j: int| j != st.ptr ==> rd(r->Some_0, j) == rd(st, j)
        }),
{
    if d > 0 {
        lemma_rep_inc(n, st, fuel);
    } else {
        lemma_rep_dec(n, st, fuel);
    }
}

/// The increment or decrement instruction matching a delta's sign.
pub open spec fn sign_instr(d: int) -> Instr {
    if d > 0 {
        Instr::Inc
    } else {
        Instr::Dec
    }
}

/// The text of a repeated single instruction is the repeated symbol.
proof fn lemma_flat_rep_i(i: Instr, n: int)
    ensures
        flat_i(i).len() == 1 ==> flat_p(rep_i(i, n)) == crate::table::rep(flat_i(i)[0], n),
    decreases n,
{
    let c = flat_i(i)[0];
    if flat_i(i).len() == 1 {
        if n <= 0 {
            assert(flat_p(rep_i(i, n)) =~= crate::table::rep(c, n));
        } else {
            lemma_flat_rep_i(i, n - 1);
            assert(flat_i(i) + flat_p(rep_i(i, n - 1)) =~= crate::table::rep(c, n)) by {
                assert(flat_i(i) =~= seq![c]);
            }
        }
    }
}

/// Effect of the factorized fragment's loop: with a counter `c` in the
/// current cell, the loop adds `inner` sign symbols to the cell to the
/// right on each of `c` iterations, clearing the counter.
proof fn lemma_mult_loop(d: int, inner: int, st: MState, fuel: nat)
    requires
        d != 0,
        inner >= 0,
        st.ptr >= 0,
        fuel >= rd(st, st.ptr),
    ensures
        ({
            let body = app_p(
                one(Instr::Right),
                app_p(rep_i(sign_instr(d), inner), app_p(one(Instr::Left), one(Instr::Dec))),
            );
            let r = run_i(Instr::Loop(Box::new(body)), st, fuel);
            let c = rd(st, st.ptr) as int;
            &&& r is Some
            &&& r->Some_0.ptr == st.ptr
            &&& r->Some_0.out == st.out
            &&& rd(r->Some_0, st.ptr) == 0
            &&& rd(r->Some_0, st.ptr + 1) == addm(
                rd(st, st.ptr + 1),
                if d > 0 {
                    inner * c
                } else {
                    -(inner * c)
                },
            )
            &&& forall|j: int|
                j != st.ptr && j != st.ptr + 1 ==> rd(r->Some_0, j) == rd(st, j)
        }),
    decreases rd(st, st.ptr),
{
    let body = app_p(
        one(Instr::Right),
        app_p(rep_i(sign_instr(d), inner), app_p(one(Instr::Left), one(Instr::Dec))),
    );
    let c = rd(st, st.ptr) as int;
    let p = st.ptr;
    if c == 0 {
        assert(addm(rd(st, p + 1), 0) == rd(st, p + 1)) by {
            lemma_addm_small(rd(st, p + 1), 0);
        }
        assert(inner * 0 == 0) by (nonlinear_arith);
    } else {
        // One iteration: move right, adjust, move left, decrement.
        let st1 = MState { tape: st.tape, ptr: p + 1, out: st.out };
        assert(run_p(one(Instr::Right), st, fuel) == Some(st1)) by {
            assert(run_i(Instr::Right, st, fuel) == Some(st1));
            assert(run_p(Prog::Nil, st1, fuel) == Some(st1));
        }
        lemma_run_app(
            one(Instr::Right),
            app_p(rep_i(sign_instr(d), inner), app_p(one(Instr::Left), one(Instr::Dec))),
            st,
            fuel,
        );
        lemma_rep_sign(d, inner, st1, fuel);
        let st2 = run_p(rep_i(sign_instr(d), inner), st1, fuel)->Some_0;
        lemma_run_app(
            rep_i(sign_instr(d), inner),
            app_p(one(Instr::Left), one(Instr::Dec)),
            st1,
            fuel,
        );
        let st3 = MState { tape: st2.tape, ptr: p, out: st2.out };
        assert(run_p(one(Instr::Left), st2, fuel) == Some(st3)) by {
            assert(st2.ptr == p + 1);
            assert(st2.ptr > 0);
            assert(run_i(Instr::Left, st2, fuel) == Some(st3));
            assert(run_p(Prog::Nil, st3, fuel) == Some(st3));
        }
        lemma_run_app(one(Instr::Left), one(Instr::Dec), st2, fuel);
        let st4 = wr(st3, p, wrap_dec(rd(st3, p)));
        assert(run_p(one(Instr::Dec), st3, fuel) == Some(st4)) by {
            assert(run_i(Instr::Dec, st3, fuel) == Some(st4));
            assert(run_p(Prog::Nil, st4, fuel) == Some(st4));
        }
        assert(run_p(body, st, fuel) == Some(st4));
        assert(rd(st3, p) == rd(st, p)) by {
            assert(rd(st2, p) == rd(st1, p));
        }
        assert(rd(st4, p) == c - 1);
        assert(rd(st4, p + 1) == addm(rd(st, p + 1), if d > 0 { inner } else { -inner }));
        assert(fuel >= 1);
        lemma_mult_loop(d, inner, st4, (fuel - 1) as nat);
        let r = run_i(Instr::Loop(Box::new(body)), st, fuel);
        assert(r == run_i(Instr::Loop(Box::new(body)), st4, (fuel - 1) as nat));
        if d > 0 {
            lemma_addm_compose(rd(st, p + 1), inner, inner * (c - 1));
            assert(inner + inner * (c - 1) == inner * c) by (nonlinear_arith);
        } else {
            lemma_addm_compose(rd(st, p + 1), -inner, -(inner * (c - 1)));
            assert(-inner + -(inner * (c - 1)) == -(inner * c)) by (nonlinear_arith);
        }
        assert forall|j: int| j != p && j != p + 1 implies rd(r->Some_0, j) == rd(st, j) by {
            assert(rd(st4, j) == rd(st3, j));
            assert(rd(st3, j) == rd(st2, j));
            assert(rd(st2, j) == rd(st1, j));
        }
    }
}

/// The body of the factorized fragment's loop: add `inner` sign symbols
/// to the adjacent cell and decrement the counter.
pub open spec fn mult_body_ast(d: int, inner: int) -> Prog {
    app_p(
        one(Instr::Right),
        app_p(rep_i(sign_instr(d), inner), app_p(one(Instr::Left), one(Instr::Dec))),
    )
}

/// The structured form of the stored fragment for delta `d`, chosen by
/// the same length comparison as the stored text.
pub open spec fn frag_ast(d: int) -> Prog {
    if d == 0 {
        app_p(one(Instr::Right), one(Instr::Right))
    } else {
        let a = crate::table::abs1(d) as nat;
        if mult_frag(d).len() > raw_frag(d).len() {
            app_p(one(Instr::Right), app_p(rep_i(sign_instr(d), crate::table::abs1(d)), one(Instr::Right)))
        } else {
            app_p(
                rep_i(Instr::Inc, crate::factor::spec_isqrt(a) as int),
                app_p(
                    one(Instr::Loop(Box::new(mult_body_ast(d, crate::factor::f_inner(a))))),
                    app_p(
                        one(Instr::Right),
                        app_p(rep_i(sign_instr(d), crate::factor::f_rem(a)), one(Instr::Right)),
                    ),
                ),
            )
        }
    }
}

/// The text of a single-instruction program is that instruction's text.
proof fn lemma_flat_one(i: Instr)
    ensures
        flat_p(one(i)) == flat_i(i),
{
    assert(flat_p(one(i)) == flat_i(i) + flat_p(Prog::Nil));
    assert(flat_i(i) + Seq::<u8>::empty() =~= flat_i(i));
}

/// Running a single-instruction program is running that instruction.
proof fn lemma_run_one(i: Instr, st: MState, fuel: nat)
    ensures
        run_p(one(i), st, fuel) == run_i(i, st, fuel),
{
    match run_i(i, st, fuel) {
        None => {},
        Some(st2) => {
            assert(run_p(Prog::Nil, st2, fuel) == Some(st2));
        },
    }
}

/// The structured fragment's text is exactly the stored fragment.
#[verifier::rlimit(60)]
proof fn lemma_frag_ast_flat(d: int)
    requires
        -257 <= d <= 257,
    ensures
        flat_p(frag_ast(d)) == frag_for(d),
{
    let gt = one(Instr::Right);
    lemma_flat_one(Instr::Right);
    lemma_flat_one(Instr::Left);
    lemma_flat_one(Instr::Dec);
    assert(flat_p(gt) =~= seq![GT]);
    if d == 0 {
        lemma_flat_app(gt, gt);
        assert(flat_p(frag_ast(0)) =~= frag_for(0));
    } else {
        let a = crate::table::abs1(d);
        let an = a as nat;
        let s = crate::table::sign_sym(d);
        assert(flat_i(sign_instr(d)) =~= seq![s]);
        if mult_frag(d).len() > raw_frag(d).len() {
            let reps = rep_i(sign_instr(d), a);
            lemma_flat_rep_i(sign_instr(d), a);
            lemma_flat_app(reps, gt);
            lemma_flat_app(gt, app_p(reps, gt));
            assert(flat_p(frag_ast(d)) =~= raw_frag(d));
        } else {
            crate::factor::lemma_factorization(an);
            let outer = crate::factor::spec_isqrt(an) as int;
            let inner = crate::factor::f_inner(an);
            let rem = crate::factor::f_rem(an);
            let pre = rep_i(Instr::Inc, outer);
            let lp = one(Instr::Loop(Box::new(mult_body_ast(d, inner))));
            let reps_in = rep_i(sign_instr(d), inner);
            let reps_rem = rep_i(sign_instr(d), rem);
            lemma_flat_rep_i(Instr::Inc, outer);
            lemma_flat_rep_i(sign_instr(d), inner);
            lemma_flat_rep_i(sign_instr(d), rem);
            assert(flat_i(Instr::Inc) =~= seq![PLUS]);
            // Text of the loop body.
            lemma_flat_app(one(Instr::Left), one(Instr::Dec));
            lemma_flat_app(reps_in, app_p(one(Instr::Left), one(Instr::Dec)));
            lemma_flat_app(gt, app_p(reps_in, app_p(one(Instr::Left), one(Instr::Dec))));
            assert(flat_p(one(Instr::Left)) =~= seq![LT]);
            assert(flat_p(one(Instr::Dec)) =~= seq![MINUS]);
            assert(flat_p(mult_body_ast(d, inner)) =~= seq![GT] + crate::table::rep(s, inner)
                + seq![LT, MINUS]);
            lemma_flat_one(Instr::Loop(Box::new(mult_body_ast(d, inner))));
            assert(flat_p(lp) =~= seq![LB] + (seq![GT] + crate::table::rep(s, inner)
                + seq![LT, MINUS]) + seq![RB]);
            // Text of the whole fragment.
            lemma_flat_app(reps_rem, gt);
            lemma_flat_app(gt, app_p(reps_rem, gt));
            lemma_flat_app(lp, app_p(gt, app_p(reps_rem, gt)));
            lemma_flat_app(pre, app_p(lp, app_p(gt, app_p(reps_rem, gt))));
            assert(flat_p(frag_ast(d)) =~= mult_frag(d));
        }
    }
}

/// Running the fragment for `d` from an even scratch cell holding 0
/// advances the pointer two cells and adjusts the adjacent cell by `d`,
/// touching nothing else and producing no output.
proof fn lemma_frag_effect(d: int, st: MState, fuel: nat)
    requires
        -257 <= d <= 257,
        st.ptr >= 0,
        rd(st, st.ptr) == 0,
        fuel >= 16,
    ensures
        ({
            let r = run_p(frag_ast(d), st, fuel);
            &&& r is Some
            &&& r->Some_0.ptr == st.ptr + 2
            &&& r->Some_0.out == st.out
            &&& rd(r->Some_0, st.ptr) == 0
            &&& rd(r->Some_0, st.ptr + 1) == addm(rd(st, st.ptr + 1), d)
            &&& forall|j: int|
                j != st.ptr && j != st.ptr + 1 ==> rd(r->Some_0, j) == rd(st, j)
        }),
{
    let p = st.ptr;
    let v = rd(st, p + 1);
    let gt = one(Instr::Right);
    if d == 0 {
        let st1 = MState { tape: st.tape, ptr: p + 1, out: st.out };
        let st2 = MState { tape: st.tape, ptr: p + 2, out: st.out };
        assert(run_p(gt, st, fuel) == Some(st1)) by {
            assert(run_i(Instr::Right, st, fuel) == Some(st1));
            assert(run_p(Prog::Nil, st1, fuel) == Some(st1));
        }
        assert(run_p(gt, st1, fuel) == Some(st2)) by {
            assert(run_i(Instr::Right, st1, fuel) == Some(st2));
            assert(run_p(Prog::Nil, st2, fuel) == Some(st2));
        }
        lemma_run_app(gt, gt, st, fuel);
        lemma_addm_small(v, 0);
        let r = run_p(frag_ast(d), st, fuel);
        assert(r == Some(st2));
        assert forall|j: int| j != p && j != p + 1 implies rd(r->Some_0, j) == rd(st, j) by {}
    } else {
        let a = crate::table::abs1(d);
        let an = a as nat;
        let sd = if d > 0 { a } else { -a };
        assert(sd == d);
        if mult_frag(d).len() > raw_frag(d).len() {
            let reps = rep_i(sign_instr(d), a);
            let st1 = MState { tape: st.tape, ptr: p + 1, out: st.out };
            assert(run_p(gt, st, fuel) == Some(st1)) by {
                assert(run_i(Instr::Right, st, fuel) == Some(st1));
                assert(run_p(Prog::Nil, st1, fuel) == Some(st1));
            }
            lemma_rep_sign(d, a, st1, fuel);
            let st2 = run_p(reps, st1, fuel)->Some_0;
            let st3 = MState { tape: st2.tape, ptr: p + 2, out: st2.out };
            assert(run_p(gt, st2, fuel) == Some(st3)) by {
                assert(run_i(Instr::Right, st2, fuel) == Some(st3));
                assert(run_p(Prog::Nil, st3, fuel) == Some(st3));
            }
            lemma_run_app(reps, gt, st1, fuel);
            lemma_run_app(gt, app_p(reps, gt), st, fuel);
            assert(rd(st3, p + 1) == addm(v, d));
            assert(rd(st2, p) == rd(st1, p));
            assert(rd(st1, p) == 0);
            assert(rd(st3, p) == 0);
            let r = run_p(frag_ast(d), st, fuel);
            assert(r == Some(st3));
            assert forall|j: int| j != p && j != p + 1 implies rd(r->Some_0, j) == rd(st, j) by {
                assert(rd(st2, j) == rd(st1, j));
            }
        } else {
            crate::factor::lemma_factorization(an);
            crate::factor::lemma_spec_isqrt(an);
            let outer = crate::factor::spec_isqrt(an) as int;
            let inner = crate::factor::f_inner(an);
            let rem = crate::factor::f_rem(an);
            let pre = rep_i(Instr::Inc, outer);
            let lp = one(Instr::Loop(Box::new(mult_body_ast(d, inner))));
            let reps_rem = rep_i(sign_instr(d), rem);
            assert(outer <= 16) by (nonlinear_arith)
                requires
                    outer * outer <= an,
                    an <= 257,
                    outer >= 0;
            lemma_rep_inc(outer, st, fuel);
            let st1 = run_p(pre, st, fuel)->Some_0;
            assert(rd(st1, p) == outer) by {
                lemma_addm_small(0, outer);
            }
            assert(rd(st1, p + 1) == v);
            lemma_mult_loop(d, inner, st1, fuel);
            let st2 = run_i(Instr::Loop(Box::new(mult_body_ast(d, inner))), st1, fuel)->Some_0;
            assert(run_p(lp, st1, fuel) == Some(st2)) by {
                assert(run_p(Prog::Nil, st2, fuel) == Some(st2));
            }
            assert(rd(st2, p) == 0);
            assert(rd(st2, p + 1) == addm(v, if d > 0 { inner * outer } else { -(inner * outer) }));
            let st3 = MState { tape: st2.tape, ptr: p + 1, out: st2.out };
            assert(run_p(gt, st2, fuel) == Some(st3)) by {
                assert(run_i(Instr::Right, st2, fuel) == Some(st3));
                assert(run_p(Prog::Nil, st3, fuel) == Some(st3));
            }
            lemma_rep_sign(d, rem, st3, fuel);
            let st4 = run_p(reps_rem, st3, fuel)->Some_0;
            let st5 = MState { tape: st4.tape, ptr: p + 2, out: st4.out };
            assert(run_p(gt, st4, fuel) == Some(st5)) by {
                assert(run_i(Instr::Right, st4, fuel) == Some(st5));
                assert(run_p(Prog::Nil, st5, fuel) == Some(st5));
            }
            lemma_run_app(reps_rem, gt, st3, fuel);
            lemma_run_app(gt, app_p(reps_rem, gt), st2, fuel);
            lemma_run_app(lp, app_p(gt, app_p(reps_rem, gt)), st1, fuel);
            lemma_run_app(pre, app_p(lp, app_p(gt, app_p(reps_rem, gt))), st, fuel);
            assert(rd(st4, p) == rd(st3, p));
            assert(rd(st3, p) == rd(st2, p));
            assert(rd(st5, p + 1) == addm(v, d)) by {
                if d > 0 {
                    lemma_addm_compose(v, inner * outer, rem);
                    assert(inner * outer + rem == a) by (nonlinear_arith)
                        requires
                            outer * inner + rem == a;
                } else {
                    lemma_addm_compose(v, -(inner * outer), -rem);
                    assert(-(inner * outer) + -rem == -a) by (nonlinear_arith)
                        requires
                            outer * inner + rem == a;
                }
            }
            assert(rd(st5, p) == 0);
            assert forall|j: int|
                j != p && j != p + 1 implies rd(
                run_p(frag_ast(d), st, fuel)->Some_0,
                j,
            ) == rd(st, j) by {
                assert(rd(st4, j) == rd(st3, j));
                assert(rd(st2, j) == rd(st1, j));
                assert(rd(st1, j) == rd(st, j));
            }
        }
    }
}

/// The structured form of the program prefix: the fragment for the
/// adjustment constant with its trailing pointer advance stripped.
pub open spec fn pre_ast(t: int) -> Prog {
    if t == 0 {
        one(Instr::Right)
    } else {
        let a = crate::table::abs1(t) as nat;
        if mult_frag(t).len() > raw_frag(t).len() {
            app_p(one(Instr::Right), rep_i(sign_instr(t), crate::table::abs1(t)))
        } else {
            app_p(
                rep_i(Instr::Inc, crate::factor::spec_isqrt(a) as int),
                app_p(
                    one(Instr::Loop(Box::new(mult_body_ast(t, crate::factor::f_inner(a))))),
                    app_p(one(Instr::Right), rep_i(sign_instr(t), crate::factor::f_rem(a))),
                ),
            )
        }
    }
}

/// The prefix's text is the stored fragment minus its final advance.
#[verifier::rlimit(60)]
proof fn lemma_pre_flat(t: int)
    requires
        0 <= t <= 255,
    ensures
        flat_p(pre_ast(t)) == frag_for(t).drop_last(),
{
    let gt = one(Instr::Right);
    lemma_flat_one(Instr::Right);
    lemma_flat_one(Instr::Left);
    lemma_flat_one(Instr::Dec);
    if t == 0 {
        assert(flat_p(pre_ast(0)) =~= frag_for(0).drop_last());
    } else {
        let a = crate::table::abs1(t);
        let an = a as nat;
        let s = crate::table::sign_sym(t);
        assert(flat_i(sign_instr(t)) =~= seq![s]);
        if mult_frag(t).len() > raw_frag(t).len() {
            let reps = rep_i(sign_instr(t), a);
            lemma_flat_rep_i(sign_instr(t), a);
            lemma_flat_app(gt, reps);
            assert(flat_p(pre_ast(t)) =~= raw_frag(t).drop_last());
        } else {
            crate::factor::lemma_factorization(an);
            let outer = crate::factor::spec_isqrt(an) as int;
            let inner = crate::factor::f_inner(an);
            let rem = crate::factor::f_rem(an);
            let pre = rep_i(Instr::Inc, outer);
            let lp = one(Instr::Loop(Box::new(mult_body_ast(t, inner))));
            let reps_in = rep_i(sign_instr(t), inner);
            let reps_rem = rep_i(sign_instr(t), rem);
            lemma_flat_rep_i(Instr::Inc, outer);
            lemma_flat_rep_i(sign_instr(t), inner);
            lemma_flat_rep_i(sign_instr(t), rem);
            assert(flat_i(Instr::Inc) =~= seq![PLUS]);
            lemma_flat_app(one(Instr::Left), one(Instr::Dec));
            lemma_flat_app(reps_in, app_p(one(Instr::Left), one(Instr::Dec)));
            lemma_flat_app(gt, app_p(reps_in, app_p(one(Instr::Left), one(Instr::Dec))));
            assert(flat_p(mult_body_ast(t, inner)) =~= seq![GT] + crate::table::rep(s, inner)
                + seq![LT, MINUS]);
            lemma_flat_one(Instr::Loop(Box::new(mult_body_ast(t, inner))));
            lemma_flat_app(gt, reps_rem);
            lemma_flat_app(lp, app_p(gt, reps_rem));
            lemma_flat_app(pre, app_p(lp, app_p(gt, reps_rem)));
            assert(flat_p(pre_ast(t)) =~= mult_frag(t).drop_last());
        }
    }
}

/// Running the prefix materializes the adjustment constant into the cell
/// to the right and leaves the pointer on it.
proof fn lemma_pre_effect(t: int, st: MState, fuel: nat)
    requires
        0 <= t <= 255,
        st.ptr >= 0,
        rd(st, st.ptr) == 0,
        fuel >= 16,
    ensures
        ({
            let r = run_p(pre_ast(t), st, fuel);
            &&& r is Some
            &&& r->Some_0.ptr == st.ptr + 1
            &&& r->Some_0.out == st.out
            &&& rd(r->Some_0, st.ptr) == 0
            &&& rd(r->Some_0, st.ptr + 1) == addm(rd(st, st.ptr + 1), t)
            &&& forall|j: int|
                j != st.ptr && j != st.ptr + 1 ==> rd(r->Some_0, j) == rd(st, j)
        }),
{
    let p = st.ptr;
    let v = rd(st, p + 1);
    let gt = one(Instr::Right);
    if t == 0 {
        let st1 = MState { tape: st.tape, ptr: p + 1, out: st.out };
        lemma_run_one(Instr::Right, st, fuel);
        assert(run_p(pre_ast(0), st, fuel) == Some(st1));
        lemma_addm_small(v, 0);
    } else {
        let a = crate::table::abs1(t);
        let an = a as nat;
        if mult_frag(t).len() > raw_frag(t).len() {
            let reps = rep_i(sign_instr(t), a);
            let st1 = MState { tape: st.tape, ptr: p + 1, out: st.out };
            assert(run_p(gt, st, fuel) == Some(st1)) by {
                lemma_run_one(Instr::Right, st, fuel);
            }
            lemma_rep_sign(t, a, st1, fuel);
            let st2 = run_p(reps, st1, fuel)->Some_0;
            lemma_run_app(gt, reps, st, fuel);
            assert(rd(st2, p + 1) == addm(v, t));
            assert(rd(st2, p) == rd(st1, p));
            assert(rd(st1, p) == 0);
            let r = run_p(pre_ast(t), st, fuel);
            assert(r == Some(st2));
            assert forall|j: int| j != p && j != p + 1 implies rd(r->Some_0, j) == rd(st, j) by {
                assert(rd(st2, j) == rd(st1, j));
            }
        } else {
            crate::factor::lemma_factorization(an);
            crate::factor::lemma_spec_isqrt(an);
            let outer = crate::factor::spec_isqrt(an) as int;
            let inner = crate::factor::f_inner(an);
            let rem = crate::factor::f_rem(an);
            let pre = rep_i(Instr::Inc, outer);
            let lp = one(Instr::Loop(Box::new(mult_body_ast(t, inner))));
            let reps_rem = rep_i(sign_instr(t), rem);
            assert(outer <= 16) by (nonlinear_arith)
                requires
                    outer * outer <= an,
                    an <= 257,
                    outer >= 0;
            lemma_rep_inc(outer, st, fuel);
            let st1 = run_p(pre, st, fuel)->Some_0;
            assert(rd(st1, p) == outer) by {
                lemma_addm_small(0, outer);
            }
            assert(rd(st1, p + 1) == v);
            lemma_mult_loop(t, inner, st1, fuel);
            let st2 = run_i(Instr::Loop(Box::new(mult_body_ast(t, inner))), st1, fuel)->Some_0;
            assert(run_p(lp, st1, fuel) == Some(st2)) by {
                lemma_run_one(Instr::Loop(Box::new(mult_body_ast(t, inner))), st1, fuel);
            }
            assert(rd(st2, p) == 0);
            assert(rd(st2, p + 1) == addm(v, inner * outer));
            let st3 = MState { tape: st2.tape, ptr: p + 1, out: st2.out };
            assert(run_p(gt, st2, fuel) == Some(st3)) by {
                lemma_run_one(Instr::Right, st2, fuel);
            }
            lemma_rep_sign(t, rem, st3, fuel);
            let st4 = run_p(reps_rem, st3, fuel)->Some_0;
            lemma_run_app(gt, reps_rem, st2, fuel);
            lemma_run_app(lp, app_p(gt, reps_rem), st1, fuel);
            lemma_run_app(pre, app_p(lp, app_p(gt, reps_rem)), st, fuel);
            assert(rd(st4, p + 1) == addm(v, t)) by {
                lemma_addm_compose(v, inner * outer, rem);
                assert(inner * outer + rem == a) by (nonlinear_arith)
                    requires
                        outer * inner + rem == a;
            }
            assert(rd(st4, p) == rd(st3, p));
            assert(rd(st3, p) == rd(st2, p));
            let r = run_p(pre_ast(t), st, fuel);
            assert(r == Some(st4));
            assert forall|j: int| j != p && j != p + 1 implies rd(r->Some_0, j) == rd(st, j) by {
                assert(rd(st4, j) == rd(st3, j));
                assert(rd(st2, j) == rd(st1, j));
                assert(rd(st1, j) == rd(st, j));
            }
        }
    }
}

/// `n` repetitions of a program block.
pub open spec fn rep_p(p: Prog, n: int) -> Prog
    decreases n,
{
    if n <= 0 {
        Prog::Nil
    } else {
        app_p(p, rep_p(p, n - 1))
    }
}

/// The header's cell-allocating block: advance two cells and increment.
pub open spec fn ggp_ast() -> Prog {
    app_p(one(Instr::Right), app_p(one(Instr::Right), one(Instr::Inc)))
}

/// The header's retreat block: two pointer retreats.
pub open spec fn ll_ast() -> Prog {
    app_p(one(Instr::Left), one(Instr::Left))
}

/// The body of the header loop: decrement the counter, allocate `n`
/// counter cells two apart, retreat over all of them.
pub open spec fn header_body_ast(n: int) -> Prog {
    app_p(one(Instr::Dec), app_p(rep_p(ggp_ast(), n), rep_p(ll_ast(), n)))
}

/// The structured header: the loop, then one advance past the block.
pub open spec fn header_ast(n: int) -> Prog {
    app_p(one(Instr::Loop(Box::new(header_body_ast(n)))), one(Instr::Right))
}

proof fn lemma_rep_seq_comm(s: Seq<u8>, m: int)
    ensures
        s + rep_seq(s, m) == rep_seq(s, m) + s,
    decreases m,
{
    if m <= 0 {
        assert(s + rep_seq(s, m) =~= rep_seq(s, m) + s);
    } else {
        lemma_rep_seq_comm(s, m - 1);
        assert(s + (rep_seq(s, m - 1) + s) =~= (s + rep_seq(s, m - 1)) + s);
        assert((rep_seq(s, m - 1) + s) + s =~= rep_seq(s, m) + s);
    }
}

proof fn lemma_flat_rep_p(p: Prog, n: int)
    ensures
        flat_p(rep_p(p, n)) == rep_seq(flat_p(p), n),
    decreases n,
{
    if n <= 0 {
        assert(flat_p(rep_p(p, n)) =~= rep_seq(flat_p(p), n));
    } else {
        lemma_flat_app(p, rep_p(p, n - 1));
        lemma_flat_rep_p(p, n - 1);
        lemma_rep_seq_comm(flat_p(p), n - 1);
    }
}

/// Effect of `n` allocation blocks: the pointer advances `2n` cells and
/// every second cell along the way is incremented.
proof fn lemma_rep_ggp(n: int, st: MState, fuel: nat)
    requires
        n >= 0,
    ensures
        ({
            let r = run_p(rep_p(ggp_ast(), n), st, fuel);
            &&& r is Some
            &&& r->Some_0.ptr == st.ptr + 2 * n
            &&& r->Some_0.out == st.out
            &&& forall|j: int|
                st.ptr < j <= st.ptr + 2 * n && (j - st.ptr) % 2 == 0 ==> rd(r->Some_0, j)
                    == addm(rd(st, j), 1)
            &&& forall|j: int|
                !(st.ptr < j <= st.ptr + 2 * n && (j - st.ptr) % 2 == 0) ==> rd(r->Some_0, j)
                    == rd(st, j)
        }),
    decreases n,
{
    let q = st.ptr;
    if n > 0 {
        let sta = MState { tape: st.tape, ptr: q + 1, out: st.out };
        let stb = MState { tape: st.tape, ptr: q + 2, out: st.out };
        let stc = wr(stb, q + 2, wrap_inc(rd(stb, q + 2)));
        lemma_run_one(Instr::Inc, stb, fuel);
        assert(run_p(app_p(one(Instr::Right), one(Instr::Inc)), sta, fuel) == Some(stc)) by {
            lemma_run_app(one(Instr::Right), one(Instr::Inc), sta, fuel);
            lemma_run_one(Instr::Right, sta, fuel);
        }
        assert(run_p(ggp_ast(), st, fuel) == Some(stc)) by {
            lemma_run_app(one(Instr::Right), app_p(one(Instr::Right), one(Instr::Inc)), st, fuel);
            lemma_run_one(Instr::Right, st, fuel);
        }
        assert(rd(stc, q + 2) == addm(rd(st, q + 2), 1)) by {
            if rd(st, q + 2) == 255 {
                vstd::arithmetic::div_mod::lemma_mod_self_0(256);
            } else {
                lemma_addm_small(rd(st, q + 2), 1);
            }
        }
        lemma_rep_ggp(n - 1, stc, fuel);
        lemma_run_app(ggp_ast(), rep_p(ggp_ast(), n - 1), st, fuel);
        let r = run_p(rep_p(ggp_ast(), n), st, fuel);
        assert(r == run_p(rep_p(ggp_ast(), n - 1), stc, fuel));
        assert((q + 2 - q) % 2 == 0) by {
            vstd::arithmetic::div_mod::lemma_mod_self_0(2);
        }
        assert forall|j: int|
            q < j <= q + 2 * n && (j - q) % 2 == 0 implies rd(r->Some_0, j) == addm(
            rd(st, j),
            1,
        ) by {
            vstd::arithmetic::div_mod::lemma_mod_sub_multiples_vanish(j - q, 2);
            if j == q + 2 {
                assert(!(stc.ptr < j <= stc.ptr + 2 * (n - 1)));
                assert(rd(r->Some_0, j) == rd(stc, j));
            } else {
                assert(stc.ptr < j <= stc.ptr + 2 * (n - 1) && (j - stc.ptr) % 2 == 0);
                assert(rd(stc, j) == rd(st, j));
            }
        }
        assert forall|j: int|
            !(q < j <= q + 2 * n && (j - q) % 2 == 0) implies rd(r->Some_0, j) == rd(st, j) by {
            vstd::arithmetic::div_mod::lemma_mod_sub_multiples_vanish(j - q, 2);
            assert(!(stc.ptr < j <= stc.ptr + 2 * (n - 1) && (j - stc.ptr) % 2 == 0));
            assert(rd(r->Some_0, j) == rd(stc, j));
            assert(j != q + 2);
            assert(rd(stc, j) == rd(st, j));
        }
    }
}

/// Effect of `n` retreat blocks: the pointer retreats `2n` cells.
proof fn lemma_rep_ll(n: int, st: MState, fuel: nat)
    requires
        n >= 0,
        st.ptr >= 2 * n,
    ensures
        ({
            let r = run_p(rep_p(ll_ast(), n), st, fuel);
            &&& r is Some
            &&& r->Some_0.ptr == st.ptr - 2 * n
            &&& r->Some_0.out == st.out
            &&& r->Some_0.tape == st.tape
        }),
    decreases n,
{
    if n > 0 {
        let sta = MState { tape: st.tape, ptr: st.ptr - 1, out: st.out };
        let stb = MState { tape: st.tape, ptr: st.ptr - 2, out: st.out };
        assert(run_p(ll_ast(), st, fuel) == Some(stb)) by {
            lemma_run_app(one(Instr::Left), one(Instr::Left), st, fuel);
            lemma_run_one(Instr::Left, st, fuel);
            lemma_run_one(Instr::Left, sta, fuel);
        }
        lemma_rep_ll(n - 1, stb, fuel);
        lemma_run_app(ll_ast(), rep_p(ll_ast(), n - 1), st, fuel);
    }
}

/// Effect of the header loop: with a counter `c` in cell 1, every second
/// cell from 3 through `2n + 1` gains `c`, and the counter clears.
proof fn lemma_header_loop(n: int, st: MState, fuel: nat)
    requires
        n >= 0,
        st.ptr == 1,
        fuel >= rd(st, 1),
    ensures
        ({
            let r = run_i(Instr::Loop(Box::new(header_body_ast(n))), st, fuel);
            let c = rd(st, 1) as int;
            &&& r is Some
            &&& r->Some_0.ptr == 1
            &&& r->Some_0.out == st.out
            &&& rd(r->Some_0, 1) == 0
            &&& forall|j: int|
                1 < j <= 1 + 2 * n && (j - 1) % 2 == 0 ==> rd(r->Some_0, j) == addm(rd(st, j), c)
            &&& forall|j: int|
                j != 1 && !(1 < j <= 1 + 2 * n && (j - 1) % 2 == 0) ==> rd(r->Some_0, j) == rd(
                    st,
                    j,
                )
        }),
    decreases rd(st, 1),
{
    let c = rd(st, 1) as int;
    let lp = Instr::Loop(Box::new(header_body_ast(n)));
    if c == 0 {
        assert forall|j: int|
            1 < j <= 1 + 2 * n && (j - 1) % 2 == 0 implies rd(st, j) == addm(rd(st, j), 0) by {
            lemma_addm_small(rd(st, j), 0);
        }
    } else {
        let st1 = wr(st, 1, wrap_dec(rd(st, 1)));
        assert(run_p(one(Instr::Dec), st, fuel) == Some(st1)) by {
            lemma_run_one(Instr::Dec, st, fuel);
        }
        assert(rd(st1, 1) == c - 1);
        lemma_rep_ggp(n, st1, fuel);
        let st2 = run_p(rep_p(ggp_ast(), n), st1, fuel)->Some_0;
        assert(st2.ptr == 1 + 2 * n);
        lemma_rep_ll(n, st2, fuel);
        let st3 = run_p(rep_p(ll_ast(), n), st2, fuel)->Some_0;
        lemma_run_app(rep_p(ggp_ast(), n), rep_p(ll_ast(), n), st1, fuel);
        lemma_run_app(one(Instr::Dec), app_p(rep_p(ggp_ast(), n), rep_p(ll_ast(), n)), st, fuel);
        assert(run_p(header_body_ast(n), st, fuel) == Some(st3));
        assert(st3.ptr == 1);
        assert(rd(st3, 1) == c - 1) by {
            assert(!(1 < 1 <= 1 + 2 * n && (1 - 1) % 2 == 0));
        }
        assert(fuel >= 1);
        lemma_header_loop(n, st3, (fuel - 1) as nat);
        let r = run_i(lp, st, fuel);
        assert(r == run_i(Instr::Loop(Box::new(header_body_ast(n))), st3, (fuel - 1) as nat));
        assert forall|j: int|
            1 < j <= 1 + 2 * n && (j - 1) % 2 == 0 implies rd(r->Some_0, j) == addm(
            rd(st, j),
            c,
        ) by {
            assert(rd(st3, j) == rd(st2, j));
            assert(rd(st2, j) == addm(rd(st1, j), 1));
            assert(rd(st1, j) == rd(st, j));
            assert(rd(r->Some_0, j) == addm(rd(st3, j), c - 1));
            lemma_addm_compose(rd(st, j), 1, c - 1);
        }
        assert forall|j: int|
            j != 1 && !(1 < j <= 1 + 2 * n && (j - 1) % 2 == 0) implies rd(r->Some_0, j) == rd(
            st,
            j,
        ) by {
            assert(rd(st3, j) == rd(st1, j));
            assert(rd(st1, j) == rd(st, j));
            assert(rd(r->Some_0, j) == rd(st3, j));
        }
    }
}

/// The structured one-time patch: retreat to the scratch cell two to the
/// left, decrement it, return.
pub open spec fn patch_ast() -> Prog {
    app_p(
        one(Instr::Left),
        app_p(one(Instr::Left), app_p(one(Instr::Dec), app_p(one(Instr::Right), one(Instr::Right)))),
    )
}

/// The structured fragments for the bytes before the structurally last
/// one, in reverse input order.
pub open spec fn mid_ast(bytes: Seq<u8>, t: int, j: int) -> Prog
    decreases j,
{
    if j <= 1 {
        Prog::Nil
    } else {
        app_p(mid_ast(bytes, t, j - 1), frag_ast(bytes[bytes.len() - j] - t))
    }
}

/// The structured per-byte phase after `j` reverse steps.
pub open spec fn partial_ast(bytes: Seq<u8>, t: int, j: int) -> Prog {
    if j <= 0 {
        Prog::Nil
    } else {
        app_p(
            frag_ast(bytes[bytes.len() - 1] - t),
            app_p(patch_ast(), mid_ast(bytes, t, j)),
        )
    }
}

proof fn lemma_app_assoc(a: Prog, b: Prog, c: Prog)
    ensures
        app_p(app_p(a, b), c) == app_p(a, app_p(b, c)),
    decreases a,
{
    match a {
        Prog::Nil => {},
        Prog::Cons(i, rest) => {
            lemma_app_assoc(*rest, b, c);
        },
    }
}

proof fn lemma_app_nil(a: Prog)
    ensures
        app_p(a, Prog::Nil) == a,
    decreases a,
{
    match a {
        Prog::Nil => {},
        Prog::Cons(i, rest) => {
            lemma_app_nil(*rest);
        },
    }
}

proof fn lemma_patch_flat()
    ensures
        flat_p(patch_ast()) == patch(),
{
    lemma_flat_one(Instr::Left);
    lemma_flat_one(Instr::Dec);
    lemma_flat_one(Instr::Right);
    lemma_flat_app(one(Instr::Right), one(Instr::Right));
    lemma_flat_app(one(Instr::Dec), app_p(one(Instr::Right), one(Instr::Right)));
    lemma_flat_app(one(Instr::Left), app_p(one(Instr::Dec), app_p(one(Instr::Right), one(Instr::Right))));
    lemma_flat_app(
        one(Instr::Left),
        app_p(one(Instr::Left), app_p(one(Instr::Dec), app_p(one(Instr::Right), one(Instr::Right)))),
    );
    assert(flat_p(patch_ast()) =~= patch());
}

proof fn lemma_mid_flat(bytes: Seq<u8>, t: int, j: int)
    requires
        0 <= t <= 255,
        j <= bytes.len(),
    ensures
        flat_p(mid_ast(bytes, t, j)) == mid_frags(bytes, t, j),
    decreases j,
{
    if j <= 1 {
        assert(flat_p(Prog::Nil) =~= mid_frags(bytes, t, j));
    } else {
        lemma_mid_flat(bytes, t, j - 1);
        let d = bytes[bytes.len() - j] - t;
        lemma_frag_ast_flat(d);
        lemma_flat_app(mid_ast(bytes, t, j - 1), frag_ast(d));
    }
}

proof fn lemma_partial_flat(bytes: Seq<u8>, t: int, j: int)
    requires
        0 <= t <= 255,
        1 <= j <= bytes.len(),
    ensures
        flat_p(partial_ast(bytes, t, j)) == partial_body(bytes, t, j),
{
    let d0 = bytes[bytes.len() - 1] - t;
    lemma_frag_ast_flat(d0);
    lemma_patch_flat();
    lemma_mid_flat(bytes, t, j);
    lemma_flat_app(patch_ast(), mid_ast(bytes, t, j));
    lemma_flat_app(frag_ast(d0), app_p(patch_ast(), mid_ast(bytes, t, j)));
    assert(flat_p(partial_ast(bytes, t, j)) =~= partial_body(bytes, t, j));
}

/// Effect of the one-time patch: the cell two to the left of the pointer
/// is decremented; the pointer and everything else are unchanged.
proof fn lemma_patch_effect(st: MState, fuel: nat)
    requires
        st.ptr >= 2,
    ensures
        ({
            let r = run_p(patch_ast(), st, fuel);
            &&& r is Some
            &&& r->Some_0.ptr == st.ptr
            &&& r->Some_0.out == st.out
            &&& rd(r->Some_0, st.ptr - 2) == addm(rd(st, st.ptr - 2), -1)
            &&& forall|j: int| j != st.ptr - 2 ==> rd(r->Some_0, j) == rd(st, j)
        }),
{
    let p = st.ptr;
    let stA = MState { tape: st.tape, ptr: p - 1, out: st.out };
    let stB = MState { tape: st.tape, ptr: p - 2, out: st.out };
    let stC = wr(stB, p - 2, wrap_dec(rd(stB, p - 2)));
    let stD = MState { tape: stC.tape, ptr: p - 1, out: st.out };
    let stE = MState { tape: stC.tape, ptr: p, out: st.out };
    lemma_run_one(Instr::Left, st, fuel);
    lemma_run_one(Instr::Left, stA, fuel);
    lemma_run_one(Instr::Dec, stB, fuel);
    lemma_run_one(Instr::Right, stC, fuel);
    lemma_run_one(Instr::Right, stD, fuel);
    lemma_run_app(one(Instr::Right), one(Instr::Right), stC, fuel);
    lemma_run_app(one(Instr::Dec), app_p(one(Instr::Right), one(Instr::Right)), stB, fuel);
    lemma_run_app(
        one(Instr::Left),
        app_p(one(Instr::Dec), app_p(one(Instr::Right), one(Instr::Right))),
        stA,
        fuel,
    );
    lemma_run_app(
        one(Instr::Left),
        app_p(one(Instr::Left), app_p(one(Instr::Dec), app_p(one(Instr::Right), one(Instr::Right)))),
        st,
        fuel,
    );
    assert(run_p(patch_ast(), st, fuel) == Some(stE));
    assert(rd(stE, p - 2) == addm(rd(st, p - 2), -1)) by {
        if rd(st, p - 2) == 0 {
            vstd::arithmetic::div_mod::lemma_mod_multiples_vanish(1, -1, 256);
            vstd::arithmetic::div_mod::lemma_small_mod(255, 256);
        } else {
            lemma_addm_small(rd(st, p - 2), -1);
        }
    }
}

/// Effect of the per-byte phase after `j` reverse steps, from a state
/// whose even cells from 2 on are clear: the pointer advances two cells a
/// step, each odd target cell gains its byte's delta, and the scratch
/// cell two holds 255 from the one-time patch.
proof fn lemma_chain(bytes: Seq<u8>, t: int, j: int, st0: MState, fuel: nat)
    requires
        0 <= t <= 255,
        1 <= j <= bytes.len(),
        st0.ptr == 2,
        fuel >= 16,
        forall|i: int| i >= 2 && i % 2 == 0 ==> rd(st0, i) == 0,
    ensures
        ({
            let r = run_p(partial_ast(bytes, t, j), st0, fuel);
            let n = bytes.len() as int;
            &&& r is Some
            &&& r->Some_0.ptr == 2 + 2 * j
            &&& r->Some_0.out == st0.out
            &&& rd(r->Some_0, 2) == 255
            &&& forall|jj: int|
                3 <= jj <= 2 * j + 1 && jj % 2 == 1 ==> rd(r->Some_0, jj) == addm(
                    rd(st0, jj),
                    bytes[n - 1 - (jj - 3) / 2] - t,
                )
            &&& forall|jj: int|
                jj != 2 && !(3 <= jj <= 2 * j + 1 && jj % 2 == 1) ==> rd(r->Some_0, jj) == rd(
                    st0,
                    jj,
                )
        }),
    decreases j,
{
    let n = bytes.len() as int;
    let d0 = bytes[n - 1] - t;
    if j == 1 {
        lemma_frag_effect(d0, st0, fuel);
        let st1 = run_p(frag_ast(d0), st0, fuel)->Some_0;
        assert(st1.ptr == 4);
        lemma_patch_effect(st1, fuel);
        let st2 = run_p(patch_ast(), st1, fuel)->Some_0;
        lemma_run_app(patch_ast(), Prog::Nil, st1, fuel);
        lemma_run_app(frag_ast(d0), app_p(patch_ast(), mid_ast(bytes, t, 1)), st0, fuel);
        let r = run_p(partial_ast(bytes, t, 1), st0, fuel);
        assert(r == Some(st2));
        assert(rd(st2, 2) == 255) by {
            assert(rd(st1, 2) == 0);
        }
        assert forall|jj: int|
            3 <= jj <= 3 && jj % 2 == 1 implies rd(r->Some_0, jj) == addm(
            rd(st0, jj),
            bytes[n - 1 - (jj - 3) / 2] - t,
        ) by {
            assert((0int) / 2 == 0) by {
                vstd::arithmetic::div_mod::lemma_div_multiples_vanish(0, 2);
            }
            assert(rd(st1, 3) == addm(rd(st0, 3), d0));
            assert(rd(st2, 3) == rd(st1, 3));
        }
        assert forall|jj: int|
            jj != 2 && !(3 <= jj <= 3 && jj % 2 == 1) implies rd(r->Some_0, jj) == rd(
            st0,
            jj,
        ) by {
            assert(rd(st2, jj) == rd(st1, jj));
            if jj == 2 || jj == 3 {
            } else {
                assert(rd(st1, jj) == rd(st0, jj));
            }
        }
    } else {
        lemma_chain(bytes, t, j - 1, st0, fuel);
        let prev = run_p(partial_ast(bytes, t, j - 1), st0, fuel);
        let stp = prev->Some_0;
        let dj = bytes[n - j] - t;
        // Reassociate so the last fragment stands alone at the end.
        assert(partial_ast(bytes, t, j) == app_p(partial_ast(bytes, t, j - 1), frag_ast(dj))) by {
            lemma_app_assoc(mid_ast(bytes, t, j - 1), frag_ast(dj), Prog::Nil);
            lemma_app_nil(frag_ast(dj));
            lemma_app_nil(mid_ast(bytes, t, j));
            lemma_app_assoc(patch_ast(), mid_ast(bytes, t, j - 1), frag_ast(dj));
            lemma_app_assoc(
                frag_ast(bytes[n - 1] - t),
                app_p(patch_ast(), mid_ast(bytes, t, j - 1)),
                frag_ast(dj),
            );
        }
        lemma_run_app(partial_ast(bytes, t, j - 1), frag_ast(dj), st0, fuel);
        assert(rd(stp, stp.ptr) == 0) by {
            assert(stp.ptr == 2 * (j - 1) + 2);
            assert(stp.ptr % 2 == 0) by {
                vstd::arithmetic::div_mod::lemma_mod_multiples_basic(j, 2);
                vstd::arithmetic::div_mod::lemma_mod_multiples_vanish(j, 0, 2);
            }
            assert(!(3 <= stp.ptr <= 2 * (j - 1) + 1 && stp.ptr % 2 == 1));
            assert(rd(stp, stp.ptr) == rd(st0, stp.ptr));
        }
        lemma_frag_effect(dj, stp, fuel);
        let r = run_p(partial_ast(bytes, t, j), st0, fuel);
        let stf = r->Some_0;
        assert(stf.ptr == 2 + 2 * j);
        assert(rd(stf, 2) == 255) by {
            assert(rd(stf, 2) == rd(stp, 2));
        }
        assert forall|jj: int|
            3 <= jj <= 2 * j + 1 && jj % 2 == 1 implies rd(stf, jj) == addm(
            rd(st0, jj),
            bytes[n - 1 - (jj - 3) / 2] - t,
        ) by {
            if jj == 2 * j + 1 {
                assert(jj == stp.ptr + 1);
                assert((jj - 3) / 2 == j - 1) by {
                    vstd::arithmetic::div_mod::lemma_div_by_multiple(j - 1, 2);
                    assert(jj - 3 == (j - 1) * 2);
                }
                assert(rd(stf, stp.ptr + 1) == addm(rd(stp, stp.ptr + 1), dj));
                assert(rd(stp, stp.ptr + 1) == rd(st0, stp.ptr + 1)) by {
                    assert(!(3 <= 2 * j + 1 <= 2 * (j - 1) + 1));
                }
                assert(bytes[n - 1 - (j - 1)] == bytes[n - j]);
            } else {
                assert(jj <= 2 * (j - 1) + 1);
                assert(rd(stf, jj) == rd(stp, jj)) by {
                    assert(jj != stp.ptr) by {
                        vstd::arithmetic::div_mod::lemma_mod_multiples_basic(j, 2);
                        vstd::arithmetic::div_mod::lemma_mod_multiples_vanish(j, 0, 2);
                    }
                    assert(jj != stp.ptr + 1);
                }
            }
        }
        assert forall|jj: int|
            jj != 2 && !(3 <= jj <= 2 * j + 1 && jj % 2 == 1) implies rd(stf, jj) == rd(
            st0,
            jj,
        ) by {
            if jj == stp.ptr {
                assert(rd(stf, jj) == 0);
                assert(rd(st0, jj) == 0) by {
                    assert(jj == 2 * (j - 1) + 2 && jj % 2 == 0) by {
                        vstd::arithmetic::div_mod::lemma_mod_multiples_basic(j, 2);
                        vstd::arithmetic::div_mod::lemma_mod_multiples_vanish(j, 0, 2);
                    }
                }
            } else {
                assert(jj != stp.ptr + 1) by {
                    assert(stp.ptr + 1 == 2 * j + 1);
                    assert((2 * j + 1) % 2 == 1) by {
                        vstd::arithmetic::div_mod::lemma_mod_multiples_vanish(j, 1, 2);
                        vstd::arithmetic::div_mod::lemma_small_mod(1, 2);
                    }
                }
                assert(rd(stf, jj) == rd(stp, jj));
                assert(rd(stp, jj) == rd(st0, jj));
            }
        }
    }
}

/// The body of the output loop: retreat, output the cell, retreat,
/// increment.
pub open spec fn trail_body_ast() -> Prog {
    app_p(one(Instr::Left), app_p(one(Instr::Out), app_p(one(Instr::Left), one(Instr::Inc))))
}

/// The structured trailer: prime the current cell, then the output loop.
pub open spec fn trailer_ast() -> Prog {
    app_p(one(Instr::Inc), one(Instr::Loop(Box::new(trail_body_ast()))))
}

proof fn lemma_trailer_flat()
    ensures
        flat_p(trailer_ast()) == crate::assemble::trailer().drop_last(),
{
    lemma_flat_one(Instr::Left);
    lemma_flat_one(Instr::Out);
    lemma_flat_one(Instr::Inc);
    lemma_flat_app(one(Instr::Left), one(Instr::Inc));
    lemma_flat_app(one(Instr::Out), app_p(one(Instr::Left), one(Instr::Inc)));
    lemma_flat_app(one(Instr::Left), app_p(one(Instr::Out), app_p(one(Instr::Left), one(Instr::Inc))));
    lemma_flat_one(Instr::Loop(Box::new(trail_body_ast())));
    lemma_flat_app(one(Instr::Inc), one(Instr::Loop(Box::new(trail_body_ast()))));
    assert(flat_p(trail_body_ast()) =~= seq![LT, DOT, LT, PLUS]);
    assert(flat_p(trailer_ast()) =~= crate::assemble::trailer().drop_last());
}

/// Effect of the output loop from the cell past the last counter: the odd
/// cells are written out walking leftward, in descending cell order, and
/// the loop stops on the scratch cell that the one-time patch set to 255.
proof fn lemma_trail_loop(m: int, st: MState, fuel: nat)
    requires
        m >= 1,
        st.ptr == 2 * m + 2,
        rd(st, st.ptr) != 0,
        rd(st, 2) == 255,
        forall|k: int| 4 <= k <= 2 * m && k % 2 == 0 ==> rd(st, k) == 0,
        fuel >= m + 1,
    ensures
        ({
            let r = run_i(Instr::Loop(Box::new(trail_body_ast())), st, fuel);
            &&& r is Some
            &&& r->Some_0.ptr == 2
            &&& r->Some_0.out == st.out + Seq::new(m as nat, |i: int| rd(st, 2 * (m - i) + 1))
        }),
    decreases m,
{
    let p = st.ptr;
    let stA = MState { tape: st.tape, ptr: p - 1, out: st.out };
    let stB = MState { tape: st.tape, ptr: p - 1, out: st.out.push(rd(st, p - 1)) };
    let stC = MState { tape: st.tape, ptr: p - 2, out: stB.out };
    let stD = wr(stC, p - 2, wrap_inc(rd(stC, p - 2)));
    lemma_run_one(Instr::Left, st, fuel);
    lemma_run_one(Instr::Out, stA, fuel);
    lemma_run_one(Instr::Left, stB, fuel);
    lemma_run_one(Instr::Inc, stC, fuel);
    lemma_run_app(one(Instr::Left), one(Instr::Inc), stB, fuel);
    lemma_run_app(one(Instr::Out), app_p(one(Instr::Left), one(Instr::Inc)), stA, fuel);
    lemma_run_app(
        one(Instr::Left),
        app_p(one(Instr::Out), app_p(one(Instr::Left), one(Instr::Inc))),
        st,
        fuel,
    );
    assert(run_p(trail_body_ast(), st, fuel) == Some(stD));
    let lp = Instr::Loop(Box::new(trail_body_ast()));
    let r = run_i(lp, st, fuel);
    assert(r == run_i(lp, stD, (fuel - 1) as nat));
    if m == 1 {
        assert(rd(stC, 0) == rd(st, 0));
        assert(rd(stC, p - 2) == 255);
        assert(rd(stD, 2) == 0) by {
            vstd::arithmetic::div_mod::lemma_mod_self_0(256);
        }
        assert(run_i(lp, stD, (fuel - 1) as nat) == Some(stD));
        assert(stD.out =~= st.out + Seq::new(1, |i: int| rd(st, 2 * (1 - i) + 1)));
    } else {
        assert(rd(stC, p - 2) == 0) by {
            assert(p - 2 == 2 * m);
            assert((2 * m) % 2 == 0) by {
                vstd::arithmetic::div_mod::lemma_mod_multiples_basic(m, 2);
                assert(m * 2 == 2 * m);
            }
            assert(rd(st, 2 * m) == 0);
            assert(rd(stC, p - 2) == rd(st, p - 2));
        }
        assert(rd(stD, p - 2) == 1) by {
            assert(wrap_inc(0u8) == 1);
        }
        assert(stD.ptr == 2 * (m - 1) + 2);
        assert(rd(stD, stD.ptr) != 0);
        assert(rd(stD, 2) == 255) by {
            assert(2 != p - 2);
        }
        assert forall|k: int| 4 <= k <= 2 * (m - 1) && k % 2 == 0 implies rd(stD, k) == 0 by {
            assert(k != p - 2);
            assert(rd(stD, k) == rd(st, k));
        }
        lemma_trail_loop(m - 1, stD, (fuel - 1) as nat);
        let rr = run_i(lp, stD, (fuel - 1) as nat);
        assert(rr->Some_0.out == stD.out + Seq::new((m - 1) as nat, |i: int| rd(stD, 2 * (m - 1 - i)
            + 1)));
        assert(rr->Some_0.out =~= st.out + Seq::new(m as nat, |i: int| rd(st, 2 * (m - i) + 1))) by {
            assert forall|c: int| c != p - 2 implies rd(stD, c) == rd(st, c) by {}
        }
    }
}

/// The complete structured program for input `bytes` under adjustment
/// constant `t`: prefix, header, per-byte phase, trailer. With no input
/// bytes the per-byte phase and the trailer's output loop are absent.
pub open spec fn full_ast(bytes: Seq<u8>, t: int) -> Prog {
    if bytes.len() == 0 {
        app_p(pre_ast(t), header_ast(0))
    } else {
        app_p(
            pre_ast(t),
            app_p(
                header_ast(bytes.len() as int),
                app_p(partial_ast(bytes, t, bytes.len() as int), trailer_ast()),
            ),
        )
    }
}

proof fn lemma_header_flat(n: int)
    ensures
        flat_p(header_ast(n)) == crate::assemble::header(n),
{
    lemma_flat_one(Instr::Right);
    lemma_flat_one(Instr::Left);
    lemma_flat_one(Instr::Inc);
    lemma_flat_one(Instr::Dec);
    lemma_flat_app(one(Instr::Right), one(Instr::Inc));
    lemma_flat_app(one(Instr::Right), app_p(one(Instr::Right), one(Instr::Inc)));
    assert(flat_p(ggp_ast()) =~= seq![GT, GT, PLUS]);
    lemma_flat_app(one(Instr::Left), one(Instr::Left));
    assert(flat_p(ll_ast()) =~= seq![LT, LT]);
    lemma_flat_rep_p(ggp_ast(), n);
    lemma_flat_rep_p(ll_ast(), n);
    lemma_flat_app(rep_p(ggp_ast(), n), rep_p(ll_ast(), n));
    lemma_flat_app(one(Instr::Dec), app_p(rep_p(ggp_ast(), n), rep_p(ll_ast(), n)));
    lemma_flat_one(Instr::Loop(Box::new(header_body_ast(n))));
    lemma_flat_app(one(Instr::Loop(Box::new(header_body_ast(n)))), one(Instr::Right));
    assert(flat_p(header_ast(n)) =~= crate::assemble::header(n));
}

/// Master round trip: for every input byte sequence — the empty one
/// included — and every adjustment constant, the generated program text
/// is the text of a structured program whose execution from the initial
/// state terminates and writes exactly the input bytes, in order, to the
/// output channel; for the empty input it terminates with zero output
/// bytes.
pub proof fn theorem_round_trip(bytes: Seq<u8>, t: int)
    requires
        0 <= t <= 255,
    ensures
        flat_p(full_ast(bytes, t)) + seq![NL] == program_spec(bytes, t),
        forall|fuel: nat|
            fuel >= bytes.len() + 256 ==> {
                let r = #[trigger] run_p(full_ast(bytes, t), init_state(), fuel);
                r is Some && r->Some_0.out == bytes
            },
{
    let n = bytes.len() as int;
    if n == 0 {
        // Text correspondence: no per-byte phase, no output loop.
        lemma_pre_flat(t);
        lemma_header_flat(0);
        lemma_flat_app(pre_ast(t), header_ast(0));
        assert(flat_p(full_ast(bytes, t)) + seq![NL] =~= program_spec(bytes, t));
        // Execution: the header loop drains the constant and nothing is output.
        assert forall|fuel: nat|
            fuel >= bytes.len() + 256 implies {
            let r = #[trigger] run_p(full_ast(bytes, t), init_state(), fuel);
            r is Some && r->Some_0.out == bytes
        } by {
            let st0 = init_state();
            assert(forall|j: int| rd(st0, j) == 0);
            lemma_pre_effect(t, st0, fuel);
            let st1 = run_p(pre_ast(t), st0, fuel)->Some_0;
            lemma_header_loop(0, st1, fuel);
            let lph = Instr::Loop(Box::new(header_body_ast(0)));
            let st2a = run_i(lph, st1, fuel)->Some_0;
            let st2 = MState { tape: st2a.tape, ptr: 2, out: st2a.out };
            assert(run_p(header_ast(0), st1, fuel) == Some(st2)) by {
                lemma_run_one(lph, st1, fuel);
                lemma_run_one(Instr::Right, st2a, fuel);
                lemma_run_app(one(lph), one(Instr::Right), st1, fuel);
            }
            lemma_run_app(pre_ast(t), header_ast(0), st0, fuel);
            let r = run_p(full_ast(bytes, t), st0, fuel);
            assert(r == Some(st2));
            assert(st2.out =~= bytes);
        }
    } else {
    // Text correspondence.
    lemma_pre_flat(t);
    lemma_header_flat(n);
    lemma_partial_flat(bytes, t, n);
    lemma_trailer_flat();
    lemma_flat_app(partial_ast(bytes, t, n), trailer_ast());
    lemma_flat_app(header_ast(n), app_p(partial_ast(bytes, t, n), trailer_ast()));
    lemma_flat_app(
        pre_ast(t),
        app_p(header_ast(n), app_p(partial_ast(bytes, t, n), trailer_ast())),
    );
    assert(flat_p(full_ast(bytes, t)) + seq![NL] =~= program_spec(bytes, t));

    // Execution.
    assert forall|fuel: nat|
        fuel >= bytes.len() + 256 implies {
        let r = #[trigger] run_p(full_ast(bytes, t), init_state(), fuel);
        r is Some && r->Some_0.out == bytes
    } by {
        let st0 = init_state();
        assert(forall|j: int| rd(st0, j) == 0);
        lemma_pre_effect(t, st0, fuel);
        let st1 = run_p(pre_ast(t), st0, fuel)->Some_0;
        assert(rd(st1, 1) == t) by {
            lemma_addm_small(0, t);
        }
        lemma_header_loop(n, st1, fuel);
        let lph = Instr::Loop(Box::new(header_body_ast(n)));
        let st2a = run_i(lph, st1, fuel)->Some_0;
        let st2 = MState { tape: st2a.tape, ptr: 2, out: st2a.out };
        assert(run_p(header_ast(n), st1, fuel) == Some(st2)) by {
            lemma_run_one(lph, st1, fuel);
            lemma_run_one(Instr::Right, st2a, fuel);
            lemma_run_app(one(lph), one(Instr::Right), st1, fuel);
        }
        assert forall|i: int| i >= 2 && i % 2 == 0 implies rd(st2, i) == 0 by {
            assert(rd(st2a, i) == rd(st1, i)) by {
                assert(i % 2 != 1);
                assert(i != 1);
            }
            assert(rd(st1, i) == rd(st0, i));
        }
        lemma_chain(bytes, t, n, st2, fuel);
        let st3 = run_p(partial_ast(bytes, t, n), st2, fuel)->Some_0;
        assert(rd(st3, 2 * n + 2) == 0) by {
            assert((2 * n + 2) % 2 == 0) by {
                vstd::arithmetic::div_mod::lemma_mod_multiples_vanish(n + 1, 0, 2);
                assert(2 * (n + 1) == 2 * n + 2);
            }
            assert(rd(st3, 2 * n + 2) == rd(st2, 2 * n + 2));
        }
        let st4 = wr(st3, 2 * n + 2, wrap_inc(rd(st3, 2 * n + 2)));
        assert(run_p(one(Instr::Inc), st3, fuel) == Some(st4)) by {
            lemma_run_one(Instr::Inc, st3, fuel);
        }
        assert(rd(st4, st4.ptr) == 1);
        assert(rd(st4, 2) == 255);
        assert forall|k: int| 4 <= k <= 2 * n && k % 2 == 0 implies rd(st4, k) == 0 by {
            assert(k != 2 * n + 2);
            assert(rd(st4, k) == rd(st3, k));
            assert(k % 2 != 1 && k != 2);
            assert(rd(st3, k) == rd(st2, k));
        }
        lemma_trail_loop(n, st4, fuel);
        let lpt = Instr::Loop(Box::new(trail_body_ast()));
        let st5 = run_i(lpt, st4, fuel)->Some_0;
        assert(run_p(trailer_ast(), st3, fuel) == Some(st5)) by {
            lemma_run_one(lpt, st4, fuel);
            lemma_run_app(one(Instr::Inc), one(lpt), st3, fuel);
        }
        lemma_run_app(partial_ast(bytes, t, n), trailer_ast(), st2, fuel);
        lemma_run_app(
            header_ast(n),
            app_p(partial_ast(bytes, t, n), trailer_ast()),
            st1,
            fuel,
        );
        lemma_run_app(
            pre_ast(t),
            app_p(header_ast(n), app_p(partial_ast(bytes, t, n), trailer_ast())),
            st0,
            fuel,
        );
        let r = run_p(full_ast(bytes, t), st0, fuel);
        assert(r == Some(st5));
        assert(st4.out == Seq::<u8>::empty());
        assert(st5.out =~= bytes) by {
            assert forall|i: int| 0 <= i < n implies rd(st4, 2 * (n - i) + 1) == bytes[i] by {
                let jj = 2 * (n - i) + 1;
                assert(jj != 2 * n + 2);
                assert(rd(st4, jj) == rd(st3, jj));
                assert(jj % 2 == 1) by {
                    vstd::arithmetic::div_mod::lemma_mod_multiples_vanish(n - i, 1, 2);
                    vstd::arithmetic::div_mod::lemma_small_mod(1, 2);
                }
                assert(3 <= jj <= 2 * n + 1);
                assert((jj - 3) / 2 == n - i - 1) by {
                    vstd::arithmetic::div_mod::lemma_div_by_multiple(n - i - 1, 2);
                    assert(jj - 3 == (n - i - 1) * 2);
                }
                assert(rd(st3, jj) == addm(rd(st2, jj), bytes[i] - t));
                assert(rd(st2, jj) == addm(rd(st1, jj), t)) by {
                    assert(rd(st2a, jj) == addm(rd(st1, jj), t));
                }
                assert(rd(st1, jj) == rd(st0, jj));
                assert(addm(0, t) == t) by {
                    lemma_addm_small(0, t);
                }
                assert(rd(st2, jj) == t);
                assert(addm(t as u8, bytes[i] - t) == bytes[i]) by {
                    lemma_addm_small(t as u8, bytes[i] - t);
                }
            }
        }
    }
    }
}

/// The round trip for the pipeline's own output: the program text that
/// `to_bf` produces for any input is the text of a structured program
/// whose execution outputs exactly that input.
pub proof fn theorem_round_trip_selected(bytes: Seq<u8>)
    ensures
        ({
            let t = crate::histogram::spec_best(crate::histogram::hist_of(bytes), 256);
            &&& flat_p(full_ast(bytes, t)) + seq![NL] == program_spec(bytes, t)
            &&& forall|fuel: nat|
                fuel >= bytes.len() + 256 ==> {
                    let r = #[trigger] run_p(full_ast(bytes, t), init_state(), fuel);
                    r is Some && r->Some_0.out == bytes
                }
        }),
{
    crate::histogram::lemma_spec_best_range(crate::histogram::hist_of(bytes), 256);
    theorem_round_trip(bytes, crate::histogram::spec_best(crate::histogram::hist_of(bytes), 256));
}

} // verus!
