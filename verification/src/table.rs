//! The encoding table: an immutable mapping from every signed delta in
//! [-257, 257] to the shorter of its unary or factorized instruction
//! fragment. Built once per run and read-only thereafter.

use vstd::prelude::*;
use crate::factor::{spec_isqrt, f_inner, f_rem, multiply};

verus! {

pub const PLUS: u8 = 43;
pub const MINUS: u8 = 45;
pub const DOT: u8 = 46;
pub const LT: u8 = 60;
pub const GT: u8 = 62;
pub const LB: u8 = 91;
pub const RB: u8 = 93;
pub const NL: u8 = 10;

/// The six symbols of the target instruction set.
pub open spec fn is_instr(c: u8) -> bool {
    c == PLUS || c == MINUS || c == GT || c == LT || c == LB || c == RB || c == DOT
}

/// `n` repetitions of the symbol `c` (empty when `n <= 0`).
pub open spec fn rep(c: u8, n: int) -> Seq<u8> {
    Seq::new(if n <= 0 { 0 } else { n as nat }, |i: int| c)
}

pub open spec fn abs1(d: int) -> int {
    if d >= 0 { d } else { -d }
}

/// The repeated-symbol character for a nonzero delta: increment for a
/// positive delta, decrement for a negative one.
pub open spec fn sign_sym(d: int) -> u8 {
    if d > 0 { PLUS } else { MINUS }
}

/// The unary candidate: advance, `|d|` sign symbols, advance.
pub open spec fn raw_frag(d: int) -> Seq<u8> {
    seq![GT] + rep(sign_sym(d), abs1(d)) + seq![GT]
}

/// The factorized candidate: materialize an `outer` loop counter, add
/// `inner` sign symbols to the adjacent cell on each iteration, advance,
/// then the `remainder` leftover sign symbols and a final advance.
pub open spec fn mult_frag(d: int) -> Seq<u8> {
    let a = abs1(d) as nat;
    rep(PLUS, spec_isqrt(a) as int) + seq![LB, GT] + rep(sign_sym(d), f_inner(a))
        + seq![LT, MINUS, RB, GT] + rep(sign_sym(d), f_rem(a)) + seq![GT]
}

/// The fragment stored for delta `d`: the fixed two-symbol pointer advance
/// for zero, otherwise the unary candidate unless the factorized one is at
/// most as long.
pub open spec fn frag_for(d: int) -> Seq<u8> {
    if d == 0 {
        seq![GT, GT]
    } else if mult_frag(d).len() > raw_frag(d).len() {
        raw_frag(d)
    } else {
        mult_frag(d)
    }
}

/// Every fragment is non-empty (at least the two-symbol pointer advance),
/// no longer than the unary bound of 259 symbols, and composed solely of
/// instruction-set symbols.
pub proof fn lemma_frag_valid(d: int)
    requires
        -257 <= d <= 257,
    ensures
        2 <= frag_for(d).len() <= 259,
        forall|i: int| 0 <= i < frag_for(d).len() ==> is_instr(#[trigger] frag_for(d)[i]),
{
    if d == 0 {
        assert(frag_for(0).len() == 2);
        assert forall|i: int| 0 <= i < frag_for(0).len() implies is_instr(frag_for(0)[i]) by {
            assert(frag_for(0)[0] == GT);
            assert(frag_for(0)[1] == GT);
        }
    } else {
        let a = abs1(d);
        assert(1 <= a <= 257);
        assert(raw_frag(d).len() == 2 + a);
        assert forall|i: int| 0 <= i < raw_frag(d).len() implies is_instr(#[trigger] raw_frag(d)[i]) by {
            if i == 0 {
                assert(raw_frag(d)[0] == GT);
            } else if i < 1 + a {
                assert(raw_frag(d)[i] == sign_sym(d));
            } else {
                assert(raw_frag(d)[i] == GT);
            }
        }
        let outer = spec_isqrt(a as nat) as int;
        let inner = f_inner(a as nat);
        let rem = f_rem(a as nat);
        crate::factor::lemma_spec_isqrt(a as nat);
        assert(outer >= 1) by (nonlinear_arith)
            requires
                outer * outer <= a,
                a < (outer + 1) * (outer + 1),
                a >= 1,
                outer >= 0;
        vstd::arithmetic::div_mod::lemma_mod_division_less_than_divisor(a - outer * outer, outer);
        vstd::arithmetic::div_mod::lemma_div_pos_is_pos(a - outer * outer, outer);
        assert(inner >= 0 && rem >= 0);
        assert(mult_frag(d).len() == outer + inner + rem + 7);
        assert forall|i: int| 0 <= i < mult_frag(d).len() implies is_instr(#[trigger] mult_frag(d)[i]) by {
            let s = mult_frag(d);
            if i < outer {
                assert(s[i] == PLUS);
            } else if i < outer + 2 {
                assert(s[i] == (if i == outer { LB } else { GT }));
            } else if i < outer + 2 + inner {
                assert(s[i] == sign_sym(d));
            } else if i < outer + 6 + inner {
                let base = outer + 2 + inner;
                assert(s[i] == (if i == base { LT } else if i == base + 1 { MINUS }
                    else if i == base + 2 { RB } else { GT }));
            } else if i < outer + 6 + inner + rem {
                assert(s[i] == sign_sym(d));
            } else {
                assert(s[i] == GT);
            }
        }
        if mult_frag(d).len() > raw_frag(d).len() {
            assert(frag_for(d) == raw_frag(d));
        } else {
            assert(frag_for(d) == mult_frag(d));
            assert(frag_for(d).len() >= 7);
        }
    }
}

/// Appends `n` copies of `c`.
fn push_rep(out: &mut Vec<u8>, c: u8, n: usize)
    ensures
        final(out)@ == old(out)@ + rep(c, n as int),
{
    let mut i: usize = 0;
    while i < n
        invariant
            i <= n,
            out@ == old(out)@ + rep(c, i as int),
        decreases n - i,
    {
        out.push(c);
        i = i + 1;
        assert(out@ =~= old(out)@ + rep(c, i as int));
    }
    assert(out@ =~= old(out)@ + rep(c, n as int));
}

/// Builds the fragment for one delta.
fn build_frag(d: i16) -> (r: Vec<u8>)
    requires
        -257 <= d <= 257,
    ensures
        r@ == frag_for(d as int),
{
    if d == 0 {
        let mut v: Vec<u8> = Vec::new();
        v.push(GT);
        v.push(GT);
        assert(v@ =~= frag_for(0));
        v
    } else {
        let abs: u16 = if d > 0 { d as u16 } else { (-d) as u16 };
        let code: u8 = if d > 0 { PLUS } else { MINUS };
        let mut raw: Vec<u8> = Vec::new();
        raw.push(GT);
        push_rep(&mut raw, code, abs as usize);
        raw.push(GT);
        assert(raw@ =~= raw_frag(d as int));

        let (offset, outer, inner) = multiply(abs);
        let mut mult: Vec<u8> = Vec::new();
        push_rep(&mut mult, PLUS, outer as usize);
        mult.push(LB);
        mult.push(GT);
        push_rep(&mut mult, code, inner as usize);
        mult.push(LT);
        mult.push(MINUS);
        mult.push(RB);
        mult.push(GT);
        push_rep(&mut mult, code, offset as usize);
        mult.push(GT);
        assert(mult@ =~= mult_frag(d as int));

        if mult.len() > raw.len() {
            raw
        } else {
            mult
        }
    }
}

/// A well-formed encoding table has exactly 515 entries, one per delta in
/// [-257, 257]; every stored fragment is non-empty and composed solely of
/// instruction-set symbols, and the entry for delta 0 is the fixed
/// two-symbol pointer advance.
pub proof fn lemma_table_entries(t: &EncodingTable)
    requires
        t.wf(),
    ensures
        t.entries@.len() == 515,
        forall|j: int| 0 <= j < 515 ==> (#[trigger] t.entries@[j])@.len() > 0,
        forall|j: int, i: int|
            0 <= j < 515 && 0 <= i < t.entries@[j]@.len()
                ==> is_instr(#[trigger] t.entries@[j]@[i]),
        t.entries@[257]@ == seq![GT, GT],
{
    assert forall|j: int| 0 <= j < 515 implies (#[trigger] t.entries@[j])@.len() > 0 by {
        lemma_frag_valid(j - 257);
    }
    assert forall|j: int, i: int|
        0 <= j < 515 && 0 <= i < t.entries@[j]@.len() implies is_instr(
        #[trigger] t.entries@[j]@[i],
    ) by {
        lemma_frag_valid(j - 257);
    }
}

/// The precomputed encoding table, one entry per delta in [-257, 257],
/// indexed by `delta + 257`.
pub struct EncodingTable {
    pub entries: Vec<Vec<u8>>,
}

impl EncodingTable {
    /// Well-formed: exactly 515 entries, the entry at index `j` holding the
    /// chosen fragment for delta `j - 257`.
    pub open spec fn wf(&self) -> bool {
        self.entries@.len() == 515 && forall|j: int|
            0 <= j < 515 ==> (#[trigger] self.entries@[j])@ == frag_for(j - 257)
    }

    /// The stored fragment for delta `d`.
    pub fn get(&self, d: i16) -> (r: &Vec<u8>)
        requires
            self.wf(),
            -257 <= d <= 257,
        ensures
            r@ == frag_for(d as int),
    {
        &self.entries[(d + 257) as usize]
    }
}

/// Builds the encoding table: for every delta the shorter of the unary and
/// the factorized fragment, with ties favouring the factorized one.
pub fn summations() -> (r: EncodingTable)
    ensures
        r.wf(),
{
    let mut entries: Vec<Vec<u8>> = Vec::new();
    let mut d: i16 = -257;
    while d <= 257
        invariant
            -257 <= d <= 258,
            entries@.len() == d + 257,
            forall|j: int| 0 <= j < entries@.len()
                ==> (#[trigger] entries@[j])@ == frag_for(j - 257),
        decreases 258 - d,
    {
        entries.push(build_frag(d));
        d = d + 1;
    }
    EncodingTable { entries }
}

} // verus!
