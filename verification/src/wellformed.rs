//! Well-formedness of generated programs: every program the assembler
//! produces consists solely of instruction-set symbols followed by a single
//! trailing newline, and its brackets are balanced, with no prefix closing
//! a loop that was never opened.

use vstd::prelude::*;
use crate::table::{is_instr, frag_for, rep, raw_frag, mult_frag, sign_sym, abs1, PLUS, MINUS, LT,
    GT, LB, RB, DOT, NL};
use crate::assemble::{rep_seq, header, patch, trailer, mid_frags, partial_body, body, program_spec};

verus! {

/// The contribution of one symbol to the bracket nesting depth.
pub open spec fn bval(c: u8) -> int {
    if c == LB {
        1
    } else if c == RB {
        -1
    } else {
        0
    }
}

/// The bracket balance of `s`: opening brackets minus closing brackets.
pub open spec fn bal(s: Seq<u8>) -> int
    decreases s.len(),
{
    if s.len() == 0 {
        0
    } else {
        bal(s.drop_last()) + bval(s.last())
    }
}

/// No prefix of `s` closes more brackets than it opens.
pub open spec fn prefixes_ok(s: Seq<u8>) -> bool {
    forall|k: int| 0 <= k <= s.len() ==> bal(#[trigger] s.take(k)) >= 0
}

/// Every position of `s` holds an instruction-set symbol.
pub open spec fn all_instr(s: Seq<u8>) -> bool {
    forall|i: int| 0 <= i < s.len() ==> is_instr(#[trigger] s[i])
}

/// A well-formed generated program: instruction symbols followed by one
/// trailing newline, balanced brackets, no prefix below balance zero.
pub open spec fn well_formed(p: Seq<u8>) -> bool {
    &&& p.len() >= 1
    &&& p.last() == NL
    &&& all_instr(p.drop_last())
    &&& bal(p) == 0
    &&& prefixes_ok(p)
}

proof fn lemma_bal_concat(a: Seq<u8>, b: Seq<u8>)
    ensures
        bal(a + b) == bal(a) + bal(b),
    decreases b.len(),
{
    if b.len() == 0 {
        assert(a + b =~= a);
    } else {
        lemma_bal_concat(a, b.drop_last());
        assert((a + b).drop_last() =~= a + b.drop_last());
        assert((a + b).last() == b.last());
    }
}

proof fn lemma_prefixes_concat(a: Seq<u8>, b: Seq<u8>)
    requires
        prefixes_ok(a),
        forall|k: int| 0 <= k <= b.len() ==> bal(a) + bal(#[trigger] b.take(k)) >= 0,
    ensures
        prefixes_ok(a + b),
{
    assert forall|k: int| 0 <= k <= (a + b).len() implies bal(#[trigger] (a + b).take(k)) >= 0 by {
        if k <= a.len() {
            assert((a + b).take(k) =~= a.take(k));
        } else {
            assert((a + b).take(k) =~= a + b.take(k - a.len()));
            lemma_bal_concat(a, b.take(k - a.len()));
        }
    }
}

proof fn lemma_all_instr_concat(a: Seq<u8>, b: Seq<u8>)
    requires
        all_instr(a),
        all_instr(b),
    ensures
        all_instr(a + b),
{
    assert forall|i: int| 0 <= i < (a + b).len() implies is_instr(#[trigger] (a + b)[i]) by {
        if i < a.len() {
            assert((a + b)[i] == a[i]);
        } else {
            assert((a + b)[i] == b[i - a.len()]);
        }
    }
}

/// A sequence with no brackets at all: balance zero everywhere.
pub open spec fn bracket_free(s: Seq<u8>) -> bool {
    forall|i: int| 0 <= i < s.len() ==> bval(#[trigger] s[i]) == 0
}

proof fn lemma_bracket_free_bal(s: Seq<u8>)
    requires
        bracket_free(s),
    ensures
        bal(s) == 0,
    decreases s.len(),
{
    if s.len() > 0 {
        assert(bval(s.last()) == 0);
        assert(bracket_free(s.drop_last()));
        lemma_bracket_free_bal(s.drop_last());
    }
}

proof fn lemma_bracket_free_prefixes(s: Seq<u8>)
    requires
        bracket_free(s),
    ensures
        prefixes_ok(s),
        forall|k: int| 0 <= k <= s.len() ==> bal(#[trigger] s.take(k)) == 0,
{
    assert forall|k: int| 0 <= k <= s.len() implies bal(#[trigger] s.take(k)) == 0 by {
        assert(bracket_free(s.take(k)));
        lemma_bracket_free_bal(s.take(k));
    }
}

proof fn lemma_rep_bracket_free(c: u8, n: int)
    requires
        bval(c) == 0,
    ensures
        bracket_free(rep(c, n)),
{
}

proof fn lemma_bracket_free_concat(a: Seq<u8>, b: Seq<u8>)
    requires
        bracket_free(a),
        bracket_free(b),
    ensures
        bracket_free(a + b),
{
    assert forall|i: int| 0 <= i < (a + b).len() implies bval(#[trigger] (a + b)[i]) == 0 by {
        if i < a.len() {
            assert((a + b)[i] == a[i]);
        } else {
            assert((a + b)[i] == b[i - a.len()]);
        }
    }
}

proof fn lemma_rep_seq_bracket_free(s: Seq<u8>, n: int)
    requires
        bracket_free(s),
    ensures
        bracket_free(rep_seq(s, n)),
    decreases n,
{
    if n <= 0 {
    } else {
        lemma_rep_seq_bracket_free(s, n - 1);
        lemma_bracket_free_concat(rep_seq(s, n - 1), s);
    }
}

proof fn lemma_rep_seq_all_instr(s: Seq<u8>, n: int)
    requires
        all_instr(s),
    ensures
        all_instr(rep_seq(s, n)),
    decreases n,
{
    if n <= 0 {
    } else {
        lemma_rep_seq_all_instr(s, n - 1);
        lemma_all_instr_concat(rep_seq(s, n - 1), s);
    }
}

/// A single loop whose body contains no further brackets is balanced and
/// never closes an unopened bracket.
proof fn lemma_loop_block(mid: Seq<u8>)
    requires
        bracket_free(mid),
    ensures
        bal(seq![LB] + mid + seq![RB]) == 0,
        prefixes_ok(seq![LB] + mid + seq![RB]),
{
    let s = seq![LB] + mid + seq![RB];
    assert(bal(Seq::<u8>::empty()) == 0);
    assert(seq![LB].drop_last() =~= Seq::<u8>::empty());
    assert(seq![LB].last() == LB);
    assert(bal(seq![LB]) == 1);
    assert(seq![RB].drop_last() =~= Seq::<u8>::empty());
    assert(bal(seq![RB]) == -1);
    lemma_bracket_free_bal(mid);
    lemma_bal_concat(seq![LB], mid);
    lemma_bal_concat(seq![LB] + mid, seq![RB]);
    assert(bal(s) == 0);
    assert forall|k: int| 0 <= k <= s.len() implies bal(#[trigger] s.take(k)) >= 0 by {
        if k == 0 {
            assert(s.take(0) =~= Seq::<u8>::empty());
        } else if k <= 1 + mid.len() {
            assert(s.take(k) =~= seq![LB] + mid.take(k - 1));
            assert(bracket_free(mid.take(k - 1)));
            lemma_bracket_free_bal(mid.take(k - 1));
            lemma_bal_concat(seq![LB], mid.take(k - 1));
        } else {
            assert(s.take(k) =~= s);
        }
    }
}

/// Every stored fragment is bracket-balanced, never closes an unopened
/// bracket, and ends with a pointer advance; both properties survive
/// stripping that final advance.
proof fn lemma_frag_wf(d: int)
    requires
        -257 <= d <= 257,
    ensures
        bal(frag_for(d)) == 0,
        prefixes_ok(frag_for(d)),
        frag_for(d).len() >= 2,
        frag_for(d).last() == GT,
        bal(frag_for(d).drop_last()) == 0,
        prefixes_ok(frag_for(d).drop_last()),
{
    crate::table::lemma_frag_valid(d);
    if d == 0 {
        let z = frag_for(0);
        assert(z =~= seq![GT, GT]);
        assert(bracket_free(z)) by {
            assert(z[0] == GT && z[1] == GT);
        }
        lemma_bracket_free_bal(z);
        lemma_bracket_free_prefixes(z);
        assert(z.last() == GT);
    } else {
        let a = abs1(d);
        assert(bracket_free(rep(sign_sym(d), a))) by {
            lemma_rep_bracket_free(sign_sym(d), a);
        }
        assert(bracket_free(seq![GT])) by {
            assert(seq![GT][0] == GT);
        }
        lemma_bracket_free_concat(seq![GT], rep(sign_sym(d), a));
        lemma_bracket_free_concat(seq![GT] + rep(sign_sym(d), a), seq![GT]);
        assert(bracket_free(raw_frag(d)));
        assert(raw_frag(d).last() == GT);

        let an = a as nat;
        let outer = crate::factor::spec_isqrt(an) as int;
        let inner = crate::factor::f_inner(an);
        let rem = crate::factor::f_rem(an);
        let pre = rep(PLUS, outer);
        let mid = seq![GT] + rep(sign_sym(d), inner) + seq![LT, MINUS];
        let blk = seq![LB] + mid + seq![RB];
        let post = seq![GT] + rep(sign_sym(d), rem) + seq![GT];
        assert(mult_frag(d) =~= pre + blk + post);
        assert(bracket_free(pre)) by {
            lemma_rep_bracket_free(PLUS, outer);
        }
        assert(bracket_free(mid)) by {
            lemma_rep_bracket_free(sign_sym(d), inner);
            assert(bracket_free(seq![LT, MINUS])) by {
                assert(seq![LT, MINUS][0] == LT && seq![LT, MINUS][1] == MINUS);
            }
            lemma_bracket_free_concat(seq![GT], rep(sign_sym(d), inner));
            lemma_bracket_free_concat(seq![GT] + rep(sign_sym(d), inner), seq![LT, MINUS]);
        }
        assert(bracket_free(post)) by {
            lemma_rep_bracket_free(sign_sym(d), rem);
            lemma_bracket_free_concat(seq![GT], rep(sign_sym(d), rem));
            lemma_bracket_free_concat(seq![GT] + rep(sign_sym(d), rem), seq![GT]);
        }
        lemma_loop_block(mid);
        lemma_bracket_free_bal(pre);
        lemma_bracket_free_bal(post);
        lemma_bal_concat(pre, blk);
        lemma_bal_concat(pre + blk, post);
        assert(bal(mult_frag(d)) == 0);
        lemma_bracket_free_prefixes(post);
        lemma_prefixes_concat(blk, post);
        assert(forall|k: int| 0 <= k <= (blk + post).len()
            ==> bal(#[trigger] (blk + post).take(k)) >= 0);
        lemma_bracket_free_prefixes(pre);
        lemma_bal_concat(blk, post);
        lemma_prefixes_concat(pre, blk + post);
        assert(pre + (blk + post) =~= pre + blk + post);
        assert(prefixes_ok(mult_frag(d)));
        assert(mult_frag(d).last() == GT) by {
            assert(post.last() == GT);
            assert((pre + blk + post).last() == post.last());
        }
        lemma_bracket_free_prefixes(raw_frag(d));
        lemma_bracket_free_bal(raw_frag(d));
    }
    let f = frag_for(d);
    assert(bal(f) == bal(f.drop_last()) + bval(f.last()));
    assert(bal(f.drop_last()) == 0);
    assert forall|k: int| 0 <= k <= f.drop_last().len() implies bal(
        #[trigger] f.drop_last().take(k),
    ) >= 0 by {
        assert(f.drop_last().take(k) =~= f.take(k));
        assert(bal(f.take(k)) >= 0);
    }
}

proof fn lemma_header_wf(n: int)
    ensures
        bal(header(n)) == 0,
        prefixes_ok(header(n)),
        all_instr(header(n)),
{
    let ggp = seq![GT, GT, PLUS];
    let ll = seq![LT, LT];
    assert(bracket_free(ggp)) by {
        assert(ggp[0] == GT && ggp[1] == GT && ggp[2] == PLUS);
    }
    assert(bracket_free(ll)) by {
        assert(ll[0] == LT && ll[1] == LT);
    }
    lemma_rep_seq_bracket_free(ggp, n);
    lemma_rep_seq_bracket_free(ll, n);
    let midh = seq![MINUS] + rep_seq(ggp, n) + rep_seq(ll, n);
    assert(bracket_free(seq![MINUS])) by {
        assert(seq![MINUS][0] == MINUS);
    }
    lemma_bracket_free_concat(seq![MINUS], rep_seq(ggp, n));
    lemma_bracket_free_concat(seq![MINUS] + rep_seq(ggp, n), rep_seq(ll, n));
    let blkh = seq![LB] + midh + seq![RB];
    assert(header(n) =~= blkh + seq![GT]);
    lemma_loop_block(midh);
    assert(bracket_free(seq![GT])) by {
        assert(seq![GT][0] == GT);
    }
    lemma_bracket_free_bal(seq![GT]);
    lemma_bal_concat(blkh, seq![GT]);
    lemma_bracket_free_prefixes(seq![GT]);
    lemma_prefixes_concat(blkh, seq![GT]);

    assert(all_instr(ggp)) by {
        assert(ggp[0] == GT && ggp[1] == GT && ggp[2] == PLUS);
    }
    assert(all_instr(ll)) by {
        assert(ll[0] == LT && ll[1] == LT);
    }
    lemma_rep_seq_all_instr(ggp, n);
    lemma_rep_seq_all_instr(ll, n);
    assert(all_instr(seq![LB, MINUS])) by {
        assert(seq![LB, MINUS][0] == LB && seq![LB, MINUS][1] == MINUS);
    }
    assert(all_instr(seq![RB, GT])) by {
        assert(seq![RB, GT][0] == RB && seq![RB, GT][1] == GT);
    }
    lemma_all_instr_concat(seq![LB, MINUS], rep_seq(ggp, n));
    lemma_all_instr_concat(seq![LB, MINUS] + rep_seq(ggp, n), rep_seq(ll, n));
    lemma_all_instr_concat(seq![LB, MINUS] + rep_seq(ggp, n) + rep_seq(ll, n), seq![RB, GT]);
    assert(header(n) =~= seq![LB, MINUS] + rep_seq(ggp, n) + rep_seq(ll, n) + seq![RB, GT]);
}

proof fn lemma_patch_wf()
    ensures
        bal(patch()) == 0,
        prefixes_ok(patch()),
        all_instr(patch()),
{
    let p = patch();
    assert(bracket_free(p) && all_instr(p)) by {
        assert(p[0] == LT && p[1] == LT && p[2] == MINUS && p[3] == GT && p[4] == GT);
    }
    lemma_bracket_free_bal(p);
    lemma_bracket_free_prefixes(p);
}

proof fn lemma_mid_frags_wf(bytes: Seq<u8>, t: int, j: int)
    requires
        0 <= t <= 255,
        j <= bytes.len(),
    ensures
        bal(mid_frags(bytes, t, j)) == 0,
        prefixes_ok(mid_frags(bytes, t, j)),
        all_instr(mid_frags(bytes, t, j)),
    decreases j,
{
    if j <= 1 {
        assert(prefixes_ok(Seq::<u8>::empty())) by {
            assert forall|k: int| 0 <= k <= 0 implies bal(#[trigger] Seq::<u8>::empty().take(k))
                >= 0 by {
                assert(Seq::<u8>::empty().take(k) =~= Seq::<u8>::empty());
            }
        }
    } else {
        lemma_mid_frags_wf(bytes, t, j - 1);
        let d = bytes[bytes.len() - j] - t;
        lemma_frag_wf(d);
        crate::table::lemma_frag_valid(d);
        lemma_bal_concat(mid_frags(bytes, t, j - 1), frag_for(d));
        lemma_prefixes_concat(mid_frags(bytes, t, j - 1), frag_for(d));
        lemma_all_instr_concat(mid_frags(bytes, t, j - 1), frag_for(d));
    }
}

proof fn lemma_body_wf(bytes: Seq<u8>, t: int)
    requires
        0 <= t <= 255,
    ensures
        bal(body(bytes, t)) == 0,
        prefixes_ok(body(bytes, t)),
        all_instr(body(bytes, t)),
{
    let n = bytes.len() as int;
    if n == 0 {
        lemma_mid_frags_wf(bytes, t, 0);
    } else {
        let d = bytes[n - 1] - t;
        lemma_frag_wf(d);
        crate::table::lemma_frag_valid(d);
        lemma_patch_wf();
        lemma_mid_frags_wf(bytes, t, n);
        lemma_bal_concat(frag_for(d), patch());
        lemma_bal_concat(frag_for(d) + patch(), mid_frags(bytes, t, n));
        lemma_prefixes_concat(frag_for(d), patch());
        lemma_prefixes_concat(frag_for(d) + patch(), mid_frags(bytes, t, n));
        lemma_all_instr_concat(frag_for(d), patch());
        lemma_all_instr_concat(frag_for(d) + patch(), mid_frags(bytes, t, n));
    }
}

proof fn lemma_trailer_wf()
    ensures
        bal(trailer()) == 0,
        prefixes_ok(trailer()),
        trailer().last() == NL,
        all_instr(trailer().drop_last()),
{
    let midt = seq![LT, DOT, LT, PLUS];
    assert(bracket_free(midt)) by {
        assert(midt[0] == LT && midt[1] == DOT && midt[2] == LT && midt[3] == PLUS);
    }
    let blkt = seq![LB] + midt + seq![RB];
    lemma_loop_block(midt);
    assert(trailer() =~= seq![PLUS] + blkt + seq![NL]);
    assert(bracket_free(seq![PLUS])) by {
        assert(seq![PLUS][0] == PLUS);
    }
    assert(bracket_free(seq![NL])) by {
        assert(seq![NL][0] == NL);
    }
    lemma_bracket_free_bal(seq![PLUS]);
    lemma_bracket_free_bal(seq![NL]);
    lemma_bal_concat(seq![PLUS], blkt);
    lemma_bal_concat(seq![PLUS] + blkt, seq![NL]);
    lemma_bracket_free_prefixes(seq![NL]);
    lemma_prefixes_concat(blkt, seq![NL]);
    lemma_bal_concat(blkt, seq![NL]);
    lemma_bracket_free_prefixes(seq![PLUS]);
    lemma_prefixes_concat(seq![PLUS], blkt + seq![NL]);
    assert(seq![PLUS] + (blkt + seq![NL]) =~= trailer());
    assert(all_instr(trailer().drop_last())) by {
        let td = trailer().drop_last();
        assert(td =~= seq![PLUS, LB, LT, DOT, LT, PLUS, RB]);
        assert(td[0] == PLUS && td[1] == LB && td[2] == LT && td[3] == DOT && td[4] == LT
            && td[5] == PLUS && td[6] == RB);
    }
}

/// Every generated program is well-formed: instruction-set symbols
/// followed by a single trailing newline, with balanced brackets and no
/// prefix that closes an unopened loop. This holds for every input byte
/// sequence, including the empty one.
pub proof fn lemma_program_well_formed(bytes: Seq<u8>, t: int)
    requires
        0 <= t <= 255,
    ensures
        well_formed(program_spec(bytes, t)),
{
    let n = bytes.len() as int;
    let pre = frag_for(t).drop_last();
    let tail = if n == 0 { seq![NL] } else { trailer() };
    let p = program_spec(bytes, t);
    lemma_frag_wf(t);
    lemma_header_wf(n);
    lemma_body_wf(bytes, t);
    lemma_trailer_wf();
    assert(bal(tail) == 0 && prefixes_ok(tail) && tail.last() == NL) by {
        if n == 0 {
            assert(bracket_free(seq![NL])) by {
                assert(seq![NL][0] == NL);
            }
            lemma_bracket_free_bal(seq![NL]);
            lemma_bracket_free_prefixes(seq![NL]);
        } else {
            assert(trailer().len() == 8);
        }
    }

    lemma_bal_concat(pre, header(n));
    lemma_bal_concat(pre + header(n), body(bytes, t));
    lemma_bal_concat(pre + header(n) + body(bytes, t), tail);
    assert(bal(p) == 0);

    lemma_prefixes_concat(pre, header(n));
    lemma_prefixes_concat(pre + header(n), body(bytes, t));
    lemma_prefixes_concat(pre + header(n) + body(bytes, t), tail);
    assert(prefixes_ok(p));

    assert(p.last() == tail.last());
    assert(all_instr(p.drop_last())) by {
        crate::table::lemma_frag_valid(t);
        assert(all_instr(pre)) by {
            assert forall|i: int| 0 <= i < pre.len() implies is_instr(#[trigger] pre[i]) by {
                assert(pre[i] == frag_for(t)[i]);
            }
        }
        assert(all_instr(tail.drop_last())) by {
            if n == 0 {
                assert(seq![NL].drop_last() =~= Seq::<u8>::empty());
            }
        }
        lemma_all_instr_concat(pre, header(n));
        lemma_all_instr_concat(pre + header(n), body(bytes, t));
        lemma_all_instr_concat(pre + header(n) + body(bytes, t), tail.drop_last());
        assert(p.drop_last() =~= pre + header(n) + body(bytes, t) + tail.drop_last());
    }
}

} // verus!
