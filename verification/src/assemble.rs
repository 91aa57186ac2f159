//! Program assembly: composes the final program text from a prefix that
//! materializes the adjustment constant, a clear-and-loop header sized to
//! the input length, the per-byte fragments in reverse input order with a
//! one-time structural patch, and a fixed output trailer.

use vstd::prelude::*;
use crate::table::{frag_for, EncodingTable, PLUS, MINUS, LT, GT, LB, RB, DOT, NL};
use crate::histogram::{hist_of, spec_best, occur_map, best_offset};

verus! {

/// `n` repetitions of the block `s` (empty when `n <= 0`).
pub open spec fn rep_seq(s: Seq<u8>, n: int) -> Seq<u8>
    decreases n,
{
    if n <= 0 {
        Seq::empty()
    } else {
        rep_seq(s, n - 1) + s
    }
}

/// The clear-and-loop header for an input of `n` bytes: looping on the
/// just-cleared first counter cell, allocate `n` counter cells two apart,
/// retreat over all of them, then advance once past the block.
pub open spec fn header(n: int) -> Seq<u8> {
    seq![LB, MINUS] + rep_seq(seq![GT, GT, PLUS], n) + rep_seq(seq![LT, LT], n) + seq![RB, GT]
}

/// The four-symbol structural patch (plus the surrounding pointer moves)
/// emitted exactly once, immediately after the fragment for the
/// structurally last input byte.
pub open spec fn patch() -> Seq<u8> {
    seq![LT, LT, MINUS, GT, GT]
}

/// The fixed trailer: output the current cell, retreat, increment, driven
/// by a loop, then the trailing newline.
pub open spec fn trailer() -> Seq<u8> {
    seq![PLUS, LB, LT, DOT, LT, PLUS, RB, NL]
}

/// Fragments for the bytes before the structurally last one, emitted in
/// reverse input order: after `j` reverse steps the fragments for input
/// positions `len - 2` down to `len - j` have been emitted.
pub open spec fn mid_frags(bytes: Seq<u8>, t: int, j: int) -> Seq<u8>
    decreases j,
{
    if j <= 1 {
        Seq::empty()
    } else {
        mid_frags(bytes, t, j - 1) + frag_for(bytes[bytes.len() - j] - t)
    }
}

/// The program text after `j` of the `len` reverse steps of the per-byte
/// phase: the fragment for the last input byte, the one-time patch, then
/// the fragments of the remaining bytes in reverse order.
pub open spec fn partial_body(bytes: Seq<u8>, t: int, j: int) -> Seq<u8> {
    if j <= 0 {
        Seq::empty()
    } else {
        frag_for(bytes[bytes.len() - 1] - t) + patch() + mid_frags(bytes, t, j)
    }
}

/// The complete per-byte phase.
pub open spec fn body(bytes: Seq<u8>, t: int) -> Seq<u8> {
    partial_body(bytes, t, bytes.len() as int)
}

/// The complete generated program for input `bytes` under adjustment
/// constant `t`: the constant-materializing prefix (the fragment for `t`
/// with its trailing pointer advance stripped), the header, the per-byte
/// phase, and the trailer. With no input bytes there are no produced
/// cells to output, so the trailer's output loop is omitted and only the
/// trailing newline is emitted: the empty-input program must execute to
/// completion with zero output bytes.
pub open spec fn program_spec(bytes: Seq<u8>, t: int) -> Seq<u8> {
    frag_for(t).drop_last() + header(bytes.len() as int) + body(bytes, t) + (if bytes.len() == 0 {
        seq![NL]
    } else {
        trailer()
    })
}

/// Appends all of `src`.
fn extend(out: &mut Vec<u8>, src: &Vec<u8>)
    ensures
        final(out)@ == old(out)@ + src@,
{
    let mut i: usize = 0;
    while i < src.len()
        invariant
            i <= src@.len(),
            out@ == old(out)@ + src@.take(i as int),
        decreases src@.len() - i,
    {
        out.push(src[i]);
        i = i + 1;
        assert(out@ =~= old(out)@ + src@.take(i as int));
    }
    assert(out@ =~= old(out)@ + src@);
}

/// Assembles the final program for `asc` under adjustment constant
/// `offset`: the result is exactly `program_spec(asc@, offset)`.
pub fn assemble(asc: &Vec<u8>, compiled: &EncodingTable, offset: u8) -> (r: Vec<u8>)
    requires
        compiled.wf(),
    ensures
        r@ == program_spec(asc@, offset as int),
{
    let n = asc.len();
    let mut out: Vec<u8> = Vec::new();

    // Prefix: the fragment for the constant, trailing pointer advance stripped.
    let pre = compiled.get(offset as i16);
    proof {
        crate::table::lemma_frag_valid(offset as int);
    }
    let mut i: usize = 0;
    while i < pre.len() - 1
        invariant
            pre@ == frag_for(offset as int),
            pre@.len() >= 2,
            i <= pre@.len() - 1,
            out@ == pre@.take(i as int),
        decreases pre@.len() - i,
    {
        out.push(pre[i]);
        i = i + 1;
        assert(out@ =~= pre@.take(i as int));
    }
    assert(out@ =~= frag_for(offset as int).drop_last());
    let ghost base0 = frag_for(offset as int).drop_last();

    // Header: clear-and-loop skeleton sized to the input length.
    out.push(LB);
    out.push(MINUS);
    let ghost base1 = base0 + seq![LB, MINUS];
    assert(out@ =~= base1);
    let mut k: usize = 0;
    while k < n
        invariant
            k <= n,
            out@ == base1 + rep_seq(seq![GT, GT, PLUS], k as int),
        decreases n - k,
    {
        out.push(GT);
        out.push(GT);
        out.push(PLUS);
        k = k + 1;
        assert(out@ =~= base1 + rep_seq(seq![GT, GT, PLUS], k as int));
    }
    let ghost base2 = base1 + rep_seq(seq![GT, GT, PLUS], n as int);
    k = 0;
    while k < n
        invariant
            k <= n,
            out@ == base2 + rep_seq(seq![LT, LT], k as int),
        decreases n - k,
    {
        out.push(LT);
        out.push(LT);
        k = k + 1;
        assert(out@ =~= base2 + rep_seq(seq![LT, LT], k as int));
    }
    out.push(RB);
    out.push(GT);
    let ghost base3 = base0 + header(n as int);
    assert(out@ =~= base3);

    // Per-byte fragments in reverse input order, with the one-time patch
    // immediately after the fragment for the structurally last byte.
    let ghost s = asc@;
    let mut j: usize = 0;
    while j < n
        invariant
            j <= n,
            n == s.len(),
            asc@ == s,
            compiled.wf(),
            out@ == base3 + partial_body(s, offset as int, j as int),
        decreases n - j,
    {
        let byte = asc[n - 1 - j];
        let d: i16 = (byte as i16) - (offset as i16);
        let frag = compiled.get(d);
        extend(&mut out, frag);
        if j == 0 {
            out.push(LT);
            out.push(LT);
            out.push(MINUS);
            out.push(GT);
            out.push(GT);
            assert(out@ =~= base3 + partial_body(s, offset as int, 1));
        } else {
            assert(s.len() - (j + 1) == n - 1 - j);
            assert(out@ =~= base3 + partial_body(s, offset as int, j as int + 1));
        }
        j = j + 1;
    }
    let ghost base4 = base3 + body(s, offset as int);
    assert(out@ =~= base4);

    // Trailer: with no produced cells, only the newline.
    if n > 0 {
        out.push(PLUS);
        out.push(LB);
        out.push(LT);
        out.push(DOT);
        out.push(LT);
        out.push(PLUS);
        out.push(RB);
    }
    out.push(NL);
    assert(out@ =~= program_spec(asc@, offset as int));
    out
}

/// The full pipeline on a byte buffer: histogram, adjustment-constant
/// search, assembly. The result is the program for the earliest
/// minimum-cost constant, pinned exactly by `program_spec` and
/// `spec_best`.
pub fn to_bf(compiled: &EncodingTable, asc: &Vec<u8>) -> (r: Vec<u8>)
    requires
        compiled.wf(),
    ensures
        r@ == program_spec(asc@, spec_best(hist_of(asc@), 256)),
{
    let counts = occur_map(asc);
    let offset = best_offset(compiled, &counts);
    assemble(asc, compiled, offset)
}

/// Assembly is deterministic: identical input bytes yield byte-identical
/// generated program text.
pub proof fn lemma_deterministic(b1: Seq<u8>, b2: Seq<u8>)
    requires
        b1 == b2,
    ensures
        program_spec(b1, spec_best(hist_of(b1), 256)) == program_spec(
            b2,
            spec_best(hist_of(b2), 256),
        ),
{
}

} // verus!
