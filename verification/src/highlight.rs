//! Putting the color markers around the highlighted ranges of a line.
use vstd::prelude::*;
use vstd::string::StringSliceAdditionalSpecFns;
use vstd::utf8::*;
use crate::ranges::as_int_ranges;
use crate::util::text::{lemma_boundary_in_suffix, lemma_encode_utf8_concat};

verus! {

/// The bytes of `line` from `from` on, with `st` put before and `ed` after
/// each of the ranges (given in order, apart and after `from`).
pub open spec fn marked_bytes(line: Seq<u8>, st: Seq<u8>, ed: Seq<u8>, ranges: Seq<(int, int)>, from: int) -> Seq<u8>
    decreases ranges.len(),
{
    if ranges.len() == 0 {
        line.subrange(from, line.len() as int)
    } else {
        line.subrange(from, ranges[0].0) + st + line.subrange(ranges[0].0, ranges[0].1) + ed
            + marked_bytes(line, st, ed, ranges.drop_first(), ranges[0].1)
    }
}

#[verifier::opaque]
/// The ranges lie within `[lo, hi]`, each starts no later than it ends, and
/// each ends no later than the next starts.
pub open spec fn chained_within(s: Seq<(int, int)>, lo: int, hi: int) -> bool {
    &&& forall|k: int| 0 <= k < s.len() ==> lo <= (#[trigger] s[k]).0 <= s[k].1 <= hi
    &&& forall|k: int| 0 <= k < s.len() - 1 ==> (#[trigger] s[k]).1 <= s[k + 1].0
}

#[verifier::opaque]
/// Every range begins and ends on a character boundary of `bytes`.
pub open spec fn ranges_on_boundaries(bytes: Seq<u8>, s: Seq<(int, int)>) -> bool {
    forall|k: int| 0 <= k < s.len() ==> is_char_boundary(bytes, (#[trigger] s[k]).0) && is_char_boundary(bytes, s[k].1)
}

/// The encoding of four pieces appended to `o`.
proof fn lemma_encode_pieces(o: Seq<char>, a: Seq<char>, b: Seq<char>, c: Seq<char>, d: Seq<char>)
    ensures
        encode_utf8(o + a + b + c + d) == encode_utf8(o) + encode_utf8(a) + encode_utf8(b) + encode_utf8(c)
            + encode_utf8(d),
{
    lemma_encode_utf8_concat(o, a);
    lemma_encode_utf8_concat(o + a, b);
    lemma_encode_utf8_concat(o + a + b, c);
    lemma_encode_utf8_concat(o + a + b + c, d);
}

/// One step of `marked_bytes` over the ranges from the `k`-th on.
proof fn lemma_marked_unfold(lb: Seq<u8>, sb: Seq<u8>, eb: Seq<u8>, rr: Seq<(int, int)>, k: int, from: int)
    requires
        0 <= k < rr.len(),
    ensures
        marked_bytes(lb, sb, eb, rr.skip(k), from) == lb.subrange(from, rr[k].0) + sb + lb.subrange(rr[k].0, rr[k].1)
            + eb + marked_bytes(lb, sb, eb, rr.skip(k + 1), rr[k].1),
{
    let tail = rr.skip(k);
    assert(tail[0] == rr[k]);
    assert(tail.drop_first() =~= rr.skip(k + 1));
}

/// The facts about the `k`-th range that the marking loop needs.
proof fn lemma_range_facts(lb: Seq<u8>, rr: Seq<(int, int)>, k: int)
    requires
        chained_within(rr, 0, lb.len() as int),
        ranges_on_boundaries(lb, rr),
        0 <= k < rr.len(),
    ensures
        0 <= rr[k].0 <= rr[k].1 <= lb.len(),
        is_char_boundary(lb, rr[k].0),
        is_char_boundary(lb, rr[k].1),
        k + 1 < rr.len() ==> rr[k].1 <= rr[k + 1].0,
{
    reveal(chained_within);
    reveal(ranges_on_boundaries);
    if k + 1 < rr.len() {
        assert(rr[k].1 <= rr[k + 1].0);
    }
}

/// Appends to `out` the first `gap` bytes of `rest`, then `st`, then the
/// next `width` bytes of `rest`, then `ed`; returns what follows in `rest`.
fn push_marked_piece<'a>(out: &mut String, rest: &'a str, gap: usize, width: usize, st: &str, ed: &str) -> (after: &'a str)
    requires
        gap + width <= rest.spec_bytes().len(),
        is_char_boundary(rest.spec_bytes(), gap as int),
        is_char_boundary(rest.spec_bytes(), gap + width),
    ensures
        encode_utf8(final(out)@) == encode_utf8(old(out)@) + rest.spec_bytes().subrange(0, gap as int) + st.spec_bytes()
            + rest.spec_bytes().subrange(gap as int, gap + width) + ed.spec_bytes(),
        after.spec_bytes() == rest.spec_bytes().subrange(gap + width, rest.spec_bytes().len() as int),
{
    let ghost rb = rest.spec_bytes();
    proof {
        encode_utf8_valid_utf8(rest@);
        lemma_boundary_in_suffix(rb, gap as int, gap + width);
    }
    let (before, after1) = rest.split_at(gap);
    assert(after1.spec_bytes() =~= rb.subrange(gap as int, rb.len() as int));
    let (mid, after2) = after1.split_at(width);
    assert(mid.spec_bytes() =~= rb.subrange(gap as int, gap + width));
    assert(after2.spec_bytes() =~= rb.subrange(gap + width, rb.len() as int));
    let ghost old_out = out@;
    out.append(before);
    out.append(st);
    out.append(mid);
    out.append(ed);
    proof {
        lemma_encode_pieces(old_out, before@, st@, mid@, ed@);
    }
    after2
}

/// The line with `color_start_s` put before and `color_end_s` after each of
/// the given byte ranges.
pub fn make_out_s(
    color_start_s: &str,
    color_end_s: &str,
    line_ss: &str,
    line_color_ranges: &Vec<(usize, usize)>,
) -> (r: String)
    requires
        chained_within(as_int_ranges(line_color_ranges@), 0, line_ss.spec_bytes().len() as int),
        ranges_on_boundaries(line_ss.spec_bytes(), as_int_ranges(line_color_ranges@)),
    ensures
        encode_utf8(r@) == marked_bytes(
            line_ss.spec_bytes(),
            color_start_s.spec_bytes(),
            color_end_s.spec_bytes(),
            as_int_ranges(line_color_ranges@),
            0,
        ),
{
    let ghost lb = line_ss.spec_bytes();
    let ghost sb = color_start_s.spec_bytes();
    let ghost eb = color_end_s.spec_bytes();
    let ghost rr = as_int_ranges(line_color_ranges@);
    let mut out = String::new();
    let mut rest: &str = line_ss;
    let mut last_pos: usize = 0;
    let n = line_color_ranges.len();
    proof {
        encode_utf8_valid_utf8(line_ss@);
        is_char_boundary_start_end_of_seq(lb);
        assert(lb.subrange(0, lb.len() as int) =~= lb);
        assert(rr.skip(0) =~= rr);
        assert(encode_utf8(out@) =~= Seq::<u8>::empty());
        assert(encode_utf8(out@) + marked_bytes(lb, sb, eb, rr.skip(0), 0) =~= marked_bytes(lb, sb, eb, rr, 0));
        if n > 0 {
            lemma_range_facts(lb, rr, 0);
        }
    }
    let mut k: usize = 0;
    while k < n
        invariant
            n == line_color_ranges@.len(),
            rr == as_int_ranges(line_color_ranges@),
            lb == line_ss.spec_bytes(),
            sb == color_start_s.spec_bytes(),
            eb == color_end_s.spec_bytes(),
            valid_utf8(lb),
            chained_within(rr, 0, lb.len() as int),
            ranges_on_boundaries(lb, rr),
            k <= n,
            last_pos <= lb.len(),
            is_char_boundary(lb, last_pos as int),
            k < n ==> last_pos <= rr[k as int].0,
            rest.spec_bytes() == lb.subrange(last_pos as int, lb.len() as int),
            encode_utf8(out@) + marked_bytes(lb, sb, eb, rr.skip(k as int), last_pos as int)
                == marked_bytes(lb, sb, eb, rr, 0),
        decreases n - k,
    {
        let (st, ed) = line_color_ranges[k];
        let ghost old_out = out@;
        let ghost rb = rest.spec_bytes();
        proof {
            assert(rr[k as int] == (st as int, ed as int));
            lemma_range_facts(lb, rr, k as int);
            lemma_boundary_in_suffix(lb, last_pos as int, st as int);
            lemma_boundary_in_suffix(lb, last_pos as int, ed as int);
        }
        rest = push_marked_piece(&mut out, rest, st - last_pos, ed - st, color_start_s, color_end_s);
        proof {
            assert(rb.subrange(0, st - last_pos) =~= lb.subrange(last_pos as int, st as int));
            assert(rb.subrange(st - last_pos, ed - last_pos) =~= lb.subrange(st as int, ed as int));
            assert(rest.spec_bytes() =~= lb.subrange(ed as int, lb.len() as int));
            lemma_marked_unfold(lb, sb, eb, rr, k as int, last_pos as int);
            assert(encode_utf8(out@) + marked_bytes(lb, sb, eb, rr.skip(k + 1), ed as int)
                =~= encode_utf8(old_out) + marked_bytes(lb, sb, eb, rr.skip(k as int), last_pos as int));
            if k + 1 < n {
                lemma_range_facts(lb, rr, k + 1);
            }
        }
        last_pos = ed;
        k = k + 1;
    }
    let ghost old_out = out@;
    out.append(rest);
    proof {
        lemma_encode_utf8_concat(old_out, rest@);
        assert(rr.skip(k as int) =~= Seq::<(int, int)>::empty());
    }
    out
}

/// In chained ranges, a later range starts after the first ends.
proof fn lemma_chain_order(s: Seq<(int, int)>, lo: int, hi: int, k: int)
    requires
        chained_within(s, lo, hi),
        1 <= k < s.len(),
    ensures
        s[0].1 <= s[k].0,
    decreases k,
{
    reveal(chained_within);
    assert(s[k - 1].1 <= s[k].0);
    if k > 1 {
        lemma_chain_order(s, lo, hi, k - 1);
        assert(s[k - 1].0 <= s[k - 1].1);
    }
}

/// Ranges chained within `[from, hi]` minus the first are chained within
/// `[end of the first, hi]`.
proof fn lemma_chained_rest(s: Seq<(int, int)>, lo: int, hi: int)
    requires
        chained_within(s, lo, hi),
        s.len() > 0,
    ensures
        chained_within(s.drop_first(), s[0].1, hi),
        lo <= s[0].0 <= s[0].1 <= hi,
{
    reveal(chained_within);
    let t = s.drop_first();
    assert forall|k: int| 0 <= k < t.len() implies s[0].1 <= (#[trigger] t[k]).0 <= t[k].1 <= hi by {
        assert(t[k] == s[k + 1]);
        lemma_chain_order(s, lo, hi, k + 1);
    }
    assert forall|k: int| 0 <= k < t.len() - 1 implies (#[trigger] t[k]).1 <= t[k + 1].0 by {
        assert(t[k] == s[k + 1] && t[k + 1] == s[k + 2]);
    }
}

/// With empty color sequences, marking gives the line back unchanged.
pub proof fn law_empty_markers_keep_line(line: Seq<u8>, ranges: Seq<(int, int)>, from: int)
    requires
        0 <= from <= line.len(),
        chained_within(ranges, from, line.len() as int),
    ensures
        marked_bytes(line, Seq::empty(), Seq::empty(), ranges, from) == line.subrange(from, line.len() as int),
    decreases ranges.len(),
{
    if ranges.len() > 0 {
        lemma_chained_rest(ranges, from, line.len() as int);
        law_empty_markers_keep_line(line, ranges.drop_first(), ranges[0].1);
        assert(line.subrange(from, ranges[0].0) + Seq::<u8>::empty() + line.subrange(ranges[0].0, ranges[0].1)
            + Seq::<u8>::empty() + line.subrange(ranges[0].1, line.len() as int)
            =~= line.subrange(from, line.len() as int));
    }
}

/// The marked line is exactly as long as the line plus one pair of color
/// sequences per range.
pub proof fn law_marked_length(line: Seq<u8>, st: Seq<u8>, ed: Seq<u8>, ranges: Seq<(int, int)>, from: int)
    requires
        0 <= from <= line.len(),
        chained_within(ranges, from, line.len() as int),
    ensures
        marked_bytes(line, st, ed, ranges, from).len() == line.len() - from + ranges.len() * (st.len() + ed.len()),
    decreases ranges.len(),
{
    if ranges.len() > 0 {
        lemma_chained_rest(ranges, from, line.len() as int);
        law_marked_length(line, st, ed, ranges.drop_first(), ranges[0].1);
        assert(ranges.len() * (st.len() + ed.len()) == (st.len() + ed.len()) + (ranges.len() - 1) * (st.len() + ed.len()))
            by (nonlinear_arith);
    }
}

} // verus!
