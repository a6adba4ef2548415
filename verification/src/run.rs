//! Deciding, line by line, what the filter prints.
use vstd::prelude::*;
use vstd::string::StringSliceAdditionalSpecFns;
use vstd::utf8::*;
use crate::highlight::{chained_within, make_out_s, marked_bytes, ranges_on_boundaries};
use crate::matcher::{find_needle, occurrences_from, on_char_boundaries, regex_accepts, regex_error_text, regex_match_ranges, RegexMatcher};
use crate::ranges::{
    all_covered, as_int_ranges, covered_by_some, covers, end_witnessed, ends_at_members, is_merge_of, lemma_merge_same_members,
    lemma_merge_unique, merge_sorted, sort_by_start, start_witnessed, starts_at_members, strictly_apart,
    well_formed_ranges,
};
use crate::conf::{CmdOptConf, EnvConf};
use crate::util::opt_color_when::OptColorWhen;

verus! {

/// The patterns of the compiled regular expressions.
pub open spec fn patterns_of(regs: Seq<RegexMatcher>) -> Seq<Seq<char>> {
    regs.map_values(|m: RegexMatcher| m@)
}

/// The characters of each string.
pub open spec fn texts_of(v: Seq<String>) -> Seq<Seq<char>> {
    v.map_values(|s: String| s@)
}

/// The matches of all the patterns in `line`, pattern after pattern.
pub open spec fn regex_ranges_all(pats: Seq<Seq<char>>, line: Seq<char>) -> Seq<(int, int)>
    decreases pats.len(),
{
    if pats.len() == 0 {
        seq![]
    } else {
        regex_ranges_all(pats.drop_last(), line) + regex_match_ranges(pats.last(), line)
    }
}

/// The byte ranges of the occurrences of the needle `n` in `h`. An empty
/// needle is found at the start of the line.
pub open spec fn needle_ranges(h: Seq<u8>, n: Seq<u8>) -> Seq<(int, int)> {
    if n.len() == 0 {
        seq![(0int, 0int)]
    } else {
        occurrences_from(h, n, 0).map_values(|i: int| (i, i + n.len()))
    }
}

/// The occurrences of all the needles in the bytes `h`, needle after needle.
pub open spec fn needle_ranges_all(h: Seq<u8>, needles: Seq<Seq<char>>) -> Seq<(int, int)>
    decreases needles.len(),
{
    if needles.len() == 0 {
        seq![]
    } else {
        needle_ranges_all(h, needles.drop_last()) + needle_ranges(h, encode_utf8(needles.last()))
    }
}

/// Every match of the regular expressions (first) and of the plain strings
/// (then) in `line`, as byte ranges.
pub open spec fn line_matches(pats: Seq<Seq<char>>, needles: Seq<Seq<char>>, line: Seq<char>) -> Seq<(int, int)> {
    regex_ranges_all(pats, line) + needle_ranges_all(encode_utf8(line), needles)
}

/// Every range lies in `bytes` on character boundaries.
pub open spec fn all_on_boundaries(bytes: Seq<u8>, s: Seq<(int, int)>) -> bool {
    forall|k: int| 0 <= k < s.len() ==> #[trigger] on_char_boundaries(bytes, s[k].0, s[k].1)
}

/// The merge of the ranges `ms`: the one sequence of ranges that
/// `is_merge_of` describes (see `lemma_merge_unique`).
pub open spec fn merged_ranges(ms: Seq<(int, int)>) -> Seq<(int, int)> {
    choose|rs: Seq<(int, int)>| is_merge_of(rs, ms)
}

/// What the search of one line found.
pub struct MatchResult {
    /// The line is to be skipped (it matched while inverse output is asked).
    pub b_continue: bool,
    /// Some pattern or string matched the line.
    pub b_found: bool,
    /// The merged byte ranges to highlight.
    pub ranges: Vec<(usize, usize)>,
}

/// Every match of every pattern is among the matches of all the patterns.
proof fn lemma_regex_match_member(pats: Seq<Seq<char>>, line: Seq<char>, i: int, k: int)
    requires
        0 <= i < pats.len(),
        0 <= k < regex_match_ranges(pats[i], line).len(),
    ensures
        regex_ranges_all(pats, line).contains(regex_match_ranges(pats[i], line)[k]),
    decreases pats.len(),
{
    let before = regex_ranges_all(pats.drop_last(), line);
    let last = regex_match_ranges(pats.last(), line);
    if i == pats.len() - 1 {
        assert((before + last)[before.len() + k] == last[k]);
    } else {
        assert(pats.drop_last()[i] == pats[i]);
        lemma_regex_match_member(pats.drop_last(), line, i, k);
        let j = choose|j: int| 0 <= j < before.len() && before[j] == regex_match_ranges(pats[i], line)[k];
        assert((before + last)[j] == before[j]);
    }
}

/// Every occurrence of every plain string is among the matches of all the
/// strings.
proof fn lemma_needle_member(h: Seq<u8>, needles: Seq<Seq<char>>, i: int, k: int)
    requires
        0 <= i < needles.len(),
        0 <= k < occurrences_from(h, encode_utf8(needles[i]), 0).len(),
    ensures
        needle_ranges_all(h, needles).contains(
            (occurrences_from(h, encode_utf8(needles[i]), 0)[k],
             occurrences_from(h, encode_utf8(needles[i]), 0)[k] + encode_utf8(needles[i]).len()),
        ),
    decreases needles.len(),
{
    let nb = encode_utf8(needles[i]);
    let occ = occurrences_from(h, nb, 0);
    let m = (occ[k], occ[k] + nb.len());
    let before = needle_ranges_all(h, needles.drop_last());
    let last = needle_ranges(h, encode_utf8(needles.last()));
    if i == needles.len() - 1 {
        assert(nb.len() > 0);
        assert(last[k] == m);
        assert((before + last)[before.len() + k] == m);
    } else {
        assert(needles.drop_last()[i] == needles[i]);
        lemma_needle_member(h, needles.drop_last(), i, k);
        let j = choose|j: int| 0 <= j < before.len() && before[j] == m;
        assert((before + last)[j] == m);
    }
}

/// Every match in a line, of every regular expression and of every plain
/// string, is highlighted: a merge of the line's matches has a range that
/// covers it.
pub proof fn law_every_match_highlighted(rs: Seq<(int, int)>, pats: Seq<Seq<char>>, needles: Seq<Seq<char>>, line: Seq<char>)
    requires
        is_merge_of(rs, line_matches(pats, needles, line)),
    ensures
        forall|i: int, k: int|
            0 <= i < pats.len() && 0 <= k < regex_match_ranges(pats[i], line).len()
                ==> covered_by_some(rs, #[trigger] regex_match_ranges(pats[i], line)[k]),
        forall|i: int, k: int|
            0 <= i < needles.len() && 0 <= k < occurrences_from(encode_utf8(line), encode_utf8(needles[i]), 0).len()
                ==> covered_by_some(
                rs,
                (#[trigger] occurrences_from(encode_utf8(line), encode_utf8(needles[i]), 0)[k],
                 occurrences_from(encode_utf8(line), encode_utf8(needles[i]), 0)[k] + encode_utf8(needles[i]).len()),
            ),
{
    let ms = line_matches(pats, needles, line);
    let ra = regex_ranges_all(pats, line);
    let na = needle_ranges_all(encode_utf8(line), needles);
    reveal(all_covered);
    assert forall|i: int, k: int|
        0 <= i < pats.len() && 0 <= k < regex_match_ranges(pats[i], line).len()
            implies covered_by_some(rs, #[trigger] regex_match_ranges(pats[i], line)[k]) by {
        lemma_regex_match_member(pats, line, i, k);
        let j = choose|j: int| 0 <= j < ra.len() && ra[j] == regex_match_ranges(pats[i], line)[k];
        assert(ms[j] == ra[j]);
        assert(covered_by_some(rs, ms[j]));
    }
    assert forall|i: int, k: int|
        0 <= i < needles.len() && 0 <= k < occurrences_from(encode_utf8(line), encode_utf8(needles[i]), 0).len()
            implies covered_by_some(
            rs,
            (#[trigger] occurrences_from(encode_utf8(line), encode_utf8(needles[i]), 0)[k],
             occurrences_from(encode_utf8(line), encode_utf8(needles[i]), 0)[k] + encode_utf8(needles[i]).len()),
        ) by {
        lemma_needle_member(encode_utf8(line), needles, i, k);
        let occ = occurrences_from(encode_utf8(line), encode_utf8(needles[i]), 0);
        let m = (occ[k], occ[k] + encode_utf8(needles[i]).len());
        let j = choose|j: int| 0 <= j < na.len() && na[j] == m;
        assert(ms[ra.len() + j] == na[j]);
        assert(covered_by_some(rs, ms[ra.len() + j]));
    }
}

/// A line without any match has no match of any pattern or string.
proof fn lemma_no_match_anywhere(pats: Seq<Seq<char>>, needles: Seq<Seq<char>>, line: Seq<char>)
    requires
        line_matches(pats, needles, line).len() == 0,
    ensures
        forall|i: int| 0 <= i < pats.len() ==> (#[trigger] regex_match_ranges(pats[i], line)).len() == 0,
        forall|i: int| 0 <= i < needles.len()
            ==> (#[trigger] occurrences_from(encode_utf8(line), encode_utf8(needles[i]), 0)).len() == 0,
{
    assert forall|i: int| 0 <= i < pats.len() implies (#[trigger] regex_match_ranges(pats[i], line)).len() == 0 by {
        if regex_match_ranges(pats[i], line).len() > 0 {
            lemma_regex_match_member(pats, line, i, 0);
        }
    }
    assert forall|i: int| 0 <= i < needles.len()
        implies (#[trigger] occurrences_from(encode_utf8(line), encode_utf8(needles[i]), 0)).len() == 0 by {
        if occurrences_from(encode_utf8(line), encode_utf8(needles[i]), 0).len() > 0 {
            lemma_needle_member(encode_utf8(line), needles, i, 0);
        }
    }
}

/// The matches of the patterns taken so far lead the matches of all of them.
proof fn lemma_regex_prefix(pats: Seq<Seq<char>>, line: Seq<char>, j: int)
    requires
        0 <= j <= pats.len(),
    ensures
        regex_ranges_all(pats.take(j), line).len() <= regex_ranges_all(pats, line).len(),
    decreases pats.len() - j,
{
    if j < pats.len() {
        lemma_regex_prefix(pats, line, j + 1);
        assert(pats.take(j + 1).drop_last() =~= pats.take(j));
    } else {
        assert(pats.take(j) =~= pats);
    }
}

/// The same for the needles.
proof fn lemma_needle_prefix(h: Seq<u8>, needles: Seq<Seq<char>>, j: int)
    requires
        0 <= j <= needles.len(),
    ensures
        needle_ranges_all(h, needles.take(j)).len() <= needle_ranges_all(h, needles).len(),
    decreases needles.len() - j,
{
    if j < needles.len() {
        lemma_needle_prefix(h, needles, j + 1);
        assert(needles.take(j + 1).drop_last() =~= needles.take(j));
    } else {
        assert(needles.take(j) =~= needles);
    }
}

/// A non-empty string has a non-empty encoding.
proof fn lemma_encode_nonempty(s: Seq<char>)
    ensures
        s.len() > 0 ==> encode_utf8(s).len() > 0,
{
    if s.len() > 0 {
        reveal_with_fuel(encode_utf8, 1);
        assert(encode_scalar(s[0] as u32).len() > 0);
    }
}

/// Merged ranges start and end where matches start and end, so they lie on
/// the character boundaries of the line, in order.
proof fn lemma_merge_on_boundaries(lb: Seq<u8>, rs: Seq<(int, int)>, ms: Seq<(int, int)>)
    requires
        is_merge_of(rs, ms),
        all_on_boundaries(lb, ms),
    ensures
        chained_within(rs, 0, lb.len() as int),
        ranges_on_boundaries(lb, rs),
{
    reveal(chained_within);
    reveal(ranges_on_boundaries);
    reveal(strictly_apart);
    reveal(starts_at_members);
    reveal(ends_at_members);
    assert forall|k: int| 0 <= k < rs.len() implies 0 <= (#[trigger] rs[k]).0 <= rs[k].1 <= lb.len()
        && is_char_boundary(lb, rs[k].0) && is_char_boundary(lb, rs[k].1) by {
        assert(start_witnessed(ms, rs[k]));
        assert(end_witnessed(ms, rs[k]));
        let j = choose|j: int| 0 <= j < ms.len() && (#[trigger] ms[j]).0 == rs[k].0 && covers(rs[k], ms[j]);
        let j2 = choose|j: int| 0 <= j < ms.len() && (#[trigger] ms[j]).1 == rs[k].1 && covers(rs[k], ms[j]);
        assert(on_char_boundaries(lb, ms[j].0, ms[j].1));
        assert(on_char_boundaries(lb, ms[j2].0, ms[j2].1));
    }
    assert forall|k: int| 0 <= k < rs.len() - 1 implies (#[trigger] rs[k]).1 <= rs[k + 1].0 by {
        assert(rs[k].1 < rs[k + 1].0);
    }
}

/// Having no ranges satisfies what highlighting asks of ranges.
proof fn lemma_no_ranges(lb: Seq<u8>, v: Seq<(usize, usize)>)
    requires
        v.len() == 0,
    ensures
        chained_within(as_int_ranges(v), 0, lb.len() as int),
        ranges_on_boundaries(lb, as_int_ranges(v)),
{
    reveal(chained_within);
    reveal(ranges_on_boundaries);
}

/// The result for a line that the inverse search skips.
fn skipped_line() -> (r: MatchResult)
    ensures
        r.b_continue && r.b_found,
        r.ranges@.len() == 0,
{
    MatchResult { b_continue: true, b_found: true, ranges: Vec::new() }
}

/// Searches `line_ss` for every regular expression and every plain string.
/// In inverse mode the search stops at the first match and the line is to
/// be skipped; otherwise the matches are merged into the ranges to
/// highlight.
pub fn make_line_color_mark(
    regs: &Vec<RegexMatcher>,
    opt_str: &Vec<String>,
    flg_inverse: bool,
    line_ss: &str,
) -> (r: MatchResult)
    requires
        flg_inverse || forall|i: int| 0 <= i < opt_str@.len() ==> (#[trigger] opt_str@[i])@.len() > 0,
    ensures
        ({
            let ms = line_matches(patterns_of(regs@), texts_of(opt_str@), line_ss@);
            &&& r.b_found == (ms.len() > 0)
            &&& r.b_continue == (flg_inverse && r.b_found)
            &&& (flg_inverse || !r.b_found) ==> r.ranges@.len() == 0
            &&& (!flg_inverse && r.b_found) ==> is_merge_of(as_int_ranges(r.ranges@), ms)
            &&& (!flg_inverse && r.b_found) ==> as_int_ranges(r.ranges@) == merged_ranges(ms)
        }),
        !flg_inverse ==> forall|i: int, k: int|
            0 <= i < regs@.len() && 0 <= k < regex_match_ranges(regs@[i]@, line_ss@).len()
                ==> covered_by_some(as_int_ranges(r.ranges@), #[trigger] regex_match_ranges(regs@[i]@, line_ss@)[k]),
        !flg_inverse ==> forall|i: int, k: int|
            0 <= i < opt_str@.len() && 0 <= k < occurrences_from(line_ss.spec_bytes(), encode_utf8(opt_str@[i]@), 0).len()
                ==> covered_by_some(
                as_int_ranges(r.ranges@),
                (#[trigger] occurrences_from(line_ss.spec_bytes(), encode_utf8(opt_str@[i]@), 0)[k],
                 occurrences_from(line_ss.spec_bytes(), encode_utf8(opt_str@[i]@), 0)[k] + encode_utf8(opt_str@[i]@).len()),
            ),
        chained_within(as_int_ranges(r.ranges@), 0, line_ss.spec_bytes().len() as int),
        ranges_on_boundaries(line_ss.spec_bytes(), as_int_ranges(r.ranges@)),
{
    let ghost pats = patterns_of(regs@);
    let ghost needles = texts_of(opt_str@);
    let ghost lb = line_ss.spec_bytes();
    let ghost ms = line_matches(pats, needles, line_ss@);
    let line_bytes = line_ss.as_bytes();
    let line_len = line_bytes.len();
    let mut matches: Vec<(usize, usize)> = Vec::new();
    let nr = regs.len();
    let mut i: usize = 0;
    assert(pats.take(0) =~= Seq::<Seq<char>>::empty());
    while i < nr
        invariant
            nr == regs@.len(),
            pats == patterns_of(regs@),
            lb == line_ss.spec_bytes(),
            i <= nr,
            as_int_ranges(matches@) == regex_ranges_all(pats.take(i as int), line_ss@),
            all_on_boundaries(lb, as_int_ranges(matches@)),
            flg_inverse ==> matches@.len() == 0,
        decreases nr - i,
    {
        let mut found = regs[i].find_ranges(line_ss);
        proof {
            assert(pats.take(i + 1).drop_last() =~= pats.take(i as int));
            assert(pats.take(i + 1).last() == regs@[i as int]@);
            assert(as_int_ranges(found@) == regex_match_ranges(regs@[i as int]@, line_ss@));
        }
        if flg_inverse && found.len() > 0 {
            proof {
                lemma_regex_prefix(pats, line_ss@, i + 1);
            }
            let r = skipped_line();
            proof {
                lemma_no_ranges(lb, r.ranges@);
            }
            return r;
        }
        let ghost before = matches@;
        let ghost fv = found@;
        matches.append(&mut found);
        proof {
            assert(as_int_ranges(matches@) =~= as_int_ranges(before) + as_int_ranges(fv));
            assert forall|k: int| 0 <= k < matches@.len() implies #[trigger] on_char_boundaries(lb, as_int_ranges(matches@)[k].0, as_int_ranges(matches@)[k].1) by {
                if k < before.len() {
                    assert(as_int_ranges(matches@)[k] == as_int_ranges(before)[k]);
                } else {
                    assert(as_int_ranges(matches@)[k] == as_int_ranges(fv)[k - before.len()]);
                    assert(on_char_boundaries(lb, fv[k - before.len()].0 as int, fv[k - before.len()].1 as int));
                }
            }
        }
        i = i + 1;
    }
    assert(pats.take(nr as int) =~= pats);
    let ghost regex_part = as_int_ranges(matches@);
    let ns = opt_str.len();
    let mut i: usize = 0;
    assert(needles.take(0) =~= Seq::<Seq<char>>::empty());
    while i < ns
        invariant
            ns == opt_str@.len(),
            needles == texts_of(opt_str@),
            lb == line_ss.spec_bytes(),
            line_len == lb.len(),
            regex_part == regex_ranges_all(pats, line_ss@),
            i <= ns,
            as_int_ranges(matches@) == regex_part + needle_ranges_all(lb, needles.take(i as int)),
            all_on_boundaries(lb, as_int_ranges(matches@)),
            flg_inverse ==> matches@.len() == 0,
            flg_inverse || forall|i: int| 0 <= i < opt_str@.len() ==> (#[trigger] opt_str@[i])@.len() > 0,
        decreases ns - i,
    {
        let needle: &str = opt_str[i].as_str();
        let nlen = needle.as_bytes().len();
        let ghost nb = needle.spec_bytes();
        proof {
            assert(needles.take(i + 1).drop_last() =~= needles.take(i as int));
            assert(needles.take(i + 1).last() == opt_str@[i as int]@);
            assert(nb == encode_utf8(needles.take(i + 1).last()));
            assert(needle_ranges_all(lb, needles.take(i + 1))
                == needle_ranges_all(lb, needles.take(i as int)) + needle_ranges(lb, nb));
        }
        if nlen == 0 {
            proof {
                lemma_encode_nonempty(opt_str@[i as int]@);
                lemma_needle_prefix(lb, needles, i + 1);
            }
            let r = skipped_line();
            proof {
                lemma_no_ranges(lb, r.ranges@);
            }
            return r;
        }
        let starts = find_needle(line_ss, needle);
        if flg_inverse && starts.len() > 0 {
            proof {
                assert(needle_ranges(lb, nb).len() == starts@.len());
                lemma_needle_prefix(lb, needles, i + 1);
            }
            let r = skipped_line();
            proof {
                lemma_no_ranges(lb, r.ranges@);
            }
            return r;
        }
        let ghost before = matches@;
        let nst = starts.len();
        let mut j: usize = 0;
        while j < nst
            invariant
                nst == starts@.len(),
                j <= nst,
                nlen == nb.len(),
                nb.len() > 0,
                line_len == lb.len(),
                lb == line_ss.spec_bytes(),
                starts@.map_values(|x: usize| x as int) == occurrences_from(lb, nb, 0),
                forall|k: int| 0 <= k < starts@.len() ==> #[trigger] on_char_boundaries(lb, starts@[k] as int, starts@[k] + nb.len()),
                as_int_ranges(matches@) == as_int_ranges(before) + needle_ranges(lb, nb).take(j as int),
                all_on_boundaries(lb, as_int_ranges(matches@)),
            decreases nst - j,
        {
            let st = starts[j];
            proof {
                assert(on_char_boundaries(lb, starts@[j as int] as int, starts@[j as int] + nb.len()));
                assert(starts@.map_values(|x: usize| x as int)[j as int] == st as int);
            }
            let ghost prev = matches@;
            matches.push((st, st + nlen));
            proof {
                let nr = needle_ranges(lb, nb);
                assert(nr[j as int] == (st as int, st + nlen));
                assert(nr.take(j + 1) =~= nr.take(j as int).push(nr[j as int]));
                assert(as_int_ranges(matches@) =~= as_int_ranges(prev).push((st as int, st + nlen)));
                assert forall|k: int| 0 <= k < matches@.len() implies #[trigger] on_char_boundaries(lb, as_int_ranges(matches@)[k].0, as_int_ranges(matches@)[k].1) by {
                    if k < prev.len() {
                        assert(as_int_ranges(matches@)[k] == as_int_ranges(prev)[k]);
                    }
                }
            }
            j = j + 1;
        }
        proof {
            assert(needle_ranges(lb, nb).len() == nst);
            assert(needle_ranges(lb, nb).take(nst as int) =~= needle_ranges(lb, nb));
        }
        i = i + 1;
    }
    assert(needles.take(ns as int) =~= needles);
    assert(as_int_ranges(matches@) == ms);
    if matches.len() == 0 || flg_inverse {
        let r = MatchResult { b_continue: false, b_found: matches.len() > 0, ranges: Vec::new() };
        proof {
            lemma_no_ranges(lb, r.ranges@);
            if !flg_inverse {
                lemma_no_match_anywhere(pats, needles, line_ss@);
                assert forall|i: int| 0 <= i < regs@.len() implies #[trigger] regs@[i]@ == pats[i] by {}
                assert forall|i: int| 0 <= i < opt_str@.len() implies #[trigger] opt_str@[i]@ == needles[i] by {}
            }
        }
        return r;
    }
    let sorted = sort_by_start(&matches);
    proof {
        let sv = as_int_ranges(sorted@);
        assert forall|k: int| 0 <= k < sv.len() implies (#[trigger] sv[k]).0 <= sv[k].1 by {
            assert(sv.contains(sv[k]));
            assert(ms.contains(sv[k]));
            let m = choose|m: int| 0 <= m < ms.len() && ms[m] == sv[k];
            assert(on_char_boundaries(lb, ms[m].0, ms[m].1));
        }
    }
    let merged = merge_sorted(&sorted);
    proof {
        let mv = as_int_ranges(merged@);
        lemma_merge_same_members(mv, as_int_ranges(sorted@), ms);
        lemma_merge_on_boundaries(lb, mv, ms);
        assert forall|k: int| 0 <= k < ms.len() implies (#[trigger] ms[k]).0 <= ms[k].1 by {
            assert(on_char_boundaries(lb, ms[k].0, ms[k].1));
        }
        assert(is_merge_of(merged_ranges(ms), ms));
        lemma_merge_unique(mv, merged_ranges(ms), ms);
        law_every_match_highlighted(mv, pats, needles, line_ss@);
        assert forall|i: int| 0 <= i < regs@.len() implies #[trigger] regs@[i]@ == pats[i] by {}
        assert forall|i: int| 0 <= i < opt_str@.len() implies #[trigger] opt_str@[i]@ == needles[i] by {}
    }
    MatchResult { b_continue: false, b_found: true, ranges: merged }
}

/// The matches of the configured patterns and strings in `line`.
pub open spec fn conf_matches(conf: CmdOptConf, line: Seq<char>) -> Seq<(int, int)> {
    line_matches(texts_of(conf.opt_exp@), texts_of(conf.opt_str@), line)
}

/// Some configured pattern or string matches `line`.
pub open spec fn line_found(conf: CmdOptConf, line: Seq<char>) -> bool {
    conf_matches(conf, line).len() > 0
}

/// The line as printed when it matches: with the color sequences around the
/// merged matches when colors are always on, else as it is.
pub open spec fn shown_line(conf: CmdOptConf, env: EnvConf, line: Seq<char>) -> Seq<char> {
    if conf.opt_color == OptColorWhen::Always {
        decode_utf8(
            marked_bytes(
                encode_utf8(line),
                encode_utf8(env.color_seq_start@),
                encode_utf8(env.color_seq_end@),
                merged_ranges(conf_matches(conf, line)),
                0,
            ),
        )
    } else {
        line
    }
}

/// The state carried from line to line: the lines held back before a
/// match, the lines collected after one, and whether a match was printed
/// and its following lines are being collected.
pub type AroundState = (Seq<Seq<char>>, Seq<Seq<char>>, bool);

/// The state before the first line.
pub open spec fn initial_state() -> AroundState {
    (Seq::empty(), Seq::empty(), false)
}

/// What one input line does: the next state and the lines printed.
///
/// In inverse mode a line is printed exactly when nothing matches it.
/// Otherwise a matching line is printed (after the lines held back before
/// it); with `--around n` a line that does not match is either collected
/// after a match (and, once `n` are collected, they are printed with an
/// empty line after them) or held back (only the last `n` are kept).
pub open spec fn step_spec(s: AroundState, conf: CmdOptConf, env: EnvConf, line: Seq<char>) -> (AroundState, Seq<Seq<char>>) {
    let found = line_found(conf, line);
    let n = conf.opt_around.0 as int;
    if conf.flg_inverse {
        if found {
            (s, Seq::empty())
        } else {
            (s, seq![line])
        }
    } else if found {
        ((Seq::empty(), s.1, true), s.0.push(shown_line(conf, env, line)))
    } else if n == 0 {
        (s, Seq::empty())
    } else if s.2 {
        let nexts = s.1.push(line);
        if nexts.len() >= n {
            ((s.0, Seq::empty(), false), nexts.push(Seq::empty()))
        } else {
            ((s.0, nexts, true), Seq::empty())
        }
    } else {
        let prevs = s.0.push(line);
        if prevs.len() > n {
            ((prevs.drop_first(), s.1, false), Seq::empty())
        } else {
            ((prevs, s.1, false), Seq::empty())
        }
    }
}

/// The state after the lines and all the lines printed for them.
pub open spec fn run_spec(s: AroundState, conf: CmdOptConf, env: EnvConf, lines: Seq<Seq<char>>) -> (AroundState, Seq<Seq<char>>)
    decreases lines.len(),
{
    if lines.len() == 0 {
        (s, Seq::empty())
    } else {
        let before = run_spec(s, conf, env, lines.drop_last());
        let after = step_spec(before.0, conf, env, lines.last());
        (after.0, before.1 + after.1)
    }
}

/// What a line needs of the configuration: the compiled patterns are those
/// of `-e`, and, unless the output is inverse, no plain string is empty.
pub open spec fn ready_for_lines(conf: CmdOptConf, regs: Seq<RegexMatcher>) -> bool {
    &&& patterns_of(regs) == texts_of(conf.opt_exp@)
    &&& conf.flg_inverse || forall|i: int| 0 <= i < conf.opt_str@.len() ==> (#[trigger] conf.opt_str@[i])@.len() > 0
}

/// The state of the filter between lines.
pub struct MatchProc {
    prevs: Vec<String>,
    nexts: Vec<String>,
    prev_found: bool,
}

impl View for MatchProc {
    type V = AroundState;

    closed spec fn view(&self) -> AroundState {
        (texts_of(self.prevs@), texts_of(self.nexts@), self.prev_found)
    }
}

/// Moves the strings of `from` to the end of `to`.
fn move_all(to: &mut Vec<String>, from: &mut Vec<String>)
    ensures
        texts_of(final(to)@) == texts_of(old(to)@) + texts_of(old(from)@),
        final(from)@.len() == 0,
{
    let ghost a = to@;
    let ghost b = from@;
    to.append(from);
    assert(texts_of(to@) =~= texts_of(a) + texts_of(b));
}

impl MatchProc {
    /// The filter before the first line.
    pub fn new() -> (r: MatchProc)
        ensures
            r@ == initial_state(),
    {
        let r = MatchProc { prevs: Vec::new(), nexts: Vec::new(), prev_found: false };
        assert(texts_of(r.prevs@) =~= Seq::<Seq<char>>::empty());
        assert(texts_of(r.nexts@) =~= Seq::<Seq<char>>::empty());
        r
    }

    /// Takes the next input line and returns the lines to print for it.
    pub fn feed_line(&mut self, conf: &CmdOptConf, env: &EnvConf, regs: &Vec<RegexMatcher>, line: String) -> (out: Vec<String>)
        requires
            ready_for_lines(*conf, regs@),
        ensures
            (final(self)@, texts_of(out@)) == step_spec(old(self)@, *conf, *env, line@),
    {
        let ghost s0 = self@;
        let res = make_line_color_mark(regs, &conf.opt_str, conf.flg_inverse, line.as_str());
        let mut out: Vec<String> = Vec::new();
        assert(texts_of(out@) =~= Seq::<Seq<char>>::empty());
        if res.b_continue {
            return out;
        }
        if conf.flg_inverse && !res.b_found {
            out.push(line);
            assert(texts_of(out@) =~= seq![line@]);
            return out;
        }
        if res.b_found {
            move_all(&mut out, &mut self.prevs);
            self.prev_found = true;
            let shown = match conf.opt_color {
                OptColorWhen::Always => {
                    let s = make_out_s(
                        env.color_seq_start.as_str(),
                        env.color_seq_end.as_str(),
                        line.as_str(),
                        &res.ranges,
                    );
                    proof {
                        encode_utf8_decode_utf8(s@);
                    }
                    s
                },
                _ => line,
            };
            let ghost before = out@;
            out.push(shown);
            assert(texts_of(out@) =~= texts_of(before).push(shown@));
            assert(texts_of(self.prevs@) =~= Seq::<Seq<char>>::empty());
        } else if !conf.opt_around.is_empty() {
            if self.prev_found {
                let ghost before = self.nexts@;
                self.nexts.push(line);
                assert(texts_of(self.nexts@) =~= texts_of(before).push(line@));
                if self.nexts.len() >= conf.opt_around.num() {
                    move_all(&mut out, &mut self.nexts);
                    let ghost b2 = out@;
                    out.push(String::new());
                    assert(texts_of(out@) =~= texts_of(b2).push(Seq::empty()));
                    assert(texts_of(self.nexts@) =~= Seq::<Seq<char>>::empty());
                    self.prev_found = false;
                }
            } else {
                let ghost before = self.prevs@;
                self.prevs.push(line);
                assert(texts_of(self.prevs@) =~= texts_of(before).push(line@));
                if self.prevs.len() > conf.opt_around.num() {
                    let ghost b2 = self.prevs@;
                    let _ = self.prevs.remove(0);
                    assert(texts_of(self.prevs@) =~= texts_of(b2).drop_first());
                }
            }
        }
        out
    }
}

/// The `i`-th pattern is the first that `regex` refuses.
pub open spec fn first_refused(pats: Seq<Seq<char>>, i: int) -> bool {
    &&& 0 <= i < pats.len()
    &&& !regex_accepts(pats[i])
    &&& forall|j: int| 0 <= j < i ==> regex_accepts(#[trigger] pats[j])
}

/// Compiles the patterns of `-e` in order; the first that `regex` refuses
/// gives the error, as the text `regex` displays for it.
pub fn compile_patterns(opt_exp: &Vec<String>) -> (r: Result<Vec<RegexMatcher>, String>)
    ensures
        r is Ok <==> forall|i: int| 0 <= i < opt_exp@.len() ==> regex_accepts(#[trigger] opt_exp@[i]@),
        r matches Ok(v) ==> patterns_of(v@) == texts_of(opt_exp@),
        r matches Err(e) ==> exists|i: int|
            first_refused(texts_of(opt_exp@), i) && e@ == regex_error_text(#[trigger] opt_exp@[i]@),
{
    let mut regs: Vec<RegexMatcher> = Vec::new();
    let n = opt_exp.len();
    let mut i: usize = 0;
    while i < n
        invariant
            n == opt_exp@.len(),
            i <= n,
            patterns_of(regs@) == texts_of(opt_exp@.take(i as int)),
            forall|k: int| 0 <= k < i ==> regex_accepts(#[trigger] opt_exp@[k]@),
        decreases n - i,
    {
        match RegexMatcher::compile(opt_exp[i].as_str()) {
            Ok(m) => {
                let ghost before = regs@;
                regs.push(m);
                assert(opt_exp@.take(i + 1) =~= opt_exp@.take(i as int).push(opt_exp@[i as int]));
                assert(patterns_of(regs@) =~= patterns_of(before).push(m@));
                assert(texts_of(opt_exp@.take(i + 1)) =~= texts_of(opt_exp@.take(i as int)).push(opt_exp@[i as int]@));
            },
            Err(e) => {
                assert(first_refused(texts_of(opt_exp@), i as int));
                return Err(e);
            },
        }
        i = i + 1;
    }
    assert(opt_exp@.take(n as int) =~= opt_exp@);
    Ok(regs)
}

/// An error of the filter.
#[derive(Debug)]
pub enum MlineError {
    /// A pattern of `-e` is not a regular expression `regex` accepts: the
    /// text of `regex`'s error for the first such pattern.
    Regex(String),
}

/// Filters the lines: compiles the patterns, then takes the lines one by one
/// and returns all the lines printed.
pub fn run_lines(conf: &CmdOptConf, env: &EnvConf, lines: &Vec<String>) -> (r: Result<Vec<String>, MlineError>)
    requires
        conf.flg_inverse || forall|i: int| 0 <= i < conf.opt_str@.len() ==> (#[trigger] conf.opt_str@[i])@.len() > 0,
    ensures
        r is Ok <==> forall|i: int| 0 <= i < conf.opt_exp@.len() ==> regex_accepts(#[trigger] conf.opt_exp@[i]@),
        r matches Ok(out) ==> texts_of(out@) == run_spec(initial_state(), *conf, *env, texts_of(lines@)).1,
        r matches Err(MlineError::Regex(e)) ==> exists|i: int|
            first_refused(texts_of(conf.opt_exp@), i) && e@ == regex_error_text(#[trigger] conf.opt_exp@[i]@),
{
    let regs = match compile_patterns(&conf.opt_exp) {
        Ok(v) => v,
        Err(e) => {
            return Err(MlineError::Regex(e));
        },
    };
    let mut proc = MatchProc::new();
    let mut out: Vec<String> = Vec::new();
    let n = lines.len();
    let mut i: usize = 0;
    assert(texts_of(lines@).take(0) =~= Seq::<Seq<char>>::empty());
    assert(texts_of(out@) =~= Seq::<Seq<char>>::empty());
    while i < n
        invariant
            n == lines@.len(),
            i <= n,
            ready_for_lines(*conf, regs@),
            (proc@, texts_of(out@)) == run_spec(initial_state(), *conf, *env, texts_of(lines@).take(i as int)),
        decreases n - i,
    {
        let line = lines[i].clone();
        let mut printed = proc.feed_line(conf, env, &regs, line);
        let ghost before = out@;
        let ghost pv = printed@;
        out.append(&mut printed);
        proof {
            let tl = texts_of(lines@);
            assert(tl.take(i + 1).drop_last() =~= tl.take(i as int));
            assert(tl.take(i + 1).last() == lines@[i as int]@);
            assert(texts_of(out@) =~= texts_of(before) + texts_of(pv));
        }
        i = i + 1;
    }
    assert(texts_of(lines@).take(n as int) =~= texts_of(lines@));
    Ok(out)
}

/// In inverse mode the filter prints exactly the lines that nothing
/// matches, in order, and `--around` has no effect.
pub proof fn law_inverse_prints_non_matching(s: AroundState, conf: CmdOptConf, env: EnvConf, lines: Seq<Seq<char>>)
    requires
        conf.flg_inverse,
    ensures
        run_spec(s, conf, env, lines) == (s, lines.filter(|l: Seq<char>| !line_found(conf, l))),
    decreases lines.len(),
{
    reveal_with_fuel(Seq::filter, 1);
    if lines.len() > 0 {
        law_inverse_prints_non_matching(s, conf, env, lines.drop_last());
        let f = lines.drop_last().filter(|l: Seq<char>| !line_found(conf, l));
        if line_found(conf, lines.last()) {
            assert(f + Seq::<Seq<char>>::empty() =~= f);
        } else {
            assert(f + seq![lines.last()] =~= f.push(lines.last()));
        }
    }
}

/// Without `--around` (and not inverse) the filter prints exactly the
/// matching lines, in order, each as `shown_line` gives it, and holds no
/// line back.
pub proof fn law_without_context_prints_matching(conf: CmdOptConf, env: EnvConf, lines: Seq<Seq<char>>)
    requires
        !conf.flg_inverse,
        conf.opt_around.0 == 0,
    ensures
        run_spec(initial_state(), conf, env, lines).1
            == lines.filter(|l: Seq<char>| line_found(conf, l)).map_values(|l: Seq<char>| shown_line(conf, env, l)),
        run_spec(initial_state(), conf, env, lines).0.0 == Seq::<Seq<char>>::empty(),
        run_spec(initial_state(), conf, env, lines).0.1 == Seq::<Seq<char>>::empty(),
    decreases lines.len(),
{
    reveal_with_fuel(Seq::filter, 1);
    if lines.len() > 0 {
        law_without_context_prints_matching(conf, env, lines.drop_last());
        let f = lines.drop_last().filter(|l: Seq<char>| line_found(conf, l));
        let before = run_spec(initial_state(), conf, env, lines.drop_last());
        if line_found(conf, lines.last()) {
            assert(before.0.0.push(shown_line(conf, env, lines.last())) =~= seq![shown_line(conf, env, lines.last())]);
            assert(f.push(lines.last()).map_values(|l: Seq<char>| shown_line(conf, env, l))
                =~= f.map_values(|l: Seq<char>| shown_line(conf, env, l)) + seq![shown_line(conf, env, lines.last())]);
        } else {
            assert(before.1 + Seq::<Seq<char>>::empty() =~= before.1);
        }
    }
}

/// With `--around n`, at most `n` lines are held back before a match and
/// fewer than `n` are collected after one.
pub proof fn law_context_is_bounded(conf: CmdOptConf, env: EnvConf, lines: Seq<Seq<char>>)
    requires
        conf.opt_around.0 > 0,
    ensures
        run_spec(initial_state(), conf, env, lines).0.0.len() <= conf.opt_around.0,
        run_spec(initial_state(), conf, env, lines).0.1.len() < conf.opt_around.0,
    decreases lines.len(),
{
    if lines.len() > 0 {
        law_context_is_bounded(conf, env, lines.drop_last());
    }
}

/// Outside inverse mode, every matching line is printed.
pub proof fn law_matching_lines_printed(s: AroundState, conf: CmdOptConf, env: EnvConf, lines: Seq<Seq<char>>, i: int)
    requires
        !conf.flg_inverse,
        0 <= i < lines.len(),
        line_found(conf, lines[i]),
    ensures
        run_spec(s, conf, env, lines).1.contains(shown_line(conf, env, lines[i])),
    decreases lines.len(),
{
    let before = run_spec(s, conf, env, lines.drop_last());
    let after = step_spec(before.0, conf, env, lines.last());
    let shown = shown_line(conf, env, lines[i]);
    if i == lines.len() - 1 {
        assert(after.1 == before.0.0.push(shown));
        assert(after.1[after.1.len() - 1] == shown);
        assert((before.1 + after.1)[before.1.len() + after.1.len() - 1] == shown);
    } else {
        assert(lines.drop_last()[i] == lines[i]);
        law_matching_lines_printed(s, conf, env, lines.drop_last(), i);
        let k = choose|k: int| 0 <= k < before.1.len() && before.1[k] == shown;
        assert((before.1 + after.1)[k] == shown);
    }
}

/// A printed line comes from the input: it is the empty separator, an input
/// line, or an input line as `shown_line` shows it.
pub open spec fn from_input(conf: CmdOptConf, env: EnvConf, lines: Seq<Seq<char>>, x: Seq<char>) -> bool {
    ||| x.len() == 0
    ||| lines.contains(x)
    ||| lines.map_values(|l: Seq<char>| shown_line(conf, env, l)).contains(x)
}

/// What is printed from a prefix of the lines also comes from the lines.
proof fn lemma_from_input_grows(conf: CmdOptConf, env: EnvConf, lines: Seq<Seq<char>>, x: Seq<char>)
    requires
        lines.len() > 0,
        from_input(conf, env, lines.drop_last(), x),
    ensures
        from_input(conf, env, lines, x),
{
    let p = lines.drop_last();
    if p.contains(x) {
        let j = choose|j: int| 0 <= j < p.len() && p[j] == x;
        assert(lines[j] == x);
    } else if p.map_values(|l: Seq<char>| shown_line(conf, env, l)).contains(x) {
        let pm = p.map_values(|l: Seq<char>| shown_line(conf, env, l));
        let j = choose|j: int| 0 <= j < pm.len() && pm[j] == x;
        assert(lines.map_values(|l: Seq<char>| shown_line(conf, env, l))[j] == x);
    }
}

/// The lines held in the state and all the lines printed come from the input.
proof fn lemma_printed_from_input(conf: CmdOptConf, env: EnvConf, lines: Seq<Seq<char>>)
    ensures
        ({
            let r = run_spec(initial_state(), conf, env, lines);
            &&& forall|k: int| 0 <= k < r.0.0.len() ==> lines.contains(#[trigger] r.0.0[k])
            &&& forall|k: int| 0 <= k < r.0.1.len() ==> lines.contains(#[trigger] r.0.1[k])
            &&& forall|k: int| 0 <= k < r.1.len() ==> from_input(conf, env, lines, #[trigger] r.1[k])
        }),
    decreases lines.len(),
{
    if lines.len() > 0 {
        let p = lines.drop_last();
        let line = lines.last();
        lemma_printed_from_input(conf, env, p);
        let before = run_spec(initial_state(), conf, env, p);
        let after = step_spec(before.0, conf, env, line);
        let r = run_spec(initial_state(), conf, env, lines);
        assert(r == (after.0, before.1 + after.1));
        assert(lines.contains(line)) by {
            assert(lines[lines.len() - 1] == line);
        }
        assert forall|x: Seq<char>| p.contains(x) implies lines.contains(x) by {
            let j = choose|j: int| 0 <= j < p.len() && p[j] == x;
            assert(lines[j] == x);
        }
        assert(from_input(conf, env, lines, shown_line(conf, env, line))) by {
            let lm = lines.map_values(|l: Seq<char>| shown_line(conf, env, l));
            assert(lm[lines.len() - 1] == shown_line(conf, env, line));
        }
        assert forall|k: int| 0 <= k < before.1.len() implies from_input(conf, env, lines, #[trigger] before.1[k]) by {
            lemma_from_input_grows(conf, env, lines, before.1[k]);
        }
        assert forall|k: int| 0 <= k < r.0.0.len() implies lines.contains(#[trigger] r.0.0[k]) by {
            if k < before.0.0.len() && r.0.0[k] == before.0.0[k] {
            } else if r.0.0 == before.0.0.push(line) {
            } else if r.0.0 == before.0.0.push(line).drop_first() {
                assert(r.0.0[k] == before.0.0.push(line)[k + 1]);
            }
        }
        assert forall|k: int| 0 <= k < r.0.1.len() implies lines.contains(#[trigger] r.0.1[k]) by {
            if r.0.1 == before.0.1.push(line) && k == before.0.1.len() {
            } else {
            }
        }
        assert forall|k: int| 0 <= k < after.1.len() implies from_input(conf, env, lines, #[trigger] after.1[k]) by {
            let x = after.1[k];
            if after.1 == before.0.0.push(shown_line(conf, env, line)) {
                if k < before.0.0.len() {
                    assert(lines.contains(before.0.0[k]));
                }
            } else if after.1 == before.0.1.push(line).push(Seq::<char>::empty()) {
                if k < before.0.1.len() {
                    assert(lines.contains(before.0.1[k]));
                }
            }
        }
        assert forall|k: int| 0 <= k < r.1.len() implies from_input(conf, env, lines, #[trigger] r.1[k]) by {
            if k < before.1.len() {
                assert(r.1[k] == before.1[k]);
            } else {
                assert(r.1[k] == after.1[k - before.1.len()]);
            }
        }
    }
}

/// The filter prints nothing but input lines, input lines with their
/// matches highlighted, and empty separator lines.
pub proof fn law_printed_lines_come_from_input(conf: CmdOptConf, env: EnvConf, lines: Seq<Seq<char>>)
    ensures
        forall|k: int| 0 <= k < run_spec(initial_state(), conf, env, lines).1.len()
            ==> from_input(conf, env, lines, #[trigger] run_spec(initial_state(), conf, env, lines).1[k]),
{
    lemma_printed_from_input(conf, env, lines);
}

/// The lines that the last `n` of `lines` begin at: all of them when there
/// are no more than `n`.
pub open spec fn last_lines(lines: Seq<Seq<char>>, n: int) -> Seq<Seq<char>> {
    if lines.len() > n {
        lines.skip(lines.len() - n)
    } else {
        lines
    }
}

/// Before any match, with `--around n`, the last `n` lines are held back
/// and nothing is printed.
proof fn lemma_held_back_lines(conf: CmdOptConf, env: EnvConf, lines: Seq<Seq<char>>)
    requires
        !conf.flg_inverse,
        conf.opt_around.0 > 0,
        forall|i: int| 0 <= i < lines.len() ==> !line_found(conf, #[trigger] lines[i]),
    ensures
        run_spec(initial_state(), conf, env, lines)
            == ((last_lines(lines, conf.opt_around.0 as int), Seq::<Seq<char>>::empty(), false), Seq::<Seq<char>>::empty()),
    decreases lines.len(),
{
    let n = conf.opt_around.0 as int;
    if lines.len() > 0 {
        let p = lines.drop_last();
        assert forall|i: int| 0 <= i < p.len() implies !line_found(conf, #[trigger] p[i]) by {
            assert(p[i] == lines[i]);
        }
        lemma_held_back_lines(conf, env, p);
        assert(!line_found(conf, lines[lines.len() - 1]));
        let prevs = last_lines(p, n).push(lines.last());
        if p.len() >= n {
            assert(prevs.len() == n + 1);
            assert(prevs.drop_first() =~= lines.skip(lines.len() - n));
        } else {
            assert(prevs =~= lines);
        }
    } else {
        assert(last_lines(lines, n) =~= Seq::<Seq<char>>::empty());
    }
}

/// With `--around n`, before any match the filter holds back exactly the
/// last `n` lines read (all of them while fewer have come) and prints
/// nothing; at the first match it prints those lines, oldest first, and
/// then the matching line.
pub proof fn law_lines_before_a_match(conf: CmdOptConf, env: EnvConf, lines: Seq<Seq<char>>, m: Seq<char>)
    requires
        !conf.flg_inverse,
        conf.opt_around.0 > 0,
        forall|i: int| 0 <= i < lines.len() ==> !line_found(conf, #[trigger] lines[i]),
    ensures
        run_spec(initial_state(), conf, env, lines)
            == ((last_lines(lines, conf.opt_around.0 as int), Seq::<Seq<char>>::empty(), false), Seq::<Seq<char>>::empty()),
        line_found(conf, m) ==> run_spec(initial_state(), conf, env, lines.push(m)).1
            == last_lines(lines, conf.opt_around.0 as int).push(shown_line(conf, env, m)),
{
    let n = conf.opt_around.0 as int;
    lemma_held_back_lines(conf, env, lines);
    if line_found(conf, m) {
        let with_m = lines.push(m);
        assert(with_m.drop_last() =~= lines);
        assert(with_m.last() == m);
        let before = run_spec(initial_state(), conf, env, lines);
        let after = step_spec(before.0, conf, env, m);
        assert(after.1 == last_lines(lines, n).push(shown_line(conf, env, m)));
        assert(run_spec(initial_state(), conf, env, with_m).1 == before.1 + after.1);
        assert(before.1 + after.1 =~= after.1);
    }
}

} // verus!
