//! The two ways a line is searched: by a regular expression (the `regex`
//! crate) and by a plain string (the `naive_opt` crate).
use vstd::prelude::*;
use vstd::string::StringSliceAdditionalSpecFns;
use vstd::utf8::*;
use naive_opt::Search;

verus! {

#[verifier::external_type_specification]
#[verifier::external_body]
pub struct ExRegex(regex::Regex);

/// Whether `regex` accepts `pattern` as a regular expression.
pub uninterp spec fn regex_accepts(pattern: Seq<char>) -> bool;

/// The text that `regex`'s error displays for a `pattern` it refuses.
pub uninterp spec fn regex_error_text(pattern: Seq<char>) -> Seq<char>;

/// The byte ranges `(start, end)` of the successive non-overlapping matches
/// that `regex` finds of `pattern` in `haystack`, left to right.
pub uninterp spec fn regex_match_ranges(pattern: Seq<char>, haystack: Seq<char>) -> Seq<(int, int)>;

/// `(start, end)` is a range of `bytes` whose ends are character boundaries.
pub open spec fn on_char_boundaries(bytes: Seq<u8>, start: int, end: int) -> bool {
    &&& 0 <= start <= end <= bytes.len()
    &&& is_char_boundary(bytes, start)
    &&& is_char_boundary(bytes, end)
}

/// The needle `n` occurs in `h` at byte offset `i`.
pub open spec fn occurs_at(h: Seq<u8>, n: Seq<u8>, i: int) -> bool {
    0 <= i && i + n.len() <= h.len() && h.subrange(i, i + n.len()) == n
}

/// The first offset at or after `from` where `n` occurs in `h`.
pub open spec fn next_occurrence(h: Seq<u8>, n: Seq<u8>, from: int) -> Option<int>
    decreases h.len() + 1 - from,
{
    if from < 0 || from + n.len() > h.len() {
        None
    } else if occurs_at(h, n, from) {
        Some(from)
    } else {
        next_occurrence(h, n, from + 1)
    }
}

/// An occurrence found from `from` lies at or after `from`.
pub proof fn lemma_next_occurrence(h: Seq<u8>, n: Seq<u8>, from: int)
    ensures
        next_occurrence(h, n, from) matches Some(i) ==> from <= i && occurs_at(h, n, i),
    decreases h.len() + 1 - from,
{
    if from < 0 || from + n.len() > h.len() {
    } else if occurs_at(h, n, from) {
    } else {
        lemma_next_occurrence(h, n, from + 1);
    }
}

/// The offsets of the successive non-overlapping occurrences of the
/// non-empty needle `n` in `h`, searching from `from`, left to right.
pub open spec fn occurrences_from(h: Seq<u8>, n: Seq<u8>, from: int) -> Seq<int>
    decreases h.len() + 1 - from,
{
    if n.len() == 0 || from < 0 {
        seq![]
    } else {
        match next_occurrence(h, n, from) {
            None => seq![],
            Some(i) => {
                proof {
                    lemma_next_occurrence(h, n, from);
                }
                seq![i] + occurrences_from(h, n, i + n.len())
            },
        }
    }
}

/// A regular expression together with the pattern it was compiled from.
pub struct RegexMatcher {
    re: regex::Regex,
    pattern: String,
}

impl View for RegexMatcher {
    type V = Seq<char>;

    closed spec fn view(&self) -> Seq<char> {
        self.pattern@
    }
}

impl RegexMatcher {
    /// Compiles `pat` with `regex::Regex::new`, giving a refusal as the text
    /// its error displays. The contract claims that the call succeeds exactly
    /// when `regex` accepts the pattern, that the matcher remembers the
    /// pattern, and that the error text is the named one of the pattern (both
    /// are properties of the pattern alone).
    #[verifier::external_body]
    pub fn compile(pat: &str) -> (r: Result<RegexMatcher, String>)
        ensures
            r is Ok <==> regex_accepts(pat@),
            r matches Ok(m) ==> m@ == pat@,
            r matches Err(e) ==> e@ == regex_error_text(pat@),
    {
        match regex::Regex::new(pat) {
            Ok(re) => Ok(RegexMatcher { re, pattern: pat.to_string() }),
            Err(e) => Err(e.to_string()),
        }
    }

    /// The matches of `Regex::find_iter` on `hay`, as byte ranges. The
    /// contract claims that they are the named matches of the pattern in the
    /// haystack, and that each lies within `hay` on character boundaries, as
    /// the crate documents of every `Match` on a `&str`.
    #[verifier::external_body]
    pub fn find_ranges(&self, hay: &str) -> (r: Vec<(usize, usize)>)
        ensures
            r@.map_values(|p: (usize, usize)| (p.0 as int, p.1 as int)) == regex_match_ranges(self@, hay@),
            forall|k: int| 0 <= k < r@.len() ==> #[trigger] on_char_boundaries(hay.spec_bytes(), r@[k].0 as int, r@[k].1 as int),
    {
        self.re.find_iter(hay).map(|m| (m.start(), m.end())).collect()
    }
}

/// The offsets of the matches of `needle` in `hay` from naive_opt's
/// `Search::search_indices`. The contract claims the successive
/// non-overlapping occurrences, left to right (as the crate documents and
/// its iterator computes), each on character boundaries (the iterator slices
/// `hay` there). An empty needle is left out: the iterator never ends on it.
#[verifier::external_body]
pub fn find_needle(hay: &str, needle: &str) -> (r: Vec<usize>)
    requires
        needle.spec_bytes().len() > 0,
    ensures
        r@.map_values(|i: usize| i as int) == occurrences_from(hay.spec_bytes(), needle.spec_bytes(), 0),
        forall|k: int| 0 <= k < r@.len() ==> #[trigger] on_char_boundaries(hay.spec_bytes(), r@[k] as int, r@[k] + needle.spec_bytes().len()),
{
    hay.search_indices(needle).map(|(i, _)| i).collect()
}

} // verus!
