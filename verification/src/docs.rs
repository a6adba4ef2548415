//! The help block of the crate documentation: the text the maintainer's
//! task puts between the help markers of the documentation.
use vstd::prelude::*;
use vstd::string::StrSliceExecFns;

verus! {

broadcast use vstd::string::axiom_spec_iter;

/// The marker after which the help block begins.
pub const HELP_START_MARKER: &'static str = "<!-- [HELP_START] -->\n";

/// The marker before which the help block ends.
pub const HELP_END_MARKER: &'static str = "<!-- [HELP_END] -->";

/// The description in the help block.
pub const DOC_DESCRIPTIONS_TEXT: &'static str = "match line, regex text filter like a grep.";

/// The option parameters in the help block.
pub const DOC_PARAMS_TEXT: &'static str = "Option Parameters:\n  <when>    'always', 'never', or 'auto'\n  <exp>     regular expression\n  <string>  simple string, non regular expression";

/// The environment variables in the help block.
pub const DOC_ENV_TEXT: &'static str = "Environments:\n  AKI_MLINE_COLOR_SEQ_ST    color start sequence specified by ansi\n  AKI_MLINE_COLOR_SEQ_ED    color end sequence specified by ansi";

/// The characters with the Unicode `White_Space` property.
pub open spec fn is_white_space(c: char) -> bool {
    let u = c as u32;
    ||| 0x09 <= u <= 0x0D
    ||| u == 0x20
    ||| u == 0x85
    ||| u == 0xA0
    ||| u == 0x1680
    ||| 0x2000 <= u <= 0x200A
    ||| u == 0x2028
    ||| u == 0x2029
    ||| u == 0x202F
    ||| u == 0x205F
    ||| u == 0x3000
}

/// The text without its trailing white space.
pub open spec fn trimmed_end(s: Seq<char>) -> Seq<char>
    decreases s.len(),
{
    if s.len() > 0 && is_white_space(s.last()) {
        trimmed_end(s.drop_last())
    } else {
        s
    }
}

/// Whether `c` has the Unicode `White_Space` property.
fn is_white_space_exec(c: char) -> (r: bool)
    ensures
        r == is_white_space(c),
{
    let u = c as u32;
    (0x09 <= u && u <= 0x0D) || u == 0x20 || u == 0x85 || u == 0xA0 || u == 0x1680 || (0x2000 <= u && u
        <= 0x200A) || u == 0x2028 || u == 0x2029 || u == 0x202F || u == 0x205F || u == 0x3000
}

/// The text without its trailing white space (what std's `str::trim_end`
/// gives).
fn trim_end_str<'a>(s: &'a str) -> (r: &'a str)
    ensures
        r@ == trimmed_end(s@),
{
    let v = chars_of(s);
    let mut n = v.len();
    assert(v@.take(n as int) =~= v@);
    while n > 0 && is_white_space_exec(v[n - 1])
        invariant
            n <= v@.len(),
            trimmed_end(v@) == trimmed_end(v@.take(n as int)),
        decreases n,
    {
        assert(v@.take(n as int).drop_last() =~= v@.take(n - 1));
        n = n - 1;
    }
    assert(trimmed_end(v@.take(n as int)) == v@.take(n as int));
    s.substring_char(0, n)
}

/// The help block for the given text of the options.
pub open spec fn help_block_text(options: Seq<char>) -> Seq<char> {
    "```text\nUsage:\n  aki-mline [options]\n\n"@ + DOC_DESCRIPTIONS_TEXT@ + "\n\n"@ + trimmed_end(options) + "\n\n"@
        + DOC_PARAMS_TEXT@ + "\n\n"@ + DOC_ENV_TEXT@ + "\n```\n"@
}

/// The help block: usage, description, the options (without their trailing
/// white space), parameters and environment, as a fenced text block.
pub fn help_block(options_text: &str) -> (r: String)
    ensures
        r@ == help_block_text(options_text@),
{
    let mut r = String::new();
    r.append("```text\nUsage:\n  aki-mline [options]\n\n");
    r.append(DOC_DESCRIPTIONS_TEXT);
    r.append("\n\n");
    r.append(trim_end_str(options_text));
    r.append("\n\n");
    r.append(DOC_PARAMS_TEXT);
    r.append("\n\n");
    r.append(DOC_ENV_TEXT);
    r.append("\n```\n");
    r
}

/// The text `n` occurs in `h` at character index `i`.
pub open spec fn occurs_at(h: Seq<char>, n: Seq<char>, i: int) -> bool {
    0 <= i && i + n.len() <= h.len() && h.subrange(i, i + n.len()) == n
}

/// `i` is where `n` first occurs in `h`.
pub open spec fn is_first_occurrence(h: Seq<char>, n: Seq<char>, i: int) -> bool {
    occurs_at(h, n, i) && forall|j: int| 0 <= j < i ==> !occurs_at(h, n, j)
}

/// Where `n` first occurs in `h`, if it occurs.
pub open spec fn first_occurrence(h: Seq<char>, n: Seq<char>) -> Option<int> {
    if exists|i: int| is_first_occurrence(h, n, i) {
        Some(choose|i: int| is_first_occurrence(h, n, i))
    } else {
        None
    }
}

/// The first occurrence found is a first occurrence.
proof fn lemma_first_occurrence_found(h: Seq<char>, n: Seq<char>, i: int)
    requires
        first_occurrence(h, n) == Some(i),
    ensures
        is_first_occurrence(h, n, i),
{
}

/// A first occurrence is the first occurrence.
proof fn lemma_first_occurrence(h: Seq<char>, n: Seq<char>, i: int)
    requires
        is_first_occurrence(h, n, i),
    ensures
        first_occurrence(h, n) == Some(i),
{
    let c = choose|c: int| is_first_occurrence(h, n, c);
    assert(is_first_occurrence(h, n, c));
    if c < i {
        assert(!occurs_at(h, n, c));
    } else if i < c {
        assert(!occurs_at(h, n, i));
    }
}

/// The characters of `s`, in order.
fn chars_of(s: &str) -> (v: Vec<char>)
    ensures
        v@ == s@,
{
    let mut v: Vec<char> = Vec::new();
    for c in it: s.chars()
        invariant
            it.seq() == s@,
            v@ == it.seq().take(it.index()),
    {
        v.push(c);
    }
    v
}

/// Whether `n` occurs in `h` at `i`.
fn occurs_at_exec(h: &Vec<char>, n: &Vec<char>, i: usize) -> (r: bool)
    requires
        i + n@.len() <= h@.len(),
    ensures
        r == occurs_at(h@, n@, i as int),
{
    let nl = n.len();
    let hl = h.len();
    let mut k: usize = 0;
    while k < nl
        invariant
            nl == n@.len(),
            hl == h@.len(),
            i + nl <= hl,
            k <= nl,
            forall|t: int| 0 <= t < k ==> h@[i + t] == n@[t],
        decreases nl - k,
    {
        if h[i + k] != n[k] {
            assert(h@.subrange(i as int, i + nl)[k as int] != n@[k as int]);
            return false;
        }
        k = k + 1;
    }
    assert(h@.subrange(i as int, i + nl) =~= n@);
    true
}

/// Where `n` first occurs in `h`, if it occurs.
fn find_first(h: &Vec<char>, n: &Vec<char>) -> (r: Option<usize>)
    ensures
        match r {
            Some(i) => first_occurrence(h@, n@) == Some(i as int),
            None => first_occurrence(h@, n@) is None,
        },
{
    let hl = h.len();
    let nl = n.len();
    if nl > hl {
        assert forall|i: int| !is_first_occurrence(h@, n@, i) by {}
        return None;
    }
    let last = hl - nl;
    let mut i: usize = 0;
    while i < last
        invariant
            hl == h@.len(),
            nl == n@.len(),
            last == hl - nl,
            i <= last,
            forall|j: int| 0 <= j < i ==> !occurs_at(h@, n@, j),
        decreases last - i,
    {
        if occurs_at_exec(h, n, i) {
            proof {
                lemma_first_occurrence(h@, n@, i as int);
            }
            return Some(i);
        }
        i = i + 1;
    }
    if occurs_at_exec(h, n, last) {
        proof {
            lemma_first_occurrence(h@, n@, last as int);
        }
        return Some(last);
    }
    assert forall|k: int| !is_first_occurrence(h@, n@, k) by {
        if 0 <= k < last {
        }
    }
    None
}

/// The documentation with its help block replaced by `help`: what comes up
/// to the end of the first start marker, then `help`, then what comes from
/// the first end marker on; nothing when a marker is missing.
pub open spec fn spliced(content: Seq<char>, help: Seq<char>) -> Option<Seq<char>> {
    match (first_occurrence(content, HELP_START_MARKER@), first_occurrence(content, HELP_END_MARKER@)) {
        (Some(s), Some(e)) => Some(
            content.subrange(0, s + HELP_START_MARKER@.len()) + help + content.subrange(e, content.len() as int),
        ),
        _ => None,
    }
}

/// Replaces the help block of the documentation `content` by `help_msg`;
/// `None` when the documentation lacks one of the markers.
pub fn splice_help(content: &str, help_msg: &str) -> (r: Option<String>)
    ensures
        match spliced(content@, help_msg@) {
            Some(t) => r matches Some(s) && s@ == t,
            None => r is None,
        },
{
    let cv = chars_of(content);
    let sv = chars_of(HELP_START_MARKER);
    let ev = chars_of(HELP_END_MARKER);
    let cl = cv.len();
    match find_first(&cv, &sv) {
        Some(s) => match find_first(&cv, &ev) {
            Some(e) => {
                proof {
                    lemma_first_occurrence_found(cv@, sv@, s as int);
                    lemma_first_occurrence_found(cv@, ev@, e as int);
                }
                let mut out = String::new();
                out.append(content.substring_char(0, s + sv.len()));
                out.append(help_msg);
                out.append(content.substring_char(e, cl));
                Some(out)
            },
            None => None,
        },
        None => None,
    }
}

/// The characters of the markers that the splice law needs: the end marker
/// begins with `<` and ends with its only `>`, and no `<` follows the first
/// character of the start marker.
proof fn lemma_marker_chars()
    ensures
        HELP_START_MARKER@.len() == 22,
        HELP_END_MARKER@.len() == 19,
        HELP_END_MARKER@[0] == '<',
        HELP_END_MARKER@[18] == '>',
        forall|m: int| 0 <= m < 18 ==> HELP_END_MARKER@[m] != '>',
        forall|m: int| 1 <= m < 22 ==> HELP_START_MARKER@[m] != '<',
{
    reveal_strlit("<!-- [HELP_START] -->\n");
    reveal_strlit("<!-- [HELP_END] -->");
}

/// Putting a help block in twice gives what putting it in once gives: when
/// the first start marker comes before the first end marker and the block
/// holds no end marker, the second splice leaves the text as the first one
/// made it.
pub proof fn law_splice_idempotent(c: Seq<char>, h: Seq<char>, i: int, j: int)
    requires
        is_first_occurrence(c, HELP_START_MARKER@, i),
        is_first_occurrence(c, HELP_END_MARKER@, j),
        i + HELP_START_MARKER@.len() <= j,
        forall|k: int| !occurs_at(h, HELP_END_MARKER@, k),
    ensures
        spliced(c, h) == Some(c.subrange(0, i + HELP_START_MARKER@.len()) + h + c.subrange(j, c.len() as int)),
        spliced(spliced(c, h).unwrap(), h) == spliced(c, h),
{
    let sm = HELP_START_MARKER@;
    let em = HELP_END_MARKER@;
    lemma_marker_chars();
    lemma_first_occurrence(c, sm, i);
    lemma_first_occurrence(c, em, j);
    let p = i + 22;
    let q = p + h.len();
    let t = c.subrange(0, p) + h + c.subrange(j, c.len() as int);
    assert(spliced(c, h) == Some(t));
    assert forall|x: int| 0 <= x < p implies t[x] == c[x] by {}
    assert forall|x: int| p <= x < q implies t[x] == h[x - p] by {}
    assert forall|x: int| q <= x < t.len() implies t[x] == c[x - q + j] by {}
    // The start marker is still first at `i`.
    assert(t.subrange(i, i + 22) =~= c.subrange(i, i + 22));
    assert forall|k: int| 0 <= k < i implies !occurs_at(t, sm, k) by {
        assert(!occurs_at(c, sm, k));
        assert(t.subrange(k, k + 22) =~= c.subrange(k, k + 22));
    }
    lemma_first_occurrence(t, sm, i);
    // The end marker is now first at `q`.
    assert(t.subrange(q, q + 19) =~= c.subrange(j, j + 19));
    assert forall|k: int| 0 <= k < q implies !occurs_at(t, em, k) by {
        if occurs_at(t, em, k) {
            assert(t.subrange(k, k + 19)[0] == em[0]);
            assert(t.subrange(k, k + 19)[18] == em[18]);
            if k + 19 <= p {
                assert(t.subrange(k, k + 19) =~= c.subrange(k, k + 19));
                assert(occurs_at(c, em, k));
            } else if k < p {
                assert(c.subrange(i, i + 22)[k - i] == c[k]);
                assert(sm[k - i] != '<');
            } else if k + 19 <= q {
                assert(t.subrange(k, k + 19) =~= h.subrange(k - p, k - p + 19));
                assert(occurs_at(h, em, k - p));
            } else {
                let d = q - k;
                assert(t[k + 18] == c[k + 18 - q + j]);
                assert(c.subrange(j, j + 19)[18 - d] == c[j + 18 - d]);
                assert(em[18 - d] != '>');
            }
        }
    }
    lemma_first_occurrence(t, em, q);
    assert(t.subrange(0, p) =~= c.subrange(0, p));
    assert(t.subrange(q, t.len() as int) =~= c.subrange(j, c.len() as int));
}

} // verus!
