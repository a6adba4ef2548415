//! When the matching strings are highlighted (`--color <when>`).
use vstd::prelude::*;
use vstd::string::StringSliceAdditionalSpecFns;
use vstd::utf8::*;

verus! {

/// When to put color markers around the matching strings.
#[derive(Debug, Clone, Copy, PartialEq, Eq)]
pub enum OptColorWhen {
    /// Always highlight.
    Always,
    /// Never highlight.
    Never,
    /// Highlight when the output is a terminal.
    Auto,
}

impl Default for OptColorWhen {
    fn default() -> (r: Self)
        ensures
            r == OptColorWhen::Auto,
    {
        OptColorWhen::Auto
    }
}

/// Whether the two strings have the same characters, compared by their bytes.
pub fn str_equal(a: &str, b: &str) -> (r: bool)
    ensures
        r == (a@ == b@),
{
    let ab = a.as_bytes();
    let bb = b.as_bytes();
    proof {
        encode_utf8_decode_utf8(a@);
        encode_utf8_decode_utf8(b@);
    }
    if ab.len() != bb.len() {
        return false;
    }
    let n = ab.len();
    let mut i: usize = 0;
    while i < n
        invariant
            n == ab@.len(),
            n == bb@.len(),
            i <= n,
            forall|k: int| 0 <= k < i ==> ab@[k] == bb@[k],
            ab@ == a.spec_bytes(),
            bb@ == b.spec_bytes(),
        decreases n - i,
    {
        if ab[i] != bb[i] {
            assert(ab@[i as int] != bb@[i as int]);
            assert(a.spec_bytes() != b.spec_bytes());
            return false;
        }
        i = i + 1;
    }
    assert(ab@ =~= bb@);
    true
}

/// The value named by `s`, if it is one of `always`, `never`, `auto`.
pub open spec fn color_when_of(s: Seq<char>) -> Option<OptColorWhen> {
    if s == "always"@ {
        Some(OptColorWhen::Always)
    } else if s == "never"@ {
        Some(OptColorWhen::Never)
    } else if s == "auto"@ {
        Some(OptColorWhen::Auto)
    } else {
        None
    }
}

/// The message of a word that names no value.
pub open spec fn color_when_error_text(s: Seq<char>) -> Seq<char> {
    "can not parse '"@ + s + "'"@
}

impl OptColorWhen {
    /// Parses `always`, `never` or `auto`; any other word is refused with
    /// its message.
    pub fn parse(s: &str) -> (r: Result<OptColorWhen, String>)
        ensures
            match color_when_of(s@) {
                Some(c) => r == Ok::<OptColorWhen, String>(c),
                None => r matches Err(e) && e@ == color_when_error_text(s@),
            },
    {
        if str_equal(s, "always") {
            Ok(OptColorWhen::Always)
        } else if str_equal(s, "never") {
            Ok(OptColorWhen::Never)
        } else if str_equal(s, "auto") {
            Ok(OptColorWhen::Auto)
        } else {
            let mut e = String::new();
            e.append("can not parse '");
            e.append(s);
            e.append("'");
            Err(e)
        }
    }
}

} // verus!
