//! Character classes and case mapping, as std's Unicode tables define them.
use vstd::prelude::*;

verus! {

/// Whether a character beyond ASCII has the Unicode `Alphabetic` property.
pub uninterp spec fn alphabetic_beyond_ascii(c: char) -> bool;

/// Whether a character has the Unicode `Alphabetic` property; within ASCII
/// these are exactly the letters.
pub open spec fn alphabetic(c: char) -> bool {
    if '\u{7f}' >= c {
        ('a' <= c && c <= 'z') || ('A' <= c && c <= 'Z')
    } else {
        alphabetic_beyond_ascii(c)
    }
}

/// Whether a character has the Unicode `White_Space` property (25 code points).
pub open spec fn white_space(c: char) -> bool {
    ||| ('\u{9}' <= c && c <= '\u{d}')
    ||| c == ' '
    ||| c == '\u{85}'
    ||| c == '\u{a0}'
    ||| c == '\u{1680}'
    ||| ('\u{2000}' <= c && c <= '\u{200a}')
    ||| c == '\u{2028}'
    ||| c == '\u{2029}'
    ||| c == '\u{202f}'
    ||| c == '\u{205f}'
    ||| c == '\u{3000}'
}

/// `s` without its leading white space.
pub open spec fn trim_start(s: Seq<char>) -> Seq<char>
    decreases s.len(),
{
    if s.len() > 0 && white_space(s[0]) {
        trim_start(s.drop_first())
    } else {
        s
    }
}

/// `s` without its trailing white space.
pub open spec fn trim_end(s: Seq<char>) -> Seq<char>
    decreases s.len(),
{
    if s.len() > 0 && white_space(s.last()) {
        trim_end(s.drop_last())
    } else {
        s
    }
}

/// `s` without leading and trailing white space.
pub open spec fn trimmed(s: Seq<char>) -> Seq<char> {
    trim_end(trim_start(s))
}

/// The Unicode lower-case mapping of a string.
pub uninterp spec fn lower_of(s: Seq<char>) -> Seq<char>;

/// Relies on `char::is_alphabetic`.
#[verifier::external_body]
pub(crate) fn is_alphabetic(c: char) -> (r: bool)
    ensures
        r == alphabetic(c),
        c >= '\u{80}' ==> r == alphabetic_beyond_ascii(c),
{
    c.is_alphabetic()
}

/// Relies on `char::is_whitespace`.
#[verifier::external_body]
pub(crate) fn is_whitespace(c: char) -> (r: bool)
    ensures
        r == white_space(c),
{
    c.is_whitespace()
}

/// Relies on `str::trim`: removes leading and trailing `White_Space` characters.
#[verifier::external_body]
pub(crate) fn trim(s: &str) -> (r: &str)
    ensures
        r@ == trimmed(s@),
{
    s.trim()
}

/// Relies on `str::to_lowercase`: the result depends on the characters alone.
#[verifier::external_body]
pub(crate) fn to_lowercase(s: &str) -> (r: String)
    ensures
        r@ == lower_of(s@),
{
    s.to_lowercase()
}

/// The characters of a string, one per element.
pub fn chars_of(s: &str) -> (r: Vec<char>)
    ensures
        r@ == s@,
{
    let n = s.unicode_len();
    let mut out: Vec<char> = Vec::new();
    let mut i: usize = 0;
    while i < n
        invariant
            n == s@.len(),
            i <= n,
            out@ == s@.take(i as int),
        decreases n - i,
    {
        out.push(s.get_char(i));
        i += 1;
        assert(out@ =~= s@.take(i as int));
    }
    assert(out@ =~= s@);
    out
}

/// Whether a sequence contains a character.
pub open spec fn has_char(s: Seq<char>, c: char) -> bool {
    exists|i: int| 0 <= i < s.len() && s[i] == c
}

/// Every character is white space.
pub open spec fn all_white(w: Seq<char>) -> bool {
    forall|i: int| 0 <= i < w.len() ==> white_space(#[trigger] w[i])
}

proof fn lemma_trim_start_pad(w: Seq<char>, b: Seq<char>)
    requires
        all_white(w),
    ensures
        trim_start(w + b) == trim_start(b),
    decreases w.len(),
{
    if w.len() > 0 {
        assert((w + b)[0] == w[0]);
        assert((w + b).drop_first() =~= w.drop_first() + b);
        lemma_trim_start_pad(w.drop_first(), b);
    } else {
        assert(w + b =~= b);
    }
}

proof fn lemma_trim_end_pad(b: Seq<char>, w: Seq<char>)
    requires
        all_white(w),
    ensures
        trim_end(b + w) == trim_end(b),
    decreases w.len(),
{
    if w.len() > 0 {
        assert((b + w).last() == w.last());
        assert((b + w).drop_last() =~= b + w.drop_last());
        lemma_trim_end_pad(b, w.drop_last());
    } else {
        assert(b + w =~= b);
    }
}

proof fn lemma_trim_start_append(b: Seq<char>, w: Seq<char>)
    requires
        exists|i: int| 0 <= i < b.len() && !white_space(b[i]),
    ensures
        trim_start(b + w) == trim_start(b) + w,
    decreases b.len(),
{
    assert((b + w)[0] == b[0]);
    if white_space(b[0]) {
        let i = choose|i: int| 0 <= i < b.len() && !white_space(b[i]);
        assert(b.drop_first()[i - 1] == b[i]);
        assert((b + w).drop_first() =~= b.drop_first() + w);
        lemma_trim_start_append(b.drop_first(), w);
    }
}

/// Surrounding a text that has a non-white-space character with white space
/// does not change its trimmed form.
pub proof fn lemma_trim_padding(w1: Seq<char>, b: Seq<char>, w2: Seq<char>)
    requires
        all_white(w1),
        all_white(w2),
        exists|i: int| 0 <= i < b.len() && !white_space(b[i]),
    ensures
        trimmed(w1 + b + w2) == trimmed(b),
{
    assert(w1 + b + w2 =~= w1 + (b + w2));
    lemma_trim_start_pad(w1, b + w2);
    lemma_trim_start_append(b, w2);
    lemma_trim_end_pad(trim_start(b), w2);
}

} // verus!
