//! The canonicalizer: brings raw text into the canonical comparable form by
//! an optional ASCII filter, replacement of non-alphanumeric scalar values
//! with spaces, Unicode lowercasing, and a whitespace trim, in that order.

use crate::text::chars_of;
use vstd::prelude::*;

verus! {

/// What `char::is_alphanumeric` returns: whether the scalar value falls in
/// one of the Unicode letter or number categories.  The classification is
/// table driven, so it is named rather than spelled out.
pub uninterp spec fn is_alnum(c: char) -> bool;

/// What `char::is_whitespace` returns: whether the scalar value has the
/// Unicode property White_Space.
pub uninterp spec fn is_white(c: char) -> bool;

/// What `str::to_lowercase` returns for a given sequence of scalar values.
/// Unicode lowercasing is context sensitive and table driven, so the result
/// is named rather than spelled out.
pub uninterp spec fn lower_of(s: Seq<char>) -> Seq<char>;

/// Relies on char::is_alphanumeric: true exactly for the Unicode letter
/// and number categories; the result depends on the scalar value alone.
#[verifier::external_body]
fn is_alphanumeric_char(c: char) -> (r: bool)
    ensures
        r == is_alnum(c),
{
    c.is_alphanumeric()
}

/// Relies on char::is_whitespace: true exactly for scalar values with the
/// Unicode property White_Space; the result depends on the value alone.
#[verifier::external_body]
fn is_whitespace_char(c: char) -> (r: bool)
    ensures
        r == is_white(c),
{
    c.is_whitespace()
}

/// Relies on str::to_lowercase: the lowercase equivalent of the text,
/// a function of its scalar values alone; lowercasing an empty text
/// yields an empty text.
#[verifier::external_body]
fn to_lowercase_str(s: &str) -> (r: String)
    ensures
        r@ == lower_of(s@),
        s@.len() == 0 ==> r@.len() == 0,
{
    s.to_lowercase()
}

/// Relies on String::push: appends the given scalar value at the end.
#[verifier::external_body]
fn push_char(s: &mut String, c: char)
    ensures
        final(s)@ == old(s)@.push(c),
{
    s.push(c);
}

/// A scalar value in the ASCII range.
pub open spec fn is_ascii_char(c: char) -> bool {
    (c as u32) < 128
}

/// The text with every scalar value outside the ASCII range removed.
pub open spec fn ascii_filter(s: Seq<char>) -> Seq<char>
    decreases s.len(),
{
    if s.len() == 0 {
        Seq::empty()
    } else if is_ascii_char(s.last()) {
        ascii_filter(s.drop_last()).push(s.last())
    } else {
        ascii_filter(s.drop_last())
    }
}

/// The text with every non-alphanumeric scalar value replaced by a space.
pub open spec fn spaced(s: Seq<char>) -> Seq<char> {
    Seq::new(s.len(), |i: int| if is_alnum(s[i]) { s[i] } else { ' ' })
}

/// The text with its longest all-whitespace prefix removed.
pub open spec fn trim_front(s: Seq<char>) -> Seq<char>
    decreases s.len(),
{
    if s.len() == 0 {
        s
    } else if is_white(s.first()) {
        trim_front(s.drop_first())
    } else {
        s
    }
}

/// The text with its longest all-whitespace suffix removed.
pub open spec fn trim_back(s: Seq<char>) -> Seq<char>
    decreases s.len(),
{
    if s.len() == 0 {
        s
    } else if is_white(s.last()) {
        trim_back(s.drop_last())
    } else {
        s
    }
}

/// The text with leading and trailing whitespace removed.
pub open spec fn trimmed(s: Seq<char>) -> Seq<char> {
    trim_back(trim_front(s))
}

/// The canonical form of `s`: an optional ASCII filter, then spaces for the
/// non-alphanumeric scalar values, then Unicode lowercasing, then a trim.
pub open spec fn full_process_spec(s: Seq<char>, force_ascii: bool) -> Seq<char> {
    let kept = if force_ascii {
        ascii_filter(s)
    } else {
        s
    };
    trimmed(lower_of(spaced(kept)))
}

fn filter_ascii(v: &Vec<char>) -> (r: Vec<char>)
    ensures
        r@ == ascii_filter(v@),
{
    let mut r: Vec<char> = Vec::new();
    let mut i: usize = 0;
    while i < v.len()
        invariant
            i <= v@.len(),
            r@ == ascii_filter(v@.subrange(0, i as int)),
        decreases v@.len() - i,
    {
        let c = v[i];
        if (c as u32) < 128 {
            r.push(c);
        }
        i = i + 1;
        proof {
            let pre = v@.subrange(0, i as int);
            assert(pre.drop_last() =~= v@.subrange(0, i - 1));
            assert(pre.last() == v@[i - 1]);
        }
    }
    proof {
        assert(v@.subrange(0, v@.len() as int) =~= v@);
    }
    r
}

fn space_non_alnum(v: &Vec<char>) -> (r: Vec<char>)
    ensures
        r@ == spaced(v@),
{
    let mut r: Vec<char> = Vec::new();
    let mut i: usize = 0;
    while i < v.len()
        invariant
            i <= v@.len(),
            r@.len() == i,
            forall|m: int|
                0 <= m < i ==> r@[m] == (if is_alnum(v@[m]) {
                    v@[m]
                } else {
                    ' '
                }),
        decreases v@.len() - i,
    {
        let c = v[i];
        if is_alphanumeric_char(c) {
            r.push(c);
        } else {
            r.push(' ');
        }
        i = i + 1;
    }
    proof {
        assert(r@ =~= spaced(v@));
    }
    r
}

fn string_of(v: &Vec<char>) -> (r: String)
    ensures
        r@ == v@,
{
    let mut r = String::new();
    let mut i: usize = 0;
    while i < v.len()
        invariant
            i <= v@.len(),
            r@ == v@.subrange(0, i as int),
        decreases v@.len() - i,
    {
        push_char(&mut r, v[i]);
        i = i + 1;
        proof {
            assert(r@ =~= v@.subrange(0, i as int));
        }
    }
    proof {
        assert(r@ =~= v@);
    }
    r
}

proof fn lemma_trim_front_at(s: Seq<char>, lo: int)
    requires
        0 <= lo <= s.len(),
        forall|m: int| 0 <= m < lo ==> is_white(s[m]),
        lo < s.len() ==> !is_white(s[lo]),
    ensures
        trim_front(s) == s.subrange(lo, s.len() as int),
    decreases lo,
{
    if lo == 0 {
        if s.len() == 0 {
            assert(trim_front(s) =~= s.subrange(0, s.len() as int));
        } else {
            assert(!is_white(s.first()));
            assert(trim_front(s) =~= s.subrange(0, s.len() as int));
        }
    } else {
        assert(is_white(s.first()));
        let rest = s.drop_first();
        assert(forall|m: int| 0 <= m < lo - 1 ==> rest[m] == s[m + 1] && is_white(rest[m]));
        lemma_trim_front_at(rest, lo - 1);
        assert(rest.subrange(lo - 1, rest.len() as int) =~= s.subrange(lo, s.len() as int));
    }
}

proof fn lemma_trim_back_at(s: Seq<char>, hi: int)
    requires
        0 <= hi <= s.len(),
        forall|m: int| hi <= m < s.len() ==> is_white(s[m]),
        hi > 0 ==> !is_white(s[hi - 1]),
    ensures
        trim_back(s) == s.subrange(0, hi),
    decreases s.len() - hi,
{
    if hi == s.len() {
        if s.len() == 0 {
            assert(trim_back(s) =~= s.subrange(0, hi));
        } else {
            assert(!is_white(s.last()));
            assert(trim_back(s) =~= s.subrange(0, hi));
        }
    } else {
        assert(is_white(s.last()));
        let rest = s.drop_last();
        lemma_trim_back_at(rest, hi);
        assert(rest.subrange(0, hi) =~= s.subrange(0, hi));
    }
}

fn trim_chars(v: &Vec<char>) -> (r: Vec<char>)
    ensures
        r@ == trimmed(v@),
{
    let n = v.len();
    let mut lo: usize = 0;
    loop
        invariant
            n == v@.len(),
            lo <= n,
            forall|m: int| 0 <= m < lo ==> is_white(v@[m]),
        ensures
            lo <= n,
            forall|m: int| 0 <= m < lo ==> is_white(v@[m]),
            lo < n ==> !is_white(v@[lo as int]),
        decreases n - lo,
    {
        if lo == n {
            break ;
        }
        if !is_whitespace_char(v[lo]) {
            break ;
        }
        lo = lo + 1;
    }
    if lo == n {
        proof {
            lemma_trim_front_at(v@, lo as int);
            assert(v@.subrange(lo as int, n as int).len() == 0);
            assert(trim_back(v@.subrange(lo as int, n as int)) =~= Seq::<char>::empty());
        }
        let r: Vec<char> = Vec::new();
        proof {
            assert(r@ =~= trimmed(v@));
        }
        return r;
    }
    // v[lo] is the first non-whitespace scalar value
    let mut hi: usize = n - 1;
    while is_whitespace_char(v[hi])
        invariant
            n == v@.len(),
            lo < n,
            !is_white(v@[lo as int]),
            lo <= hi < n,
            forall|m: int| hi < m < n ==> is_white(v@[m]),
        decreases hi,
    {
        hi = hi - 1;
    }
    // copy the scalar values in [lo, hi]
    let mut r: Vec<char> = Vec::new();
    let mut m: usize = lo;
    while m <= hi
        invariant
            n == v@.len(),
            lo <= m <= hi + 1,
            hi < n,
            r@ == v@.subrange(lo as int, m as int),
        decreases hi + 1 - m,
    {
        r.push(v[m]);
        m = m + 1;
        proof {
            assert(r@ =~= v@.subrange(lo as int, m as int));
        }
    }
    proof {
        lemma_trim_front_at(v@, lo as int);
        let tail = v@.subrange(lo as int, n as int);
        assert(forall|m2: int|
            hi + 1 - lo <= m2 < tail.len() ==> tail[m2] == v@[m2 + lo] && is_white(tail[m2]));
        assert(tail[hi - lo] == v@[hi as int]);
        lemma_trim_back_at(tail, hi + 1 - lo);
        assert(tail.subrange(0, hi + 1 - lo) =~= v@.subrange(lo as int, hi + 1));
        assert(r@ =~= trimmed(v@));
    }
    r
}

/// The ASCII filter is idempotent: filtering already-filtered text changes
/// nothing, since everything it keeps is in the ASCII range.  This is the
/// part of the canonical form's idempotence owed to the filter stage.
pub proof fn lemma_ascii_filter_idempotent(s: Seq<char>)
    ensures
        ascii_filter(ascii_filter(s)) == ascii_filter(s),
    decreases s.len(),
{
    if s.len() == 0 {
    } else {
        lemma_ascii_filter_idempotent(s.drop_last());
        if is_ascii_char(s.last()) {
            let f = ascii_filter(s.drop_last()).push(s.last());
            assert(f.drop_last() =~= ascii_filter(s.drop_last()));
            assert(f.last() == s.last());
        }
    }
}

proof fn lemma_trim_front_head(s: Seq<char>)
    ensures
        trim_front(s).len() > 0 ==> !is_white(trim_front(s).first()),
    decreases s.len(),
{
    if s.len() > 0 && is_white(s.first()) {
        lemma_trim_front_head(s.drop_first());
    }
}

proof fn lemma_trim_back_tail(s: Seq<char>)
    ensures
        trim_back(s).len() > 0 ==> !is_white(trim_back(s).last()),
        trim_back(s).len() > 0 ==> s.len() > 0 && trim_back(s).first() == s.first(),
    decreases s.len(),
{
    if s.len() > 0 && is_white(s.last()) {
        lemma_trim_back_tail(s.drop_last());
        if trim_back(s).len() > 0 {
            assert(s.drop_last().first() == s.first());
        }
    }
}

/// Trimming is idempotent: the trim of an already-trimmed text changes
/// nothing.  This is the part of the canonical form's idempotence that
/// does not depend on the Unicode tables.
pub proof fn lemma_trimmed_idempotent(s: Seq<char>)
    ensures
        trimmed(trimmed(s)) == trimmed(s),
{
    let u = trim_front(s);
    let t = trim_back(u);
    if t.len() == 0 {
        assert(trim_front(t) =~= t);
        assert(trim_back(trim_front(t)) =~= t);
    } else {
        lemma_trim_back_tail(u);
        lemma_trim_front_head(s);
        assert(!is_white(t.first()));
        assert(trim_front(t) == t);
        assert(!is_white(t.last()));
        assert(trim_back(t) == t);
    }
}

/// Brings `s` into its canonical comparable form: when `force_ascii` holds,
/// scalar values outside the ASCII range are dropped first; every remaining
/// non-alphanumeric scalar value becomes a space; the text is lowercased by
/// the full Unicode rules; and leading and trailing whitespace is removed.
/// Interior runs of spaces are kept as inserted.
pub fn full_process(s: &str, force_ascii: bool) -> (r: String)
    ensures
        r@ == full_process_spec(s@, force_ascii),
        s@.len() == 0 ==> r@.len() == 0,
{
    let cs = chars_of(s);
    let kept = if force_ascii {
        filter_ascii(&cs)
    } else {
        cs
    };
    let sp = space_non_alnum(&kept);
    let sp_string = string_of(&sp);
    let lowered = to_lowercase_str(sp_string.as_str());
    let low_chars = chars_of(lowered.as_str());
    let t = trim_chars(&low_chars);
    string_of(&t)
}

/// True only for non-empty text; kept for parity with other
/// implementations of the same interface.
pub fn validate_string(s: &str) -> (r: bool)
    ensures
        r == (s@.len() != 0),
{
    !s.is_empty()
}

} // verus!
