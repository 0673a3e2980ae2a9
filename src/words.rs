use vstd::prelude::*;
use vstd::std_specs::iter::IteratorSpec;

verus! {

broadcast use vstd::string::group_string_axioms;

/// What `str::to_lowercase` makes of a text.
pub uninterp spec fn lower_of(s: Seq<char>) -> Seq<char>;

/// The characters with the Unicode `White_Space` property.
pub open spec fn is_white_space(c: char) -> bool {
    let u = c as u32;
    ||| 0x9 <= u <= 0xD
    ||| u == 0x20
    ||| u == 0x85
    ||| u == 0xA0
    ||| u == 0x1680
    ||| 0x2000 <= u <= 0x200A
    ||| u == 0x2028
    ||| u == 0x2029
    ||| u == 0x202F
    ||| u == 0x205F
    ||| u == 0x3000
}

/// `s` without its leading white space.
pub open spec fn trim_start(s: Seq<char>) -> Seq<char>
    decreases s.len(),
{
    if s.len() > 0 && is_white_space(s[0]) {
        trim_start(s.drop_first())
    } else {
        s
    }
}

/// `s` without its trailing white space.
pub open spec fn trim_end(s: Seq<char>) -> Seq<char>
    decreases s.len(),
{
    if s.len() > 0 && is_white_space(s.last()) {
        trim_end(s.drop_last())
    } else {
        s
    }
}

/// `s` without white space at either end.
pub open spec fn trim(s: Seq<char>) -> Seq<char> {
    trim_end(trim_start(s))
}

/// How many times `p` occurs in `t`, matches taken from the left and never
/// overlapping; an empty `p` matches at each of the `t.len() + 1` boundaries.
pub open spec fn count_matches(t: Seq<char>, p: Seq<char>) -> nat
    decreases t.len(),
{
    if p.len() == 0 {
        t.len() + 1
    } else if t.len() < p.len() {
        0
    } else if t.take(p.len() as int) == p {
        1 + count_matches(t.skip(p.len() as int), p)
    } else {
        count_matches(t.drop_first(), p)
    }
}

/// `n`, or the largest `usize` if it does not fit.
pub open spec fn capped(n: nat) -> usize {
    if n > usize::MAX {
        usize::MAX
    } else {
        n as usize
    }
}

/// Relies on `str::to_lowercase`: the result depends on the characters alone.
#[verifier::external_body]
fn lowercase(s: &str) -> (r: String)
    ensures
        r@ == lower_of(s@),
{
    s.to_lowercase()
}

/// Relies on `str::trim`: drops the leading and trailing characters that have the
/// Unicode `White_Space` property.
#[verifier::external_body]
fn trimmed(s: &str) -> (r: &str)
    ensures
        r@ == trim(s@),
{
    s.trim()
}

/// The characters of `s`, in order.
pub(crate) fn chars_of(s: &str) -> (r: Vec<char>)
    ensures
        r@ == s@,
{
    let mut it = s.chars();
    let mut out: Vec<char> = Vec::new();
    loop
        invariant
            it.obeys_prophetic_iter_laws(),
            out@ + it.remaining() == s@,
        decreases s@.len() - out@.len(),
    {
        match it.next() {
            Some(c) => {
                out.push(c);
                assert(out@ + it.remaining() =~= s@);
            },
            None => {
                assert(out@ =~= s@);
                return out;
            },
        }
    }
}

proof fn lemma_count_bound(t: Seq<char>, p: Seq<char>)
    requires
        p.len() > 0,
    ensures
        count_matches(t, p) <= t.len(),
    decreases t.len(),
{
    if t.len() >= p.len() {
        if t.take(p.len() as int) == p {
            lemma_count_bound(t.skip(p.len() as int), p);
        } else {
            lemma_count_bound(t.drop_first(), p);
        }
    }
}

/// Whether `p` occurs in `t` starting at position `i`.
fn occurs_at(t: &Vec<char>, p: &Vec<char>, i: usize) -> (r: bool)
    requires
        i + p@.len() <= t@.len(),
    ensures
        r == (t@.subrange(i as int, i + p@.len()) == p@),
{
    let tl = t.len();
    let mut j: usize = 0;
    while j < p.len()
        invariant
            j <= p@.len(),
            i + p@.len() <= t@.len(),
            t@.len() == tl,
            t@.subrange(i as int, i + j) == p@.subrange(0, j as int),
        decreases p@.len() - j,
    {
        if t[i + j] != p[j] {
            assert(t@.subrange(i as int, i + p@.len())[j as int] != p@[j as int]);
            return false;
        }
        assert(t@.subrange(i as int, i + j + 1) =~= p@.subrange(0, j + 1));
        j += 1;
    }
    assert(p@.subrange(0, j as int) =~= p@);
    true
}

/// How many times `pattern` occurs in `text`, counted as `str::matches` finds
/// them: from the left, never overlapping.
pub fn count_occurrences(text: &str, pattern: &str) -> (r: usize)
    ensures
        r == capped(count_matches(text@, pattern@)),
{
    let t = chars_of(text);
    let p = chars_of(pattern);
    if p.len() == 0 {
        if t.len() == usize::MAX {
            return usize::MAX;
        }
        return t.len() + 1;
    }
    let mut i: usize = 0;
    let mut n: usize = 0;
    assert(t@.skip(0) =~= t@);
    while i < t.len() && p.len() <= t.len() - i
        invariant
            p@ == pattern@,
            t@ == text@,
            p@.len() > 0,
            i <= t@.len(),
            n + count_matches(t@.skip(i as int), p@) == count_matches(t@, p@),
            n <= i,
        decreases t@.len() - i,
    {
        let ghost rest = t@.skip(i as int);
        assert(rest.take(p@.len() as int) =~= t@.subrange(i as int, i + p@.len()));
        if occurs_at(&t, &p, i) {
            assert(rest.skip(p@.len() as int) =~= t@.skip(i + p@.len()));
            n += 1;
            i += p.len();
        } else {
            assert(rest.drop_first() =~= t@.skip(i + 1));
            i += 1;
        }
    }
    assert(count_matches(t@.skip(i as int), p@) == 0);
    proof {
        lemma_count_bound(t@, p@);
    }
    n
}

/// How many times `word`, trimmed of white space, occurs in `s`, case ignored:
/// both are lowered before counting.
pub fn num_occurrences(s: &String, word: &String) -> (r: usize)
    ensures
        r == capped(count_matches(lower_of(s@), lower_of(trim(word@)))),
{
    let to_search = lowercase(trimmed(word.as_str()));
    let searchable = lowercase(s.as_str());
    count_occurrences(searchable.as_str(), to_search.as_str())
}

} // verus!
