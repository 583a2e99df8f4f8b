use vstd::prelude::*;
use vstd::string::*;

verus! {

// ---------------------------------------------------------------------------
// Case folding and whitespace classification rest on std's Unicode tables;
// their results depend on the characters alone, so they are given names that
// the rest of the crate's contracts are stated over.
// ---------------------------------------------------------------------------

pub uninterp spec fn lower_of(s: Seq<char>) -> Seq<char>;

/// Relies on str::to_lowercase: the lowercase form depends on the characters
/// alone, and an empty string stays empty.
#[verifier::external_body]
pub fn to_lower(s: &str) -> (r: String)
    ensures
        r@ == lower_of(s@),
        s@.len() == 0 ==> r@.len() == 0,
{
    s.to_lowercase()
}

pub uninterp spec fn is_space(c: char) -> bool;

/// Relies on char::is_whitespace: whether a character is whitespace depends on
/// the character alone.
#[verifier::external_body]
pub fn char_is_space(c: char) -> (r: bool)
    ensures
        r == is_space(c),
{
    c.is_whitespace()
}

// ---------------------------------------------------------------------------
// Trimming: drop whitespace from both ends of a character sequence.
// ---------------------------------------------------------------------------

pub open spec fn trim_front(s: Seq<char>) -> Seq<char>
    decreases s.len(),
{
    if s.len() > 0 && is_space(s.first()) {
        trim_front(s.drop_first())
    } else {
        s
    }
}

pub open spec fn trim_back(s: Seq<char>) -> Seq<char>
    decreases s.len(),
{
    if s.len() > 0 && is_space(s.last()) {
        trim_back(s.drop_last())
    } else {
        s
    }
}

/// The surrounding-whitespace-free core of a character sequence.
pub open spec fn trimmed(s: Seq<char>) -> Seq<char> {
    trim_back(trim_front(s))
}

proof fn lemma_trim_front_skip(s: Seq<char>, i: int)
    requires
        0 <= i <= s.len(),
        forall|k: int| 0 <= k < i ==> is_space(s[k]),
    ensures
        trim_front(s) == trim_front(s.subrange(i, s.len() as int)),
    decreases i,
{
    if i == 0 {
        assert(s.subrange(0, s.len() as int) =~= s);
    } else {
        assert(is_space(s[0]));
        assert(trim_front(s) == trim_front(s.drop_first()));
        let t = s.drop_first();
        assert(t =~= s.subrange(1, s.len() as int));
        lemma_trim_front_skip(t, i - 1);
        assert(t.subrange(i - 1, t.len() as int) =~= s.subrange(i, s.len() as int));
    }
}

proof fn lemma_trim_back_skip(s: Seq<char>, j: int)
    requires
        0 <= j <= s.len(),
        forall|k: int| j <= k < s.len() ==> is_space(s[k]),
    ensures
        trim_back(s) == trim_back(s.subrange(0, j)),
    decreases s.len() - j,
{
    if j == s.len() {
        assert(s.subrange(0, s.len() as int) =~= s);
    } else {
        assert(is_space(s.last()));
        assert(trim_back(s) == trim_back(s.drop_last()));
        let t = s.drop_last();
        assert(t =~= s.subrange(0, s.len() - 1));
        lemma_trim_back_skip(t, j);
        assert(t.subrange(0, j) =~= s.subrange(0, j));
    }
}

/// Both ends stripped of whitespace, exactly as `trimmed` says.
pub fn trim_str<'a>(s: &'a str) -> (r: &'a str)
    ensures
        r@ == trimmed(s@),
{
    let n = s.unicode_len();
    let mut lo: usize = 0;
    loop
        invariant
            n == s@.len(),
            0 <= lo <= n,
            forall|k: int| 0 <= k < lo ==> is_space(s@[k]),
        ensures
            0 <= lo <= n,
            forall|k: int| 0 <= k < lo ==> is_space(s@[k]),
            lo == n || !is_space(s@[lo as int]),
        decreases n - lo,
    {
        if lo >= n {
            break;
        }
        if !char_is_space(s.get_char(lo)) {
            break;
        }
        lo = lo + 1;
    }
    let mut hi: usize = n;
    loop
        invariant
            n == s@.len(),
            lo <= hi <= n,
            forall|k: int| 0 <= k < lo ==> is_space(s@[k]),
            lo == n || !is_space(s@[lo as int]),
            forall|k: int| hi <= k < n ==> is_space(s@[k]),
        ensures
            lo <= hi <= n,
            forall|k: int| hi <= k < n ==> is_space(s@[k]),
            hi == lo || !is_space(s@[hi - 1]),
        decreases hi,
    {
        if hi <= lo {
            break;
        }
        if !char_is_space(s.get_char(hi - 1)) {
            break;
        }
        hi = hi - 1;
    }
    let r = s.substring_char(lo, hi);
    proof {
        let core = s@.subrange(lo as int, n as int);
        lemma_trim_front_skip(s@, lo as int);
        assert(trim_front(s@) == trim_front(core));
        if lo < n {
            assert(!is_space(core.first()));
            assert(trim_front(core) == core);
            lemma_trim_back_skip(core, hi - lo);
            assert(core.subrange(0, hi - lo) =~= s@.subrange(lo as int, hi as int));
            if hi > lo {
                assert(!is_space(core.subrange(0, hi - lo).last()));
            }
            assert(trim_back(core.subrange(0, hi - lo)) == core.subrange(0, hi - lo));
        } else {
            assert(core =~= Seq::<char>::empty());
            assert(trim_front(core) == core);
            assert(trim_back(core) == core);
            assert(s@.subrange(lo as int, hi as int) =~= core);
        }
        assert(r@ == trimmed(s@));
    }
    r
}

// ---------------------------------------------------------------------------
// Characters of a string as a vector, for index-based matching.
// ---------------------------------------------------------------------------

pub fn str_chars(s: &str) -> (r: Vec<char>)
    ensures
        r@ == s@,
{
    let n = s.unicode_len();
    let mut r: Vec<char> = Vec::new();
    let mut i: usize = 0;
    while i < n
        invariant
            n == s@.len(),
            0 <= i <= n,
            r@ == s@.subrange(0, i as int),
        decreases n - i,
    {
        r.push(s.get_char(i));
        i = i + 1;
        proof {
            assert(r@ =~= s@.subrange(0, i as int));
        }
    }
    proof {
        assert(s@.subrange(0, n as int) =~= s@);
    }
    r
}

// ---------------------------------------------------------------------------
// Substring and prefix tests.
// ---------------------------------------------------------------------------

/// `needle` occurs contiguously somewhere in `hay`.
pub open spec fn contains_sub(hay: Seq<char>, needle: Seq<char>) -> bool {
    exists|i: int|
        0 <= i <= hay.len() - needle.len() && #[trigger] hay.subrange(i, i + needle.len())
            == needle
}

/// `p` is a prefix of `s`.
pub open spec fn has_prefix(s: Seq<char>, p: Seq<char>) -> bool {
    p.len() <= s.len() && s.subrange(0, p.len() as int) == p
}

fn match_at(hay: &Vec<char>, needle: &Vec<char>, at: usize) -> (r: bool)
    requires
        at + needle@.len() <= hay@.len(),
    ensures
        r == (hay@.subrange(at as int, at + needle@.len()) == needle@),
{
    let n = hay.len();
    let m = needle.len();
    let mut j: usize = 0;
    loop
        invariant
            n == hay@.len(),
            m == needle@.len(),
            at + m <= n,
            0 <= j <= m,
            forall|k: int| 0 <= k < j ==> hay@[at + k] == needle@[k],
        ensures
            0 <= j <= m,
            forall|k: int| 0 <= k < j ==> hay@[at + k] == needle@[k],
            j == m || hay@[at + j] != needle@[j as int],
        decreases m - j,
    {
        if j >= m {
            break;
        }
        if hay[at + j] != needle[j] {
            break;
        }
        j = j + 1;
    }
    if j == m {
        proof {
            assert(hay@.subrange(at as int, at + needle@.len()) =~= needle@);
        }
        true
    } else {
        proof {
            let sub = hay@.subrange(at as int, at + needle@.len());
            assert(sub[j as int] == hay@[at + j]);
            assert(sub != needle@);
        }
        false
    }
}

/// Whether `needle` is a substring of `hay`, exactly as `contains_sub` says.
pub fn seq_contains(hay: &Vec<char>, needle: &Vec<char>) -> (r: bool)
    ensures
        r == contains_sub(hay@, needle@),
{
    let n = hay.len();
    let m = needle.len();
    if m > n {
        return false;
    }
    if m == 0 {
        proof {
            assert(hay@.subrange(0, 0 + needle@.len() as int) =~= needle@);
        }
        return true;
    }
    let mut i: usize = 0;
    loop
        invariant
            n == hay@.len(),
            m == needle@.len(),
            1 <= m <= n,
            0 <= i <= n - m + 1,
            forall|k: int|
                0 <= k < i ==> #[trigger] hay@.subrange(k, k + needle@.len()) != needle@,
        ensures
            forall|k: int|
                0 <= k < i ==> #[trigger] hay@.subrange(k, k + needle@.len()) != needle@,
            i == n - m + 1,
        decreases n - m - i + 1,
    {
        if i > n - m {
            break;
        }
        if match_at(hay, needle, i) {
            proof {
                assert(contains_sub(hay@, needle@));
            }
            return true;
        }
        i = i + 1;
    }
    proof {
        assert(forall|k: int|
            0 <= k <= hay@.len() - needle@.len() ==> #[trigger] hay@.subrange(
                k,
                k + needle@.len(),
            ) != needle@);
    }
    false
}

/// Whether `p` is a prefix of `s`, exactly as `has_prefix` says.
pub fn str_has_prefix(s: &str, p: &str) -> (r: bool)
    ensures
        r == has_prefix(s@, p@),
{
    let n = s.unicode_len();
    let m = p.unicode_len();
    if m > n {
        return false;
    }
    let mut j: usize = 0;
    loop
        invariant
            n == s@.len(),
            m == p@.len(),
            m <= n,
            0 <= j <= m,
            forall|k: int| 0 <= k < j ==> s@[k] == p@[k],
        ensures
            0 <= j <= m,
            forall|k: int| 0 <= k < j ==> s@[k] == p@[k],
            j == m || s@[j as int] != p@[j as int],
        decreases m - j,
    {
        if j >= m {
            break;
        }
        if s.get_char(j) != p.get_char(j) {
            break;
        }
        j = j + 1;
    }
    if j == m {
        proof {
            assert(s@.subrange(0, p@.len() as int) =~= p@);
        }
        true
    } else {
        proof {
            let sub = s@.subrange(0, p@.len() as int);
            assert(sub[j as int] == s@[j as int]);
            assert(sub != p@);
        }
        false
    }
}

/// Whether two strings hold the same characters.
pub fn str_eq(a: &str, b: &str) -> (r: bool)
    ensures
        r == (a@ == b@),
{
    let n = a.unicode_len();
    let m = b.unicode_len();
    if n != m {
        return false;
    }
    let r = str_has_prefix(a, b);
    proof {
        if r {
            assert(a@.subrange(0, b@.len() as int) =~= a@);
        }
        if a@ == b@ {
            assert(a@.subrange(0, b@.len() as int) =~= b@);
        }
    }
    r
}

// ---------------------------------------------------------------------------
// Helpers for the transliteration pass-through.
// ---------------------------------------------------------------------------

pub uninterp spec fn is_alnum(c: char) -> bool;

/// Relies on char::is_alphanumeric: whether a character is alphanumeric
/// depends on the character alone.
#[verifier::external_body]
pub fn char_is_alnum(c: char) -> (r: bool)
    ensures
        r == is_alnum(c),
{
    c.is_alphanumeric()
}

/// Relies on str::to_lowercase, applied to the one-character string holding
/// `c`; building that string only converts the argument.
#[verifier::external_body]
pub fn char_fold(c: char) -> (r: String)
    ensures
        r@ == lower_of(seq![c]),
{
    let mut s = String::new();
    s.push(c);
    s.to_lowercase()
}

} // verus!
