use vstd::prelude::*;
use crate::text::{char_fold, char_is_alnum, is_alnum, lower_of, str_chars};

verus! {

// ---------------------------------------------------------------------------
// Phonetic transliteration of titles. Characters with a romanization in the
// pinyin crate's table contribute their plain form; alphanumerics without one
// pass through case-folded; everything else is dropped.
// ---------------------------------------------------------------------------

pub uninterp spec fn pinyin_plain_of(c: char) -> Option<Seq<char>>;

/// Relies on pinyin::ToPinyin for char: the plain romanization, when the
/// crate's table has one, depends on the character alone, and every
/// romanization the table hands out is nonempty.
#[verifier::external_body]
fn char_pinyin(c: char) -> (r: Option<String>)
    ensures
        r is Some <==> pinyin_plain_of(c) is Some,
        (r matches Some(s) ==> Some(s@) == pinyin_plain_of(c)),
        (r matches Some(s) ==> s@.len() > 0),
{
    pinyin::ToPinyin::to_pinyin(&c).map(|p| p.plain().to_string())
}

/// What one character contributes to the full transliteration.
pub open spec fn full_of_char(c: char) -> Seq<char> {
    match pinyin_plain_of(c) {
        Some(p) => p,
        None => if is_alnum(c) {
            lower_of(seq![c])
        } else {
            Seq::empty()
        },
    }
}

/// What one character contributes to the initials-only transliteration.
pub open spec fn initial_of_char(c: char) -> Seq<char> {
    match pinyin_plain_of(c) {
        Some(p) => if p.len() > 0 {
            seq![p.first()]
        } else {
            seq!['\0']
        },
        None => if is_alnum(c) {
            lower_of(seq![c])
        } else {
            Seq::empty()
        },
    }
}

pub open spec fn full_translit(s: Seq<char>) -> Seq<char>
    decreases s.len(),
{
    if s.len() == 0 {
        Seq::empty()
    } else {
        full_translit(s.drop_last()) + full_of_char(s.last())
    }
}

pub open spec fn initials_translit(s: Seq<char>) -> Seq<char>
    decreases s.len(),
{
    if s.len() == 0 {
        Seq::empty()
    } else {
        initials_translit(s.drop_last()) + initial_of_char(s.last())
    }
}

/// The full and initials-only transliterations of a title, character by
/// character, exactly as `full_translit` and `initials_translit` say.
pub fn to_pinyin(title: &Vec<char>) -> (r: (Vec<char>, Vec<char>))
    ensures
        r.0@ == full_translit(title@),
        r.1@ == initials_translit(title@),
{
    let mut full: Vec<char> = Vec::new();
    let mut initials: Vec<char> = Vec::new();
    let n = title.len();
    let mut i: usize = 0;
    while i < n
        invariant
            n == title@.len(),
            0 <= i <= n,
            full@ == full_translit(title@.take(i as int)),
            initials@ == initials_translit(title@.take(i as int)),
        decreases n - i,
    {
        let c = title[i];
        match char_pinyin(c) {
            Some(p) => {
                let pv = str_chars(p.as_str());
                if pv.len() > 0 {
                    initials.push(pv[0]);
                } else {
                    initials.push('\0');
                }
                let m = pv.len();
                let mut j: usize = 0;
                while j < m
                    invariant
                        m == pv@.len(),
                        0 <= j <= m,
                        full@ == full_translit(title@.take(i as int)) + pv@.subrange(
                            0,
                            j as int,
                        ),
                    decreases m - j,
                {
                    full.push(pv[j]);
                    j = j + 1;
                    proof {
                        assert(full@ =~= full_translit(title@.take(i as int)) + pv@.subrange(
                            0,
                            j as int,
                        ));
                    }
                }
                proof {
                    assert(pv@.subrange(0, m as int) =~= pv@);
                    assert(full_of_char(c) == pv@);
                    assert(initial_of_char(c) == (if pv@.len() > 0 {
                        seq![pv@.first()]
                    } else {
                        seq!['\0']
                    }));
                }
            },
            None => {
                if char_is_alnum(c) {
                    let f = char_fold(c);
                    let fv = str_chars(f.as_str());
                    let m = fv.len();
                    let mut j: usize = 0;
                    while j < m
                        invariant
                            m == fv@.len(),
                            0 <= j <= m,
                            full@ == full_translit(title@.take(i as int)) + fv@.subrange(
                                0,
                                j as int,
                            ),
                            initials@ == initials_translit(title@.take(i as int)) + fv@.subrange(
                                0,
                                j as int,
                            ),
                        decreases m - j,
                    {
                        full.push(fv[j]);
                        initials.push(fv[j]);
                        j = j + 1;
                        proof {
                            assert(full@ =~= full_translit(title@.take(i as int)) + fv@.subrange(
                                0,
                                j as int,
                            ));
                            assert(initials@ =~= initials_translit(title@.take(i as int))
                                + fv@.subrange(0, j as int));
                        }
                    }
                    proof {
                        assert(fv@.subrange(0, m as int) =~= fv@);
                    }
                }
            },
        }
        i = i + 1;
        proof {
            let t = title@.take(i as int);
            assert(t.drop_last() =~= title@.take(i - 1));
            assert(t.last() == title@[i - 1]);
            assert(full@ =~= full_translit(title@.take(i - 1)) + full_of_char(title@[i - 1]));
            assert(initials@ =~= initials_translit(title@.take(i - 1)) + initial_of_char(
                title@[i - 1],
            ));
        }
    }
    proof {
        assert(title@.take(n as int) =~= title@);
    }
    (full, initials)
}

} // verus!
