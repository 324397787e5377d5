//! Character-level helpers on strings: equality, the split at the first
//! colon, and the trimming of a line's terminators.
use vstd::prelude::*;

verus! {

/// Whether `i` is the position of the first `:` in `s`.
pub open spec fn is_first_colon(s: Seq<char>, i: int) -> bool {
    &&& 0 <= i < s.len()
    &&& s[i] == ':'
    &&& forall|j: int| 0 <= j < i ==> s[j] != ':'
}

/// The text before the first `:`, and the text after it if there is one.
pub open spec fn spec_split(s: Seq<char>) -> (Seq<char>, Option<Seq<char>>) {
    if exists|i: int| is_first_colon(s, i) {
        let i = choose|i: int| is_first_colon(s, i);
        (s.subrange(0, i), Some(s.subrange(i + 1, s.len() as int)))
    } else {
        (s, None)
    }
}

/// `s` without the run of `\n` at its end.
pub open spec fn trim_newlines(s: Seq<char>) -> Seq<char>
    decreases s.len(),
{
    if s.len() > 0 && s.last() == '\n' {
        trim_newlines(s.drop_last())
    } else {
        s
    }
}

/// The split of a text whose first colon stands at `i`.
pub proof fn lemma_split_at(s: Seq<char>, i: int)
    requires
        is_first_colon(s, i),
    ensures
        spec_split(s) == (s.subrange(0, i), Some(s.subrange(i + 1, s.len() as int))),
{
    let k = choose|k: int| is_first_colon(s, k);
    assert(k == i) by {
        if k < i {
            assert(s[k] != ':');
        }
        if i < k {
            assert(s[i] != ':');
        }
    }
}

/// Whether `a` and `b` hold the same characters.
pub fn text_eq(a: &str, b: &str) -> (r: bool)
    ensures
        r == (a@ == b@),
{
    let n = a.unicode_len();
    if n != b.unicode_len() {
        return false;
    }
    let mut i: usize = 0;
    while i < n
        invariant
            n == a@.len() == b@.len(),
            i <= n,
            forall|j: int| 0 <= j < i ==> a@[j] == b@[j],
        decreases n - i,
    {
        if a.get_char(i) != b.get_char(i) {
            return false;
        }
        i = i + 1;
    }
    assert(a@ =~= b@);
    true
}

/// Splits `s` at its first `:`: the text before it, and the text after it
/// if there is a colon at all.
pub fn split_first_colon(s: &str) -> (r: (&str, Option<&str>))
    ensures
        r.0@ == spec_split(s@).0,
        match r.1 {
            Some(rest) => spec_split(s@).1 == Some(rest@),
            None => spec_split(s@).1 is None,
        },
{
    let n = s.unicode_len();
    let mut i: usize = 0;
    while i < n
        invariant
            n == s@.len(),
            i <= n,
            forall|j: int| 0 <= j < i ==> s@[j] != ':',
        decreases n - i,
    {
        if s.get_char(i) == ':' {
            proof {
                lemma_split_at(s@, i as int);
            }
            return (s.substring_char(0, i), Some(s.substring_char(i + 1, n)));
        }
        i = i + 1;
    }
    assert(!exists|k: int| is_first_colon(s@, k));
    (s, None)
}

/// The line `line` without the `\n` characters at its end: what a line read
/// from a stream holds once its terminator is dropped.
pub fn trim_line(line: &str) -> (r: String)
    ensures
        r@ == trim_newlines(line@),
{
    let n = line.unicode_len();
    let mut end: usize = n;
    assert(line@.subrange(0, n as int) =~= line@);
    while end > 0 && line.get_char(end - 1) == '\n'
        invariant
            n == line@.len(),
            end <= n,
            trim_newlines(line@.subrange(0, end as int)) == trim_newlines(line@),
        decreases end,
    {
        assert(line@.subrange(0, end as int).drop_last() =~= line@.subrange(0, end - 1));
        end = end - 1;
    }
    let r = line.substring_char(0, end).to_owned();
    r
}

} // verus!
