//! Small checks on text.

use vstd::prelude::*;

verus! {

/// Whether `s` holds `'/'` or `'\\'`.
pub fn has_separator(s: &String) -> (found: bool)
    ensures
        found == (s@.contains('/') || s@.contains('\\')),
{
    let ghost text = s@;
    let mut found = false;
    for c in it: s.chars()
        invariant
            it.seq() == text,
            found == (exists|k: int| 0 <= k < it.index() && (text[k] == '/' || text[k] == '\\')),
    {
        if c == '/' || c == '\\' {
            found = true;
        }
    }
    found
}

/// Whether the characters of `s` are exactly those of `chars`.
pub fn same_text(s: &String, chars: &Vec<char>) -> (same: bool)
    ensures
        same == (s@ == chars@),
{
    let ghost text = s@;
    let n = chars.len();
    let mut k: usize = 0;
    for c in it: s.chars()
        invariant
            it.seq() == text,
            text == s@,
            n == chars@.len(),
            k == it.index(),
            k <= n,
            text.take(k as int) == chars@.take(k as int),
    {
        assert(k < text.len());
        assert(c == text[k as int]);
        if k >= n || chars[k] != c {
            assert(text != chars@) by {
                if k < n {
                    assert(text[k as int] != chars@[k as int]);
                }
            }
            return false;
        }
        assert(text.take(k + 1) == text.take(k as int).push(c));
        assert(chars@.take(k + 1) == chars@.take(k as int).push(c));
        k = k + 1;
    }
    assert(text.take(k as int) == text);
    if k == n {
        assert(chars@.take(k as int) == chars@);
        true
    } else {
        assert(text.len() != chars@.len());
        false
    }
}

} // verus!
