//! Names of the directories that hold downloaded data.
//!
//! The data directory's name ends in `_<version>`. Directories that share
//! everything before the last underscore but not the current name are left
//! over from other versions.

use vstd::prelude::*;
use crate::text::chars_of;

verus! {

/// Whether `needle` occurs in `hay` as a block of consecutive characters.
pub open spec fn occurs_in(needle: Seq<char>, hay: Seq<char>) -> bool {
    exists|i: int| 0 <= i && i + needle.len() <= hay.len() && #[trigger] hay.subrange(i, i + needle.len()) == needle
}

/// Whether `needle` occurs in `hay`.
pub fn contains_text(hay: &str, needle: &str) -> (r: bool)
    ensures
        r == occurs_in(needle@, hay@),
{
    let h = chars_of(hay);
    let n = chars_of(needle);
    if n.len() > h.len() {
        return false;
    }
    let hl = h.len();
    let last = hl - n.len();
    let mut i: usize = 0;
    while i <= last
        invariant
            h@ == hay@,
            n@ == needle@,
            last == h@.len() - n@.len(),
            hl == h@.len(),
            forall|k: int| 0 <= k < i ==> #[trigger] h@.subrange(k, k + n@.len()) != n@,
        decreases last + 1 - i,
    {
        let mut j: usize = 0;
        while j < n.len() && h[i + j] == n[j]
            invariant
                i <= last,
                last + n@.len() == hl,
                hl == h@.len(),
                j <= n@.len(),
                forall|q: int| 0 <= q < j ==> h@[i + q] == n@[q],
            decreases n@.len() - j,
        {
            j = j + 1;
        }
        if j == n.len() {
            assert(h@.subrange(i as int, i + n@.len()) =~= n@);
            return true;
        }
        assert(h@.subrange(i as int, i + n@.len())[j as int] != n@[j as int]);
        i = i + 1;
    }
    proof {
        assert forall|k: int| 0 <= k && k + needle@.len() <= hay@.len() implies #[trigger] hay@.subrange(
            k,
            k + needle@.len(),
        ) != needle@ by {
            assert(h@.subrange(k, k + n@.len()) != n@);
        }
    }
    false
}

/// The pattern that matches the data directory of every version: `dir` up
/// to and including its last underscore, then `*`; `_*` where `dir` has no
/// underscore.
pub open spec fn versions_pattern(dir: Seq<char>) -> Seq<char> {
    if exists|i: int| 0 <= i < dir.len() && dir[i] == '_' {
        let last = choose|i: int|
            0 <= i < dir.len() && dir[i] == '_' && forall|k: int| i < k < dir.len() ==> dir[k] != '_';
        dir.take(last + 1) + seq!['*']
    } else {
        seq!['_', '*']
    }
}

/// The pattern that matches the data directories of all versions.
pub fn old_data_dirs_pattern(data_dir: &str) -> (r: Vec<char>)
    ensures
        r@ == versions_pattern(data_dir@),
{
    let d = chars_of(data_dir);
    let mut i: usize = d.len();
    while i > 0 && d[i - 1] != '_'
        invariant
            i <= d@.len(),
            d@ == data_dir@,
            forall|k: int| i <= k < d@.len() ==> d@[k] != '_',
        decreases i,
    {
        i = i - 1;
    }
    let mut r: Vec<char> = Vec::new();
    if i == 0 {
        r.push('_');
        r.push('*');
        assert(r@ =~= seq!['_', '*']);
        return r;
    }
    let mut k: usize = 0;
    while k < i
        invariant
            k <= i <= d@.len(),
            r@ == d@.take(k as int),
        decreases i - k,
    {
        r.push(d[k]);
        k = k + 1;
        assert(r@ =~= d@.take(k as int));
    }
    r.push('*');
    proof {
        let last = (i - 1) as int;
        assert(d@[last] == '_');
        let c = choose|j: int|
            0 <= j < d@.len() && d@[j] == '_' && forall|q: int| j < q < d@.len() ==> d@[q] != '_';
        assert(c == last) by {
            if c < last {
                assert(d@[last] != '_');
            }
            if c > last {
                assert(d@[c] != '_');
            }
        }
        assert(r@ =~= d@.take(last + 1) + seq!['*']);
    }
    r
}

} // verus!
