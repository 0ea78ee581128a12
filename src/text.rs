//! Whitespace-separated fields of a line of text.

use vstd::prelude::*;

verus! {

/// The characters that separate fields: those Unicode marks as white space.
pub open spec fn is_space(c: char) -> bool {
    ||| '\u{9}' <= c <= '\u{d}'
    ||| c == ' '
    ||| c == '\u{85}'
    ||| c == '\u{a0}'
    ||| c == '\u{1680}'
    ||| '\u{2000}' <= c <= '\u{200a}'
    ||| c == '\u{2028}'
    ||| c == '\u{2029}'
    ||| c == '\u{202f}'
    ||| c == '\u{205f}'
    ||| c == '\u{3000}'
}

/// Whether `c` separates fields.
pub fn is_space_char(c: char) -> (r: bool)
    ensures
        r == is_space(c),
{
    ('\u{9}' <= c && c <= '\u{d}') || c == ' ' || c == '\u{85}' || c == '\u{a0}' || c
        == '\u{1680}' || ('\u{2000}' <= c && c <= '\u{200a}') || c == '\u{2028}' || c
        == '\u{2029}' || c == '\u{202f}' || c == '\u{205f}' || c == '\u{3000}'
}

/// The characters of `s`, one by one.
pub fn chars_of(s: &str) -> (r: Vec<char>)
    ensures
        r@ == s@,
{
    let mut r: Vec<char> = Vec::new();
    for c in it: s.chars()
        invariant
            r@ == it.seq().take(it.index() as int),
            it.seq() == s@,
    {
        r.push(c);
    }
    r
}

/// The fields of `s`: its maximal runs of characters that are not white
/// space, in order. A field starts at each such character that opens the text
/// or follows white space, and every later such character extends it.
pub open spec fn fields(s: Seq<char>) -> Seq<Seq<char>>
    decreases s.len(),
{
    if s.len() == 0 {
        seq![]
    } else {
        let f = fields(s.drop_last());
        let c = s.last();
        if is_space(c) {
            f
        } else if s.len() >= 2 && !is_space(s[s.len() - 2]) {
            f.update(f.len() - 1, f.last().push(c))
        } else {
            f.push(seq![c])
        }
    }
}

/// What a list of character vectors holds.
pub open spec fn views(v: Seq<Vec<char>>) -> Seq<Seq<char>> {
    v.map_values(|x: Vec<char>| x@)
}

/// The whitespace-separated fields of `line`.
pub fn split_fields(line: &str) -> (r: Vec<Vec<char>>)
    ensures
        views(r@) == fields(line@),
{
    let chars = chars_of(line);
    let mut out: Vec<Vec<char>> = Vec::new();
    let mut cur: Vec<char> = Vec::new();
    let mut i: usize = 0;
    while i < chars.len()
        invariant
            i <= chars@.len(),
            chars@ == line@,
            cur@.len() > 0 <==> (i > 0 && !is_space(chars@[i - 1])),
            fields(chars@.take(i as int)) == if cur@.len() > 0 {
                views(out@).push(cur@)
            } else {
                views(out@)
            },
        decreases chars@.len() - i,
    {
        let c = chars[i];
        let ghost before = chars@.take(i as int);
        assert(chars@.take(i + 1).drop_last() =~= before);
        if is_space_char(c) {
            if cur.len() > 0 {
                out.push(cur);
                cur = Vec::new();
                assert(views(out@) =~= fields(before));
            }
        } else {
            let ghost old_cur = cur@;
            cur.push(c);
            proof {
                if old_cur.len() > 0 {
                    assert(chars@.take(i + 1)[i - 1] == chars@[i - 1]);
                    assert(fields(chars@.take(i + 1)) =~= views(out@).push(cur@));
                } else {
                    if i > 0 {
                        assert(chars@.take(i + 1)[i - 1] == chars@[i - 1]);
                    }
                    assert(chars@.take(i + 1).last() == c);
                    assert(cur@ =~= seq![c]);
                    assert(fields(chars@.take(i + 1)) =~= views(out@).push(cur@));
                }
            }
        }
        i = i + 1;
    }
    if cur.len() > 0 {
        out.push(cur);
    }
    assert(chars@.take(chars@.len() as int) =~= chars@);
    assert(views(out@) =~= fields(line@));
    out
}

/// The fields `fs` one after another, with a tab between neighbours.
pub open spec fn tab_joined(fs: Seq<Seq<char>>) -> Seq<char>
    decreases fs.len(),
{
    if fs.len() == 0 {
        seq![]
    } else if fs.len() == 1 {
        fs[0]
    } else {
        tab_joined(fs.drop_last()) + seq!['\t'] + fs.last()
    }
}

/// The first `columns` fields of `s` (all of them, where it has fewer),
/// separated by tabs.
pub open spec fn trimmed(s: Seq<char>, columns: int) -> Seq<char> {
    tab_joined(fields(s).take(if columns < fields(s).len() {
        columns
    } else {
        fields(s).len() as int
    }))
}

/// A field: at least one character, none of them white space.
pub open spec fn is_word(w: Seq<char>) -> bool {
    w.len() > 0 && forall|i: int| 0 <= i < w.len() ==> !is_space(#[trigger] w[i])
}

/// Every field of a text is a word.
proof fn lemma_fields_are_words(s: Seq<char>)
    ensures
        forall|i: int| 0 <= i < fields(s).len() ==> is_word(#[trigger] fields(s)[i]),
    decreases s.len(),
{
    if s.len() > 0 {
        let f = fields(s.drop_last());
        lemma_fields_are_words(s.drop_last());
        let c = s.last();
        if !is_space(c) {
            if s.len() >= 2 && !is_space(s[s.len() - 2]) {
                lemma_fields_nonempty(s.drop_last());
                let w = f.last().push(c);
                assert(is_word(f[f.len() - 1]));
                assert forall|i: int| 0 <= i < w.len() implies !is_space(#[trigger] w[i]) by {
                    if i < w.len() - 1 {
                        assert(w[i] == f[f.len() - 1][i]);
                    }
                }
                assert forall|i: int| 0 <= i < fields(s).len() implies is_word(#[trigger] fields(s)[i]) by {
                    if i < f.len() - 1 {
                        assert(fields(s)[i] == f[i]);
                    }
                }
            } else {
                assert forall|i: int| 0 <= i < fields(s).len() implies is_word(#[trigger] fields(s)[i]) by {
                    if i < f.len() {
                        assert(fields(s)[i] == f[i]);
                    } else {
                        assert(fields(s)[i] =~= seq![c]);
                    }
                }
            }
        }
    }
}

/// A text that ends in a character other than white space has a field.
proof fn lemma_fields_nonempty(s: Seq<char>)
    requires
        s.len() > 0,
        !is_space(s.last()),
    ensures
        fields(s).len() > 0,
    decreases s.len(),
{
    if s.len() >= 2 && !is_space(s[s.len() - 2]) {
        assert(s.drop_last().last() == s[s.len() - 2]);
        lemma_fields_nonempty(s.drop_last());
    }
}

/// Appending a word to a text that is empty or ends in white space adds that
/// word as one more field.
proof fn lemma_fields_append_word(x: Seq<char>, w: Seq<char>)
    requires
        x.len() == 0 || is_space(x.last()),
        is_word(w),
    ensures
        fields(x + w) == fields(x).push(w),
    decreases w.len(),
{
    let xw = x + w;
    let c = w.last();
    assert(xw.drop_last() =~= x + w.drop_last());
    assert(xw.last() == c);
    if w.len() == 1 {
        assert(x + w.drop_last() =~= x);
        if xw.len() >= 2 {
            assert(xw[xw.len() - 2] == x.last());
        }
        assert(w =~= seq![c]);
    } else {
        let w0 = w.drop_last();
        assert forall|i: int| 0 <= i < w0.len() implies !is_space(#[trigger] w0[i]) by {
            assert(w0[i] == w[i]);
        }
        lemma_fields_append_word(x, w0);
        assert(xw[xw.len() - 2] == w[w.len() - 2]);
        assert(w0.push(c) =~= w);
        assert(fields(x).push(w0).update(fields(x).len() as int, w0.push(c)) =~= fields(x).push(w));
    }
}

/// The fields of words joined by tabs are those words.
proof fn lemma_fields_of_joined(fs: Seq<Seq<char>>)
    requires
        forall|i: int| 0 <= i < fs.len() ==> is_word(#[trigger] fs[i]),
    ensures
        fields(tab_joined(fs)) == fs,
    decreases fs.len(),
{
    if fs.len() == 0 {
    } else if fs.len() == 1 {
        lemma_fields_append_word(seq![], fs[0]);
        assert(Seq::<char>::empty() + fs[0] =~= fs[0]);
        assert(Seq::<Seq<char>>::empty().push(fs[0]) =~= fs);
    } else {
        let init = fs.drop_last();
        assert forall|i: int| 0 <= i < init.len() implies is_word(#[trigger] init[i]) by {
            assert(init[i] == fs[i]);
        }
        lemma_fields_of_joined(init);
        let x = tab_joined(init) + seq!['\t'];
        assert(x.drop_last() =~= tab_joined(init));
        assert(is_space(x.last()));
        assert(fields(x) == fields(tab_joined(init)));
        assert(is_word(fs[fs.len() - 1]));
        lemma_fields_append_word(x, fs.last());
        assert(init.push(fs.last()) =~= fs);
    }
}

/// Trimming a trimmed line again to the same number of columns changes
/// nothing.
pub proof fn lemma_trim_is_stable(s: Seq<char>, columns: int)
    requires
        columns >= 0,
    ensures
        trimmed(trimmed(s, columns), columns) == trimmed(s, columns),
{
    let f = fields(s);
    let k = if columns < f.len() {
        columns
    } else {
        f.len() as int
    };
    let ts = f.take(k);
    lemma_fields_are_words(s);
    assert forall|i: int| 0 <= i < ts.len() implies is_word(#[trigger] ts[i]) by {
        assert(ts[i] == f[i]);
    }
    lemma_fields_of_joined(ts);
    assert(ts.take(ts.len() as int) =~= ts);
}

/// The first `columns` fields of `line` (all of them, where it has fewer),
/// separated by tabs.
pub fn trim_line(line: &str, columns: usize) -> (r: Vec<char>)
    ensures
        r@ == trimmed(line@, columns as int),
{
    let entries = split_fields(line);
    let ghost f = fields(line@);
    let count = if columns < entries.len() {
        columns
    } else {
        entries.len()
    };
    let mut out: Vec<char> = Vec::new();
    let mut i: usize = 0;
    while i < count
        invariant
            count <= entries@.len(),
            views(entries@) == f,
            i <= count,
            out@ == tab_joined(f.take(i as int)),
        decreases count - i,
    {
        if i > 0 {
            out.push('\t');
        }
        let entry = &entries[i];
        let ghost before = out@;
        let mut k: usize = 0;
        while k < entry.len()
            invariant
                k <= entry@.len(),
                out@ == before + entry@.take(k as int),
            decreases entry@.len() - k,
        {
            out.push(entry[k]);
            k = k + 1;
            assert(out@ =~= before + entry@.take(k as int));
        }
        proof {
            assert(entry@.take(entry@.len() as int) =~= entry@);
            assert(f.take(i + 1).drop_last() =~= f.take(i as int));
            assert(f.take(i + 1).last() == entry@);
            if i == 0 {
                assert(out@ =~= tab_joined(f.take(1)));
            } else {
                assert(out@ =~= tab_joined(f.take(i + 1)));
            }
        }
        i = i + 1;
    }
    out
}

} // verus!
