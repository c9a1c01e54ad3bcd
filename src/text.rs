//! Character-level text handling: whitespace, words and lines.
use vstd::prelude::*;

verus! {

/// Unicode `White_Space`, the set that `char::is_whitespace` tests.
pub open spec fn is_space_char(c: char) -> bool {
    let n = c as u32;
    (0x9 <= n <= 0xd) || n == 0x20 || n == 0x85 || n == 0xa0 || n == 0x1680 || (0x2000 <= n
        <= 0x200a) || n == 0x2028 || n == 0x2029 || n == 0x202f || n == 0x205f || n == 0x3000
}

pub fn is_space(c: char) -> (r: bool)
    ensures
        r == is_space_char(c),
{
    let n = c as u32;
    (0x9 <= n && n <= 0xd) || n == 0x20 || n == 0x85 || n == 0xa0 || n == 0x1680 || (0x2000 <= n
        && n <= 0x200a) || n == 0x2028 || n == 0x2029 || n == 0x202f || n == 0x205f || n == 0x3000
}

/// Relies on `String::push`, which appends one character.
#[verifier::external_body]
fn push_char(s: &mut String, c: char)
    ensures
        final(s)@ == old(s)@.push(c),
{
    s.push(c)
}

/// The pieces of `t` between newline characters; there is always at least one.
pub open spec fn pieces(t: Seq<char>) -> Seq<Seq<char>>
    decreases t.len(),
{
    if t.len() == 0 {
        seq![Seq::empty()]
    } else {
        let p = pieces(t.drop_last());
        if t.last() == '\n' {
            p.push(Seq::empty())
        } else {
            p.update(p.len() - 1, p.last().push(t.last()))
        }
    }
}

pub proof fn lemma_pieces_nonempty(t: Seq<char>)
    ensures
        pieces(t).len() >= 1,
    decreases t.len(),
{
    if t.len() > 0 {
        lemma_pieces_nonempty(t.drop_last());
    }
}

/// The lines of `t`: each ends at a newline, and the last one may lack it.
pub open spec fn text_lines(t: Seq<char>) -> Seq<Seq<char>> {
    let p = pieces(t);
    if p.last().len() == 0 {
        p.drop_last()
    } else {
        p
    }
}

/// Text without a newline extends the last piece.
pub proof fn lemma_pieces_append_plain(a: Seq<char>, w: Seq<char>)
    requires
        !w.contains('\n'),
    ensures
        pieces(a + w) == pieces(a).update(pieces(a).len() - 1, pieces(a).last() + w),
    decreases w.len(),
{
    lemma_pieces_nonempty(a);
    let p = pieces(a);
    if w.len() == 0 {
        assert(a + w =~= a);
        assert(p.last() + w =~= p.last());
        assert(p.update(p.len() - 1, p.last() + w) =~= p);
    } else {
        let v = w.drop_last();
        assert(!v.contains('\n')) by {
            if v.contains('\n') {
                let k = choose|k: int| 0 <= k < v.len() && v[k] == '\n';
                assert(w[k] == '\n');
            }
        }
        lemma_pieces_append_plain(a, v);
        assert((a + w).drop_last() =~= a + v);
        assert(w.last() != '\n') by {
            assert(w[w.len() - 1] == w.last());
        }
        assert((a + w).last() == w.last());
        assert((p.last() + v).push(w.last()) =~= p.last() + w);
        assert(pieces(a + w) =~= p.update(p.len() - 1, p.last() + w));
    }
}

/// A newline starts a new, empty piece.
pub proof fn lemma_pieces_newline(a: Seq<char>)
    ensures
        pieces(a.push('\n')) == pieces(a).push(Seq::empty()),
{
    assert(a.push('\n').drop_last() =~= a);
}

/// No piece holds a newline.
pub proof fn lemma_pieces_plain(t: Seq<char>)
    ensures
        forall|i: int| 0 <= i < pieces(t).len() ==> !(#[trigger] pieces(t)[i]).contains('\n'),
    decreases t.len(),
{
    lemma_pieces_nonempty(t);
    if t.len() > 0 {
        let u = t.drop_last();
        lemma_pieces_plain(u);
        lemma_pieces_nonempty(u);
        let p = pieces(u);
        if t.last() != '\n' {
            let l = p.last().push(t.last());
            assert(!p[p.len() - 1].contains('\n'));
            assert(!l.contains('\n')) by {
                if l.contains('\n') {
                    let k = choose|k: int| 0 <= k < l.len() && l[k] == '\n';
                    if k < l.len() - 1 {
                        assert(p.last()[k] == '\n');
                    }
                }
            }
        } else {
            assert(!Seq::<char>::empty().contains('\n'));
        }
        assert forall|i: int| 0 <= i < pieces(t).len() implies !(
        #[trigger] pieces(t)[i]).contains('\n') by {
            if i < p.len() - 1 {
                assert(pieces(t)[i] == p[i]);
            }
        }
    }
}

pub fn split_lines(text: &str) -> (r: Vec<String>)
    ensures
        r@.map_values(|l: String| l@) == text_lines(text@),
{
    let mut out: Vec<String> = Vec::new();
    let mut cur = String::new();
    for c in it: text.chars()
        invariant
            it.seq() == text@,
            out@.map_values(|l: String| l@).push(cur@) == pieces(text@.take(it.index() as int)),
    {
        proof {
            let t = text@.take(it.index() + 1);
            assert(t.drop_last() =~= text@.take(it.index() as int));
            lemma_pieces_nonempty(t.drop_last());
        }
        if c == '\n' {
            out.push(cur);
            cur = String::new();
            assert(out@.map_values(|l: String| l@).push(cur@) =~= pieces(text@.take(it.index() + 1)));
        } else {
            push_char(&mut cur, c);
            assert(out@.map_values(|l: String| l@).push(cur@) =~= pieces(text@.take(it.index() + 1)));
        }
    }
    assert(text@.take(text@.len() as int) =~= text@);
    if !cur.as_str().is_empty() {
        out.push(cur);
    }
    assert(out@.map_values(|l: String| l@) =~= text_lines(text@));
    out
}

/// The words of `s`: the maximal runs of characters that are not whitespace,
/// in order, as `str::split_whitespace` yields them.
pub open spec fn words(s: Seq<char>) -> Seq<Seq<char>>
    decreases s.len(),
{
    if s.len() == 0 {
        Seq::empty()
    } else {
        let prev = words(s.drop_last());
        let c = s.last();
        if is_space_char(c) {
            prev
        } else if s.len() >= 2 && !is_space_char(s[s.len() - 2]) {
            prev.update(prev.len() - 1, prev.last().push(c))
        } else {
            prev.push(seq![c])
        }
    }
}

/// A word is a non-empty run without whitespace.
pub open spec fn is_word(w: Seq<char>) -> bool {
    w.len() > 0 && forall|i: int| 0 <= i < w.len() ==> !is_space_char(#[trigger] w[i])
}

/// Every word of `s` is a word, and `s` ends inside its last word exactly
/// when its last character is not whitespace.
pub proof fn lemma_words_shape(s: Seq<char>)
    ensures
        forall|i: int| 0 <= i < words(s).len() ==> is_word(#[trigger] words(s)[i]),
        (s.len() > 0 && !is_space_char(s.last())) ==> words(s).len() > 0,
    decreases s.len(),
{
    if s.len() > 0 {
        let t = s.drop_last();
        lemma_words_shape(t);
        let prev = words(t);
        let c = s.last();
        if !is_space_char(c) {
            if s.len() >= 2 && !is_space_char(s[s.len() - 2]) {
                assert(t.last() == s[s.len() - 2]);
                let w = prev.last().push(c);
                assert(is_word(prev[prev.len() - 1]));
                assert forall|i: int| 0 <= i < w.len() implies !is_space_char(#[trigger] w[i]) by {
                    if i < w.len() - 1 {
                        assert(w[i] == prev.last()[i]);
                    }
                }
            } else {
                assert(is_word(seq![c]));
            }
        }
    }
}

/// Appending whitespace adds no word.
pub proof fn lemma_words_push_space(s: Seq<char>, c: char)
    requires
        is_space_char(c),
    ensures
        words(s.push(c)) == words(s),
{
    assert(s.push(c).drop_last() =~= s);
}

/// Appending a word after whitespace (or at the start) adds it as the next word.
pub proof fn lemma_words_append_word(s: Seq<char>, w: Seq<char>)
    requires
        is_word(w),
        s.len() == 0 || is_space_char(s.last()),
    ensures
        words(s + w) == words(s).push(w),
    decreases w.len(),
{
    let t = s + w;
    assert(t.drop_last() =~= s + w.drop_last());
    if w.len() == 1 {
        assert(w.drop_last() =~= Seq::<char>::empty());
        assert(s + w.drop_last() =~= s);
        assert(seq![w.last()] =~= w);
    } else {
        let v = w.drop_last();
        assert(is_word(v)) by {
            assert forall|i: int| 0 <= i < v.len() implies !is_space_char(#[trigger] v[i]) by {
                assert(v[i] == w[i]);
            }
        }
        lemma_words_append_word(s, v);
        assert(t[t.len() - 2] == w[w.len() - 2]);
        assert(v.push(w.last()) =~= w);
    }
}

pub fn split_words(s: &str) -> (r: Vec<String>)
    ensures
        r@.map_values(|w: String| w@) == words(s@),
{
    let mut out: Vec<String> = Vec::new();
    let mut cur = String::new();
    for c in it: s.chars()
        invariant
            it.seq() == s@,
            (if cur@.len() > 0 {
                out@.map_values(|w: String| w@).push(cur@)
            } else {
                out@.map_values(|w: String| w@)
            }) == words(s@.take(it.index() as int)),
            cur@.len() > 0 <==> (it.index() > 0 && !is_space_char(s@[it.index() - 1])),
    {
        let ghost i = it.index();
        proof {
            let t = s@.take(i + 1);
            assert(t.drop_last() =~= s@.take(i));
            assert(t.last() == c);
            if i > 0 {
                assert(t[t.len() - 2] == s@[i - 1]);
            }
        }
        if is_space(c) {
            if !cur.as_str().is_empty() {
                out.push(cur);
                cur = String::new();
            }
            assert(out@.map_values(|w: String| w@) =~= words(s@.take(i + 1)));
        } else {
            let ghost was = cur@;
            let fresh = cur.as_str().is_empty();
            push_char(&mut cur, c);
            if !fresh {
                assert(out@.map_values(|w: String| w@).push(cur@) =~= words(s@.take(i + 1)));
            } else {
                assert(was =~= Seq::<char>::empty());
                assert(out@.map_values(|w: String| w@).push(cur@) =~= words(s@.take(i + 1)));
            }
        }
    }
    assert(s@.take(s@.len() as int) =~= s@);
    if !cur.as_str().is_empty() {
        out.push(cur);
    }
    assert(out@.map_values(|w: String| w@) =~= words(s@));
    out
}

/// `l` without one carriage return at its end.
pub open spec fn without_cr(l: Seq<char>) -> Seq<char> {
    if l.len() > 0 && l.last() == '\r' {
        l.drop_last()
    } else {
        l
    }
}

/// The lines of `t` as `str::lines` yields them: those of `text_lines`,
/// each that ended at a newline without one carriage return before it.
pub open spec fn crlf_lines(t: Seq<char>) -> Seq<Seq<char>> {
    let ls = text_lines(t);
    let terminated = t.len() > 0 && t.last() == '\n';
    ls.map(
        |i: int, l: Seq<char>|
            if i + 1 < ls.len() || terminated {
                without_cr(l)
            } else {
                l
            },
    )
}

pub fn split_crlf_lines(text: &str) -> (r: Vec<String>)
    ensures
        r@.map_values(|l: String| l@) == crlf_lines(text@),
{
    let raw = split_lines(text);
    let n = text.unicode_len();
    let terminated = n > 0 && text.get_char(n - 1) == '\n';
    let ghost ls = text_lines(text@);
    let mut out: Vec<String> = Vec::new();
    let mut i: usize = 0;
    while i < raw.len()
        invariant
            i <= raw.len(),
            raw@.map_values(|l: String| l@) == ls,
            ls == text_lines(text@),
            terminated == (text@.len() > 0 && text@.last() == '\n'),
            out@.map_values(|l: String| l@) == crlf_lines(text@).take(i as int),
        decreases raw.len() - i,
    {
        let ghost before = out@.map_values(|l: String| l@);
        let line = raw[i].as_str();
        let m = line.unicode_len();
        assert(line@ == ls[i as int]);
        assert(ls.len() == raw.len());
        let ends_cr = m > 0 && line.get_char(m - 1) == '\r';
        assert(ends_cr == (line@.len() > 0 && line@.last() == '\r'));
        if (i + 1 < raw.len() || terminated) && ends_cr {
            out.push(String::from_str(line.substring_char(0, m - 1)));
            assert(line@.subrange(0, m - 1) =~= without_cr(ls[i as int]));
            assert(crlf_lines(text@)[i as int] == without_cr(ls[i as int]));
        } else {
            out.push(raw[i].clone());
            assert(crlf_lines(text@)[i as int] == ls[i as int]);
        }
        assert(out@.map_values(|l: String| l@) =~= before.push(crlf_lines(text@)[i as int]));
        assert(crlf_lines(text@).take(i + 1) =~= crlf_lines(text@).take(i as int).push(
            crlf_lines(text@)[i as int],
        ));
        i = i + 1;
    }
    assert(crlf_lines(text@).take(raw.len() as int) =~= crlf_lines(text@));
    out
}

} // verus!
