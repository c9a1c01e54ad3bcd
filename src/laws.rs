//! What holds of the document operations together: counts of blocked sites
//! after adding, deleting and setting, and reading back what was written.
use vstd::prelude::*;

use crate::command::remove_replies;
use crate::hosts::{
    add_one, blocked_of, doc_text, first_site_line, lemma_first_site_line_bounds, parse_lines,
    remove_one, unlisted, with_added, with_deleted, with_set,
};
use crate::line::{classify, is_site_name, lemma_classified_sound, lemma_site_line_sound, line_text, sound_line, Line};
use crate::text::{
    lemma_pieces_append_plain, lemma_pieces_newline, lemma_pieces_nonempty, lemma_pieces_plain,
    pieces, text_lines,
};

verus! {

/// How many times `x` occurs in `s`.
pub open spec fn count_of(s: Seq<Seq<char>>, x: Seq<char>) -> nat
    decreases s.len(),
{
    if s.len() == 0 {
        0
    } else {
        count_of(s.drop_last(), x) + if s.last() == x {
            1nat
        } else {
            0nat
        }
    }
}

pub proof fn lemma_count_contains(s: Seq<Seq<char>>, x: Seq<char>)
    ensures
        count_of(s, x) > 0 <==> s.contains(x),
    decreases s.len(),
{
    if s.len() > 0 {
        let t = s.drop_last();
        lemma_count_contains(t, x);
        if t.contains(x) {
            let k = choose|k: int| 0 <= k < t.len() && t[k] == x;
            assert(s[k] == x);
        }
        if s.last() == x {
            assert(s[s.len() - 1] == x);
        }
        if s.contains(x) {
            let k = choose|k: int| 0 <= k < s.len() && s[k] == x;
            if k < t.len() {
                assert(t[k] == x);
            }
        }
    }
}

pub proof fn lemma_count_concat(a: Seq<Seq<char>>, b: Seq<Seq<char>>, x: Seq<char>)
    ensures
        count_of(a + b, x) == count_of(a, x) + count_of(b, x),
    decreases b.len(),
{
    if b.len() == 0 {
        assert(a + b =~= a);
    } else {
        lemma_count_concat(a, b.drop_last(), x);
        assert((a + b).drop_last() =~= a + b.drop_last());
        assert((a + b).last() == b.last());
    }
}

pub proof fn lemma_count_single(h: Seq<char>, x: Seq<char>)
    ensures
        count_of(seq![h], x) == if h == x {
            1nat
        } else {
            0nat
        },
{
    let s = seq![h];
    assert(s.drop_last() =~= Seq::<Seq<char>>::empty());
    assert(s.last() == h);
    assert(count_of(Seq::<Seq<char>>::empty(), x) == 0);
}

pub proof fn lemma_blocked_concat(a: Seq<Line>, b: Seq<Line>)
    ensures
        blocked_of(a + b) == blocked_of(a) + blocked_of(b),
    decreases b.len(),
{
    if b.len() == 0 {
        assert(a + b =~= a);
        assert(blocked_of(a) + blocked_of(b) =~= blocked_of(a));
    } else {
        lemma_blocked_concat(a, b.drop_last());
        assert((a + b).drop_last() =~= a + b.drop_last());
        assert((a + b).last() == b.last());
        match b.last() {
            Line::BlockedSite(h) => {
                assert(blocked_of(a) + blocked_of(b) =~= (blocked_of(a) + blocked_of(
                    b.drop_last(),
                )).push(h));
            },
            _ => {},
        }
    }
}

/// A blocked site has a blocked-site line.
pub proof fn lemma_blocked_has_line(ls: Seq<Line>, h: Seq<char>)
    requires
        blocked_of(ls).contains(h),
    ensures
        exists|k: int| 0 <= k < ls.len() && ls[k] == Line::BlockedSite(h),
    decreases ls.len(),
{
    let t = ls.drop_last();
    let p = blocked_of(t);
    if ls.last() == Line::BlockedSite(h) {
        assert(ls[ls.len() - 1] == Line::BlockedSite(h));
    } else {
        let k = choose|k: int| 0 <= k < blocked_of(ls).len() && blocked_of(ls)[k] == h;
        match ls.last() {
            Line::BlockedSite(g) => {
                assert(k < p.len());
                assert(p[k] == h);
            },
            _ => {},
        }
        assert(p.contains(h));
        lemma_blocked_has_line(t, h);
        let j = choose|j: int| 0 <= j < t.len() && t[j] == Line::BlockedSite(h);
        assert(ls[j] == Line::BlockedSite(h));
    }
}

/// After blocking `hs`, a site occurs as often as before if it was blocked,
/// once if `hs` names it, and not at all otherwise.
pub proof fn lemma_add_counts(ls: Seq<Line>, hs: Seq<Seq<char>>)
    ensures
        forall|x: Seq<char>| #[trigger]
            count_of(blocked_of(with_added(ls, hs)), x) == if count_of(blocked_of(ls), x) > 0 {
                count_of(blocked_of(ls), x)
            } else if hs.contains(x) {
                1
            } else {
                0
            },
    decreases hs.len(),
{
    if hs.len() > 0 {
        let p = hs.drop_last();
        let y = hs.last();
        lemma_add_counts(ls, p);
        let mid = with_added(ls, p);
        let bm = blocked_of(mid);
        lemma_count_contains(bm, y);
        if !bm.contains(y) {
            assert(mid.push(Line::BlockedSite(y)).drop_last() =~= mid);
        }
        assert forall|x: Seq<char>| #[trigger]
            count_of(blocked_of(with_added(ls, hs)), x) == if count_of(blocked_of(ls), x) > 0 {
                count_of(blocked_of(ls), x)
            } else if hs.contains(x) {
                1
            } else {
                0
            } by {
            if p.contains(x) {
                let k = choose|k: int| 0 <= k < p.len() && p[k] == x;
                assert(hs[k] == x);
            }
            if x == y {
                assert(hs[hs.len() - 1] == x);
            }
            if hs.contains(x) && x != y {
                let k = choose|k: int| 0 <= k < hs.len() && hs[k] == x;
                assert(p[k] == x);
            }
            assert(count_of(blocked_of(mid), x) == if count_of(blocked_of(ls), x) > 0 {
                count_of(blocked_of(ls), x)
            } else if p.contains(x) {
                1
            } else {
                0
            });
            if !bm.contains(y) {
                let grown = mid.push(Line::BlockedSite(y));
                assert(with_added(ls, hs) == add_one(mid, y));
                assert(add_one(mid, y) == grown);
                assert(grown.drop_last() =~= mid);
                assert(grown.last() == Line::BlockedSite(y));
                assert(blocked_of(grown) == bm.push(y));
                assert(bm.push(y).drop_last() =~= bm);
                assert(bm.push(y).last() == y);
                assert(count_of(bm.push(y), x) == count_of(bm, x) + if y == x {
                    1nat
                } else {
                    0nat
                });
            } else {
                assert(with_added(ls, hs) == mid);
            }
        }
    }
}

/// Blocking sites that are all blocked already changes nothing.
pub proof fn lemma_add_present(ls: Seq<Line>, hs: Seq<Seq<char>>)
    requires
        forall|i: int| 0 <= i < hs.len() ==> blocked_of(ls).contains(#[trigger] hs[i]),
    ensures
        with_added(ls, hs) == ls,
    decreases hs.len(),
{
    if hs.len() > 0 {
        let p = hs.drop_last();
        assert forall|i: int| 0 <= i < p.len() implies blocked_of(ls).contains(#[trigger] p[i]) by {
            assert(p[i] == hs[i]);
        }
        lemma_add_present(ls, p);
        assert(blocked_of(ls).contains(hs[hs.len() - 1]));
    }
}

/// After `add(hs)` every site of `hs` is blocked, exactly once where it was
/// not blocked twice or more before; adding the same sites again changes
/// nothing.
pub proof fn lemma_add_blocks_each_once(ls: Seq<Line>, hs: Seq<Seq<char>>)
    ensures
        forall|i: int|
            0 <= i < hs.len() ==> blocked_of(with_added(ls, hs)).contains(#[trigger] hs[i]),
        forall|i: int|
            0 <= i < hs.len() && count_of(blocked_of(ls), #[trigger] hs[i]) <= 1 ==> count_of(
                blocked_of(with_added(ls, hs)),
                hs[i],
            ) == 1,
        with_added(with_added(ls, hs), hs) == with_added(ls, hs),
{
    lemma_add_counts(ls, hs);
    let after = blocked_of(with_added(ls, hs));
    assert forall|i: int| 0 <= i < hs.len() implies after.contains(#[trigger] hs[i]) by {
        assert(hs.contains(hs[i]));
        lemma_count_contains(after, hs[i]);
    }
    lemma_add_present(with_added(ls, hs), hs);
}

/// Adding the same site twice in one call leaves one blocked-site line for
/// it, where it had at most one before.
pub proof fn lemma_add_twice_once(ls: Seq<Line>, h: Seq<char>)
    ensures
        count_of(blocked_of(ls), h) <= 1 ==> count_of(
            blocked_of(with_added(ls, seq![h, h])),
            h,
        ) == 1,
{
    lemma_add_blocks_each_once(ls, seq![h, h]);
    assert(seq![h, h][0] == h);
}

/// Deleting one site changes, of the blocked sites, only one occurrence of
/// that site, if it has one.
pub proof fn lemma_remove_one_counts(ls: Seq<Line>, h: Seq<char>)
    ensures
        forall|x: Seq<char>| #[trigger]
            count_of(blocked_of(remove_one(ls, h)), x) == if x == h && count_of(
                blocked_of(ls),
                h,
            ) > 0 {
                (count_of(blocked_of(ls), x) - 1) as nat
            } else {
                count_of(blocked_of(ls), x)
            },
        !blocked_of(ls).contains(h) ==> remove_one(ls, h) == ls,
{
    lemma_first_site_line_bounds(ls, h);
    lemma_count_contains(blocked_of(ls), h);
    match first_site_line(ls, h) {
        Some(j) => {
            let a = ls.take(j);
            let c = ls.skip(j + 1);
            let one = seq![Line::BlockedSite(h)];
            assert(ls =~= a + one + c);
            assert(ls.remove(j) =~= a + c);
            lemma_blocked_concat(a, one);
            lemma_blocked_concat(a + one, c);
            lemma_blocked_concat(a, c);
            assert(one.drop_last() =~= Seq::<Line>::empty());
            assert(one.last() == Line::BlockedSite(h));
            assert(blocked_of(Seq::<Line>::empty()) =~= Seq::<Seq<char>>::empty());
            assert(blocked_of(one) =~= seq![h]);
            assert forall|x: Seq<char>| #[trigger]
                count_of(blocked_of(remove_one(ls, h)), x) == if x == h && count_of(
                    blocked_of(ls),
                    h,
                ) > 0 {
                    (count_of(blocked_of(ls), x) - 1) as nat
                } else {
                    count_of(blocked_of(ls), x)
                } by {
                lemma_count_concat(blocked_of(a), seq![h], x);
                lemma_count_concat(blocked_of(a) + seq![h], blocked_of(c), x);
                lemma_count_concat(blocked_of(a), blocked_of(c), x);
                lemma_count_single(h, x);
            }
            assert(ls[j] == Line::BlockedSite(h));
            assert(blocked_of(ls).contains(h)) by {
                assert(blocked_of(ls)[blocked_of(a).len() as int] == h);
            }
        },
        None => {
            if blocked_of(ls).contains(h) {
                lemma_blocked_has_line(ls, h);
            }
        },
    }
}

/// After deleting `rs`, each site occurs as often as before less the times
/// `rs` names it, and never fewer than no times.
pub proof fn lemma_delete_counts(ls: Seq<Line>, rs: Seq<Seq<char>>)
    ensures
        forall|x: Seq<char>| #[trigger]
            count_of(blocked_of(with_deleted(ls, rs)), x) == if count_of(blocked_of(ls), x)
                >= count_of(rs, x) {
                (count_of(blocked_of(ls), x) - count_of(rs, x)) as nat
            } else {
                0
            },
    decreases rs.len(),
{
    if rs.len() > 0 {
        let p = rs.drop_last();
        lemma_delete_counts(ls, p);
        lemma_remove_one_counts(with_deleted(ls, p), rs.last());
    }
}

/// How often `x` occurs among the items of `s` that `keep` does not hold.
pub proof fn lemma_unlisted_counts(s: Seq<Seq<char>>, keep: Seq<Seq<char>>)
    ensures
        forall|x: Seq<char>| #[trigger]
            count_of(unlisted(s, keep), x) == if keep.contains(x) {
                0
            } else {
                count_of(s, x)
            },
    decreases s.len(),
{
    if s.len() > 0 {
        let t = s.drop_last();
        let p = unlisted(t, keep);
        lemma_unlisted_counts(t, keep);
        assert forall|x: Seq<char>| #[trigger]
            count_of(unlisted(s, keep), x) == if keep.contains(x) {
                0
            } else {
                count_of(s, x)
            } by {
            assert(count_of(s, x) == count_of(t, x) + if s.last() == x {
                1nat
            } else {
                0nat
            });
            if !keep.contains(s.last()) {
                let q = p.push(s.last());
                assert(unlisted(s, keep) == q);
                assert(q.drop_last() =~= p);
                assert(q.last() == s.last());
                assert(count_of(q, x) == count_of(p, x) + if s.last() == x {
                    1nat
                } else {
                    0nat
                });
            } else {
                assert(unlisted(s, keep) == p);
            }
        }
    }
}

/// After `set(hs)` the blocked sites are exactly the sites of `hs`, each of
/// them once where it was not blocked twice or more before.
pub proof fn lemma_set_blocks_exactly(ls: Seq<Line>, hs: Seq<Seq<char>>)
    ensures
        forall|x: Seq<char>| #[trigger] blocked_of(with_set(ls, hs)).contains(x) <==> hs.contains(x),
        forall|i: int|
            0 <= i < hs.len() && count_of(blocked_of(ls), #[trigger] hs[i]) <= 1 ==> count_of(
                blocked_of(with_set(ls, hs)),
                hs[i],
            ) == 1,
{
    let b = blocked_of(ls);
    let gone = unlisted(b, hs);
    let fresh = unlisted(hs, b);
    let mid = with_deleted(ls, gone);
    let after = blocked_of(with_set(ls, hs));
    lemma_unlisted_counts(b, hs);
    lemma_unlisted_counts(hs, b);
    lemma_delete_counts(ls, gone);
    lemma_add_counts(mid, fresh);
    assert forall|x: Seq<char>| #[trigger] after.contains(x) <==> hs.contains(x) by {
        lemma_count_contains(after, x);
        lemma_count_contains(b, x);
        lemma_count_contains(hs, x);
        lemma_count_contains(fresh, x);
        lemma_count_contains(blocked_of(mid), x);
    }
    assert forall|i: int|
        0 <= i < hs.len() && count_of(b, #[trigger] hs[i]) <= 1 implies count_of(after, hs[i])
        == 1 by {
        let x = hs[i];
        assert(hs.contains(x));
        lemma_count_contains(b, x);
        lemma_count_contains(fresh, x);
        lemma_count_contains(hs, x);
    }
}

/// Deleting a site that is not blocked is reported as not found and changes
/// nothing, so the file is written back as it was.
pub proof fn lemma_delete_unblocked(ls: Seq<Line>, h: Seq<char>)
    requires
        !blocked_of(ls).contains(h),
    ensures
        remove_replies(ls, seq![h]) == seq![(h, false)],
        with_deleted(ls, seq![h]) == ls,
        doc_text(with_deleted(ls, seq![h])) == doc_text(ls),
{
    let hs = seq![h];
    assert(hs.drop_last() =~= Seq::<Seq<char>>::empty());
    assert(hs.last() == h);
    assert(with_deleted(ls, Seq::<Seq<char>>::empty()) == ls);
    lemma_remove_one_counts(ls, h);
    assert(remove_replies(ls, Seq::<Seq<char>>::empty()) =~= Seq::<(Seq<char>, bool)>::empty());
    assert(remove_replies(ls, hs) =~= seq![(h, false)]);
}

pub proof fn lemma_unlisted_concat(a: Seq<Seq<char>>, b: Seq<Seq<char>>, keep: Seq<Seq<char>>)
    ensures
        unlisted(a + b, keep) == unlisted(a, keep) + unlisted(b, keep),
    decreases b.len(),
{
    if b.len() == 0 {
        assert(a + b =~= a);
        assert(unlisted(a, keep) + unlisted(b, keep) =~= unlisted(a, keep));
    } else {
        lemma_unlisted_concat(a, b.drop_last(), keep);
        assert((a + b).drop_last() =~= a + b.drop_last());
        assert((a + b).last() == b.last());
        if !keep.contains(b.last()) {
            assert(unlisted(a, keep) + unlisted(b, keep) =~= (unlisted(a, keep) + unlisted(
                b.drop_last(),
                keep,
            )).push(b.last()));
        }
    }
}

/// Of items none of which `keep` holds, none is left out.
pub proof fn lemma_unlisted_none_kept(s: Seq<Seq<char>>, keep: Seq<Seq<char>>)
    requires
        forall|i: int| 0 <= i < s.len() ==> !keep.contains(#[trigger] s[i]),
    ensures
        unlisted(s, keep) == s,
    decreases s.len(),
{
    if s.len() > 0 {
        let t = s.drop_last();
        assert forall|i: int| 0 <= i < t.len() implies !keep.contains(#[trigger] t[i]) by {
            assert(t[i] == s[i]);
        }
        lemma_unlisted_none_kept(t, keep);
        assert(!keep.contains(s[s.len() - 1]));
        assert(t.push(s.last()) =~= s);
    }
}

/// Deleting a site that is blocked once unblocks it and leaves every other
/// blocked site where it was, in the same order.
pub proof fn lemma_delete_blocked_site(ls: Seq<Line>, h: Seq<char>)
    requires
        count_of(blocked_of(ls), h) == 1,
    ensures
        blocked_of(with_deleted(ls, seq![h])) == unlisted(blocked_of(ls), seq![h]),
        !blocked_of(with_deleted(ls, seq![h])).contains(h),
{
    let hs = seq![h];
    assert(hs.drop_last() =~= Seq::<Seq<char>>::empty());
    assert(hs.last() == h);
    assert(with_deleted(ls, Seq::<Seq<char>>::empty()) == ls);
    assert(with_deleted(ls, hs) == remove_one(ls, h));
    lemma_first_site_line_bounds(ls, h);
    lemma_count_contains(blocked_of(ls), h);
    if first_site_line(ls, h) is None {
        lemma_blocked_has_line(ls, h);
    }
    let j = first_site_line(ls, h)->Some_0;
    let a = ls.take(j);
    let c = ls.skip(j + 1);
    let one = seq![Line::BlockedSite(h)];
    assert(ls =~= a + one + c);
    assert(ls.remove(j) =~= a + c);
    lemma_blocked_concat(a, one);
    lemma_blocked_concat(a + one, c);
    lemma_blocked_concat(a, c);
    assert(one.drop_last() =~= Seq::<Line>::empty());
    assert(one.last() == Line::BlockedSite(h));
    assert(blocked_of(Seq::<Line>::empty()) =~= Seq::<Seq<char>>::empty());
    assert(blocked_of(one) =~= hs);
    let ba = blocked_of(a);
    let bc = blocked_of(c);
    lemma_count_concat(ba, hs, h);
    lemma_count_concat(ba + hs, bc, h);
    lemma_count_single(h, h);
    lemma_count_contains(ba, h);
    lemma_count_contains(bc, h);
    assert forall|i: int| 0 <= i < ba.len() implies !hs.contains(#[trigger] ba[i]) by {
        if hs.contains(ba[i]) {
            assert(hs[0] == ba[i]);
        }
    }
    assert forall|i: int| 0 <= i < bc.len() implies !hs.contains(#[trigger] bc[i]) by {
        if hs.contains(bc[i]) {
            assert(hs[0] == bc[i]);
        }
    }
    lemma_unlisted_none_kept(ba, hs);
    lemma_unlisted_none_kept(bc, hs);
    lemma_unlisted_concat(ba, hs, hs);
    lemma_unlisted_concat(ba + hs, bc, hs);
    assert(hs.contains(h)) by {
        assert(hs[0] == h);
    }
    assert(unlisted(Seq::<Seq<char>>::empty(), hs) =~= Seq::<Seq<char>>::empty());
    assert(unlisted(hs, hs) =~= Seq::<Seq<char>>::empty());
    assert(ba + Seq::<Seq<char>>::empty() =~= ba);
    lemma_count_concat(ba, bc, h);
    lemma_count_contains(ba + bc, h);
}

/// The pieces of a written document are the texts of its lines, then an
/// empty piece after the last newline.
pub proof fn lemma_doc_pieces(ls: Seq<Line>)
    requires
        forall|i: int| 0 <= i < ls.len() ==> sound_line(#[trigger] ls[i]),
    ensures
        pieces(doc_text(ls)) == ls.map_values(|l: Line| line_text(l)).push(Seq::empty()),
    decreases ls.len(),
{
    if ls.len() == 0 {
        assert(pieces(doc_text(ls)) =~= ls.map_values(|l: Line| line_text(l)).push(Seq::empty()));
    } else {
        let t = ls.drop_last();
        assert forall|i: int| 0 <= i < t.len() implies sound_line(#[trigger] t[i]) by {
            assert(t[i] == ls[i]);
        }
        lemma_doc_pieces(t);
        let d = doc_text(t);
        let lt = line_text(ls.last());
        assert(sound_line(ls[ls.len() - 1]));
        lemma_pieces_append_plain(d, lt);
        lemma_pieces_newline(d + lt);
        assert(d + lt + seq!['\n'] =~= (d + lt).push('\n'));
        let m = t.map_values(|l: Line| line_text(l));
        assert(Seq::<char>::empty() + lt =~= lt);
        assert(m.push(Seq::empty()).update(m.len() as int, lt) =~= m.push(lt));
        assert(m.push(lt) =~= ls.map_values(|l: Line| line_text(l)));
    }
}

/// A document of sound lines, written out, reads back as the same lines.
pub proof fn lemma_written_reads_back(ls: Seq<Line>)
    requires
        forall|i: int| 0 <= i < ls.len() ==> sound_line(#[trigger] ls[i]),
    ensures
        parse_lines(doc_text(ls)) == ls,
{
    lemma_doc_pieces(ls);
    let m = ls.map_values(|l: Line| line_text(l));
    assert(m.push(Seq::<char>::empty()).drop_last() =~= m);
    assert(text_lines(doc_text(ls)) == m);
    assert(parse_lines(doc_text(ls)) =~= ls);
}

/// Every line read from a file is sound.
pub proof fn lemma_parsed_sound(t: Seq<char>)
    ensures
        forall|i: int|
            0 <= i < parse_lines(t).len() ==> sound_line(#[trigger] parse_lines(t)[i]),
{
    lemma_pieces_plain(t);
    lemma_pieces_nonempty(t);
    assert(parse_lines(t).len() == text_lines(t).len());
    assert forall|i: int| 0 <= i < parse_lines(t).len() implies sound_line(
        #[trigger] parse_lines(t)[i],
    ) by {
        assert(text_lines(t)[i] == pieces(t)[i]);
        assert(parse_lines(t)[i] == classify(text_lines(t)[i]));
        lemma_classified_sound(text_lines(t)[i]);
    }
}

/// Each item of `unlisted(s, keep)` is an item of `s`.
pub proof fn lemma_unlisted_from(s: Seq<Seq<char>>, keep: Seq<Seq<char>>)
    ensures
        forall|i: int|
            0 <= i < unlisted(s, keep).len() ==> s.contains(#[trigger] unlisted(s, keep)[i]),
    decreases s.len(),
{
    if s.len() > 0 {
        let t = s.drop_last();
        lemma_unlisted_from(t, keep);
        let u = unlisted(s, keep);
        assert forall|i: int| 0 <= i < u.len() implies s.contains(#[trigger] u[i]) by {
            if i < unlisted(t, keep).len() {
                let k = choose|k: int| 0 <= k < t.len() && t[k] == unlisted(t, keep)[i];
                assert(s[k] == u[i]);
            } else {
                assert(s[s.len() - 1] == u[i]);
            }
        }
    }
}

pub proof fn lemma_added_sound(ls: Seq<Line>, hs: Seq<Seq<char>>)
    requires
        forall|i: int| 0 <= i < ls.len() ==> sound_line(#[trigger] ls[i]),
        forall|i: int| 0 <= i < hs.len() ==> is_site_name(#[trigger] hs[i]),
    ensures
        forall|i: int|
            0 <= i < with_added(ls, hs).len() ==> sound_line(#[trigger] with_added(ls, hs)[i]),
    decreases hs.len(),
{
    if hs.len() > 0 {
        let p = hs.drop_last();
        assert forall|i: int| 0 <= i < p.len() implies is_site_name(#[trigger] p[i]) by {
            assert(p[i] == hs[i]);
        }
        lemma_added_sound(ls, p);
        assert(is_site_name(hs[hs.len() - 1]));
        lemma_site_line_sound(hs.last());
        let mid = with_added(ls, p);
        let r = with_added(ls, hs);
        assert(r == add_one(mid, hs.last()));
        assert forall|i: int| 0 <= i < r.len() implies sound_line(#[trigger] r[i]) by {
            if i < mid.len() {
                assert(r[i] == mid[i]);
            }
        }
    }
}

pub proof fn lemma_deleted_sound(ls: Seq<Line>, rs: Seq<Seq<char>>)
    requires
        forall|i: int| 0 <= i < ls.len() ==> sound_line(#[trigger] ls[i]),
    ensures
        forall|i: int|
            0 <= i < with_deleted(ls, rs).len() ==> sound_line(#[trigger] with_deleted(ls, rs)[i]),
    decreases rs.len(),
{
    if rs.len() > 0 {
        let mid = with_deleted(ls, rs.drop_last());
        lemma_deleted_sound(ls, rs.drop_last());
        lemma_first_site_line_bounds(mid, rs.last());
        match first_site_line(mid, rs.last()) {
            Some(j) => {
                let r = mid.remove(j);
                assert forall|i: int| 0 <= i < r.len() implies sound_line(#[trigger] r[i]) by {
                    if i < j {
                        assert(r[i] == mid[i]);
                    } else {
                        assert(r[i] == mid[i + 1]);
                    }
                }
            },
            None => {},
        }
    }
}

/// A document read from a file and then changed by `add`, `delete` or
/// `set` with host names that are single words other than `localhost`
/// reads back, once written, as the same lines.
pub proof fn lemma_edited_reads_back(t: Seq<char>, hs: Seq<Seq<char>>)
    requires
        forall|i: int| 0 <= i < hs.len() ==> is_site_name(#[trigger] hs[i]),
    ensures
        parse_lines(doc_text(with_added(parse_lines(t), hs))) == with_added(parse_lines(t), hs),
        parse_lines(doc_text(with_deleted(parse_lines(t), hs))) == with_deleted(
            parse_lines(t),
            hs,
        ),
        parse_lines(doc_text(with_set(parse_lines(t), hs))) == with_set(parse_lines(t), hs),
{
    let ls = parse_lines(t);
    lemma_parsed_sound(t);
    lemma_added_sound(ls, hs);
    lemma_written_reads_back(with_added(ls, hs));
    lemma_deleted_sound(ls, hs);
    lemma_written_reads_back(with_deleted(ls, hs));
    let b = blocked_of(ls);
    let gone = unlisted(b, hs);
    let fresh = unlisted(hs, b);
    lemma_deleted_sound(ls, gone);
    lemma_unlisted_from(hs, b);
    assert forall|i: int| 0 <= i < fresh.len() implies is_site_name(#[trigger] fresh[i]) by {
        let k = choose|k: int| 0 <= k < hs.len() && hs[k] == fresh[i];
        assert(is_site_name(hs[k]));
    }
    lemma_added_sound(with_deleted(ls, gone), fresh);
    lemma_written_reads_back(with_set(ls, hs));
}

} // verus!
