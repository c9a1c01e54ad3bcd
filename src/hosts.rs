//! The hosts file as an ordered sequence of classified lines, and the
//! mutations that block and unblock sites.
use vstd::prelude::*;

use crate::line::{classify, line_text, HostsLine, Line};
use crate::text::{split_lines, text_lines};

verus! {

/// The host names of the blocked-site lines, in file order.
pub open spec fn blocked_of(ls: Seq<Line>) -> Seq<Seq<char>>
    decreases ls.len(),
{
    if ls.len() == 0 {
        Seq::empty()
    } else {
        let p = blocked_of(ls.drop_last());
        match ls.last() {
            Line::BlockedSite(h) => p.push(h),
            _ => p,
        }
    }
}

/// The lines that a file's contents hold.
pub open spec fn parse_lines(t: Seq<char>) -> Seq<Line> {
    text_lines(t).map_values(|l: Seq<char>| classify(l))
}

/// The contents written for a sequence of lines: each line's text followed
/// by a newline.
pub open spec fn doc_text(ls: Seq<Line>) -> Seq<char>
    decreases ls.len(),
{
    if ls.len() == 0 {
        Seq::empty()
    } else {
        doc_text(ls.drop_last()) + line_text(ls.last()) + seq!['\n']
    }
}

/// Blocks `h` by a new line at the end, unless it is blocked already.
pub open spec fn add_one(ls: Seq<Line>, h: Seq<char>) -> Seq<Line> {
    if blocked_of(ls).contains(h) {
        ls
    } else {
        ls.push(Line::BlockedSite(h))
    }
}

/// Blocks each of `hs` in turn.
pub open spec fn with_added(ls: Seq<Line>, hs: Seq<Seq<char>>) -> Seq<Line>
    decreases hs.len(),
{
    if hs.len() == 0 {
        ls
    } else {
        add_one(with_added(ls, hs.drop_last()), hs.last())
    }
}

/// The index of the first blocked-site line for `h`, if there is one.
pub open spec fn first_site_line(ls: Seq<Line>, h: Seq<char>) -> Option<int>
    decreases ls.len(),
{
    if ls.len() == 0 {
        None
    } else {
        match first_site_line(ls.drop_last(), h) {
            Some(j) => Some(j),
            None => if ls.last() == Line::BlockedSite(h) {
                Some(ls.len() - 1)
            } else {
                None
            },
        }
    }
}

/// Deletes the first blocked-site line for `h`, if there is one.
pub open spec fn remove_one(ls: Seq<Line>, h: Seq<char>) -> Seq<Line> {
    match first_site_line(ls, h) {
        Some(j) => ls.remove(j),
        None => ls,
    }
}

/// Unblocks each of `hs` in turn.
pub open spec fn with_deleted(ls: Seq<Line>, hs: Seq<Seq<char>>) -> Seq<Line>
    decreases hs.len(),
{
    if hs.len() == 0 {
        ls
    } else {
        remove_one(with_deleted(ls, hs.drop_last()), hs.last())
    }
}

/// The items of `s` that `keep` does not hold, in order and with repetition.
pub open spec fn unlisted(s: Seq<Seq<char>>, keep: Seq<Seq<char>>) -> Seq<Seq<char>>
    decreases s.len(),
{
    if s.len() == 0 {
        Seq::empty()
    } else {
        let p = unlisted(s.drop_last(), keep);
        if keep.contains(s.last()) {
            p
        } else {
            p.push(s.last())
        }
    }
}

/// Makes the blocked sites those of `hs`: first unblocks each blocked site
/// that `hs` does not name, then blocks each of `hs` that was not blocked.
pub open spec fn with_set(ls: Seq<Line>, hs: Seq<Seq<char>>) -> Seq<Line> {
    let b = blocked_of(ls);
    with_added(with_deleted(ls, unlisted(b, hs)), unlisted(hs, b))
}

pub open spec fn names_of(v: Seq<String>) -> Seq<Seq<char>> {
    v.map_values(|s: String| s@)
}

/// Whether `v` holds a string equal to `s`.
pub(crate) fn contains_name(v: &Vec<String>, s: &String) -> (r: bool)
    ensures
        r == names_of(v@).contains(s@),
{
    let mut i: usize = 0;
    while i < v.len()
        invariant
            i <= v.len(),
            forall|k: int| 0 <= k < i ==> v@[k]@ != s@,
        decreases v.len() - i,
    {
        if v[i] == *s {
            assert(names_of(v@)[i as int] == s@);
            return true;
        }
        i = i + 1;
    }
    assert forall|k: int| 0 <= k < names_of(v@).len() implies names_of(v@)[k] != s@ by {
        assert(names_of(v@)[k] == v@[k]@);
    }
    false
}

/// The strings of `v` that `keep` does not hold, in order.
fn unlisted_names(v: &Vec<String>, keep: &Vec<String>) -> (r: Vec<String>)
    ensures
        names_of(r@) == unlisted(names_of(v@), names_of(keep@)),
{
    let mut r: Vec<String> = Vec::new();
    let mut i: usize = 0;
    while i < v.len()
        invariant
            i <= v.len(),
            names_of(r@) == unlisted(names_of(v@).take(i as int), names_of(keep@)),
        decreases v.len() - i,
    {
        let ghost t = names_of(v@).take(i + 1);
        assert(t.drop_last() =~= names_of(v@).take(i as int));
        assert(t.last() == v@[i as int]@);
        if !contains_name(keep, &v[i]) {
            r.push(v[i].clone());
            assert(names_of(r@) =~= unlisted(t, names_of(keep@)));
        }
        i = i + 1;
    }
    assert(names_of(v@).take(v.len() as int) =~= names_of(v@));
    r
}

/// A hosts file held in memory: where it lives and its lines in file order.
pub struct HostsFile {
    path: String,
    lines: Vec<HostsLine>,
}

impl View for HostsFile {
    type V = Seq<Line>;

    closed spec fn view(&self) -> Seq<Line> {
        self.lines@.map_values(|l: HostsLine| l@)
    }
}

impl HostsFile {
    pub closed spec fn spec_path(&self) -> Seq<char> {
        self.path@
    }

    /// The document for the file at `path` whose contents are `contents`.
    pub fn new(path: String, contents: &str) -> (r: HostsFile)
        ensures
            r@ == parse_lines(contents@),
            r.spec_path() == path@,
    {
        let raw = split_lines(contents);
        let mut lines: Vec<HostsLine> = Vec::new();
        let mut i: usize = 0;
        while i < raw.len()
            invariant
                i <= raw.len(),
                raw@.map_values(|l: String| l@) == text_lines(contents@),
                lines@.len() == i,
                forall|k: int| 0 <= k < i ==> #[trigger] lines@[k]@ == classify(raw@[k]@),
            decreases raw.len() - i,
        {
            lines.push(HostsLine::parse(raw[i].as_str()));
            i = i + 1;
        }
        let r = HostsFile { path, lines };
        assert(r@ =~= parse_lines(contents@)) by {
            assert forall|k: int| 0 <= k < r@.len() implies r@[k] == parse_lines(contents@)[k] by {
                assert(text_lines(contents@)[k] == raw@[k]@);
            }
        }
        r
    }

    /// The document at `path` that holds `lines`.
    pub fn from_lines(path: String, lines: Vec<HostsLine>) -> (r: HostsFile)
        ensures
            r@ == lines@.map_values(|l: HostsLine| l@),
            r.spec_path() == path@,
    {
        HostsFile { path, lines }
    }

    pub fn lines(&self) -> (r: &Vec<HostsLine>)
        ensures
            r@.map_values(|l: HostsLine| l@) == self@,
    {
        &self.lines
    }

    pub fn path(&self) -> (r: &str)
        ensures
            r@ == self.spec_path(),
    {
        self.path.as_str()
    }

    /// The host names of the blocked-site lines, in file order.
    pub fn blocked_sites(&self) -> (r: Vec<String>)
        ensures
            names_of(r@) == blocked_of(self@),
    {
        let mut r: Vec<String> = Vec::new();
        let mut i: usize = 0;
        while i < self.lines.len()
            invariant
                i <= self.lines.len(),
                names_of(r@) == blocked_of(self@.take(i as int)),
            decreases self.lines.len() - i,
        {
            let ghost t = self@.take(i + 1);
            assert(t.drop_last() =~= self@.take(i as int));
            assert(t.last() == self.lines@[i as int]@);
            match &self.lines[i] {
                HostsLine::BlockedSite(site) => {
                    r.push(site.clone());
                    assert(names_of(r@) =~= blocked_of(t));
                },
                _ => {},
            }
            i = i + 1;
        }
        assert(self@.take(self.lines.len() as int) =~= self@);
        r
    }

    /// Blocks each of `sites` in turn: a site that is not blocked yet, also
    /// by an earlier item of `sites`, gets a new line at the end.
    pub fn add(&mut self, sites: Vec<String>)
        ensures
            final(self)@ == with_added(old(self)@, names_of(sites@)),
            final(self).spec_path() == old(self).spec_path(),
    {
        let mut blocked = self.blocked_sites();
        let mut i: usize = 0;
        while i < sites.len()
            invariant
                i <= sites.len(),
                self@ == with_added(old(self)@, names_of(sites@).take(i as int)),
                names_of(blocked@) == blocked_of(self@),
                self.spec_path() == old(self).spec_path(),
            decreases sites.len() - i,
        {
            let ghost hs = names_of(sites@).take(i + 1);
            assert(hs.drop_last() =~= names_of(sites@).take(i as int));
            assert(hs.last() == sites@[i as int]@);
            if !contains_name(&blocked, &sites[i]) {
                let ghost before = self@;
                self.lines.push(HostsLine::BlockedSite(sites[i].clone()));
                blocked.push(sites[i].clone());
                assert(self@.drop_last() =~= before);
                assert(names_of(blocked@) =~= blocked_of(self@));
            }
            i = i + 1;
        }
        assert(names_of(sites@).take(sites.len() as int) =~= names_of(sites@));
    }

    /// The index of the first blocked-site line for `site`.
    fn find_site(&self, site: &String) -> (r: Option<usize>)
        ensures
            r matches Some(j) ==> first_site_line(self@, site@) == Some(j as int),
            r is None ==> first_site_line(self@, site@) is None,
    {
        let mut i: usize = 0;
        while i < self.lines.len()
            invariant
                i <= self.lines.len(),
                first_site_line(self@.take(i as int), site@) is None,
            decreases self.lines.len() - i,
        {
            let ghost t = self@.take(i + 1);
            assert(t.drop_last() =~= self@.take(i as int));
            assert(t.last() == self.lines@[i as int]@);
            match &self.lines[i] {
                HostsLine::BlockedSite(h) => {
                    if *h == *site {
                        proof {
                            lemma_first_site_line_prefix(self@, i + 1, site@);
                        }
                        return Some(i);
                    }
                },
                _ => {},
            }
            i = i + 1;
        }
        assert(self@.take(self.lines.len() as int) =~= self@);
        None
    }

    /// Unblocks each of `sites` in turn: the first blocked-site line for it
    /// is deleted; a site that is not blocked changes nothing.
    pub fn delete(&mut self, sites: Vec<String>)
        ensures
            final(self)@ == with_deleted(old(self)@, names_of(sites@)),
            final(self).spec_path() == old(self).spec_path(),
    {
        let mut i: usize = 0;
        while i < sites.len()
            invariant
                i <= sites.len(),
                self@ == with_deleted(old(self)@, names_of(sites@).take(i as int)),
                self.spec_path() == old(self).spec_path(),
            decreases sites.len() - i,
        {
            let ghost hs = names_of(sites@).take(i + 1);
            assert(hs.drop_last() =~= names_of(sites@).take(i as int));
            assert(hs.last() == sites@[i as int]@);
            match self.find_site(&sites[i]) {
                Some(j) => {
                    proof {
                        lemma_first_site_line_bounds(self@, sites@[i as int]@);
                    }
                    let ghost before = self@;
                    self.lines.remove(j);
                    assert(self@ =~= before.remove(j as int));
                },
                None => {},
            }
            i = i + 1;
        }
        assert(names_of(sites@).take(sites.len() as int) =~= names_of(sites@));
    }

    /// Makes the blocked sites exactly those of `sites`: unblocks each
    /// blocked site that `sites` does not name, then blocks those of `sites`
    /// that were not blocked.
    pub fn set(&mut self, sites: Vec<String>)
        ensures
            final(self)@ == with_set(old(self)@, names_of(sites@)),
            final(self).spec_path() == old(self).spec_path(),
    {
        let blocked = self.blocked_sites();
        let gone = unlisted_names(&blocked, &sites);
        let fresh = unlisted_names(&sites, &blocked);
        self.delete(gone);
        self.add(fresh);
    }

    /// The contents to write for this document: each line's text followed by
    /// a newline.
    pub fn serialize(&self) -> (r: String)
        ensures
            r@ == doc_text(self@),
    {
        let mut r = String::new();
        let mut i: usize = 0;
        while i < self.lines.len()
            invariant
                i <= self.lines.len(),
                r@ == doc_text(self@.take(i as int)),
            decreases self.lines.len() - i,
        {
            let ghost t = self@.take(i + 1);
            assert(t.drop_last() =~= self@.take(i as int));
            assert(t.last() == self.lines@[i as int]@);
            let text = self.lines[i].render();
            r.append(text.as_str());
            proof {
                reveal_strlit("\n");
            }
            r.append("\n");
            i = i + 1;
        }
        assert(self@.take(self.lines.len() as int) =~= self@);
        r
    }
}

/// A blocked-site line for `h` among the first `k` lines is the first one
/// of the whole document too.
pub proof fn lemma_first_site_line_prefix(ls: Seq<Line>, k: int, h: Seq<char>)
    requires
        0 <= k <= ls.len(),
        first_site_line(ls.take(k), h) is Some,
    ensures
        first_site_line(ls, h) == first_site_line(ls.take(k), h),
    decreases ls.len() - k,
{
    if k < ls.len() {
        let t = ls.drop_last();
        assert(t.take(k) =~= ls.take(k));
        lemma_first_site_line_prefix(t, k, h);
    } else {
        assert(ls.take(k) =~= ls);
    }
}

/// What `first_site_line` finds: the first blocked-site line for `h`, or,
/// where it finds none, a document without such a line.
pub proof fn lemma_first_site_line_bounds(ls: Seq<Line>, h: Seq<char>)
    ensures
        first_site_line(ls, h) matches Some(j) ==> 0 <= j < ls.len() && ls[j] == Line::BlockedSite(h)
            && forall|k: int| 0 <= k < j ==> ls[k] != Line::BlockedSite(h),
        first_site_line(ls, h) is None ==> forall|k: int|
            0 <= k < ls.len() ==> ls[k] != Line::BlockedSite(h),
    decreases ls.len(),
{
    if ls.len() > 0 {
        let t = ls.drop_last();
        lemma_first_site_line_bounds(t, h);
        assert forall|k: int| 0 <= k < t.len() implies ls[k] == t[k] by {}
    }
}

} // verus!
