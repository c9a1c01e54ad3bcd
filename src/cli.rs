//! The decisions of the command-line front end: which action a command
//! asks for, which site names it accepts, and the text exchanged with an
//! editor.
use vstd::prelude::*;

use crate::hosts::names_of;
use crate::text::{crlf_lines, split_crlf_lines, split_words, words};

verus! {

pub const EDITOR_PROMPT: &'static str =
    "# Add sites to block. Separate by newline\n# Lines starting with # are ignored\n";

pub const MAX_SITE_LEN: usize = 255;

/// The parsed command line.
pub struct Cli {
    pub command: Command,
    pub hosts_file: String,
    pub no_color: bool,
    pub quiet: bool,
    pub verbose: u8,
}

#[derive(Debug)]
pub enum Command {
    Get,
    Add(SiteOptions),
    Delete(SiteOptions),
    Edit,
}

/// Sites named on the command line, and files that list more, one per line.
#[derive(Debug)]
pub struct SiteOptions {
    pub sites: Vec<String>,
    pub files: Vec<String>,
}

pub enum Action {
    Noop,
    Get,
    Replace(Vec<String>),
    Add(Vec<String>),
    Delete(Vec<String>),
}

#[derive(Debug)]
pub enum SiteError {
    Empty,
    TooLong(String),
    InvalidChars(String),
}

/// Letters, digits, `-` and `.`.
pub open spec fn is_site_char(c: char) -> bool {
    let n = c as u32;
    (0x61 <= n <= 0x7a) || (0x41 <= n <= 0x5a) || (0x30 <= n <= 0x39) || c == '-' || c == '.'
}

pub fn site_char(c: char) -> (r: bool)
    ensures
        r == is_site_char(c),
{
    let n = c as u32;
    (0x61 <= n && n <= 0x7a) || (0x41 <= n && n <= 0x5a) || (0x30 <= n && n <= 0x39) || c == '-'
        || c == '.'
}

/// A valid site name: 1 to 255 characters, each a letter, a digit, `-` or `.`.
pub open spec fn site_valid(s: Seq<char>) -> bool {
    0 < s.len() <= MAX_SITE_LEN && forall|i: int| 0 <= i < s.len() ==> is_site_char(#[trigger] s[i])
}

/// `e` is the error reported for the invalid site name `s`: empty first,
/// then too long, then a character that is not allowed.
pub open spec fn reports(e: SiteError, s: Seq<char>) -> bool {
    match e {
        SiteError::Empty => s.len() == 0,
        SiteError::TooLong(x) => s.len() > MAX_SITE_LEN && x@ == s,
        SiteError::InvalidChars(x) => 0 < s.len() <= MAX_SITE_LEN && !site_valid(s) && x@ == s,
    }
}

/// The index of the first invalid name of `hs`, if there is one.
pub open spec fn first_invalid(hs: Seq<Seq<char>>) -> Option<int>
    decreases hs.len(),
{
    if hs.len() == 0 {
        None
    } else {
        match first_invalid(hs.drop_last()) {
            Some(k) => Some(k),
            None => if site_valid(hs.last()) {
                None
            } else {
                Some(hs.len() - 1)
            },
        }
    }
}

/// `r` is what validating `sites` gives: the same sites where all are
/// valid, else the error for the first invalid one.
pub open spec fn validated(sites: Seq<String>, r: Result<Vec<String>, SiteError>) -> bool {
    match first_invalid(names_of(sites)) {
        None => r matches Ok(v) && v@ == sites,
        Some(k) => r matches Err(e) && reports(e, sites[k]@),
    }
}

/// The lines of each of `ts`, one text after the other, with the carriage
/// return before each newline dropped.
pub open spec fn all_lines(ts: Seq<Seq<char>>) -> Seq<Seq<char>>
    decreases ts.len(),
{
    if ts.len() == 0 {
        Seq::empty()
    } else {
        all_lines(ts.drop_last()) + crlf_lines(ts.last())
    }
}

/// `hs` joined with newlines between them.
pub open spec fn joined(hs: Seq<Seq<char>>) -> Seq<char>
    decreases hs.len(),
{
    if hs.len() == 0 {
        Seq::empty()
    } else if hs.len() == 1 {
        hs[0]
    } else {
        joined(hs.drop_last()) + seq!['\n'] + hs.last()
    }
}

/// The lines of an edited list that name sites: not empty, not starting
/// with `#`.
pub open spec fn listed_sites(ls: Seq<Seq<char>>) -> Seq<Seq<char>>
    decreases ls.len(),
{
    if ls.len() == 0 {
        Seq::empty()
    } else {
        let p = listed_sites(ls.drop_last());
        let l = ls.last();
        if l.len() == 0 || l[0] == '#' {
            p
        } else {
            p.push(l)
        }
    }
}

impl Command {
    /// The action that this command asks for. `sites` are the names gathered
    /// for it: for `Add` and `Delete` those of the command line and its
    /// files, or of standard input where those named none; for `Edit` the
    /// list that came back from the editor.
    pub fn construct_action(&self, sites: Vec<String>) -> (r: Action)
        ensures
            match self {
                Command::Get => r is Get,
                Command::Add(_) => if sites@.len() == 0 {
                    r is Noop
                } else {
                    r matches Action::Add(v) && v@ == sites@
                },
                Command::Delete(_) => if sites@.len() == 0 {
                    r is Noop
                } else {
                    r matches Action::Delete(v) && v@ == sites@
                },
                Command::Edit => if sites@.len() == 0 {
                    r is Noop
                } else {
                    r matches Action::Replace(v) && v@ == sites@
                },
            },
    {
        match self {
            Command::Get => Action::Get,
            Command::Add(_) => if sites.len() == 0 {
                Action::Noop
            } else {
                Action::Add(sites)
            },
            Command::Delete(_) => if sites.len() == 0 {
                Action::Noop
            } else {
                Action::Delete(sites)
            },
            Command::Edit => if sites.len() == 0 {
                Action::Noop
            } else {
                Action::Replace(sites)
            },
        }
    }
}

impl SiteOptions {
    /// The sites named on the command line, then the lines of each file;
    /// `contents[i]` is the text of `files[i]`.
    pub fn collect_sites(&self, contents: &Vec<String>) -> (r: Vec<String>)
        ensures
            names_of(r@) == names_of(self.sites@) + all_lines(names_of(contents@)),
    {
        let mut r: Vec<String> = Vec::new();
        let mut i: usize = 0;
        while i < self.sites.len()
            invariant
                i <= self.sites.len(),
                names_of(r@) == names_of(self.sites@).take(i as int),
            decreases self.sites.len() - i,
        {
            let ghost done = names_of(r@);
            r.push(self.sites[i].clone());
            assert(names_of(r@) =~= done.push(self.sites@[i as int]@));
            assert(names_of(r@) =~= names_of(self.sites@).take(i + 1));
            i = i + 1;
        }
        assert(names_of(self.sites@).take(self.sites.len() as int) =~= names_of(self.sites@));
        let mut j: usize = 0;
        while j < contents.len()
            invariant
                j <= contents.len(),
                names_of(r@) == names_of(self.sites@) + all_lines(
                    names_of(contents@).take(j as int),
                ),
            decreases contents.len() - j,
        {
            let ghost ts = names_of(contents@).take(j + 1);
            assert(ts.drop_last() =~= names_of(contents@).take(j as int));
            assert(ts.last() == contents@[j as int]@);
            let ghost before = names_of(r@);
            let lines = split_crlf_lines(contents[j].as_str());
            let mut k: usize = 0;
            while k < lines.len()
                invariant
                    k <= lines.len(),
                    j < contents.len(),
                    names_of(lines@) == crlf_lines(contents@[j as int]@),
                    names_of(r@) == before + names_of(lines@).take(k as int),
                decreases lines.len() - k,
            {
                let ghost done = names_of(r@);
                r.push(lines[k].clone());
                assert(names_of(r@) =~= done.push(lines@[k as int]@));
                assert(names_of(r@) =~= before + names_of(lines@).take(k + 1));
                k = k + 1;
            }
            assert(names_of(lines@).take(lines.len() as int) =~= names_of(lines@));
            assert(names_of(r@) =~= names_of(self.sites@) + all_lines(ts));
            j = j + 1;
        }
        assert(names_of(contents@).take(contents.len() as int) =~= names_of(contents@));
        r
    }

    /// The names an `Add` or `Delete` works on: those collected from the
    /// command line and its files; where there are none, the words of
    /// standard input. `None` asks for standard input, which is then passed
    /// as `input`.
    pub fn pick_sites(collected: Vec<String>, input: Option<&str>) -> (r: Option<Vec<String>>)
        ensures
            collected@.len() > 0 ==> (r matches Some(v) && v@ == collected@),
            collected@.len() == 0 ==> match input {
                None => r is None,
                Some(t) => r matches Some(v) && names_of(v@) == words(t@),
            },
    {
        if collected.len() > 0 {
            return Some(collected);
        }
        match input {
            None => None,
            Some(t) => Some(input_sites(t)),
        }
    }
}

impl Action {
    /// Checks the site names that the action carries.
    pub fn validate(self) -> (r: Result<Action, SiteError>)
        ensures
            match self {
                Action::Noop => r matches Ok(Action::Noop),
                Action::Get => r matches Ok(Action::Get),
                Action::Replace(s) => match first_invalid(names_of(s@)) {
                    None => r matches Ok(Action::Replace(v)) && v@ == s@,
                    Some(k) => r matches Err(e) && reports(e, s@[k]@),
                },
                Action::Add(s) => match first_invalid(names_of(s@)) {
                    None => r matches Ok(Action::Add(v)) && v@ == s@,
                    Some(k) => r matches Err(e) && reports(e, s@[k]@),
                },
                Action::Delete(s) => match first_invalid(names_of(s@)) {
                    None => r matches Ok(Action::Delete(v)) && v@ == s@,
                    Some(k) => r matches Err(e) && reports(e, s@[k]@),
                },
            },
    {
        match self {
            Action::Noop => Ok(Action::Noop),
            Action::Get => Ok(Action::Get),
            Action::Replace(sites) => match validate_sites(sites) {
                Ok(v) => Ok(Action::Replace(v)),
                Err(e) => Err(e),
            },
            Action::Add(sites) => match validate_sites(sites) {
                Ok(v) => Ok(Action::Add(v)),
                Err(e) => Err(e),
            },
            Action::Delete(sites) => match validate_sites(sites) {
                Ok(v) => Ok(Action::Delete(v)),
                Err(e) => Err(e),
            },
        }
    }
}

/// Whether every character of `site` may stand in a site name.
fn all_site_chars(site: &str) -> (r: bool)
    ensures
        r == forall|i: int| 0 <= i < site@.len() ==> is_site_char(#[trigger] site@[i]),
{
    let mut ok = true;
    for c in it: site.chars()
        invariant
            it.seq() == site@,
            ok == forall|i: int| 0 <= i < it.index() ==> is_site_char(#[trigger] site@[i]),
    {
        if !site_char(c) {
            ok = false;
        }
    }
    ok
}

/// The sites unchanged where every one is valid, else the error for the
/// first invalid one.
pub fn validate_sites(sites: Vec<String>) -> (r: Result<Vec<String>, SiteError>)
    ensures
        validated(sites@, r),
{
    let mut i: usize = 0;
    while i < sites.len()
        invariant
            i <= sites.len(),
            first_invalid(names_of(sites@).take(i as int)) is None,
        decreases sites.len() - i,
    {
        let ghost t = names_of(sites@).take(i + 1);
        assert(t.drop_last() =~= names_of(sites@).take(i as int));
        assert(t.last() == sites@[i as int]@);
        let site = sites[i].as_str();
        let fault = if site.is_empty() {
            Some(SiteError::Empty)
        } else if site.unicode_len() > MAX_SITE_LEN {
            Some(SiteError::TooLong(sites[i].clone()))
        } else if !all_site_chars(site) {
            Some(SiteError::InvalidChars(sites[i].clone()))
        } else {
            None
        };
        match fault {
            Some(e) => {
                proof {
                    lemma_first_invalid_prefix(names_of(sites@), i + 1);
                }
                return Err(e);
            },
            None => {},
        }
        i = i + 1;
    }
    assert(names_of(sites@).take(sites.len() as int) =~= names_of(sites@));
    Ok(sites)
}

/// An invalid name among the first `k` is the first of all of them too.
pub proof fn lemma_first_invalid_prefix(hs: Seq<Seq<char>>, k: int)
    requires
        0 <= k <= hs.len(),
        first_invalid(hs.take(k)) is Some,
    ensures
        first_invalid(hs) == first_invalid(hs.take(k)),
    decreases hs.len() - k,
{
    if k < hs.len() {
        let t = hs.drop_last();
        assert(t.take(k) =~= hs.take(k));
        lemma_first_invalid_prefix(t, k);
    } else {
        assert(hs.take(k) =~= hs);
    }
}

/// The site names given on standard input: its words.
pub fn input_sites(text: &str) -> (r: Vec<String>)
    ensures
        names_of(r@) == words(text@),
{
    split_words(text)
}

/// The text given to the editor: the blocked sites, one per line, then an
/// empty line and the instructions.
pub fn editor_template(blocked: &Vec<String>) -> (r: String)
    ensures
        r@ == joined(names_of(blocked@)) + seq!['\n', '\n'] + EDITOR_PROMPT@,
{
    let mut r = String::new();
    let mut i: usize = 0;
    while i < blocked.len()
        invariant
            i <= blocked.len(),
            r@ == joined(names_of(blocked@).take(i as int)),
        decreases blocked.len() - i,
    {
        let ghost t = names_of(blocked@).take(i + 1);
        assert(t.drop_last() =~= names_of(blocked@).take(i as int));
        assert(t.last() == blocked@[i as int]@);
        if i > 0 {
            proof {
                reveal_strlit("\n");
            }
            r.append("\n");
        } else {
            assert(t[0] == t.last());
        }
        r.append(blocked[i].as_str());
        assert(r@ =~= joined(t));
        i = i + 1;
    }
    assert(names_of(blocked@).take(blocked.len() as int) =~= names_of(blocked@));
    proof {
        reveal_strlit("\n\n");
    }
    r.append("\n\n");
    r.append(EDITOR_PROMPT);
    r
}

/// The sites listed in the text that came back from the editor: its lines,
/// without the carriage return before each newline, that are not empty and
/// do not start with `#`.
pub fn editor_sites(text: &str) -> (r: Vec<String>)
    ensures
        names_of(r@) == listed_sites(crlf_lines(text@)),
{
    let lines = split_crlf_lines(text);
    let mut r: Vec<String> = Vec::new();
    let mut i: usize = 0;
    while i < lines.len()
        invariant
            i <= lines.len(),
            names_of(lines@) == crlf_lines(text@),
            names_of(r@) == listed_sites(names_of(lines@).take(i as int)),
        decreases lines.len() - i,
    {
        let ghost t = names_of(lines@).take(i + 1);
        assert(t.drop_last() =~= names_of(lines@).take(i as int));
        assert(t.last() == lines@[i as int]@);
        let line = lines[i].as_str();
        if !line.is_empty() && line.get_char(0) != '#' {
            r.push(lines[i].clone());
            assert(names_of(r@) =~= listed_sites(t));
        }
        i = i + 1;
    }
    assert(names_of(lines@).take(lines.len() as int) =~= names_of(lines@));
    r
}

} // verus!
