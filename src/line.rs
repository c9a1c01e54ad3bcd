//! One line of a hosts file: what it means, how it is read and how it is
//! written back.
use vstd::prelude::*;

use crate::text::{
    is_space_char, is_word, lemma_words_append_word, lemma_words_push_space, lemma_words_shape,
    split_words, words,
};

verus! {

pub const LOCALHOST_IPV4: &'static str = "127.0.0.1";

pub const LOCALHOST_IPV6: &'static str = "::1";

pub const LOCALHOST: &'static str = "localhost";

pub open spec fn ipv4_loopback() -> Seq<char> {
    seq!['1', '2', '7', '.', '0', '.', '0', '.', '1']
}

pub open spec fn ipv6_loopback() -> Seq<char> {
    seq![':', ':', '1']
}

pub open spec fn localhost_name() -> Seq<char> {
    seq!['l', 'o', 'c', 'a', 'l', 'h', 'o', 's', 't']
}

/// The meaning of one line of a hosts file.
pub enum Line {
    Empty,
    Comment(Seq<char>),
    BlockedSite(Seq<char>),
    Other(Seq<char>),
}

/// Classification of one raw line: blank after trimming, then a comment
/// (the trimmed line starts with `#`), then an address and a host name, the
/// address a loopback one and the host name not `localhost`; anything else is
/// kept as it is.
pub open spec fn classify(s: Seq<char>) -> Line {
    let w = words(s);
    if w.len() == 0 {
        Line::Empty
    } else if w[0][0] == '#' {
        Line::Comment(s)
    } else if w.len() == 2 && (w[0] == ipv4_loopback() || w[0] == ipv6_loopback()) && w[1]
        != localhost_name() {
        Line::BlockedSite(w[1])
    } else {
        Line::Other(s)
    }
}

/// The text written for a line.
pub open spec fn line_text(l: Line) -> Seq<char> {
    match l {
        Line::Empty => Seq::empty(),
        Line::Comment(t) => t,
        Line::BlockedSite(h) => ipv4_loopback() + seq!['\t'] + h,
        Line::Other(t) => t,
    }
}

/// One line of a hosts file as held in memory; its view is its `Line`.
#[derive(Debug, PartialEq, Eq)]
pub enum HostsLine {
    Empty,
    Comment(String),
    BlockedSite(String),
    Other(String),
}

impl View for HostsLine {
    type V = Line;

    open spec fn view(&self) -> Line {
        match self {
            HostsLine::Empty => Line::Empty,
            HostsLine::Comment(t) => Line::Comment(t@),
            HostsLine::BlockedSite(h) => Line::BlockedSite(h@),
            HostsLine::Other(t) => Line::Other(t@),
        }
    }
}

fn text_eq(a: &str, b: &str) -> (r: bool)
    ensures
        r == (a@ == b@),
{
    String::from_str(a) == String::from_str(b)
}

impl HostsLine {
    pub fn parse(line: &str) -> (r: HostsLine)
        ensures
            r@ == classify(line@),
    {
        proof {
            reveal_strlit("127.0.0.1");
            reveal_strlit("::1");
            reveal_strlit("localhost");
            lemma_words_shape(line@);
        }
        assert(LOCALHOST_IPV4@ == ipv4_loopback());
        assert(LOCALHOST_IPV6@ == ipv6_loopback());
        assert(LOCALHOST@ == localhost_name());
        let w = split_words(line);
        assert(w@.map_values(|x: String| x@).len() == w.len());
        if w.len() == 0 {
            return HostsLine::Empty;
        }
        assert(w[0]@ == words(line@)[0]);
        if w[0].as_str().get_char(0) == '#' {
            return HostsLine::Comment(String::from_str(line));
        }
        if w.len() == 2 {
            assert(w[1]@ == words(line@)[1]);
            let loopback = text_eq(w[0].as_str(), LOCALHOST_IPV4) || text_eq(
                w[0].as_str(),
                LOCALHOST_IPV6,
            );
            if loopback && !text_eq(w[1].as_str(), LOCALHOST) {
                return HostsLine::BlockedSite(w[1].clone());
            }
        }
        HostsLine::Other(String::from_str(line))
    }

    pub fn render(&self) -> (r: String)
        ensures
            r@ == line_text(self@),
    {
        proof {
            reveal_strlit("127.0.0.1");
            reveal_strlit("\t");
        }
        match self {
            HostsLine::Empty => String::new(),
            HostsLine::Comment(t) => t.clone(),
            HostsLine::BlockedSite(h) => String::from_str(LOCALHOST_IPV4).concat("\t").concat(
                h.as_str(),
            ),
            HostsLine::Other(t) => t.clone(),
        }
    }
}

impl<'a> From<&'a str> for HostsLine {
    fn from(line: &'a str) -> (r: HostsLine)
        ensures
            r@ == classify(line@),
    {
        HostsLine::parse(line)
    }
}

// No value of `HostsLine` or `String` can be built in spec code, so the
// contract of `from` stands on the impls above rather than in `from_spec`.
impl<'a> vstd::std_specs::convert::FromSpecImpl<&'a str> for HostsLine {
    open spec fn obeys_from_spec() -> bool {
        false
    }

    open spec fn from_spec(line: &'a str) -> HostsLine {
        arbitrary()
    }
}

impl<'a> From<&'a HostsLine> for String {
    fn from(line: &'a HostsLine) -> (r: String)
        ensures
            r@ == line_text(line@),
    {
        line.render()
    }
}

impl<'a> vstd::std_specs::convert::FromSpecImpl<&'a HostsLine> for String {
    open spec fn obeys_from_spec() -> bool {
        false
    }

    open spec fn from_spec(line: &'a HostsLine) -> String {
        arbitrary()
    }
}

/// A line classified as blank holds whitespace only.
pub proof fn lemma_no_words_all_space(s: Seq<char>)
    requires
        words(s).len() == 0,
    ensures
        forall|i: int| 0 <= i < s.len() ==> is_space_char(#[trigger] s[i]),
    decreases s.len(),
{
    if s.len() > 0 {
        lemma_words_shape(s);
        let t = s.drop_last();
        assert(words(s) == words(t));
        lemma_no_words_all_space(t);
        assert forall|i: int| 0 <= i < s.len() implies is_space_char(#[trigger] s[i]) by {
            if i < t.len() {
                assert(s[i] == t[i]);
            }
        }
    }
}

/// The words of the text written for a blocked site are the IPv4 loopback
/// address and the host name.
pub proof fn lemma_blocked_text_words(h: Seq<char>)
    requires
        is_word(h),
    ensures
        words(line_text(Line::BlockedSite(h))) == seq![ipv4_loopback(), h],
{
    let a = ipv4_loopback();
    assert(is_word(a)) by {
        assert forall|i: int| 0 <= i < a.len() implies !is_space_char(#[trigger] a[i]) by {}
    }
    lemma_words_append_word(Seq::empty(), a);
    assert(Seq::<char>::empty() + a =~= a);
    assert(words(Seq::<char>::empty()) =~= Seq::<Seq<char>>::empty());
    lemma_words_push_space(a, '\t');
    assert(a + seq!['\t'] =~= a.push('\t'));
    lemma_words_append_word(a.push('\t'), h);
    assert(words(a) =~= seq![a]);
    assert(seq![a].push(h) =~= seq![a, h]);
}

/// Writing a classified line and classifying the text again gives the same
/// line. A comment or an unrecognised line is written back exactly as it was
/// read; a blank line, which held only whitespace, is written back empty.
pub proof fn lemma_line_round_trip(s: Seq<char>)
    ensures
        classify(line_text(classify(s))) == classify(s),
        (classify(s) is Comment || classify(s) is Other) ==> line_text(classify(s)) == s,
        classify(s) is Empty ==> line_text(classify(s)).len() == 0 && (forall|i: int|
            0 <= i < s.len() ==> is_space_char(#[trigger] s[i])),
{
    lemma_words_shape(s);
    let w = words(s);
    match classify(s) {
        Line::Empty => {
            lemma_no_words_all_space(s);
            assert(words(Seq::<char>::empty()) =~= Seq::<Seq<char>>::empty());
        },
        Line::BlockedSite(h) => {
            assert(is_word(w[1]));
            lemma_blocked_text_words(h);
        },
        _ => {},
    }
}

/// A line that fits on one line when written and reads back as itself.
pub open spec fn sound_line(l: Line) -> bool {
    classify(line_text(l)) == l && !line_text(l).contains('\n')
}

/// A host name that a blocked-site line can hold and read back.
pub open spec fn is_site_name(h: Seq<char>) -> bool {
    is_word(h) && h != localhost_name()
}

/// A word holds no newline.
pub proof fn lemma_word_single_line(w: Seq<char>)
    requires
        is_word(w),
    ensures
        !w.contains('\n'),
{
    if w.contains('\n') {
        let k = choose|k: int| 0 <= k < w.len() && w[k] == '\n';
        assert(!is_space_char(w[k]));
    }
}

pub proof fn lemma_site_line_sound(h: Seq<char>)
    requires
        is_site_name(h),
    ensures
        sound_line(Line::BlockedSite(h)),
{
    lemma_blocked_text_words(h);
    let t = line_text(Line::BlockedSite(h));
    let w = words(t);
    assert(w[0] == ipv4_loopback());
    assert(w[1] == h);
    lemma_word_single_line(h);
    if t.contains('\n') {
        let k = choose|k: int| 0 <= k < t.len() && t[k] == '\n';
        if k >= 10 {
            assert(h[k - 10] == t[k]);
            assert(h.contains('\n'));
        }
    }
}

/// Every line read from a text without newlines is sound.
pub proof fn lemma_classified_sound(s: Seq<char>)
    requires
        !s.contains('\n'),
    ensures
        sound_line(classify(s)),
{
    lemma_line_round_trip(s);
    lemma_words_shape(s);
    match classify(s) {
        Line::BlockedSite(h) => {
            assert(is_word(words(s)[1]));
            lemma_site_line_sound(h);
        },
        Line::Empty => {
            assert(!Seq::<char>::empty().contains('\n'));
        },
        _ => {},
    }
}

} // verus!
