//! Commands on a hosts document that report, site by site, what they did.
use vstd::prelude::*;

use crate::hosts::{blocked_of, contains_name, names_of, with_added, with_deleted, HostsFile};
use crate::laws::lemma_remove_one_counts;
use crate::line::Line;
use crate::text::{is_space, is_space_char};

verus! {

pub enum Command {
    List,
    Add { site: Vec<String> },
    Remove { site: Vec<String> },
}

pub enum CommandResponse {
    List(Vec<String>),
    Add(Vec<AddResponse>),
    Remove(Vec<RemoveResponse>),
}

pub enum AddResponse {
    AlreadyExists(String),
    Added(String),
}

pub enum RemoveResponse {
    NotFound(String),
    Removed(String),
}

/// A site and whether this command blocked it.
impl View for AddResponse {
    type V = (Seq<char>, bool);

    open spec fn view(&self) -> (Seq<char>, bool) {
        match self {
            AddResponse::AlreadyExists(s) => (s@, false),
            AddResponse::Added(s) => (s@, true),
        }
    }
}

/// A site and whether this command unblocked it.
impl View for RemoveResponse {
    type V = (Seq<char>, bool);

    open spec fn view(&self) -> (Seq<char>, bool) {
        match self {
            RemoveResponse::NotFound(s) => (s@, false),
            RemoveResponse::Removed(s) => (s@, true),
        }
    }
}

/// A site name that `add` accepts: not empty, no whitespace, ASCII only.
pub open spec fn site_acceptable(s: Seq<char>) -> bool {
    s.len() > 0 && forall|i: int|
        0 <= i < s.len() ==> !is_space_char(#[trigger] s[i]) && (s[i] as u32) < 128
}

/// The sites of `hs` that `add` accepts, in order.
pub open spec fn acceptable_sites(hs: Seq<Seq<char>>) -> Seq<Seq<char>>
    decreases hs.len(),
{
    if hs.len() == 0 {
        Seq::empty()
    } else {
        let p = acceptable_sites(hs.drop_last());
        if site_acceptable(hs.last()) {
            p.push(hs.last())
        } else {
            p
        }
    }
}

/// For each of `hs`, added to `ls` one after the other: the site, and
/// whether it was not blocked yet.
pub open spec fn add_replies(ls: Seq<Line>, hs: Seq<Seq<char>>) -> Seq<(Seq<char>, bool)>
    decreases hs.len(),
{
    if hs.len() == 0 {
        Seq::empty()
    } else {
        let p = hs.drop_last();
        add_replies(ls, p).push((hs.last(), !blocked_of(with_added(ls, p)).contains(hs.last())))
    }
}

/// For each of `hs`, deleted from `ls` one after the other: the site, and
/// whether it was blocked.
pub open spec fn remove_replies(ls: Seq<Line>, hs: Seq<Seq<char>>) -> Seq<(Seq<char>, bool)>
    decreases hs.len(),
{
    if hs.len() == 0 {
        Seq::empty()
    } else {
        let p = hs.drop_last();
        remove_replies(ls, p).push((hs.last(), blocked_of(with_deleted(ls, p)).contains(hs.last())))
    }
}

/// Whether `site` is a name that `add` accepts.
pub fn validate_site(site: &str) -> (r: bool)
    ensures
        r == site_acceptable(site@),
{
    if site.is_empty() {
        return false;
    }
    let mut ok = true;
    for c in it: site.chars()
        invariant
            it.seq() == site@,
            ok == forall|i: int|
                0 <= i < it.index() ==> !is_space_char(#[trigger] site@[i]) && (site@[i] as u32)
                    < 128,
    {
        if is_space(c) || (c as u32) >= 128 {
            ok = false;
        }
    }
    ok
}

/// Runs `command` on `hosts`. `Add` blocks, one after the other, the sites
/// that are acceptable names and reports for each whether it was blocked
/// already; `Remove` unblocks each site and reports whether it was blocked.
pub fn handle_command(command: Command, hosts: &mut HostsFile) -> (r: CommandResponse)
    ensures
        final(hosts).spec_path() == old(hosts).spec_path(),
        match command {
            Command::List => r matches CommandResponse::List(v) && names_of(v@) == blocked_of(
                old(hosts)@,
            ) && final(hosts)@ == old(hosts)@,
            Command::Add { site } => {
                let hs = acceptable_sites(names_of(site@));
                &&& final(hosts)@ == with_added(old(hosts)@, hs)
                &&& r matches CommandResponse::Add(v) && v@.map_values(|a: AddResponse| a@)
                    == add_replies(old(hosts)@, hs)
            },
            Command::Remove { site } => {
                let hs = names_of(site@);
                &&& final(hosts)@ == with_deleted(old(hosts)@, hs)
                &&& r matches CommandResponse::Remove(v) && v@.map_values(
                    |a: RemoveResponse| a@,
                ) == remove_replies(old(hosts)@, hs)
            },
        },
{
    match command {
        Command::List => CommandResponse::List(hosts.blocked_sites()),
        Command::Add { site } => {
            let ghost start = hosts@;
            let mut replies: Vec<AddResponse> = Vec::new();
            let mut i: usize = 0;
            while i < site.len()
                invariant
                    i <= site.len(),
                    hosts@ == with_added(start, acceptable_sites(names_of(site@).take(i as int))),
                    replies@.map_values(|a: AddResponse| a@) == add_replies(
                        start,
                        acceptable_sites(names_of(site@).take(i as int)),
                    ),
                    hosts.spec_path() == old(hosts).spec_path(),
                decreases site.len() - i,
            {
                let ghost t = names_of(site@).take(i + 1);
                let ghost before = acceptable_sites(names_of(site@).take(i as int));
                assert(t.drop_last() =~= names_of(site@).take(i as int));
                assert(t.last() == site@[i as int]@);
                if validate_site(site[i].as_str()) {
                    let s = site[i].clone();
                    let ghost hs = before.push(s@);
                    assert(hs.drop_last() =~= before);
                    if contains_name(&hosts.blocked_sites(), &s) {
                        replies.push(AddResponse::AlreadyExists(s));
                    } else {
                        let ghost cur = hosts@;
                        let mut one: Vec<String> = Vec::new();
                        one.push(s.clone());
                        hosts.add(one);
                        assert(names_of(one@).drop_last() =~= Seq::<Seq<char>>::empty());
                        assert(with_added(cur, Seq::<Seq<char>>::empty()) == cur);
                        replies.push(AddResponse::Added(s));
                    }
                    assert(replies@.map_values(|a: AddResponse| a@) =~= add_replies(start, hs));
                }
                i = i + 1;
            }
            assert(names_of(site@).take(site.len() as int) =~= names_of(site@));
            CommandResponse::Add(replies)
        },
        Command::Remove { site } => {
            let ghost start = hosts@;
            let mut replies: Vec<RemoveResponse> = Vec::new();
            let mut i: usize = 0;
            while i < site.len()
                invariant
                    i <= site.len(),
                    hosts@ == with_deleted(start, names_of(site@).take(i as int)),
                    replies@.map_values(|a: RemoveResponse| a@) == remove_replies(
                        start,
                        names_of(site@).take(i as int),
                    ),
                    hosts.spec_path() == old(hosts).spec_path(),
                decreases site.len() - i,
            {
                let ghost hs = names_of(site@).take(i + 1);
                assert(hs.drop_last() =~= names_of(site@).take(i as int));
                assert(hs.last() == site@[i as int]@);
                let s = site[i].clone();
                if contains_name(&hosts.blocked_sites(), &s) {
                    let ghost cur = hosts@;
                    let mut one: Vec<String> = Vec::new();
                    one.push(s.clone());
                    hosts.delete(one);
                    assert(names_of(one@).drop_last() =~= Seq::<Seq<char>>::empty());
                    assert(with_deleted(cur, Seq::<Seq<char>>::empty()) == cur);
                    replies.push(RemoveResponse::Removed(s));
                } else {
                    proof {
                        lemma_remove_one_counts(hosts@, s@);
                    }
                    replies.push(RemoveResponse::NotFound(s));
                }
                assert(replies@.map_values(|a: RemoveResponse| a@) =~= remove_replies(start, hs));
                i = i + 1;
            }
            assert(names_of(site@).take(site.len() as int) =~= names_of(site@));
            CommandResponse::Remove(replies)
        },
    }
}

} // verus!
