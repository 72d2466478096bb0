//! The host: the program that the engine is part of.
//!
//! Some commands need work that the engine cannot do: running a process,
//! reading a file or a directory. The engine only decides what is asked and
//! what is done with the answer. A command that needs the host looks its
//! request up among the answers that the engine was given. If the answer is
//! there, the command goes on with it. If not, it raises an issue that
//! holds the request. The host then does the work, adds the answer, and
//! expands the text once more, from the start, until no request is left
//! open. With the same answers, an expansion always gives the same result.

use vstd::hash_map::StringHashMap;
use vstd::prelude::*;
use crate::escape::texts;
use crate::issue::{Issue, IssueView};
use crate::model::Answer;
use crate::shell_util::{index_of, shell_words};
use crate::text::{chars_of, is_word, slice_of, string_of};

verus! {

/// What the host answered to a request.
#[derive(Debug)]
pub struct HostAnswer {
    /// The text that the host gave: what a process printed, what a file
    /// holds, the entries of a directory. Empty if it could give none.
    pub text: String,
    /// What went wrong while the host worked, in words.
    pub errors: Vec<String>,
}

impl View for HostAnswer {
    type V = Answer;

    open spec fn view(&self) -> Answer {
        Answer { text: self.text@, errors: texts(self.errors@) }
    }
}

/// The answers of the host, by request.
pub struct HostAnswers {
    map: StringHashMap<HostAnswer>,
}

impl View for HostAnswers {
    type V = Map<Seq<char>, Answer>;

    /// The answer to every request that has one.
    closed spec fn view(&self) -> Map<Seq<char>, Answer> {
        self.map@.map_values(|a: HostAnswer| a@)
    }
}

impl HostAnswers {
    /// Creates a table without answers.
    pub fn new() -> (r: Self)
        ensures
            r@ == Map::<Seq<char>, Answer>::empty(),
    {
        let r = HostAnswers { map: StringHashMap::new() };
        assert(r@ =~= Map::<Seq<char>, Answer>::empty());
        r
    }

    /// Records that the host answered the request `key` with `answer`.
    pub fn insert(&mut self, key: String, answer: HostAnswer)
        ensures
            final(self)@ == old(self)@.insert(key@, answer@),
    {
        self.map.insert(key, answer);
        assert(self@ =~= old(self)@.insert(key@, answer@));
    }

    /// Returns the answer to the request `key`, if there is one.
    pub fn get(&self, key: &str) -> (r: Option<&HostAnswer>)
        ensures
            match r {
                Some(a) => self@.contains_key(key@) && a@ == self@[key@],
                None => !self@.contains_key(key@),
            },
    {
        self.map.get(key)
    }

    /// Tests if the request `key` has an answer.
    pub fn contains_key(&self, key: &str) -> (r: bool)
        ensures
            r == self@.contains_key(key@),
    {
        self.map.contains_key(key)
    }
}

/// The kind of work that the host is asked for.
#[derive(Debug, Copy, Clone, PartialEq, Eq, Structural)]
pub enum HostService {
    /// Run a process and give what it printed.
    Run,
    /// Give the content of a file.
    Include,
    /// Give the name and the path of every entry of a directory, all
    /// separated by colons, with a backslash before each colon and each
    /// backslash in them.
    Lsdir,
}

/// A request to the host.
#[derive(Debug)]
pub struct HostRequest {
    /// The request as the engine wrote it: the answer goes under this key.
    pub key: String,
    /// The kind of work asked for.
    pub service: HostService,
    /// What the work is done on: for a process its name and its arguments,
    /// for a file or a directory its path.
    pub words: Vec<String>,
}

/// What a request says.
pub struct RequestView {
    pub key: Seq<char>,
    pub service: HostService,
    pub words: Seq<Seq<char>>,
}

impl View for HostRequest {
    type V = RequestView;

    open spec fn view(&self) -> RequestView {
        RequestView { key: self.key@, service: self.service, words: texts(self.words@) }
    }
}

/// The request that the text `key` is, if it is one: the name of a service,
/// a space, and what the work is done on. For `run` that is a command
/// line, which is cut into words as a shell does.
pub open spec fn request_of(key: Seq<char>) -> Option<RequestView> {
    let sp = index_of(key, ' ', 0);
    let rest = if 0 <= sp < key.len() {
        key.skip(sp + 1)
    } else {
        Seq::empty()
    };
    if !(0 <= sp < key.len()) {
        None
    } else if key.take(sp) == "run"@ {
        Some(RequestView { key, service: HostService::Run, words: shell_words(rest) })
    } else if key.take(sp) == "include"@ {
        Some(RequestView { key, service: HostService::Include, words: seq![rest] })
    } else if key.take(sp) == "lsdir"@ {
        Some(RequestView { key, service: HostService::Lsdir, words: seq![rest] })
    } else {
        None
    }
}

/// The requests that the issues `issues` hold, in order: one for each
/// issue that tells of a request without an answer.
pub open spec fn requests_of(issues: Seq<IssueView>) -> Seq<RequestView>
    decreases issues.len(),
{
    if issues.len() == 0 {
        Seq::empty()
    } else {
        let before = requests_of(issues.drop_last());
        let last = issues.last();
        if last.id == "host:pending"@ && request_of(last.msg) is Some {
            before.push(request_of(last.msg)->0)
        } else {
            before
        }
    }
}

/// What each request of a list says.
pub open spec fn request_views(v: Seq<HostRequest>) -> Seq<RequestView> {
    v.map_values(|r: HostRequest| r@)
}

/// Reads the request that the text `key` is, if it is one: see
/// [`request_of`].
pub fn read_request(key: &str) -> (r: Option<HostRequest>)
    ensures
        match r {
            Some(req) => request_of(key@) == Some(req@),
            None => request_of(key@) is None,
        },
{
    let chars = chars_of(key);
    let mut sp: usize = 0;
    while sp < chars.len() && chars[sp] != ' '
        invariant
            sp <= chars@.len(),
            index_of(chars@, ' ', sp as int) == index_of(chars@, ' ', 0),
        decreases chars@.len() - sp,
    {
        sp += 1;
    }
    if sp >= chars.len() {
        return None;
    }
    let name = slice_of(&chars, 0, sp);
    let rest = string_of(&slice_of(&chars, sp + 1, chars.len()));
    proof {
        assert(name@ =~= key@.take(sp as int));
        assert(rest@ =~= key@.skip(sp as int + 1));
    }
    if is_word(&name, "run") {
        let words = crate::shell_util::split_args(rest.as_str());
        Some(HostRequest { key: key.to_string(), service: HostService::Run, words })
    } else if is_word(&name, "include") {
        let mut words: Vec<String> = Vec::new();
        words.push(rest);
        proof {
            assert(texts(words@) =~= seq![rest@]);
        }
        Some(HostRequest { key: key.to_string(), service: HostService::Include, words })
    } else if is_word(&name, "lsdir") {
        let mut words: Vec<String> = Vec::new();
        words.push(rest);
        proof {
            assert(texts(words@) =~= seq![rest@]);
        }
        Some(HostRequest { key: key.to_string(), service: HostService::Lsdir, words })
    } else {
        None
    }
}

/// Gives the requests that the issues `issues` hold, in order: what the
/// host has to answer before the text is expanded once more.
pub fn pending_requests(issues: &Vec<Issue>) -> (r: Vec<HostRequest>)
    ensures
        request_views(r@) == requests_of(crate::issue::views(issues@)),
{
    let ghost all = crate::issue::views(issues@);
    let mut r: Vec<HostRequest> = Vec::new();
    let mut i: usize = 0;
    proof {
        assert(request_views(r@) =~= requests_of(all.take(0)));
    }
    while i < issues.len()
        invariant
            i <= issues.len(),
            all == crate::issue::views(issues@),
            request_views(r@) == requests_of(all.take(i as int)),
        decreases issues.len() - i,
    {
        proof {
            assert(all.take(i as int + 1).drop_last() =~= all.take(i as int));
            assert(all.take(i as int + 1).last() == issues@[i as int]@);
        }
        let id = chars_of(issues[i].id);
        if is_word(&id, "host:pending") {
            match read_request(issues[i].msg.as_str()) {
                Some(req) => {
                    proof {
                        assert(request_views(r@.push(req)) =~= request_views(r@).push(req@));
                    }
                    r.push(req);
                },
                None => {},
            }
        }
        i += 1;
    }
    proof {
        assert(all.take(all.len() as int) =~= all);
    }
    r
}

} // verus!
