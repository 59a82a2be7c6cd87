//! The decisions of an interactive command shell: parsing a line into a
//! command and the session state it changes. Reading and printing are the
//! caller's.
use vstd::prelude::*;
use vstd::string::*;

use crate::graph::same_text;

verus! {

/// Whether a character has Unicode's White_Space property, as
/// `char::is_whitespace` tests it: these 25 code points.
pub open spec fn is_white(c: char) -> bool {
    let n = c as u32;
    ||| 0x9 <= n <= 0xD
    ||| n == 0x20
    ||| n == 0x85
    ||| n == 0xA0
    ||| n == 0x1680
    ||| 0x2000 <= n <= 0x200A
    ||| n == 0x2028
    ||| n == 0x2029
    ||| n == 0x202F
    ||| n == 0x205F
    ||| n == 0x3000
}

/// The lowercase form of a text as Unicode defines it; it depends on the
/// text alone (a final sigma depends on its neighbors within the text).
pub uninterp spec fn lower_of(s: Seq<char>) -> Seq<char>;

/// `s` without its leading white space.
pub open spec fn trim_start_of(s: Seq<char>) -> Seq<char>
    decreases s.len(),
{
    if s.len() > 0 && is_white(s[0]) {
        trim_start_of(s.drop_first())
    } else {
        s
    }
}

/// `s` without its trailing white space.
pub open spec fn trim_end_of(s: Seq<char>) -> Seq<char>
    decreases s.len(),
{
    if s.len() > 0 && is_white(s.last()) {
        trim_end_of(s.drop_last())
    } else {
        s
    }
}

/// `s` without leading and trailing white space.
pub open spec fn trim_of(s: Seq<char>) -> Seq<char> {
    trim_end_of(trim_start_of(s))
}

/// The maximal runs of non-white characters of `s`, in order.
pub open spec fn words_of(s: Seq<char>) -> Seq<Seq<char>>
    decreases s.len(),
{
    if s.len() == 0 {
        Seq::empty()
    } else {
        let w = words_of(s.drop_last());
        let c = s.last();
        if is_white(c) {
            w
        } else if s.len() >= 2 && !is_white(s[s.len() - 2]) {
            w.update(w.len() - 1, w.last().push(c))
        } else {
            w.push(seq![c])
        }
    }
}

/// Relies on `str::trim`: leading and trailing white space removed.
#[verifier::external_body]
fn trim(s: &str) -> (r: String)
    ensures
        r@ == trim_of(s@),
        r@.len() > 0 ==> !is_white(r@[0]) && !is_white(r@.last()),
{
    s.trim().to_string()
}

/// Relies on `str::to_lowercase`: the result depends on the characters alone.
#[verifier::external_body]
fn lowercase(s: &str) -> (r: String)
    ensures
        r@ == lower_of(s@),
{
    s.to_lowercase()
}

/// Relies on `str::split_whitespace`: the maximal runs of non-white characters.
#[verifier::external_body]
fn split_words(s: &str) -> (r: Vec<String>)
    ensures
        r@.map_values(|w: String| w@) == words_of(s@),
{
    s.split_whitespace().map(|w| w.to_string()).collect()
}

/// A shell command.
#[derive(Clone, Copy, Debug, PartialEq, Eq, Structural)]
pub enum ReplCommand {
    Exit,
}

pub open spec fn exit_word() -> Seq<char> {
    seq!['e', 'x', 'i', 't']
}

pub open spec fn unknown_prefix() -> Seq<char> {
    seq!['u', 'n', 'k', 'n', 'o', 'w', 'n', ' ', 'c', 'o', 'm', 'm', 'a', 'n', 'd', ' ']
}

/// What a lowercased, trimmed line means: `exit` alone is the one command.
pub open spec fn command_of_lowered(lowered: Seq<char>) -> Result<ReplCommand, Seq<char>> {
    if words_of(lowered) == seq![exit_word()] {
        Ok(ReplCommand::Exit)
    } else {
        Err(unknown_prefix() + lowered)
    }
}

pub open spec fn command_spec(line: Seq<char>) -> Result<ReplCommand, Seq<char>> {
    command_of_lowered(lower_of(trim_of(line)))
}

pub open spec fn result_view(r: Result<ReplCommand, String>) -> Result<ReplCommand, Seq<char>> {
    match r {
        Ok(c) => Ok(c),
        Err(m) => Err(m@),
    }
}

impl ReplCommand {
    /// The command of a line that is already trimmed and lowercased, or the
    /// message naming it as unknown.
    pub fn from_lowered(lowered: &str) -> (r: Result<ReplCommand, String>)
        ensures
            result_view(r) == command_of_lowered(lowered@),
    {
        let exit = "exit";
        let prefix = "unknown command ";
        proof {
            reveal_strlit("exit");
            reveal_strlit("unknown command ");
            assert(exit@ =~= exit_word());
            assert(prefix@ =~= unknown_prefix());
        }
        let words = split_words(lowered);
        proof {
            assert(words@.len() == words_of(lowered@).len());
        }
        if words.len() == 1 && same_text(words[0].as_str(), exit) {
            proof {
                assert(words_of(lowered@)[0] == words@[0]@);
                assert(words_of(lowered@) =~= seq![exit_word()]);
            }
            Ok(ReplCommand::Exit)
        } else {
            proof {
                if words_of(lowered@) == seq![exit_word()] {
                    assert(words_of(lowered@)[0] == words@[0]@);
                }
            }
            let mut message = String::from_str(prefix);
            message.append(lowered);
            Err(message)
        }
    }

    /// Parses a line: trimmed and lowercased, `exit` is the one command.
    pub fn parse(line: &str) -> (r: Result<ReplCommand, String>)
        ensures
            result_view(r) == command_spec(line@),
    {
        let trimmed = trim(line);
        let lowered = lowercase(trimmed.as_str());
        ReplCommand::from_lowered(lowered.as_str())
    }
}

/// A shell session: whether the banner was shown, the lines entered, and
/// whether it is ending.
pub struct Repl {
    banner_seen: bool,
    history: Vec<String>,
    exiting: bool,
}

impl Repl {
    pub closed spec fn banner_was_seen(&self) -> bool {
        self.banner_seen
    }

    pub closed spec fn lines(&self) -> Seq<Seq<char>> {
        self.history@.map_values(|l: String| l@)
    }

    pub closed spec fn is_ending(&self) -> bool {
        self.exiting
    }

    /// A new session: no banner shown, no line entered, not ending.
    pub fn new() -> (r: Repl)
        ensures
            !r.banner_was_seen(),
            r.lines() == Seq::<Seq<char>>::empty(),
            !r.is_ending(),
    {
        Repl { banner_seen: false, history: Vec::new(), exiting: false }
    }

    /// Before each prompt: whether the banner is to be shown first. It is
    /// shown once per session.
    pub fn prompt(&mut self) -> (show_banner: bool)
        ensures
            show_banner == !old(self).banner_was_seen(),
            final(self).banner_was_seen(),
            final(self).lines() == old(self).lines(),
            final(self).is_ending() == old(self).is_ending(),
    {
        let show = !self.banner_seen;
        self.banner_seen = true;
        show
    }

    /// A line entered: it is recorded, then parsed; `exit` ends the session.
    /// An unknown command is reported back and changes nothing else.
    pub fn command(&mut self, input: &str) -> (r: Result<ReplCommand, String>)
        ensures
            result_view(r) == command_spec(input@),
            final(self).lines() == old(self).lines().push(input@),
            final(self).banner_was_seen() == old(self).banner_was_seen(),
            final(self).is_ending() == (old(self).is_ending() || r == Ok::<ReplCommand, String>(
                ReplCommand::Exit,
            )),
    {
        let ghost before = self.history@;
        self.history.push(input.to_string());
        proof {
            assert(self.history@.map_values(|l: String| l@) =~= before.map_values(|l: String| l@).push(
                input@,
            ));
        }
        let r = ReplCommand::parse(input);
        match r {
            Ok(ReplCommand::Exit) => {
                self.exiting = true;
            },
            Err(_) => {},
        }
        r
    }

    /// The input ended: the session ends.
    pub fn end_of_input(&mut self)
        ensures
            final(self).is_ending(),
            final(self).lines() == old(self).lines(),
            final(self).banner_was_seen() == old(self).banner_was_seen(),
    {
        self.exiting = true;
    }

    /// Whether the session is ending.
    pub fn exiting(&self) -> (r: bool)
        ensures
            r == self.is_ending(),
    {
        self.exiting
    }

    /// The number of lines entered.
    pub fn history_len(&self) -> (r: usize)
        ensures
            r == self.lines().len(),
    {
        self.history.len()
    }
}

} // verus!
