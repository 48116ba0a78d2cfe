//! The console of a client: what a typed line asks for, and the messages
//! that carry the request to the ring.

use rand::Rng;
use vstd::prelude::*;
use vstd::string::*;
use crate::address::Address;
use crate::message::{Message, MessageView};
use crate::text::{
    chars_of, find_mark, first_of, host_of, read_host, read_typed_int, same_text, typed_i64_of,
};

verus! {

/// What a line typed at the console asks for.
#[derive(Debug, Clone, PartialEq)]
pub enum Command {
    /// `exit`: stop the client.
    Exit,
    /// `stop_all`: stop the client and every node of the ring.
    StopAll,
    /// `get <key>`.
    Get(i64),
    /// `put <key> <value>`, the value as it was typed.
    Put(i64, String),
    /// A `get` whose key is no integer.
    BadKey,
    /// A `put` whose key is no integer.
    BadPut,
    /// A `get` with too few or too many words.
    GetUsage,
    /// A `put` with too few or too many words.
    PutUsage,
    /// Anything else.
    Unknown,
}

/// The mathematical value of a [`Command`].
pub enum CommandView {
    Exit,
    StopAll,
    Get(i64),
    Put(i64, Seq<char>),
    BadKey,
    BadPut,
    GetUsage,
    PutUsage,
    Unknown,
}

impl View for Command {
    type V = CommandView;

    open spec fn view(&self) -> CommandView {
        match self {
            Command::Exit => CommandView::Exit,
            Command::StopAll => CommandView::StopAll,
            Command::Get(key) => CommandView::Get(*key),
            Command::Put(key, value) => CommandView::Put(*key, value@),
            Command::BadKey => CommandView::BadKey,
            Command::BadPut => CommandView::BadPut,
            Command::GetUsage => CommandView::GetUsage,
            Command::PutUsage => CommandView::PutUsage,
            Command::Unknown => CommandView::Unknown,
        }
    }
}

/// A line without the line end that the terminal left on it: one line feed
/// at most, and one carriage return at most before it.
pub open spec fn without_line_end(line: Seq<char>) -> Seq<char> {
    let fed = if line.len() > 0 && line.last() == '\n' {
        line.drop_last()
    } else {
        line
    };
    if fed.len() > 0 && fed.last() == '\r' {
        fed.drop_last()
    } else {
        fed
    }
}

/// The words of a line: what stands between its blanks. Two blanks in a
/// row have an empty word between them.
pub open spec fn words_of(line: Seq<char>) -> Seq<Seq<char>>
    decreases line.len(),
{
    let at = first_of(line, ' ');
    if 0 <= at < line.len() {
        seq![line.take(at)] + words_of(line.skip(at + 1))
    } else {
        seq![line]
    }
}

/// Whether `line` begins with `word`.
pub open spec fn begins_with(line: Seq<char>, word: Seq<char>) -> bool {
    word.len() <= line.len() && line.take(word.len() as int) == word
}

/// What the words of a line ask for.
pub open spec fn command_of_words(words: Seq<Seq<char>>) -> CommandView {
    if words[0] == "get"@ {
        if words.len() == 2 {
            match typed_i64_of(words[1]) {
                Some(key) => CommandView::Get(key),
                None => CommandView::BadKey,
            }
        } else {
            CommandView::GetUsage
        }
    } else if words[0] == "put"@ {
        if words.len() == 3 {
            match typed_i64_of(words[1]) {
                Some(key) => CommandView::Put(key, words[2]),
                None => CommandView::BadPut,
            }
        } else {
            CommandView::PutUsage
        }
    } else {
        CommandView::Unknown
    }
}

/// What a typed line asks for. A line that begins with `exit` or with
/// `stop_all` is that command, whatever follows.
pub open spec fn command_of(line: Seq<char>) -> CommandView {
    let line = without_line_end(line);
    if begins_with(line, "exit"@) {
        CommandView::Exit
    } else if begins_with(line, "stop_all"@) {
        CommandView::StopAll
    } else {
        command_of_words(words_of(line))
    }
}

/// Whether `chars[.. upto]` begins with `word`.
fn has_prefix(chars: &Vec<char>, upto: usize, word: &str) -> (has: bool)
    requires
        upto <= chars@.len(),
    ensures
        has == begins_with(chars@.take(upto as int), word@),
{
    let letters = chars_of(word);
    let ghost line = chars@.take(upto as int);
    if letters.len() > upto {
        return false;
    }
    let mut k: usize = 0;
    while k < letters.len()
        invariant
            k <= letters@.len() <= upto <= chars@.len(),
            line == chars@.take(upto as int),
            letters@ == word@,
            forall|i: int| 0 <= i < k ==> line[i] == letters@[i],
        decreases letters@.len() - k,
    {
        if chars[k] != letters[k] {
            assert(line[k as int] == chars@[k as int]);
            assert(line.take(letters@.len() as int)[k as int] == line[k as int]);
            return false;
        }
        k = k + 1;
    }
    assert(line.take(letters@.len() as int) =~= letters@);
    true
}

/// The words of `line[.. upto]`.
fn split<'a>(line: &'a str, chars: &Vec<char>, upto: usize) -> (words: Vec<&'a str>)
    requires
        chars@ == line@,
        upto <= chars@.len(),
    ensures
        words@.len() == words_of(line@.take(upto as int)).len(),
        forall|k: int|
            0 <= k < words@.len() ==> (#[trigger] words@[k])@ == words_of(
                line@.take(upto as int),
            )[k],
{
    let ghost whole = line@.take(upto as int);
    let mut words: Vec<&'a str> = Vec::new();
    let mut head: Vec<char> = Vec::new();
    let mut k: usize = 0;
    while k < upto
        invariant
            k <= upto <= chars@.len(),
            chars@ == line@,
            head@ == chars@.take(k as int),
        decreases upto - k,
    {
        head.push(chars[k]);
        k = k + 1;
        assert(head@ =~= chars@.take(k as int));
    }
    let ghost mut seen: Seq<Seq<char>> = Seq::empty();
    let mut from: usize = 0;
    let mut more: bool = true;
    assert(whole.skip(0) =~= whole);
    while more
        invariant
            from <= upto <= chars@.len(),
            chars@ == line@,
            head@ == whole,
            whole == line@.take(upto as int),
            seen.len() == words@.len(),
            forall|k: int| 0 <= k < words@.len() ==> (#[trigger] words@[k])@ == seen[k],
            more ==> words_of(whole) == seen + words_of(whole.skip(from as int)),
            !more ==> words_of(whole) == seen,
        decreases upto - from + if more { 1int } else { 0int },
    {
        let at: usize = find_mark(&head, from, ' ');
        let ghost rest = whole.skip(from as int);
        let word: &'a str = line.substring_char(from, at);
        assert(word@ =~= rest.take(at - from));
        words.push(word);
        if at < upto {
            proof {
                assert(rest.skip(at - from + 1) =~= whole.skip(at + 1));
                assert(seen + (seq![rest.take(at - from)] + words_of(rest.skip(at - from + 1)))
                    =~= seen.push(word@) + words_of(whole.skip(at + 1)));
                seen = seen.push(word@);
            }
            from = at + 1;
        } else {
            proof {
                assert(rest.take(at - from) =~= rest);
                assert(seen + seq![rest] =~= seen.push(word@));
                seen = seen.push(word@);
            }
            more = false;
        }
    }
    words
}

/// Reads what a typed line asks for.
pub fn read_command(line: &str) -> (command: Command)
    ensures
        command@ == command_of(line@),
{
    let chars = chars_of(line);
    let mut upto: usize = chars.len();
    if upto > 0 && chars[upto - 1] == '\n' {
        upto = upto - 1;
    }
    if upto > 0 && chars[upto - 1] == '\r' {
        upto = upto - 1;
    }
    let ghost typed = without_line_end(line@);
    assert(typed =~= chars@.take(upto as int));
    if has_prefix(&chars, upto, "exit") {
        return Command::Exit;
    }
    if has_prefix(&chars, upto, "stop_all") {
        return Command::StopAll;
    }
    let words = split(line, &chars, upto);
    assert(words@.len() >= 1) by {
        assert(words_of(typed).len() >= 1);
    }
    if same_text(words[0], "get") {
        if words.len() == 2 {
            match read_typed_int(words[1]) {
                Some(key) => Command::Get(key),
                None => Command::BadKey,
            }
        } else {
            Command::GetUsage
        }
    } else if same_text(words[0], "put") {
        if words.len() == 3 {
            match read_typed_int(words[1]) {
                Some(key) => Command::Put(key, String::from_str(words[2])),
                None => Command::BadPut,
            }
        } else {
            Command::PutUsage
        }
    } else {
        Command::Unknown
    }
}

/// How a client is to start.
#[derive(Debug, Clone, Copy, PartialEq, Eq, Structural)]
pub enum Param {
    /// Listening at `ip` and `port`, talking to the node at `ip_d` and
    /// `port_d`.
    Long { ip: u32, port: i64, ip_d: u32, port_d: i64 },
}

/// What an argument list asks of a client. The list begins with the
/// program's name; behind it stand the client's host and port and the host
/// and port of a node of the ring. Anything else asks for nothing.
pub open spec fn param_of(args: Seq<Seq<char>>) -> Option<Param> {
    if args.len() == 5 {
        match (host_of(args[1]), typed_i64_of(args[2]), host_of(args[3]), typed_i64_of(args[4])) {
            (Some(ip), Some(port), Some(ip_d), Some(port_d)) => Some(
                Param::Long { ip, port, ip_d, port_d },
            ),
            _ => None,
        }
    } else {
        None
    }
}

/// Reads the argument list of a client.
pub fn get_args(args: &Vec<String>) -> (param: Option<Param>)
    ensures
        param == param_of(crate::parameter::texts(args@)),
{
    if args.len() == 5 {
        match (
            read_host(args[1].as_str()),
            read_typed_int(args[2].as_str()),
            read_host(args[3].as_str()),
            read_typed_int(args[4].as_str()),
        ) {
            (Some(ip), Some(port), Some(ip_d), Some(port_d)) => Some(
                Param::Long { ip, port, ip_d, port_d },
            ),
            _ => None,
        }
    } else {
        None
    }
}

/// A client of the ring: where it listens for answers, and the node
/// through which it talks to the ring. A client holds no ring id: both
/// addresses carry the id -1.
#[derive(Debug, Clone, Copy, PartialEq, Eq, Structural)]
pub struct Client {
    pub local: Address,
    pub ring: Address,
}

impl Client {
    /// A client that listens at `ip` and `port` and talks to the node at
    /// `ring_ip` and `ring_port`.
    pub fn new(ip: u32, port: i64, ring_ip: u32, ring_port: i64) -> (client: Client)
        ensures
            client.local == (Address { host: ip, port, id: -1i64 }),
            client.ring == (Address { host: ring_ip, port: ring_port, id: -1i64 }),
    {
        Client { local: Address::new(ip, port, -1), ring: Address::new(ring_ip, ring_port, -1) }
    }

    /// The lookup of `key`: to whom it goes, and what goes.
    pub fn get(&self, key: i64) -> (request: (Address, Message))
        ensures
            request.0 == self.ring,
            request.1@ == MessageView::Get(self.local, key),
    {
        (self.ring, Message::Get(self.local, key))
    }

    /// The write of `value` under `key`, to be acknowledged with `token`.
    pub fn put_with(&self, key: i64, value: u64, token: i64) -> (request: (Address, Message))
        ensures
            request.0 == self.ring,
            request.1@ == MessageView::Put(self.local, key, value, token),
    {
        (self.ring, Message::Put(self.local, key, value, token))
    }

    /// The write of `value` under `key`, to be acknowledged with a token
    /// drawn at random; [`Client::put_with`] takes a token of the caller's.
    pub fn put(&self, key: i64, value: u64) -> (request: (Address, Message))
        ensures
            request.0 == self.ring,
            exists|token: i64| request.1@ == MessageView::Put(self.local, key, value, token),
    {
        let token: i64 = fresh_token();
        self.put_with(key, value, token)
    }

    /// What `exit` sends: a shutdown to the client's own listener.
    pub fn exit(&self) -> (requests: Vec<(Address, Message)>)
        ensures
            requests@.len() == 1,
            requests@[0].0 == self.local,
            requests@[0].1@ == MessageView::Exit,
    {
        let mut requests: Vec<(Address, Message)> = Vec::new();
        requests.push((self.local, Message::Exit()));
        requests
    }

    /// What `stop_all` sends: a shutdown to the client's own listener, and
    /// one to the ring.
    pub fn stop_all(&self) -> (requests: Vec<(Address, Message)>)
        ensures
            requests@.len() == 2,
            requests@[0].0 == self.local,
            requests@[0].1@ == MessageView::Exit,
            requests@[1].0 == self.ring,
            requests@[1].1@ == MessageView::Exit,
    {
        let mut requests: Vec<(Address, Message)> = Vec::new();
        requests.push((self.local, Message::Exit()));
        requests.push((self.ring, Message::Exit()));
        requests
    }
}

/// Draws a 64-bit integer from `rand::thread_rng` with `Rng::gen`. Any
/// integer may come, and two calls may differ: nothing is claimed of it.
/// The generator is seeded by the system on a thread's first draw, and
/// `rand` panics where the system cannot do that.
#[verifier::external_body]
fn fresh_token() -> i64 {
    rand::thread_rng().gen::<i64>()
}

} // verus!
