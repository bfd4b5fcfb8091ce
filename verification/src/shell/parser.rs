//! The grammar of the shell: a command word and its arguments, parted by
//! ASCII whitespace.

use crate::model::buffer::bytes_from_vec;
use crate::shell::command::{Command, CommandView};
use vstd::prelude::*;
use vstd::string::StringSliceAdditionalSpecFns;
use vstd::utf8::encode_utf8;

verus! {

/// Whether `b` is an ASCII whitespace character: a space, a tab, a line
/// feed, a form feed or a carriage return.
pub open spec fn is_space(b: u8) -> bool {
    b == 0x20 || b == 0x09 || b == 0x0a || b == 0x0c || b == 0x0d
}

/// The state of a scan after the first `n` bytes of `s`: the words that
/// have ended, and the bytes of the word that has not.
pub open spec fn scanned(s: Seq<u8>, n: int) -> (Seq<Seq<u8>>, Seq<u8>)
    decreases n,
{
    if n <= 0 {
        (Seq::empty(), Seq::empty())
    } else {
        let (words, word) = scanned(s, n - 1);
        if !is_space(s[n - 1]) {
            (words, word.push(s[n - 1]))
        } else if word.len() > 0 {
            (words.push(word), Seq::empty())
        } else {
            (words, word)
        }
    }
}

/// The words of `s`: its maximal runs of bytes that are no whitespace.
pub open spec fn words_of(s: Seq<u8>) -> Seq<Seq<u8>> {
    let (words, word) = scanned(s, s.len() as int);
    if word.len() > 0 {
        words.push(word)
    } else {
        words
    }
}

/// A word is not empty and holds no whitespace.
pub proof fn lemma_words(s: Seq<u8>, n: int)
    requires
        0 <= n <= s.len(),
    ensures
        forall|w: int, i: int|
            0 <= w < scanned(s, n).0.len() && 0 <= i < scanned(s, n).0[w].len() ==> !is_space(
                #[trigger] scanned(s, n).0[w][i],
            ),
        forall|w: int| 0 <= w < scanned(s, n).0.len() ==> (#[trigger] scanned(s, n).0[w]).len() > 0,
        forall|i: int| 0 <= i < scanned(s, n).1.len() ==> !is_space(#[trigger] scanned(s, n).1[i]),
    decreases n,
{
    if n > 0 {
        lemma_words(s, n - 1);
        let (words, word) = scanned(s, n - 1);
        let (words2, word2) = scanned(s, n);
        let b = s[n - 1];
        assert forall|w: int, i: int|
            0 <= w < words2.len() && 0 <= i < words2[w].len() implies !is_space(
            #[trigger] words2[w][i],
        ) by {
            if w < words.len() {
                assert(words2[w] == words[w]);
                assert(!is_space(words[w][i]));
            } else {
                assert(words2[w] == word);
                assert(!is_space(word[i]));
            }
        }
        assert forall|w: int| 0 <= w < words2.len() implies (#[trigger] words2[w]).len() > 0 by {
            if w < words.len() {
                assert(words2[w] == words[w]);
            }
        }
        assert forall|i: int| 0 <= i < word2.len() implies !is_space(#[trigger] word2[i]) by {
            if !is_space(b) && i < word.len() {
                assert(word2[i] == word[i]);
            }
        }
    }
}

/// Why an argument could not be read.
#[derive(Debug, PartialEq, Eq, Structural, Clone, Copy)]
pub enum ArgError {
    /// The argument is not a number: it is a bare sign, or holds a
    /// character that is no digit.
    InvalidDigit,
    /// The number does not fit 64 bits.
    Overflow,
    /// The argument is neither `true` nor `false`.
    NotBool,
}

/// The number that `acc` becomes when the decimal digits `s` follow it.
/// The first byte that is no digit, and else the first digit that takes the
/// number over 64 bits, ends the reading.
pub open spec fn decimal_from(acc: u64, s: Seq<u8>) -> Result<u64, ArgError>
    decreases s.len(),
{
    if s.len() == 0 {
        Ok(acc)
    } else if !(0x30 <= s[0] <= 0x39) {
        Err(ArgError::InvalidDigit)
    } else if acc * 10 + (s[0] - 0x30) > u64::MAX {
        Err(ArgError::Overflow)
    } else {
        decimal_from((acc * 10 + (s[0] - 0x30)) as u64, s.skip(1))
    }
}

/// The number that `s` spells: decimal digits, at least one, after an
/// optional `+`.
pub open spec fn decimal(s: Seq<u8>) -> Result<u64, ArgError> {
    let digits = if s.len() > 0 && s[0] == 0x2b {
        s.skip(1)
    } else {
        s
    };
    if digits.len() == 0 {
        Err(ArgError::InvalidDigit)
    } else {
        decimal_from(0, digits)
    }
}

/// The truth value that `s` spells.
pub open spec fn truth(s: Seq<u8>) -> Result<bool, ArgError> {
    if s == "true".spec_bytes() {
        Ok(true)
    } else if s == "false".spec_bytes() {
        Ok(false)
    } else {
        Err(ArgError::NotBool)
    }
}

/// Why a line is no command.
#[derive(Debug)]
pub enum ParseError {
    /// The line holds no word.
    Empty,
    /// The first word is no command: the word.
    Unknown(Vec<u8>),
    /// The command `cmd` takes `expected` arguments and got `actual`.
    WrongArgNum { cmd: &'static str, expected: usize, actual: usize },
    /// The argument `arg`, the `pos`-th, could not be read.
    ArgParseFailed { arg: &'static str, pos: usize, e: ArgError },
}

/// A parse error as contracts speak of it.
pub enum ParseErrorView {
    Empty,
    Unknown(Seq<u8>),
    WrongArgNum { cmd: Seq<char>, expected: usize, actual: usize },
    ArgParseFailed { arg: Seq<char>, pos: usize, e: ArgError },
}

impl View for ParseError {
    type V = ParseErrorView;

    open spec fn view(&self) -> ParseErrorView {
        match self {
            ParseError::Empty => ParseErrorView::Empty,
            ParseError::Unknown(word) => ParseErrorView::Unknown(word@),
            ParseError::WrongArgNum { cmd, expected, actual } => ParseErrorView::WrongArgNum {
                cmd: cmd@,
                expected: *expected,
                actual: *actual,
            },
            ParseError::ArgParseFailed { arg, pos, e } => ParseErrorView::ArgParseFailed {
                arg: arg@,
                pos: *pos,
                e: *e,
            },
        }
    }
}

/// What `put` with the arguments `args` asks for.
pub open spec fn put_of(args: Seq<Seq<u8>>) -> Result<CommandView, ParseErrorView> {
    if args.len() == 2 {
        Ok(CommandView::Put { row: args[0], timestamp: None, value: args[1] })
    } else if args.len() == 3 {
        match decimal(args[1]) {
            Ok(t) => Ok(CommandView::Put { row: args[0], timestamp: Some(t), value: args[2] }),
            Err(e) => Err(ParseErrorView::ArgParseFailed { arg: "timestamp"@, pos: 2, e }),
        }
    } else {
        Err(
            ParseErrorView::WrongArgNum { cmd: "put"@, expected: 2, actual: args.len() as usize },
        )
    }
}

/// What `get` with the arguments `args` asks for.
pub open spec fn get_of(args: Seq<Seq<u8>>) -> Result<CommandView, ParseErrorView> {
    if args.len() == 1 {
        Ok(CommandView::Get { row: args[0] })
    } else {
        Err(
            ParseErrorView::WrongArgNum { cmd: "get"@, expected: 1, actual: args.len() as usize },
        )
    }
}

/// What `delete` with the arguments `args` asks for.
pub open spec fn delete_of(args: Seq<Seq<u8>>) -> Result<CommandView, ParseErrorView> {
    if args.len() == 1 {
        Ok(CommandView::Delete { row: args[0], timestamp: None })
    } else if args.len() == 2 {
        match decimal(args[1]) {
            Ok(t) => Ok(CommandView::Delete { row: args[0], timestamp: Some(t) }),
            Err(e) => Err(ParseErrorView::ArgParseFailed { arg: "timestamp"@, pos: 2, e }),
        }
    } else {
        Err(
            ParseErrorView::WrongArgNum {
                cmd: "delete"@,
                expected: 1,
                actual: args.len() as usize,
            },
        )
    }
}

/// What `flush` with the arguments `args` asks for.
pub open spec fn flush_of(args: Seq<Seq<u8>>) -> Result<CommandView, ParseErrorView> {
    if args.len() == 0 {
        Ok(CommandView::Flush { cache: true })
    } else if args.len() == 1 {
        match truth(args[0]) {
            Ok(cache) => Ok(CommandView::Flush { cache }),
            Err(e) => Err(ParseErrorView::ArgParseFailed { arg: "cache"@, pos: 1, e }),
        }
    } else {
        Err(
            ParseErrorView::WrongArgNum {
                cmd: "flush"@,
                expected: 2,
                actual: args.len() as usize,
            },
        )
    }
}

/// What `exit` with the arguments `args` asks for.
pub open spec fn exit_of(args: Seq<Seq<u8>>) -> Result<CommandView, ParseErrorView> {
    if args.len() == 0 {
        Ok(CommandView::Exit)
    } else {
        Err(
            ParseErrorView::WrongArgNum { cmd: "exit"@, expected: 0, actual: args.len() as usize },
        )
    }
}

/// The command that the words `words` spell: the first word names it, the
/// rest are its arguments.
pub open spec fn command_of(words: Seq<Seq<u8>>) -> Result<CommandView, ParseErrorView> {
    if words.len() == 0 {
        Err(ParseErrorView::Empty)
    } else if words[0] == "put".spec_bytes() {
        put_of(words.skip(1))
    } else if words[0] == "get".spec_bytes() {
        get_of(words.skip(1))
    } else if words[0] == "delete".spec_bytes() {
        delete_of(words.skip(1))
    } else if words[0] == "flush".spec_bytes() {
        flush_of(words.skip(1))
    } else if words[0] == "exit".spec_bytes() {
        exit_of(words.skip(1))
    } else {
        Err(ParseErrorView::Unknown(words[0]))
    }
}

/// The views of a result of parsing.
pub open spec fn parsed(r: Result<Command, ParseError>) -> Result<CommandView, ParseErrorView> {
    match r {
        Ok(command) => Ok(command@),
        Err(e) => Err(e@),
    }
}

/// The bytes of words.
pub open spec fn word_views(words: Seq<Vec<u8>>) -> Seq<Seq<u8>> {
    Seq::new(words.len(), |i: int| words[i]@)
}

/// Whether `b` is an ASCII whitespace character.
pub fn is_whitespace(b: u8) -> (r: bool)
    ensures
        r == is_space(b),
{
    b == 0x20 || b == 0x09 || b == 0x0a || b == 0x0c || b == 0x0d
}

/// Parts `input` at its ASCII whitespace.
pub fn split_words(input: &[u8]) -> (words: Vec<Vec<u8>>)
    ensures
        word_views(words@) == words_of(input@),
{
    let mut words: Vec<Vec<u8>> = Vec::new();
    let mut word: Vec<u8> = Vec::new();
    let mut i: usize = 0;
    proof {
        assert(word_views(words@) =~= scanned(input@, 0).0);
        assert(word@ =~= scanned(input@, 0).1);
    }
    while i < input.len()
        invariant
            i <= input@.len(),
            word_views(words@) == scanned(input@, i as int).0,
            word@ == scanned(input@, i as int).1,
        decreases input@.len() - i,
    {
        let b = input[i];
        let ghost before = word_views(words@);
        if !is_whitespace(b) {
            word.push(b);
        } else if word.len() > 0 {
            words.push(word);
            word = Vec::new();
            proof {
                assert(word_views(words@) =~= before.push(scanned(input@, i as int).1));
                assert(word@ =~= Seq::<u8>::empty());
            }
        }
        i += 1;
    }
    if word.len() > 0 {
        let ghost before = word_views(words@);
        words.push(word);
        proof {
            assert(word_views(words@) =~= before.push(scanned(input@, i as int).1));
        }
    }
    words
}

/// Whether `word` spells `text`.
fn spells(word: &Vec<u8>, text: &str) -> (r: bool)
    ensures
        r == (word@ == text.spec_bytes()),
{
    let bytes = text.as_bytes();
    if word.len() != bytes.len() {
        return false;
    }
    let mut i: usize = 0;
    while i < word.len()
        invariant
            i <= word@.len(),
            word@.len() == bytes@.len(),
            bytes@ == text.spec_bytes(),
            forall|j: int| 0 <= j < i ==> word@[j] == bytes@[j],
        decreases word@.len() - i,
    {
        if word[i] != bytes[i] {
            return false;
        }
        i += 1;
    }
    proof {
        assert(word@ =~= bytes@);
    }
    true
}

/// Reads a number: decimal digits after an optional `+`.
pub fn parse_u64(word: &Vec<u8>) -> (r: Result<u64, ArgError>)
    ensures
        r == decimal(word@),
{
    let start: usize = if word.len() > 0 && word[0] == 0x2b {
        1
    } else {
        0
    };
    if start == word.len() {
        return Err(ArgError::InvalidDigit);
    }
    let ghost digits = word@.skip(start as int);
    let mut acc: u64 = 0;
    let mut i: usize = start;
    proof {
        assert(word@.skip(0) =~= word@);
    }
    while i < word.len()
        invariant
            start <= i <= word@.len(),
            decimal(word@) == decimal_from(0, digits),
            decimal_from(0, digits) == decimal_from(acc, word@.skip(i as int)),
        decreases word@.len() - i,
    {
        let b = word[i];
        proof {
            assert(word@.skip(i as int)[0] == b);
            assert(word@.skip(i as int).skip(1) =~= word@.skip(i + 1));
        }
        if b < 0x30 || b > 0x39 {
            return Err(ArgError::InvalidDigit);
        }
        let d = (b - 0x30) as u64;
        if acc > (u64::MAX - d) / 10 {
            return Err(ArgError::Overflow);
        }
        acc = acc * 10 + d;
        i += 1;
    }
    proof {
        assert(word@.skip(i as int) =~= Seq::<u8>::empty());
    }
    Ok(acc)
}

/// Reads a truth value: `true` or `false`.
pub fn parse_bool(word: &Vec<u8>) -> (r: Result<bool, ArgError>)
    ensures
        r == truth(word@),
{
    if spells(word, "true") {
        Ok(true)
    } else if spells(word, "false") {
        Ok(false)
    } else {
        Err(ArgError::NotBool)
    }
}

/// The parser of the shell's command lines.
pub struct Parser {}

impl Parser {
    pub fn new() -> Self {
        Parser {  }
    }

    /// The command that `command` spells.
    pub fn parse(&self, command: String) -> (r: Result<Command, ParseError>)
        ensures
            parsed(r) == command_of(words_of(encode_utf8(command@))),
    {
        self.parse_tokens(split_words(command.as_str().as_bytes()))
    }

    /// The command that `tokens` spell.
    pub fn parse_tokens(&self, tokens: Vec<Vec<u8>>) -> (r: Result<Command, ParseError>)
        ensures
            parsed(r) == command_of(word_views(tokens@)),
    {
        let mut tokens = tokens;
        if tokens.len() == 0 {
            return Err(ParseError::Empty);
        }
        let ghost words = word_views(tokens@);
        let cmd = tokens.remove(0);
        proof {
            assert(word_views(tokens@) =~= words.skip(1));
            assert(cmd@ == words[0]);
        }
        if spells(&cmd, "put") {
            self.parse_put(tokens)
        } else if spells(&cmd, "get") {
            self.parse_get(tokens)
        } else if spells(&cmd, "delete") {
            self.parse_delete(tokens)
        } else if spells(&cmd, "flush") {
            self.parse_flush(tokens)
        } else if spells(&cmd, "exit") {
            self.parse_exit(tokens)
        } else {
            Err(ParseError::Unknown(cmd))
        }
    }

    fn parse_put(&self, args: Vec<Vec<u8>>) -> (r: Result<Command, ParseError>)
        ensures
            parsed(r) == put_of(word_views(args@)),
    {
        let mut args = args;
        let ghost words = word_views(args@);
        let n = args.len();
        if n == 2 {
            let value = bytes_from_vec(args.pop().unwrap());
            let row = bytes_from_vec(args.pop().unwrap());
            Ok(Command::Put { row, timestamp: None, value })
        } else if n == 3 {
            let value = bytes_from_vec(args.pop().unwrap());
            let stamp = args.pop().unwrap();
            let row = bytes_from_vec(args.pop().unwrap());
            proof {
                assert(words[1] == stamp@);
            }
            match parse_u64(&stamp) {
                Ok(timestamp) => Ok(Command::Put { row, timestamp: Some(timestamp), value }),
                Err(e) => Err(ParseError::ArgParseFailed { arg: "timestamp", pos: 2, e }),
            }
        } else {
            Err(ParseError::WrongArgNum { cmd: "put", expected: 2, actual: n })
        }
    }

    fn parse_get(&self, args: Vec<Vec<u8>>) -> (r: Result<Command, ParseError>)
        ensures
            parsed(r) == get_of(word_views(args@)),
    {
        let mut args = args;
        let ghost words = word_views(args@);
        let n = args.len();
        if n != 1 {
            return Err(ParseError::WrongArgNum { cmd: "get", expected: 1, actual: n });
        }
        let row = bytes_from_vec(args.pop().unwrap());
        Ok(Command::Get { row })
    }

    fn parse_delete(&self, args: Vec<Vec<u8>>) -> (r: Result<Command, ParseError>)
        ensures
            parsed(r) == delete_of(word_views(args@)),
    {
        let mut args = args;
        let ghost words = word_views(args@);
        let n = args.len();
        if n == 1 {
            let row = bytes_from_vec(args.pop().unwrap());
            Ok(Command::Delete { row, timestamp: None })
        } else if n == 2 {
            let stamp = args.pop().unwrap();
            let row = bytes_from_vec(args.pop().unwrap());
            proof {
                assert(words[1] == stamp@);
            }
            match parse_u64(&stamp) {
                Ok(timestamp) => Ok(Command::Delete { row, timestamp: Some(timestamp) }),
                Err(e) => Err(ParseError::ArgParseFailed { arg: "timestamp", pos: 2, e }),
            }
        } else {
            Err(ParseError::WrongArgNum { cmd: "delete", expected: 1, actual: n })
        }
    }

    fn parse_flush(&self, args: Vec<Vec<u8>>) -> (r: Result<Command, ParseError>)
        ensures
            parsed(r) == flush_of(word_views(args@)),
    {
        let mut args = args;
        let ghost words = word_views(args@);
        let n = args.len();
        if n == 0 {
            Ok(Command::Flush { cache: true })
        } else if n == 1 {
            let word = args.pop().unwrap();
            proof {
                assert(words[0] == word@);
            }
            match parse_bool(&word) {
                Ok(cache) => Ok(Command::Flush { cache }),
                Err(e) => Err(ParseError::ArgParseFailed { arg: "cache", pos: 1, e }),
            }
        } else {
            Err(ParseError::WrongArgNum { cmd: "flush", expected: 2, actual: n })
        }
    }

    fn parse_exit(&self, args: Vec<Vec<u8>>) -> (r: Result<Command, ParseError>)
        ensures
            parsed(r) == exit_of(word_views(args@)),
    {
        let n = args.len();
        if n != 0 {
            return Err(ParseError::WrongArgNum { cmd: "exit", expected: 0, actual: n });
        }
        Ok(Command::Exit)
    }
}

} // verus!
