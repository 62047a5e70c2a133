//! The words of a command line.
//!
//! A word is a flag, a command, the value of the flag before it, or it is ignored. `-m` or
//! `--message` takes the next word as the message, `-i` or `--input` as the path of the
//! input and `-o` or `--output` as the path of the output, whatever that word is. `show`
//! and `hide` are the commands. Of several messages, paths or commands the last one counts.

use vstd::prelude::*;
use vstd::string::*;

verus! {

/// What the word after a flag is taken for.
#[derive(Clone, Copy, Debug, PartialEq, Eq, Structural)]
pub enum Reading {
    Message,
    Output,
    Input,
}

/// What a command line asks for.
#[derive(Debug)]
pub struct Args {
    /// `show` or `hide`, if either was given.
    pub command: Option<String>,
    /// The path of the input, if one was given.
    pub input: Option<String>,
    /// The path of the output, if one was given.
    pub output: Option<String>,
    /// The message; empty if none was given.
    pub message: String,
}

/// The kind of value that `word` announces, if it is a flag.
pub open spec fn flag_of(word: Seq<char>) -> Option<Reading> {
    if word == "--message"@ || word == "-m"@ {
        Some(Reading::Message)
    } else if word == "--output"@ || word == "-o"@ {
        Some(Reading::Output)
    } else if word == "--input"@ || word == "-i"@ {
        Some(Reading::Input)
    } else {
        None
    }
}

/// Whether `word` is a command.
pub open spec fn is_command(word: Seq<char>) -> bool {
    word == "show"@ || word == "hide"@
}

/// What the word after `words` is taken for: the value of a flag, where the last of `words`
/// is a flag and not itself the value of one.
pub open spec fn reading_after(words: Seq<Seq<char>>) -> Option<Reading>
    decreases words.len(),
{
    if words.len() == 0 {
        None
    } else if reading_after(words.drop_last()).is_some() {
        None
    } else {
        flag_of(words.last())
    }
}

/// The last value in `words` of a flag of the given kind.
pub open spec fn value_of(words: Seq<Seq<char>>, kind: Reading) -> Option<Seq<char>>
    decreases words.len(),
{
    if words.len() == 0 {
        None
    } else if reading_after(words.drop_last()) == Some(kind) {
        Some(words.last())
    } else {
        value_of(words.drop_last(), kind)
    }
}

/// The last command in `words` that is not the value of a flag.
pub open spec fn command_of(words: Seq<Seq<char>>) -> Option<Seq<char>>
    decreases words.len(),
{
    if words.len() == 0 {
        None
    } else if reading_after(words.drop_last()).is_none() && is_command(words.last()) {
        Some(words.last())
    } else {
        command_of(words.drop_last())
    }
}

/// The text of each word.
pub open spec fn texts(words: Seq<String>) -> Seq<Seq<char>> {
    words.map_values(|word: String| word@)
}

/// The text of a word that may be missing.
pub open spec fn text_of(word: Option<String>) -> Option<Seq<char>> {
    match word {
        Some(word) => Some(word@),
        None => None,
    }
}

/// A flag is no command.
proof fn lemma_flags_are_no_commands(word: Seq<char>)
    ensures
        flag_of(word).is_some() ==> !is_command(word),
{
    reveal_strlit("--message");
    reveal_strlit("-m");
    reveal_strlit("--output");
    reveal_strlit("-o");
    reveal_strlit("--input");
    reveal_strlit("-i");
    reveal_strlit("show");
    reveal_strlit("hide");
    assert("--message"@.len() == 9 && "--output"@.len() == 8 && "--input"@.len() == 7);
    assert("-m"@.len() == 2 && "-o"@.len() == 2 && "-i"@.len() == 2);
    assert("show"@.len() == 4 && "hide"@.len() == 4);
}

/// Whether `arg` is the word `word`.
fn is_word(arg: &String, word: &str) -> (same: bool)
    ensures
        same == (arg@ == word@),
{
    let word = String::from_str(word);
    *arg == word
}

impl Args {
    /// Reads the words of a command line.
    pub fn from_env_args(env_args: &Vec<String>) -> (args: Args)
        ensures
            text_of(args.command) == command_of(texts(env_args@)),
            text_of(args.input) == value_of(texts(env_args@), Reading::Input),
            text_of(args.output) == value_of(texts(env_args@), Reading::Output),
            args.message@ == (match value_of(texts(env_args@), Reading::Message) {
                Some(message) => message,
                None => Seq::<char>::empty(),
            }),
    {
        let mut args = Args { command: None, input: None, output: None, message: String::new() };
        let mut reading: Option<Reading> = None;
        let mut i: usize = 0;
        assert(texts(env_args@).take(0) =~= Seq::<Seq<char>>::empty());
        while i < env_args.len()
            invariant
                i <= env_args.len(),
                reading == reading_after(texts(env_args@).take(i as int)),
                text_of(args.command) == command_of(texts(env_args@).take(i as int)),
                text_of(args.input) == value_of(texts(env_args@).take(i as int), Reading::Input),
                text_of(args.output) == value_of(texts(env_args@).take(i as int), Reading::Output),
                args.message@ == (match value_of(
                    texts(env_args@).take(i as int),
                    Reading::Message,
                ) {
                    Some(message) => message,
                    None => Seq::<char>::empty(),
                }),
            decreases env_args.len() - i,
        {
            let arg = &env_args[i];
            proof {
                let words = texts(env_args@);
                assert(words.take(i + 1).drop_last() =~= words.take(i as int));
                assert(words.take(i + 1).last() == arg@);
                lemma_flags_are_no_commands(arg@);
            }
            match reading {
                Some(kind) => {
                    match kind {
                        Reading::Message => args.parse_message(arg),
                        Reading::Input => {
                            args.input = Some(arg.clone());
                        },
                        Reading::Output => {
                            args.output = Some(arg.clone());
                        },
                    }
                    reading = None;
                },
                None => {
                    if is_word(arg, "--message") || is_word(arg, "-m") {
                        reading = Some(Reading::Message);
                    } else if is_word(arg, "--output") || is_word(arg, "-o") {
                        reading = Some(Reading::Output);
                    } else if is_word(arg, "--input") || is_word(arg, "-i") {
                        reading = Some(Reading::Input);
                    } else if is_word(arg, "show") || is_word(arg, "hide") {
                        args.command = Some(arg.clone());
                    }
                },
            }
            i += 1;
        }
        assert(texts(env_args@).take(env_args.len() as int) =~= texts(env_args@));
        args
    }

    /// Takes `arg` as the message.
    pub fn parse_message(&mut self, arg: &String)
        ensures
            final(self).message@ == arg@,
            final(self).command == old(self).command,
            final(self).input == old(self).input,
            final(self).output == old(self).output,
    {
        self.message = arg.clone();
    }
}

} // verus!
