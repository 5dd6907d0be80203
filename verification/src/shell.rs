use vstd::prelude::*;

verus! {

/// The words `shlex::Shlex` splits `text` into, as far as it gets, and
/// whether it stopped at an error (an unclosed quote or a trailing
/// backslash).
pub uninterp spec fn shlex_split(text: Seq<char>) -> (Seq<Seq<char>>, bool);

/// The texts of `words`.
pub open spec fn texts(words: Seq<String>) -> Seq<Seq<char>> {
    words.map_values(|w: String| w@)
}

/// `shlex::Shlex`: the words of `text` in shell syntax, collected until the
/// end or an error, and whether there was an error.
#[verifier::external_body]
fn shlex_words(text: &str) -> (r: (Vec<String>, bool))
    ensures
        (texts(r.0@), r.1) == shlex_split(text@),
{
    let mut shl = shlex::Shlex::new(text);
    let words: Vec<String> = shl.by_ref().collect();
    (words, shl.had_error)
}

/// Why a shell command line could not be run.
#[derive(Clone, Copy, PartialEq, Eq, Debug, Structural)]
pub enum ShellError {
    /// The line holds no command.
    NoCommand,
    /// The line could not be split into words.
    Lexing,
}

/// A program to run and its arguments.
pub struct ShellCommand {
    pub program: String,
    pub args: Vec<String>,
}

/// The command that the words `words` of a split give, `had_error` telling
/// whether the split failed: none without a word, an error after a failed
/// split, else the first word run with the others as arguments.
pub fn shell_command_of(words: Vec<String>, had_error: bool) -> (r: Result<ShellCommand, ShellError>)
    ensures
        words@.len() == 0 ==> r == Err::<ShellCommand, ShellError>(ShellError::NoCommand),
        words@.len() > 0 && had_error ==> r == Err::<ShellCommand, ShellError>(ShellError::Lexing),
        words@.len() > 0 && !had_error ==> (r matches Ok(c) && c.program@ == words@[0]@ && texts(
            c.args@,
        ) == texts(words@).drop_first()),
{
    let mut words = words;
    if words.len() == 0 {
        return Err(ShellError::NoCommand);
    }
    let ghost all = words@;
    let program = words.remove(0);
    if had_error {
        return Err(ShellError::Lexing);
    }
    proof {
        assert(texts(words@) =~= texts(all).drop_first());
    }
    Ok(ShellCommand { program, args: words })
}

/// The command a shell command line, already expanded, runs: its words in
/// shell syntax, the first the program.
pub fn split_shell(expanded: &str) -> (r: Result<ShellCommand, ShellError>)
    ensures
        ({
            let (words, failed) = shlex_split(expanded@);
            &&& words.len() == 0 ==> r == Err::<ShellCommand, ShellError>(ShellError::NoCommand)
            &&& words.len() > 0 && failed ==> r == Err::<ShellCommand, ShellError>(ShellError::Lexing)
            &&& words.len() > 0 && !failed ==> (r matches Ok(c) && c.program@ == words[0] && texts(c.args@)
                == words.drop_first())
        }),
{
    let (words, had_error) = shlex_words(expanded);
    proof {
        if words@.len() > 0 {
            assert(texts(words@)[0] == words@[0]@);
        }
    }
    shell_command_of(words, had_error)
}

} // verus!
