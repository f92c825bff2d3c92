//! The arguments that a line of input stands for.
use vstd::prelude::*;

verus! {

/// What went wrong with a line of input.
#[derive(Debug, Clone, Copy, PartialEq, Eq, Structural)]
pub enum LineError {
    /// A quotation in the line is not ended.
    Split,
}

impl LineError {
    /// The error as a sentence.
    pub open spec fn text(self) -> Seq<char> {
        "Failed to parse input line"@
    }

    /// The error as a sentence.
    pub fn message(&self) -> (r: &'static str)
        ensures
            r@ == self.text(),
    {
        "Failed to parse input line"
    }
}

/// `shell_words::ParseError`, what goes wrong where a line is split.
#[verifier::external_type_specification]
#[verifier::external_body]
pub struct ExParseError(shell_words::ParseError);

/// The characters of the words.
pub open spec fn words_of(words: Seq<String>) -> Seq<Seq<char>> {
    Seq::new(words.len(), |i: int| words[i]@)
}

/// The words are told by their characters, one by one.
pub proof fn law_words_of(words: Seq<String>)
    ensures
        words_of(words).len() == words.len(),
        forall|i: int| 0 <= i < words.len() ==> #[trigger] words_of(words)[i] == words[i]@,
{
}

/// The words of a line, as a Unix shell splits it, if its quotations end.
pub uninterp spec fn shell_split(line: Seq<char>) -> Option<Seq<Seq<char>>>;

/// The words of a line. Calls `shell_words::split`, whose result depends on
/// the line alone.
#[verifier::external_body]
fn split_line(line: &str) -> (r: Result<Vec<String>, shell_words::ParseError>)
    ensures
        match r {
            Ok(words) => shell_split(line@) == Some(words_of(words@)),
            Err(_) => shell_split(line@) is None,
        },
{
    shell_words::split(line)
}

/// The arguments of a program that was called with the words that a line was
/// split into, if it was: its name, and the words.
pub fn args_from_words(program: String, words: Option<Vec<String>>) -> (r: Result<
    Vec<String>,
    LineError,
>)
    ensures
        match words {
            None => r == Err::<Vec<String>, LineError>(LineError::Split),
            Some(w) => r matches Ok(args) && words_of(args@) == seq![program@] + words_of(w@),
        },
{
    let mut rest: Vec<String> = match words {
        Some(w) => w,
        None => return Err(LineError::Split),
    };
    let ghost given = rest@;
    let mut args: Vec<String> = Vec::new();
    args.push(program);
    args.append(&mut rest);
    assert(words_of(args@) =~= seq![program@] + words_of(given));
    Ok(args)
}

/// The arguments of a program that was called with a line of input.
pub fn parse_args_from_line(program: String, line: &str) -> (r: Result<Vec<String>, LineError>)
    ensures
        match shell_split(line@) {
            None => r == Err::<Vec<String>, LineError>(LineError::Split),
            Some(words) => r matches Ok(args) && words_of(args@) == seq![program@] + words,
        },
{
    let words: Option<Vec<String>> = match split_line(line) {
        Ok(w) => Some(w),
        Err(_) => None,
    };
    args_from_words(program, words)
}

} // verus!
