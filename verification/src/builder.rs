//! The command protocol of locally generated fact packs.

use crate::lists::text_list;
use vstd::prelude::*;
use vstd::string::*;

verus! {

/// What a builder is asked for.
#[derive(Debug)]
pub struct FactPackBuildRequest<'a> {
    pub ecosystem: &'a str,
    pub package: &'a str,
    pub version: &'a str,
    pub repository: &'a str,
}

/// A command that generates fact packs.
#[derive(Debug)]
pub struct ExternalFactPackBuilder {
    command: Vec<String>,
}

/// Why a pack could not be generated.
#[derive(Debug)]
pub enum Error {
    EmptyCommand,
    Execute { command: String, message: String },
    Failed { command: String, status: Option<i32>, stderr: String },
    Temporary(String),
    Cache(crate::fact_pack::cache::CacheError),
}

/// Words with spaces between.
pub open spec fn spaced(words: Seq<Seq<char>>) -> Seq<char>
    decreases words.len(),
{
    if words.len() == 0 {
        Seq::empty()
    } else if words.len() == 1 {
        words[0]
    } else {
        spaced(words.drop_last()) + " "@ + words.last()
    }
}

/// What a command is given besides its own arguments.
pub open spec fn request_arguments(request: FactPackBuildRequest<'_>, output: Seq<char>) -> Seq<
    Seq<char>,
> {
    seq![
        "--ecosystem"@,
        request.ecosystem@,
        "--package"@,
        request.package@,
        "--version"@,
        request.version@,
        "--repository"@,
        request.repository@,
        "--output"@,
        output,
    ]
}

/// Adds a word.
fn add_word(words: &mut Vec<String>, word: &str)
    ensures
        text_list(final(words)@) == text_list(old(words)@).push(word@),
{
    let ghost before = words@;
    words.push(word.to_owned());
    assert(text_list(words@) =~= text_list(before).push(word@));
}

impl ExternalFactPackBuilder {
    /// The words of the command.
    pub closed spec fn words(&self) -> Seq<Seq<char>> {
        text_list(self.command@)
    }

    #[verifier::type_invariant]
    spec fn well_formed(self) -> bool {
        self.command@.len() > 0
    }

    /// A builder that runs a command, which has to have a word.
    pub fn new(command: Vec<String>) -> (result: Result<Self, Error>)
        ensures
            match result {
                Ok(builder) => command@.len() > 0 && builder.words() == text_list(command@),
                Err(error) => command@.len() == 0 && error is EmptyCommand,
            },
    {
        if command.len() == 0 {
            return Err(Error::EmptyCommand);
        }
        Ok(ExternalFactPackBuilder { command })
    }

    /// The command.
    pub fn command(&self) -> (command: &Vec<String>)
        ensures
            text_list(command@) == self.words(),
            command@.len() > 0,
    {
        proof {
            use_type_invariant(self);
        }
        &self.command
    }

    /// The command line that is run for a request: the command's own words, and
    /// then what is asked for.
    pub fn command_line(&self, request: &FactPackBuildRequest<'_>, output: &str) -> (line: Vec<
        String,
    >)
        ensures
            text_list(line@) == self.words() + request_arguments(*request, output@),
            line@.len() > 0,
    {
        proof {
            use_type_invariant(self);
        }
        let ghost own = self.words();
        let mut line: Vec<String> = Vec::new();
        let mut i: usize = 0;
        assert(text_list(line@) =~= own.take(0));
        while i < self.command.len()
            invariant
                i <= self.command@.len(),
                own == text_list(self.command@),
                text_list(line@) == own.take(i as int),
            decreases self.command@.len() - i,
        {
            assert(own.take(i + 1) =~= own.take(i as int).push(self.command@[i as int]@));
            add_word(&mut line, self.command[i].as_str());
            i += 1;
        }
        assert(own.take(i as int) =~= own);
        add_word(&mut line, "--ecosystem");
        add_word(&mut line, request.ecosystem);
        add_word(&mut line, "--package");
        add_word(&mut line, request.package);
        add_word(&mut line, "--version");
        add_word(&mut line, request.version);
        add_word(&mut line, "--repository");
        add_word(&mut line, request.repository);
        add_word(&mut line, "--output");
        add_word(&mut line, output);
        assert(text_list(line@) =~= own + request_arguments(*request, output@));
        line
    }

    /// The command as it is told in errors.
    pub fn command_text(&self) -> (text: String)
        ensures
            text@ == spaced(self.words()),
    {
        let ghost all = self.words();
        let mut text = String::new();
        let mut i: usize = 0;
        assert(all.take(0) =~= Seq::empty());
        while i < self.command.len()
            invariant
                i <= self.command@.len(),
                all == text_list(self.command@),
                text@ == spaced(all.take(i as int)),
            decreases self.command@.len() - i,
        {
            proof {
                assert(all.take(i + 1).drop_last() =~= all.take(i as int));
                assert(all.take(i + 1).last() == self.command@[i as int]@);
            }
            if i > 0 {
                text.append(" ");
            }
            text.append(self.command[i].as_str());
            proof {
                if i == 0 {
                    assert(text@ =~= self.command@[0]@);
                    assert(all.take(1)[0] == self.command@[0]@);
                } else {
                    assert(text@ =~= spaced(all.take(i as int)) + " "@ + self.command@[i as int]@);
                }
            }
            i += 1;
        }
        assert(all.take(i as int) =~= all);
        text
    }

    /// What came of running the command: an error where it did not succeed, with
    /// what it wrote trimmed.
    pub fn outcome(&self, success: bool, status: Option<i32>, stderr: &str) -> (result: Result<
        (),
        Error,
    >)
        ensures
            match result {
                Ok(()) => success,
                Err(Error::Failed { command, status: code, stderr: text }) => {
                    &&& !success
                    &&& command@ == spaced(self.words())
                    &&& code == status
                    &&& text@ == crate::text::trimmed(stderr@)
                },
                Err(_) => false,
            },
    {
        if success {
            Ok(())
        } else {
            Err(
                Error::Failed {
                    command: self.command_text(),
                    status,
                    stderr: crate::text::trim(stderr),
                },
            )
        }
    }
}

} // verus!
