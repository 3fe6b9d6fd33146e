//! Parsing and identity-based merging of line-oriented console configuration files.
use vstd::prelude::*;

pub mod config;
pub mod lemmas;
pub mod merge;
pub mod parser;
pub mod text;

pub use config::ConfigItem;
pub use parser::{parse_line, ParseError};

use config::{render, ItemModel};
use parser::{parse_model, ParseErrorModel};
use merge::{collect_lines, entries, first_failure, merged, models, ordered, texts, well_formed};

verus! {

/// Declares `std::io::Error`, carried unopened in [`Error::FileReadError`].
#[verifier::external_type_specification]
#[verifier::external_body]
pub struct ExIoError(std::io::Error);

/// What can go wrong when patching or validating a configuration file.
#[derive(Debug)]
pub enum Error {
    /// The first argument names no known operation.
    UnrecognizedCommand(String),
    /// An operation lacks the argument so named.
    MissingArgument(&'static str),
    /// A path names no file.
    FileNotFound(String),
    /// A file could not be read or written.
    FileReadError(std::io::Error),
    /// A line does not parse; `line_number` counts from one.
    ParseError { source: ParseError, line_number: usize },
}

/// Turns a parse error and the zero-based index of its line into [`Error::ParseError`]; the
/// line number stops at `usize::MAX`.
impl From<(ParseError, usize)> for Error {
    fn from(failure: (ParseError, usize)) -> (r: Self) {
        let (error, line) = failure;
        Error::ParseError {
            source: error,
            line_number: if line < usize::MAX {
                line + 1
            } else {
                line
            },
        }
    }
}

impl vstd::std_specs::convert::FromSpecImpl<(ParseError, usize)> for Error {
    open spec fn obeys_from_spec() -> bool {
        true
    }

    open spec fn from_spec(failure: (ParseError, usize)) -> Error {
        Error::ParseError {
            source: failure.0,
            line_number: if failure.1 < usize::MAX {
                (failure.1 + 1) as usize
            } else {
                failure.1
            },
        }
    }
}

/// The operation that the arguments ask for.
#[derive(Debug, Clone, PartialEq, Eq)]
pub enum Command {
    /// Patch the file at `target` with the file at `patch`.
    Patch { target: String, patch: String },
    /// Check that every line of the file at `target` parses.
    Validate { target: String },
    /// An operation of this name is not known.
    Unrecognized(String),
}

/// `e` reports that line `i` (from zero) is the first malformed one, failing with `source`.
pub open spec fn reports(e: Error, lines: Seq<Seq<char>>) -> bool {
    e matches Error::ParseError { source, line_number } && line_number >= 1 && first_failure(
        lines,
        line_number - 1,
        source@,
    )
}

/// The arguments after the program's name: an operation and its paths.
pub fn parse_args(args: &Vec<String>) -> (r: Result<Command, Error>)
    ensures
        args.len() == 0 ==> (r matches Err(Error::UnrecognizedCommand(s)) && s@ == "no command"@),
        args.len() > 0 && args[0]@ == "patch"@ ==> {
            if args.len() < 2 {
                r matches Err(Error::MissingArgument(a)) && a@ == "target"@
            } else if args.len() < 3 {
                r matches Err(Error::MissingArgument(a)) && a@ == "patch"@
            } else {
                r matches Ok(Command::Patch { target, patch }) && target@ == args[1]@ && patch@
                    == args[2]@
            }
        },
        args.len() > 0 && args[0]@ == "validate"@ ==> {
            if args.len() < 2 {
                r matches Err(Error::MissingArgument(a)) && a@ == "target"@
            } else {
                r matches Ok(Command::Validate { target }) && target@ == args[1]@
            }
        },
        args.len() > 0 && args[0]@ != "patch"@ && args[0]@ != "validate"@ ==> (r matches Ok(
            Command::Unrecognized(s),
        ) && s@ == args[0]@),
{
    proof {
        reveal_strlit("patch");
        reveal_strlit("validate");
    }
    if args.len() == 0 {
        return Err(Error::UnrecognizedCommand(String::from_str("no command")));
    }
    let patch_word = String::from_str("patch");
    let validate_word = String::from_str("validate");
    if args[0] == patch_word {
        if args.len() < 2 {
            return Err(Error::MissingArgument("target"));
        }
        if args.len() < 3 {
            return Err(Error::MissingArgument("patch"));
        }
        Ok(Command::Patch { target: args[1].clone(), patch: args[2].clone() })
    } else if args[0] == validate_word {
        if args.len() < 2 {
            return Err(Error::MissingArgument("target"));
        }
        Ok(Command::Validate { target: args[1].clone() })
    } else {
        Ok(Command::Unrecognized(args[0].clone()))
    }
}

/// The statements of `target` merged with those of `patch`, in output order: each patch
/// statement replaces the target's entry of the same key or adds a new one; within a file the
/// later of two statements of one key wins.
pub fn merge_lines(target: &Vec<String>, patch: &Vec<String>) -> (r: Result<
    Vec<ConfigItem>,
    Error,
>)
    ensures
        r is Ok <==> well_formed(texts(target@)) && well_formed(texts(patch@)),
        match r {
            Ok(items) => {
                &&& ordered(models(items@))
                &&& entries(models(items@)) == merged(texts(target@), texts(patch@))
            },
            Err(e) => {
                ||| reports(e, texts(target@))
                ||| well_formed(texts(target@)) && reports(e, texts(patch@))
            },
        },
{
    let mut set: Vec<ConfigItem> = Vec::new();
    proof {
        assert(models(set@) =~= Seq::<ItemModel>::empty());
    }
    match collect_lines(&mut set, target) {
        Ok(()) => {},
        Err(failure) => {
            let ghost g = failure;
            let e = Error::from(failure);
            assert(g.1 < target.len());
            assert(e == Error::ParseError { source: g.0, line_number: (g.1 + 1) as usize });
            return Err(e);
        },
    }
    proof {
        assert(models(Seq::<ConfigItem>::empty()) + merge::statements(texts(target@))
            =~= merge::statements(texts(target@)));
    }
    let ghost mid = models(set@);
    match collect_lines(&mut set, patch) {
        Ok(()) => {},
        Err(failure) => {
            let ghost g = failure;
            let e = Error::from(failure);
            assert(g.1 < patch.len());
            assert(e == Error::ParseError { source: g.0, line_number: (g.1 + 1) as usize });
            return Err(e);
        },
    }
    proof {
        merge::lemma_entries_append(mid, merge::statements(texts(target@)), merge::statements(texts(patch@)));
    }
    Ok(set)
}

/// The canonical lines of the merge of `target` and `patch` (see [`merge_lines`]).
pub fn apply_patch(target: &Vec<String>, patch: &Vec<String>) -> (r: Result<Vec<String>, Error>)
    ensures
        r is Ok <==> well_formed(texts(target@)) && well_formed(texts(patch@)),
        match r {
            Ok(out) => exists|items: Seq<ItemModel>|
                {
                    &&& ordered(items)
                    &&& entries(items) == merged(texts(target@), texts(patch@))
                    &&& texts(out@) == items.map_values(|m: ItemModel| render(m))
                    &&& forall|i: int|
                        0 <= i < out.len() ==> parse_model(#[trigger] out@[i]@) == Ok::<
                            Option<ItemModel>,
                            ParseErrorModel,
                        >(Some(items[i]))
                },
            Err(e) => {
                ||| reports(e, texts(target@))
                ||| well_formed(texts(target@)) && reports(e, texts(patch@))
            },
        },
{
    let items = merge_lines(target, patch)?;
    let mut out: Vec<String> = Vec::new();
    let mut i: usize = 0;
    while i < items.len()
        invariant
            i <= items.len(),
            texts(out@) == models(items@).take(i as int).map_values(|m: ItemModel| render(m)),
        decreases items.len() - i,
    {
        let line = items[i].to_line();
        let ghost before = out@;
        out.push(line);
        proof {
            assert(texts(out@) =~= texts(before).push(line@));
            assert(texts(out@) =~= models(items@).take(i + 1).map_values(
                |m: ItemModel| render(m),
            ));
        }
        i = i + 1;
    }
    proof {
        let ms = models(items@);
        assert(ms.take(i as int) =~= ms);
        lemmas::lemma_merge_reads_back(texts(target@), texts(patch@), ms);
        assert forall|j: int| 0 <= j < out.len() implies parse_model(#[trigger] out@[j]@) == Ok::<
            Option<ItemModel>,
            ParseErrorModel,
        >(Some(ms[j])) by {
            assert(texts(out@)[j] == out@[j]@);
            assert(ms.map_values(|m: ItemModel| render(m))[j] == render(ms[j]));
        }
    }
    Ok(out)
}

/// Checks that every line parses; the error names the first that does not.
pub fn validate(lines: &Vec<String>) -> (r: Result<(), Error>)
    ensures
        r is Ok <==> well_formed(texts(lines@)),
        r matches Err(e) ==> reports(e, texts(lines@)),
{
    let mut set: Vec<ConfigItem> = Vec::new();
    proof {
        assert(models(set@) =~= Seq::<ItemModel>::empty());
    }
    match collect_lines(&mut set, lines) {
        Ok(()) => Ok(()),
        Err(failure) => {
            let ghost g = failure;
            let e = Error::from(failure);
            assert(g.1 < lines.len());
            assert(e == Error::ParseError { source: g.0, line_number: (g.1 + 1) as usize });
            Err(e)
        },
    }
}

} // verus!
