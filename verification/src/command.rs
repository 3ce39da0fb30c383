//! The command line: what is asked for, and how a run is summed up.

use crate::text::decimal;
use vstd::prelude::*;

verus! {

/// What to process, and how.
pub struct Options {
    pub input: String,
    pub output: String,
    /// Copy the samples without filtering.
    pub bypass: bool,
    /// Do not draw the progress indicator.
    pub quiet: bool,
}

/// What the command line asks for.
pub enum Command {
    Process(Options),
    ShowBands,
    Help,
}

/// Why a command line is rejected.
pub enum ArgumentError {
    UnknownOption(String),
    MissingFiles,
    TooManyFiles,
}

/// What a single argument means.
#[derive(Clone, Copy, PartialEq, Eq, Structural, Debug)]
pub enum Meaning {
    Help,
    ShowBands,
    Bypass,
    Quiet,
    /// It looks like an option, but is none.
    Unknown,
    FileName,
}

/// What the argument `chars` means.
pub open spec fn meaning_of(chars: Seq<char>) -> Meaning {
    if chars == "-h"@ || chars == "--help"@ {
        Meaning::Help
    } else if chars == "--bands"@ {
        Meaning::ShowBands
    } else if chars == "--bypass"@ {
        Meaning::Bypass
    } else if chars == "-q"@ || chars == "--quiet"@ {
        Meaning::Quiet
    } else if chars.len() > 0 && chars[0] == '-' {
        Meaning::Unknown
    } else {
        Meaning::FileName
    }
}

/// The first argument that settles the outcome, whatever follows it: a request
/// for information, or an option that does not exist.
pub open spec fn decisive(arguments: Seq<Seq<char>>) -> Option<Seq<char>>
    decreases arguments.len(),
{
    if arguments.len() == 0 {
        None
    } else if meaning_of(arguments[0]) is Help || meaning_of(arguments[0]) is ShowBands
        || meaning_of(arguments[0]) is Unknown {
        Some(arguments[0])
    } else {
        decisive(arguments.drop_first())
    }
}

/// Some argument has the meaning `meaning`.
pub open spec fn is_given(arguments: Seq<Seq<char>>, meaning: Meaning) -> bool {
    exists|i: int| 0 <= i < arguments.len() && meaning_of(#[trigger] arguments[i]) == meaning
}

/// The file names among the arguments, in order.
pub open spec fn file_names(arguments: Seq<Seq<char>>) -> Seq<Seq<char>> {
    arguments.filter(|chars: Seq<char>| meaning_of(chars) is FileName)
}

/// The texts of some strings.
pub open spec fn texts(strings: Seq<String>) -> Seq<Seq<char>> {
    strings.map_values(|string: String| string@)
}

/// `parsed` is the outcome for `arguments`.
pub open spec fn is_outcome(
    arguments: Seq<Seq<char>>,
    parsed: Result<Command, ArgumentError>,
) -> bool {
    match decisive(arguments) {
        Some(chars) => match meaning_of(chars) {
            Meaning::Help => parsed matches Ok(Command::Help),
            Meaning::ShowBands => parsed matches Ok(Command::ShowBands),
            _ => parsed matches Err(ArgumentError::UnknownOption(option)) && option@ == chars,
        },
        None => {
            let files = file_names(arguments);
            if files.len() == 2 {
                &&& parsed matches Ok(Command::Process(options))
                &&& options.input@ == files[0]
                &&& options.output@ == files[1]
                &&& options.bypass == is_given(arguments, Meaning::Bypass)
                &&& options.quiet == is_given(arguments, Meaning::Quiet)
            } else if files.len() < 2 {
                parsed matches Err(ArgumentError::MissingFiles)
            } else {
                parsed matches Err(ArgumentError::TooManyFiles)
            }
        },
    }
}

/// What an argument means.
pub fn interpret(argument: &String) -> (meaning: Meaning)
    ensures
        meaning == meaning_of(argument@),
{
    if *argument == String::from_str("-h") || *argument == String::from_str("--help") {
        Meaning::Help
    } else if *argument == String::from_str("--bands") {
        Meaning::ShowBands
    } else if *argument == String::from_str("--bypass") {
        Meaning::Bypass
    } else if *argument == String::from_str("-q") || *argument == String::from_str("--quiet") {
        Meaning::Quiet
    } else if argument.as_str().unicode_len() > 0 && argument.as_str().get_char(0) == '-' {
        Meaning::Unknown
    } else {
        Meaning::FileName
    }
}

/// Hand written argument parsing.  `arguments` are those of the command line,
/// without the name of the program.
pub fn parse_arguments(arguments: &Vec<String>) -> (parsed: Result<Command, ArgumentError>)
    ensures
        is_outcome(texts(arguments@), parsed),
        parsed matches Ok(Command::Process(options)) ==> {
            &&& options.bypass <==> exists|i: int|
                0 <= i < arguments@.len() && (#[trigger] arguments@[i])@ == "--bypass"@
            &&& options.quiet <==> exists|i: int|
                0 <= i < arguments@.len() && ((#[trigger] arguments@[i])@ == "-q"@
                    || arguments@[i]@ == "--quiet"@)
        },
{
    let ghost all = texts(arguments@);
    let mut positional: Vec<String> = Vec::new();
    let mut bypass = false;
    let mut quiet = false;
    let mut index: usize = 0;
    proof {
        assert(all.skip(0) =~= all);
        reveal(Seq::filter);
        assert(texts(positional@) =~= file_names(all.take(0)));
    }
    while index < arguments.len()
        invariant
            index <= arguments@.len(),
            all == texts(arguments@),
            decisive(all) == decisive(all.skip(index as int)),
            texts(positional@) == file_names(all.take(index as int)),
            bypass == is_given(all.take(index as int), Meaning::Bypass),
            quiet == is_given(all.take(index as int), Meaning::Quiet),
        decreases arguments@.len() - index,
    {
        let argument = &arguments[index];
        let meaning = interpret(argument);
        let ghost before = all.take(index as int);
        let ghost rest = all.skip(index as int);
        proof {
            assert(rest[0] == argument@);
            assert(rest.drop_first() =~= all.skip(index + 1));
            lemma_one_more(before, argument@);
            assert(all.take(index + 1) =~= before.push(argument@));
        }
        match meaning {
            Meaning::Help => {
                return Ok(Command::Help);
            },
            Meaning::ShowBands => {
                return Ok(Command::ShowBands);
            },
            Meaning::Bypass => {
                bypass = true;
            },
            Meaning::Quiet => {
                quiet = true;
            },
            Meaning::Unknown => {
                return Err(ArgumentError::UnknownOption(argument.clone()));
            },
            Meaning::FileName => {
                let ghost names = positional@;
                positional.push(argument.clone());
                assert(texts(positional@) =~= texts(names).push(argument@));
            },
        }
        index = index + 1;
    }
    proof {
        assert(all.take(index as int) =~= all);
        assert(texts(positional@).len() == positional@.len());
    }
    if positional.len() == 2 {
        assert(texts(positional@)[0] == positional@[0]@);
        assert(texts(positional@)[1] == positional@[1]@);
        let options = Options {
            input: positional[0].clone(),
            output: positional[1].clone(),
            bypass,
            quiet,
        };
        let parsed = Ok(Command::Process(options));
        proof {
            law_switches_are_obeyed(all, parsed);
            assert forall|text: Seq<char>| #[trigger]
                all.contains(text) <==> exists|i: int|
                    0 <= i < arguments@.len() && (#[trigger] arguments@[i])@ == text by {
                if all.contains(text) {
                    let i = choose|i: int| 0 <= i < all.len() && all[i] == text;
                    assert(arguments@[i]@ == text);
                }
                if exists|i: int|
                    0 <= i < arguments@.len() && (#[trigger] arguments@[i])@ == text {
                    let i = choose|i: int|
                        0 <= i < arguments@.len() && (#[trigger] arguments@[i])@ == text;
                    assert(all[i] == text);
                }
            }
        }
        parsed
    } else if positional.len() < 2 {
        Err(ArgumentError::MissingFiles)
    } else {
        Err(ArgumentError::TooManyFiles)
    }
}

/// What one more argument adds.
proof fn lemma_one_more(before: Seq<Seq<char>>, chars: Seq<char>)
    ensures
        file_names(before.push(chars)) == if meaning_of(chars) is FileName {
            file_names(before).push(chars)
        } else {
            file_names(before)
        },
        forall|meaning: Meaning| #[trigger]
            is_given(before.push(chars), meaning) <==> is_given(before, meaning) || meaning_of(
                chars,
            ) == meaning,
{
    reveal(Seq::filter);
    let after = before.push(chars);
    assert(after.drop_last() =~= before);
    assert forall|meaning: Meaning| #[trigger] is_given(after, meaning) <==> is_given(
        before,
        meaning,
    ) || meaning_of(chars) == meaning by {
        if is_given(before, meaning) {
            let i = choose|i: int|
                0 <= i < before.len() && meaning_of(#[trigger] before[i]) == meaning;
            assert(after[i] == before[i]);
        }
        if meaning_of(chars) == meaning {
            assert(after[before.len() as int] == chars);
        }
        if is_given(after, meaning) {
            let i = choose|i: int|
                0 <= i < after.len() && meaning_of(#[trigger] after[i]) == meaning;
            if i < before.len() {
                assert(before[i] == after[i]);
            }
        }
    }
}

impl ArgumentError {
    /// The text of [`ArgumentError::message`].
    pub open spec fn message_chars(self) -> Seq<char> {
        match self {
            ArgumentError::UnknownOption(option) => "unknown option '"@ + option@ + "'"@,
            ArgumentError::MissingFiles => "expected an input and an output file"@,
            ArgumentError::TooManyFiles => "expected exactly two file names"@,
        }
    }

    /// The reason in words.
    pub fn message(&self) -> (text: String)
        ensures
            text@ == self.message_chars(),
    {
        match self {
            ArgumentError::UnknownOption(option) => {
                let mut text = String::from_str("unknown option '");
                text.append(option.as_str());
                text.append("'");
                text
            },
            ArgumentError::MissingFiles => String::from_str("expected an input and an output file"),
            ArgumentError::TooManyFiles => String::from_str("expected exactly two file names"),
        }
    }
}

/// The warning about an input of `announced` samples of which `written` arrived.
pub open spec fn warning_chars(announced: u64, written: u64) -> Seq<char> {
    "warning: header announced "@ + crate::text::decimal_chars(announced as nat)
        + " samples, wrote "@ + crate::text::decimal_chars(written as nat)
}

/// `result` sums up a run that read `announced` samples and wrote `written`, unless
/// `error` stopped it.
pub open spec fn is_summary<E>(
    error: Option<E>,
    announced: u64,
    written: u64,
    result: Result<(u64, Option<String>), E>,
) -> bool {
    match error {
        Some(error) => result == Err::<(u64, Option<String>), E>(error),
        None => {
            &&& result matches Ok((count, warning))
            &&& count == written
            &&& if written == announced {
                warning is None
            } else {
                warning matches Some(text) && text@ == warning_chars(announced, written)
            }
        },
    }
}

/// Sums up a run: a read error that stopped the source is a failure, and a
/// count of samples that differs from the header calls for a warning.
///
/// The de-esser is length preserving, so a mismatch means the input was
/// truncated in a way that still parsed.
pub fn sum_up<E>(error: Option<E>, announced: u64, written: u64) -> (result: Result<
    (u64, Option<String>),
    E,
>)
    ensures
        is_summary(error, announced, written, result),
{
    if let Some(error) = error {
        return Err(error);
    }
    if written == announced {
        return Ok((written, None));
    }
    let mut text = String::from_str("warning: header announced ");
    text.append(decimal(announced).as_str());
    text.append(" samples, wrote ");
    text.append(decimal(written).as_str());
    Ok((written, Some(text)))
}

// ---------------------------------------------------------------------------
// Laws
// ---------------------------------------------------------------------------

/// The argument does not look like an option.
pub open spec fn is_name(chars: Seq<char>) -> bool {
    chars.len() == 0 || chars[0] != '-'
}

/// The argument is one of the options that are combined with file names.
pub open spec fn is_switch(chars: Seq<char>) -> bool {
    chars == "--bypass"@ || chars == "-q"@ || chars == "--quiet"@
}

/// Argument number `i` is the first that is neither a file name nor an option
/// that is combined with file names.
pub open spec fn settles(arguments: Seq<Seq<char>>, i: int) -> bool {
    &&& 0 <= i < arguments.len()
    &&& !is_name(arguments[i]) && !is_switch(arguments[i])
    &&& forall|j: int|
        0 <= j < i ==> is_name(#[trigger] arguments[j]) || is_switch(arguments[j])
}

/// What an argument means, text by text.
pub proof fn law_meanings_of_arguments(chars: Seq<char>)
    ensures
        meaning_of(chars) is Help <==> chars == "-h"@ || chars == "--help"@,
        meaning_of(chars) is ShowBands <==> chars == "--bands"@,
        meaning_of(chars) is Bypass <==> chars == "--bypass"@,
        meaning_of(chars) is Quiet <==> chars == "-q"@ || chars == "--quiet"@,
        meaning_of(chars) is FileName <==> is_name(chars),
{
    reveal_strlit("-h");
    reveal_strlit("--help");
    reveal_strlit("--bands");
    reveal_strlit("--bypass");
    reveal_strlit("-q");
    reveal_strlit("--quiet");
    assert("-h"@.len() == 2 && "--help"@.len() == 6 && "--bands"@.len() == 7);
    assert("--bypass"@.len() == 8 && "-q"@.len() == 2 && "--quiet"@.len() == 7);
    assert("-h"@[1] == 'h' && "-q"@[1] == 'q');
    assert("--bands"@[2] == 'b' && "--quiet"@[2] == 'q');
    assert("-h"@[0] == '-' && "--help"@[0] == '-' && "--bands"@[0] == '-');
    assert("--bypass"@[0] == '-' && "-q"@[0] == '-' && "--quiet"@[0] == '-');
}

/// The argument that settles the outcome is the one that is found.
proof fn lemma_decisive(arguments: Seq<Seq<char>>)
    ensures
        forall|i: int| #[trigger]
            settles(arguments, i) ==> decisive(arguments) == Some(arguments[i]),
        (forall|i: int|
            0 <= i < arguments.len() ==> is_name(#[trigger] arguments[i]) || is_switch(
                arguments[i],
            )) ==> decisive(arguments) is None,
    decreases arguments.len(),
{
    if arguments.len() > 0 {
        let rest = arguments.drop_first();
        lemma_decisive(rest);
        law_meanings_of_arguments(arguments[0]);
        assert forall|i: int| #[trigger] settles(arguments, i) implies decisive(arguments) == Some(
            arguments[i],
        ) by {
            if i > 0 {
                assert(is_name(arguments[0]) || is_switch(arguments[0]));
                assert forall|j: int| 0 <= j < i - 1 implies is_name(#[trigger] rest[j])
                    || is_switch(rest[j]) by {
                    assert(is_name(arguments[j + 1]) || is_switch(arguments[j + 1]));
                }
                assert(settles(rest, i - 1));
            }
        }
        if forall|i: int|
            0 <= i < arguments.len() ==> is_name(#[trigger] arguments[i]) || is_switch(
                arguments[i],
            ) {
            assert forall|j: int| 0 <= j < rest.len() implies is_name(#[trigger] rest[j])
                || is_switch(rest[j]) by {
                assert(is_name(arguments[j + 1]) || is_switch(arguments[j + 1]));
            }
            assert(is_name(arguments[0]) || is_switch(arguments[0]));
        }
    }
}

/// Where the file names stand among the arguments.
proof fn lemma_where_files_stand(arguments: Seq<Seq<char>>) -> (places: Seq<int>)
    ensures
        places.len() == file_names(arguments).len(),
        forall|k: int|
            0 <= k < places.len() ==> {
                &&& 0 <= #[trigger] places[k] < arguments.len()
                &&& is_name(arguments[places[k]])
                &&& file_names(arguments)[k] == arguments[places[k]]
            },
        forall|k: int, l: int|
            0 <= k < l < places.len() ==> #[trigger] places[k] < #[trigger] places[l],
        forall|i: int|
            0 <= i < arguments.len() && is_name(#[trigger] arguments[i]) ==> places.contains(i),
    decreases arguments.len(),
{
    if arguments.len() == 0 {
        reveal(Seq::filter);
        Seq::empty()
    } else {
        let before = arguments.drop_last();
        let chars = arguments.last();
        let earlier = lemma_where_files_stand(before);
        lemma_one_more(before, chars);
        law_meanings_of_arguments(chars);
        assert(before.push(chars) =~= arguments);
        let places = if is_name(chars) {
            earlier.push(arguments.len() - 1)
        } else {
            earlier
        };
        assert forall|i: int| 0 <= i < arguments.len() && is_name(
            #[trigger] arguments[i],
        ) implies places.contains(i) by {
            if i < before.len() {
                assert(is_name(before[i]));
                let k = choose|k: int| 0 <= k < earlier.len() && earlier[k] == i;
                assert(places[k] == i);
            } else {
                assert(places[earlier.len() as int] == i);
            }
        }
        places
    }
}

proof fn lemma_is_given(arguments: Seq<Seq<char>>)
    ensures
        is_given(arguments, Meaning::Bypass) <==> arguments.contains("--bypass"@),
        is_given(arguments, Meaning::Quiet) <==> arguments.contains("-q"@) || arguments.contains(
            "--quiet"@,
        ),
{
    assert forall|i: int| 0 <= i < arguments.len() implies {
        &&& meaning_of(#[trigger] arguments[i]) is Bypass <==> arguments[i] == "--bypass"@
        &&& meaning_of(arguments[i]) is Quiet <==> arguments[i] == "-q"@ || arguments[i]
            == "--quiet"@
    } by {
        law_meanings_of_arguments(arguments[i]);
    }
}

/// The first argument that is neither a file name nor `--bypass`, `-q` or
/// `--quiet` settles what is done, whatever comes before and after it.
pub proof fn law_first_other_argument_decides(
    arguments: Seq<Seq<char>>,
    i: int,
    parsed: Result<Command, ArgumentError>,
)
    requires
        is_outcome(arguments, parsed),
        settles(arguments, i),
    ensures
        if arguments[i] == "-h"@ || arguments[i] == "--help"@ {
            parsed matches Ok(Command::Help)
        } else if arguments[i] == "--bands"@ {
            parsed matches Ok(Command::ShowBands)
        } else {
            parsed matches Err(ArgumentError::UnknownOption(option)) && option@ == arguments[i]
        },
{
    lemma_decisive(arguments);
    law_meanings_of_arguments(arguments[i]);
}

/// Where every argument is a file name, `--bypass`, `-q` or `--quiet`, the two
/// file names are the input and the output, in this order.  The samples are
/// copied if and only if `--bypass` is among the arguments, and nothing is drawn
/// if and only if `-q` or `--quiet` is.
pub proof fn law_two_file_names_are_processed(
    arguments: Seq<Seq<char>>,
    i: int,
    j: int,
    parsed: Result<Command, ArgumentError>,
)
    requires
        is_outcome(arguments, parsed),
        0 <= i < j < arguments.len(),
        is_name(arguments[i]),
        is_name(arguments[j]),
        forall|k: int|
            0 <= k < arguments.len() && k != i && k != j ==> is_switch(#[trigger] arguments[k]),
    ensures
        parsed matches Ok(Command::Process(options)) && {
            &&& options.input@ == arguments[i]
            &&& options.output@ == arguments[j]
            &&& options.bypass <==> arguments.contains("--bypass"@)
            &&& options.quiet <==> arguments.contains("-q"@) || arguments.contains("--quiet"@)
        },
{
    lemma_decisive(arguments);
    lemma_is_given(arguments);
    let places = lemma_where_files_stand(arguments);
    assert(places.contains(i) && places.contains(j));
    assert forall|k: int| 0 <= k < places.len() implies #[trigger] places[k] == i || places[k]
        == j by {
        lemma_switches_are_no_names(arguments[places[k]]);
    }
    lemma_two_places(places, i, j);
}

/// Where every argument is a file name, `--bypass`, `-q` or `--quiet`, but there
/// are no two file names, these are missing.
pub proof fn law_fewer_file_names_are_rejected(
    arguments: Seq<Seq<char>>,
    i: int,
    parsed: Result<Command, ArgumentError>,
)
    requires
        is_outcome(arguments, parsed),
        forall|k: int|
            0 <= k < arguments.len() && k != i ==> is_switch(#[trigger] arguments[k]),
        0 <= i < arguments.len() ==> is_name(arguments[i]) || is_switch(arguments[i]),
    ensures
        parsed matches Err(ArgumentError::MissingFiles),
{
    lemma_decisive(arguments);
    let places = lemma_where_files_stand(arguments);
    if places.len() >= 2 {
        assert(places[0] < places[1]);
        lemma_switches_are_no_names(arguments[places[0]]);
        lemma_switches_are_no_names(arguments[places[1]]);
    }
}

/// Where every argument is a file name, `--bypass`, `-q` or `--quiet`, three file
/// names are too many.
pub proof fn law_more_file_names_are_rejected(
    arguments: Seq<Seq<char>>,
    i: int,
    j: int,
    k: int,
    parsed: Result<Command, ArgumentError>,
)
    requires
        is_outcome(arguments, parsed),
        0 <= i < j < k < arguments.len(),
        is_name(arguments[i]),
        is_name(arguments[j]),
        is_name(arguments[k]),
        forall|n: int|
            0 <= n < arguments.len() ==> is_name(#[trigger] arguments[n]) || is_switch(
                arguments[n],
            ),
    ensures
        parsed matches Err(ArgumentError::TooManyFiles),
{
    lemma_decisive(arguments);
    let places = lemma_where_files_stand(arguments);
    assert(places.contains(i) && places.contains(j) && places.contains(k));
}

/// Whenever files are processed, every argument is a file name, `--bypass`, `-q`
/// or `--quiet`; the samples are copied if and only if `--bypass` is among them,
/// and nothing is drawn if and only if `-q` or `--quiet` is.
pub proof fn law_switches_are_obeyed(
    arguments: Seq<Seq<char>>,
    parsed: Result<Command, ArgumentError>,
)
    requires
        is_outcome(arguments, parsed),
    ensures
        parsed matches Ok(Command::Process(options)) ==> {
            &&& forall|i: int|
                0 <= i < arguments.len() ==> is_name(#[trigger] arguments[i]) || is_switch(
                    arguments[i],
                )
            &&& options.bypass <==> arguments.contains("--bypass"@)
            &&& options.quiet <==> arguments.contains("-q"@) || arguments.contains("--quiet"@)
        },
{
    lemma_is_given(arguments);
    if !(forall|i: int|
        0 <= i < arguments.len() ==> is_name(#[trigger] arguments[i]) || is_switch(arguments[i])) {
        lemma_something_settles(arguments);
        let i = choose|i: int| #[trigger] settles(arguments, i);
        law_first_other_argument_decides(arguments, i, parsed);
    }
}

proof fn lemma_switches_are_no_names(chars: Seq<char>)
    ensures
        is_switch(chars) ==> !is_name(chars),
{
    law_meanings_of_arguments(chars);
}

/// Increasing places that are nothing but two given ones are these two.
proof fn lemma_two_places(places: Seq<int>, i: int, j: int)
    requires
        i < j,
        places.contains(i),
        places.contains(j),
        forall|k: int| 0 <= k < places.len() ==> #[trigger] places[k] == i || places[k] == j,
        forall|k: int, l: int|
            0 <= k < l < places.len() ==> #[trigger] places[k] < #[trigger] places[l],
    ensures
        places =~= seq![i, j],
{
    let a = choose|a: int| 0 <= a < places.len() && places[a] == i;
    let b = choose|b: int| 0 <= b < places.len() && places[b] == j;
    if places.len() > 2 {
        assert(places[0] < places[1] && places[1] < places[2]);
    }
}

/// Among arguments that are not all file names and options to be combined with
/// them, there is a first that settles the outcome.
proof fn lemma_something_settles(arguments: Seq<Seq<char>>)
    requires
        !(forall|i: int|
            0 <= i < arguments.len() ==> is_name(#[trigger] arguments[i]) || is_switch(
                arguments[i],
            )),
    ensures
        exists|i: int| #[trigger] settles(arguments, i),
    decreases arguments.len(),
{
    let before = arguments.drop_last();
    if forall|i: int|
        0 <= i < before.len() ==> is_name(#[trigger] before[i]) || is_switch(before[i]) {
        assert forall|j: int| 0 <= j < arguments.len() - 1 implies is_name(#[trigger] arguments[j])
            || is_switch(arguments[j]) by {
            assert(is_name(before[j]) || is_switch(before[j]));
        }
        assert(settles(arguments, arguments.len() - 1));
    } else {
        lemma_something_settles(before);
        let i = choose|i: int| #[trigger] settles(before, i);
        assert forall|j: int| 0 <= j < i implies is_name(#[trigger] arguments[j]) || is_switch(
            arguments[j],
        ) by {
            assert(is_name(before[j]) || is_switch(before[j]));
        }
        assert(settles(arguments, i));
    }
}

/// An option that is combined with file names changes nothing but what it is
/// for, wherever it stands: with `-q` or `--quiet` among the arguments nothing
/// is drawn, with `--bypass` the samples are copied, and everything else is as it
/// is without that option.
pub proof fn law_switches_are_independent(
    arguments: Seq<Seq<char>>,
    at: int,
    switch: Seq<char>,
    parsed: Result<Command, ArgumentError>,
    other: Result<Command, ArgumentError>,
)
    requires
        0 <= at <= arguments.len(),
        switch == "-q"@ || switch == "--quiet"@ || switch == "--bypass"@,
        is_outcome(arguments, parsed),
        is_outcome(arguments.insert(at, switch), other),
    ensures
        match parsed {
            Ok(Command::Process(options)) => {
                &&& other matches Ok(Command::Process(with))
                &&& with.input@ == options.input@
                &&& with.output@ == options.output@
                &&& with.bypass == (options.bypass || switch == "--bypass"@)
                &&& with.quiet == (options.quiet || switch != "--bypass"@)
            },
            Ok(Command::ShowBands) => other matches Ok(Command::ShowBands),
            Ok(Command::Help) => other matches Ok(Command::Help),
            Err(ArgumentError::UnknownOption(option)) => other matches Err(
                ArgumentError::UnknownOption(same),
            ) && same@ == option@,
            Err(ArgumentError::MissingFiles) => other matches Err(ArgumentError::MissingFiles),
            Err(ArgumentError::TooManyFiles) => other matches Err(ArgumentError::TooManyFiles),
        },
{
    let with = arguments.insert(at, switch);
    law_meanings_of_arguments(switch);
    lemma_decisive_without(arguments, at, switch);
    lemma_files_without(arguments, at, switch);
    lemma_is_given(arguments);
    lemma_is_given(with);
    assert(with[at] == switch);
    assert forall|text: Seq<char>| #[trigger]
        with.contains(text) <==> arguments.contains(text) || text == switch by {
        if arguments.contains(text) {
            let i = choose|i: int| 0 <= i < arguments.len() && arguments[i] == text;
            assert(with[if i < at {
                i
            } else {
                i + 1
            }] == text);
        }
        if with.contains(text) && text != switch {
            let i = choose|i: int| 0 <= i < with.len() && with[i] == text;
            assert(arguments[if i < at {
                i
            } else {
                i - 1
            }] == text);
        }
    }
    law_meanings_of_arguments("--bypass"@);
    law_meanings_of_arguments("-q"@);
    law_meanings_of_arguments("--quiet"@);
}

proof fn lemma_decisive_without(arguments: Seq<Seq<char>>, at: int, switch: Seq<char>)
    requires
        0 <= at <= arguments.len(),
        meaning_of(switch) is Quiet || meaning_of(switch) is Bypass,
    ensures
        decisive(arguments.insert(at, switch)) == decisive(arguments),
    decreases arguments.len(),
{
    let with = arguments.insert(at, switch);
    if at == 0 {
        assert(with.drop_first() =~= arguments);
    } else {
        assert(with[0] == arguments[0]);
        assert(with.drop_first() =~= arguments.drop_first().insert(at - 1, switch));
        lemma_decisive_without(arguments.drop_first(), at - 1, switch);
    }
}

proof fn lemma_files_without(arguments: Seq<Seq<char>>, at: int, switch: Seq<char>)
    requires
        0 <= at <= arguments.len(),
        !(meaning_of(switch) is FileName),
    ensures
        file_names(arguments.insert(at, switch)) == file_names(arguments),
    decreases arguments.len(),
{
    let with = arguments.insert(at, switch);
    if at == arguments.len() {
        assert(with =~= arguments.push(switch));
        lemma_one_more(arguments, switch);
    } else {
        let before = arguments.drop_last();
        lemma_files_without(before, at, switch);
        lemma_one_more(before, arguments.last());
        lemma_one_more(before.insert(at, switch), arguments.last());
        assert(before.push(arguments.last()) =~= arguments);
        assert(before.insert(at, switch).push(arguments.last()) =~= with);
    }
}

/// The message about an unknown option names the option, between quotes, and every
/// other character of the message is the same whatever the option.
pub proof fn law_message_names_the_option(option: String)
    ensures
        ({
            let chars = ArgumentError::UnknownOption(option).message_chars();
            &&& chars.len() == 17 + option@.len()
            &&& chars.take(16) == "unknown option '"@
            &&& chars.subrange(16, chars.len() - 1) == option@
            &&& chars.last() == '\''
        }),
{
    reveal_strlit("unknown option '");
    reveal_strlit("'");
    let chars = ArgumentError::UnknownOption(option).message_chars();
    assert(chars.take(16) =~= "unknown option '"@);
    assert(chars.subrange(16, chars.len() - 1) =~= option@);
}

/// A read error is never lost, and without one a run succeeds with the number of
/// samples written; there is a warning if and only if that is not the number of
/// samples announced.
pub proof fn law_runs_are_summed_up<E>(
    error: Option<E>,
    announced: u64,
    written: u64,
    result: Result<(u64, Option<String>), E>,
)
    requires
        is_summary(error, announced, written, result),
    ensures
        result is Err <==> error is Some,
        result matches Err(failure) ==> error == Some(failure),
        result matches Ok((count, warning)) ==> count == written && (warning is Some <==> announced
            != written),
        result matches Ok((_, Some(text))) ==> text@ == warning_chars(announced, written),
{
}

/// The warning names the number of samples that were announced, then the number
/// that were written.
pub proof fn law_warning_names_both_counts(announced: u64, written: u64)
    ensures
        ({
            let chars = warning_chars(announced, written);
            let first = crate::text::decimal_chars(announced as nat);
            let second = crate::text::decimal_chars(written as nat);
            &&& chars.len() == 42 + first.len() + second.len()
            &&& chars.take(26) == "warning: header announced "@
            &&& chars.subrange(26, 26 + first.len() as int) == first
            &&& chars.subrange(26 + first.len() as int, 42 + first.len() as int) == " samples, wrote "@
            &&& chars.skip(42 + first.len() as int) == second
        }),
{
    reveal_strlit("warning: header announced ");
    reveal_strlit(" samples, wrote ");
    let chars = warning_chars(announced, written);
    let first = crate::text::decimal_chars(announced as nat);
    let second = crate::text::decimal_chars(written as nat);
    assert(chars.take(26) =~= "warning: header announced "@);
    assert(chars.subrange(26, 26 + first.len() as int) =~= first);
    assert(chars.subrange(26 + first.len() as int, 42 + first.len() as int) =~= " samples, wrote "@);
    assert(chars.skip(42 + first.len() as int) =~= second);
}

} // verus!
