//! The command line arguments of the extractor and their validation.

use vstd::prelude::*;

use crate::text::{is_trimmed, lemma_trim_idempotent, trim, trim_str};

verus! {

/// Arguments of one extraction: the template files to read and the
/// catalog file to write.
pub struct Cli {
    /// Template files from which gettext strings are extracted.
    pub input_files: Vec<String>,
    /// File in which the extracted messages go.
    pub output_file: String,
}

/// Why a set of arguments was refused.
#[derive(Debug, Clone, Copy, PartialEq, Eq, Structural)]
pub enum CliError {
    /// No input file remains once blank names are dropped.
    NoInputFile,
    /// Some input file cannot be read as a file.
    UnreadableInputFile,
    /// The output file name is blank.
    InvalidOutputFile,
}

/// The views of a sequence of strings.
pub open spec fn string_views(v: Seq<String>) -> Seq<Seq<char>> {
    v.map_values(|s: String| s@)
}

/// Input file names trimmed, with the blank ones dropped, order kept.
pub open spec fn clean_paths(files: Seq<Seq<char>>) -> Seq<Seq<char>>
    decreases files.len(),
{
    if files.len() == 0 {
        Seq::empty()
    } else {
        let rest = clean_paths(files.drop_last());
        let t = trim(files.last());
        if t.len() == 0 {
            rest
        } else {
            rest.push(t)
        }
    }
}

/// Every readiness answer for the first `n` input files is positive.
pub open spec fn all_readable(readable: Seq<bool>, n: int) -> bool {
    &&& n <= readable.len()
    &&& forall|i: int| 0 <= i < n ==> #[trigger] readable[i]
}

/// The outcome of validating the input files `inputs` and the output file
/// `output`, where `readable[i]` tells whether the `i`-th cleaned input file
/// can be read as a file.
pub open spec fn validate_spec(inputs: Seq<Seq<char>>, output: Seq<char>, readable: Seq<bool>) -> Result<
    (Seq<Seq<char>>, Seq<char>),
    CliError,
> {
    let files = clean_paths(inputs);
    if files.len() == 0 {
        Err(CliError::NoInputFile)
    } else if !all_readable(readable, files.len() as int) {
        Err(CliError::UnreadableInputFile)
    } else if trim(output).len() == 0 {
        Err(CliError::InvalidOutputFile)
    } else {
        Ok((files, trim(output)))
    }
}

impl CliError {
    /// The message that reports this error to the user.
    pub fn message(&self) -> (res: String)
        ensures
            *self == CliError::NoInputFile ==> res@ == "You must provide at least one input file"@,
            *self == CliError::UnreadableInputFile ==> res@
                == "Some given input files cannot be read"@,
            *self == CliError::InvalidOutputFile ==> res@ == "Please provide a valid output file"@,
    {
        match self {
            CliError::NoInputFile => String::from_str("You must provide at least one input file"),
            CliError::UnreadableInputFile => String::from_str(
                "Some given input files cannot be read",
            ),
            CliError::InvalidOutputFile => String::from_str("Please provide a valid output file"),
        }
    }
}

/// The input file names trimmed, blank ones dropped, in their order.
pub fn clean_input_files(input_files: &Vec<String>) -> (res: Vec<String>)
    ensures
        string_views(res@) == clean_paths(string_views(input_files@)),
{
    let mut res: Vec<String> = Vec::new();
    let mut i: usize = 0;
    while i < input_files.len()
        invariant
            i <= input_files@.len(),
            string_views(res@) == clean_paths(string_views(input_files@.subrange(0, i as int))),
        decreases input_files@.len() - i,
    {
        let t = trim_str(input_files[i].as_str());
        proof {
            let pre = input_files@.subrange(0, i as int + 1);
            assert(string_views(pre).drop_last() =~= string_views(
                input_files@.subrange(0, i as int),
            ));
            assert(string_views(pre).last() == input_files@[i as int]@);
        }
        if !t.as_str().is_empty() {
            res.push(t);
            proof {
                let pre = input_files@.subrange(0, i as int + 1);
                assert(string_views(res@) =~= clean_paths(string_views(pre)));
            }
        }
        i = i + 1;
    }
    assert(input_files@.subrange(0, input_files@.len() as int) =~= input_files@);
    res
}

/// Checks the arguments: input file names are trimmed and blank ones
/// dropped, at least one must remain, each remaining one must be readable
/// (`readable[i]` answers for the `i`-th of them), and the trimmed output
/// file name must not be blank. The errors are tried in that order.
pub fn validate(cli: Cli, readable: &Vec<bool>) -> (res: Result<Cli, CliError>)
    ensures
        match res {
            Ok(c) => validate_spec(string_views(cli.input_files@), cli.output_file@, readable@)
                == Ok::<(Seq<Seq<char>>, Seq<char>), CliError>(
                (string_views(c.input_files@), c.output_file@),
            ),
            Err(e) => validate_spec(string_views(cli.input_files@), cli.output_file@, readable@)
                == Err::<(Seq<Seq<char>>, Seq<char>), CliError>(e),
        },
        res matches Ok(c) ==> c.input_files@.len() <= readable@.len() && forall|i: int|
            0 <= i < c.input_files@.len() ==> #[trigger] readable@[i],
        res matches Ok(c) ==> c.input_files@.len() > 0 && c.output_file@ == trim(cli.output_file@)
            && c.output_file@.len() > 0,
        ({
            let files = clean_paths(string_views(cli.input_files@));
            files.len() > 0 && (files.len() > readable@.len() || exists|i: int|
                0 <= i < files.len() && !#[trigger] readable@[i])
        }) ==> res matches Err(CliError::UnreadableInputFile),
{
    proof {
        lemma_validate_decisions(string_views(cli.input_files@), cli.output_file@, readable@);
    }
    let input_files = clean_input_files(&cli.input_files);
    if input_files.len() == 0 {
        return Err(CliError::NoInputFile);
    }
    let mut i: usize = 0;
    while i < input_files.len()
        invariant
            i <= input_files@.len(),
            input_files@.len() > 0,
            string_views(input_files@) == clean_paths(string_views(cli.input_files@)),
            all_readable(readable@, i as int),
        decreases input_files@.len() - i,
    {
        if i >= readable.len() || !readable[i] {
            proof {
                assert(string_views(input_files@).len() == input_files@.len());
                if i < readable@.len() {
                    assert(!readable@[i as int]);
                }
            }
            return Err(CliError::UnreadableInputFile);
        }
        i = i + 1;
    }
    let output_file = trim_str(cli.output_file.as_str());
    if output_file.as_str().is_empty() {
        return Err(CliError::InvalidOutputFile);
    }
    proof {
        assert(string_views(input_files@).len() == input_files@.len());
        assert(all_readable(readable@, input_files@.len() as int));
    }
    Ok(Cli { input_files, output_file })
}

proof fn lemma_clean_paths_shape(files: Seq<Seq<char>>)
    ensures
        forall|i: int|
            0 <= i < clean_paths(files).len() ==> {
                &&& (#[trigger] clean_paths(files)[i]).len() > 0
                &&& is_trimmed(clean_paths(files)[i])
            },
    decreases files.len(),
{
    if files.len() > 0 {
        lemma_clean_paths_shape(files.drop_last());
        lemma_trim_idempotent(files.last());
        let rest = clean_paths(files.drop_last());
        let t = trim(files.last());
        assert forall|i: int| 0 <= i < clean_paths(files).len() implies {
            &&& (#[trigger] clean_paths(files)[i]).len() > 0
            &&& is_trimmed(clean_paths(files)[i])
        } by {
            if i < rest.len() {
                assert(clean_paths(files)[i] == rest[i]);
            }
        }
    }
}

/// The cleaned input files are exactly the non-blank trimmed names: a name
/// is kept if and only if it is the trim of some input that is not blank.
pub proof fn lemma_clean_paths_members(files: Seq<Seq<char>>)
    ensures
        forall|x: Seq<char>|
            #[trigger] clean_paths(files).contains(x) <==> exists|i: int|
                0 <= i < files.len() && trim(#[trigger] files[i]).len() > 0 && x == trim(files[i]),
        clean_paths(files).len() <= files.len(),
    decreases files.len(),
{
    if files.len() > 0 {
        let init = files.drop_last();
        lemma_clean_paths_members(init);
        let rest = clean_paths(init);
        let t = trim(files.last());
        assert forall|x: Seq<char>| #[trigger] clean_paths(files).contains(x) <==> exists|i: int|
            0 <= i < files.len() && trim(#[trigger] files[i]).len() > 0 && x == trim(files[i]) by {
            if clean_paths(files).contains(x) {
                let j = choose|j: int| 0 <= j < clean_paths(files).len() && clean_paths(files)[j] == x;
                if j < rest.len() {
                    assert(clean_paths(files)[j] == rest[j]);
                    assert(rest.contains(x));
                    let i = choose|i: int|
                        0 <= i < init.len() && trim(#[trigger] init[i]).len() > 0 && x == trim(init[i]);
                    assert(files[i] == init[i]);
                } else {
                    assert(x == t);
                    assert(files[files.len() - 1] == files.last());
                }
            }
            if exists|i: int| 0 <= i < files.len() && trim(#[trigger] files[i]).len() > 0 && x == trim(files[i]) {
                let i = choose|i: int|
                    0 <= i < files.len() && trim(#[trigger] files[i]).len() > 0 && x == trim(files[i]);
                if i < init.len() {
                    assert(init[i] == files[i]);
                    assert(rest.contains(x));
                    let j = choose|j: int| 0 <= j < rest.len() && rest[j] == x;
                    assert(clean_paths(files)[j] == x);
                } else {
                    assert(files[i] == files.last());
                    assert(clean_paths(files)[rest.len() as int] == x);
                }
            }
        }
    } else {
        assert forall|x: Seq<char>| !#[trigger] clean_paths(files).contains(x) by {}
    }
}

/// What validation decides, on any arguments: no input is left exactly when
/// every name is blank; accepted arguments have every cleaned input
/// readable; if some cleaned input is not readable (and there is one) the
/// answer is `UnreadableInputFile`; a blank output name is refused with
/// `InvalidOutputFile` once the inputs passed; otherwise the arguments are
/// accepted with the trimmed output name.
pub proof fn lemma_validate_decisions(inputs: Seq<Seq<char>>, output: Seq<char>, readable: Seq<bool>)
    ensures
        (validate_spec(inputs, output, readable) == Err::<(Seq<Seq<char>>, Seq<char>), CliError>(
            CliError::NoInputFile,
        )) <==> (forall|i: int| 0 <= i < inputs.len() ==> trim(#[trigger] inputs[i]).len() == 0),
        validate_spec(inputs, output, readable) matches Ok(r) ==> r.0.len() <= readable.len() && (
        forall|i: int| 0 <= i < r.0.len() ==> #[trigger] readable[i]),
        (clean_paths(inputs).len() > 0 && (clean_paths(inputs).len() > readable.len() || exists|i: int|
            0 <= i < clean_paths(inputs).len() && !#[trigger] readable[i]))
            ==> validate_spec(inputs, output, readable) == Err::<(Seq<Seq<char>>, Seq<char>), CliError>(
            CliError::UnreadableInputFile,
        ),
        validate_spec(inputs, output, readable) matches Ok(r) ==> r.1 == trim(output) && r.1.len()
            > 0 && r.0.len() > 0,
        (validate_spec(inputs, output, readable) == Err::<(Seq<Seq<char>>, Seq<char>), CliError>(
            CliError::InvalidOutputFile,
        )) ==> trim(output).len() == 0,
        validate_spec(inputs, output, readable) matches Ok(r) ==> r.0 == clean_paths(inputs),
        (clean_paths(inputs).len() > 0 && clean_paths(inputs).len() <= readable.len() && (forall|
            i: int,
        | 0 <= i < clean_paths(inputs).len() ==> #[trigger] readable[i])) ==> if trim(output).len()
            == 0 {
            validate_spec(inputs, output, readable) == Err::<(Seq<Seq<char>>, Seq<char>), CliError>(
                CliError::InvalidOutputFile,
            )
        } else {
            validate_spec(inputs, output, readable) == Ok::<(Seq<Seq<char>>, Seq<char>), CliError>(
                (clean_paths(inputs), trim(output)),
            )
        },
{
    lemma_clean_paths_members(inputs);
    let files = clean_paths(inputs);
    if files.len() == 0 {
        assert forall|i: int| 0 <= i < inputs.len() implies trim(#[trigger] inputs[i]).len() == 0 by {
            if trim(inputs[i]).len() > 0 {
                assert(files.contains(trim(inputs[i])));
            }
        }
    } else {
        assert(files.contains(files[0]));
        let i = choose|i: int|
            0 <= i < inputs.len() && trim(#[trigger] inputs[i]).len() > 0 && files[0] == trim(inputs[i]);
        assert(trim(inputs[i]).len() > 0);
        if validate_spec(inputs, output, readable) is Ok {
            let r = validate_spec(inputs, output, readable)->Ok_0;
            assert(r.0 == files);
        }
    }
}

/// Cleaning works name by name and keeps the order: cleaning a
/// concatenation is concatenating the cleanings.
pub proof fn lemma_clean_paths_concat(a: Seq<Seq<char>>, b: Seq<Seq<char>>)
    ensures
        clean_paths(a + b) == clean_paths(a) + clean_paths(b),
    decreases b.len(),
{
    if b.len() == 0 {
        assert(a + b =~= a);
        assert(clean_paths(b) =~= Seq::<Seq<char>>::empty());
        assert(clean_paths(a) + clean_paths(b) =~= clean_paths(a));
    } else {
        lemma_clean_paths_concat(a, b.drop_last());
        assert((a + b).drop_last() =~= a + b.drop_last());
        assert((a + b).last() == b.last());
        assert(clean_paths(a + b) =~= clean_paths(a) + clean_paths(b));
    }
}

/// Cleaning one name gives its trim, or nothing if that is blank.
pub proof fn lemma_clean_paths_single(x: Seq<char>)
    ensures
        clean_paths(seq![x]) == (if trim(x).len() == 0 {
            Seq::<Seq<char>>::empty()
        } else {
            seq![trim(x)]
        }),
{
    assert(seq![x].drop_last() =~= Seq::<Seq<char>>::empty());
    assert(seq![x].last() == x);
    assert(clean_paths(Seq::<Seq<char>>::empty()) =~= Seq::<Seq<char>>::empty());
    assert(Seq::<Seq<char>>::empty().push(trim(x)) =~= seq![trim(x)]);
}

proof fn lemma_clean_paths_fixed(files: Seq<Seq<char>>)
    requires
        forall|i: int|
            0 <= i < files.len() ==> (#[trigger] files[i]).len() > 0 && is_trimmed(files[i]),
    ensures
        clean_paths(files) == files,
    decreases files.len(),
{
    if files.len() > 0 {
        lemma_clean_paths_fixed(files.drop_last());
        crate::text::lemma_trimmed_is_fixed(files.last());
        assert(files.drop_last().push(files.last()) =~= files);
    }
}

/// Accepted arguments are already clean: every input file name is trimmed
/// and non-blank, and so is the output file name.
pub proof fn lemma_validated_is_clean(inputs: Seq<Seq<char>>, output: Seq<char>, readable: Seq<bool>)
    requires
        validate_spec(inputs, output, readable) is Ok,
    ensures
        ({
            let (files, out) = validate_spec(inputs, output, readable)->Ok_0;
            &&& files.len() > 0
            &&& forall|i: int|
                0 <= i < files.len() ==> (#[trigger] files[i]).len() > 0 && is_trimmed(files[i])
            &&& out.len() > 0
            &&& is_trimmed(out)
        }),
{
    lemma_clean_paths_shape(inputs);
    lemma_trim_idempotent(output);
}

/// Validation is idempotent: validating accepted arguments again, with the
/// same files readable, accepts them unchanged.
pub proof fn lemma_validate_idempotent(inputs: Seq<Seq<char>>, output: Seq<char>, readable: Seq<bool>)
    requires
        validate_spec(inputs, output, readable) is Ok,
    ensures
        ({
            let (files, out) = validate_spec(inputs, output, readable)->Ok_0;
            validate_spec(files, out, readable) == validate_spec(inputs, output, readable)
        }),
{
    lemma_validated_is_clean(inputs, output, readable);
    let (files, out) = validate_spec(inputs, output, readable)->Ok_0;
    lemma_clean_paths_fixed(files);
    lemma_trim_idempotent(output);
}

} // verus!
