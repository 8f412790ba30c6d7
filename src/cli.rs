//! The decisions of the command-line compressor: which block format was asked
//! for, and what to do with the arguments given.
use vstd::prelude::*;

verus! {

/// The block formats the compressor can produce.
#[derive(Clone, Copy, Debug, PartialEq, Eq, Structural)]
pub enum CompressionVariant {
    Bc1,
    Bc2,
    Bc3,
    Bc4,
    Bc5,
    Bc6h,
    Bc7,
}

/// What the command line asks for.
#[derive(Clone, Debug, PartialEq, Eq)]
pub enum Command {
    /// Print the usage text.
    Help,
    /// The format name was not recognised: report it, then print the usage.
    InvalidVariant,
    /// Compress the image in `file_name` into `variant` blocks.
    Compress { variant: CompressionVariant, file_name: String },
}

/// The lowercase form of `s`, as `str::to_lowercase` computes it.
pub uninterp spec fn lower_of(s: Seq<char>) -> Seq<char>;

/// Relies on `str::to_lowercase`: the result depends on the characters of
/// `s` alone.
#[verifier::external_body]
fn lowercase(s: &str) -> (r: String)
    ensures
        r@ == lower_of(s@),
{
    s.to_lowercase()
}

/// The format a lowercase name stands for.
pub open spec fn variant_named(name: Seq<char>) -> Option<CompressionVariant> {
    if name == "bc1"@ {
        Some(CompressionVariant::Bc1)
    } else if name == "bc2"@ {
        Some(CompressionVariant::Bc2)
    } else if name == "bc3"@ {
        Some(CompressionVariant::Bc3)
    } else if name == "bc4"@ {
        Some(CompressionVariant::Bc4)
    } else if name == "bc5"@ {
        Some(CompressionVariant::Bc5)
    } else if name == "bc6h"@ {
        Some(CompressionVariant::Bc6h)
    } else if name == "bc7"@ {
        Some(CompressionVariant::Bc7)
    } else {
        None
    }
}

/// Whether one of the arguments is `--help`.
pub open spec fn asks_for_help(args: Seq<String>) -> bool {
    exists|i: int| 0 <= i < args.len() && args[i]@ == "--help"@
}

/// The command for the arguments `args` (the program name first): usage
/// unless there are exactly a format and a file name and no `--help`; then
/// the format named by the first, in any case, and the second as the file.
pub open spec fn command_for(args: Seq<String>) -> Command {
    if args.len() != 3 || asks_for_help(args) {
        Command::Help
    } else {
        match variant_named(lower_of(args[1]@)) {
            Some(v) => Command::Compress { variant: v, file_name: args[2] },
            None => Command::InvalidVariant,
        }
    }
}

fn same_text(s: &String, lit: &str) -> (r: bool)
    ensures
        r == (s@ == lit@),
{
    let owned = lit.to_owned();
    s.eq(&owned)
}

/// The format that the lowercase name `name` stands for, if any.
pub fn variant_from_lowercase(name: &String) -> (r: Option<CompressionVariant>)
    ensures
        r == variant_named(name@),
{
    if same_text(name, "bc1") {
        Some(CompressionVariant::Bc1)
    } else if same_text(name, "bc2") {
        Some(CompressionVariant::Bc2)
    } else if same_text(name, "bc3") {
        Some(CompressionVariant::Bc3)
    } else if same_text(name, "bc4") {
        Some(CompressionVariant::Bc4)
    } else if same_text(name, "bc5") {
        Some(CompressionVariant::Bc5)
    } else if same_text(name, "bc6h") {
        Some(CompressionVariant::Bc6h)
    } else if same_text(name, "bc7") {
        Some(CompressionVariant::Bc7)
    } else {
        None
    }
}

/// The format that `name` stands for, in upper or lower case.
pub fn parse_variant(name: &str) -> (r: Option<CompressionVariant>)
    ensures
        r == variant_named(lower_of(name@)),
{
    let lower = lowercase(name);
    variant_from_lowercase(&lower)
}

/// Decides what the command line `args` (the program name first) asks for.
pub fn parse_args(args: &Vec<String>) -> (r: Command)
    ensures
        r == command_for(args@),
{
    let mut help = false;
    let mut i: usize = 0;
    while i < args.len()
        invariant
            i <= args@.len(),
            help == exists|j: int| 0 <= j < i && args@[j]@ == "--help"@,
        decreases args@.len() - i,
    {
        if same_text(&args[i], "--help") {
            help = true;
        }
        i = i + 1;
    }
    if args.len() != 3 || help {
        return Command::Help;
    }
    match parse_variant(args[1].as_str()) {
        Some(variant) => Command::Compress { variant, file_name: args[2].clone() },
        None => Command::InvalidVariant,
    }
}

} // verus!
