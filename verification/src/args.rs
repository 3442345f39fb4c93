//! Parsing of the run configuration.
//!
//! A run takes three positional arguments after the program name: a mode
//! flag (`-g` to generate a manifest, `-c` to check against one), the tree
//! root, and the manifest path. Arguments arrive as byte strings; the
//! caller converts whatever its platform hands it.

use vstd::prelude::*;
use vstd::slice::slice_to_vec;

verus! {

/// What a run does: write a manifest, or check a tree against one.
#[derive(Clone, Copy, PartialEq, Eq, Structural, Debug)]
pub enum Mode {
    Generate,
    Check,
}

/// The byte string of the generate flag, `-g`.
pub open spec fn generate_flag() -> Seq<u8> {
    seq![45u8, 103u8]
}

/// The byte string of the check flag, `-c`.
pub open spec fn check_flag() -> Seq<u8> {
    seq![45u8, 99u8]
}

/// A parsed run configuration.
pub struct Args {
    pub mode: Mode,
    pub folder_path: Vec<u8>,
    pub hash_file_path: Vec<u8>,
}

/// Why the arguments did not parse.
#[derive(Debug)]
pub enum ArgError {
    /// The first argument was neither `-g` nor `-c`; it is carried here.
    BadMode(Vec<u8>),
    /// No mode argument was given.
    MissingMode,
    /// No tree-root argument was given.
    MissingFolder,
    /// No manifest-path argument was given.
    MissingManifest,
}

impl Args {
    /// Parses the argument list (program name first, as handed to the
    /// process).
    ///
    /// Succeeds exactly when argument one is `-g` or `-c` and arguments
    /// two and three are present; an unsupported mode is reported before
    /// missing paths, as the arguments are read left to right.
    pub fn parse_args(argv: &Vec<Vec<u8>>) -> (r: Result<Args, ArgError>)
        ensures
            match r {
                Ok(args) => {
                    &&& argv@.len() >= 4
                    &&& (argv@[1]@ == generate_flag() || argv@[1]@ == check_flag())
                    &&& args.mode == (if argv@[1]@ == generate_flag() {
                        Mode::Generate
                    } else {
                        Mode::Check
                    })
                    &&& args.folder_path@ == argv@[2]@
                    &&& args.hash_file_path@ == argv@[3]@
                },
                Err(ArgError::MissingMode) => argv@.len() < 2,
                Err(ArgError::BadMode(m)) => argv@.len() >= 2 && argv@[1]@ != generate_flag()
                    && argv@[1]@ != check_flag() && m@ == argv@[1]@,
                Err(ArgError::MissingFolder) => argv@.len() == 2 && (argv@[1]@ == generate_flag()
                    || argv@[1]@ == check_flag()),
                Err(ArgError::MissingManifest) => argv@.len() == 3 && (argv@[1]@ == generate_flag()
                    || argv@[1]@ == check_flag()),
            },
    {
        if argv.len() < 2 {
            return Err(ArgError::MissingMode);
        }
        let flag: &Vec<u8> = &argv[1];
        let is_generate = flag.len() == 2 && flag[0] == 45 && flag[1] == 103;
        let is_check = flag.len() == 2 && flag[0] == 45 && flag[1] == 99;
        proof {
            if is_generate {
                assert(flag@ =~= generate_flag());
            }
            if is_check {
                assert(flag@ =~= check_flag());
            }
            if flag@ == generate_flag() {
                assert(is_generate);
            }
            if flag@ == check_flag() {
                assert(is_check);
            }
        }
        let mode = if is_generate {
            Mode::Generate
        } else if is_check {
            Mode::Check
        } else {
            return Err(ArgError::BadMode(slice_to_vec(flag.as_slice())));
        };
        if argv.len() < 3 {
            return Err(ArgError::MissingFolder);
        }
        if argv.len() < 4 {
            return Err(ArgError::MissingManifest);
        }
        let folder_path = slice_to_vec(argv[2].as_slice());
        let hash_file_path = slice_to_vec(argv[3].as_slice());
        Ok(Args { mode, folder_path, hash_file_path })
    }
}

} // verus!
