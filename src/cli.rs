use std::path::PathBuf;
use vstd::prelude::*;

verus! {

#[verifier::external_type_specification]
#[verifier::external_body]
pub struct ExPathBuf(PathBuf);

/// The command line: one action.
#[derive(Debug)]
pub struct Args {
    pub action: Actions,
}

/// What the command line asks for.
#[derive(Debug, PartialEq, Eq, PartialOrd)]
pub enum Actions {
    /// Checks the integrity of the file.
    Check {
        /// Path to the dataset file.
        file: PathBuf,
        /// Expected CRC32 checksum.
        crc32_checksum: u32,
    },
    /// Inspects what is in a dataset or kernel file, and checks its integrity.
    Inspect {
        /// Path to the dataset or kernel file.
        file: PathBuf,
    },
    /// Converts text planetary-constants files into a dataset.
    ConvertTpc {
        /// Path to the planetary-constants text file.
        pckfile: PathBuf,
        /// Path to the gravity-data text file.
        gmfile: PathBuf,
        /// Path of the output dataset.
        outfile: PathBuf,
    },
}

} // verus!
