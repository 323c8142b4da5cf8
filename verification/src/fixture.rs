//! The files of an encryption round: what is read and what is written.

use vstd::prelude::*;

verus! {

/// The names of the file that an encryption round reads and of the file
/// that it writes.
#[derive(Clone, Debug, PartialEq, Eq)]
pub struct TestFixture {
    pub input_path: String,
    pub output_path: String,
}

impl TestFixture {
    /// The fixture of the working directory: `test_input.pdf` is read and
    /// `test_output.pdf` is written.
    pub fn new() -> (fixture: TestFixture)
        ensures
            fixture.input_path@ == "test_input.pdf"@,
            fixture.output_path@ == "test_output.pdf"@,
    {
        TestFixture {
            input_path: "test_input.pdf".to_owned(),
            output_path: "test_output.pdf".to_owned(),
        }
    }
}

} // verus!
