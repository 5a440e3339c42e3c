use vstd::prelude::*;

verus! {

/// How the state and the database are written and read.
#[derive(Clone, Copy, Debug, PartialEq, Eq, Structural)]
pub enum OutputFormat {
    Json,
    Binary,
}

/// Options shared by indexing and querying.
#[derive(Clone, Copy, Debug, PartialEq, Eq, Structural)]
pub struct Configuration {
    pub output_format: OutputFormat,
    pub quiet: bool,
}

impl Configuration {
    pub fn new(output_format: OutputFormat, quiet: bool) -> (r: Configuration)
        ensures
            r.output_format == output_format,
            r.quiet == quiet,
    {
        Configuration { output_format, quiet }
    }
}

} // verus!
