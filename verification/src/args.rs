use vstd::prelude::*;

verus! {

/// A parsed command line: the command to run over a PNG file on disk.
#[derive(Debug)]
pub struct Args {
    pub command: Command,
}

/// The operations the tool offers: hide a message in a new chunk, find the
/// messages stored under a tag, or delete every chunk of a tag.
#[derive(Debug)]
pub enum Command {
    Hide {
        input_path: String,
        chunk_type: String,
        message: String,
        output_path: Option<String>,
    },
    Find {
        path: String,
        chunk_type: String,
    },
    Delete {
        path: String,
        chunk_type: String,
    },
}

} // verus!
