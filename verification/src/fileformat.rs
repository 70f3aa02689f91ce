//! The snapshot file formats a store can be exported to.

use vstd::prelude::*;
use vstd::string::StringExecFns;

verus! {

/// A snapshot file format: a full-fidelity JSON document or a tabular CSV
/// document that is lossy on read.
#[derive(Clone, Copy, PartialEq, Eq, Structural, Debug)]
pub enum FileFormat {
    JSON,
    CSV,
}

impl FileFormat {
    /// The lowercase file-name extension of this format.
    pub open spec fn extension_view(self) -> Seq<char> {
        match self {
            FileFormat::JSON => seq!['j', 's', 'o', 'n'],
            FileFormat::CSV => seq!['c', 's', 'v'],
        }
    }

    /// The lowercase rendering of the format, used as the extension of
    /// snapshot file names.
    pub fn extension(&self) -> (r: &'static str)
        ensures
            r@ == self.extension_view(),
    {
        match self {
            FileFormat::JSON => {
                let s = "json";
                proof {
                    reveal_strlit("json");
                }
                s
            },
            FileFormat::CSV => {
                let s = "csv";
                proof {
                    reveal_strlit("csv");
                }
                s
            },
        }
    }
}

/// The file name a snapshot of the given base name is written to or read
/// from: the base name, a dot, and the format's lowercase extension.
pub open spec fn snapshot_file_name_view(base: Seq<char>, format: FileFormat) -> Seq<char> {
    base + seq!['.'] + format.extension_view()
}

/// Builds the snapshot file name for a base name and a format.
pub fn snapshot_file_name(base: &str, format: &FileFormat) -> (r: String)
    ensures
        r@ == snapshot_file_name_view(base@, *format),
{
    let mut out = base.to_owned();
    let dot = ".";
    proof {
        reveal_strlit(".");
    }
    out.append(dot);
    out.append(format.extension());
    proof {
        assert(out@ =~= base@ + seq!['.'] + format.extension_view());
    }
    out
}

} // verus!
