//! The decision logic of the document-rendering bridge. The external
//! typesetting process itself runs outside this library; what it reports —
//! exit status, diagnostic stream, and the produced bytes, if any — is
//! classified here, exactly.

use vstd::prelude::*;
use crate::errors::FsError;

verus! {

/// Classifies the outcome of one external render run: a failed exit
/// surfaces the diagnostic text verbatim as `RenderError`; a reported
/// success without readable output is an `IoError` (the exit code is not
/// fully authoritative); otherwise the produced bytes are returned.
pub fn interpret_render_outcome(
    exit_success: bool,
    diagnostics: String,
    output: Option<Vec<u8>>,
) -> (r: Result<Vec<u8>, FsError>)
    ensures
        r is Ok <==> exit_success && output is Some,
        match r {
            Ok(b) => exit_success && output == Some(b),
            Err(e) => match e {
                FsError::RenderError(m) => !exit_success && m == diagnostics,
                FsError::IoError(_) => exit_success && output is None,
                _ => false,
            },
        },
{
    if !exit_success {
        return Err(FsError::RenderError(diagnostics));
    }
    match output {
        Some(b) => Ok(b),
        None => Err(
            FsError::IoError(
                String::from_str("renderer reported success but produced no output"),
            ),
        ),
    }
}

} // verus!
