//! Building a polyglot file in one call, for callers that hold its parts in
//! memory.
use crate::error::PolyglotError;
use crate::outcome::Build;
use crate::polyglot::{compose_polyglot, Parts, PolyglotConfig};
use vstd::prelude::*;

verus! {

/// The whole file: its data, and the PDF document that follows it.
pub open spec fn whole_file(data: Seq<u8>, suffix: Option<Seq<u8>>) -> Seq<u8> {
    match suffix {
        Some(s) => data + s,
        None => data,
    }
}

/// The parts of a polyglot file.
pub open spec fn parts_of(
    png_data: Vec<u8>,
    mp4_data: Vec<u8>,
    html_content: Option<String>,
    pdf_data: Option<Vec<u8>>,
    extra_data: Option<Vec<u8>>,
) -> Parts {
    (PolyglotConfig { png_data, mp4_data, html_content, pdf_data, extra_data })@
}

/// Builds a polyglot file and gives all of it, or tells why it cannot be built.
pub fn compose_whole_file(config: &PolyglotConfig) -> (r: Build<Vec<u8>>)
    ensures
        match (r, config@.outcome()) {
            (Build::Done(file), Build::Done((data, suffix))) => file@ == whole_file(data, suffix),
            (Build::Failed(e), Build::Failed(f)) => e == f,
            (Build::Undefined, Build::Undefined) => true,
            _ => false,
        },
{
    let result = match compose_polyglot(config) {
        Build::Done(v) => v,
        Build::Failed(e) => return Build::Failed(e),
        Build::Undefined => return Build::Undefined,
    };
    let mut output: Vec<u8> = result.data;
    match result.pdf_suffix {
        Some(suffix) => output.extend_from_slice(suffix.as_slice()),
        None => {},
    }
    Build::Done(output)
}

/// Builds a polyglot file and gives all of it.
pub fn wasm_build_polyglot(
    png_data: Vec<u8>,
    mp4_data: Vec<u8>,
    html_content: Option<String>,
    pdf_data: Option<Vec<u8>>,
    extra_data: Option<Vec<u8>>,
) -> (r: Result<Vec<u8>, PolyglotError>)
    requires
        !(parts_of(png_data, mp4_data, html_content, pdf_data, extra_data).outcome() is Undefined),
    ensures
        match parts_of(png_data, mp4_data, html_content, pdf_data, extra_data).outcome() {
            Build::Done((data, suffix)) => r matches Ok(file) && file@ == whole_file(data, suffix),
            Build::Failed(e) => r matches Err(f) && f == e,
            Build::Undefined => true,
        },
{
    let config = PolyglotConfig { png_data, mp4_data, html_content, pdf_data, extra_data };
    match compose_whole_file(&config) {
        Build::Done(file) => Ok(file),
        Build::Failed(e) => Err(e),
        Build::Undefined => vstd::pervasive::unreached(),
    }
}

} // verus!
