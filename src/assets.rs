use vstd::prelude::*;

verus! {

/// A file served as it is, with its media type.
pub struct Asset {
    /// Path of the file, relative to the server's sources.
    pub file: &'static str,
    pub media_type: &'static str,
}

/// The page served for every path that no route takes.
pub fn index() -> (r: Asset)
    ensures
        r.file@ == "index.html"@,
        r.media_type@ == "text/html; charset=utf-8"@,
{
    Asset { file: "index.html", media_type: "text/html; charset=utf-8" }
}

/// The script that loads the browser module.
pub fn wasm_js() -> (r: Asset)
    ensures
        r.file@ == "pkg/wasm.js"@,
        r.media_type@ == "text/javascript"@,
{
    Asset { file: "pkg/wasm.js", media_type: "text/javascript" }
}

/// The browser module itself.
pub fn wasm() -> (r: Asset)
    ensures
        r.file@ == "pkg/wasm_bg.wasm"@,
        r.media_type@ == "application/wasm"@,
{
    Asset { file: "pkg/wasm_bg.wasm", media_type: "application/wasm" }
}

} // verus!
