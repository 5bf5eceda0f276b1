//! Import specifiers and source paths: which package a specifier names,
//! and which files are scanned.

use crate::text::{chars_of, find_char, includes, includes_text, same_text, seek_char, starts_with};
use vstd::prelude::*;
use vstd::string::*;

verus! {

/// Whether `module` is one of the modules built into Node.js.
pub open spec fn builtin_module(module: Seq<char>) -> bool {
    module == "assert"@
    || module == "buffer"@
    || module == "child_process"@
    || module == "cluster"@
    || module == "console"@
    || module == "constants"@
    || module == "crypto"@
    || module == "dgram"@
    || module == "dns"@
    || module == "domain"@
    || module == "events"@
    || module == "fs"@
    || module == "http"@
    || module == "http2"@
    || module == "https"@
    || module == "inspector"@
    || module == "module"@
    || module == "net"@
    || module == "os"@
    || module == "path"@
    || module == "perf_hooks"@
    || module == "process"@
    || module == "punycode"@
    || module == "querystring"@
    || module == "readline"@
    || module == "repl"@
    || module == "stream"@
    || module == "string_decoder"@
    || module == "sys"@
    || module == "timers"@
    || module == "tls"@
    || module == "trace_events"@
    || module == "tty"@
    || module == "url"@
    || module == "util"@
    || module == "v8"@
    || module == "vm"@
    || module == "wasi"@
    || module == "worker_threads"@
    || module == "zlib"@
}

/// Whether a specifier names a module built into Node.js, with or without
/// the `node:` prefix.
pub open spec fn node_builtin(s: Seq<char>) -> bool {
    if seq!['n', 'o', 'd', 'e', ':'].is_prefix_of(s) {
        builtin_module(s.skip(5))
    } else {
        builtin_module(s)
    }
}

fn is_builtin_module(module: &str) -> (r: bool)
    ensures
        r == builtin_module(module@),
{
    same_text(module, "assert")
    || same_text(module, "buffer")
    || same_text(module, "child_process")
    || same_text(module, "cluster")
    || same_text(module, "console")
    || same_text(module, "constants")
    || same_text(module, "crypto")
    || same_text(module, "dgram")
    || same_text(module, "dns")
    || same_text(module, "domain")
    || same_text(module, "events")
    || same_text(module, "fs")
    || same_text(module, "http")
    || same_text(module, "http2")
    || same_text(module, "https")
    || same_text(module, "inspector")
    || same_text(module, "module")
    || same_text(module, "net")
    || same_text(module, "os")
    || same_text(module, "path")
    || same_text(module, "perf_hooks")
    || same_text(module, "process")
    || same_text(module, "punycode")
    || same_text(module, "querystring")
    || same_text(module, "readline")
    || same_text(module, "repl")
    || same_text(module, "stream")
    || same_text(module, "string_decoder")
    || same_text(module, "sys")
    || same_text(module, "timers")
    || same_text(module, "tls")
    || same_text(module, "trace_events")
    || same_text(module, "tty")
    || same_text(module, "url")
    || same_text(module, "util")
    || same_text(module, "v8")
    || same_text(module, "vm")
    || same_text(module, "wasi")
    || same_text(module, "worker_threads")
    || same_text(module, "zlib")
}

/// Check if a module is a Node.js built-in
pub fn is_node_builtin(specifier: &str) -> (r: bool)
    ensures
        r == node_builtin(specifier@),
{
    let chars = chars_of(specifier);
    proof {
        reveal_strlit("node:");
        assert("node:"@ =~= seq!['n', 'o', 'd', 'e', ':']);
    }
    if starts_with(&chars, "node:") {
        let module = specifier.substring_char(5, chars.len());
        assert(module@ =~= specifier@.skip(5));
        is_builtin_module(module)
    } else {
        is_builtin_module(specifier)
    }
}

/// The part of `s` before its second `/`, where `s` has a `/`: the scope and
/// the name of a scoped package.
pub open spec fn scoped_prefix(s: Seq<char>) -> Seq<char> {
    s.subrange(0, find_char(s, '/', find_char(s, '/', 0) + 1))
}

/// The package that an import specifier names: none for a relative or
/// absolute path, for a module built into Node.js and for a scope without a
/// name; `@scope/name` for a scoped package; else the part before the first
/// `/`.
pub open spec fn package_name_of(s: Seq<char>) -> Option<Seq<char>> {
    if s.len() > 0 && (s[0] == '.' || s[0] == '/') {
        None
    } else if node_builtin(s) {
        None
    } else if s.len() > 0 && s[0] == '@' {
        if find_char(s, '/', 0) < s.len() {
            Some(scoped_prefix(s))
        } else {
            None
        }
    } else {
        Some(s.subrange(0, find_char(s, '/', 0)))
    }
}

/// Extract the package name from an import specifier
///
/// Examples:
/// - "lodash" -> "lodash"
/// - "lodash/fp" -> "lodash"
/// - "@scope/package" -> "@scope/package"
/// - "@scope/package/sub" -> "@scope/package"
/// - "./local" -> None (relative import)
/// - "../utils" -> None (relative import)
pub fn extract_package_name(specifier: &str) -> (r: Option<String>)
    ensures
        match r {
            Some(name) => package_name_of(specifier@) == Some(name@),
            None => package_name_of(specifier@) is None,
        },
{
    let chars = chars_of(specifier);
    if chars.len() > 0 && (chars[0] == '.' || chars[0] == '/') {
        return None;
    }
    if is_node_builtin(specifier) {
        return None;
    }
    let slash = seek_char(&chars, '/', 0);
    if chars.len() > 0 && chars[0] == '@' {
        if slash < chars.len() {
            let end = seek_char(&chars, '/', slash + 1);
            return Some(String::from_str(specifier.substring_char(0, end)));
        }
        return None;
    }
    Some(String::from_str(specifier.substring_char(0, slash)))
}

/// Whether a file with this extension is a JavaScript or TypeScript source.
pub open spec fn js_ts_extension(ext: Seq<char>) -> bool {
    ext == "js"@
    || ext == "jsx"@
    || ext == "ts"@
    || ext == "tsx"@
    || ext == "mjs"@
    || ext == "cjs"@
    || ext == "mts"@
    || ext == "cts"@
}

/// Check if a file is a JavaScript/TypeScript file, by its extension
pub fn is_js_ts_file(extension: Option<&str>) -> (r: bool)
    ensures
        r == match extension {
            Some(ext) => js_ts_extension(ext@),
            None => false,
        },
{
    match extension {
        Some(ext) => {
            same_text(ext, "js")
            || same_text(ext, "jsx")
            || same_text(ext, "ts")
            || same_text(ext, "tsx")
            || same_text(ext, "mjs")
            || same_text(ext, "cjs")
            || same_text(ext, "mts")
            || same_text(ext, "cts")
        },
        None => false,
    }
}

/// Whether a path looks like that of a test file.
pub open spec fn test_path(path: Seq<char>) -> bool {
    includes(path, ".test."@) || includes(path, ".spec."@) || includes(path, "__tests__"@)
        || includes(path, "__mocks__"@)
}

/// Check if a file is likely a test file
pub fn is_test_file(path: &str) -> (r: bool)
    ensures
        r == test_path(path@),
{
    let chars = chars_of(path);
    includes_text(&chars, ".test.") || includes_text(&chars, ".spec.") || includes_text(
        &chars,
        "__tests__",
    ) || includes_text(&chars, "__mocks__")
}

/// Number of line feeds among the first `upto` bytes.
pub open spec fn line_feeds(bytes: Seq<u8>, upto: nat) -> nat
    decreases upto,
{
    if upto == 0 {
        0
    } else {
        line_feeds(bytes, (upto - 1) as nat) + if bytes[upto - 1] == 10u8 {
            1nat
        } else {
            0nat
        }
    }
}

/// The line, counted from 1, of the byte at `offset` of `source`.
pub fn line_number(source: &str, offset: usize) -> (line: usize)
    requires
        offset <= source.spec_bytes().len(),
        offset < usize::MAX,
    ensures
        line == line_feeds(source.spec_bytes(), offset as nat) + 1,
{
    let bytes = source.as_bytes();
    let mut count: usize = 0;
    let mut i: usize = 0;
    while i < offset
        invariant
            bytes@ == source.spec_bytes(),
            offset <= bytes@.len(),
            i <= offset,
            count <= i,
            count == line_feeds(bytes@, i as nat),
        decreases offset - i,
    {
        if bytes[i] == 10u8 {
            count += 1;
        }
        i += 1;
    }
    count + 1
}

} // verus!
