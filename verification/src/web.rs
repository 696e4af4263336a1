//! How the files of the user interface are served.
use vstd::prelude::*;
use crate::platform::{are_slashes, slashes_are_taken_off, without_first_slashes};
use crate::text::{
    chars_of, has_prefix, is_text, owned, prefixes_come_first, skip, starts_with, string_of,
};

verus! {

/// The file that a path asks for: the index where it asks for none.
pub open spec fn asset_of(path: Seq<char>) -> Seq<char> {
    if without_first_slashes(path).len() == 0 {
        "index.html"@
    } else {
        without_first_slashes(path)
    }
}

/// Finds the file that a path asks for.
pub fn requested_asset(path: &str) -> (r: String)
    ensures
        r@ == asset_of(path@),
{
    let chars = chars_of(path);
    let mut from: usize = 0;
    assert(path@.skip(0) =~= path@);
    while from < chars.len() && chars[from] == '/'
        invariant
            from <= chars@.len(),
            chars@ == path@,
            without_first_slashes(path@) == without_first_slashes(path@.skip(from as int)),
        decreases chars.len() - from,
    {
        assert(path@.skip(from as int).drop_first() =~= path@.skip(from + 1));
        from += 1;
    }
    if from == chars.len() {
        owned("index.html")
    } else {
        let rest = skip(chars.as_slice(), from);
        string_of(rest.as_slice())
    }
}

/// How long a file may be kept by browsers: the index not at all, the others,
/// which change their names when they change, for a year.
pub fn cache_control(asset: &String) -> (r: &'static str)
    ensures
        r@ == if asset@ == "index.html"@ {
            "no-cache"@
        } else {
            "public, max-age=31536000, immutable"@
        },
{
    if is_text(asset, "index.html") {
        "no-cache"
    } else {
        "public, max-age=31536000, immutable"
    }
}

/// A response must not be kept by browsers: it is a page of the user interface.
pub open spec fn is_page(path: Seq<char>, content_type: Option<Seq<char>>, status: u16) -> bool {
    &&& path != "/healthz"@
    &&& !has_prefix(path, "/api/"@)
    &&& content_type matches Some(kind) && has_prefix(kind, "text/html"@)
    &&& 200 <= status <= 299
}

/// Tells whether a response must not be kept by browsers.
pub fn must_not_cache(path: &String, content_type: Option<&str>, status: u16) -> (r: bool)
    ensures
        r == is_page(
            path@,
            match content_type {
                Some(kind) => Some(kind@),
                None => None,
            },
            status,
        ),
{
    if is_text(path, "/healthz") || status < 200 || status > 299 {
        return false;
    }
    let chars = chars_of(path.as_str());
    let api = chars_of("/api/");
    if starts_with(chars.as_slice(), api.as_slice()) {
        return false;
    }
    match content_type {
        Some(kind) => {
            let kind = chars_of(kind);
            let html = chars_of("text/html");
            starts_with(kind.as_slice(), html.as_slice())
        },
        None => false,
    }
}

/// A path asks for the file that it names after its slashes, and for the index where it
/// names none.
pub proof fn paths_ask_for_their_file(slashes: Seq<char>, name: Seq<char>)
    requires
        are_slashes(slashes),
        name.len() > 0 ==> name[0] != '/',
    ensures
        asset_of(slashes + name) == if name.len() > 0 {
            name
        } else {
            "index.html"@
        },
{
    slashes_are_taken_off(name, slashes);
}

/// What answers the programming interface or a probe for health is no page, and neither is
/// a failure or what is not a document; every other answer is one.
pub proof fn pages_are_documents(path: Seq<char>, rest: Seq<char>, kind: Seq<char>, status: u16)
    ensures
        !is_page("/api/"@ + rest, Some(kind), status),
        !is_page("/healthz"@, Some(kind), status),
        !is_page(path, None, status),
        status < 200 || status > 299 ==> !is_page(path, Some(kind), status),
        is_page(path, Some(kind), status) ==> has_prefix(kind, "text/html"@),
        path != "/healthz"@ && !has_prefix(path, "/api/"@) && 200 <= status <= 299 ==> is_page(
            path,
            Some("text/html"@ + rest),
            status,
        ),
{
    prefixes_come_first(path, "/api/"@, rest);
    prefixes_come_first(path, "text/html"@, rest);
}

} // verus!
