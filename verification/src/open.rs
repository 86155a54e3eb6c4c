//! Where a raster comes from.
use crate::text::{lowered, lowered_starts_with};
use vstd::prelude::*;

verus! {

/// Whether a text in lower case starts with `prefix`.
pub open spec fn starts_lowered(text: Seq<char>, prefix: Seq<char>) -> bool {
    text.len() >= prefix.len() && lowered(text).take(prefix.len() as int) == prefix
}

/// Whether a source is read over HTTP.
pub open spec fn http_source(source: Seq<char>) -> bool {
    starts_lowered(source, "http://"@) || starts_lowered(source, "https://"@)
}

/// Whether a source is read over HTTP.
pub fn is_http_source(source: &str) -> (http: bool)
    ensures
        http == http_source(source@),
{
    lowered_starts_with(source, "http://") || lowered_starts_with(source, "https://")
}

/// Whatever follows them, addresses of web servers are remote, and names without a scheme,
/// with fewer characters than one, are not.
pub proof fn law_web_addresses_are_remote(rest: Seq<char>, name: Seq<char>)
    ensures
        http_source("http://"@ + rest),
        http_source("https://"@ + rest),
        name.len() < 7 ==> !http_source(name),
        name.len() > 0 && name[0] != 'h' && name[0] != 'H' ==> !http_source(name),
{
    reveal_strlit("http://");
    reveal_strlit("https://");
    let plain = "http://"@ + rest;
    let secure = "https://"@ + rest;
    assert(lowered(plain).take(7) =~= "http://"@);
    assert(lowered(secure).take(8) =~= "https://"@);
    if name.len() >= 7 && lowered(name).take(7) == "http://"@ {
        assert(lowered(name).take(7)[0] == 'h');
    }
    if name.len() >= 8 && lowered(name).take(8) == "https://"@ {
        assert(lowered(name).take(8)[0] == 'h');
    }
}

} // verus!
