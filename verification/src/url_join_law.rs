//! What joining a submodule URL onto the URL of its parent keeps.
use crate::gitmodules::spec_join_relative_url_paths;
use crate::gitmodules::SubmoduleUrl;
use crate::gitmodules::SubmoduleUrlExt;
use vstd::prelude::*;
use vstd::utf8::decode_utf8;
use vstd::utf8::encode_utf8;
use vstd::utf8::valid_utf8;

verus! {

/// The URL is a bare relative path: a file URL without user, password or
/// host whose path is `.` or `..`, or starts with `./` or `../`.
pub open spec fn relative_path_only(u: SubmoduleUrl) -> bool {
    let p = u.path@;
    &&& u.scheme is File
    &&& u.user is None
    &&& u.password is None
    &&& u.host is None
    &&& ((p.len() == 1 && p[0] == 46u8) || (p.len() == 2 && p[0] == 46u8 && p[1] == 46u8) || (p.len()
        >= 2 && p[0] == 46u8 && p[1] == 47u8) || (p.len() >= 3 && p[0] == 46u8 && p[1] == 46u8 && p[2]
        == 47u8))
}

/// Joining a relative path onto a base URL keeps everything of the base
/// but its path: scheme, user, password, host, port and form of writing
/// come from the base, and the path is the base's path with the relative
/// path resolved against it. Any other URL, or one whose paths are not
/// UTF-8, is taken as it stands.
pub proof fn law_join_keeps_base_but_path(base: SubmoduleUrl, other: SubmoduleUrl)
    ensures
        ({
            let r = base.joined(&other);
            &&& relative_path_only(other) && valid_utf8(base.path@) && valid_utf8(other.path@) ==> {
                &&& r.scheme == base.scheme
                &&& r.user == base.user
                &&& r.password == base.password
                &&& r.host == base.host
                &&& r.port == base.port
                &&& r.serialize_alternative_form == base.serialize_alternative_form
                &&& r.path == encode_utf8(
                    spec_join_relative_url_paths(decode_utf8(base.path@), decode_utf8(other.path@)),
                )
            }
            &&& !(relative_path_only(other) && valid_utf8(base.path@) && valid_utf8(other.path@)) ==> r
                == other@
        }),
{
    let p = other.path@;
    let d = seq![46u8];
    let dd = seq![46u8, 46u8];
    let ds = seq![46u8, 47u8];
    let dds = seq![46u8, 46u8, 47u8];
    if p.len() == 1 && p[0] == 46u8 {
        assert(p =~= d);
    }
    if p.len() == 2 && p[0] == 46u8 && p[1] == 46u8 {
        assert(p =~= dd);
    }
    if p.len() >= 2 && p[0] == 46u8 && p[1] == 47u8 {
        assert(p.subrange(0, 2) =~= ds);
    }
    if p.len() >= 3 && p[0] == 46u8 && p[1] == 46u8 && p[2] == 47u8 {
        assert(p.subrange(0, 3) =~= dds);
    }
    if p == d {
        assert(p[0] == d[0]);
    }
    if p == dd {
        assert(p[0] == dd[0] && p[1] == dd[1]);
    }
    if crate::text::has_prefix(p, ds) {
        assert(p.subrange(0, 2)[0] == ds[0] && p.subrange(0, 2)[1] == ds[1]);
    }
    if crate::text::has_prefix(p, dds) {
        assert(p.subrange(0, 3)[0] == dds[0] && p.subrange(0, 3)[1] == dds[1] && p.subrange(0, 3)[2] == dds[2]);
    }
}

} // verus!
