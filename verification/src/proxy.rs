//! The computing parts of the REST proxy handlers.
//!
//! The handlers themselves are request/response glue and live outside the
//! library; what they compute on plain values is defined and verified here:
//! dashing and un-dashing player identifiers, picking a download's file name
//! and content type, deciding a file action, and decoding base64 payloads
//! (the one outside call, behind a trusted wrapper).

use base64::Engine;
use vstd::prelude::*;
use vstd::string::StringSliceAdditionalSpecFns;

use crate::config::str_eq;

verus! {

/// A 32-character identifier grouped 8-4-4-4-12 with dashes.
pub open spec fn dashed_uuid(id: Seq<char>) -> Seq<char> {
    id.subrange(0, 8) + "-"@ + id.subrange(8, 12) + "-"@ + id.subrange(12, 16) + "-"@ + id.subrange(
        16,
        20,
    ) + "-"@ + id.subrange(20, 32)
}

/// Group the first 32 characters of a plain identifier 8-4-4-4-12 with
/// dashes, as identifier lookups hand them out; an identifier shorter than
/// 32 characters is refused.
pub fn format_dashed_uuid(id: &str) -> (r: Option<String>)
    ensures
        r is Some <==> id@.len() >= 32,
        r matches Some(u) ==> u@ == dashed_uuid(id@),
{
    let n = id.unicode_len();
    if n < 32 {
        return None;
    }
    let mut out = String::new();
    out.append(id.substring_char(0, 8));
    out.append("-");
    out.append(id.substring_char(8, 12));
    out.append("-");
    out.append(id.substring_char(12, 16));
    out.append("-");
    out.append(id.substring_char(16, 20));
    out.append("-");
    out.append(id.substring_char(20, 32));
    proof {
        assert(out@ =~= dashed_uuid(id@));
    }
    Some(out)
}

/// The identifier with every dash removed.
pub open spec fn undashed(id: Seq<char>) -> Seq<char>
    decreases id.len(),
{
    if id.len() == 0 {
        id
    } else if id[0] == '-' {
        undashed(id.skip(1))
    } else {
        seq![id[0]] + undashed(id.skip(1))
    }
}

/// Remove every dash from an identifier, as avatar services want it.
pub fn strip_dashes(id: &str) -> (r: String)
    ensures
        r@ == undashed(id@),
{
    let n = id.unicode_len();
    let mut out = String::new();
    let mut i: usize = 0;
    proof {
        assert(id@.skip(0) =~= id@);
        assert(out@ + undashed(id@) =~= undashed(id@));
    }
    while i < n
        invariant
            i <= n,
            n == id@.len(),
            undashed(id@) == out@ + undashed(id@.skip(i as int)),
        decreases n - i,
    {
        let ghost out_before: Seq<char> = out@;
        let c = id.get_char(i);
        proof {
            assert(id@.skip(i as int)[0] == id@[i as int]);
            assert(id@.skip(i as int).skip(1) =~= id@.skip(i as int + 1));
        }
        if c != '-' {
            out.append(id.substring_char(i, i + 1));
            proof {
                assert(id@.subrange(i as int, i as int + 1) =~= seq![id@[i as int]]);
                assert(undashed(id@.skip(i as int)) == seq![id@[i as int]] + undashed(
                    id@.skip(i as int + 1),
                ));
                assert(out@ + undashed(id@.skip(i as int + 1)) =~= out_before + undashed(
                    id@.skip(i as int),
                ));
            }
        }
        i = i + 1;
    }
    proof {
        assert(undashed(id@.skip(n as int)) =~= Seq::<char>::empty());
        assert(out@ + Seq::<char>::empty() =~= out@);
    }
    out
}

/// Whether the text ends with the given suffix.
pub open spec fn has_suffix(s: Seq<char>, suffix: Seq<char>) -> bool {
    suffix.len() <= s.len() && s.skip(s.len() - suffix.len()) == suffix
}

/// Whether the text ends with the given suffix.
pub fn ends_with(s: &str, suffix: &str) -> (b: bool)
    ensures
        b == has_suffix(s@, suffix@),
{
    let n = s.unicode_len();
    let m = suffix.unicode_len();
    if m > n {
        return false;
    }
    let mut i: usize = 0;
    while i < m
        invariant
            i <= m <= n,
            n == s@.len(),
            m == suffix@.len(),
            forall|j: int| 0 <= j < i ==> s@[n - m + j] == suffix@[j],
        decreases m - i,
    {
        if s.get_char(n - m + i) != suffix.get_char(i) {
            proof {
                assert(s@.skip(n as int - m as int)[i as int] != suffix@[i as int]);
            }
            return false;
        }
        i = i + 1;
    }
    proof {
        assert(s@.skip(n as int - m as int) =~= suffix@);
    }
    true
}

/// The content type a download is served under, decided by the file name's
/// ending; anything unknown is served as raw bytes.
pub open spec fn content_type_spec(filename: Seq<char>) -> Seq<char> {
    if has_suffix(filename, ".txt"@) {
        "text/plain"@
    } else if has_suffix(filename, ".json"@) {
        "application/json"@
    } else if has_suffix(filename, ".yml"@) || has_suffix(filename, ".yaml"@) {
        "text/yaml"@
    } else if has_suffix(filename, ".properties"@) {
        "text/plain"@
    } else if has_suffix(filename, ".jar"@) {
        "application/java-archive"@
    } else if has_suffix(filename, ".log"@) {
        "text/plain"@
    } else {
        "application/octet-stream"@
    }
}

/// The content type a download is served under, decided by the file name's
/// ending.
pub fn content_type_for(filename: &str) -> (t: &'static str)
    ensures
        t@ == content_type_spec(filename@),
{
    if ends_with(filename, ".txt") {
        "text/plain"
    } else if ends_with(filename, ".json") {
        "application/json"
    } else if ends_with(filename, ".yml") || ends_with(filename, ".yaml") {
        "text/yaml"
    } else if ends_with(filename, ".properties") {
        "text/plain"
    } else if ends_with(filename, ".jar") {
        "application/java-archive"
    } else if ends_with(filename, ".log") {
        "text/plain"
    } else {
        "application/octet-stream"
    }
}

/// Position of the last occurrence of `c`, if any.
pub open spec fn find_last(s: Seq<char>, c: char) -> Option<int>
    decreases s.len(),
{
    if s.len() == 0 {
        None
    } else if s[s.len() - 1] == c {
        Some(s.len() - 1)
    } else {
        find_last(s.take(s.len() - 1), c)
    }
}

/// The file name of a path: what follows the last slash, or the whole path
/// if it has none.
pub open spec fn file_name_spec(path: Seq<char>) -> Seq<char> {
    match find_last(path, '/') {
        Option::Some(i) => path.skip(i + 1),
        Option::None => path,
    }
}

/// The file name of a path: what follows the last slash, or the whole path
/// if it has none.
pub fn file_name_of(path: &str) -> (r: &str)
    ensures
        r@ == file_name_spec(path@),
{
    let n = path.unicode_len();
    let mut i: usize = n;
    proof {
        assert(path@.take(n as int) =~= path@);
    }
    while i > 0
        invariant
            i <= n,
            n == path@.len(),
            find_last(path@, '/') == find_last(path@.take(i as int), '/'),
        decreases i,
    {
        if path.get_char(i - 1) == '/' {
            proof {
                assert(path@.take(i as int)[i - 1] == path@[i - 1]);
                assert(find_last(path@.take(i as int), '/') == Some(i - 1));
                assert(path@.skip(i as int) =~= path@.subrange(i as int, n as int));
            }
            return path.substring_char(i, n);
        }
        proof {
            assert(path@.take(i as int)[i - 1] == path@[i - 1]);
            assert(path@.take(i as int).take(i as int - 1) =~= path@.take(i as int - 1));
        }
        i = i - 1;
    }
    proof {
        assert(path@.take(0) =~= Seq::<char>::empty());
        assert(find_last(path@, '/') is None);
        assert(path@.subrange(0, n as int) =~= path@);
    }
    path.substring_char(0, n)
}

/// What a file-management request asks for.
pub enum FileAction {
    /// Rename the file to this new name.
    Rename(String),
    /// Create a directory at the path.
    CreateDirectory,
}

/// Why a file-management request is refused.
#[derive(Clone, Copy, PartialEq, Eq, Structural, Debug)]
pub enum FileActionError {
    /// A rename names no new name.
    MissingNewName,
    /// The action word is not one the backend knows.
    UnknownAction,
}

/// Decide a file-management request: `rename` needs the new name, `mkdir`
/// needs nothing, and any other action word is refused.
pub fn parse_file_action(action: &str, new_name: Option<String>) -> (r: Result<
    FileAction,
    FileActionError,
>)
    ensures
        action@ == "rename"@ && new_name is Some ==> (r matches Ok(a) && (a matches
            FileAction::Rename(m) && m@ == new_name->Some_0@)),
        action@ == "rename"@ && new_name is None ==> r == Err::<FileAction, FileActionError>(
            FileActionError::MissingNewName,
        ),
        action@ == "mkdir"@ ==> r == Ok::<FileAction, FileActionError>(FileAction::CreateDirectory),
        action@ != "rename"@ && action@ != "mkdir"@ ==> r == Err::<FileAction, FileActionError>(
            FileActionError::UnknownAction,
        ),
{
    if str_eq(action, "rename") {
        proof {
            reveal_strlit("rename");
            reveal_strlit("mkdir");
            assert("rename"@.len() == 6);
            assert("mkdir"@.len() == 5);
            assert(action@ != "mkdir"@);
        }
        match new_name {
            Some(m) => Ok(FileAction::Rename(m)),
            None => Err(FileActionError::MissingNewName),
        }
    } else if str_eq(action, "mkdir") {
        Ok(FileAction::CreateDirectory)
    } else {
        Err(FileActionError::UnknownAction)
    }
}

/// What decoding a text as standard base64 yields: the decoded bytes, or
/// nothing for text that is not well-formed base64. The decoding is a
/// function of the text alone.
pub uninterp spec fn standard_base64_decoding(s: Seq<char>) -> Option<Seq<u8>>;

/// Relies on base64's `Engine::decode` with the standard alphabet and
/// padding: decodes the text, or fails exactly on text that is not
/// well-formed base64; the result depends on the text alone.
#[verifier::external_body]
fn base64_decode(s: &str) -> (r: Option<Vec<u8>>)
    ensures
        match r {
            Some(v) => standard_base64_decoding(s@) == Some(v@),
            None => standard_base64_decoding(s@) is None,
        },
{
    match base64::engine::general_purpose::STANDARD.decode(s) {
        Ok(v) => Some(v),
        Err(_) => None,
    }
}

/// Decode a server icon, which the upstream hands over as standard base64.
pub fn decode_server_icon(icon: &str) -> (r: Option<Vec<u8>>)
    ensures
        match r {
            Some(v) => standard_base64_decoding(icon@) == Some(v@),
            None => standard_base64_decoding(icon@) is None,
        },
{
    base64_decode(icon)
}

/// The bytes a download serves: the content's own bytes, or, where the
/// upstream marked the content as base64, its decoding; `None` exactly when
/// such marked content is not well-formed base64.
pub fn decode_download(content: &str, is_base64: bool) -> (r: Option<Vec<u8>>)
    ensures
        is_base64 ==> match r {
            Some(v) => standard_base64_decoding(content@) == Some(v@),
            None => standard_base64_decoding(content@) is None,
        },
        !is_base64 ==> (r matches Some(v) && v@ == content.spec_bytes()),
{
    if is_base64 {
        base64_decode(content)
    } else {
        Some(content.as_bytes_vec())
    }
}

} // verus!
