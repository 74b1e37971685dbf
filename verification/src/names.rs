//! Naming rules for artifact files: compressed-name stripping, delta
//! file names, and the cache location of uncompressed images.
//!
//! All rules are pure functions of the file name. A name ends in a
//! compression suffix (`.xz` or `.gz`) exactly when the artifact is
//! stored compressed; its extension is whatever follows the last dot
//! beyond the first character.

use vstd::prelude::*;

use vstd::string::StrSliceExecFns;
use vstd::string::StringExecFns;

verus! {

/// Strip `suffix` from the end of `s`, if present.
pub open spec fn strip_suffix_spec(s: Seq<char>, suffix: Seq<char>) -> Option<Seq<char>> {
    if s.len() >= suffix.len() && s.skip(s.len() - suffix.len()) == suffix {
        Some(s.take(s.len() - suffix.len()))
    } else {
        None
    }
}

/// The name with a `.xz` or `.gz` suffix removed, if one is present
/// (`.xz` is tested first, as compressed artifacts use it).
pub open spec fn maybe_uncompressed_spec(s: Seq<char>) -> Option<Seq<char>> {
    match strip_suffix_spec(s, ".xz"@) {
        Some(b) => Some(b),
        None => strip_suffix_spec(s, ".gz"@),
    }
}

/// The name a compressed artifact has once uncompressed; a name with
/// no compression suffix stands for itself.
pub open spec fn uncompressed_spec(s: Seq<char>) -> Seq<char> {
    match maybe_uncompressed_spec(s) {
        Some(b) => b,
        None => s,
    }
}

/// Whether the last `suffix.len()` characters of `s` equal `suffix`.
fn ends_with(s: &str, suffix: &str) -> (r: bool)
    ensures
        r == (s@.len() >= suffix@.len() && s@.skip(s@.len() - suffix@.len()) == suffix@),
{
    let n = s.unicode_len();
    let m = suffix.unicode_len();
    if n < m {
        return false;
    }
    let tail = s.substring_char(n - m, n);
    proof {
        assert(tail@ =~= s@.skip(s@.len() - suffix@.len()));
    }
    str_eq(tail, suffix)
}

/// Character-for-character string equality.
pub fn str_eq(a: &str, b: &str) -> (r: bool)
    ensures
        r == (a@ == b@),
{
    let n = a.unicode_len();
    if n != b.unicode_len() {
        proof {
            assert(a@.len() != b@.len());
        }
        return false;
    }
    let mut i: usize = 0;
    while i < n
        invariant
            i <= n,
            n == a@.len(),
            n == b@.len(),
            forall|k: int| 0 <= k < i ==> a@[k] == b@[k],
        decreases n - i,
    {
        if a.get_char(i) != b.get_char(i) {
            proof {
                assert(a@[i as int] != b@[i as int]);
            }
            return false;
        }
        i = i + 1;
    }
    proof {
        assert(a@ =~= b@);
    }
    true
}

/// Strip a compression suffix (`.xz`, then `.gz`) from a file name.
pub fn maybe_uncompressed_name<'a>(s: &'a str) -> (r: Option<&'a str>)
    ensures
        match r {
            Some(b) => maybe_uncompressed_spec(s@) == Some(b@),
            None => maybe_uncompressed_spec(s@) is None,
        },
{
    proof {
        reveal_strlit(".xz");
        reveal_strlit(".gz");
    }
    if ends_with(s, ".xz") || ends_with(s, ".gz") {
        let n = s.unicode_len();
        let b = s.substring_char(0, n - 3);
        proof {
            assert(".xz"@.len() == 3 && ".gz"@.len() == 3);
            assert(b@ =~= s@.take(s@.len() - 3));
        }
        Some(b)
    } else {
        None
    }
}

/// The file name an artifact has once uncompressed.
pub fn uncompressed_name<'a>(s: &'a str) -> (r: &'a str)
    ensures
        r@ == uncompressed_spec(s@),
{
    match maybe_uncompressed_name(s) {
        Some(b) => b,
        None => s,
    }
}

/// Name of the delta file that rehydrates an artifact.
pub fn rdelta_name(artifact_filename: &str) -> (r: String)
    ensures
        r@ == uncompressed_spec(artifact_filename@) + ".rdelta"@,
{
    let base = uncompressed_name(artifact_filename);
    let mut r = base.to_owned();
    r.append(".rdelta");
    r
}

/// Name of the delta file that rehydrates an OVA artifact.
pub fn ova_rdelta_name(artifact_filename: &str) -> (r: String)
    ensures
        r@ == uncompressed_spec(artifact_filename@) + ".ova-rdelta"@,
{
    let base = uncompressed_name(artifact_filename);
    let mut r = base.to_owned();
    r.append(".ova-rdelta");
    r
}

/// Position of the last dot of `s` at or before `i`, ignoring a dot at
/// the very start (a leading dot marks a hidden name, not an
/// extension).
pub open spec fn last_dot_from(s: Seq<char>, i: int) -> Option<int>
    decreases i + 1,
{
    if i < 1 || i >= s.len() {
        None
    } else if s[i] == '.' {
        Some(i)
    } else {
        last_dot_from(s, i - 1)
    }
}

/// Position of the dot starting the extension of `s`, if any.
pub open spec fn last_dot(s: Seq<char>) -> Option<int> {
    last_dot_from(s, s.len() - 1)
}

/// The extension of a file name: the characters after its last dot.
pub open spec fn extension_spec(s: Seq<char>) -> Option<Seq<char>> {
    match last_dot(s) {
        Some(i) => Some(s.skip(i + 1)),
        None => None,
    }
}

/// Position of the dot starting the extension, if any.
pub fn last_dot_pos(s: &str) -> (r: Option<usize>)
    ensures
        match r {
            Some(i) => 1 <= i < s@.len() && last_dot(s@) == Some(i as int),
            None => last_dot(s@) is None,
        },
{
    let n = s.unicode_len();
    if n < 2 {
        proof {
            if n == 1 {
                assert(last_dot_from(s@, 0) is None);
            }
        }
        return None;
    }
    let mut i: usize = n - 1;
    loop
        invariant
            1 <= i < n,
            n == s@.len(),
            last_dot(s@) == last_dot_from(s@, i as int),
        decreases i,
    {
        if s.get_char(i) == '.' {
            return Some(i);
        }
        if i == 1 {
            proof {
                assert(last_dot_from(s@, 1) is None);
            }
            return None;
        }
        i = i - 1;
    }
}

/// The extension of a file name, if it has one.
pub fn extension<'a>(s: &'a str) -> (r: Option<&'a str>)
    ensures
        match r {
            Some(e) => extension_spec(s@) == Some(e@),
            None => extension_spec(s@) is None,
        },
{
    let n = s.unicode_len();
    match last_dot_pos(s) {
        Some(i) => {
            let e = s.substring_char(i + 1, n);
            proof {
                assert(e@ =~= s@.skip(i + 1));
            }
            Some(e)
        },
        None => None,
    }
}

/// Where a compressed artifact's uncompressed image is cached, if the
/// artifact is compressed at all, and whether the cached image must be
/// converted: a VMDK is cached as the qcow2 it converts to.
pub open spec fn cached_name_spec(s: Seq<char>) -> Option<(Seq<char>, bool)> {
    match maybe_uncompressed_spec(s) {
        None => None,
        Some(un) => {
            let p = "dehydrate-cache/"@ + un;
            if extension_spec(p) == Some("vmdk"@) {
                Some((p.take(last_dot(p).unwrap()) + ".qcow2"@, true))
            } else {
                Some((p, false))
            }
        },
    }
}

/// The cache path of an artifact's uncompressed image, with the flag
/// saying whether a VMDK-to-qcow2 conversion produces it.
pub fn cached_uncompressed_name(artifact_filename: &str) -> (r: Option<(String, bool)>)
    ensures
        match r {
            Some(p) => cached_name_spec(artifact_filename@) == Some((p.0@, p.1)),
            None => cached_name_spec(artifact_filename@) is None,
        },
{
    proof {
        reveal_strlit("dehydrate-cache/");
        reveal_strlit("vmdk");
        reveal_strlit(".qcow2");
    }
    match maybe_uncompressed_name(artifact_filename) {
        None => None,
        Some(un) => {
            let mut p = "dehydrate-cache/".to_owned();
            p.append(un);
            let ghost pv = p@;
            let is_vmdk = match extension(p.as_str()) {
                Some(e) => str_eq(e, "vmdk"),
                None => false,
            };
            if is_vmdk {
                match last_dot_pos(p.as_str()) {
                    Some(i) => {
                        let mut q = p.as_str().substring_char(0, i).to_owned();
                        q.append(".qcow2");
                        proof {
                            assert(q@ =~= pv.take(last_dot(pv).unwrap()) + ".qcow2"@);
                        }
                        Some((q, true))
                    },
                    None => {
                        proof {
                            assert(false);
                        }
                        None
                    },
                }
            } else {
                Some((p, false))
            }
        },
    }
}

/// The compression container a compressed artifact uses.
#[derive(Clone, Copy, PartialEq, Eq, Structural, Debug)]
pub enum CompressionKind {
    Xz,
    Gz,
}

/// Why a name names no known compression container.
#[derive(Clone, Copy, PartialEq, Eq, Structural, Debug)]
pub enum CompressionError {
    /// The extension names no known container.
    UnknownExtension,
    /// The name has no extension at all.
    NoExtension,
}

/// The container the file name's extension announces.
pub open spec fn compression_kind_spec(s: Seq<char>) -> Result<CompressionKind, CompressionError> {
    match extension_spec(s) {
        Some(e) => if e == "xz"@ {
            Ok(CompressionKind::Xz)
        } else if e == "gz"@ {
            Ok(CompressionKind::Gz)
        } else {
            Err(CompressionError::UnknownExtension)
        },
        None => Err(CompressionError::NoExtension),
    }
}

/// Decide which decompressor a compressed artifact needs, from its file
/// name alone.
pub fn compression_kind(name: &str) -> (r: Result<CompressionKind, CompressionError>)
    ensures
        r == compression_kind_spec(name@),
{
    proof {
        reveal_strlit("xz");
        reveal_strlit("gz");
    }
    match extension(name) {
        Some(e) => {
            if str_eq(e, "xz") {
                Ok(CompressionKind::Xz)
            } else if str_eq(e, "gz") {
                Ok(CompressionKind::Gz)
            } else {
                Err(CompressionError::UnknownExtension)
            }
        },
        None => Err(CompressionError::NoExtension),
    }
}

} // verus!
