//! Stream identifiers: map a combined id such as `fcos-stable` or
//! `rhcos-4.8` to the distribution's stream-metadata URL.
//!
//! The id is `<distro>-<stream>`, split at the first dash. The known
//! distributions are `fcos` and `rhcos`; their stream names and URLs
//! come from the stream-metadata crate, relied on through the trusted
//! declarations below.

use vstd::prelude::*;

use vstd::string::StrSliceExecFns;

use crate::names::str_eq;

verus! {

#[verifier::external_type_specification]
pub struct ExFcosStreamID(coreos_stream_metadata::fcos::StreamID);

#[verifier::external_type_specification]
pub struct ExRhcosStreamID(coreos_stream_metadata::rhcos::StreamID);

/// Why a stream id does not name a stream URL.
#[derive(Clone, Copy, PartialEq, Eq, Structural, Debug)]
pub enum StreamIdError {
    /// The id has no dash separating distribution from stream.
    MissingSeparator,
    /// The part before the first dash names no known distribution.
    UnknownDistro,
    /// The part after the first dash names no stream of the
    /// distribution.
    UnknownStream,
}

/// The Fedora CoreOS stream a name designates.
pub open spec fn fcos_stream_of(s: Seq<char>) -> Option<
    coreos_stream_metadata::fcos::StreamID,
> {
    if s == "stable"@ {
        Some(coreos_stream_metadata::fcos::StreamID::Stable)
    } else if s == "testing"@ {
        Some(coreos_stream_metadata::fcos::StreamID::Testing)
    } else if s == "next"@ {
        Some(coreos_stream_metadata::fcos::StreamID::Next)
    } else {
        None
    }
}

/// The RHEL CoreOS stream a name designates.
pub open spec fn rhcos_stream_of(s: Seq<char>) -> Option<
    coreos_stream_metadata::rhcos::StreamID,
> {
    if s == "4.8"@ {
        Some(coreos_stream_metadata::rhcos::StreamID::FourEight)
    } else if s == "4.9"@ {
        Some(coreos_stream_metadata::rhcos::StreamID::FourNine)
    } else if s == "4.10"@ {
        Some(coreos_stream_metadata::rhcos::StreamID::FourTen)
    } else {
        None
    }
}

/// The metadata URL of a Fedora CoreOS stream.
pub open spec fn fcos_url_of(id: coreos_stream_metadata::fcos::StreamID) -> Seq<char> {
    match id {
        coreos_stream_metadata::fcos::StreamID::Stable => {
            "https://builds.coreos.fedoraproject.org/streams/stable.json"@
        },
        coreos_stream_metadata::fcos::StreamID::Testing => {
            "https://builds.coreos.fedoraproject.org/streams/testing.json"@
        },
        coreos_stream_metadata::fcos::StreamID::Next => {
            "https://builds.coreos.fedoraproject.org/streams/next.json"@
        },
    }
}

/// The metadata URL of a RHEL CoreOS stream.
pub open spec fn rhcos_url_of(id: coreos_stream_metadata::rhcos::StreamID) -> Seq<char> {
    match id {
        coreos_stream_metadata::rhcos::StreamID::FourEight => {
            "https://raw.githubusercontent.com/openshift/installer/release-4.8/data/data/rhcos-stream.json"@
        },
        coreos_stream_metadata::rhcos::StreamID::FourNine => {
            "https://raw.githubusercontent.com/openshift/installer/release-4.9/data/data/rhcos-stream.json"@
        },
        coreos_stream_metadata::rhcos::StreamID::FourTen => {
            "https://raw.githubusercontent.com/openshift/installer/release-4.10/data/data/coreos/rhcos.json"@
        },
    }
}

/// Relies on the derived string parse of `fcos::StreamID`: exactly
/// `stable`, `testing` and `next` parse, each to its stream.
#[verifier::external_body]
fn fcos_stream_from_str(s: &str) -> (r: Option<coreos_stream_metadata::fcos::StreamID>)
    ensures
        r == fcos_stream_of(s@),
{
    <coreos_stream_metadata::fcos::StreamID as core::str::FromStr>::from_str(s).ok()
}

/// Relies on the derived string parse of `rhcos::StreamID`: exactly
/// `4.8`, `4.9` and `4.10` parse, each to its stream.
#[verifier::external_body]
fn rhcos_stream_from_str(s: &str) -> (r: Option<coreos_stream_metadata::rhcos::StreamID>)
    ensures
        r == rhcos_stream_of(s@),
{
    <coreos_stream_metadata::rhcos::StreamID as core::str::FromStr>::from_str(s).ok()
}

/// Relies on `fcos::StreamID::url`: the stream's name interpolated into
/// the Fedora CoreOS streams base URL.
#[verifier::external_body]
fn fcos_stream_url(id: coreos_stream_metadata::fcos::StreamID) -> (r: String)
    ensures
        r@ == fcos_url_of(id),
{
    id.url()
}

/// Relies on `rhcos::StreamID::url`: the stream's pinned path under the
/// OpenShift installer repository.
#[verifier::external_body]
fn rhcos_stream_url(id: coreos_stream_metadata::rhcos::StreamID) -> (r: String)
    ensures
        r@ == rhcos_url_of(id),
{
    id.url()
}

/// Position of the first dash of `s` at or after `i`.
pub open spec fn first_dash_from(s: Seq<char>, i: int) -> Option<int>
    decreases s.len() - i,
{
    if i < 0 || i >= s.len() {
        None
    } else if s[i] == '-' {
        Some(i)
    } else {
        first_dash_from(s, i + 1)
    }
}

/// The stream URL a combined id designates, or the error telling why it
/// designates none.
pub open spec fn stream_url_spec(s: Seq<char>) -> Result<Seq<char>, StreamIdError> {
    match first_dash_from(s, 0) {
        None => Err(StreamIdError::MissingSeparator),
        Some(i) => {
            let distro = s.take(i);
            let stream = s.skip(i + 1);
            if distro == "fcos"@ {
                match fcos_stream_of(stream) {
                    Some(id) => Ok(fcos_url_of(id)),
                    None => Err(StreamIdError::UnknownStream),
                }
            } else if distro == "rhcos"@ {
                match rhcos_stream_of(stream) {
                    Some(id) => Ok(rhcos_url_of(id)),
                    None => Err(StreamIdError::UnknownStream),
                }
            } else {
                Err(StreamIdError::UnknownDistro)
            }
        },
    }
}

/// Convert a combined stream id such as `fcos-stable` or `rhcos-4.8`
/// to the stream's metadata URL. The format is `<distro>-<stream>`.
pub fn stream_url_from_id(s: &str) -> (r: Result<String, StreamIdError>)
    ensures
        match r {
            Ok(u) => stream_url_spec(s@) == Ok::<Seq<char>, StreamIdError>(u@),
            Err(e) => stream_url_spec(s@) == Err::<Seq<char>, StreamIdError>(e),
        },
{
    let n = s.unicode_len();
    let mut i: usize = 0;
    let mut dash: Option<usize> = None;
    while dash.is_none() && i < n
        invariant
            i <= n,
            n == s@.len(),
            match dash {
                Some(d) => d < n && first_dash_from(s@, 0) == Some(d as int),
                None => first_dash_from(s@, 0) == first_dash_from(s@, i as int),
            },
        decreases n - i + (if dash is None {
            1int
        } else {
            0int
        }),
    {
        if s.get_char(i) == '-' {
            dash = Some(i);
        }
        i = i + 1;
    }
    match dash {
        None => Err(StreamIdError::MissingSeparator),
        Some(d) => {
            let distro = s.substring_char(0, d);
            let stream = s.substring_char(d + 1, n);
            proof {
                assert(distro@ =~= s@.take(d as int));
                assert(stream@ =~= s@.skip(d + 1));
                reveal_strlit("fcos");
                reveal_strlit("rhcos");
            }
            if str_eq(distro, "fcos") {
                match fcos_stream_from_str(stream) {
                    Some(id) => Ok(fcos_stream_url(id)),
                    None => Err(StreamIdError::UnknownStream),
                }
            } else if str_eq(distro, "rhcos") {
                match rhcos_stream_from_str(stream) {
                    Some(id) => Ok(rhcos_stream_url(id)),
                    None => Err(StreamIdError::UnknownStream),
                }
            } else {
                Err(StreamIdError::UnknownDistro)
            }
        },
    }
}

} // verus!
