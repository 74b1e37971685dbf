//! Tests of the artifact naming rules and the stream-id URLs.

use rehydrator::names::{
    cached_uncompressed_name, compression_kind, extension, maybe_uncompressed_name,
    ova_rdelta_name, rdelta_name, uncompressed_name, CompressionError, CompressionKind,
};
use rehydrator::streams::{stream_url_from_id, StreamIdError};

#[test]
fn test_strip_suffix() {
    assert_eq!(uncompressed_name("foo.xz"), "foo");
}

#[test]
fn uncompressed_name_rules() {
    assert_eq!(uncompressed_name("foo.gz"), "foo");
    assert_eq!(uncompressed_name("foo"), "foo");
    assert_eq!(uncompressed_name("foo.zst"), "foo.zst");
    assert_eq!(maybe_uncompressed_name("disk.qcow2.xz"), Some("disk.qcow2"));
    assert_eq!(maybe_uncompressed_name("disk.qcow2"), None);
    assert_eq!(maybe_uncompressed_name(".xz"), Some(""));
}

#[test]
fn extension_rules() {
    assert_eq!(extension("disk.vmdk"), Some("vmdk"));
    assert_eq!(extension("a.b.c"), Some("c"));
    assert_eq!(extension("noext"), None);
    assert_eq!(extension(".hidden"), None);
    assert_eq!(extension("x."), Some(""));
}

#[test]
fn delta_file_names() {
    assert_eq!(rdelta_name("disk.qcow2.xz"), "disk.qcow2.rdelta");
    assert_eq!(rdelta_name("disk.raw"), "disk.raw.rdelta");
    assert_eq!(ova_rdelta_name("image.ova"), "image.ova.ova-rdelta");
}

#[test]
fn cache_names() {
    assert_eq!(
        cached_uncompressed_name("disk.vmdk.xz"),
        Some(("dehydrate-cache/disk.qcow2".to_string(), true))
    );
    assert_eq!(
        cached_uncompressed_name("disk.qcow2.gz"),
        Some(("dehydrate-cache/disk.qcow2".to_string(), false))
    );
    assert_eq!(cached_uncompressed_name("plain.img"), None);
}

#[test]
fn compression_kinds() {
    assert_eq!(compression_kind("disk.img.xz"), Ok(CompressionKind::Xz));
    assert_eq!(compression_kind("disk.img.gz"), Ok(CompressionKind::Gz));
    assert_eq!(
        compression_kind("disk.img.zst"),
        Err(CompressionError::UnknownExtension)
    );
    assert_eq!(compression_kind("disk"), Err(CompressionError::NoExtension));
}

#[test]
fn test_stream_url() {
    assert_eq!(
        stream_url_from_id("fcos-stable").unwrap(),
        coreos_stream_metadata::fcos::StreamID::Stable.url()
    );
    assert_eq!(
        stream_url_from_id("rhcos-4.8").unwrap(),
        coreos_stream_metadata::rhcos::StreamID::FourEight.url()
    );

    let invalid = &[
        "",
        "fcos",
        "moo",
        "rhcos",
        "fcos-",
        "-fcos",
        "fcos-blah",
        "fcos-blah-whee",
    ];
    for &elt in invalid {
        assert!(stream_url_from_id(elt).is_err());
    }
}

#[test]
fn stream_url_error_variants() {
    assert_eq!(
        stream_url_from_id("fcosstable"),
        Err(StreamIdError::MissingSeparator)
    );
    assert_eq!(
        stream_url_from_id("debian-stable"),
        Err(StreamIdError::UnknownDistro)
    );
    assert_eq!(
        stream_url_from_id("fcos-yesterday"),
        Err(StreamIdError::UnknownStream)
    );
    assert_eq!(
        stream_url_from_id("rhcos-4.7"),
        Err(StreamIdError::UnknownStream)
    );
    assert_eq!(
        stream_url_from_id("fcos-testing").unwrap(),
        coreos_stream_metadata::fcos::StreamID::Testing.url()
    );
    assert_eq!(
        stream_url_from_id("rhcos-4.10").unwrap(),
        coreos_stream_metadata::rhcos::StreamID::FourTen.url()
    );
}
