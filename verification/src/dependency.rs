//! Dependency records and their canonical byte encoding. One record maps to
//! exactly one byte sequence, so equal records always produce the same leaf
//! digest, and a change to any single field changes the encoding.

use crate::hashing::sha256_of;
use vstd::prelude::*;
use vstd::utf8::encode_utf8;

verus! {

/// Byte that separates the encoded fields: an ASCII colon.
pub const FIELD_SEPARATOR: u8 = 58;

/// One dependency record from a lockfile: a package name and version, with
/// the package manager's integrity digest and the resolved source location
/// when they are known.
#[derive(Debug, Clone, PartialEq, Eq, Hash)]
pub struct Dependency {
    pub name: String,
    pub version: String,
    pub integrity: Option<String>,
    pub resolved: Option<String>,
}

/// Bytes contributed by an optional field: nothing when the field is absent,
/// a separator followed by the field's UTF-8 bytes when it is present.
pub open spec fn optional_field_bytes(field: Option<String>) -> Seq<u8> {
    match field {
        Some(text) => seq![FIELD_SEPARATOR] + encode_utf8(text@),
        None => seq![],
    }
}

/// Canonical encoding of a dependency record: the name and version joined by
/// a colon, then a colon and the integrity field when present, then a colon
/// and the resolved field when present.
pub open spec fn canonical_bytes(dep: Dependency) -> Seq<u8> {
    encode_utf8(dep.name@) + seq![FIELD_SEPARATOR] + encode_utf8(dep.version@)
        + optional_field_bytes(dep.integrity) + optional_field_bytes(dep.resolved)
}

/// Leaf digest of a dependency record: the hash of its canonical encoding.
pub open spec fn leaf_hash_of(dep: Dependency) -> Seq<u8> {
    sha256_of(canonical_bytes(dep))
}

/// Whether two optional fields hold the same text: both absent, or both
/// present with equal character sequences.
pub open spec fn same_optional(a: Option<String>, b: Option<String>) -> bool {
    match (a, b) {
        (Option::None, Option::None) => true,
        (Option::Some(x), Option::Some(y)) => x@ == y@,
        _ => false,
    }
}

/// Hashing is deterministic: the leaf digest depends on the text of the
/// record's fields alone, so two records holding the same text have the same
/// digest, whenever and wherever they are hashed.
pub proof fn lemma_leaf_digest_determined_by_fields(d1: Dependency, d2: Dependency)
    requires
        d1.name@ == d2.name@,
        d1.version@ == d2.version@,
        same_optional(d1.integrity, d2.integrity),
        same_optional(d1.resolved, d2.resolved),
    ensures
        leaf_hash_of(d1) == leaf_hash_of(d2),
{
    lemma_same_optional_bytes(d1.integrity, d2.integrity);
    lemma_same_optional_bytes(d1.resolved, d2.resolved);
}

/// UTF-8 encoding maps distinct character sequences to distinct byte
/// sequences: decoding the encoding gives the characters back.
pub proof fn lemma_encode_utf8_injective(x: Seq<char>, y: Seq<char>)
    requires
        encode_utf8(x) == encode_utf8(y),
    ensures
        x == y,
{
    vstd::utf8::encode_utf8_decode_utf8(x);
    vstd::utf8::encode_utf8_decode_utf8(y);
}

/// A byte sequence determines the segment between a fixed prefix and a fixed
/// suffix: if two such sequences are equal, the segments in the middle are
/// equal too.
proof fn lemma_infix_cancel(prefix: Seq<u8>, a: Seq<u8>, b: Seq<u8>, tail: Seq<u8>)
    requires
        prefix + a + tail == prefix + b + tail,
    ensures
        a == b,
{
    assert((prefix + a).len() == prefix.len() + a.len());
    assert((prefix + a + tail).len() == prefix.len() + a.len() + tail.len());
    assert((prefix + b).len() == prefix.len() + b.len());
    assert((prefix + b + tail).len() == prefix.len() + b.len() + tail.len());
    assert(a.len() == b.len());
    let plen = prefix.len() as int;
    assert(a =~= (prefix + a + tail).subrange(plen, plen + a.len()));
    assert(b =~= (prefix + b + tail).subrange(plen, plen + b.len()));
}

/// Fields present on both sides with equal text contribute equal bytes.
proof fn lemma_same_optional_bytes(a: Option<String>, b: Option<String>)
    requires
        same_optional(a, b),
    ensures
        optional_field_bytes(a) == optional_field_bytes(b),
{
}

/// Records that differ in the name alone have different canonical encodings.
pub proof fn lemma_encoding_sensitive_to_name(d1: Dependency, d2: Dependency)
    requires
        d1.name@ != d2.name@,
        d1.version@ == d2.version@,
        same_optional(d1.integrity, d2.integrity),
        same_optional(d1.resolved, d2.resolved),
    ensures
        canonical_bytes(d1) != canonical_bytes(d2),
{
    if canonical_bytes(d1) == canonical_bytes(d2) {
        lemma_same_optional_bytes(d1.integrity, d2.integrity);
        lemma_same_optional_bytes(d1.resolved, d2.resolved);
        let tail = seq![FIELD_SEPARATOR] + encode_utf8(d1.version@) + optional_field_bytes(
            d1.integrity,
        ) + optional_field_bytes(d1.resolved);
        assert(canonical_bytes(d1) =~= Seq::<u8>::empty() + encode_utf8(d1.name@) + tail);
        assert(canonical_bytes(d2) =~= Seq::<u8>::empty() + encode_utf8(d2.name@) + tail);
        lemma_infix_cancel(Seq::<u8>::empty(), encode_utf8(d1.name@), encode_utf8(d2.name@), tail);
        lemma_encode_utf8_injective(d1.name@, d2.name@);
    }
}

/// Records that differ in the version alone have different canonical
/// encodings.
pub proof fn lemma_encoding_sensitive_to_version(d1: Dependency, d2: Dependency)
    requires
        d1.name@ == d2.name@,
        d1.version@ != d2.version@,
        same_optional(d1.integrity, d2.integrity),
        same_optional(d1.resolved, d2.resolved),
    ensures
        canonical_bytes(d1) != canonical_bytes(d2),
{
    if canonical_bytes(d1) == canonical_bytes(d2) {
        lemma_same_optional_bytes(d1.integrity, d2.integrity);
        lemma_same_optional_bytes(d1.resolved, d2.resolved);
        let prefix = encode_utf8(d1.name@) + seq![FIELD_SEPARATOR];
        let tail = optional_field_bytes(d1.integrity) + optional_field_bytes(d1.resolved);
        assert(canonical_bytes(d1) =~= prefix + encode_utf8(d1.version@) + tail);
        assert(canonical_bytes(d2) =~= prefix + encode_utf8(d2.version@) + tail);
        lemma_infix_cancel(prefix, encode_utf8(d1.version@), encode_utf8(d2.version@), tail);
        lemma_encode_utf8_injective(d1.version@, d2.version@);
    }
}

/// Records that differ in the integrity field alone have different canonical
/// encodings: presence changes the length, and present values that differ
/// change the bytes.
pub proof fn lemma_encoding_sensitive_to_integrity(d1: Dependency, d2: Dependency)
    requires
        d1.name@ == d2.name@,
        d1.version@ == d2.version@,
        !same_optional(d1.integrity, d2.integrity),
        same_optional(d1.resolved, d2.resolved),
    ensures
        canonical_bytes(d1) != canonical_bytes(d2),
{
    lemma_same_optional_bytes(d1.resolved, d2.resolved);
    match (d1.integrity, d2.integrity) {
        (Option::Some(x), Option::Some(y)) => {
            if canonical_bytes(d1) == canonical_bytes(d2) {
                let prefix = encode_utf8(d1.name@) + seq![FIELD_SEPARATOR] + encode_utf8(
                    d1.version@,
                ) + seq![FIELD_SEPARATOR];
                let tail = optional_field_bytes(d1.resolved);
                assert(canonical_bytes(d1) =~= prefix + encode_utf8(x@) + tail);
                assert(canonical_bytes(d2) =~= prefix + encode_utf8(y@) + tail);
                lemma_infix_cancel(prefix, encode_utf8(x@), encode_utf8(y@), tail);
                lemma_encode_utf8_injective(x@, y@);
            }
        },
        _ => {
            assert(canonical_bytes(d1).len() != canonical_bytes(d2).len());
        },
    }
}

/// Records that differ in the resolved field alone have different canonical
/// encodings: presence changes the length, and present values that differ
/// change the bytes.
pub proof fn lemma_encoding_sensitive_to_resolved(d1: Dependency, d2: Dependency)
    requires
        d1.name@ == d2.name@,
        d1.version@ == d2.version@,
        same_optional(d1.integrity, d2.integrity),
        !same_optional(d1.resolved, d2.resolved),
    ensures
        canonical_bytes(d1) != canonical_bytes(d2),
{
    lemma_same_optional_bytes(d1.integrity, d2.integrity);
    match (d1.resolved, d2.resolved) {
        (Option::Some(x), Option::Some(y)) => {
            if canonical_bytes(d1) == canonical_bytes(d2) {
                let prefix = encode_utf8(d1.name@) + seq![FIELD_SEPARATOR] + encode_utf8(
                    d1.version@,
                ) + optional_field_bytes(d1.integrity) + seq![FIELD_SEPARATOR];
                let tail = Seq::<u8>::empty();
                assert(canonical_bytes(d1) =~= prefix + encode_utf8(x@) + tail);
                assert(canonical_bytes(d2) =~= prefix + encode_utf8(y@) + tail);
                lemma_infix_cancel(prefix, encode_utf8(x@), encode_utf8(y@), tail);
                lemma_encode_utf8_injective(x@, y@);
            }
        },
        _ => {
            assert(canonical_bytes(d1).len() != canonical_bytes(d2).len());
        },
    }
}

} // verus!
