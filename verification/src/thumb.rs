//! The thumbnail cache's pure logic: the content-addressed cache key for a
//! source path, the cached file's name, and the decisions around the
//! bounded-concurrency generation gate.
//!
//! The cache key is a stable 64-bit FNV-1a hash of the path string's UTF-8
//! bytes, rendered as lower-case hexadecimal: the same path always maps to
//! the same cached file, on every run.
use vstd::prelude::*;
use crate::scan::MediaKind;
use vstd::string::StringSliceAdditionalSpecFns;

verus! {

/// One FNV-1a step: fold a byte into the hash.
pub open spec fn fnv1a_step(h: u64, b: u8) -> u64 {
    (((h ^ (b as u64)) as u128 * 0x100_0000_01b3) % 0x1_0000_0000_0000_0000) as u64
}

/// The FNV-1a hash of a byte sequence.
pub open spec fn fnv1a_spec(bytes: Seq<u8>) -> u64
    decreases bytes.len(),
{
    if bytes.len() == 0 {
        0xcbf2_9ce4_8422_2325
    } else {
        fnv1a_step(fnv1a_spec(bytes.drop_last()), bytes.last())
    }
}

/// The hexadecimal digit for one value below 16.
pub open spec fn hex_digit(n: u64) -> char {
    if n == 0 {
        '0'
    } else if n == 1 {
        '1'
    } else if n == 2 {
        '2'
    } else if n == 3 {
        '3'
    } else if n == 4 {
        '4'
    } else if n == 5 {
        '5'
    } else if n == 6 {
        '6'
    } else if n == 7 {
        '7'
    } else if n == 8 {
        '8'
    } else if n == 9 {
        '9'
    } else if n == 10 {
        'a'
    } else if n == 11 {
        'b'
    } else if n == 12 {
        'c'
    } else if n == 13 {
        'd'
    } else if n == 14 {
        'e'
    } else {
        'f'
    }
}

/// A 64-bit value in fixed-width lower-case hexadecimal, most significant
/// digit first.
pub open spec fn hex64_spec(v: u64) -> Seq<char> {
    Seq::new(16, |i: int| hex_digit((v >> ((15 - i) * 4)) as u64 & 0xf))
}

/// The cache key of a source path: the FNV-1a hash of its bytes, in
/// hexadecimal.
pub open spec fn cache_key_spec(bytes: Seq<u8>) -> Seq<char> {
    hex64_spec(fnv1a_spec(bytes))
}

fn fnv1a(bytes: &[u8]) -> (h: u64)
    ensures
        h == fnv1a_spec(bytes@),
{
    let mut h: u64 = 0xcbf2_9ce4_8422_2325;
    let mut i: usize = 0;
    proof {
        assert(bytes@.subrange(0, 0) =~= Seq::<u8>::empty());
    }
    while i < bytes.len()
        invariant
            0 <= i <= bytes@.len(),
            h == fnv1a_spec(bytes@.subrange(0, i as int)),
        decreases bytes@.len() - i,
    {
        proof {
            let pre = bytes@.subrange(0, i as int);
            let post = bytes@.subrange(0, i + 1 as int);
            assert(post.drop_last() =~= pre);
            assert(post.last() == bytes@[i as int]);
        }
        let b = bytes[i];
        let x = h ^ (b as u64);
        let wide: u128 = (x as u128) * 0x100_0000_01b3;
        h = (wide % 0x1_0000_0000_0000_0000) as u64;
        i = i + 1;
    }
    proof {
        assert(bytes@.subrange(0, bytes@.len() as int) =~= bytes@);
    }
    h
}

/// The stable cache key of a source path: a hexadecimal rendering of a
/// 64-bit FNV-1a hash of the path's bytes.
pub fn hash_path(path: &str) -> (r: String)
    ensures
        r@ == cache_key_spec(path.spec_bytes()),
        r@.len() == 16,
{
    let bytes = path.as_bytes();
    let h = fnv1a(bytes);
    let mut out = String::new();
    let mut i: usize = 0;
    while i < 16
        invariant
            0 <= i <= 16,
            out@.len() == i,
            forall|k: int| 0 <= k < i ==> out@[k] == hex64_spec(h)[k],
        decreases 16 - i,
    {
        let shift: u64 = ((15 - i) * 4) as u64;
        let nibble: u64 = (h >> shift) & 0xf;
        let c: char = if nibble == 0 {
            '0'
        } else if nibble == 1 {
            '1'
        } else if nibble == 2 {
            '2'
        } else if nibble == 3 {
            '3'
        } else if nibble == 4 {
            '4'
        } else if nibble == 5 {
            '5'
        } else if nibble == 6 {
            '6'
        } else if nibble == 7 {
            '7'
        } else if nibble == 8 {
            '8'
        } else if nibble == 9 {
            '9'
        } else if nibble == 10 {
            'a'
        } else if nibble == 11 {
            'b'
        } else if nibble == 12 {
            'c'
        } else if nibble == 13 {
            'd'
        } else if nibble == 14 {
            'e'
        } else {
            'f'
        };
        proof {
            assert(hex64_spec(h)[i as int] == hex_digit((h >> ((15 - i) * 4)) as u64 & 0xf));
            assert(shift == (15 - i) * 4);
        }
        crate::strutil::push_char(&mut out, c);
        i = i + 1;
    }
    proof {
        assert(out@ =~= hex64_spec(h));
    }
    out
}

/// The file name of a cached thumbnail: the cache key with a `.jpg`
/// extension.
pub fn thumb_file_name(path: &str) -> (r: String)
    ensures
        r@ == cache_key_spec(path.spec_bytes()) + ".jpg"@,
{
    let key = hash_path(path);
    key.concat(".jpg")
}

/// What a thumbnail request should do next, before the generation gate.
#[derive(Clone, Copy, PartialEq, Eq, Structural, Debug)]
pub enum ThumbAction {
    UseCached,
    SourceMissing,
    Unsupported,
    AcquireAndGenerate,
}

/// The decision before the concurrency gate: an existing thumbnail is
/// reused outright; a missing source is refused, and so is every
/// non-photo media kind.
pub fn thumb_pre_gate(thumb_exists: bool, source_exists: bool, kind: MediaKind) -> (r: ThumbAction)
    ensures
        r == ThumbAction::UseCached <==> thumb_exists,
        r == ThumbAction::SourceMissing <==> (!thumb_exists && !source_exists),
        r == ThumbAction::Unsupported <==> (!thumb_exists && source_exists && kind
            != MediaKind::Photo),
        r == ThumbAction::AcquireAndGenerate <==> (!thumb_exists && source_exists && kind
            == MediaKind::Photo),
{
    if thumb_exists {
        ThumbAction::UseCached
    } else if !source_exists {
        ThumbAction::SourceMissing
    } else if kind != MediaKind::Photo {
        ThumbAction::Unsupported
    } else {
        ThumbAction::AcquireAndGenerate
    }
}

/// Repeats the cache test after waiting.
pub fn thumb_post_gate(thumb_exists: bool) -> (r: ThumbAction)
    ensures
        r == ThumbAction::UseCached <==> thumb_exists,
        r == ThumbAction::AcquireAndGenerate <==> !thumb_exists,
{
    if thumb_exists {
        ThumbAction::UseCached
    } else {
        ThumbAction::AcquireAndGenerate
    }
}

} // verus!
