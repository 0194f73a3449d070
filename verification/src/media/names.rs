//! How codec strings tell what a codec configuration record says.

use crate::bytes;
use crate::media::codec;
use crate::text;
use vstd::prelude::*;

verus! {

/// Whether the record behind a code is found: a box with that code that fits, and no earlier one
/// that does.
pub open spec fn record_found(p: Seq<u8>, code: Seq<u8>, from: int, record: Seq<u8>) -> bool {
    exists|at: int| #[trigger] record_at(p, code, at, record) && from <= at && forall|k: int|
        from <= k < at ==> !(#[trigger] fits_at(p, code, k))
}

/// Whether a whole box with a code stands at a place.
pub open spec fn fits_at(p: Seq<u8>, code: Seq<u8>, at: int) -> bool {
    &&& 0 <= at
    &&& at + 8 <= p.len()
    &&& p.subrange(at + 4, at + 8) == code
    &&& 8 <= bytes::be32(p, at)
    &&& at + bytes::be32(p, at) <= p.len()
}

/// Whether the content of such a box is a record.
pub open spec fn record_at(p: Seq<u8>, code: Seq<u8>, at: int, record: Seq<u8>) -> bool {
    fits_at(p, code, at) && record == p.subrange(at + 8, at + bytes::be32(p, at))
}

/// The configuration of a sample entry is the content of the first whole box with its code.
pub proof fn configurations_are_the_first_that_fit(p: Seq<u8>, code: Seq<u8>, from: int)
    requires
        0 <= from,
    ensures
        match codec::config_box(p, from, code) {
            Some(record) => record_found(p, code, from, record),
            None => forall|k: int| from <= k ==> !(#[trigger] fits_at(p, code, k)),
        },
    decreases p.len() - from,
{
    if from + 8 <= p.len() {
        if fits_at(p, code, from) {
            let record = p.subrange(from + 8, from + bytes::be32(p, from));
            assert(record_at(p, code, from, record));
        } else {
            configurations_are_the_first_that_fit(p, code, from + 1);
            match codec::config_box(p, from, code) {
                Some(record) => {
                    let at = choose|at: int| #[trigger]
                        record_at(p, code, at, record) && from + 1 <= at && forall|k: int|
                            from + 1 <= k < at ==> !(#[trigger] fits_at(p, code, k));
                    assert(record_at(p, code, at, record));
                },
                None => {},
            }
        }
    }
}

/// The letter of an HEVC profile space.
pub open spec fn space_letter(space: nat) -> Seq<char> {
    if space == 0 {
        Seq::empty()
    } else {
        seq![('A' as int + space - 1) as char]
    }
}

/// The HEVC record's second byte: profile space, tier and profile.
pub open spec fn profile_byte(space: nat, high: bool, profile: nat) -> nat {
    64 * space + (if high {
        32nat
    } else {
        0nat
    }) + profile
}

/// An HEVC codec string names the profile space, the profile, the compatibility flags, the tier
/// and the level of the record, then its constraint bytes up to the last that is not zero.
#[verifier::rlimit(40)]
pub proof fn hevc_strings_tell_the_record(
    prefix: Seq<char>,
    p: Seq<u8>,
    c: Seq<u8>,
    space: nat,
    high: bool,
    profile: nat,
    last: nat,
)
    requires
        codec::config_box(p, 0, codec::hvcc_code()) == Some(c),
        c.len() >= 13,
        space < 4,
        profile < 32,
        c[1] == profile_byte(space, high, profile),
        last <= 6,
        last > 0 ==> c[5 + last as int] != 0,
        forall|i: int| 6 + last <= i < 12 ==> #[trigger] c[i] == 0,
    ensures
        codec::hevc_codec(prefix, p) == prefix + "."@ + space_letter(space) + text::dec(profile)
            + "."@ + text::hex_upper(bytes::be32(c, 2) as nat) + "."@ + (if high {
            "H"@
        } else {
            "L"@
        }) + text::dec(c[12] as nat) + "."@ + codec::dotted_hex(c.subrange(6, 12), last),
{
    reveal_strlit("A");
    reveal_strlit("B");
    reveal_strlit("C");
    reveal_strlit("");
    let b = c[1];
    assert(b as int / 64 == space);
    assert((b % 32) as nat == profile);
    assert(((b / 32) % 2 == 1) == high);
    assert(codec::space_prefix(space as int) =~= space_letter(space));
    let flags = c.subrange(6, 12);
    assert forall|i: int| last <= i < 6 implies #[trigger] flags[i] == 0 by {
        assert(flags[i] == c[6 + i]);
    }
    if last > 0 {
        assert(flags[last - 1] == c[5 + last as int]);
    }
    lemma_trimmed(flags, last, 6);
}

proof fn lemma_trimmed(s: Seq<u8>, last: nat, n: nat)
    requires
        last <= n <= s.len(),
        last > 0 ==> s[last - 1] != 0,
        forall|i: int| last <= i < n ==> #[trigger] s[i] == 0,
    ensures
        codec::trimmed_len(s, n) == last,
    decreases n,
{
    if n > last {
        assert(s[n - 1] == 0);
        lemma_trimmed(s, last, (n - 1) as nat);
    }
}

/// A VP9 codec string names profile, level and bit depth, the depth from the upper half of its
/// byte.
pub proof fn vp9_strings_tell_the_record(p: Seq<u8>, c: Seq<u8>, depth: nat, rest: nat)
    requires
        codec::config_box(p, 0, codec::vpcc_code()) == Some(c),
        c.len() >= 8,
        rest < 16,
        c[6] == 16 * depth + rest,
    ensures
        codec::vp9_codec(p) == "vp09."@ + text::dec_padded(c[4] as nat, 2) + "."@
            + text::dec_padded(c[5] as nat, 2) + "."@ + text::dec_padded(depth, 2),
{
    assert((c[6] / 16) as nat == depth);
}

/// An AV1 codec string names profile, level, tier and bit depth of the record.
pub proof fn av1_strings_tell_the_record(
    p: Seq<u8>,
    c: Seq<u8>,
    profile: nat,
    level: nat,
    high: bool,
    deep: bool,
    twelve: bool,
    rest: nat,
)
    requires
        codec::config_box(p, 0, codec::av1c_code()) == Some(c),
        c.len() >= 4,
        profile < 8,
        level < 32,
        rest < 32,
        c[1] == 32 * profile + level,
        c[2] == (if high {
            128int
        } else {
            0
        }) + (if deep {
            64int
        } else {
            0
        }) + (if twelve {
            32int
        } else {
            0
        }) + rest,
    ensures
        codec::av1_codec(p) == "av01."@ + text::dec(profile) + "."@ + text::dec_padded(level, 2) + (
        if high {
            "H"@
        } else {
            "M"@
        }) + "."@ + text::dec_padded(
            if !deep {
                8
            } else if twelve {
                12
            } else {
                10
            },
            2,
        ),
{
    assert((c[1] / 32) as nat == profile);
    assert((c[1] % 32) as nat == level);
    assert((c[2] >= 128) == high);
    assert(((c[2] / 64) % 2 == 1) == deep);
    assert(((c[2] / 32) % 2 == 1) == twelve);
}

/// An AVC codec string names profile, constraints and level of the record.
pub proof fn avc_strings_tell_the_record(prefix: Seq<char>, p: Seq<u8>, c: Seq<u8>)
    requires
        codec::config_box(p, 0, codec::avcc_code()) == Some(c),
        c.len() >= 4,
    ensures
        codec::avc_codec(prefix, p) == prefix + "."@ + text::hex2(c[1]) + text::hex2(c[2])
            + text::hex2(c[3]),
{
}

/// The audio object type of a descriptor with a size in one byte: five bits, or six more where
/// these are all ones.
pub proof fn descriptors_name_the_object_type(
    before: Seq<u8>,
    size: u8,
    kind: nat,
    low: nat,
    after: Seq<u8>,
)
    requires
        before.len() >= 4,
        forall|i: int| 4 <= i < before.len() ==> #[trigger] before[i] != 5,
        0 < size < 128,
        kind < 96,
        low < (if kind < 31 {
            8nat
        } else {
            32nat
        }),
        kind != 31,
    ensures
        codec::esds_object_type(
            before + seq![5u8, size] + (if kind < 31 {
                seq![(8 * kind + low) as u8]
            } else {
                seq![(248 + (kind - 32) / 8) as u8, (32 * ((kind - 32) % 8) + low) as u8]
            }) + after,
        ) == Some(kind as u8),
{
    let tail = if kind < 31 {
        seq![(8 * kind + low) as u8]
    } else {
        seq![(248 + (kind - 32) / 8) as u8, (32 * ((kind - 32) % 8) + low) as u8]
    };
    let s = before + seq![5u8, size] + tail + after;
    let d = s.skip(4);
    let n = before.len() - 4;
    assert forall|i: int| 0 <= i < n implies #[trigger] d[i] != 5 by {
        assert(d[i] == before[i + 4]);
    }
    assert(d[n] == 5 && d[n + 1] == size);
    assert(d[n + 2] == tail[0]);
    if kind >= 32 {
        assert(d[n + 3] == tail[1]);
    }
    lemma_object_type(d, 0, n, size);
}

proof fn lemma_object_type(d: Seq<u8>, i: int, n: int, size: u8)
    requires
        0 <= i <= n,
        n + 2 < d.len(),
        forall|k: int| i <= k < n ==> #[trigger] d[k] != 5,
        d[n] == 5,
        d[n + 1] == size,
        0 < size < 128,
    ensures
        codec::object_type(d, i) == (if d[n + 2] / 8 == 31 && n + 3 < d.len() {
            Some((32 + (d[n + 2] % 8) * 8 + d[n + 3] / 32) as u8)
        } else {
            Some(d[n + 2] / 8)
        }),
    decreases n - i,
{
    if i < n {
        assert(d[i] != 5);
        lemma_object_type(d, i + 1, n, size);
    } else {
        let t = d.skip(n + 1);
        assert(t[0] == size);
        assert(codec::descriptor_size(t, 0, 0) == (size as int, 1int));
    }
}


/// The field behind the two times of a track or media header is found in both of its versions:
/// the times take four bytes each in the first, eight in the other.
pub proof fn fields_behind_times_are_read(
    version: u8,
    flags: Seq<u8>,
    times: Seq<u8>,
    field: u32,
    rest: Seq<u8>,
)
    requires
        flags.len() == 3,
        times.len() == (if version == 0 {
            8nat
        } else {
            16nat
        }),
    ensures
        codec::after_times(seq![version] + flags + times + bytes::bytes32(field) + rest) == field,
{
    let s = seq![version] + flags + times + bytes::bytes32(field) + rest;
    let at = 4 + times.len() as int;
    assert(s.subrange(at, at + 4) =~= bytes::bytes32(field));
    bytes::lemma_be32_of_bytes32(s, at, field);
}

} // verus!
