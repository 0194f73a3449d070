//! Which keys and which data the protection headers of an initialization segment carry.

use crate::drm::scheme::EncryptionScheme;
use crate::drm::system_ids;
use crate::media::box_type;
use crate::media::cmaf;
use crate::media::cmaf::PsshView;
use crate::media::codec;
use crate::media::TrackType;
use crate::media::init;
use crate::media::init::GroupView;
use crate::drm::SystemView;
use vstd::prelude::*;

verus! {

/// Whether an entry is for a system, and that system takes part in the scheme.
pub open spec fn entry_for(d: SystemView, scheme: EncryptionScheme, system_id: Seq<u8>) -> bool {
    d.system_id == system_id && (scheme is Cenc ==> system_id != system_ids::FAIRPLAY@)
}

/// Whether one of the first `n` entries gives a system a key.
pub open spec fn gives_key(
    systems: Seq<SystemView>,
    scheme: EncryptionScheme,
    n: nat,
    system_id: Seq<u8>,
    kid: Seq<u8>,
) -> bool {
    exists|i: int|
        0 <= i < n && entry_for(#[trigger] systems[i], scheme, system_id) && systems[i].kid == kid
}

/// Whether `data` is what the first entry for a system gives it.
pub open spec fn first_data(
    systems: Seq<SystemView>,
    scheme: EncryptionScheme,
    n: nat,
    system_id: Seq<u8>,
    data: Seq<u8>,
) -> bool {
    exists|i: int|
        0 <= i < n && entry_for(#[trigger] systems[i], scheme, system_id) && systems[i].pssh_data
            == data && forall|j: int|
            0 <= j < i ==> !entry_for(#[trigger] systems[j], scheme, system_id)
}

spec fn group_is(systems: Seq<SystemView>, scheme: EncryptionScheme, n: nat, g: GroupView) -> bool {
    &&& g.kids.no_duplicates()
    &&& forall|kid: Seq<u8>| #[trigger]
        g.kids.contains(kid) <==> gives_key(systems, scheme, n, g.system_id, kid)
    &&& first_data(systems, scheme, n, g.system_id, g.data)
}

proof fn lemma_with_kid(kids: Seq<Seq<u8>>, kid: Seq<u8>)
    requires
        kids.no_duplicates(),
    ensures
        codec::with_kid(kids, kid).no_duplicates(),
        forall|k: Seq<u8>| #[trigger]
            codec::with_kid(kids, kid).contains(k) <==> kids.contains(k) || k == kid,
{
    let after = codec::with_kid(kids, kid);
    assert forall|k: Seq<u8>| #[trigger] after.contains(k) <==> kids.contains(k) || k == kid by {
        if kids.contains(k) {
            let i = choose|i: int| 0 <= i < kids.len() && kids[i] == k;
            assert(after[i] == k);
        }
        if k == kid && !kids.contains(kid) {
            assert(after[kids.len() as int] == k);
        }
        if after.contains(k) {
            let i = choose|i: int| 0 <= i < after.len() && after[i] == k;
            if i < kids.len() {
                assert(kids[i] == k);
            }
        }
    }
}

/// A group stays what it was when an entry of another system, or of none, comes next.
proof fn lemma_group_stays(
    systems: Seq<SystemView>,
    scheme: EncryptionScheme,
    n: nat,
    g: GroupView,
)
    requires
        n < systems.len(),
        group_is(systems, scheme, n, g),
        !entry_for(systems[n as int], scheme, g.system_id),
    ensures
        group_is(systems, scheme, n + 1, g),
{
    assert forall|kid: Seq<u8>| #[trigger]
        g.kids.contains(kid) <==> gives_key(systems, scheme, n + 1, g.system_id, kid) by {
        assert(g.kids.contains(kid) <==> gives_key(systems, scheme, n, g.system_id, kid));
        if gives_key(systems, scheme, n, g.system_id, kid) {
            let i = choose|i: int|
                0 <= i < n && entry_for(#[trigger] systems[i], scheme, g.system_id)
                    && systems[i].kid == kid;
            assert(entry_for(systems[i], scheme, g.system_id));
        }
    }
}

/// The groups of the first `n` entries list the keys that those give.
#[verifier::spinoff_prover]
#[verifier::rlimit(40)]
proof fn lemma_groups(systems: Seq<SystemView>, scheme: EncryptionScheme, n: nat)
    requires
        n <= systems.len(),
    ensures
        forall|k: int|
            0 <= k < init::system_groups(systems, scheme, n).len() ==> group_is(
                systems,
                scheme,
                n,
                #[trigger] init::system_groups(systems, scheme, n)[k],
            ),
    decreases n,
{
    if n > 0 {
        let m = (n - 1) as nat;
        lemma_groups(systems, scheme, m);
        init::one_header_per_system(systems, scheme, m);
        let before = init::system_groups(systems, scheme, m);
        let after = init::system_groups(systems, scheme, n);
        let d = systems[m as int];
        if scheme is Cenc && d.system_id == system_ids::FAIRPLAY@ {
            assert forall|k: int| 0 <= k < after.len() implies group_is(
                systems,
                scheme,
                n,
                #[trigger] after[k],
            ) by {
                lemma_group_stays(systems, scheme, m, before[k]);
            }
        } else {
            init::lemma_group_at(before, d.system_id, 0);
            assert(entry_for(d, scheme, d.system_id));
            assert forall|k: int| 0 <= k < after.len() implies group_is(
                systems,
                scheme,
                n,
                #[trigger] after[k],
            ) by {
                if k < before.len() && before[k].system_id != d.system_id {
                    lemma_group_stays(systems, scheme, m, before[k]);
                } else if k < before.len() {
                    lemma_joins(systems, scheme, m, before[k]);
                } else {
                    lemma_opens(systems, scheme, m, before);
                }
            }
        }
    }
}

/// An entry adds its key to the group of its system.
proof fn lemma_joins(systems: Seq<SystemView>, scheme: EncryptionScheme, m: nat, g: GroupView)
    requires
        m < systems.len(),
        group_is(systems, scheme, m, g),
        entry_for(systems[m as int], scheme, g.system_id),
    ensures
        group_is(
            systems,
            scheme,
            m + 1,
            (GroupView {
                system_id: g.system_id,
                kids: codec::with_kid(g.kids, systems[m as int].kid),
                data: g.data,
            }),
        ),
{
    let d = systems[m as int];
    let kids = codec::with_kid(g.kids, d.kid);
    lemma_with_kid(g.kids, d.kid);
    assert forall|kid: Seq<u8>| #[trigger]
        kids.contains(kid) <==> gives_key(systems, scheme, m + 1, g.system_id, kid) by {
        assert(g.kids.contains(kid) <==> gives_key(systems, scheme, m, g.system_id, kid));
        if gives_key(systems, scheme, m, g.system_id, kid) {
            let i = choose|i: int|
                0 <= i < m && entry_for(#[trigger] systems[i], scheme, g.system_id)
                    && systems[i].kid == kid;
            assert(entry_for(systems[i], scheme, g.system_id));
        }
        if kid == d.kid {
            assert(entry_for(systems[m as int], scheme, g.system_id));
        }
    }
}

/// The first entry of a system opens its group.
proof fn lemma_opens(
    systems: Seq<SystemView>,
    scheme: EncryptionScheme,
    m: nat,
    before: Seq<GroupView>,
)
    requires
        m < systems.len(),
        before == init::system_groups(systems, scheme, m),
        !init::has_group(before, systems[m as int].system_id),
        entry_for(systems[m as int], scheme, systems[m as int].system_id),
    ensures
        group_is(
            systems,
            scheme,
            m + 1,
            (GroupView {
                system_id: systems[m as int].system_id,
                kids: seq![systems[m as int].kid],
                data: systems[m as int].pssh_data,
            }),
        ),
{
    init::one_header_per_system(systems, scheme, m);
    let d = systems[m as int];
    let kids = seq![d.kid];
    assert forall|j: int| 0 <= j < m implies !entry_for(
        #[trigger] systems[j],
        scheme,
        d.system_id,
    ) by {}
    assert(entry_for(systems[m as int], scheme, d.system_id));
    assert forall|kid: Seq<u8>| #[trigger]
        kids.contains(kid) <==> gives_key(systems, scheme, m + 1, d.system_id, kid) by {
        assert(kids[0] == d.kid);
    }
}

proof fn lemma_merged(kids: Seq<Seq<u8>>, more: Seq<Seq<u8>>, n: nat)
    requires
        n <= more.len(),
        kids.no_duplicates(),
    ensures
        init::merged_kids(kids, more, n).no_duplicates(),
        forall|k: Seq<u8>| #[trigger]
            init::merged_kids(kids, more, n).contains(k) <==> kids.contains(k) || more.take(
                n as int,
            ).contains(k),
    decreases n,
{
    if n > 0 {
        let m = (n - 1) as nat;
        lemma_merged(kids, more, m);
        let before = init::merged_kids(kids, more, m);
        lemma_with_kid(before, more[m as int]);
        assert forall|k: Seq<u8>| #[trigger]
            init::merged_kids(kids, more, n).contains(k) <==> kids.contains(k) || more.take(
                n as int,
            ).contains(k) by {
            assert(before.contains(k) <==> kids.contains(k) || more.take(m as int).contains(k));
            if more.take(m as int).contains(k) {
                let i = choose|i: int| 0 <= i < m && more.take(m as int)[i] == k;
                assert(more.take(n as int)[i] == k);
            }
            assert(more.take(n as int)[m as int] == more[m as int]);
            if more.take(n as int).contains(k) {
                let i = choose|i: int| 0 <= i < n && more.take(n as int)[i] == k;
                if i < m {
                    assert(more.take(m as int)[i] == k);
                }
            }
        }
    } else {
        assert(more.take(0) =~= Seq::<Seq<u8>>::empty());
    }
}

/// Whether tracks have different keys.
pub open spec fn several_keys(mapping: Seq<(TrackType, Seq<u8>)>) -> bool {
    exists|i: int, j: int|
        0 <= i < mapping.len() && 0 <= j < mapping.len() && #[trigger] mapping[i].1
            != #[trigger] mapping[j].1
}

/// Whether a track has a key.
pub open spec fn track_has(mapping: Seq<(TrackType, Seq<u8>)>, kid: Seq<u8>) -> bool {
    exists|i: int| 0 <= i < mapping.len() && #[trigger] mapping[i].1 == kid
}

/// Whether a header is right for its system: it lists each key that an entry gives the system,
/// and with different keys among the tracks also each of those, no key twice and no other key,
/// and it carries the data of the system's first entry.
pub open spec fn header_is(
    h: PsshView,
    systems: Seq<SystemView>,
    mapping: Seq<(TrackType, Seq<u8>)>,
    scheme: EncryptionScheme,
) -> bool {
    &&& h.version == 1
    &&& h.key_ids.no_duplicates()
    &&& forall|kid: Seq<u8>| #[trigger]
        h.key_ids.contains(kid) <==> gives_key(systems, scheme, systems.len(), h.system_id, kid) || (
        several_keys(mapping) && track_has(mapping, kid))
    &&& first_data(systems, scheme, systems.len(), h.system_id, h.data)
}

proof fn lemma_several(mapping: Seq<(TrackType, Seq<u8>)>)
    ensures
        codec::distinct_kids(mapping, mapping.len()).len() > 1 <==> several_keys(mapping),
        forall|kid: Seq<u8>| #[trigger]
            codec::distinct_kids(mapping, mapping.len()).contains(kid) <==> track_has(mapping, kid),
{
    let all = codec::distinct_kids(mapping, mapping.len());
    codec::every_key_is_listed_once(mapping);
    assert forall|kid: Seq<u8>| #[trigger] all.contains(kid) <==> track_has(mapping, kid) by {
        if all.contains(kid) {
            let i = choose|i: int| 0 <= i < mapping.len() && mapping[i].1 == kid;
            assert(mapping[i].1 == kid);
        }
        if track_has(mapping, kid) {
            let i = choose|i: int| 0 <= i < mapping.len() && #[trigger] mapping[i].1 == kid;
            assert(all.contains(mapping[i].1));
        }
    }
    if all.len() > 1 {
        assert(all.contains(all[0]) && all.contains(all[1]));
        assert(all[0] != all[1]);
        let i = choose|i: int| 0 <= i < mapping.len() && #[trigger] mapping[i].1 == all[0];
        let j = choose|j: int| 0 <= j < mapping.len() && #[trigger] mapping[j].1 == all[1];
        assert(mapping[i].1 != mapping[j].1);
    }
    if several_keys(mapping) {
        let (i, j) = choose|i: int, j: int|
            0 <= i < mapping.len() && 0 <= j < mapping.len() && #[trigger] mapping[i].1
                != #[trigger] mapping[j].1;
        assert(all.contains(mapping[i].1) && all.contains(mapping[j].1));
        let a = choose|a: int| 0 <= a < all.len() && all[a] == mapping[i].1;
        let b = choose|b: int| 0 <= b < all.len() && all[b] == mapping[j].1;
        assert(a != b);
    }
}

proof fn lemma_header(
    g: GroupView,
    systems: Seq<SystemView>,
    mapping: Seq<(TrackType, Seq<u8>)>,
    scheme: EncryptionScheme,
)
    requires
        group_is(systems, scheme, systems.len(), g),
    ensures
        header_is(init::group_pssh(g, mapping), systems, mapping, scheme),
{
    let all = codec::distinct_kids(mapping, mapping.len());
    lemma_several(mapping);
    lemma_merged(g.kids, all, all.len());
    assert(all.take(all.len() as int) =~= all);
    let h = init::group_pssh(g, mapping);
    assert forall|kid: Seq<u8>| #[trigger]
        h.key_ids.contains(kid) <==> gives_key(systems, scheme, systems.len(), h.system_id, kid) || (
        several_keys(mapping) && track_has(mapping, kid)) by {
        assert(g.kids.contains(kid) <==> gives_key(
            systems,
            scheme,
            systems.len(),
            g.system_id,
            kid,
        ));
        assert(all.contains(kid) <==> track_has(mapping, kid));
    }
}

proof fn lemma_boxes(groups: Seq<GroupView>, mapping: Seq<(TrackType, Seq<u8>)>, n: nat)
    requires
        n <= groups.len(),
    ensures
        init::group_boxes(groups, mapping, n) == cmaf::joined(
            Seq::new(
                n,
                |k: int|
                    cmaf::boxed(
                        box_type::PSSH@,
                        cmaf::pssh_payload(init::group_pssh(groups[k], mapping)),
                    ),
            ),
            n,
        ),
    decreases n,
{
    let f = |k: int|
        cmaf::boxed(
            box_type::PSSH@,
            cmaf::pssh_payload(init::group_pssh(groups[k], mapping)),
        );
    if n > 0 {
        lemma_boxes(groups, mapping, (n - 1) as nat);
        lemma_joined_prefix(Seq::new(n, f), Seq::new((n - 1) as nat, f), (n - 1) as nat);
    }
}

proof fn lemma_joined_prefix(a: Seq<Seq<u8>>, b: Seq<Seq<u8>>, n: nat)
    requires
        n <= a.len(),
        n <= b.len(),
        forall|i: int| 0 <= i < n ==> #[trigger] a[i] == b[i],
    ensures
        cmaf::joined(a, n) == cmaf::joined(b, n),
    decreases n,
{
    if n > 0 {
        lemma_joined_prefix(a, b, (n - 1) as nat);
    }
}

/// The headers of an initialization segment are one for each DRM system. Each lists the keys of
/// its own system, with those of the tracks where these differ, and carries its own data.
pub proof fn headers_carry_the_keys_of_their_system(
    systems: Seq<SystemView>,
    mapping: Seq<(TrackType, Seq<u8>)>,
    scheme: EncryptionScheme,
) -> (headers: Seq<PsshView>)
    ensures
        init::pssh_boxes(systems, mapping, scheme) == cmaf::joined(
            headers.map_values(|h: PsshView| cmaf::boxed(box_type::PSSH@, cmaf::pssh_payload(h))),
            headers.len(),
        ),
        forall|k: int|
            0 <= k < headers.len() ==> header_is(#[trigger] headers[k], systems, mapping, scheme),
        forall|i: int, j: int|
            0 <= i < j < headers.len() ==> (#[trigger] headers[i]).system_id != (
            #[trigger] headers[j]).system_id,
        forall|i: int|
            0 <= i < systems.len() && entry_for(
                #[trigger] systems[i],
                scheme,
                systems[i].system_id,
            ) ==> exists|k: int|
                0 <= k < headers.len() && (#[trigger] headers[k]).system_id == systems[i].system_id,
{
    let n = systems.len();
    let groups = init::system_groups(systems, scheme, n);
    let headers = Seq::new(groups.len(), |k: int| init::group_pssh(groups[k], mapping));
    lemma_groups(systems, scheme, n);
    init::one_header_per_system(systems, scheme, n);
    lemma_boxes(groups, mapping, groups.len());
    let g = |h: PsshView| cmaf::boxed(box_type::PSSH@, cmaf::pssh_payload(h));
    assert(headers.map_values(g) =~= Seq::new(
        groups.len(),
        |k: int|
            cmaf::boxed(
                box_type::PSSH@,
                cmaf::pssh_payload(init::group_pssh(groups[k], mapping)),
            ),
    ));
    assert forall|k: int| 0 <= k < headers.len() implies header_is(
        #[trigger] headers[k],
        systems,
        mapping,
        scheme,
    ) by {
        lemma_header(groups[k], systems, mapping, scheme);
    }
    assert forall|i: int|
        0 <= i < systems.len() && entry_for(
            #[trigger] systems[i],
            scheme,
            systems[i].system_id,
        ) implies exists|k: int|
        0 <= k < headers.len() && (#[trigger] headers[k]).system_id == systems[i].system_id by {
        let k = choose|k: int|
            0 <= k < groups.len() && (#[trigger] groups[k]).system_id == systems[i].system_id;
        assert(headers[k].system_id == systems[i].system_id);
    }
    headers
}

} // verus!
