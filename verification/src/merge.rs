//! The reconciliation engine: merges freshly discovered entries into the
//! existing catalog, honoring per-field locks, counting outcomes, demoting
//! entries that discovery no longer sees, and sorting by display name.
use vstd::prelude::*;
use vstd::pervasive::VecAdditionalExecFns;

use crate::models::{
    clone_opt_string, entry_eq, DiscoveryStatusInfo, EntryV, ServiceEntry, ServiceSource,
    ServiceStatus, StatusV,
};
use crate::text::{insert_ordered_by, lex_le, sort_ordered_by};

verus! {

/// Whether automatic merges must not overwrite `f` on `e`.
pub open spec fn locked(e: EntryV, f: Seq<char>) -> bool {
    e.locked_fields.contains(f)
}

/// The field-level merge of a discovered entry into an existing one: every
/// mutable field is copied from the discovered entry unless the existing
/// entry locks it; `last_seen_at` always follows the discovered entry,
/// provenance becomes `Merged`, and `updated_at` becomes the merge time. The
/// id, group, tags, icon and lock list stay with the existing entry.
pub open spec fn spec_merge_single(e: EntryV, d: EntryV, now: i64) -> EntryV {
    EntryV {
        service_name: if locked(e, "service_name"@) {
            e.service_name
        } else {
            d.service_name
        },
        display_name: if locked(e, "display_name"@) {
            e.display_name
        } else {
            d.display_name
        },
        host: if locked(e, "host"@) {
            e.host
        } else {
            d.host
        },
        port: if locked(e, "port"@) {
            e.port
        } else {
            d.port
        },
        protocol: if locked(e, "protocol"@) {
            e.protocol
        } else {
            d.protocol
        },
        path: if locked(e, "path"@) {
            e.path
        } else {
            d.path
        },
        url: if locked(e, "url"@) {
            e.url
        } else {
            d.url
        },
        status: if locked(e, "status"@) {
            e.status
        } else {
            d.status
        },
        description: if locked(e, "description"@) {
            e.description
        } else {
            d.description
        },
        hidden: if locked(e, "hidden"@) {
            e.hidden
        } else {
            d.hidden
        },
        favorite: if locked(e, "favorite"@) {
            e.favorite
        } else {
            d.favorite
        },
        last_seen_at: d.last_seen_at,
        source: ServiceSource::Merged,
        updated_at: now,
        ..e
    }
}

/// Merges a discovered entry into an existing one in place.
#[verifier::rlimit(80)]
pub fn merge_single(existing: &mut ServiceEntry, discovered: &ServiceEntry, now: i64)
    ensures
        final(existing).deep_view() == spec_merge_single(
            old(existing).deep_view(),
            discovered.deep_view(),
            now,
        ),
{
    let service_name = if existing.is_locked("service_name") {
        existing.service_name.clone()
    } else {
        discovered.service_name.clone()
    };
    let display_name = if existing.is_locked("display_name") {
        existing.display_name.clone()
    } else {
        discovered.display_name.clone()
    };
    let host = if existing.is_locked("host") {
        existing.host.clone()
    } else {
        discovered.host.clone()
    };
    let port = if existing.is_locked("port") {
        existing.port
    } else {
        discovered.port
    };
    let protocol = if existing.is_locked("protocol") {
        existing.protocol
    } else {
        discovered.protocol
    };
    let path = if existing.is_locked("path") {
        clone_opt_string(&existing.path)
    } else {
        clone_opt_string(&discovered.path)
    };
    let url = if existing.is_locked("url") {
        clone_opt_string(&existing.url)
    } else {
        clone_opt_string(&discovered.url)
    };
    let status = if existing.is_locked("status") {
        existing.status
    } else {
        discovered.status
    };
    let description = if existing.is_locked("description") {
        clone_opt_string(&existing.description)
    } else {
        clone_opt_string(&discovered.description)
    };
    let hidden = if existing.is_locked("hidden") {
        existing.hidden
    } else {
        discovered.hidden
    };
    let favorite = if existing.is_locked("favorite") {
        existing.favorite
    } else {
        discovered.favorite
    };
    let merged = ServiceEntry {
        id: existing.id.clone(),
        service_name,
        display_name,
        description,
        host,
        port,
        protocol,
        path,
        url,
        status,
        group: clone_opt_string(&existing.group),
        tags: crate::models::clone_string_vec(&existing.tags),
        icon: clone_opt_string(&existing.icon),
        hidden,
        favorite,
        source: ServiceSource::Merged,
        locked_fields: crate::models::clone_string_vec(&existing.locked_fields),
        last_seen_at: discovered.last_seen_at,
        updated_at: now,
    };
    *existing = merged;
    proof {
        assert(existing.deep_view() =~~= spec_merge_single(
            old(existing).deep_view(),
            discovered.deep_view(),
            now,
        ));
    }
}

/// The first index whose entry has `id`, or -1.
pub open spec fn find_entry(acc: Seq<EntryV>, id: Seq<char>) -> int
    decreases acc.len(),
{
    if acc.len() == 0 {
        -1
    } else if acc[0].id == id {
        0
    } else {
        let r = find_entry(acc.drop_first(), id);
        if r < 0 {
            -1
        } else {
            r + 1
        }
    }
}

pub proof fn lemma_find_entry(acc: Seq<EntryV>, id: Seq<char>, i: int)
    requires
        0 <= i <= acc.len(),
        forall|j: int| 0 <= j < i ==> acc[j].id != id,
        i < acc.len() ==> acc[i].id == id,
    ensures
        find_entry(acc, id) == if i < acc.len() {
            i
        } else {
            -1
        },
    decreases acc.len(),
{
    if acc.len() == 0 {
    } else if i == 0 {
    } else {
        assert(acc[0].id != id);
        lemma_find_entry(acc.drop_first(), id, i - 1);
    }
}

proof fn lemma_find_entry_props(acc: Seq<EntryV>, id: Seq<char>)
    ensures
        find_entry(acc, id) == -1 ==> forall|k: int| 0 <= k < acc.len() ==> acc[k].id != id,
        find_entry(acc, id) >= 0 ==> find_entry(acc, id) < acc.len() && acc[find_entry(
            acc,
            id,
        )].id == id,
    decreases acc.len(),
{
    if acc.len() > 0 && acc[0].id != id {
        lemma_find_entry_props(acc.drop_first(), id);
        if find_entry(acc, id) == -1 {
            assert(find_entry(acc.drop_first(), id) == -1);
            assert(forall|k: int| 1 <= k < acc.len() ==> acc[k].id != id) by {
                assert(forall|k: int| 1 <= k < acc.len() ==> acc[k] == acc.drop_first()[k - 1]);
            }
        }
    }
}

/// No two entries share an id.
pub open spec fn unique_ids(s: Seq<EntryV>) -> bool {
    forall|i: int, j: int| 0 <= i < j < s.len() ==> s[i].id != s[j].id
}

/// The catalog keyed by id: a later entry with a seen id replaces the
/// earlier one in place.
pub open spec fn dedup_by_id(current: Seq<EntryV>) -> Seq<EntryV>
    decreases current.len(),
{
    if current.len() == 0 {
        Seq::empty()
    } else {
        let acc = dedup_by_id(current.drop_last());
        let e = current.last();
        let i = find_entry(acc, e.id);
        if i >= 0 {
            acc.update(i, e)
        } else {
            acc.push(e)
        }
    }
}

proof fn lemma_dedup_by_id_unique(current: Seq<EntryV>)
    ensures
        unique_ids(dedup_by_id(current)),
    decreases current.len(),
{
    if current.len() > 0 {
        lemma_dedup_by_id_unique(current.drop_last());
        let acc = dedup_by_id(current.drop_last());
        let e = current.last();
        let i = find_entry(acc, e.id);
        lemma_find_entry_props(acc, e.id);
        if i >= 0 {
            assert(forall|k: int| 0 <= k < acc.len() ==> acc.update(i, e)[k].id == (if k == i {
                e.id
            } else {
                acc[k].id
            }));
            assert(acc[i].id == e.id);
            assert(unique_ids(acc.update(i, e)));
        } else {
            assert(unique_ids(acc.push(e)));
        }
    }
}

/// One step of the merge pass: a discovered entry either field-merges into
/// the entry that shares its id (counted as unchanged when nothing moved,
/// else updated) or is inserted as-is (counted as added).
pub open spec fn merge_step(acc: Seq<EntryV>, d: EntryV, now: i64, summary: StatusV) -> (Seq<
    EntryV,
>, StatusV) {
    let i = find_entry(acc, d.id);
    if i >= 0 {
        let m = spec_merge_single(acc[i], d, now);
        if m == acc[i] {
            (acc.update(i, m), StatusV { unchanged: (summary.unchanged + 1) as usize, ..summary })
        } else {
            (acc.update(i, m), StatusV { updated: (summary.updated + 1) as usize, ..summary })
        }
    } else {
        (acc.push(d), StatusV { added: (summary.added + 1) as usize, ..summary })
    }
}

/// The whole merge pass, processing discovered entries in order.
pub open spec fn merge_pass(
    acc: Seq<EntryV>,
    discovered: Seq<EntryV>,
    now: i64,
    summary: StatusV,
) -> (Seq<EntryV>, StatusV)
    decreases discovered.len(),
{
    if discovered.len() == 0 {
        (acc, summary)
    } else {
        let r = merge_pass(acc, discovered.drop_last(), now, summary);
        merge_step(r.0, discovered.last(), now, r.1)
    }
}

proof fn lemma_merge_pass_unique(acc: Seq<EntryV>, discovered: Seq<EntryV>, now: i64, summary: StatusV)
    requires
        unique_ids(acc),
    ensures
        unique_ids(merge_pass(acc, discovered, now, summary).0),
    decreases discovered.len(),
{
    if discovered.len() > 0 {
        lemma_merge_pass_unique(acc, discovered.drop_last(), now, summary);
        let r = merge_pass(acc, discovered.drop_last(), now, summary);
        let d = discovered.last();
        let i = find_entry(r.0, d.id);
        lemma_find_entry_props(r.0, d.id);
        if i >= 0 {
            let m = spec_merge_single(r.0[i], d, now);
            assert(m.id == r.0[i].id);
            assert(forall|k: int| 0 <= k < r.0.len() ==> r.0.update(i, m)[k].id == r.0[k].id);
            assert(unique_ids(r.0.update(i, m)));
        } else {
            assert(unique_ids(r.0.push(d)));
        }
    }
}

/// The ids that a discovery pass touched.
pub open spec fn ids_of(d: Seq<EntryV>) -> Set<Seq<char>> {
    Set::new(|id: Seq<char>| exists|k: int| 0 <= k < d.len() && d[k].id == id)
}

/// Entries that discovery did not touch are soft-retired: status unknown,
/// refreshed timestamp, everything else kept.
pub open spec fn mark_stale(acc: Seq<EntryV>, ids: Set<Seq<char>>, now: i64) -> Seq<EntryV> {
    acc.map_values(
        |e: EntryV|
            if ids.contains(e.id) {
                e
            } else {
                EntryV { status: ServiceStatus::Unknown, updated_at: now, ..e }
            },
    )
}

/// The order of the final catalog: ascending display name, ties keeping
/// their earlier order.
pub open spec fn entry_name_leq() -> spec_fn(EntryV, EntryV) -> bool {
    |a: EntryV, b: EntryV| lex_le(a.display_name, b.display_name)
}

/// The whole reconciliation: key the current catalog by id, run the merge
/// pass over the discovered entries in order, soft-retire untouched entries,
/// and sort the union by display name with a stable sort.
pub open spec fn spec_merge(
    current: Seq<EntryV>,
    discovered: Seq<EntryV>,
    now: i64,
    summary: StatusV,
) -> (Seq<EntryV>, StatusV) {
    let acc0 = dedup_by_id(current);
    let r = merge_pass(acc0, discovered, now, summary);
    let a2 = mark_stale(r.0, ids_of(discovered), now);
    (sort_ordered_by(entry_name_leq(), a2), r.1)
}

/// Reconciles the discovered entries into the current catalog. `now` is the
/// merge time in milliseconds since the Unix epoch; the summary's counters
/// accumulate on top of their incoming values.
pub fn merge_services(
    current: &Vec<ServiceEntry>,
    discovered: &Vec<ServiceEntry>,
    summary: DiscoveryStatusInfo,
    now: i64,
) -> (r: (Vec<ServiceEntry>, DiscoveryStatusInfo))
    requires
        summary.added + summary.updated + summary.unchanged + discovered@.len() <= usize::MAX,
    ensures
        r.0.deep_view() == spec_merge(
            current.deep_view(),
            discovered.deep_view(),
            now,
            summary.deep_view(),
        ).0,
        r.1.deep_view() == spec_merge(
            current.deep_view(),
            discovered.deep_view(),
            now,
            summary.deep_view(),
        ).1,
{
    let ghost cdv = current.deep_view();
    let ghost ddv = discovered.deep_view();
    let ghost s0 = summary.deep_view();
    // key the current catalog by id
    let mut acc: Vec<ServiceEntry> = Vec::new();
    let mut i: usize = 0;
    proof {
        assert(cdv.take(0) =~~= Seq::<EntryV>::empty());
        assert(acc.deep_view() =~~= dedup_by_id(cdv.take(0)));
    }
    while i < current.len()
        invariant
            i <= current@.len(),
            cdv == current.deep_view(),
            acc.deep_view() == dedup_by_id(cdv.take(i as int)),
        decreases current@.len() - i,
    {
        let ghost q = cdv.take(i + 1);
        proof {
            assert(q.drop_last() =~~= cdv.take(i as int));
            assert(q.last() == cdv[i as int]);
        }
        let e = current[i].clone();
        proof {
            assert(e.deep_view() == cdv[i as int]);
        }
        let ghost adv = acc.deep_view();
        let mut fi: usize = 0;
        while fi < acc.len() && !crate::text::eq_str(acc[fi].id.as_str(), e.id.as_str())
            invariant
                fi <= acc@.len(),
                adv == acc.deep_view(),
                e.deep_view() == cdv[i as int],
                forall|j: int| 0 <= j < fi ==> adv[j].id != e.deep_view().id,
            decreases acc@.len() - fi,
        {
            fi = fi + 1;
        }
        proof {
            if fi < acc@.len() {
                assert(adv[fi as int].id == e.deep_view().id);
            }
            lemma_find_entry(adv, e.deep_view().id, fi as int);
        }
        if fi < acc.len() {
            acc.set(fi, e);
            proof {
                assert(acc.deep_view() =~~= adv.update(fi as int, cdv[i as int]));
                assert(acc.deep_view() =~~= dedup_by_id(q));
            }
        } else {
            acc.push(e);
            proof {
                assert(acc.deep_view() =~~= adv.push(cdv[i as int]));
                assert(acc.deep_view() =~~= dedup_by_id(q));
            }
        }
        i = i + 1;
    }
    proof {
        assert(cdv.take(current@.len() as int) =~~= cdv);
        lemma_dedup_by_id_unique(cdv);
    }
    let ghost acc0 = acc.deep_view();
    // merge pass
    let mut touched: Vec<bool> = Vec::new();
    let mut t0: usize = 0;
    while t0 < acc.len()
        invariant
            t0 <= acc@.len(),
            touched@.len() == t0,
            forall|m: int| 0 <= m < t0 ==> !touched@[m],
        decreases acc@.len() - t0,
    {
        touched.push(false);
        t0 = t0 + 1;
    }
    let mut summary = summary;
    let mut j: usize = 0;
    proof {
        assert(ddv.take(0) =~~= Seq::<EntryV>::empty());
        assert(merge_pass(acc0, ddv.take(0), now, s0) == (acc0, s0));
        assert(summary.deep_view() == s0);
        assert(ids_of(ddv.take(0)) =~= Set::<Seq<char>>::empty());
    }
    while j < discovered.len()
        invariant
            j <= discovered@.len(),
            ddv == discovered.deep_view(),
            touched@.len() == acc@.len(),
            acc.deep_view() == merge_pass(acc0, ddv.take(j as int), now, s0).0,
            summary.deep_view() == merge_pass(acc0, ddv.take(j as int), now, s0).1,
            unique_ids(acc.deep_view()),
            unique_ids(acc0),
            forall|m: int|
                0 <= m < acc@.len() ==> (touched@[m] == ids_of(ddv.take(j as int)).contains(
                    acc.deep_view()[m].id,
                )),
            summary.added + summary.updated + summary.unchanged <= s0.added + s0.updated
                + s0.unchanged + j,
            s0.added + s0.updated + s0.unchanged + ddv.len() <= usize::MAX,
        decreases discovered@.len() - j,
    {
        let ghost q = ddv.take(j + 1);
        let ghost adv = acc.deep_view();
        let ghost sv = summary.deep_view();
        proof {
            assert(q.drop_last() =~~= ddv.take(j as int));
            assert(q.last() == ddv[j as int]);
            assert(merge_pass(acc0, q, now, s0) == merge_step(adv, ddv[j as int], now, sv));
        }
        let d = &discovered[j];
        proof {
            assert(d.deep_view() == ddv[j as int]);
        }
        let mut fi: usize = 0;
        while fi < acc.len() && !crate::text::eq_str(acc[fi].id.as_str(), d.id.as_str())
            invariant
                fi <= acc@.len(),
                adv == acc.deep_view(),
                d.deep_view() == ddv[j as int],
                forall|m: int| 0 <= m < fi ==> adv[m].id != d.deep_view().id,
            decreases acc@.len() - fi,
        {
            fi = fi + 1;
        }
        proof {
            if fi < acc@.len() {
                assert(adv[fi as int].id == d.deep_view().id);
            }
            lemma_find_entry(adv, d.deep_view().id, fi as int);
        }
        if fi < acc.len() {
            let mut e = acc[fi].clone();
            proof {
                assert(e.deep_view() == adv[fi as int]);
            }
            merge_single(&mut e, d, now);
            let same = entry_eq(&acc[fi], &e);
            acc.set(fi, e);
            touched.set(fi, true);
            if same {
                summary.unchanged = summary.unchanged + 1;
            } else {
                summary.updated = summary.updated + 1;
            }
            proof {
                assert(acc.deep_view() =~~= adv.update(
                    fi as int,
                    spec_merge_single(adv[fi as int], ddv[j as int], now),
                ));
                assert(acc.deep_view() == merge_step(adv, ddv[j as int], now, sv).0);
                assert(summary.deep_view() =~~= merge_step(adv, ddv[j as int], now, sv).1);
                // the touched flags still mirror membership in the id set
                assert(ids_of(q) =~= ids_of(ddv.take(j as int)).insert(ddv[j as int].id));
                assert(forall|m: int|
                    0 <= m < acc.deep_view().len() ==> acc.deep_view()[m].id == adv[m].id);
                assert(adv[fi as int].id == ddv[j as int].id);
                assert(forall|m: int|
                    0 <= m < acc@.len() && m != fi ==> adv[m].id != ddv[j as int].id);
                assert(forall|m: int|
                    0 <= m < acc@.len() ==> (touched@[m] == ids_of(q).contains(
                        acc.deep_view()[m].id,
                    )));
                assert(unique_ids(acc.deep_view()));
            }
        } else {
            acc.push(d.clone());
            touched.push(true);
            summary.added = summary.added + 1;
            proof {
                assert(acc.deep_view() =~~= adv.push(ddv[j as int]));
                assert(acc.deep_view() == merge_step(adv, ddv[j as int], now, sv).0);
                assert(summary.deep_view() =~~= merge_step(adv, ddv[j as int], now, sv).1);
                assert(ids_of(q) =~= ids_of(ddv.take(j as int)).insert(ddv[j as int].id));
                assert(forall|m: int| 0 <= m < adv.len() ==> adv[m].id != ddv[j as int].id);
                assert(forall|m: int|
                    0 <= m < acc@.len() ==> (touched@[m] == ids_of(q).contains(
                        acc.deep_view()[m].id,
                    )));
                assert(unique_ids(acc.deep_view()));
            }
        }
        j = j + 1;
    }
    proof {
        assert(ddv.take(discovered@.len() as int) =~~= ddv);
    }
    let ghost a1 = acc.deep_view();
    // soft-retire untouched entries
    let mut m: usize = 0;
    proof {
        assert(ids_of(ddv.take(ddv.len() as int)) =~= ids_of(ddv));
    }
    while m < acc.len()
        invariant
            m <= acc@.len(),
            touched@.len() == acc@.len(),
            acc.deep_view().len() == a1.len(),
            a1.len() == acc@.len(),
            forall|k: int|
                0 <= k < a1.len() ==> (touched@[k] == ids_of(ddv).contains(a1[k].id)),
            forall|k: int| m <= k < a1.len() ==> acc.deep_view()[k] == a1[k],
            forall|k: int|
                0 <= k < m ==> acc.deep_view()[k] == (if ids_of(ddv).contains(a1[k].id) {
                    a1[k]
                } else {
                    EntryV { status: ServiceStatus::Unknown, updated_at: now, ..a1[k] }
                }),
        decreases acc@.len() - m,
    {
        if !touched[m] {
            let mut e = acc[m].clone();
            proof {
                assert(e.deep_view() == a1[m as int]);
            }
            e.status = ServiceStatus::Unknown;
            e.updated_at = now;
            let ghost before = acc.deep_view();
            acc.set(m, e);
            proof {
                assert(acc.deep_view() =~~= before.update(
                    m as int,
                    EntryV { status: ServiceStatus::Unknown, updated_at: now, ..a1[m as int] },
                ));
            }
        }
        m = m + 1;
    }
    proof {
        assert(acc.deep_view() =~~= mark_stale(a1, ids_of(ddv), now));
    }
    let ghost a2 = acc.deep_view();
    // sort by display name, stably
    let mut out: Vec<ServiceEntry> = Vec::new();
    let mut k: usize = 0;
    proof {
        assert(a2.take(0) =~~= Seq::<EntryV>::empty());
        assert(out.deep_view() =~~= sort_ordered_by(entry_name_leq(), a2.take(0)));
    }
    while k < acc.len()
        invariant
            k <= acc@.len(),
            a2 == acc.deep_view(),
            out.deep_view() == sort_ordered_by(entry_name_leq(), a2.take(k as int)),
        decreases acc@.len() - k,
    {
        let e = acc[k].clone();
        proof {
            assert(e.deep_view() == a2[k as int]);
        }
        let ghost odv = out.deep_view();
        let mut p: usize = 0;
        while p < out.len() && crate::text::lex_le_str(&out[p].display_name, &e.display_name)
            invariant
                p <= out@.len(),
                odv == out.deep_view(),
                e.deep_view() == a2[k as int],
                forall|w: int| 0 <= w < p ==> lex_le(odv[w].display_name, e.deep_view().display_name),
            decreases out@.len() - p,
        {
            p = p + 1;
        }
        proof {
            assert(forall|w: int|
                0 <= w < p ==> (entry_name_leq())(odv[w], e.deep_view()));
            if (p as int) < odv.len() {
                assert(!(entry_name_leq())(odv[p as int], e.deep_view()));
            }
            crate::text::lemma_insert_ordered_split(entry_name_leq(), odv, e.deep_view(), p as int);
        }
        out.insert(p, e);
        proof {
            assert(out.deep_view() =~~= odv.take(p as int) + seq![a2[k as int]] + odv.skip(
                p as int,
            ));
            let q = a2.take(k + 1);
            assert(q.drop_last() =~~= a2.take(k as int));
            assert(q.last() == a2[k as int]);
            assert(out.deep_view() =~~= sort_ordered_by(entry_name_leq(), q));
        }
        k = k + 1;
    }
    proof {
        assert(a2.take(acc@.len() as int) =~~= a2);
        assert(out.deep_view() == spec_merge(cdv, ddv, now, s0).0);
        assert(summary.deep_view() == spec_merge(cdv, ddv, now, s0).1);
    }
    (out, summary)
}

/// Some entry carries `id`.
pub open spec fn has_id(s: Seq<EntryV>, id: Seq<char>) -> bool {
    exists|k: int| 0 <= k < s.len() && s[k].id == id
}

/// The entry already carries everything a merge with `d` would bring.
pub open spec fn absorbed(e: EntryV, d: EntryV, now: i64) -> bool {
    spec_merge_single(e, d, now) == e
}

/// Locked-field preservation: a field named in the existing entry's lock
/// list is never overwritten by a discovery-driven merge, and the lock list
/// itself survives the merge untouched.
pub proof fn lemma_locked_fields_preserved(e: EntryV, d: EntryV, now: i64)
    ensures
        locked(e, "service_name"@) ==> spec_merge_single(e, d, now).service_name
            == e.service_name,
        locked(e, "display_name"@) ==> spec_merge_single(e, d, now).display_name
            == e.display_name,
        locked(e, "host"@) ==> spec_merge_single(e, d, now).host == e.host,
        locked(e, "port"@) ==> spec_merge_single(e, d, now).port == e.port,
        locked(e, "protocol"@) ==> spec_merge_single(e, d, now).protocol == e.protocol,
        locked(e, "path"@) ==> spec_merge_single(e, d, now).path == e.path,
        locked(e, "url"@) ==> spec_merge_single(e, d, now).url == e.url,
        locked(e, "status"@) ==> spec_merge_single(e, d, now).status == e.status,
        locked(e, "description"@) ==> spec_merge_single(e, d, now).description
            == e.description,
        locked(e, "hidden"@) ==> spec_merge_single(e, d, now).hidden == e.hidden,
        locked(e, "favorite"@) ==> spec_merge_single(e, d, now).favorite == e.favorite,
        spec_merge_single(e, d, now).locked_fields == e.locked_fields,
        spec_merge_single(e, d, now).id == e.id,
{
}

/// Merging the same discovered entry into an already-merged entry changes
/// nothing more.
pub proof fn lemma_merge_single_idempotent(e: EntryV, d: EntryV, now: i64)
    ensures
        absorbed(spec_merge_single(e, d, now), d, now),
{
    assert(spec_merge_single(spec_merge_single(e, d, now), d, now) =~~= spec_merge_single(
        e,
        d,
        now,
    ));
}

/// On a catalog with unique ids, keying by id changes nothing.
pub proof fn lemma_dedup_identity(s: Seq<EntryV>)
    requires
        unique_ids(s),
    ensures
        dedup_by_id(s) == s,
    decreases s.len(),
{
    if s.len() > 0 {
        assert(unique_ids(s.drop_last())) by {
            assert(forall|i: int|
                0 <= i < s.drop_last().len() ==> s.drop_last()[i] == s[i]);
        }
        lemma_dedup_identity(s.drop_last());
        assert(forall|j: int| 0 <= j < s.drop_last().len() ==> s.drop_last()[j].id != s.last().id);
        lemma_find_entry(s.drop_last(), s.last().id, s.drop_last().len() as int);
        assert(s.drop_last().push(s.last()) =~= s);
    }
}

/// A merge pass counts exactly one outcome per discovered entry: stale
/// entries are not counted, and the scan-phase numbers survive untouched.
pub proof fn lemma_merge_pass_counts(acc: Seq<EntryV>, d: Seq<EntryV>, now: i64, s: StatusV)
    requires
        s.added + s.updated + s.unchanged + d.len() <= usize::MAX,
    ensures
        ({
            let t = merge_pass(acc, d, now, s).1;
            &&& t.added + t.updated + t.unchanged == s.added + s.updated + s.unchanged + d.len()
            &&& t.last_started_at == s.last_started_at
            &&& t.last_finished_at == s.last_finished_at
            &&& t.last_error == s.last_error
            &&& t.scanned_units == s.scanned_units
            &&& t.active_units == s.active_units
            &&& t.matched_ports == s.matched_ports
            &&& t.discovered_services == s.discovered_services
        }),
    decreases d.len(),
{
    if d.len() > 0 {
        lemma_merge_pass_counts(acc, d.drop_last(), now, s);
    }
}

/// An entry whose id discovery never names keeps its place and value through
/// the merge pass.
pub proof fn lemma_merge_pass_untouched(
    acc: Seq<EntryV>,
    d: Seq<EntryV>,
    now: i64,
    s: StatusV,
    i: int,
)
    requires
        0 <= i < acc.len(),
        !ids_of(d).contains(acc[i].id),
    ensures
        merge_pass(acc, d, now, s).0.len() >= acc.len(),
        merge_pass(acc, d, now, s).0[i] == acc[i],
    decreases d.len(),
{
    if d.len() > 0 {
        assert(!ids_of(d.drop_last()).contains(acc[i].id)) by {
            if ids_of(d.drop_last()).contains(acc[i].id) {
                let k = choose|k: int|
                    0 <= k < d.drop_last().len() && d.drop_last()[k].id == acc[i].id;
                assert(d[k].id == acc[i].id);
                assert(ids_of(d).contains(acc[i].id));
            }
        }
        lemma_merge_pass_untouched(acc, d.drop_last(), now, s, i);
        let r = merge_pass(acc, d.drop_last(), now, s);
        let dl = d.last();
        let j = find_entry(r.0, dl.id);
        lemma_find_entry_props(r.0, dl.id);
        assert(ids_of(d).contains(dl.id)) by {
            assert(d[d.len() - 1].id == dl.id);
        }
        if j >= 0 {
            assert(r.0[j].id == dl.id);
            assert(r.0[i] == acc[i]);
            assert(acc[i].id != dl.id);
            assert(j != i);
        }
    }
}

/// When every discovered id already has an entry, a merge pass keeps every
/// entry in place (with its id), and leaves every entry that shares an id
/// with a discovered entry absorbed by it.
pub proof fn lemma_merge_pass_absorbs(acc: Seq<EntryV>, d: Seq<EntryV>, now: i64, s: StatusV)
    requires
        unique_ids(acc),
        unique_ids(d),
        forall|k: int| 0 <= k < d.len() ==> has_id(acc, #[trigger] d[k].id),
    ensures
        merge_pass(acc, d, now, s).0.len() == acc.len(),
        forall|i: int|
            0 <= i < acc.len() ==> #[trigger] merge_pass(acc, d, now, s).0[i].id == acc[i].id,
        forall|k: int, i: int|
            0 <= k < d.len() && 0 <= i < acc.len() && #[trigger] merge_pass(
                acc,
                d,
                now,
                s,
            ).0[i].id == d[k].id ==> absorbed(merge_pass(acc, d, now, s).0[i], #[trigger] d[k], now),
    decreases d.len(),
{
    if d.len() > 0 {
        assert(unique_ids(d.drop_last())) by {
            assert(forall|i: int|
                0 <= i < d.drop_last().len() ==> d.drop_last()[i] == d[i]);
        }
        assert(forall|k: int|
            0 <= k < d.drop_last().len() ==> has_id(acc, #[trigger] d.drop_last()[k].id)) by {
            assert(forall|k: int| 0 <= k < d.drop_last().len() ==> d.drop_last()[k] == d[k]);
        }
        lemma_merge_pass_absorbs(acc, d.drop_last(), now, s, );
        let r = merge_pass(acc, d.drop_last(), now, s);
        let dl = d.last();
        let j = find_entry(r.0, dl.id);
        lemma_find_entry_props(r.0, dl.id);
        // the discovered id is present, so the find succeeds
        assert(has_id(acc, dl.id)) by {
            assert(d[d.len() - 1].id == dl.id);
        }
        let w = choose|w: int| 0 <= w < acc.len() && acc[w].id == dl.id;
        assert(r.0[w].id == dl.id);
        assert(j >= 0);
        let m = spec_merge_single(r.0[j], dl, now);
        lemma_merge_single_idempotent(r.0[j], dl, now);
        let a2 = merge_pass(acc, d, now, s).0;
        assert(a2 == r.0.update(j, m));
        assert(m.id == r.0[j].id);
        assert(forall|i: int| 0 <= i < acc.len() ==> #[trigger] a2[i].id == acc[i].id);
        assert forall|k: int, i: int|
            0 <= k < d.len() && 0 <= i < acc.len() && #[trigger] a2[i].id == d[k].id implies
            absorbed(a2[i], #[trigger] d[k], now) by {
            assert(r.0[j].id == dl.id);
            assert(acc[j].id == dl.id);
            if k == d.len() - 1 {
                assert(d[k] == dl);
                // only position j carries this id
                assert(acc[i].id == dl.id);
                if i != j {
                    assert(acc[i].id != acc[j].id);
                    assert(false);
                }
                assert(a2[i] == m);
                assert(absorbed(m, dl, now));
            } else {
                assert(d.drop_last()[k] == d[k]);
                assert(d[k].id != dl.id);
                assert(acc[i].id == d[k].id);
                assert(i != j);
                assert(a2[i] == r.0[i]);
                assert(merge_pass(acc, d.drop_last(), now, s).0[i].id == d.drop_last()[k].id);
                assert(absorbed(r.0[i], d.drop_last()[k], now));
            }
        }
    }
}

/// A merge pass over a catalog that has already absorbed every discovered
/// entry changes nothing and reports every entry as unchanged.
pub proof fn lemma_pass_on_absorbed(m: Seq<EntryV>, d: Seq<EntryV>, now: i64, s: StatusV)
    requires
        unique_ids(m),
        forall|k: int| 0 <= k < d.len() ==> has_id(m, #[trigger] d[k].id),
        forall|k: int, i: int|
            0 <= k < d.len() && 0 <= i < m.len() && #[trigger] m[i].id == #[trigger] d[k].id
                ==> absorbed(m[i], d[k], now),
        s.unchanged + d.len() <= usize::MAX,
    ensures
        merge_pass(m, d, now, s).0 == m,
        merge_pass(m, d, now, s).1 == (StatusV {
            unchanged: (s.unchanged + d.len()) as usize,
            ..s
        }),
    decreases d.len(),
{
    if d.len() == 0 {
        assert(merge_pass(m, d, now, s).1 =~~= (StatusV {
            unchanged: (s.unchanged + 0) as usize,
            ..s
        }));
    } else {
        assert(forall|k: int|
            0 <= k < d.drop_last().len() ==> has_id(m, #[trigger] d.drop_last()[k].id)) by {
            assert(forall|k: int| 0 <= k < d.drop_last().len() ==> d.drop_last()[k] == d[k]);
        }
        assert(forall|k: int, i: int|
            0 <= k < d.drop_last().len() && 0 <= i < m.len() && #[trigger] m[i].id
                == #[trigger] d.drop_last()[k].id ==> absorbed(m[i], d.drop_last()[k], now)) by {
            assert(forall|k: int| 0 <= k < d.drop_last().len() ==> d.drop_last()[k] == d[k]);
        }
        lemma_pass_on_absorbed(m, d.drop_last(), now, s);
        let r = merge_pass(m, d.drop_last(), now, s);
        assert(r.0 == m);
        let dl = d.last();
        let j = find_entry(m, dl.id);
        lemma_find_entry_props(m, dl.id);
        assert(has_id(m, dl.id)) by {
            assert(d[d.len() - 1].id == dl.id);
        }
        let w = choose|w: int| 0 <= w < m.len() && m[w].id == dl.id;
        assert(j >= 0);
        assert(m[j].id == dl.id);
        assert(absorbed(m[j], dl, now)) by {
            assert(d[d.len() - 1] == dl);
        }
        assert(spec_merge_single(m[j], dl, now) == m[j]);
        assert(m.update(j, m[j]) =~= m);
        assert(merge_pass(m, d, now, s).1 =~~= (StatusV {
            unchanged: (s.unchanged + d.len()) as usize,
            ..s
        }));
    }
}

/// A discovered entry whose id the catalog already carries is never counted
/// as added: together with the count total, such a pass splits its outcomes
/// entirely between updated and unchanged.
pub proof fn lemma_merge_pass_no_added(acc: Seq<EntryV>, d: Seq<EntryV>, now: i64, s: StatusV)
    requires
        forall|k: int| 0 <= k < d.len() ==> has_id(acc, #[trigger] d[k].id),
    ensures
        merge_pass(acc, d, now, s).1.added == s.added,
    decreases d.len(),
{
    if d.len() > 0 {
        assert(forall|k: int|
            0 <= k < d.drop_last().len() ==> has_id(acc, #[trigger] d.drop_last()[k].id)) by {
            assert(forall|k: int| 0 <= k < d.drop_last().len() ==> d.drop_last()[k] == d[k]);
        }
        lemma_merge_pass_no_added(acc, d.drop_last(), now, s);
        lemma_merge_pass_ids(acc, d.drop_last(), now, s);
        let r = merge_pass(acc, d.drop_last(), now, s);
        let dl = d.last();
        assert(has_id(acc, dl.id)) by {
            assert(d[d.len() - 1].id == dl.id);
        }
        let w = choose|w: int| 0 <= w < acc.len() && acc[w].id == dl.id;
        assert(r.0[w].id == dl.id);
        lemma_find_entry_props(r.0, dl.id);
        assert(find_entry(r.0, dl.id) >= 0);
    }
}

/// A merge pass keeps every existing entry's position and id; whatever it
/// appends carries a discovered id.
pub proof fn lemma_merge_pass_ids(acc: Seq<EntryV>, d: Seq<EntryV>, now: i64, s: StatusV)
    ensures
        merge_pass(acc, d, now, s).0.len() >= acc.len(),
        forall|i: int|
            0 <= i < acc.len() ==> #[trigger] merge_pass(acc, d, now, s).0[i].id == acc[i].id,
        forall|t: int|
            acc.len() <= t < merge_pass(acc, d, now, s).0.len() ==> ids_of(d).contains(
                #[trigger] merge_pass(acc, d, now, s).0[t].id,
            ),
    decreases d.len(),
{
    if d.len() > 0 {
        lemma_merge_pass_ids(acc, d.drop_last(), now, s);
        let r = merge_pass(acc, d.drop_last(), now, s);
        let dl = d.last();
        let j = find_entry(r.0, dl.id);
        lemma_find_entry_props(r.0, dl.id);
        let a2 = merge_pass(acc, d, now, s).0;
        if j >= 0 {
            assert(a2 == r.0.update(j, spec_merge_single(r.0[j], dl, now)));
            assert(spec_merge_single(r.0[j], dl, now).id == r.0[j].id);
        } else {
            assert(a2 == r.0.push(dl));
            assert(ids_of(d).contains(dl.id)) by {
                assert(d[d.len() - 1].id == dl.id);
            }
        }
        assert forall|t: int| acc.len() <= t < a2.len() implies ids_of(d).contains(
            #[trigger] a2[t].id,
        ) by {
            if t < r.0.len() {
                assert(ids_of(d.drop_last()).contains(r.0[t].id));
                let w = choose|w: int|
                    0 <= w < d.drop_last().len() && d.drop_last()[w].id == r.0[t].id;
                assert(d[w].id == r.0[t].id);
                assert(ids_of(d).contains(r.0[t].id));
                assert(a2[t].id == r.0[t].id);
            } else {
                assert(a2[t] == dl);
                assert(d[d.len() - 1].id == dl.id);
            }
        }
    }
}

/// With unique ids on both sides, the entry that shares its id with a
/// discovered entry ends the merge pass as exactly the field-level merge of
/// the two.
pub proof fn lemma_merge_pass_merges_at(
    acc: Seq<EntryV>,
    d: Seq<EntryV>,
    now: i64,
    s: StatusV,
    i: int,
    k: int,
)
    requires
        unique_ids(acc),
        unique_ids(d),
        0 <= i < acc.len(),
        0 <= k < d.len(),
        acc[i].id == d[k].id,
    ensures
        merge_pass(acc, d, now, s).0[i] == spec_merge_single(acc[i], d[k], now),
    decreases d.len(),
{
    lemma_merge_pass_ids(acc, d, now, s);
    let r = merge_pass(acc, d.drop_last(), now, s);
    let dl = d.last();
    let j = find_entry(r.0, dl.id);
    lemma_find_entry_props(r.0, dl.id);
    lemma_merge_pass_ids(acc, d.drop_last(), now, s);
    let a2 = merge_pass(acc, d, now, s).0;
    if k == d.len() - 1 {
        assert(d[k] == dl);
        // the earlier passes never named this id
        assert(!ids_of(d.drop_last()).contains(acc[i].id)) by {
            if ids_of(d.drop_last()).contains(acc[i].id) {
                let w = choose|w: int|
                    0 <= w < d.drop_last().len() && d.drop_last()[w].id == acc[i].id;
                assert(d[w].id == d[k].id);
                assert(w < k);
                assert(false);
            }
        }
        lemma_merge_pass_untouched(acc, d.drop_last(), now, s, i);
        assert(r.0[i] == acc[i]);
        // position i is the only one carrying this id
        assert(j >= 0) by {
            if j == -1 {
                assert(r.0[i].id != dl.id);
            }
        }
        assert(r.0[j].id == dl.id);
        assert(j == i) by {
            if j != i {
                if j < acc.len() {
                    assert(r.0[j].id == acc[j].id);
                    assert(acc[j].id == acc[i].id);
                    assert(false);
                } else {
                    assert(ids_of(d.drop_last()).contains(r.0[j].id));
                    assert(false);
                }
            }
        }
        assert(a2 == r.0.update(i, spec_merge_single(r.0[i], dl, now)));
        assert(a2[i] == spec_merge_single(acc[i], d[k], now));
    } else {
        assert(d.drop_last()[k] == d[k]);
        assert(unique_ids(d.drop_last())) by {
            assert(forall|w: int| 0 <= w < d.drop_last().len() ==> d.drop_last()[w] == d[w]);
        }
        lemma_merge_pass_merges_at(acc, d.drop_last(), now, s, i, k);
        assert(r.0[i] == spec_merge_single(acc[i], d[k], now));
        // the last discovered entry carries a different id and lands elsewhere
        assert(dl.id != d[k].id) by {
            assert(d[d.len() - 1].id == dl.id);
        }
        assert(r.0[i].id == acc[i].id);
        if j >= 0 {
            assert(r.0[j].id == dl.id);
            assert(j != i);
            assert(a2 == r.0.update(j, spec_merge_single(r.0[j], dl, now)));
            assert(a2[i] == r.0[i]);
        } else {
            assert(a2 == r.0.push(dl));
            assert(a2[i] == r.0[i]);
        }
    }
}

/// Field-level merge in the whole reconciliation: when an existing entry and
/// a discovered entry share an id, the merged catalog carries exactly their
/// field-level merge — locked fields kept from the existing entry, the other
/// mergeable fields taken from the discovered one (see
/// `lemma_locked_fields_preserved` for the per-field reading).
pub proof fn lemma_matched_merge_in_catalog(
    current: Seq<EntryV>,
    discovered: Seq<EntryV>,
    now: i64,
    s0: StatusV,
    i: int,
    k: int,
)
    requires
        unique_ids(current),
        unique_ids(discovered),
        0 <= i < current.len(),
        0 <= k < discovered.len(),
        current[i].id == discovered[k].id,
    ensures
        ({
            let m = spec_merge(current, discovered, now, s0).0;
            exists|j: int|
                0 <= j < m.len() && m[j] == spec_merge_single(current[i], discovered[k], now)
        }),
{
    lemma_dedup_identity(current);
    lemma_merge_pass_merges_at(current, discovered, now, s0, i, k);
    lemma_merge_pass_ids(current, discovered, now, s0);
    let a1 = merge_pass(current, discovered, now, s0).0;
    let merged = spec_merge_single(current[i], discovered[k], now);
    assert(a1[i] == merged);
    let ids = ids_of(discovered);
    assert(ids.contains(a1[i].id)) by {
        assert(merged.id == current[i].id);
        assert(discovered[k].id == current[i].id);
    }
    let a2 = mark_stale(a1, ids, now);
    assert(a2[i] == merged);
    assert(a2.contains(merged)) by {
        assert(a2[i] == merged);
    }
    crate::text::lemma_sort_ordered_contains(entry_name_leq(), a2, merged);
    let m = sort_ordered_by(entry_name_leq(), a2);
    assert(m.contains(merged));
    let j = choose|j: int| 0 <= j < m.len() && m[j] == merged;
    assert(m == spec_merge(current, discovered, now, s0).0);
    assert(spec_merge(current, discovered, now, s0).0[j] == merged);
}

/// Stale demotion: an entry of the catalog whose id discovery does not name
/// survives the whole merge soft-retired — present in the result with its
/// status forced to unknown and its timestamp refreshed — and is counted in
/// none of the added, updated or unchanged tallies, which total exactly one
/// per discovered entry.
pub proof fn lemma_stale_demotion(
    current: Seq<EntryV>,
    discovered: Seq<EntryV>,
    now: i64,
    s0: StatusV,
    i: int,
)
    requires
        unique_ids(current),
        0 <= i < current.len(),
        !ids_of(discovered).contains(current[i].id),
        s0.added + s0.updated + s0.unchanged + discovered.len() <= usize::MAX,
    ensures
        ({
            let m = spec_merge(current, discovered, now, s0).0;
            exists|j: int|
                0 <= j < m.len() && m[j] == (EntryV {
                    status: ServiceStatus::Unknown,
                    updated_at: now,
                    ..current[i]
                })
        }),
        ({
            let t = spec_merge(current, discovered, now, s0).1;
            t.added + t.updated + t.unchanged == s0.added + s0.updated + s0.unchanged
                + discovered.len()
        }),
{
    lemma_dedup_identity(current);
    lemma_merge_pass_counts(current, discovered, now, s0);
    lemma_merge_pass_untouched(current, discovered, now, s0, i);
    let a1 = merge_pass(current, discovered, now, s0).0;
    assert(a1[i] == current[i]);
    let ids = ids_of(discovered);
    let a2 = mark_stale(a1, ids, now);
    let stale = EntryV { status: ServiceStatus::Unknown, updated_at: now, ..current[i] };
    assert(a2[i] == stale);
    assert(a2.contains(stale)) by {
        assert(a2[i] == stale);
    }
    crate::text::lemma_sort_ordered_contains(entry_name_leq(), a2, stale);
    let m = sort_ordered_by(entry_name_leq(), a2);
    assert(m.contains(stale));
    let j = choose|j: int| 0 <= j < m.len() && m[j] == stale;
    assert(m == spec_merge(current, discovered, now, s0).0);
    assert(spec_merge(current, discovered, now, s0).0[j] == stale);
}

/// Merge idempotence: reconciling the same discovered set again, at the same
/// time, against the catalog that a first reconciliation produced leaves the
/// catalog identical, and the second pass reports every discovered entry as
/// unchanged and adds or updates nothing. This needs every discovered id to
/// be carried by the current catalog already: a discovered entry with a
/// fresh id is inserted verbatim by the first pass, and the second pass
/// still rewrites its provenance to `Merged`, an update.
pub proof fn lemma_merge_idempotent(
    current: Seq<EntryV>,
    discovered: Seq<EntryV>,
    now: i64,
    s0: StatusV,
    s1: StatusV,
)
    requires
        unique_ids(current),
        unique_ids(discovered),
        forall|k: int| 0 <= k < discovered.len() ==> has_id(current, #[trigger] discovered[k].id),
        s1.unchanged + discovered.len() <= usize::MAX,
    ensures
        spec_merge(spec_merge(current, discovered, now, s0).0, discovered, now, s1).0
            == spec_merge(current, discovered, now, s0).0,
        spec_merge(spec_merge(current, discovered, now, s0).0, discovered, now, s1).1 == (StatusV {
            unchanged: (s1.unchanged + discovered.len()) as usize,
            ..s1
        }),
{
    broadcast use vstd::seq_lib::group_to_multiset_ensures;

    let leq = entry_name_leq();
    lemma_dedup_identity(current);
    lemma_merge_pass_absorbs(current, discovered, now, s0);
    let a1 = merge_pass(current, discovered, now, s0).0;
    let ids = ids_of(discovered);
    let a2 = mark_stale(a1, ids, now);
    let m1 = sort_ordered_by(leq, a2);
    // positions keep their ids through the pass and the stale marking
    assert(a1.len() == current.len());
    assert(forall|t: int| 0 <= t < a2.len() ==> #[trigger] a2[t].id == a1[t].id);
    assert(unique_ids(a2)) by {
        assert(forall|t: int| 0 <= t < a2.len() ==> #[trigger] a2[t].id == current[t].id);
    }
    // every entry that shares an id with a discovered entry is absorbed,
    // and every entry outside the discovered ids is already soft-retired
    assert(forall|k: int, t: int|
        0 <= k < discovered.len() && 0 <= t < a2.len() && #[trigger] a2[t].id
            == #[trigger] discovered[k].id ==> a2[t] == a1[t] && absorbed(
            a2[t],
            discovered[k],
            now,
        )) by {
        assert(forall|k: int|
            0 <= k < discovered.len() ==> ids.contains(#[trigger] discovered[k].id));
    }
    assert(forall|t: int|
        0 <= t < a2.len() && !ids.contains(#[trigger] a2[t].id) ==> a2[t].status
            == ServiceStatus::Unknown && a2[t].updated_at == now);
    // the sort permutes: membership carries every per-entry fact over
    crate::text::lemma_sort_ordered_multiset(leq, a2);
    m1.to_multiset_ensures();
    a2.to_multiset_ensures();
    assert forall|x: EntryV| #[trigger] m1.contains(x) == a2.contains(x) by {
        assert(m1.to_multiset().count(x) == a2.to_multiset().count(x));
    }
    // ids stay unique through the permutation
    assert(a2.no_duplicates()) by {
        assert(forall|p: int, q: int|
            0 <= p < a2.len() && 0 <= q < a2.len() && p != q ==> #[trigger] a2[p] != #[trigger] a2[q])
            by {
            assert(forall|p: int, q: int|
                0 <= p < q < a2.len() ==> #[trigger] a2[p].id != #[trigger] a2[q].id);
        }
    }
    a2.lemma_multiset_has_no_duplicates();
    assert(forall|x: EntryV|
        #[trigger] m1.to_multiset().contains(x) ==> m1.to_multiset().count(x) == 1);
    m1.lemma_multiset_has_no_duplicates_conv();
    assert(unique_ids(m1)) by {
        assert forall|p: int, q: int| 0 <= p < q < m1.len() implies #[trigger] m1[p].id
            != #[trigger] m1[q].id by {
            if m1[p].id == m1[q].id {
                assert(m1[p] != m1[q]);
                assert(m1.contains(m1[p])) by {
                    assert(m1[p] == m1[p]);
                }
                assert(m1.contains(m1[q]));
                assert(a2.contains(m1[p]));
                assert(a2.contains(m1[q]));
                let u = choose|u: int| 0 <= u < a2.len() && a2[u] == m1[p];
                let v = choose|v: int| 0 <= v < a2.len() && a2[v] == m1[q];
                assert(a2[u].id == a2[v].id);
                assert(u != v);
                assert(false);
            }
        }
    }
    // every discovered id is still present
    assert forall|k: int| 0 <= k < discovered.len() implies has_id(
        m1,
        #[trigger] discovered[k].id,
    ) by {
        let w = choose|w: int| 0 <= w < current.len() && current[w].id == discovered[k].id;
        assert(a2[w].id == discovered[k].id);
        assert(a2.contains(a2[w])) by {
            assert(a2[w] == a2[w]);
        }
        assert(m1.contains(a2[w]));
        let j = choose|j: int| 0 <= j < m1.len() && m1[j] == a2[w];
        assert(m1[j].id == discovered[k].id);
    }
    // every entry that shares an id with a discovered entry is absorbed
    assert forall|k: int, t: int|
        0 <= k < discovered.len() && 0 <= t < m1.len() && #[trigger] m1[t].id
            == #[trigger] discovered[k].id implies absorbed(m1[t], discovered[k], now) by {
        assert(m1.contains(m1[t])) by {
            assert(m1[t] == m1[t]);
        }
        assert(a2.contains(m1[t]));
        let u = choose|u: int| 0 <= u < a2.len() && a2[u] == m1[t];
        assert(a2[u].id == discovered[k].id);
        assert(absorbed(a2[u], discovered[k], now));
    }
    // every entry outside the discovered ids is already soft-retired
    assert(forall|t: int|
        0 <= t < m1.len() && !ids.contains(#[trigger] m1[t].id) ==> m1[t].status
            == ServiceStatus::Unknown && m1[t].updated_at == now) by {
        assert forall|t: int| 0 <= t < m1.len() && !ids.contains(#[trigger] m1[t].id) implies
            m1[t].status == ServiceStatus::Unknown && m1[t].updated_at == now by {
            assert(m1.contains(m1[t])) by {
                assert(m1[t] == m1[t]);
            }
            assert(a2.contains(m1[t]));
            let u = choose|u: int| 0 <= u < a2.len() && a2[u] == m1[t];
            assert(!ids.contains(a2[u].id));
        }
    }
    // the first merge's result is sorted
    assert(forall|a: EntryV, b: EntryV| #[trigger] leq(a, b) || leq(b, a)) by {
        assert forall|a: EntryV, b: EntryV| #[trigger] leq(a, b) || leq(b, a) by {
            crate::text::lemma_lex_le_total(a.display_name, b.display_name);
        }
    }
    assert(forall|a: EntryV, b: EntryV, c: EntryV|
        #[trigger] leq(a, b) && #[trigger] leq(b, c) ==> leq(a, c)) by {
        assert forall|a: EntryV, b: EntryV, c: EntryV|
            #[trigger] leq(a, b) && #[trigger] leq(b, c) implies leq(a, c) by {
            crate::text::lemma_lex_le_trans(a.display_name, b.display_name, c.display_name);
        }
    }
    crate::text::lemma_sort_ordered_sorted(leq, a2);
    // the second merge changes nothing
    lemma_dedup_identity(m1);
    lemma_pass_on_absorbed(m1, discovered, now, s1);
    assert(merge_pass(m1, discovered, now, s1).0 == m1);
    assert(mark_stale(m1, ids, now) =~= m1) by {
        assert(forall|t: int|
            0 <= t < m1.len() && !ids.contains(#[trigger] m1[t].id) ==> (EntryV {
                status: ServiceStatus::Unknown,
                updated_at: now,
                ..m1[t]
            }) =~~= m1[t]);
    }
    crate::text::lemma_sort_of_sorted(leq, m1);
}

} // verus!
