//! The catalog service: querying, creating and updating entries, and
//! committing discovery results. The in-memory state here is the part worth
//! reasoning about; callers wrap it in whatever synchronization they need.
use vstd::prelude::*;
use vstd::pervasive::VecAdditionalExecFns;

use crate::merge::{entry_name_leq, find_entry, merge_services, spec_merge};
use crate::models::{
    spec_into_entry, spec_normalize_locks, zero_status,
    CreateServiceRequest, DiscoveryStatusInfo, EntryV, QueryV, ServiceEntry, ServiceQuery,
    ServiceStatus, UpdateReqV, UpdateServiceRequest,
};
use crate::text::{
    dec_i64_of, dec_of, insert_ordered_by, is_substring, lex_le, lower_of, sort_ordered_by,
    trim_of,
};

verus! {

/// A group for matching purposes: an absent group matches the empty text.
pub open spec fn group_value(g: Option<Seq<char>>) -> Seq<char> {
    match g {
        Option::Some(x) => x,
        Option::None => Seq::empty(),
    }
}

/// The free-text needle occurs, case-insensitively, in the display name,
/// the service name, a tag, the group, or the port written in decimal.
pub open spec fn text_matches(e: EntryV, needle: Seq<char>) -> bool {
    ||| is_substring(lower_of(e.display_name), needle)
    ||| is_substring(lower_of(e.service_name), needle)
    ||| exists|k: int| 0 <= k < e.tags.len() && is_substring(lower_of(e.tags[k]), needle)
    ||| (e.group is Some && is_substring(lower_of(e.group->0), needle))
    ||| (e.port is Some && is_substring(dec_of(e.port->0 as nat), needle))
}

/// Whether an entry satisfies a query's group, status and free-text filters.
pub open spec fn spec_matches_query(e: EntryV, q: QueryV) -> bool {
    &&& (match q.group {
        Option::Some(g) => group_value(e.group) == g,
        Option::None => true,
    })
    &&& (match q.status {
        Option::Some(s) => e.status == s,
        Option::None => true,
    })
    &&& (match q.q {
        Option::Some(text) => text_matches(e, lower_of(text)),
        Option::None => true,
    })
}

fn lower_contains(hay: &str, needle: &Vec<char>) -> (r: bool)
    ensures
        r == is_substring(lower_of(hay@), needle@),
{
    let lowered = crate::text::lower(hay);
    let hv = crate::text::str_to_chars(lowered.as_str());
    crate::text::contains_chars(&hv, needle)
}

/// Decides whether an entry satisfies a query.
pub fn matches_query(entry: &ServiceEntry, query: &ServiceQuery) -> (r: bool)
    ensures
        r == spec_matches_query(entry.deep_view(), query.deep_view()),
{
    match &query.group {
        Option::Some(g) => {
            let matched = match &entry.group {
                Option::Some(eg) => crate::text::eq_str(eg.as_str(), g.as_str()),
                Option::None => g.as_str().is_empty(),
            };
            proof {
                if g@.len() == 0 {
                    assert(Seq::<char>::empty() =~= g@);
                }
                assert(matched == (group_value(entry.deep_view().group) == g@));
            }
            if !matched {
                return false;
            }
        },
        Option::None => {},
    }
    match &query.status {
        Option::Some(s) => {
            if !(entry.status == *s) {
                return false;
            }
        },
        Option::None => {},
    }
    match &query.q {
        Option::Some(text) => {
            let lowered = crate::text::lower(text.as_str());
            let needle = crate::text::str_to_chars(lowered.as_str());
            if lower_contains(entry.display_name.as_str(), &needle) {
                return true;
            }
            if lower_contains(entry.service_name.as_str(), &needle) {
                return true;
            }
            let mut k: usize = 0;
            while k < entry.tags.len()
                invariant
                    k <= entry.tags@.len(),
                    needle@ == lower_of(text@),
                    query.deep_view().q == Option::Some(text@),
                    (match query.deep_view().group {
                        Option::Some(g) => group_value(entry.deep_view().group) == g,
                        Option::None => true,
                    }),
                    (match query.deep_view().status {
                        Option::Some(s) => entry.deep_view().status == s,
                        Option::None => true,
                    }),
                    forall|m: int|
                        0 <= m < k ==> !is_substring(
                            lower_of(entry.deep_view().tags[m]),
                            needle@,
                        ),
                decreases entry.tags@.len() - k,
            {
                if lower_contains(entry.tags[k].as_str(), &needle) {
                    proof {
                        assert(entry.deep_view().tags[k as int] == entry.tags@[k as int]@);
                        assert(is_substring(lower_of(entry.deep_view().tags[k as int]), needle@));
                    }
                    return true;
                }
                proof {
                    assert(entry.deep_view().tags[k as int] == entry.tags@[k as int]@);
                }
                k = k + 1;
            }
            match &entry.group {
                Option::Some(g) => {
                    if lower_contains(g.as_str(), &needle) {
                        return true;
                    }
                },
                Option::None => {},
            }
            match entry.port {
                Option::Some(p) => {
                    let ps = crate::text::u64_to_string(p as u64);
                    let pv = crate::text::str_to_chars(ps.as_str());
                    if crate::text::contains_chars(&pv, &needle) {
                        return true;
                    }
                },
                Option::None => {},
            }
            proof {
                assert(!text_matches(entry.deep_view(), lower_of(text@)));
            }
            false
        },
        Option::None => true,
    }
}

/// Whether a query shows the entry at all: hidden entries only on request.
pub open spec fn spec_query_keeps(e: EntryV, q: QueryV) -> bool {
    let include_hidden = match q.include_hidden {
        Option::Some(b) => b,
        Option::None => false,
    };
    (include_hidden || !e.hidden) && spec_matches_query(e, q)
}

/// The entries a query returns, in catalog order.
pub open spec fn spec_list(services: Seq<EntryV>, q: QueryV) -> Seq<EntryV>
    decreases services.len(),
{
    if services.len() == 0 {
        Seq::empty()
    } else {
        let r = spec_list(services.drop_last(), q);
        if spec_query_keeps(services.last(), q) {
            r.push(services.last())
        } else {
            r
        }
    }
}

/// Filters a catalog by a query.
pub fn filter_services(services: &Vec<ServiceEntry>, query: &ServiceQuery) -> (r: Vec<
    ServiceEntry,
>)
    ensures
        r.deep_view() == spec_list(services.deep_view(), query.deep_view()),
{
    let ghost sdv = services.deep_view();
    let include_hidden = match query.include_hidden {
        Option::Some(b) => b,
        Option::None => false,
    };
    let mut out: Vec<ServiceEntry> = Vec::new();
    let mut i: usize = 0;
    proof {
        assert(sdv.take(0) =~~= Seq::<EntryV>::empty());
        assert(out.deep_view() =~~= spec_list(sdv.take(0), query.deep_view()));
    }
    while i < services.len()
        invariant
            i <= services@.len(),
            sdv == services.deep_view(),
            include_hidden == (match query.deep_view().include_hidden {
                Option::Some(b) => b,
                Option::None => false,
            }),
            out.deep_view() == spec_list(sdv.take(i as int), query.deep_view()),
        decreases services@.len() - i,
    {
        let ghost q = sdv.take(i + 1);
        proof {
            assert(q.drop_last() =~~= sdv.take(i as int));
            assert(q.last() == sdv[i as int]);
        }
        let keep = (include_hidden || !services[i].hidden) && matches_query(&services[i], query);
        if keep {
            let ghost odv = out.deep_view();
            out.push(services[i].clone());
            proof {
                assert(out.deep_view() =~~= odv.push(sdv[i as int]));
            }
        }
        i = i + 1;
    }
    proof {
        assert(sdv.take(services@.len() as int) =~~= sdv);
    }
    out
}

/// Finds the first entry with the given id.
pub fn find_service(services: &Vec<ServiceEntry>, id: &str) -> (r: Option<ServiceEntry>)
    ensures
        r.deep_view() == (if find_entry(services.deep_view(), id@) >= 0 {
            Option::Some(services.deep_view()[find_entry(services.deep_view(), id@)])
        } else {
            Option::<EntryV>::None
        }),
{
    let ghost sdv = services.deep_view();
    let mut i: usize = 0;
    while i < services.len() && !crate::text::eq_str(services[i].id.as_str(), id)
        invariant
            i <= services@.len(),
            sdv == services.deep_view(),
            forall|j: int| 0 <= j < i ==> sdv[j].id != id@,
        decreases services@.len() - i,
    {
        i = i + 1;
    }
    proof {
        if i < services@.len() {
            assert(sdv[i as int].id == id@);
        }
        crate::merge::lemma_find_entry(sdv, id@, i as int);
    }
    if i < services.len() {
        Option::Some(services[i].clone())
    } else {
        Option::None
    }
}

/// Sorts a catalog by display name with a stable insertion sort.
pub fn sort_by_display_name(services: &Vec<ServiceEntry>) -> (r: Vec<ServiceEntry>)
    ensures
        r.deep_view() == sort_ordered_by(entry_name_leq(), services.deep_view()),
{
    let ghost sdv = services.deep_view();
    let mut out: Vec<ServiceEntry> = Vec::new();
    let mut k: usize = 0;
    proof {
        assert(sdv.take(0) =~~= Seq::<EntryV>::empty());
        assert(out.deep_view() =~~= sort_ordered_by(entry_name_leq(), sdv.take(0)));
    }
    while k < services.len()
        invariant
            k <= services@.len(),
            sdv == services.deep_view(),
            out.deep_view() == sort_ordered_by(entry_name_leq(), sdv.take(k as int)),
        decreases services@.len() - k,
    {
        let e = services[k].clone();
        proof {
            assert(e.deep_view() == sdv[k as int]);
        }
        let ghost odv = out.deep_view();
        let mut p: usize = 0;
        while p < out.len() && crate::text::lex_le_str(&out[p].display_name, &e.display_name)
            invariant
                p <= out@.len(),
                odv == out.deep_view(),
                e.deep_view() == sdv[k as int],
                forall|w: int|
                    0 <= w < p ==> lex_le(odv[w].display_name, e.deep_view().display_name),
            decreases out@.len() - p,
        {
            p = p + 1;
        }
        proof {
            assert(forall|w: int| 0 <= w < p ==> (entry_name_leq())(odv[w], e.deep_view()));
            if (p as int) < odv.len() {
                assert(!(entry_name_leq())(odv[p as int], e.deep_view()));
            }
            crate::text::lemma_insert_ordered_split(entry_name_leq(), odv, e.deep_view(), p as int);
        }
        out.insert(p, e);
        proof {
            assert(out.deep_view() =~~= odv.take(p as int) + seq![sdv[k as int]] + odv.skip(
                p as int,
            ));
            let q = sdv.take(k + 1);
            assert(q.drop_last() =~~= sdv.take(k as int));
            assert(q.last() == sdv[k as int]);
            assert(out.deep_view() =~~= sort_ordered_by(entry_name_leq(), q));
        }
        k = k + 1;
    }
    proof {
        assert(sdv.take(services@.len() as int) =~~= sdv);
    }
    out
}

/// A lock list with `f` appended if it was missing.
pub open spec fn lock_add(l: Seq<Seq<char>>, f: Seq<char>) -> Seq<Seq<char>> {
    if l.contains(f) {
        l
    } else {
        l.push(f)
    }
}

/// Appends `f` to the lock list if it is not there yet.
fn add_lock(locks: &mut Vec<String>, f: &str)
    ensures
        final(locks).deep_view() == lock_add(old(locks).deep_view(), f@),
{
    let mut i: usize = 0;
    while i < locks.len()
        invariant
            i <= locks@.len(),
            locks@ == old(locks)@,
            forall|j: int| 0 <= j < i ==> locks.deep_view()[j] != f@,
        decreases locks@.len() - i,
    {
        if crate::text::eq_str(locks[i].as_str(), f) {
            proof {
                assert(locks.deep_view()[i as int] == f@);
                assert(locks.deep_view().contains(f@));
            }
            return ;
        }
        i = i + 1;
    }
    proof {
        assert(!locks.deep_view().contains(f@));
    }
    let ghost l0 = locks.deep_view();
    locks.push(f.to_owned());
    proof {
        assert(locks.deep_view() =~~= l0.push(f@));
    }
}

/// Whether this update locks the fields it changes; on by default.
pub open spec fn patch_auto(p: UpdateReqV) -> bool {
    match p.auto_lock {
        Option::Some(b) => b,
        Option::None => true,
    }
}

/// The patch writes a new display name: present, not blank, and different
/// from the stored one.
pub open spec fn changes_display_name(e: EntryV, p: UpdateReqV) -> bool {
    p.display_name is Some && trim_of(p.display_name->0).len() > 0 && p.display_name->0
        != e.display_name
}

pub open spec fn changes_description(e: EntryV, p: UpdateReqV) -> bool {
    p.description is Some && p.description->0 != e.description
}

/// The patch writes a new host: present, not blank, and different from the
/// stored one.
pub open spec fn changes_host(e: EntryV, p: UpdateReqV) -> bool {
    p.host is Some && trim_of(p.host->0).len() > 0 && p.host->0 != e.host
}

pub open spec fn changes_port(e: EntryV, p: UpdateReqV) -> bool {
    p.port is Some && p.port->0 != e.port
}

pub open spec fn changes_protocol(e: EntryV, p: UpdateReqV) -> bool {
    p.protocol is Some && p.protocol->0 != e.protocol
}

pub open spec fn changes_path(e: EntryV, p: UpdateReqV) -> bool {
    p.path is Some && p.path->0 != e.path
}

pub open spec fn changes_url(e: EntryV, p: UpdateReqV) -> bool {
    p.url is Some && p.url->0 != e.url
}

pub open spec fn changes_status(e: EntryV, p: UpdateReqV) -> bool {
    p.status is Some && p.status->0 != e.status
}

pub open spec fn changes_group(e: EntryV, p: UpdateReqV) -> bool {
    p.group is Some && p.group->0 != e.group
}

pub open spec fn changes_tags(e: EntryV, p: UpdateReqV) -> bool {
    p.tags is Some && p.tags->0 != e.tags
}

pub open spec fn changes_icon(e: EntryV, p: UpdateReqV) -> bool {
    p.icon is Some && p.icon->0 != e.icon
}

pub open spec fn changes_hidden(e: EntryV, p: UpdateReqV) -> bool {
    p.hidden is Some && p.hidden->0 != e.hidden
}

pub open spec fn changes_favorite(e: EntryV, p: UpdateReqV) -> bool {
    p.favorite is Some && p.favorite->0 != e.favorite
}

/// The lock list after auto-locking the identity and endpoint fields
/// (display name through url), in application order.
pub open spec fn patch_lock_chain_head(e: EntryV, p: UpdateReqV) -> Seq<Seq<char>> {
    let auto = patch_auto(p);
    let l1 = if changes_display_name(e, p) && auto {
        lock_add(e.locked_fields, "display_name"@)
    } else {
        e.locked_fields
    };
    let l2 = if changes_description(e, p) && auto {
        lock_add(l1, "description"@)
    } else {
        l1
    };
    let l3 = if changes_host(e, p) && auto {
        lock_add(l2, "host"@)
    } else {
        l2
    };
    let l4 = if changes_port(e, p) && auto {
        lock_add(l3, "port"@)
    } else {
        l3
    };
    let l5 = if changes_protocol(e, p) && auto {
        lock_add(l4, "protocol"@)
    } else {
        l4
    };
    let l6 = if changes_path(e, p) && auto {
        lock_add(l5, "path"@)
    } else {
        l5
    };
    if changes_url(e, p) && auto {
        lock_add(l6, "url"@)
    } else {
        l6
    }
}

/// The lock list after auto-locking: every field whose stored value the
/// patch actually changes is appended, the status included, in the fixed
/// order the fields are applied.
pub open spec fn patch_lock_chain(e: EntryV, p: UpdateReqV) -> Seq<Seq<char>> {
    let auto = patch_auto(p);
    let l8 = if changes_status(e, p) && auto {
        lock_add(patch_lock_chain_head(e, p), "status"@)
    } else {
        patch_lock_chain_head(e, p)
    };
    let l9 = if changes_group(e, p) && auto {
        lock_add(l8, "group"@)
    } else {
        l8
    };
    let l10 = if changes_tags(e, p) && auto {
        lock_add(l9, "tags"@)
    } else {
        l9
    };
    let l11 = if changes_icon(e, p) && auto {
        lock_add(l10, "icon"@)
    } else {
        l10
    };
    let l12 = if changes_hidden(e, p) && auto {
        lock_add(l11, "hidden"@)
    } else {
        l11
    };
    if changes_favorite(e, p) && auto {
        lock_add(l12, "favorite"@)
    } else {
        l12
    }
}

/// The final lock list of an update: an explicit list replaces the set
/// wholesale, normalized; otherwise the auto-locked chain — so disabling
/// auto-locking leaves the lock list untouched.
pub open spec fn patched_locks(e: EntryV, p: UpdateReqV) -> Seq<Seq<char>> {
    match p.locked_fields {
        Option::Some(lf) => spec_normalize_locks(lf),
        Option::None => patch_lock_chain(e, p),
    }
}

/// How a partial update changes an entry. A field present in the patch is
/// written (blank display names and hosts are ignored); with auto-locking on,
/// every field whose stored value actually changes, the status included, is
/// appended to the lock list in a fixed order; with it off the list stays as
/// it was. An explicit lock list replaces the set wholesale, normalized. The
/// id, service name, provenance and last-seen time never change; the update
/// time always does.
pub open spec fn spec_apply_patch(e: EntryV, p: UpdateReqV, now: i64) -> EntryV {
    EntryV {
        display_name: if p.display_name is Some && trim_of(p.display_name->0).len() > 0 {
            p.display_name->0
        } else {
            e.display_name
        },
        description: if p.description is Some {
            p.description->0
        } else {
            e.description
        },
        host: if p.host is Some && trim_of(p.host->0).len() > 0 {
            p.host->0
        } else {
            e.host
        },
        port: if p.port is Some {
            p.port->0
        } else {
            e.port
        },
        protocol: if p.protocol is Some {
            p.protocol->0
        } else {
            e.protocol
        },
        path: if p.path is Some {
            p.path->0
        } else {
            e.path
        },
        url: if p.url is Some {
            p.url->0
        } else {
            e.url
        },
        status: if p.status is Some {
            p.status->0
        } else {
            e.status
        },
        group: if p.group is Some {
            p.group->0
        } else {
            e.group
        },
        tags: if p.tags is Some {
            p.tags->0
        } else {
            e.tags
        },
        icon: if p.icon is Some {
            p.icon->0
        } else {
            e.icon
        },
        hidden: if p.hidden is Some {
            p.hidden->0
        } else {
            e.hidden
        },
        favorite: if p.favorite is Some {
            p.favorite->0
        } else {
            e.favorite
        },
        locked_fields: patched_locks(e, p),
        updated_at: now,
        ..e
    }
}

/// What creating an entry does to a catalog: the request's entry is built,
/// its id disambiguated with a timestamp suffix on collision, and the
/// catalog re-sorted with the new entry in it.
pub open spec fn spec_create(
    services: Seq<EntryV>,
    req: crate::models::CreateReqV,
    dh: Seq<char>,
    now: i64,
) -> (Seq<EntryV>, EntryV) {
    let e0 = spec_into_entry(req, dh, now);
    let e = if find_entry(services, e0.id) >= 0 {
        EntryV { id: e0.id + seq!['-'] + dec_i64_of(now as int), ..e0 }
    } else {
        e0
    };
    (sort_ordered_by(entry_name_leq(), services.push(e)), e)
}

/// The in-memory catalog: the authoritative entry list, the configured
/// default host, and the latest discovery summary.
#[derive(Debug)]
pub struct CatalogState {
    pub default_host: String,
    pub services: Vec<ServiceEntry>,
    pub discovery_status: DiscoveryStatusInfo,
}

impl CatalogState {
    /// Builds the state from loaded entries, sorted by display name, with a
    /// zero-valued discovery summary.
    pub fn new(default_host: String, services: Vec<ServiceEntry>) -> (r: Self)
        ensures
            r.default_host@ == default_host@,
            r.services.deep_view() == sort_ordered_by(entry_name_leq(), services.deep_view()),
            r.discovery_status.deep_view() == zero_status(),
    {
        let sorted = sort_by_display_name(&services);
        CatalogState {
            default_host,
            services: sorted,
            discovery_status: DiscoveryStatusInfo::default(),
        }
    }

    /// The entries matching a query, hidden ones only on request.
    pub fn list_services(&self, query: &ServiceQuery) -> (r: Vec<ServiceEntry>)
        ensures
            r.deep_view() == spec_list(self.services.deep_view(), query.deep_view()),
    {
        filter_services(&self.services, query)
    }

    /// The entry with the given id, if any.
    pub fn get_service(&self, id: &str) -> (r: Option<ServiceEntry>)
        ensures
            r.deep_view() == (if find_entry(self.services.deep_view(), id@) >= 0 {
                Option::Some(
                    self.services.deep_view()[find_entry(self.services.deep_view(), id@)],
                )
            } else {
                Option::<EntryV>::None
            }),
    {
        find_service(&self.services, id)
    }

    /// Creates an entry from a request, disambiguating a colliding id with a
    /// timestamp suffix, and keeps the catalog sorted. Returns the new entry.
    pub fn create_service(&mut self, request: CreateServiceRequest, now: i64) -> (r: ServiceEntry)
        ensures
            final(self).services.deep_view() == spec_create(
                old(self).services.deep_view(),
                request.deep_view(),
                old(self).default_host@,
                now,
            ).0,
            r.deep_view() == spec_create(
                old(self).services.deep_view(),
                request.deep_view(),
                old(self).default_host@,
                now,
            ).1,
            final(self).default_host@ == old(self).default_host@,
            final(self).discovery_status.deep_view() == old(self).discovery_status.deep_view(),
    {
        let ghost sdv = self.services.deep_view();
        let mut entry = request.into_entry(self.default_host.as_str(), now);
        let mut fi: usize = 0;
        while fi < self.services.len() && !crate::text::eq_str(
            self.services[fi].id.as_str(),
            entry.id.as_str(),
        )
            invariant
                fi <= self.services@.len(),
                self == old(self),
                sdv == self.services.deep_view(),
                forall|j: int| 0 <= j < fi ==> sdv[j].id != entry.deep_view().id,
            decreases self.services@.len() - fi,
        {
            fi = fi + 1;
        }
        proof {
            if fi < self.services@.len() {
                assert(sdv[fi as int].id == entry.deep_view().id);
            }
            crate::merge::lemma_find_entry(sdv, entry.deep_view().id, fi as int);
        }
        let ghost e0 = entry.deep_view();
        if fi < self.services.len() {
            let mut idc = crate::text::str_to_chars(entry.id.as_str());
            idc.push('-');
            crate::text::push_dec_i64(&mut idc, now);
            proof {
                assert(idc@ =~= e0.id + seq!['-'] + dec_i64_of(now as int));
            }
            entry.id = crate::text::chars_to_string(&idc);
            proof {
                assert(entry.deep_view() =~~= (EntryV {
                    id: e0.id + seq!['-'] + dec_i64_of(now as int),
                    ..e0
                }));
            }
        }
        self.services.push(entry.clone());
        proof {
            assert(self.services.deep_view() =~~= sdv.push(entry.deep_view()));
        }
        let sorted = sort_by_display_name(&self.services);
        self.services = sorted;
        entry
    }

    /// Applies a partial update to the entry with the given id, keeping the
    /// catalog sorted; `None` when no entry has the id.
    #[verifier::rlimit(100)]
    pub fn update_service(&mut self, id: &str, patch: UpdateServiceRequest, now: i64) -> (r:
        Option<ServiceEntry>)
        ensures
            final(self).default_host@ == old(self).default_host@,
            final(self).discovery_status.deep_view() == old(self).discovery_status.deep_view(),
            find_entry(old(self).services.deep_view(), id@) < 0 ==> ((r is None)
                && final(self).services.deep_view() == old(self).services.deep_view()),
            find_entry(old(self).services.deep_view(), id@) >= 0 ==> {
                let sdv = old(self).services.deep_view();
                let fi = find_entry(sdv, id@);
                let e2 = spec_apply_patch(sdv[fi], patch.deep_view(), now);
                &&& r.deep_view() == Option::Some(e2)
                &&& final(self).services.deep_view() == sort_ordered_by(
                    entry_name_leq(),
                    sdv.update(fi, e2),
                )
            },
    {
        let ghost sdv = self.services.deep_view();
        let mut fi: usize = 0;
        while fi < self.services.len() && !crate::text::eq_str(
            self.services[fi].id.as_str(),
            id,
        )
            invariant
                fi <= self.services@.len(),
                self == old(self),
                sdv == self.services.deep_view(),
                forall|j: int| 0 <= j < fi ==> sdv[j].id != id@,
            decreases self.services@.len() - fi,
        {
            fi = fi + 1;
        }
        proof {
            if fi < self.services@.len() {
                assert(sdv[fi as int].id == id@);
            }
            crate::merge::lemma_find_entry(sdv, id@, fi as int);
        }
        if fi >= self.services.len() {
            return Option::None;
        }
        let e = self.services[fi].clone();
        proof {
            assert(e.deep_view() == sdv[fi as int]);
        }
        let updated = apply_patch(&e, patch, now);
        self.services.set(fi, updated.clone());
        proof {
            assert(self.services.deep_view() =~~= sdv.update(
                fi as int,
                spec_apply_patch(sdv[fi as int], patch.deep_view(), now),
            ));
        }
        let sorted = sort_by_display_name(&self.services);
        self.services = sorted;
        Option::Some(updated)
    }

    /// Commits one discovery pass: reconciles the discovered entries into
    /// the catalog and records the run's summary.
    pub fn commit_discovery(
        &mut self,
        discovered: &Vec<ServiceEntry>,
        summary: DiscoveryStatusInfo,
        now: i64,
    ) -> (r: DiscoveryStatusInfo)
        requires
            summary.added + summary.updated + summary.unchanged + discovered@.len()
                <= usize::MAX,
        ensures
            final(self).services.deep_view() == spec_merge(
                old(self).services.deep_view(),
                discovered.deep_view(),
                now,
                summary.deep_view(),
            ).0,
            final(self).discovery_status.deep_view() == spec_merge(
                old(self).services.deep_view(),
                discovered.deep_view(),
                now,
                summary.deep_view(),
            ).1,
            r.deep_view() == spec_merge(
                old(self).services.deep_view(),
                discovered.deep_view(),
                now,
                summary.deep_view(),
            ).1,
            final(self).default_host@ == old(self).default_host@,
    {
        let merged = merge_services(&self.services, discovered, summary, now);
        let (services, s2) = merged;
        self.services = services;
        self.discovery_status = s2.clone();
        s2
    }

    /// The last recorded discovery summary, zero-valued before any run.
    pub fn discovery_status(&self) -> (r: DiscoveryStatusInfo)
        ensures
            r.deep_view() == self.discovery_status.deep_view(),
    {
        self.discovery_status.clone()
    }
}

/// Auto-locks the identity and endpoint fields that the patch changes.
#[verifier::rlimit(100)]
fn locks_head_exec(
    e: &ServiceEntry,
    patch: &UpdateServiceRequest,
    auto: bool,
    locks: &mut Vec<String>,
)
    requires
        old(locks).deep_view() == e.deep_view().locked_fields,
        auto == patch_auto(patch.deep_view()),
    ensures
        final(locks).deep_view() == patch_lock_chain_head(e.deep_view(), patch.deep_view()),
{
    let ghost ev = e.deep_view();
    let ghost pv = patch.deep_view();
    let ghost ga = patch_auto(pv);
    let ghost gl1 = if changes_display_name(ev, pv) && ga {
        lock_add(ev.locked_fields, "display_name"@)
    } else {
        ev.locked_fields
    };
    let ghost gl2 = if changes_description(ev, pv) && ga {
        lock_add(gl1, "description"@)
    } else {
        gl1
    };
    let ghost gl3 = if changes_host(ev, pv) && ga {
        lock_add(gl2, "host"@)
    } else {
        gl2
    };
    let ghost gl4 = if changes_port(ev, pv) && ga {
        lock_add(gl3, "port"@)
    } else {
        gl3
    };
    let ghost gl5 = if changes_protocol(ev, pv) && ga {
        lock_add(gl4, "protocol"@)
    } else {
        gl4
    };
    let ghost gl6 = if changes_path(ev, pv) && ga {
        lock_add(gl5, "path"@)
    } else {
        gl5
    };
    let ghost gl7 = if changes_url(ev, pv) && ga {
        lock_add(gl6, "url"@)
    } else {
        gl6
    };
    let c_dn = match &patch.display_name {
        Option::Some(d) => !crate::text::is_blank_str(d.as_str()) && !crate::text::eq_str(
            d.as_str(),
            e.display_name.as_str(),
        ),
        Option::None => false,
    };
    if c_dn {
        if auto {
            add_lock(locks, "display_name");
        }
    }
    proof {
        assert(c_dn == changes_display_name(ev, pv));
        assert(locks.deep_view() == gl1);
    }
    let c_desc = match &patch.description {
        Option::Some(d) => !crate::models::opt_str_eq(d, &e.description),
        Option::None => false,
    };
    if c_desc {
        if auto {
            add_lock(locks, "description");
        }
    }
    proof {
        assert(c_desc == changes_description(ev, pv));
        assert(locks.deep_view() == gl2);
    }
    let c_host = match &patch.host {
        Option::Some(h) => !crate::text::is_blank_str(h.as_str()) && !crate::text::eq_str(
            h.as_str(),
            e.host.as_str(),
        ),
        Option::None => false,
    };
    if c_host {
        if auto {
            add_lock(locks, "host");
        }
    }
    proof {
        assert(c_host == changes_host(ev, pv));
        assert(locks.deep_view() == gl3);
    }
    let c_port = match patch.port {
        Option::Some(p) => !crate::models::opt_u16_eq(&p, &e.port),
        Option::None => false,
    };
    if c_port {
        if auto {
            add_lock(locks, "port");
        }
    }
    proof {
        assert(c_port == changes_port(ev, pv));
        assert(locks.deep_view() == gl4);
    }
    let c_proto = match patch.protocol {
        Option::Some(p) => !(p == e.protocol),
        Option::None => false,
    };
    if c_proto {
        if auto {
            add_lock(locks, "protocol");
        }
    }
    proof {
        assert(c_proto == changes_protocol(ev, pv));
        assert(locks.deep_view() == gl5);
    }
    let c_path = match &patch.path {
        Option::Some(v) => !crate::models::opt_str_eq(v, &e.path),
        Option::None => false,
    };
    if c_path {
        if auto {
            add_lock(locks, "path");
        }
    }
    proof {
        assert(c_path == changes_path(ev, pv));
        assert(locks.deep_view() == gl6);
    }
    let c_url = match &patch.url {
        Option::Some(v) => !crate::models::opt_str_eq(v, &e.url),
        Option::None => false,
    };
    if c_url {
        if auto {
            add_lock(locks, "url");
        }
    }
    proof {
        assert(c_url == changes_url(ev, pv));
        assert(locks.deep_view() == gl7);
        assert(gl7 == patch_lock_chain_head(ev, pv));
    }
}

/// Computes the lock list an update leaves behind.
#[verifier::rlimit(100)]
fn patched_locks_exec(e: &ServiceEntry, patch: &UpdateServiceRequest) -> (r: Vec<String>)
    ensures
        r.deep_view() == patched_locks(e.deep_view(), patch.deep_view()),
{
    let ghost ev = e.deep_view();
    let ghost pv = patch.deep_view();
    let ghost ga = patch_auto(pv);
    let ghost gh = patch_lock_chain_head(ev, pv);
    let ghost gl8 = if changes_status(ev, pv) && ga {
        lock_add(gh, "status"@)
    } else {
        gh
    };
    let ghost gl9 = if changes_group(ev, pv) && ga {
        lock_add(gl8, "group"@)
    } else {
        gl8
    };
    let ghost gl10 = if changes_tags(ev, pv) && ga {
        lock_add(gl9, "tags"@)
    } else {
        gl9
    };
    let ghost gl11 = if changes_icon(ev, pv) && ga {
        lock_add(gl10, "icon"@)
    } else {
        gl10
    };
    let ghost gl12 = if changes_hidden(ev, pv) && ga {
        lock_add(gl11, "hidden"@)
    } else {
        gl11
    };
    let ghost gl13 = if changes_favorite(ev, pv) && ga {
        lock_add(gl12, "favorite"@)
    } else {
        gl12
    };
    let auto = match patch.auto_lock {
        Option::Some(b) => b,
        Option::None => true,
    };
    let mut locks = crate::models::clone_string_vec(&e.locked_fields);
    locks_head_exec(e, patch, auto, &mut locks);
    let c_status = match patch.status {
        Option::Some(s) => !(s == e.status),
        Option::None => false,
    };
    if c_status {
        if auto {
            add_lock(&mut locks, "status");
        }
    }
    proof {
        assert(c_status == changes_status(ev, pv));
        assert(locks.deep_view() == gl8);
    }
    let c_group = match &patch.group {
        Option::Some(v) => !crate::models::opt_str_eq(v, &e.group),
        Option::None => false,
    };
    if c_group {
        if auto {
            add_lock(&mut locks, "group");
        }
    }
    proof {
        assert(c_group == changes_group(ev, pv));
        assert(locks.deep_view() == gl9);
    }
    let c_tags = match &patch.tags {
        Option::Some(t) => !crate::models::string_vec_eq(t, &e.tags),
        Option::None => false,
    };
    if c_tags {
        if auto {
            add_lock(&mut locks, "tags");
        }
    }
    proof {
        assert(c_tags == changes_tags(ev, pv));
        assert(locks.deep_view() == gl10);
    }
    let c_icon = match &patch.icon {
        Option::Some(v) => !crate::models::opt_str_eq(v, &e.icon),
        Option::None => false,
    };
    if c_icon {
        if auto {
            add_lock(&mut locks, "icon");
        }
    }
    proof {
        assert(c_icon == changes_icon(ev, pv));
        assert(locks.deep_view() == gl11);
    }
    let c_hidden = match patch.hidden {
        Option::Some(h) => h != e.hidden,
        Option::None => false,
    };
    if c_hidden {
        if auto {
            add_lock(&mut locks, "hidden");
        }
    }
    proof {
        assert(c_hidden == changes_hidden(ev, pv));
        assert(locks.deep_view() == gl12);
    }
    let c_fav = match patch.favorite {
        Option::Some(f) => f != e.favorite,
        Option::None => false,
    };
    if c_fav {
        if auto {
            add_lock(&mut locks, "favorite");
        }
    }
    proof {
        assert(c_fav == changes_favorite(ev, pv));
        assert(locks.deep_view() == gl13);
        assert(gl13 == patch_lock_chain(ev, pv));
    }
    match &patch.locked_fields {
        Option::Some(lf) => {
            let mut explicit = crate::models::clone_string_vec(lf);
            crate::models::normalize_locked_fields(&mut explicit);
            explicit
        },
        Option::None => locks,
    }
}

/// Applies a partial update to one entry.
#[verifier::rlimit(100)]
pub fn apply_patch(e: &ServiceEntry, patch: UpdateServiceRequest, now: i64) -> (r: ServiceEntry)
    ensures
        r.deep_view() == spec_apply_patch(e.deep_view(), patch.deep_view(), now),
{
    let ghost ev = e.deep_view();
    let ghost pv = patch.deep_view();
    let locks_final = patched_locks_exec(e, &patch);
    let UpdateServiceRequest {
        display_name,
        description,
        host,
        port,
        protocol,
        path,
        url,
        status,
        group,
        tags,
        icon,
        hidden,
        favorite,
        locked_fields: _,
        auto_lock: _,
    } = patch;
    let display_name_v = match display_name {
        Option::Some(d) => {
            if !crate::text::is_blank_str(d.as_str()) {
                d
            } else {
                e.display_name.clone()
            }
        },
        Option::None => e.display_name.clone(),
    };
    let description_v = match description {
        Option::Some(d) => d,
        Option::None => crate::models::clone_opt_string(&e.description),
    };
    let host_v = match host {
        Option::Some(h) => {
            if !crate::text::is_blank_str(h.as_str()) {
                h
            } else {
                e.host.clone()
            }
        },
        Option::None => e.host.clone(),
    };
    let port_v = match port {
        Option::Some(p) => p,
        Option::None => e.port,
    };
    let protocol_v = match protocol {
        Option::Some(p) => p,
        Option::None => e.protocol,
    };
    let path_v = match path {
        Option::Some(p) => p,
        Option::None => crate::models::clone_opt_string(&e.path),
    };
    let url_v = match url {
        Option::Some(u) => u,
        Option::None => crate::models::clone_opt_string(&e.url),
    };
    let status_v = match status {
        Option::Some(s) => s,
        Option::None => e.status,
    };
    let group_v = match group {
        Option::Some(g) => g,
        Option::None => crate::models::clone_opt_string(&e.group),
    };
    let tags_v = match tags {
        Option::Some(t) => t,
        Option::None => crate::models::clone_string_vec(&e.tags),
    };
    let icon_v = match icon {
        Option::Some(ic) => ic,
        Option::None => crate::models::clone_opt_string(&e.icon),
    };
    let hidden_v = match hidden {
        Option::Some(h) => h,
        Option::None => e.hidden,
    };
    let favorite_v = match favorite {
        Option::Some(f) => f,
        Option::None => e.favorite,
    };
    let updated = ServiceEntry {
        id: e.id.clone(),
        service_name: e.service_name.clone(),
        display_name: display_name_v,
        description: description_v,
        host: host_v,
        port: port_v,
        protocol: protocol_v,
        path: path_v,
        url: url_v,
        status: status_v,
        group: group_v,
        tags: tags_v,
        icon: icon_v,
        hidden: hidden_v,
        favorite: favorite_v,
        source: e.source,
        locked_fields: locks_final,
        last_seen_at: e.last_seen_at,
        updated_at: now,
    };
    proof {
        assert(updated.deep_view() =~~= spec_apply_patch(ev, pv, now));
    }
    updated
}

} // verus!
