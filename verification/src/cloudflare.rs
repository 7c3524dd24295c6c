//! The DNS-provider client: zone matching for the configured domains, the
//! request each step of a run sends, and the session that decides, response
//! by response, what happens next.

use vstd::prelude::*;

use crate::lookup::{ipv4_text, ipv4_to_string, Ipv4};
use crate::util::{lower_of, lowercase, remove_whitespace, split_char, split_on, without_spaces};
use crate::FatalError;

verus! {

/// The provider-side credential and domain list, as the config holds it:
/// `domains` is a comma-separated list of fully-qualified names.
pub struct Cloudflare {
    pub auth_token: String,
    pub account_id: String,
    pub domains: String,
}

/// An `{id, name}` element of a provider response: a managed zone, or a
/// DNS record (whose `name` is the record's domain).
pub struct Zone {
    pub id: String,
    pub name: String,
}

#[verifier::ext_equal]
pub struct ZoneView {
    pub id: Seq<char>,
    pub name: Seq<char>,
}

impl View for Zone {
    type V = ZoneView;

    open spec fn view(&self) -> ZoneView {
        ZoneView { id: self.id@, name: self.name@ }
    }
}

/// Per-run working state for one configured domain: the zone it belongs
/// to, once matched, and the record to patch, once found.
pub struct DomainTarget {
    pub domain: String,
    pub zone: Option<Zone>,
    pub record_id: Option<String>,
}

#[verifier::ext_equal]
pub struct TargetView {
    pub domain: Seq<char>,
    pub zone: Option<ZoneView>,
    pub record_id: Option<Seq<char>>,
}

impl View for DomainTarget {
    type V = TargetView;

    open spec fn view(&self) -> TargetView {
        TargetView {
            domain: self.domain@,
            zone: match self.zone {
                Some(z) => Some(z@),
                None => None,
            },
            record_id: match self.record_id {
                Some(id) => Some(id@),
                None => None,
            },
        }
    }
}

pub open spec fn zones_view(zs: Seq<Zone>) -> Seq<ZoneView> {
    zs.map_values(|z: Zone| z@)
}

pub open spec fn targets_view(ts: Seq<DomainTarget>) -> Seq<TargetView> {
    ts.map_values(|t: DomainTarget| t@)
}

pub open spec fn texts_view(ds: Seq<String>) -> Seq<Seq<char>> {
    ds.map_values(|d: String| d@)
}

/// The suffix of `d` that starts at `i`.
pub open spec fn suffix_from(d: Seq<char>, i: int) -> Seq<char> {
    d.subrange(i, d.len() as int)
}

/// Whether the suffix of `d` starting at `i` is a candidate parent name:
/// it starts at the front or right after a dot, and it still contains a
/// dot (so the bare last label never counts, and a dotless domain has no
/// candidates at all).
pub open spec fn candidate_at(d: Seq<char>, i: int) -> bool {
    &&& 0 <= i < d.len()
    &&& (i == 0 || d[i - 1] == '.')
    &&& suffix_from(d, i).contains('.')
}

/// Whether `t` lies in the candidate parent-name set of `d`.
pub open spec fn is_candidate(d: Seq<char>, t: Seq<char>) -> bool {
    exists|i: int| candidate_at(d, i) && t == suffix_from(d, i)
}

/// Whether some entry of `list` reads `t`.
pub open spec fn contains_text(list: Seq<String>, t: Seq<char>) -> bool {
    exists|k: int| 0 <= k < list.len() && (#[trigger] list[k])@ == t
}

/// The candidate parent names of `domain`, one per dot boundary that
/// still has a dot behind it.
pub fn candidate_suffixes(domain: &str) -> (r: Vec<String>)
    ensures
        forall|k: int| 0 <= k < r@.len() ==> is_candidate(domain@, (#[trigger] r@[k])@),
        forall|i: int|
            #[trigger] candidate_at(domain@, i) ==> contains_text(r@, suffix_from(domain@, i)),
{
    let n = domain.unicode_len();
    let mut last_dot: Option<usize> = None;
    let mut j: usize = 0;
    while j < n
        invariant
            n == domain@.len(),
            j <= n,
            match last_dot {
                None => forall|k: int| 0 <= k < j ==> domain@[k] != '.',
                Some(p) => p < j && domain@[p as int] == '.' && forall|k: int|
                    p < k < j ==> domain@[k] != '.',
            },
        decreases n - j,
    {
        if domain.get_char(j) == '.' {
            last_dot = Some(j);
        }
        j = j + 1;
    }
    let p = match last_dot {
        None => {
            let r: Vec<String> = Vec::new();
            proof {
                assert forall|i: int| #[trigger] candidate_at(domain@, i) implies contains_text(
                    r@,
                    suffix_from(domain@, i),
                ) by {
                    let t = suffix_from(domain@, i);
                    let w = choose|w: int| 0 <= w < t.len() && t[w] == '.';
                    assert(domain@[i + w] == '.');
                };
            }
            return r;
        },
        Some(p) => p,
    };
    let mut out: Vec<String> = Vec::new();
    let mut i: usize = 0;
    while i < n
        invariant
            n == domain@.len(),
            i <= n,
            p < n,
            domain@[p as int] == '.',
            forall|k: int| p < k < n ==> domain@[k] != '.',
            forall|k: int| 0 <= k < out@.len() ==> is_candidate(domain@, (#[trigger] out@[k])@),
            forall|i2: int|
                0 <= i2 < i && #[trigger] candidate_at(domain@, i2) ==> contains_text(
                    out@,
                    suffix_from(domain@, i2),
                ),
        decreases n - i,
    {
        let boundary = if i == 0 {
            true
        } else {
            domain.get_char(i - 1) == '.'
        };
        if boundary && i <= p {
            let ghost old_out = out@;
            let piece = domain.substring_char(i, n);
            out.push(piece.to_owned());
            proof {
                assert(piece@ =~= suffix_from(domain@, i as int));
                assert(suffix_from(domain@, i as int)[p - i as int] == '.');
                assert(suffix_from(domain@, i as int).contains('.'));
                assert(candidate_at(domain@, i as int));
                assert(is_candidate(domain@, (out@[out@.len() - 1])@));
                assert forall|i2: int|
                    0 <= i2 < i + 1 && #[trigger] candidate_at(domain@, i2) implies contains_text(
                    out@,
                    suffix_from(domain@, i2),
                ) by {
                    if i2 < i {
                        let w = choose|w: int|
                            0 <= w < old_out.len() && (#[trigger] old_out[w])@ == suffix_from(
                                domain@,
                                i2,
                            );
                        assert((out@[w])@ == suffix_from(domain@, i2));
                    } else {
                        assert((out@[out@.len() - 1])@ == suffix_from(domain@, i2));
                    }
                };
            }
        } else {
            proof {
                if candidate_at(domain@, i as int) {
                    let t = suffix_from(domain@, i as int);
                    let w = choose|w: int| 0 <= w < t.len() && t[w] == '.';
                    assert(domain@[i + w] == '.');
                    assert(i + w <= p);
                    assert(i <= p);
                    assert(boundary);
                    assert(false);
                }
            }
        }
        i = i + 1;
    }
    out
}

/// Whether `t` reads the same as some entry of `list`.
pub fn contains_string(list: &Vec<String>, t: &String) -> (r: bool)
    ensures
        r == contains_text(list@, t@),
{
    let mut k: usize = 0;
    while k < list.len()
        invariant
            k <= list@.len(),
            forall|w: int| 0 <= w < k ==> (#[trigger] list@[w])@ != t@,
        decreases list@.len() - k,
    {
        if list[k].eq(t) {
            return true;
        }
        k = k + 1;
    }
    false
}

/// The first zone of `zs`, in provider order, whose name is a candidate
/// parent name of `d`; ties between zones are broken by that order.
pub open spec fn first_match(zs: Seq<ZoneView>, d: Seq<char>) -> Option<ZoneView>
    decreases zs.len(),
{
    if zs.len() == 0 {
        None
    } else if is_candidate(d, zs[0].name) {
        Some(zs[0])
    } else {
        first_match(zs.drop_first(), d)
    }
}

proof fn lemma_first_match_at(zs: Seq<ZoneView>, d: Seq<char>, j: int)
    requires
        0 <= j < zs.len(),
        forall|k: int| 0 <= k < j ==> !is_candidate(d, (#[trigger] zs[k]).name),
        is_candidate(d, zs[j].name),
    ensures
        first_match(zs, d) == Some(zs[j]),
    decreases j,
{
    if j > 0 {
        lemma_first_match_at(zs.drop_first(), d, j - 1);
    }
}

proof fn lemma_first_match_none(zs: Seq<ZoneView>, d: Seq<char>)
    requires
        forall|k: int| 0 <= k < zs.len() ==> !is_candidate(d, (#[trigger] zs[k]).name),
    ensures
        first_match(zs, d) is None,
    decreases zs.len(),
{
    if zs.len() > 0 {
        lemma_first_match_none(zs.drop_first(), d);
    }
}

fn clone_zone(z: &Zone) -> (r: Zone)
    ensures
        r@ == z@,
{
    Zone { id: z.id.clone(), name: z.name.clone() }
}

/// The first zone owning `domain`, in provider order.
pub fn find_zone(domain: &String, zones: &Vec<Zone>) -> (r: Option<Zone>)
    ensures
        (match r {
            Some(z) => Some(z@),
            None => None,
        }) == first_match(zones_view(zones@), domain@),
{
    let candidates = candidate_suffixes(domain.as_str());
    let mut j: usize = 0;
    while j < zones.len()
        invariant
            j <= zones@.len(),
            forall|k: int|
                0 <= k < j ==> !is_candidate(domain@, (#[trigger] zones_view(zones@)[k]).name),
            forall|k: int|
                0 <= k < candidates@.len() ==> is_candidate(domain@, (#[trigger] candidates@[k])@),
            forall|i: int|
                #[trigger] candidate_at(domain@, i) ==> contains_text(
                    candidates@,
                    suffix_from(domain@, i),
                ),
        decreases zones@.len() - j,
    {
        if contains_string(&candidates, &zones[j].name) {
            proof {
                let w = choose|w: int|
                    0 <= w < candidates@.len() && (#[trigger] candidates@[w])@ == zones@[j as int].name@;
                assert(is_candidate(domain@, zones@[j as int].name@));
                lemma_first_match_at(zones_view(zones@), domain@, j as int);
            }
            return Some(clone_zone(&zones[j]));
        }
        proof {
            if is_candidate(domain@, zones_view(zones@)[j as int].name) {
                let i = choose|i: int|
                    candidate_at(domain@, i) && zones_view(zones@)[j as int].name == suffix_from(
                        domain@,
                        i,
                    );
                assert(contains_text(candidates@, suffix_from(domain@, i)));
                assert(false);
            }
        }
        j = j + 1;
    }
    proof {
        lemma_first_match_none(zones_view(zones@), domain@);
    }
    None
}

/// One target per domain, in the given order: the first matching zone in
/// provider order, or absent when no zone name is a candidate.
pub open spec fn match_targets(ds: Seq<Seq<char>>, zs: Seq<ZoneView>) -> Seq<TargetView> {
    ds.map_values(
        |d: Seq<char>| TargetView { domain: d, zone: first_match(zs, d), record_id: None },
    )
}

/// Find the owning zone of every configured domain: per-run working state
/// with `zone` filled where one matched and absent where none did.
pub fn match_zone(domains: &Vec<String>, zones: &Vec<Zone>) -> (r: Vec<DomainTarget>)
    ensures
        targets_view(r@) == match_targets(texts_view(domains@), zones_view(zones@)),
{
    let mut out: Vec<DomainTarget> = Vec::new();
    let mut i: usize = 0;
    while i < domains.len()
        invariant
            i <= domains@.len(),
            out@.len() == i,
            targets_view(out@) == match_targets(texts_view(domains@), zones_view(zones@)).take(
                i as int,
            ),
        decreases domains@.len() - i,
    {
        let zone = find_zone(&domains[i], zones);
        let target = DomainTarget {
            domain: domains[i].clone(),
            zone,
            record_id: None,
        };
        out.push(target);
        proof {
            let ds = texts_view(domains@);
            let zv = zones_view(zones@);
            assert(ds[i as int] == domains@[i as int]@);
            assert(targets_view(out@)[i as int] == target@);
            assert(target@.domain == ds[i as int]);
            assert(target@.zone == first_match(zv, ds[i as int]));
            assert(match_targets(ds, zv)[i as int] == (TargetView {
                domain: ds[i as int],
                zone: first_match(zv, ds[i as int]),
                record_id: None,
            }));
            assert(target@ =~~= match_targets(ds, zv)[i as int]);
            assert(targets_view(out@) =~~= match_targets(ds, zv).take(i + 1 as int));
        }
        i = i + 1;
    }
    proof {
        assert(match_targets(texts_view(domains@), zones_view(zones@)).take(
            domains@.len() as int,
        ) =~~= match_targets(texts_view(domains@), zones_view(zones@)));
    }
    out
}

/// The configured domain list: lower-cased, whitespace dropped, split on
/// commas.
pub open spec fn domains_of(config_text: Seq<char>) -> Seq<Seq<char>> {
    split_on(without_spaces(lower_of(config_text)), ',')
}

/// Read the comma-separated domain list out of the config's `domains`
/// field, as the provider run uses it.
pub fn parse_domains(domains: &String) -> (r: Vec<String>)
    ensures
        texts_view(r@) == domains_of(domains@),
{
    let lowered = lowercase(domains.as_str());
    let cleaned = remove_whitespace(lowered.as_str());
    let r = split_char(cleaned.as_str(), ',');
    proof {
        assert(texts_view(r@) =~~= domains_of(domains@));
    }
    r
}

/// A zone assigned to a domain carries a name out of the domain's
/// candidate set: a suffix of the domain that begins at the front or
/// right after a dot and still contains a dot. Ties between zones go to
/// the earliest in provider order, so the name is also the first such
/// among the zone list.
pub proof fn lemma_first_match_is_candidate(zs: Seq<ZoneView>, d: Seq<char>)
    requires
        first_match(zs, d) is Some,
    ensures
        is_candidate(d, first_match(zs, d)->0.name),
        exists|k: int| 0 <= k < zs.len() && zs[k] == first_match(zs, d)->0,
    decreases zs.len(),
{
    if zs.len() > 0 {
        if is_candidate(d, zs[0].name) {
            assert(zs[0] == first_match(zs, d)->0);
        } else {
            lemma_first_match_is_candidate(zs.drop_first(), d);
            let k = choose|k: int|
                0 <= k < zs.drop_first().len() && zs.drop_first()[k] == first_match(zs, d)->0;
            assert(zs[k + 1] == first_match(zs, d)->0);
        }
    }
}

/// The matched zone's name, where `match_zone` assigned one, reads as a
/// contiguous dot-boundary suffix of the domain itself.
pub proof fn lemma_matched_zone_is_dotted_suffix(ds: Seq<Seq<char>>, zs: Seq<ZoneView>, k: int)
    requires
        0 <= k < ds.len(),
        match_targets(ds, zs)[k].zone is Some,
    ensures
        is_candidate(ds[k], match_targets(ds, zs)[k].zone->0.name),
        ({
            let name = match_targets(ds, zs)[k].zone->0.name;
            &&& name.len() <= ds[k].len()
            &&& name == suffix_from(ds[k], ds[k].len() - name.len())
            &&& name.contains('.')
        }),
{
    lemma_first_match_is_candidate(zs, ds[k]);
    let name = match_targets(ds, zs)[k].zone->0.name;
    let i = choose|i: int| candidate_at(ds[k], i) && name == suffix_from(ds[k], i);
    assert(name.len() == ds[k].len() - i);
    let w = choose|w: int| 0 <= w < name.len() && name[w] == '.';
    assert(name.contains('.'));
}

/// A domain is left without a zone only when no zone's name lies in its
/// candidate set; in particular a domain without a dot never matches.
pub proof fn lemma_unmatched_means_no_candidate(zs: Seq<ZoneView>, d: Seq<char>)
    requires
        first_match(zs, d) is None,
    ensures
        forall|k: int| 0 <= k < zs.len() ==> !is_candidate(d, (#[trigger] zs[k]).name),
    decreases zs.len(),
{
    if zs.len() > 0 {
        lemma_unmatched_means_no_candidate(zs.drop_first(), d);
        assert forall|k: int| 0 <= k < zs.len() implies !is_candidate(
            d,
            (#[trigger] zs[k]).name,
        ) by {
            if k > 0 {
                assert(zs.drop_first()[k - 1] == zs[k]);
            }
        };
    }
}

/// What one per-domain run step reports.
#[derive(Debug, Clone, Copy, PartialEq, Eq, Structural)]
pub enum Outcome {
    /// The record was patched, or already carried the address.
    Updated,
    /// No zone in the account owns the domain.
    ZoneNotFound,
    /// The zone holds no `A` record of that name, or the lookup call
    /// failed.
    RecordNotFound,
    /// The provider answered the patch with a non-success status.
    UpdateRejected,
}

/// A per-domain outcome, reported as the run goes; per-domain failures
/// never abort the rest of the run.
pub struct Report {
    pub domain: String,
    pub outcome: Outcome,
}

#[verifier::ext_equal]
pub struct ReportView {
    pub domain: Seq<char>,
    pub outcome: Outcome,
}

impl View for Report {
    type V = ReportView;

    open spec fn view(&self) -> ReportView {
        ReportView { domain: self.domain@, outcome: self.outcome }
    }
}

pub open spec fn reports_view(rs: Seq<Report>) -> Seq<ReportView> {
    rs.map_values(|r: Report| r@)
}

/// Where a run stands: credential check, zone listing, then one record
/// lookup per target, then one patch per target that has a record.
#[derive(Debug, Clone, Copy, PartialEq, Eq, Structural)]
pub enum Phase {
    Verify,
    Zones,
    Lookup { next: usize },
    Patch { next: usize },
    Done,
    Aborted,
}

/// The one request the run wants sent next.
pub enum Request {
    VerifyToken { url: String },
    ListZones { url: String },
    FindRecord { url: String },
    PatchRecord { url: String, body: String },
}

#[verifier::ext_equal]
pub enum RequestView {
    VerifyToken { url: Seq<char> },
    ListZones { url: Seq<char> },
    FindRecord { url: Seq<char> },
    PatchRecord { url: Seq<char>, body: Seq<char> },
}

impl View for Request {
    type V = RequestView;

    open spec fn view(&self) -> RequestView {
        match self {
            Request::VerifyToken { url } => RequestView::VerifyToken { url: url@ },
            Request::ListZones { url } => RequestView::ListZones { url: url@ },
            Request::FindRecord { url } => RequestView::FindRecord { url: url@ },
            Request::PatchRecord { url, body } => RequestView::PatchRecord {
                url: url@,
                body: body@,
            },
        }
    }
}

pub open spec fn api_base() -> Seq<char> {
    "https://api.cloudflare.com/client/v4/"@
}

pub open spec fn verify_url_text() -> Seq<char> {
    api_base() + "user/tokens/verify"@
}

pub open spec fn zones_url_text(account_id: Seq<char>) -> Seq<char> {
    api_base() + "zones?status=active&account.id="@ + account_id
        + "&page=1&per_page=100&order=status&match=all"@
}

pub open spec fn records_url_text(zone_id: Seq<char>, domain: Seq<char>) -> Seq<char> {
    api_base() + "zones/"@ + zone_id + "/dns_records?type=A&name="@ + domain
        + "&page=1&per_page=100&order=type&direction=desc&match=all"@
}

pub open spec fn patch_url_text(zone_id: Seq<char>, record_id: Seq<char>) -> Seq<char> {
    api_base() + "zones/"@ + zone_id + "/dns_records/"@ + record_id
}

pub open spec fn patch_body_text(domain: Seq<char>, ip: Seq<char>) -> Seq<char> {
    "{\"type\":\"A\",\"name\":\""@ + domain + "\",\"content\":\""@ + ip + "\"}"@
}

/// The credential-check endpoint.
pub fn verify_url() -> (r: String)
    ensures
        r@ == verify_url_text(),
{
    String::from_str("https://api.cloudflare.com/client/v4/").concat("user/tokens/verify")
}

/// The first page of the account's active zones.
pub fn zones_url(account_id: &String) -> (r: String)
    ensures
        r@ == zones_url_text(account_id@),
{
    String::from_str("https://api.cloudflare.com/client/v4/").concat(
        "zones?status=active&account.id=",
    ).concat(account_id.as_str()).concat("&page=1&per_page=100&order=status&match=all")
}

/// The first page of `A` records named exactly `domain` in the zone.
pub fn records_url(zone_id: &String, domain: &String) -> (r: String)
    ensures
        r@ == records_url_text(zone_id@, domain@),
{
    String::from_str("https://api.cloudflare.com/client/v4/").concat("zones/").concat(
        zone_id.as_str(),
    ).concat("/dns_records?type=A&name=").concat(domain.as_str()).concat(
        "&page=1&per_page=100&order=type&direction=desc&match=all",
    )
}

/// The endpoint of one record, for the patch.
pub fn patch_url(zone_id: &String, record_id: &String) -> (r: String)
    ensures
        r@ == patch_url_text(zone_id@, record_id@),
{
    String::from_str("https://api.cloudflare.com/client/v4/").concat("zones/").concat(
        zone_id.as_str(),
    ).concat("/dns_records/").concat(record_id.as_str())
}

/// The patch payload: an `A` record named `domain` carrying `ip`.
pub fn patch_body(domain: &String, ip: &String) -> (r: String)
    ensures
        r@ == patch_body_text(domain@, ip@),
{
    String::from_str("{\"type\":\"A\",\"name\":\"").concat(domain.as_str()).concat(
        "\",\"content\":\"",
    ).concat(ip.as_str()).concat("\"}")
}

/// The targets kept for the run: the domains that matched a zone, in
/// their configured order, each with its zone and no record yet.
pub open spec fn matched_of(ds: Seq<Seq<char>>, zs: Seq<ZoneView>) -> Seq<TargetView>
    decreases ds.len(),
{
    if ds.len() == 0 {
        Seq::empty()
    } else {
        let rest = matched_of(ds.drop_last(), zs);
        match first_match(zs, ds.last()) {
            Some(z) => rest.push(TargetView { domain: ds.last(), zone: Some(z), record_id: None }),
            None => rest,
        }
    }
}

/// One report per domain that no zone owns, in configured order.
pub open spec fn unmatched_reports(ds: Seq<Seq<char>>, zs: Seq<ZoneView>) -> Seq<ReportView>
    decreases ds.len(),
{
    if ds.len() == 0 {
        Seq::empty()
    } else {
        let rest = unmatched_reports(ds.drop_last(), zs);
        match first_match(zs, ds.last()) {
            Some(_) => rest,
            None => rest.push(ReportView { domain: ds.last(), outcome: Outcome::ZoneNotFound }),
        }
    }
}

proof fn lemma_matched_of_props(ds: Seq<Seq<char>>, zs: Seq<ZoneView>)
    ensures
        forall|k: int|
            0 <= k < matched_of(ds, zs).len() ==> (#[trigger] matched_of(ds, zs)[k]).zone is Some
                && matched_of(ds, zs)[k].record_id is None,
    decreases ds.len(),
{
    if ds.len() > 0 {
        lemma_matched_of_props(ds.drop_last(), zs);
    }
}

/// The phase that patches the first target at or after `from` that has a
/// record id, or the end of the run when none is left.
pub open spec fn next_patch(ts: Seq<TargetView>, from: int) -> Phase
    decreases ts.len() - from,
{
    if from < 0 || from >= ts.len() {
        Phase::Done
    } else if ts[from].record_id is Some {
        Phase::Patch { next: from as usize }
    } else {
        next_patch(ts, from + 1)
    }
}

proof fn lemma_next_patch_props(ts: Seq<TargetView>, from: int)
    requires
        0 <= from <= ts.len(),
        ts.len() <= usize::MAX,
    ensures
        next_patch(ts, from) is Patch || next_patch(ts, from) is Done,
        next_patch(ts, from) matches Phase::Patch { next } ==> from <= next < ts.len()
            && ts[next as int].record_id is Some,
    decreases ts.len() - from,
{
    if from < ts.len() && !(ts[from].record_id is Some) {
        lemma_next_patch_props(ts, from + 1);
    }
}

/// The whole state a run carries between responses.
#[verifier::ext_equal]
pub struct SessionView {
    pub auth_token: Seq<char>,
    pub account_id: Seq<char>,
    pub ip_text: Seq<char>,
    pub domains: Seq<Seq<char>>,
    pub targets: Seq<TargetView>,
    pub reports: Seq<ReportView>,
    pub phase: Phase,
}

/// One run of the updater: built from the validated config and the
/// resolved address, it names the next request to send and advances on
/// each response. The provider's answers drive it; it performs no
/// request itself.
pub struct Session {
    pub auth_token: String,
    pub account_id: String,
    pub ip_text: String,
    pub domains: Vec<String>,
    pub targets: Vec<DomainTarget>,
    pub reports: Vec<Report>,
    pub phase: Phase,
}

impl View for Session {
    type V = SessionView;

    open spec fn view(&self) -> SessionView {
        SessionView {
            auth_token: self.auth_token@,
            account_id: self.account_id@,
            ip_text: self.ip_text@,
            domains: texts_view(self.domains@),
            targets: targets_view(self.targets@),
            reports: reports_view(self.reports@),
            phase: self.phase,
        }
    }
}

/// What every phase guarantees of the state it stands over.
pub open spec fn session_wf(s: SessionView) -> bool {
    match s.phase {
        Phase::Verify => s.targets.len() == 0,
        Phase::Zones => s.targets.len() == 0,
        Phase::Lookup { next } => next < s.targets.len() && (forall|k: int|
            0 <= k < s.targets.len() ==> (#[trigger] s.targets[k]).zone is Some),
        Phase::Patch { next } => next < s.targets.len() && (forall|k: int|
            0 <= k < s.targets.len() ==> (#[trigger] s.targets[k]).zone is Some)
            && s.targets[next as int].record_id is Some,
        Phase::Done => true,
        Phase::Aborted => true,
    }
}

/// The request each phase wants sent: none once the run is over or
/// aborted.
pub open spec fn request_of(s: SessionView) -> Option<RequestView> {
    match s.phase {
        Phase::Verify => Some(RequestView::VerifyToken { url: verify_url_text() }),
        Phase::Zones => Some(RequestView::ListZones { url: zones_url_text(s.account_id) }),
        Phase::Lookup { next } => Some(
            RequestView::FindRecord {
                url: records_url_text(
                    s.targets[next as int].zone->0.id,
                    s.targets[next as int].domain,
                ),
            },
        ),
        Phase::Patch { next } => Some(
            RequestView::PatchRecord {
                url: patch_url_text(
                    s.targets[next as int].zone->0.id,
                    s.targets[next as int].record_id->0,
                ),
                body: patch_body_text(s.targets[next as int].domain, s.ip_text),
            },
        ),
        Phase::Done => None,
        Phase::Aborted => None,
    }
}

/// How one response moves the run along: the next state, and the fatal
/// error, if that response ends the run. Per-domain trouble only adds a
/// report and moves to the next target.
pub open spec fn step_spec(s: SessionView, status: u16, items: Seq<ZoneView>) -> (SessionView,
    Option<FatalError>) {
    match s.phase {
        Phase::Verify => if status == 200 {
            (SessionView { phase: Phase::Zones, ..s }, None)
        } else {
            (SessionView { phase: Phase::Aborted, ..s }, Some(FatalError::InvalidToken))
        },
        Phase::Zones => if status != 200 {
            (SessionView { phase: Phase::Aborted, ..s }, Some(FatalError::ZoneListFailed))
        } else {
            let ts = matched_of(s.domains, items);
            let ph = if ts.len() > 0 {
                Phase::Lookup { next: 0 }
            } else {
                Phase::Done
            };
            (
                SessionView {
                    targets: ts,
                    reports: s.reports + unmatched_reports(s.domains, items),
                    phase: ph,
                    ..s
                },
                None,
            )
        },
        Phase::Lookup { next } => {
            let found = status == 200 && items.len() > 0;
            let ts2 = if found {
                s.targets.update(
                    next as int,
                    TargetView { record_id: Some(items[0].id), ..s.targets[next as int] },
                )
            } else {
                s.targets
            };
            let rp2 = if found {
                s.reports
            } else {
                s.reports.push(
                    ReportView {
                        domain: s.targets[next as int].domain,
                        outcome: Outcome::RecordNotFound,
                    },
                )
            };
            let ph = if next + 1 < ts2.len() {
                Phase::Lookup { next: (next + 1) as usize }
            } else {
                next_patch(ts2, 0)
            };
            (SessionView { targets: ts2, reports: rp2, phase: ph, ..s }, None)
        },
        Phase::Patch { next } => {
            let oc = if status == 200 {
                Outcome::Updated
            } else {
                Outcome::UpdateRejected
            };
            (
                SessionView {
                    reports: s.reports.push(
                        ReportView { domain: s.targets[next as int].domain, outcome: oc },
                    ),
                    phase: next_patch(s.targets, next + 1),
                    ..s
                },
                None,
            )
        },
        Phase::Done => (s, None),
        Phase::Aborted => (s, None),
    }
}

fn clone_target(t: &DomainTarget) -> (r: DomainTarget)
    ensures
        r@ == t@,
{
    DomainTarget {
        domain: t.domain.clone(),
        zone: match &t.zone {
            Some(z) => Some(clone_zone(z)),
            None => None,
        },
        record_id: match &t.record_id {
            Some(id) => Some(id.clone()),
            None => None,
        },
    }
}

fn next_patch_from(targets: &Vec<DomainTarget>, from: usize) -> (ph: Phase)
    requires
        from <= targets@.len(),
    ensures
        ph == next_patch(targets_view(targets@), from as int),
{
    let mut j = from;
    while j < targets.len()
        invariant
            from <= j <= targets@.len(),
            next_patch(targets_view(targets@), from as int) == next_patch(
                targets_view(targets@),
                j as int,
            ),
        decreases targets@.len() - j,
    {
        if targets[j].record_id.is_some() {
            return Phase::Patch { next: j };
        }
        j = j + 1;
    }
    Phase::Done
}

impl Session {
    /// Start a run: the domain list parsed out of the config, the
    /// address written once, and the credential check up first.
    pub fn new(cf: &Cloudflare, ip: &Ipv4) -> (s: Session)
        ensures
            s@ == (SessionView {
                auth_token: cf.auth_token@,
                account_id: cf.account_id@,
                ip_text: ipv4_text(*ip),
                domains: domains_of(cf.domains@),
                targets: Seq::empty(),
                reports: Seq::empty(),
                phase: Phase::Verify,
            }),
            session_wf(s@),
    {
        let domains = parse_domains(&cf.domains);
        let s = Session {
            auth_token: cf.auth_token.clone(),
            account_id: cf.account_id.clone(),
            ip_text: ipv4_to_string(ip),
            domains,
            targets: Vec::new(),
            reports: Vec::new(),
            phase: Phase::Verify,
        };
        proof {
            assert(s@ =~~= (SessionView {
                auth_token: cf.auth_token@,
                account_id: cf.account_id@,
                ip_text: ipv4_text(*ip),
                domains: domains_of(cf.domains@),
                targets: Seq::empty(),
                reports: Seq::empty(),
                phase: Phase::Verify,
            }));
        }
        s
    }

    /// The request to send now, or nothing once the run is over.
    pub fn current_request(&self) -> (r: Option<Request>)
        requires
            session_wf(self@),
        ensures
            (match r {
                Some(q) => Some(q@),
                None => None::<RequestView>,
            }) == request_of(self@),
    {
        match self.phase {
            Phase::Verify => Some(Request::VerifyToken { url: verify_url() }),
            Phase::Zones => Some(Request::ListZones { url: zones_url(&self.account_id) }),
            Phase::Lookup { next } => {
                let t = &self.targets[next];
                match &t.zone {
                    Some(z) => Some(Request::FindRecord { url: records_url(&z.id, &t.domain) }),
                    None => vstd::pervasive::unreached(),
                }
            },
            Phase::Patch { next } => {
                let t = &self.targets[next];
                match (&t.zone, &t.record_id) {
                    (Some(z), Some(rid)) => Some(
                        Request::PatchRecord {
                            url: patch_url(&z.id, rid),
                            body: patch_body(&t.domain, &self.ip_text),
                        },
                    ),
                    _ => vstd::pervasive::unreached(),
                }
            },
            Phase::Done => None,
            Phase::Aborted => None,
        }
    }

    /// Advance on the response to the current request. `items` is the
    /// response's result list where the phase reads one (the zone list,
    /// or a record lookup); it is ignored elsewhere.
    pub fn handle_response(&mut self, status: u16, items: &Vec<Zone>) -> (r: Option<FatalError>)
        requires
            session_wf(old(self)@),
        ensures
            final(self)@ == step_spec(old(self)@, status, zones_view(items@)).0,
            r == step_spec(old(self)@, status, zones_view(items@)).1,
            session_wf(final(self)@),
    {
        let ghost s0 = self@;
        let ghost iv = zones_view(items@);
        match self.phase {
            Phase::Verify => {
                if status == 200 {
                    self.phase = Phase::Zones;
                    proof {
                        assert(self@ =~~= step_spec(s0, status, iv).0);
                    }
                    None
                } else {
                    self.phase = Phase::Aborted;
                    proof {
                        assert(self@ =~~= step_spec(s0, status, iv).0);
                    }
                    Some(FatalError::InvalidToken)
                }
            },
            Phase::Zones => {
                if status != 200 {
                    self.phase = Phase::Aborted;
                    proof {
                        assert(self@ =~~= step_spec(s0, status, iv).0);
                    }
                    Some(FatalError::ZoneListFailed)
                } else {
                    let ghost ds = s0.domains;
                    let parsed = match_zone(&self.domains, items);
                    proof {
                        assert(targets_view(parsed@).len() == parsed@.len());
                        assert(match_targets(ds, iv).len() == ds.len());
                        assert(ds.take(0) =~= Seq::<Seq<char>>::empty());
                    }
                    let mut ts: Vec<DomainTarget> = Vec::new();
                    let mut i: usize = 0;
                    while i < parsed.len()
                        invariant
                            i <= parsed@.len(),
                            parsed@.len() == ds.len(),
                            targets_view(parsed@) == match_targets(ds, iv),
                            targets_view(ts@) == matched_of(ds.take(i as int), iv),
                            reports_view(self.reports@) == s0.reports + unmatched_reports(
                                ds.take(i as int),
                                iv,
                            ),
                            self.auth_token@ == s0.auth_token,
                            self.account_id@ == s0.account_id,
                            self.ip_text@ == s0.ip_text,
                            texts_view(self.domains@) == ds,
                            self.targets@.len() == 0,
                            self.phase == Phase::Zones,
                        decreases parsed@.len() - i,
                    {
                        proof {
                            assert(ds.take(i + 1 as int).drop_last() =~= ds.take(i as int));
                            assert(ds.take(i + 1 as int).last() == ds[i as int]);
                            assert(targets_view(parsed@)[i as int] == parsed@[i as int]@);
                            assert(parsed@[i as int]@.zone == first_match(iv, ds[i as int]));
                            assert(parsed@[i as int]@.domain == ds[i as int]);
                        }
                        match &parsed[i].zone {
                            Some(_) => {
                                proof {
                                    assert(parsed@[i as int]@.zone is Some);
                                    assert(first_match(iv, ds[i as int]) is Some);
                                }
                                ts.push(clone_target(&parsed[i]));
                                proof {
                                    let t1 = ds.take(i + 1 as int);
                                    assert(t1.len() == i + 1);
                                    assert(t1.drop_last() == ds.take(i as int));
                                    assert(t1.last() == ds[i as int]);
                                    assert(first_match(iv, t1.last()) is Some);
                                    assert(unmatched_reports(t1, iv) == unmatched_reports(
                                        t1.drop_last(),
                                        iv,
                                    ));
                                    assert(targets_view(ts@) =~~= matched_of(t1, iv));
                                    assert(reports_view(self.reports@) =~~= s0.reports
                                        + unmatched_reports(t1, iv));
                                }
                            },
                            None => {
                                proof {
                                    assert(parsed@[i as int]@.zone is None);
                                    assert(first_match(iv, ds[i as int]) is None);
                                }
                                let ghost r0 = self.reports@;
                                let reported = Report {
                                    domain: parsed[i].domain.clone(),
                                    outcome: Outcome::ZoneNotFound,
                                };
                                proof {
                                    assert(reported@ == (ReportView {
                                        domain: ds[i as int],
                                        outcome: Outcome::ZoneNotFound,
                                    }));
                                }
                                self.reports.push(reported);
                                proof {
                                    assert(reports_view(self.reports@) =~~= reports_view(
                                        r0,
                                    ).push(reported@));
                                    let t1 = ds.take(i + 1 as int);
                                    assert(t1.len() == i + 1);
                                    assert(t1.drop_last() == ds.take(i as int));
                                    assert(t1.last() == ds[i as int]);
                                    assert(first_match(iv, t1.last()) is None);
                                    assert(unmatched_reports(t1, iv) == unmatched_reports(
                                        t1.drop_last(),
                                        iv,
                                    ).push(ReportView { domain: t1.last(), outcome: Outcome::ZoneNotFound }));
                                    assert(targets_view(ts@) =~~= matched_of(t1, iv));
                                    assert(reports_view(self.reports@) =~~= s0.reports
                                        + unmatched_reports(t1, iv));
                                }
                            },
                        }
                        i = i + 1;
                    }
                    proof {
                        assert(ds.take(ds.len() as int) =~= ds);
                        lemma_matched_of_props(ds, iv);
                    }
                    let has_targets = ts.len() > 0;
                    self.targets = ts;
                    if has_targets {
                        self.phase = Phase::Lookup { next: 0 };
                    } else {
                        self.phase = Phase::Done;
                    }
                    proof {
                        assert(self@ =~~= step_spec(s0, status, iv).0);
                    }
                    None
                }
            },
            Phase::Lookup { next } => {
                let found = status == 200 && items.len() > 0;
                if found {
                    let mut t = self.targets.remove(next);
                    t.record_id = Some(items[0].id.clone());
                    self.targets.insert(next, t);
                    proof {
                        assert(targets_view(self.targets@) =~~= s0.targets.update(
                            next as int,
                            TargetView {
                                record_id: Some(iv[0].id),
                                ..s0.targets[next as int]
                            },
                        ));
                    }
                } else {
                    let domain = self.targets[next].domain.clone();
                    self.reports.push(Report { domain, outcome: Outcome::RecordNotFound });
                    proof {
                        assert(reports_view(self.reports@) =~~= s0.reports.push(
                            ReportView {
                                domain: s0.targets[next as int].domain,
                                outcome: Outcome::RecordNotFound,
                            },
                        ));
                    }
                }
                let n = self.targets.len();
                proof {
                    assert(targets_view(self.targets@).len() == n);
                }
                if next + 1 < n {
                    self.phase = Phase::Lookup { next: next + 1 };
                } else {
                    self.phase = next_patch_from(&self.targets, 0);
                }
                proof {
                    lemma_next_patch_props(targets_view(self.targets@), 0);
                    assert(self@ =~~= step_spec(s0, status, iv).0);
                }
                None
            },
            Phase::Patch { next } => {
                let oc = if status == 200 {
                    Outcome::Updated
                } else {
                    Outcome::UpdateRejected
                };
                let n = self.targets.len();
                proof {
                    assert(targets_view(self.targets@).len() == n);
                }
                let domain = self.targets[next].domain.clone();
                self.reports.push(Report { domain, outcome: oc });
                self.phase = next_patch_from(&self.targets, next + 1);
                proof {
                    lemma_next_patch_props(targets_view(self.targets@), next + 1 as int);
                    assert(self@ =~~= step_spec(s0, status, iv).0);
                }
                None
            },
            Phase::Done => {
                proof {
                    assert(self@ =~~= step_spec(s0, status, iv).0);
                }
                None
            },
            Phase::Aborted => {
                proof {
                    assert(self@ =~~= step_spec(s0, status, iv).0);
                }
                None
            },
        }
    }
}

/// A failed zone listing aborts the run before any per-domain work: the
/// step reports the fatal error, nothing per-domain is touched, and the
/// aborted run asks for no further request.
pub proof fn lemma_zone_list_failure_aborts(s: SessionView, status: u16, items: Seq<ZoneView>)
    requires
        s.phase == Phase::Zones,
        status != 200,
    ensures
        step_spec(s, status, items).1 == Some(FatalError::ZoneListFailed),
        step_spec(s, status, items).0.phase == Phase::Aborted,
        step_spec(s, status, items).0.targets == s.targets,
        step_spec(s, status, items).0.reports == s.reports,
        request_of(step_spec(s, status, items).0) is None,
{
}

/// Updating twice with the same address is harmless: the patch request
/// is a function of the target and the address alone, so a second run
/// that reaches the same target with the same address issues the
/// identical request again, and a success answer to it is recorded as
/// `Updated` with no error.
pub proof fn lemma_patch_idempotent(s1: SessionView, s2: SessionView, j: usize)
    requires
        s1.phase == (Phase::Patch { next: j }),
        s2.phase == (Phase::Patch { next: j }),
        session_wf(s1),
        session_wf(s2),
        s1.targets[j as int] == s2.targets[j as int],
        s1.ip_text == s2.ip_text,
    ensures
        request_of(s1) == request_of(s2),
        step_spec(s1, 200, Seq::empty()).1 is None,
        step_spec(s1, 200, Seq::empty()).0.reports == s1.reports.push(
            ReportView { domain: s1.targets[j as int].domain, outcome: Outcome::Updated },
        ),
{
}

} // verus!
