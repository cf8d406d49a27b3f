//! Catalog normalization: the raw directory record shape, the canonical
//! [`Server`] record, and the mapping from one to the other.
//!
//! The raw shape is loosely typed and externally owned; every brittle
//! assumption about it is isolated here. Lookups into the technology and
//! group lists scan for a tagged identifier rather than trusting positions,
//! since the feed does not fix any ordering.

use vstd::prelude::*;

verus! {

use vstd::string::StrSliceExecFns;
use vstd::string::StringExecFns;
use crate::ip::Ipv4Address;
use crate::ip::spec_parse_ipv4;
use crate::ip::parse_ipv4;
use crate::text::str_chars;

/// One name/value pair attached to a technology entry.
#[derive(Debug)]
pub struct Metadata {
    pub name: String,
    pub value: String,
}

/// One tunneling technology advertised by a raw record.
#[derive(Debug)]
pub struct Technology {
    pub identifier: String,
    pub metadata: Vec<Metadata>,
}

/// One group tag attached to a raw record.
#[derive(Debug)]
pub struct Group {
    pub identifier: String,
}

/// The city part of a raw location entry.
#[derive(Debug)]
pub struct City {
    pub name: String,
}

/// The country part of a raw location entry.
#[derive(Debug)]
pub struct Country {
    pub name: String,
    pub code: String,
    pub city: City,
}

/// One entry of a raw record's location list.
#[derive(Debug)]
pub struct Location {
    pub country: Country,
}

/// A raw catalog entry as the external directory serves it.
#[derive(Debug)]
pub struct ServerIntermediate {
    pub id: i64,
    pub name: String,
    pub station: String,
    pub hostname: String,
    pub load: i32,
    pub status: String,
    pub locations: Vec<Location>,
    pub technologies: Vec<Technology>,
    pub groups: Vec<Group>,
}

/// A canonical relay record, fully resolved at construction time.
#[derive(Debug)]
pub struct Server {
    pub id: i64,
    pub hostname: String,
    pub station: Ipv4Address,
    pub load: u8,
    pub online: bool,
    pub country: String,
    pub country_code: String,
    pub city: String,
    pub public_key: String,
    pub supports_protocol: bool,
    pub p2p: bool,
    pub identifier: String,
}

/// The mathematical model of a canonical record.
pub ghost struct ServerV {
    pub id: int,
    pub hostname: Seq<char>,
    pub station: Ipv4Address,
    pub load: int,
    pub online: bool,
    pub country: Seq<char>,
    pub country_code: Seq<char>,
    pub city: Seq<char>,
    pub public_key: Seq<char>,
    pub supports_protocol: bool,
    pub p2p: bool,
    pub identifier: Seq<char>,
}

impl View for Server {
    type V = ServerV;

    open spec fn view(&self) -> ServerV {
        ServerV {
            id: self.id as int,
            hostname: self.hostname@,
            station: self.station,
            load: self.load as int,
            online: self.online,
            country: self.country@,
            country_code: self.country_code@,
            city: self.city@,
            public_key: self.public_key@,
            supports_protocol: self.supports_protocol,
            p2p: self.p2p,
            identifier: self.identifier@,
        }
    }
}

impl Server {
    /// An owned copy with the same view.
    pub fn duplicate(&self) -> (r: Server)
        ensures
            r@ == self@,
    {
        Server {
            id: self.id,
            hostname: self.hostname.clone(),
            station: self.station,
            load: self.load,
            online: self.online,
            country: self.country.clone(),
            country_code: self.country_code.clone(),
            city: self.city.clone(),
            public_key: self.public_key.clone(),
            supports_protocol: self.supports_protocol,
            p2p: self.p2p,
            identifier: self.identifier.clone(),
        }
    }
}

/// Why a raw entry was rejected.
#[derive(Clone, Copy, PartialEq, Eq, Structural, Debug)]
pub enum NormalizationError {
    /// The station address is not a well-formed IPv4 address.
    InvalidAddress,
    /// The hostname is empty, so no identifier label exists.
    MalformedHostname,
}

/// The technology identifier this pipeline targets.
pub open spec fn protocol_id() -> Seq<char> {
    "wireguard_udp"@
}

/// The group identifier that marks peer-to-peer relays.
pub open spec fn p2p_group_id() -> Seq<char> {
    "legacy_p2p"@
}

/// The metadata entry that carries a relay's public key.
pub open spec fn public_key_name() -> Seq<char> {
    "public_key"@
}

/// The raw status value that marks an online relay.
pub open spec fn online_status() -> Seq<char> {
    "online"@
}

pub open spec fn is_proto_tech(t: Technology) -> bool {
    t.identifier@ == protocol_id()
}

/// The first technology entry advertising the target protocol, if any.
pub open spec fn find_proto(ts: Seq<Technology>) -> Option<Technology>
    decreases ts.len(),
{
    if ts.len() == 0 {
        None
    } else if is_proto_tech(ts.first()) {
        Some(ts.first())
    } else {
        find_proto(ts.drop_first())
    }
}

pub open spec fn is_key_meta(m: Metadata) -> bool {
    m.name@ == public_key_name()
}

/// The first metadata entry named as the public key, if any.
pub open spec fn find_key_meta(ms: Seq<Metadata>) -> Option<Metadata>
    decreases ms.len(),
{
    if ms.len() == 0 {
        None
    } else if is_key_meta(ms.first()) {
        Some(ms.first())
    } else {
        find_key_meta(ms.drop_first())
    }
}

/// The public key a raw record advertises for the target protocol, or the
/// empty string when either scan finds nothing.
pub open spec fn public_key_of(ts: Seq<Technology>) -> Seq<char> {
    match find_proto(ts) {
        Some(t) => match find_key_meta(t.metadata@) {
            Some(m) => m.value@,
            None => Seq::empty(),
        },
        None => Seq::empty(),
    }
}

/// Whether a raw record advertises the target protocol at all.
pub open spec fn supports_of(ts: Seq<Technology>) -> bool {
    find_proto(ts) is Some
}

/// Whether any group tag marks the record as peer-to-peer.
pub open spec fn p2p_of(gs: Seq<Group>) -> bool {
    exists|i: int| 0 <= i < gs.len() && (#[trigger] gs[i]).identifier@ == p2p_group_id()
}

/// The index of the first '.' in `h`, or `h.len()` when there is none.
pub open spec fn first_dot(h: Seq<char>) -> int
    decreases h.len(),
{
    if h.len() == 0 {
        0
    } else if h.first() == '.' {
        0
    } else {
        1 + first_dot(h.drop_first())
    }
}

/// The hostname's first dot-separated label.
pub open spec fn host_label(h: Seq<char>) -> Seq<char> {
    h.take(first_dot(h))
}

/// A raw load percentage clamped into the canonical 0 through 100 range.
pub open spec fn clamp_load(l: int) -> int {
    if l < 0 {
        0
    } else if l > 100 {
        100
    } else {
        l
    }
}

/// What normalization yields on a raw entry: the station address must parse,
/// the hostname must be non-empty, and every other canonical field is a total
/// function of the raw fields, with empty-string defaults for a missing
/// location entry.
pub open spec fn spec_normalize(raw: ServerIntermediate) -> Result<ServerV, NormalizationError> {
    match spec_parse_ipv4(raw.station@) {
        None => Err(NormalizationError::InvalidAddress),
        Some(st) => if raw.hostname@.len() == 0 {
            Err(NormalizationError::MalformedHostname)
        } else {
            Ok(
                ServerV {
                    id: raw.id as int,
                    hostname: raw.hostname@,
                    station: st,
                    load: clamp_load(raw.load as int),
                    online: raw.status@ == online_status(),
                    country: if raw.locations@.len() == 0 {
                        Seq::empty()
                    } else {
                        raw.locations@[0].country.name@
                    },
                    country_code: if raw.locations@.len() == 0 {
                        Seq::empty()
                    } else {
                        raw.locations@[0].country.code@
                    },
                    city: if raw.locations@.len() == 0 {
                        Seq::empty()
                    } else {
                        raw.locations@[0].country.city.name@
                    },
                    public_key: public_key_of(raw.technologies@),
                    supports_protocol: supports_of(raw.technologies@),
                    p2p: p2p_of(raw.groups@),
                    identifier: host_label(raw.hostname@),
                },
            )
        },
    }
}

/// The view of a normalization result.
pub open spec fn res_view(r: Result<Server, NormalizationError>) -> Result<
    ServerV,
    NormalizationError,
> {
    match r {
        Ok(s) => Ok(s@),
        Err(e) => Err(e),
    }
}

proof fn lemma_find_proto_at(ts: Seq<Technology>, i: int)
    requires
        0 <= i < ts.len(),
        forall|j: int| 0 <= j < i ==> !is_proto_tech(#[trigger] ts[j]),
        is_proto_tech(ts[i]),
    ensures
        find_proto(ts) == Some(ts[i]),
    decreases i,
{
    if i > 0 {
        assert(!is_proto_tech(ts.first()));
        assert(forall|j: int| 0 <= j < i - 1 ==> ts.drop_first()[j] == ts[j + 1]);
        lemma_find_proto_at(ts.drop_first(), i - 1);
    }
}

proof fn lemma_find_proto_none(ts: Seq<Technology>)
    requires
        forall|j: int| 0 <= j < ts.len() ==> !is_proto_tech(#[trigger] ts[j]),
    ensures
        find_proto(ts) is None,
    decreases ts.len(),
{
    if ts.len() > 0 {
        assert(forall|j: int| 0 <= j < ts.len() - 1 ==> ts.drop_first()[j] == ts[j + 1]);
        lemma_find_proto_none(ts.drop_first());
    }
}

proof fn lemma_find_key_meta_at(ms: Seq<Metadata>, i: int)
    requires
        0 <= i < ms.len(),
        forall|j: int| 0 <= j < i ==> !is_key_meta(#[trigger] ms[j]),
        is_key_meta(ms[i]),
    ensures
        find_key_meta(ms) == Some(ms[i]),
    decreases i,
{
    if i > 0 {
        assert(!is_key_meta(ms.first()));
        assert(forall|j: int| 0 <= j < i - 1 ==> ms.drop_first()[j] == ms[j + 1]);
        lemma_find_key_meta_at(ms.drop_first(), i - 1);
    }
}

proof fn lemma_find_key_meta_none(ms: Seq<Metadata>)
    requires
        forall|j: int| 0 <= j < ms.len() ==> !is_key_meta(#[trigger] ms[j]),
    ensures
        find_key_meta(ms) is None,
    decreases ms.len(),
{
    if ms.len() > 0 {
        assert(forall|j: int| 0 <= j < ms.len() - 1 ==> ms.drop_first()[j] == ms[j + 1]);
        lemma_find_key_meta_none(ms.drop_first());
    }
}

proof fn lemma_first_dot_at(h: Seq<char>, k: int)
    requires
        0 <= k <= h.len(),
        forall|j: int| 0 <= j < k ==> h[j] != '.',
        k < h.len() ==> h[k] == '.',
    ensures
        first_dot(h) == k,
    decreases k, h.len(),
{
    if h.len() == 0 {
    } else if k == 0 {
    } else {
        assert(h.first() != '.');
        assert(forall|j: int| 0 <= j < k - 1 ==> h.drop_first()[j] == h[j + 1]);
        lemma_first_dot_at(h.drop_first(), k - 1);
    }
}

fn scan_metadata(ms: &Vec<Metadata>) -> (r: String)
    ensures
        r@ == match find_key_meta(ms@) {
            Some(m) => m.value@,
            None => Seq::<char>::empty(),
        },
{
    let wanted = String::from_str("public_key");
    let mut i: usize = 0;
    while i < ms.len()
        invariant
            i <= ms@.len(),
            wanted@ == public_key_name(),
            forall|j: int| 0 <= j < i ==> !is_key_meta(#[trigger] ms@[j]),
        decreases ms@.len() - i,
    {
        if ms[i].name == wanted {
            proof {
                lemma_find_key_meta_at(ms@, i as int);
            }
            return ms[i].value.clone();
        }
        i = i + 1;
    }
    proof {
        lemma_find_key_meta_none(ms@);
    }
    String::new()
}

fn scan_technologies(ts: &Vec<Technology>) -> (r: (String, bool))
    ensures
        r.0@ == public_key_of(ts@),
        r.1 == supports_of(ts@),
{
    let proto = String::from_str("wireguard_udp");
    let mut i: usize = 0;
    while i < ts.len()
        invariant
            i <= ts@.len(),
            proto@ == protocol_id(),
            forall|j: int| 0 <= j < i ==> !is_proto_tech(#[trigger] ts@[j]),
        decreases ts@.len() - i,
    {
        if ts[i].identifier == proto {
            proof {
                lemma_find_proto_at(ts@, i as int);
            }
            let key = scan_metadata(&ts[i].metadata);
            return (key, true);
        }
        i = i + 1;
    }
    proof {
        lemma_find_proto_none(ts@);
    }
    (String::new(), false)
}

fn scan_groups(gs: &Vec<Group>) -> (r: bool)
    ensures
        r == p2p_of(gs@),
{
    let tag = String::from_str("legacy_p2p");
    let mut i: usize = 0;
    while i < gs.len()
        invariant
            i <= gs@.len(),
            tag@ == p2p_group_id(),
            forall|j: int| 0 <= j < i ==> (#[trigger] gs@[j]).identifier@ != p2p_group_id(),
        decreases gs@.len() - i,
    {
        if gs[i].identifier == tag {
            return true;
        }
        i = i + 1;
    }
    false
}

fn host_label_exec(h: &String) -> (r: String)
    ensures
        r@ == host_label(h@),
{
    let chars = str_chars(h.as_str());
    let n: usize = chars.len();
    let mut k: usize = 0;
    while k < n && chars[k] != '.'
        invariant
            n == chars@.len(),
            chars@ == h@,
            k <= n,
            forall|j: int| 0 <= j < k ==> chars@[j] != '.',
        decreases n - k,
    {
        k = k + 1;
    }
    proof {
        lemma_first_dot_at(h@, k as int);
    }
    let label = h.as_str().substring_char(0, k);
    proof {
        assert(h@.subrange(0, k as int) =~= h@.take(k as int));
    }
    String::from_str(label)
}

fn clamp_load_exec(l: i32) -> (r: u8)
    ensures
        r as int == clamp_load(l as int),
{
    if l < 0 {
        0
    } else if l > 100 {
        100
    } else {
        l as u8
    }
}

/// Maps one raw catalog entry to a canonical record, or reports why the
/// entry must be dropped.
pub fn normalize(raw: &ServerIntermediate) -> (r: Result<Server, NormalizationError>)
    ensures
        res_view(r) == spec_normalize(*raw),
{
    let station_chars = str_chars(raw.station.as_str());
    let station = match parse_ipv4(&station_chars) {
        Some(ip) => ip,
        None => {
            return Err(NormalizationError::InvalidAddress);
        },
    };
    if raw.hostname.as_str().is_empty() {
        return Err(NormalizationError::MalformedHostname);
    }
    let online_tag = String::from_str("online");
    let online = raw.status == online_tag;
    let (country, country_code, city) = if raw.locations.len() == 0 {
        (String::new(), String::new(), String::new())
    } else {
        let loc = &raw.locations[0];
        (loc.country.name.clone(), loc.country.code.clone(), loc.country.city.name.clone())
    };
    let (public_key, supports_protocol) = scan_technologies(&raw.technologies);
    let p2p = scan_groups(&raw.groups);
    let identifier = host_label_exec(&raw.hostname);
    Ok(
        Server {
            id: raw.id,
            hostname: raw.hostname.clone(),
            station,
            load: clamp_load_exec(raw.load),
            online,
            country,
            country_code,
            city,
            public_key,
            supports_protocol,
            p2p,
            identifier,
        },
    )
}

/// The canonical records of the raw entries that normalize successfully,
/// in catalog order.
pub open spec fn spec_normalize_seq(rs: Seq<ServerIntermediate>) -> Seq<ServerV> {
    rs.filter_map(
        |raw: ServerIntermediate|
            match spec_normalize(raw) {
                Ok(v) => Some(v),
                Err(_) => None,
            },
    )
}

/// The views of a sequence of canonical records.
pub open spec fn views_of(s: Seq<Server>) -> Seq<ServerV> {
    s.map_values(|r: Server| r@)
}

/// Normalizes a whole raw catalog, silently dropping the entries that fail,
/// so that one bad upstream record cannot block selection.
pub fn normalize_catalog(raw: &Vec<ServerIntermediate>) -> (r: Vec<Server>)
    ensures
        views_of(r@) == spec_normalize_seq(raw@),
{
    let mut out: Vec<Server> = Vec::new();
    let mut i: usize = 0;
    proof {
        assert(raw@.take(0) =~= Seq::<ServerIntermediate>::empty());
        assert(views_of(out@) =~= spec_normalize_seq(raw@.take(0)));
    }
    while i < raw.len()
        invariant
            i <= raw@.len(),
            views_of(out@) == spec_normalize_seq(raw@.take(i as int)),
        decreases raw@.len() - i,
    {
        broadcast use vstd::prelude::Seq::lemma_filter_map_take_succ;

        let ghost pre = out@;
        match normalize(&raw[i]) {
            Ok(s) => {
                out.push(s);
                proof {
                    assert(views_of(out@) =~= views_of(pre).push(out@.last()@));
                    assert(views_of(out@) =~= spec_normalize_seq(raw@.take(i + 1)));
                }
            },
            Err(_) => {
                proof {
                    assert(views_of(out@) =~= spec_normalize_seq(raw@.take(i + 1)));
                }
            },
        }
        i = i + 1;
    }
    proof {
        assert(raw@.take(raw@.len() as int) =~= raw@);
    }
    out
}

} // verus!
