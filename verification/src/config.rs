//! Document synthesis: rendering the plaintext connection profile for one
//! chosen record, in a fixed, newline-significant section layout.
//!
//! Synthesis is pure formatting: the result is pinned, character for
//! character, to a function of the preferences and the record alone, so two
//! calls on the same pair yield identical text. The secrets and the resolver
//! and MTU values are embedded verbatim, with no escaping; validating them
//! is deliberately the caller's concern.

use vstd::prelude::*;

verus! {

use vstd::string::StringExecFns;
use crate::ip::ipv4_seq;
use crate::ip::is_dec_digit;
use crate::ip::lemma_ipv4_seq_chars;
use crate::mapper::Server;
use crate::mapper::ServerV;
use crate::text::occurs_at;

/// User preferences and secrets embedded into the profile.
#[derive(Debug)]
pub struct UserConfig {
    pub private_key: String,
    pub dns: String,
    pub mtu: String,
}

/// The mathematical model of the preferences.
pub ghost struct UserConfigV {
    pub private_key: Seq<char>,
    pub dns: Seq<char>,
    pub mtu: Seq<char>,
}

impl View for UserConfig {
    type V = UserConfigV;

    open spec fn view(&self) -> UserConfigV {
        UserConfigV { private_key: self.private_key@, dns: self.dns@, mtu: self.mtu@ }
    }
}

/// The profile text, character for character: the fixed template with the
/// record's and the preferences' fields substituted verbatim.
pub open spec fn spec_config(u: UserConfigV, s: ServerV) -> Seq<char> {
    "# Configuration for "@ + s.hostname + " ("@ + ipv4_seq(s.station) + ") - "@ + s.city + ", "@
        + s.country + "\n[Interface]\nAddress = 10.5.0.2/32\nPrivateKey = "@ + u.private_key
        + "\nDNS = "@ + u.dns + "\nMTU = "@ + u.mtu + "\n\n[Peer]\nPublicKey = "@ + s.public_key
        + "\nAllowedIPs = 0.0.0.0/0, ::/0\nEndpoint = "@ + s.hostname + ":51820"@
}

/// The document up to (and excluding) the Interface section.
spec fn cfg_head(s: ServerV) -> Seq<char> {
    "# Configuration for "@ + s.hostname + " ("@ + ipv4_seq(s.station) + ") - "@ + s.city + ", "@
        + s.country
}

/// The document up to (and excluding) the Peer section.
spec fn cfg_mid(u: UserConfigV, s: ServerV) -> Seq<char> {
    cfg_head(s) + "\n[Interface]\nAddress = 10.5.0.2/32\nPrivateKey = "@ + u.private_key
        + "\nDNS = "@ + u.dns + "\nMTU = "@ + u.mtu
}

/// Renders the connection profile for one record. Pure formatting: the
/// result is exactly `spec_config` of the two views, so equal inputs give
/// byte-identical documents.
pub fn generate_config(input: &UserConfig, server: &Server) -> (r: String)
    ensures
        r@ == spec_config(input@, server@),
{
    let mut out = String::new();
    out.append("# Configuration for ");
    out.append(server.hostname.as_str());
    out.append(" (");
    let station = server.station.text();
    out.append(station.as_str());
    out.append(") - ");
    out.append(server.city.as_str());
    out.append(", ");
    out.append(server.country.as_str());
    out.append("\n[Interface]\nAddress = 10.5.0.2/32\nPrivateKey = ");
    out.append(input.private_key.as_str());
    out.append("\nDNS = ");
    out.append(input.dns.as_str());
    out.append("\nMTU = ");
    out.append(input.mtu.as_str());
    out.append("\n\n[Peer]\nPublicKey = ");
    out.append(server.public_key.as_str());
    out.append("\nAllowedIPs = 0.0.0.0/0, ::/0\nEndpoint = ");
    out.append(server.hostname.as_str());
    out.append(":51820");
    proof {
        assert(Seq::<char>::empty() + "# Configuration for "@ =~= "# Configuration for "@);
        assert(out@ == spec_config(input@, server@));
    }
    out
}

/// Law: synthesis is deterministic. The document is a function of the
/// preferences and the record alone, so synthesizing the same pair twice
/// yields byte-identical text.
pub proof fn lemma_config_deterministic(u1: UserConfigV, s1: ServerV, u2: UserConfigV, s2: ServerV)
    requires
        u1 == u2,
        s1 == s2,
    ensures
        spec_config(u1, s1) == spec_config(u2, s2),
{
}

proof fn lemma_occurs_extend_right(t: Seq<char>, u: Seq<char>, p: Seq<char>, i: int)
    requires
        occurs_at(t, p, i),
    ensures
        occurs_at(t + u, p, i),
{
    assert((t + u).subrange(i, i + p.len() as int) =~= t.subrange(i, i + p.len() as int));
}

proof fn lemma_occurs_shift_left(t: Seq<char>, u: Seq<char>, p: Seq<char>, i: int)
    requires
        occurs_at(t, p, i),
    ensures
        occurs_at(u + t, p, u.len() + i),
{
    assert((u + t).subrange(u.len() + i, u.len() + i + p.len() as int) =~= t.subrange(
        i,
        i + p.len() as int,
    ));
}

proof fn lemma_config_marker_positions(u: UserConfigV, s: ServerV)
    ensures
        occurs_at(spec_config(u, s), "[Interface]"@, cfg_head(s).len() as int + 1),
        occurs_at(spec_config(u, s), "[Peer]"@, cfg_mid(u, s).len() as int + 2),
{
    reveal_strlit("[Interface]");
    reveal_strlit("[Peer]");
    reveal_strlit("\n[Interface]\nAddress = 10.5.0.2/32\nPrivateKey = ");
    reveal_strlit("\n\n[Peer]\nPublicKey = ");
    let head = cfg_head(s);
    let iface_lit = "\n[Interface]\nAddress = 10.5.0.2/32\nPrivateKey = "@;
    let peer_lit = "\n\n[Peer]\nPublicKey = "@;
    let i: int = head.len() as int + 1;
    assert(iface_lit.subrange(1, 12) =~= "[Interface]"@);
    assert(occurs_at(iface_lit, "[Interface]"@, 1));
    lemma_occurs_shift_left(iface_lit, head, "[Interface]"@, 1);
    lemma_occurs_extend_right(head + iface_lit, u.private_key, "[Interface]"@, i);
    lemma_occurs_extend_right(head + iface_lit + u.private_key, "\nDNS = "@, "[Interface]"@, i);
    let mid1 = head + iface_lit + u.private_key + "\nDNS = "@;
    lemma_occurs_extend_right(mid1, u.dns, "[Interface]"@, i);
    lemma_occurs_extend_right(mid1 + u.dns, "\nMTU = "@, "[Interface]"@, i);
    lemma_occurs_extend_right(mid1 + u.dns + "\nMTU = "@, u.mtu, "[Interface]"@, i);
    let mid2 = cfg_mid(u, s);
    let j: int = mid2.len() as int + 2;
    assert(peer_lit.subrange(2, 8) =~= "[Peer]"@);
    assert(occurs_at(peer_lit, "[Peer]"@, 2));
    lemma_occurs_shift_left(peer_lit, mid2, "[Peer]"@, 2);
    lemma_occurs_extend_right(mid2, peer_lit, "[Interface]"@, i);
    lemma_occurs_extend_right(mid2 + peer_lit, s.public_key, "[Interface]"@, i);
    lemma_occurs_extend_right(mid2 + peer_lit, s.public_key, "[Peer]"@, j);
    let mid3 = mid2 + peer_lit + s.public_key + "\nAllowedIPs = 0.0.0.0/0, ::/0\nEndpoint = "@;
    lemma_occurs_extend_right(
        mid2 + peer_lit + s.public_key,
        "\nAllowedIPs = 0.0.0.0/0, ::/0\nEndpoint = "@,
        "[Interface]"@,
        i,
    );
    lemma_occurs_extend_right(
        mid2 + peer_lit + s.public_key,
        "\nAllowedIPs = 0.0.0.0/0, ::/0\nEndpoint = "@,
        "[Peer]"@,
        j,
    );
    lemma_occurs_extend_right(mid3, s.hostname, "[Interface]"@, i);
    lemma_occurs_extend_right(mid3, s.hostname, "[Peer]"@, j);
    lemma_occurs_extend_right(mid3 + s.hostname, ":51820"@, "[Interface]"@, i);
    lemma_occurs_extend_right(mid3 + s.hostname, ":51820"@, "[Peer]"@, j);
    assert(occurs_at(spec_config(u, s), "[Interface]"@, i));
    assert(occurs_at(spec_config(u, s), "[Peer]"@, j));
}

/// Law: whatever the substituted values hold, the synthesized document
/// carries an Interface section marker and a Peer section marker in that
/// order. (A substituted value that itself holds a marker can add further
/// occurrences; `lemma_config_sections_unique` rules those out for values
/// free of '['.)
pub proof fn lemma_config_sections(u: UserConfigV, s: ServerV)
    ensures
        exists|i: int, j: int|
            #![trigger occurs_at(spec_config(u, s), "[Interface]"@, i), occurs_at(spec_config(u, s), "[Peer]"@, j)]
            i < j && occurs_at(spec_config(u, s), "[Interface]"@, i) && occurs_at(
                spec_config(u, s),
                "[Peer]"@,
                j,
            ),
{
    lemma_config_marker_positions(u, s);
    reveal_strlit("\n[Interface]\nAddress = 10.5.0.2/32\nPrivateKey = ");
    reveal_strlit("\nDNS = ");
    reveal_strlit("\nMTU = ");
    let i: int = cfg_head(s).len() as int + 1;
    let j: int = cfg_mid(u, s).len() as int + 2;
    assert(i < j);
}

/// No '[' character anywhere in the sequence.
pub open spec fn bracket_free(s: Seq<char>) -> bool {
    forall|k: int| 0 <= k < s.len() ==> s[k] != '['
}

/// Every '[' in the sequence stands at index `i`.
spec fn bracket_only_at(s: Seq<char>, i: int) -> bool {
    forall|k: int| 0 <= k < s.len() && s[k] == '[' ==> k == i
}

/// Every '[' in the sequence stands at index `i` or at index `j`.
spec fn bracket_only_at_pair(s: Seq<char>, i: int, j: int) -> bool {
    forall|k: int| 0 <= k < s.len() && s[k] == '[' ==> k == i || k == j
}

proof fn lemma_bracket_free_cat(a: Seq<char>, b: Seq<char>)
    requires
        bracket_free(a),
        bracket_free(b),
    ensures
        bracket_free(a + b),
{
    assert forall|k: int| 0 <= k < (a + b).len() implies (a + b)[k] != '[' by {
        if k < a.len() {
            assert((a + b)[k] == a[k]);
        } else {
            assert((a + b)[k] == b[k - a.len()]);
        }
    }
}

proof fn lemma_bracket_cat_only_free(a: Seq<char>, b: Seq<char>, i: int)
    requires
        bracket_only_at(a, i),
        bracket_free(b),
    ensures
        bracket_only_at(a + b, i),
{
    assert forall|k: int| 0 <= k < (a + b).len() && (a + b)[k] == '[' implies k == i by {
        if k < a.len() {
            assert((a + b)[k] == a[k]);
        } else {
            assert((a + b)[k] == b[k - a.len()]);
        }
    }
}

proof fn lemma_bracket_cat_free_only(a: Seq<char>, b: Seq<char>, j: int)
    requires
        bracket_free(a),
        bracket_only_at(b, j),
    ensures
        bracket_only_at(a + b, a.len() + j),
{
    assert forall|k: int| 0 <= k < (a + b).len() && (a + b)[k] == '[' implies k == a.len() + j by {
        if k < a.len() {
            assert((a + b)[k] == a[k]);
        } else {
            assert((a + b)[k] == b[k - a.len()]);
        }
    }
}

proof fn lemma_bracket_cat_only_only(a: Seq<char>, b: Seq<char>, i: int, j: int)
    requires
        bracket_only_at(a, i),
        bracket_only_at(b, j),
    ensures
        bracket_only_at_pair(a + b, i, a.len() + j),
{
    assert forall|k: int| 0 <= k < (a + b).len() && (a + b)[k] == '[' implies k == i || k == a.len()
        + j by {
        if k < a.len() {
            assert((a + b)[k] == a[k]);
        } else {
            assert((a + b)[k] == b[k - a.len()]);
        }
    }
}

proof fn lemma_bracket_cat_pair_free(a: Seq<char>, b: Seq<char>, i: int, j: int)
    requires
        bracket_only_at_pair(a, i, j),
        bracket_free(b),
    ensures
        bracket_only_at_pair(a + b, i, j),
{
    assert forall|k: int| 0 <= k < (a + b).len() && (a + b)[k] == '[' implies k == i || k == j by {
        if k < a.len() {
            assert((a + b)[k] == a[k]);
        } else {
            assert((a + b)[k] == b[k - a.len()]);
        }
    }
}

proof fn lemma_literal_bracket_facts()
    ensures
        bracket_free("# Configuration for "@),
        bracket_free(" ("@),
        bracket_free(") - "@),
        bracket_free(", "@),
        bracket_only_at("\n[Interface]\nAddress = 10.5.0.2/32\nPrivateKey = "@, 1),
        bracket_free("\nDNS = "@),
        bracket_free("\nMTU = "@),
        bracket_only_at("\n\n[Peer]\nPublicKey = "@, 2),
        bracket_free("\nAllowedIPs = 0.0.0.0/0, ::/0\nEndpoint = "@),
        bracket_free(":51820"@),
{
    reveal_strlit("# Configuration for ");
    reveal_strlit(" (");
    reveal_strlit(") - ");
    reveal_strlit(", ");
    reveal_strlit("\n[Interface]\nAddress = 10.5.0.2/32\nPrivateKey = ");
    reveal_strlit("\nDNS = ");
    reveal_strlit("\nMTU = ");
    reveal_strlit("\n\n[Peer]\nPublicKey = ");
    reveal_strlit("\nAllowedIPs = 0.0.0.0/0, ::/0\nEndpoint = ");
    reveal_strlit(":51820");
}

/// Law: when no substituted value holds a '[' character, the document
/// carries the Interface marker at exactly one position and the Peer marker
/// at exactly one position; `lemma_config_sections` places them in order.
/// (A value such as a private key that itself holds "[Interface]" defeats
/// the claim, so those inputs stay outside it.)
pub proof fn lemma_config_sections_unique(u: UserConfigV, s: ServerV)
    requires
        bracket_free(s.hostname),
        bracket_free(s.city),
        bracket_free(s.country),
        bracket_free(s.public_key),
        bracket_free(u.private_key),
        bracket_free(u.dns),
        bracket_free(u.mtu),
    ensures
        forall|i1: int, i2: int|
            occurs_at(spec_config(u, s), "[Interface]"@, i1) && occurs_at(
                spec_config(u, s),
                "[Interface]"@,
                i2,
            ) ==> i1 == i2,
        forall|j1: int, j2: int|
            occurs_at(spec_config(u, s), "[Peer]"@, j1) && occurs_at(
                spec_config(u, s),
                "[Peer]"@,
                j2,
            ) ==> j1 == j2,
{
    lemma_config_marker_positions(u, s);
    lemma_literal_bracket_facts();
    lemma_ipv4_seq_chars(s.station);
    let station = ipv4_seq(s.station);
    assert forall|k: int| 0 <= k < station.len() implies station[k] != '[' by {
        assert(is_dec_digit(station[k]) || station[k] == '.');
    }
    let iface_lit = "\n[Interface]\nAddress = 10.5.0.2/32\nPrivateKey = "@;
    let peer_lit = "\n\n[Peer]\nPublicKey = "@;
    let head = cfg_head(s);
    lemma_bracket_free_cat("# Configuration for "@, s.hostname);
    lemma_bracket_free_cat("# Configuration for "@ + s.hostname, " ("@);
    lemma_bracket_free_cat("# Configuration for "@ + s.hostname + " ("@, station);
    lemma_bracket_free_cat("# Configuration for "@ + s.hostname + " ("@ + station, ") - "@);
    lemma_bracket_free_cat(
        "# Configuration for "@ + s.hostname + " ("@ + station + ") - "@,
        s.city,
    );
    lemma_bracket_free_cat(
        "# Configuration for "@ + s.hostname + " ("@ + station + ") - "@ + s.city,
        ", "@,
    );
    lemma_bracket_free_cat(
        "# Configuration for "@ + s.hostname + " ("@ + station + ") - "@ + s.city + ", "@,
        s.country,
    );
    assert(bracket_free(head));
    let ip: int = head.len() as int + 1;
    lemma_bracket_cat_free_only(head, iface_lit, 1);
    lemma_bracket_cat_only_free(head + iface_lit, u.private_key, ip);
    lemma_bracket_cat_only_free(head + iface_lit + u.private_key, "\nDNS = "@, ip);
    lemma_bracket_cat_only_free(head + iface_lit + u.private_key + "\nDNS = "@, u.dns, ip);
    lemma_bracket_cat_only_free(
        head + iface_lit + u.private_key + "\nDNS = "@ + u.dns,
        "\nMTU = "@,
        ip,
    );
    lemma_bracket_cat_only_free(
        head + iface_lit + u.private_key + "\nDNS = "@ + u.dns + "\nMTU = "@,
        u.mtu,
        ip,
    );
    let mid = cfg_mid(u, s);
    assert(bracket_only_at(mid, ip));
    let pp: int = mid.len() as int + 2;
    lemma_bracket_cat_only_only(mid, peer_lit, ip, 2);
    lemma_bracket_cat_pair_free(mid + peer_lit, s.public_key, ip, pp);
    lemma_bracket_cat_pair_free(
        mid + peer_lit + s.public_key,
        "\nAllowedIPs = 0.0.0.0/0, ::/0\nEndpoint = "@,
        ip,
        pp,
    );
    lemma_bracket_cat_pair_free(
        mid + peer_lit + s.public_key + "\nAllowedIPs = 0.0.0.0/0, ::/0\nEndpoint = "@,
        s.hostname,
        ip,
        pp,
    );
    lemma_bracket_cat_pair_free(
        mid + peer_lit + s.public_key + "\nAllowedIPs = 0.0.0.0/0, ::/0\nEndpoint = "@
            + s.hostname,
        ":51820"@,
        ip,
        pp,
    );
    let d = spec_config(u, s);
    assert(bracket_only_at_pair(d, ip, pp));
    reveal_strlit("[Interface]");
    reveal_strlit("[Peer]");
    // the two markers disagree one character after the '[', so neither
    // occurrence can stand at the other's position
    assert(d.subrange(ip, ip + 11)[1] == d[ip + 1]);
    assert(d[ip + 1] == 'I');
    assert(d.subrange(pp, pp + 6)[1] == d[pp + 1]);
    assert(d[pp + 1] == 'P');
    assert forall|i1: int, i2: int|
        occurs_at(d, "[Interface]"@, i1) && occurs_at(d, "[Interface]"@, i2) implies i1 == i2 by {
        assert(d.subrange(i1, i1 + 11)[0] == d[i1]);
        assert(d[i1] == '[');
        assert(d.subrange(i1, i1 + 11)[1] == d[i1 + 1]);
        assert(i1 == ip || i1 == pp);
        assert(i1 != pp);
        assert(d.subrange(i2, i2 + 11)[0] == d[i2]);
        assert(d[i2] == '[');
        assert(d.subrange(i2, i2 + 11)[1] == d[i2 + 1]);
        assert(i2 == ip || i2 == pp);
        assert(i2 != pp);
    }
    assert forall|j1: int, j2: int|
        occurs_at(d, "[Peer]"@, j1) && occurs_at(d, "[Peer]"@, j2) implies j1 == j2 by {
        assert(d.subrange(j1, j1 + 6)[0] == d[j1]);
        assert(d[j1] == '[');
        assert(d.subrange(j1, j1 + 6)[1] == d[j1 + 1]);
        assert(j1 == ip || j1 == pp);
        assert(j1 != ip);
        assert(d.subrange(j2, j2 + 6)[0] == d[j2]);
        assert(d[j2] == '[');
        assert(d.subrange(j2, j2 + 6)[1] == d[j2 + 1]);
        assert(j2 == ip || j2 == pp);
        assert(j2 != ip);
    }
}

} // verus!
