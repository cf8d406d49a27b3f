//! Filtering and ranking: the criteria object, the selection predicate, and
//! a stable ascending ranking by load.

use vstd::prelude::*;

verus! {

use crate::mapper::Server;
use crate::mapper::ServerV;
use crate::mapper::views_of;
use crate::text::contains_chars;
use crate::text::contains_seq;
use crate::text::lower_of;
use crate::text::lowercase;
use crate::text::str_chars;

/// User-supplied selection criteria: a free-text query and a required
/// peer-to-peer flag.
#[derive(Debug)]
pub struct ServerFilterParam {
    pub query: String,
    pub p2p: bool,
}

/// The mathematical model of the criteria.
pub ghost struct FilterV {
    pub query: Seq<char>,
    pub p2p: bool,
}

impl View for ServerFilterParam {
    type V = FilterV;

    open spec fn view(&self) -> FilterV {
        FilterV { query: self.query@, p2p: self.p2p }
    }
}

/// A case-folded substring match of the query against one of the record's
/// place and name fields.
pub open spec fn query_hits(r: ServerV, q: Seq<char>) -> bool {
    ||| contains_seq(lower_of(r.identifier), lower_of(q))
    ||| contains_seq(lower_of(r.country), lower_of(q))
    ||| contains_seq(lower_of(r.country_code), lower_of(q))
    ||| contains_seq(lower_of(r.city), lower_of(q))
}

/// The selection predicate: online, peer-to-peer flag as demanded, protocol
/// supported, and — unless the query is empty, which matches everything — a
/// case-folded substring hit on one of the four text fields.
pub open spec fn matches_criteria(r: ServerV, f: FilterV) -> bool {
    &&& r.online
    &&& r.p2p == f.p2p
    &&& r.supports_protocol
    &&& (f.query.len() == 0 || query_hits(r, f.query))
}

/// The matching records, in catalog order.
pub open spec fn spec_filter(c: Seq<ServerV>, f: FilterV) -> Seq<ServerV> {
    c.filter(|r: ServerV| matches_criteria(r, f))
}

/// Insertion of one record into a ranked sequence: after every record whose
/// load is at most its own, before the first strictly heavier one.
pub open spec fn insert_by_load(x: ServerV, t: Seq<ServerV>) -> Seq<ServerV>
    decreases t.len(),
{
    if t.len() == 0 {
        seq![x]
    } else if x.load < t.first().load {
        seq![x] + t
    } else {
        seq![t.first()] + insert_by_load(x, t.drop_first())
    }
}

/// Stable ranking by ascending load: each record is inserted after all the
/// earlier ones of equal load.
pub open spec fn sort_by_load(s: Seq<ServerV>) -> Seq<ServerV>
    decreases s.len(),
{
    if s.len() == 0 {
        Seq::empty()
    } else {
        insert_by_load(s.last(), sort_by_load(s.drop_last()))
    }
}

/// What selection returns: the matching records, stably ranked by load.
pub open spec fn spec_select(c: Seq<ServerV>, f: FilterV) -> Seq<ServerV> {
    sort_by_load(spec_filter(c, f))
}

/// Non-decreasing load order.
pub open spec fn sorted_by_load(s: Seq<ServerV>) -> bool {
    forall|i: int, j: int|
        0 <= i <= j < s.len() ==> (#[trigger] s[i]).load <= (#[trigger] s[j]).load
}

/// The subsequence of records carrying one given load value, in order.
pub open spec fn with_load(s: Seq<ServerV>, v: int) -> Seq<ServerV> {
    s.filter(|r: ServerV| r.load == v)
}

proof fn lemma_insert_by_load_at(t: Seq<ServerV>, x: ServerV, k: int)
    requires
        0 <= k <= t.len(),
        forall|j: int| 0 <= j < k ==> (#[trigger] t[j]).load <= x.load,
        k < t.len() ==> t[k].load > x.load,
    ensures
        insert_by_load(x, t) == t.take(k) + seq![x] + t.skip(k),
    decreases t.len(),
{
    if t.len() == 0 {
        assert(insert_by_load(x, t) =~= t.take(k) + seq![x] + t.skip(k));
    } else if k == 0 {
        assert(insert_by_load(x, t) =~= t.take(k) + seq![x] + t.skip(k));
    } else {
        assert(t[0].load <= x.load);
        assert(forall|j: int| 0 <= j < k - 1 ==> t.drop_first()[j] == t[j + 1]);
        lemma_insert_by_load_at(t.drop_first(), x, k - 1);
        assert(insert_by_load(x, t) == seq![t.first()] + insert_by_load(x, t.drop_first()));
        assert(seq![t.first()] + (t.drop_first().take(k - 1) + seq![x] + t.drop_first().skip(k - 1))
            =~= t.take(k) + seq![x] + t.skip(k));
    }
}

proof fn lemma_insert_by_load_lower_bound(x: ServerV, t: Seq<ServerV>, b: int)
    requires
        forall|i: int| 0 <= i < t.len() ==> b <= (#[trigger] t[i]).load,
        b <= x.load,
    ensures
        forall|i: int|
            0 <= i < insert_by_load(x, t).len() ==> b <= (#[trigger] insert_by_load(x, t)[i]).load,
    decreases t.len(),
{
    if t.len() == 0 {
        assert(insert_by_load(x, t) == seq![x]);
        assert(insert_by_load(x, t)[0] == x);
    } else if x.load < t.first().load {
        assert forall|i: int| 0 <= i < insert_by_load(x, t).len() implies b
            <= (#[trigger] insert_by_load(x, t)[i]).load by {
            assert(insert_by_load(x, t) == seq![x] + t);
            if i > 0 {
                assert(insert_by_load(x, t)[i] == t[i - 1]);
            }
        }
    } else {
        assert(forall|j: int| 0 <= j < t.len() - 1 ==> t.drop_first()[j] == t[j + 1]);
        lemma_insert_by_load_lower_bound(x, t.drop_first(), b);
        let ins = insert_by_load(x, t.drop_first());
        assert forall|i: int| 0 <= i < insert_by_load(x, t).len() implies b
            <= (#[trigger] insert_by_load(x, t)[i]).load by {
            assert(insert_by_load(x, t) == seq![t.first()] + ins);
            if i > 0 {
                assert(insert_by_load(x, t)[i] == ins[i - 1]);
            }
        }
    }
}

proof fn lemma_insert_by_load_sorted(x: ServerV, t: Seq<ServerV>)
    requires
        sorted_by_load(t),
    ensures
        sorted_by_load(insert_by_load(x, t)),
    decreases t.len(),
{
    if t.len() == 0 {
    } else if x.load < t.first().load {
        assert forall|i: int, j: int|
            0 <= i <= j < insert_by_load(x, t).len() implies (#[trigger] insert_by_load(x, t)[i]).load
            <= (#[trigger] insert_by_load(x, t)[j]).load by {
            assert(insert_by_load(x, t) == seq![x] + t);
        }
    } else {
        assert(forall|j: int| 0 <= j < t.len() - 1 ==> t.drop_first()[j] == t[j + 1]);
        lemma_insert_by_load_sorted(x, t.drop_first());
        lemma_insert_by_load_lower_bound(x, t.drop_first(), t.first().load as int);
        let ins = insert_by_load(x, t.drop_first());
        assert forall|i: int, j: int|
            0 <= i <= j < insert_by_load(x, t).len() implies (#[trigger] insert_by_load(x, t)[i]).load
            <= (#[trigger] insert_by_load(x, t)[j]).load by {
            assert(insert_by_load(x, t) == seq![t.first()] + ins);
            if i > 0 {
                assert(insert_by_load(x, t)[i] == ins[i - 1]);
                assert(insert_by_load(x, t)[j] == ins[j - 1]);
            } else if j > 0 {
                assert(insert_by_load(x, t)[j] == ins[j - 1]);
                assert(t.first().load <= ins[j - 1].load);
            }
        }
    }
}

proof fn lemma_sort_by_load_sorted(s: Seq<ServerV>)
    ensures
        sorted_by_load(sort_by_load(s)),
    decreases s.len(),
{
    if s.len() > 0 {
        lemma_sort_by_load_sorted(s.drop_last());
        lemma_insert_by_load_sorted(s.last(), sort_by_load(s.drop_last()));
    }
}

proof fn lemma_insert_by_load_elems(x: ServerV, t: Seq<ServerV>)
    ensures
        forall|i: int|
            0 <= i < insert_by_load(x, t).len() ==> (#[trigger] insert_by_load(x, t)[i]) == x
                || t.contains(insert_by_load(x, t)[i]),
    decreases t.len(),
{
    if t.len() == 0 {
    } else if x.load < t.first().load {
        assert forall|i: int| 0 <= i < insert_by_load(x, t).len() implies (#[trigger] insert_by_load(
            x,
            t,
        )[i]) == x || t.contains(insert_by_load(x, t)[i]) by {
            assert(insert_by_load(x, t) == seq![x] + t);
            if i > 0 {
                assert(insert_by_load(x, t)[i] == t[i - 1]);
            }
        }
    } else {
        lemma_insert_by_load_elems(x, t.drop_first());
        let ins = insert_by_load(x, t.drop_first());
        assert forall|i: int| 0 <= i < insert_by_load(x, t).len() implies (#[trigger] insert_by_load(
            x,
            t,
        )[i]) == x || t.contains(insert_by_load(x, t)[i]) by {
            assert(insert_by_load(x, t) == seq![t.first()] + ins);
            if i == 0 {
                assert(t.contains(t.first())) by {
                    assert(t[0] == t.first());
                }
            } else {
                let e = ins[i - 1];
                assert(insert_by_load(x, t)[i] == e);
                if e != x {
                    let j = choose|j: int|
                        0 <= j < t.drop_first().len() && t.drop_first()[j] == e;
                    assert(t[j + 1] == e);
                }
            }
        }
    }
}

proof fn lemma_sort_by_load_elems(s: Seq<ServerV>)
    ensures
        forall|i: int|
            0 <= i < sort_by_load(s).len() ==> s.contains(#[trigger] sort_by_load(s)[i]),
    decreases s.len(),
{
    if s.len() > 0 {
        lemma_sort_by_load_elems(s.drop_last());
        lemma_insert_by_load_elems(s.last(), sort_by_load(s.drop_last()));
        assert forall|i: int| 0 <= i < sort_by_load(s).len() implies s.contains(
            #[trigger] sort_by_load(s)[i],
        ) by {
            let e = sort_by_load(s)[i];
            if e == s.last() {
                assert(s[s.len() - 1] == e);
            } else {
                assert(sort_by_load(s.drop_last()).contains(e));
                let j = choose|j: int|
                    0 <= j < sort_by_load(s.drop_last()).len() && sort_by_load(s.drop_last())[j]
                        == e;
                assert(s.drop_last().contains(sort_by_load(s.drop_last())[j]));
                let l = choose|l: int| 0 <= l < s.drop_last().len() && s.drop_last()[l] == e;
                assert(s[l] == e);
            }
        }
    }
}

proof fn lemma_insert_by_load_with_load(x: ServerV, t: Seq<ServerV>, v: int)
    requires
        sorted_by_load(t),
    ensures
        with_load(insert_by_load(x, t), v) == if x.load == v {
            with_load(t, v).push(x)
        } else {
            with_load(t, v)
        },
    decreases t.len(),
{
    broadcast use vstd::prelude::Seq::lemma_filter_push;
    broadcast use vstd::prelude::Seq::filter_distributes_over_add;

    if t.len() == 0 {
        assert(seq![x] =~= Seq::<ServerV>::empty().push(x));
        assert(with_load(Seq::<ServerV>::empty(), v) =~= Seq::<ServerV>::empty()) by {
            reveal(Seq::filter);
        }
        assert(with_load(t, v) =~= Seq::<ServerV>::empty()) by {
            reveal(Seq::filter);
        }
    } else if x.load < t.first().load {
        assert(insert_by_load(x, t) == seq![x] + t);
        assert(with_load(seq![x] + t, v) == with_load(seq![x], v) + with_load(t, v));
        assert(seq![x] =~= Seq::<ServerV>::empty().push(x));
        assert(with_load(Seq::<ServerV>::empty(), v) =~= Seq::<ServerV>::empty()) by {
            reveal(Seq::filter);
        }
        if x.load == v {
            // every load in t is above x's, so none equals v
            assert forall|i: int| 0 <= i < t.len() implies !((#[trigger] t[i]).load == v) by {
                assert(t.first().load <= t[i].load);
            }
            t.lemma_all_neg_filter_empty(|r: ServerV| r.load == v);
            assert(with_load(t, v) == Seq::<ServerV>::empty());
            assert(with_load(seq![x], v) =~= Seq::<ServerV>::empty().push(x));
            assert(with_load(insert_by_load(x, t), v) =~= with_load(t, v).push(x));
        } else {
            assert(with_load(seq![x], v) =~= Seq::<ServerV>::empty());
            assert(with_load(insert_by_load(x, t), v) =~= with_load(t, v));
        }
    } else {
        assert(forall|j: int| 0 <= j < t.len() - 1 ==> t.drop_first()[j] == t[j + 1]);
        lemma_insert_by_load_with_load(x, t.drop_first(), v);
        let head = seq![t.first()];
        let ins = insert_by_load(x, t.drop_first());
        assert(insert_by_load(x, t) == head + ins);
        assert(with_load(head + ins, v) == with_load(head, v) + with_load(ins, v));
        assert(t =~= head + t.drop_first());
        assert(with_load(t, v) == with_load(head, v) + with_load(t.drop_first(), v));
        if x.load == v {
            assert(with_load(ins, v) == with_load(t.drop_first(), v).push(x));
            assert(with_load(head, v) + with_load(t.drop_first(), v).push(x) =~= (with_load(
                head,
                v,
            ) + with_load(t.drop_first(), v)).push(x));
        }
    }
}

proof fn lemma_sort_by_load_with_load(s: Seq<ServerV>, v: int)
    ensures
        with_load(sort_by_load(s), v) == with_load(s, v),
    decreases s.len(),
{
    broadcast use vstd::prelude::Seq::lemma_filter_push;

    if s.len() == 0 {
    } else {
        lemma_sort_by_load_with_load(s.drop_last(), v);
        lemma_sort_by_load_sorted(s.drop_last());
        lemma_insert_by_load_with_load(s.last(), sort_by_load(s.drop_last()), v);
        assert(s =~= s.drop_last().push(s.last()));
        assert(with_load(s.drop_last().push(s.last()), v) == if s.last().load == v {
            with_load(s.drop_last(), v).push(s.last())
        } else {
            with_load(s.drop_last(), v)
        });
    }
}

/// Law: every selected record satisfies the selection predicate.
pub proof fn lemma_select_satisfies(c: Seq<ServerV>, f: FilterV, k: int)
    requires
        0 <= k < spec_select(c, f).len(),
    ensures
        matches_criteria(spec_select(c, f)[k], f),
{
    broadcast use vstd::prelude::Seq::lemma_filter_pred;

    lemma_sort_by_load_elems(spec_filter(c, f));
    let e = spec_select(c, f)[k];
    assert(spec_filter(c, f).contains(e));
    let j = choose|j: int| 0 <= j < spec_filter(c, f).len() && spec_filter(c, f)[j] == e;
    assert(matches_criteria(spec_filter(c, f)[j], f));
}

/// Law: the selection is ranked by non-decreasing load, and the ranking is
/// stable — the records carrying any one load value keep exactly the order
/// they have among the matching records of the catalog.
pub proof fn lemma_select_ranked(c: Seq<ServerV>, f: FilterV)
    ensures
        sorted_by_load(spec_select(c, f)),
        forall|v: int|
            #[trigger] with_load(spec_select(c, f), v) == with_load(spec_filter(c, f), v),
{
    lemma_sort_by_load_sorted(spec_filter(c, f));
    assert forall|v: int|
        #[trigger] with_load(spec_select(c, f), v) == with_load(spec_filter(c, f), v) by {
        lemma_sort_by_load_with_load(spec_filter(c, f), v);
    }
}

/// Law: when no record of the catalog satisfies the predicate, the selection
/// is empty.
pub proof fn lemma_select_empty(c: Seq<ServerV>, f: FilterV)
    requires
        forall|k: int| 0 <= k < c.len() ==> !matches_criteria(#[trigger] c[k], f),
    ensures
        spec_select(c, f) == Seq::<ServerV>::empty(),
{
    lemma_spec_filter_all_out(c, f);
}

proof fn lemma_spec_filter_all_out(c: Seq<ServerV>, f: FilterV)
    requires
        forall|k: int| 0 <= k < c.len() ==> !matches_criteria(#[trigger] c[k], f),
    ensures
        spec_filter(c, f) == Seq::<ServerV>::empty(),
    decreases c.len(),
{
    reveal(Seq::filter);
    if c.len() > 0 {
        assert(forall|k: int| 0 <= k < c.len() - 1 ==> c.drop_last()[k] == c[k]);
        lemma_spec_filter_all_out(c.drop_last(), f);
        assert(!matches_criteria(c.last(), f));
    }
}

fn contains_folded(hay: &String, query_lc: &Vec<char>) -> (r: bool)
    ensures
        r == contains_seq(lower_of(hay@), query_lc@),
{
    let folded = lowercase(hay.as_str());
    let hay_chars = str_chars(folded.as_str());
    contains_chars(&hay_chars, query_lc)
}

/// Whether one record satisfies the criteria; `query_lc` must hold the
/// case-folded query.
fn server_matches(s: &Server, params: &ServerFilterParam, query_lc: &Vec<char>) -> (r: bool)
    requires
        query_lc@ == lower_of(params.query@),
    ensures
        r == matches_criteria(s@, params@),
{
    if !s.online {
        return false;
    }
    if s.p2p != params.p2p {
        return false;
    }
    if !s.supports_protocol {
        return false;
    }
    if params.query.as_str().is_empty() {
        return true;
    }
    if contains_folded(&s.identifier, query_lc) {
        return true;
    }
    if contains_folded(&s.country, query_lc) {
        return true;
    }
    if contains_folded(&s.country_code, query_lc) {
        return true;
    }
    contains_folded(&s.city, query_lc)
}

/// Narrows a catalog to the records matching the criteria and ranks them by
/// ascending load; the ranking is stable, so records of equal load keep
/// their catalog order.
pub fn filter_servers(params: &ServerFilterParam, servers: &[Server]) -> (res: Vec<Server>)
    ensures
        views_of(res@) == spec_select(views_of(servers@), params@),
{
    let query_lc_string = lowercase(params.query.as_str());
    let query_lc = str_chars(query_lc_string.as_str());
    let mut matched: Vec<Server> = Vec::new();
    let mut i: usize = 0;
    proof {
        assert(views_of(servers@).take(0) =~= Seq::<ServerV>::empty());
        assert(views_of(matched@) =~= Seq::<ServerV>::empty());
        assert(spec_filter(Seq::<ServerV>::empty(), params@) == Seq::<ServerV>::empty()) by {
            reveal(Seq::filter);
        }
    }
    while i < servers.len()
        invariant
            i <= servers@.len(),
            query_lc@ == lower_of(params.query@),
            views_of(matched@) == spec_filter(views_of(servers@).take(i as int), params@),
        decreases servers@.len() - i,
    {
        broadcast use vstd::prelude::Seq::lemma_filter_push;

        let ghost pre = matched@;
        let s = &servers[i];
        if server_matches(s, params, &query_lc) {
            matched.push(s.duplicate());
            proof {
                assert(views_of(matched@) =~= views_of(pre).push(s@));
            }
        }
        proof {
            assert(views_of(servers@).take(i + 1) =~= views_of(servers@).take(i as int).push(s@));
        }
        i = i + 1;
    }
    proof {
        assert(views_of(servers@).take(servers@.len() as int) =~= views_of(servers@));
    }
    let mut out: Vec<Server> = Vec::new();
    let mut j: usize = 0;
    proof {
        assert(views_of(matched@).take(0) =~= Seq::<ServerV>::empty());
        assert(views_of(out@) =~= Seq::<ServerV>::empty());
    }
    while j < matched.len()
        invariant
            j <= matched@.len(),
            views_of(matched@) == spec_filter(views_of(servers@), params@),
            views_of(out@) == sort_by_load(views_of(matched@).take(j as int)),
        decreases matched@.len() - j,
    {
        let x = matched[j].duplicate();
        let ghost pre_out = views_of(out@);
        let mut k: usize = 0;
        while k < out.len() && out[k].load <= x.load
            invariant
                k <= out@.len(),
                forall|l: int| 0 <= l < k ==> (#[trigger] out@[l])@.load <= x@.load,
            decreases out@.len() - k,
        {
            k = k + 1;
        }
        proof {
            assert(forall|l: int| 0 <= l < k ==> (#[trigger] pre_out[l]).load <= x@.load);
            assert(k < pre_out.len() ==> pre_out[k as int].load > x@.load);
            lemma_insert_by_load_at(pre_out, x@, k as int);
        }
        let ghost xv = x@;
        out.insert(k, x);
        proof {
            assert(views_of(out@) =~= pre_out.take(k as int) + seq![xv] + pre_out.skip(k as int));
            assert(views_of(matched@).take(j + 1).drop_last() =~= views_of(matched@).take(j as int));
            assert(views_of(matched@).take(j + 1).last() == views_of(matched@)[j as int]);
            assert(views_of(out@) == sort_by_load(views_of(matched@).take(j + 1)));
        }
        j = j + 1;
    }
    proof {
        assert(views_of(matched@).take(matched@.len() as int) =~= views_of(matched@));
    }
    out
}

} // verus!
