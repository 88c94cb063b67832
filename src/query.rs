//! Answering a listing query: filtering by the query's criteria, a stable
//! ascending sort by date or price, and slicing into pages of twenty.
use vstd::prelude::*;
use vstd::string::*;
use crate::flight::Flight;
use crate::text::{
    contains_text, has_substring, lower_of, lowercase, split_commas, split_on_commas, trim,
    trim_of,
};

verus! {

/// Records per page.
pub const PAGE_SIZE: usize = 20;

/// The parameters of a listing request, each optional.
#[derive(Clone, Debug, Default, PartialEq, Eq)]
pub struct FlightParams {
    /// Page to return, counted from 1; absent means 1.
    pub page: Option<usize>,
    /// Text the origin must contain, ignoring case.
    pub origin: Option<String>,
    /// Text the destination must contain, ignoring case.
    pub destination: Option<String>,
    /// Comma-separated airline names; the airline must contain one of them.
    pub airline: Option<String>,
    /// `date` orders by date; anything else, or nothing, by price.
    pub sort_by: Option<String>,
    /// Exclusive upper bound on the price.
    pub max_price: Option<u32>,
    /// Exclusive upper bound on the rain probability.
    pub max_rain: Option<u8>,
}

/// One page of a listing.
#[derive(Clone, Debug, PartialEq, Eq)]
pub struct PaginatedResponse {
    pub data: Vec<Flight>,
    pub page: usize,
    pub total_pages: usize,
    pub total_items: usize,
}

/// What a listing is ordered by, ascending.
#[derive(Clone, Copy, Debug, PartialEq, Eq)]
pub enum SortKey {
    Date,
    Price,
}

/// A query's filters with their texts already folded to lower case.
pub struct Criteria {
    pub origin: Option<String>,
    pub destination: Option<String>,
    pub airlines: Option<Vec<String>>,
    pub max_price: Option<u32>,
    pub max_rain: Option<u8>,
}

/// The airline pieces of a parameter value: each piece between commas,
/// trimmed and folded to lower case.
pub open spec fn airline_pieces(list: Seq<char>) -> Seq<Seq<char>> {
    split_commas(list).map_values(|p: Seq<char>| lower_of(trim_of(p)))
}

/// The folded airline name contains one of the pieces.
pub open spec fn matches_any(airline: Seq<char>, pieces: Seq<Seq<char>>) -> bool {
    exists|i: int| 0 <= i < pieces.len() && has_substring(airline, #[trigger] pieces[i])
}

/// `f` passes every filter that `p` sets.
pub open spec fn admits(f: Flight, p: FlightParams) -> bool {
    &&& p.origin is Some ==> has_substring(lower_of(f.origin@), lower_of(p.origin->0@))
    &&& p.destination is Some ==> has_substring(
        lower_of(f.destination@),
        lower_of(p.destination->0@),
    )
    &&& p.airline is Some ==> matches_any(lower_of(f.airline@), airline_pieces(p.airline->0@))
    &&& p.max_price is Some ==> f.price_inr < p.max_price->0
    &&& p.max_rain is Some ==> f.rain_probability < p.max_rain->0
}

pub open spec fn admitted_by(p: FlightParams) -> spec_fn(Flight) -> bool {
    |f: Flight| admits(f, p)
}

/// The records of `d` that `p` admits, in their order in `d`.
pub open spec fn filtered(d: Seq<Flight>, p: FlightParams) -> Seq<Flight> {
    d.filter(admitted_by(p))
}

pub open spec fn sort_key_of(p: FlightParams) -> SortKey {
    if p.sort_by is Some && p.sort_by->0@ == "date"@ {
        SortKey::Date
    } else {
        SortKey::Price
    }
}

pub open spec fn page_of(p: FlightParams) -> int {
    match p.page {
        Some(n) => n as int,
        None => 1,
    }
}

/// `a` comes strictly before `b` under `k`.
pub open spec fn ranks_before(a: Flight, b: Flight, k: SortKey) -> bool {
    match k {
        SortKey::Date => a.date.precedes(b.date),
        SortKey::Price => a.price_inr < b.price_inr,
    }
}

/// `a` and `b` tie under `k`.
pub open spec fn same_rank(a: Flight, b: Flight, k: SortKey) -> bool {
    match k {
        SortKey::Date => a.date == b.date,
        SortKey::Price => a.price_inr == b.price_inr,
    }
}

/// Position `i` of `s` goes before position `j`: by key, and by position
/// among ties.
pub open spec fn goes_before(s: Seq<Flight>, k: SortKey, i: int, j: int) -> bool {
    ranks_before(s[i], s[j], k) || (same_rank(s[i], s[j], k) && i < j)
}

/// `p` lists positions of `s`, one per record, in the stable order of `k`.
pub open spec fn is_sorted_order(s: Seq<Flight>, k: SortKey, p: Seq<usize>) -> bool {
    &&& p.len() == s.len()
    &&& forall|a: int| 0 <= a < p.len() ==> p[a] < s.len()
    &&& forall|a: int, b: int|
        0 <= a < b < p.len() ==> goes_before(s, k, #[trigger] p[a] as int, #[trigger] p[b] as int)
}

/// The records of `s` at the positions `p`.
pub open spec fn arranged(s: Seq<Flight>, p: Seq<usize>) -> Seq<Flight> {
    p.map_values(|i: usize| s[i as int])
}

/// `r` is `s` sorted stably and ascending by `k`.
pub open spec fn sorted_as(s: Seq<Flight>, k: SortKey, r: Seq<Flight>) -> bool {
    exists|p: Seq<usize>| is_sorted_order(s, k, p) && r == arranged(s, p)
}

/// Pages needed for `n` records: `n / 20` rounded up.
pub open spec fn page_count(n: int) -> int {
    (n + 19) / 20
}

/// The records of page `page` (counted from 1) of `s`; empty past the end and
/// for page 0.
pub open spec fn page_slice(s: Seq<Flight>, page: int) -> Seq<Flight> {
    if 1 <= page && (page - 1) * 20 < s.len() {
        s.subrange((page - 1) * 20, if page * 20 < s.len() { page * 20 } else { s.len() as int })
    } else {
        Seq::empty()
    }
}

/// `r` is the answer to `p` over the records `d`.
pub open spec fn answers(d: Seq<Flight>, p: FlightParams, r: PaginatedResponse) -> bool {
    let f = filtered(d, p);
    &&& r.page == page_of(p)
    &&& r.total_items == f.len()
    &&& r.total_pages == page_count(f.len() as int)
    &&& exists|s: Seq<Flight>| sorted_as(f, sort_key_of(p), s) && r.data@ == page_slice(s, page_of(p))
}

impl Criteria {
    /// The criteria hold the folded forms of `p`'s texts.
    pub open spec fn folds(self, p: FlightParams) -> bool {
        &&& self.origin is Some <==> p.origin is Some
        &&& p.origin is Some ==> self.origin->0@ == lower_of(p.origin->0@)
        &&& self.destination is Some <==> p.destination is Some
        &&& p.destination is Some ==> self.destination->0@ == lower_of(p.destination->0@)
        &&& self.airlines is Some <==> p.airline is Some
        &&& p.airline is Some ==> self.airlines->0@.map_values(|a: String| a@) == airline_pieces(
            p.airline->0@,
        )
        &&& self.max_price == p.max_price
        &&& self.max_rain == p.max_rain
    }

    /// A record with the folded texts `origin`, `destination`, `airline`
    /// and the numbers `price`, `rain` passes every filter.
    pub open spec fn accepts_spec(
        self,
        origin: Seq<char>,
        destination: Seq<char>,
        airline: Seq<char>,
        price: u32,
        rain: u8,
    ) -> bool {
        &&& self.origin is Some ==> has_substring(origin, self.origin->0@)
        &&& self.destination is Some ==> has_substring(destination, self.destination->0@)
        &&& self.airlines is Some ==> matches_any(
            airline,
            self.airlines->0@.map_values(|a: String| a@),
        )
        &&& self.max_price is Some ==> price < self.max_price->0
        &&& self.max_rain is Some ==> rain < self.max_rain->0
    }

    /// The criteria of a request, with its texts folded and the airline list
    /// split, trimmed and folded.
    pub fn from_params(p: &FlightParams) -> (c: Criteria)
        ensures
            c.folds(*p),
    {
        let origin = match &p.origin {
            Some(o) => Some(lowercase(o.as_str())),
            None => None,
        };
        let destination = match &p.destination {
            Some(d) => Some(lowercase(d.as_str())),
            None => None,
        };
        let airlines = match &p.airline {
            Some(list) => {
                let pieces = split_on_commas(list.as_str());
                let ghost split = split_commas(list@);
                let mut folded: Vec<String> = Vec::new();
                let mut i: usize = 0;
                while i < pieces.len()
                    invariant
                        pieces@.map_values(|q: String| q@) == split,
                        i <= pieces@.len(),
                        folded@.map_values(|a: String| a@) == split.take(i as int).map_values(
                            |q: Seq<char>| lower_of(trim_of(q)),
                        ),
                    decreases pieces@.len() - i,
                {
                    let ghost before = folded@.map_values(|a: String| a@);
                    assert(pieces@.map_values(|q: String| q@)[i as int] == pieces@[i as int]@);
                    let piece = lowercase(trim(pieces[i].as_str()));
                    assert(piece@ == lower_of(trim_of(split[i as int])));
                    folded.push(piece);
                    assert(split.take(i + 1) =~= split.take(i as int).push(split[i as int]));
                    assert(folded@.map_values(|a: String| a@) =~= before.push(piece@));
                    i += 1;
                    assert(folded@.map_values(|a: String| a@) =~= split.take(i as int).map_values(
                        |q: Seq<char>| lower_of(trim_of(q)),
                    ));
                }
                assert(split.take(i as int) =~= split);
                Some(folded)
            },
            None => None,
        };
        Criteria { origin, destination, airlines, max_price: p.max_price, max_rain: p.max_rain }
    }

    /// Whether a record passes every filter, given its folded texts.
    pub fn accepts(&self, origin: &str, destination: &str, airline: &str, price: u32, rain: u8) -> (r:
        bool)
        ensures
            r == self.accepts_spec(origin@, destination@, airline@, price, rain),
    {
        if let Some(o) = &self.origin {
            if !contains_text(origin, o.as_str()) {
                return false;
            }
        }
        if let Some(d) = &self.destination {
            if !contains_text(destination, d.as_str()) {
                return false;
            }
        }
        if let Some(list) = &self.airlines {
            let ghost pieces = list@.map_values(|a: String| a@);
            let mut found = false;
            let mut i: usize = 0;
            while i < list.len()
                invariant
                    pieces == list@.map_values(|a: String| a@),
                    i <= list@.len(),
                    found == exists|j: int| 0 <= j < i && has_substring(airline@, #[trigger] pieces[j]),
                decreases list@.len() - i,
            {
                assert(pieces[i as int] == list@[i as int]@);
                if contains_text(airline, list[i].as_str()) {
                    found = true;
                }
                i += 1;
            }
            if !found {
                return false;
            }
        }
        if let Some(m) = self.max_price {
            if price >= m {
                return false;
            }
        }
        if let Some(m) = self.max_rain {
            if rain >= m {
                return false;
            }
        }
        true
    }
}

/// The records of `flights` that `params` admits, in their original order.
pub fn filter_flights(flights: &Vec<Flight>, params: &FlightParams) -> (r: Vec<Flight>)
    ensures
        r@ == filtered(flights@, *params),
{
    let c = Criteria::from_params(params);
    let mut out: Vec<Flight> = Vec::new();
    let mut i: usize = 0;
    while i < flights.len()
        invariant
            c.folds(*params),
            i <= flights@.len(),
            out@ == flights@.take(i as int).filter(admitted_by(*params)),
        decreases flights@.len() - i,
    {
        let f = &flights[i];
        let ok = c.accepts(
            lowercase(f.origin.as_str()).as_str(),
            lowercase(f.destination.as_str()).as_str(),
            lowercase(f.airline.as_str()).as_str(),
            f.price_inr,
            f.rain_probability,
        );
        assert(ok == admits(*f, *params));
        if ok {
            out.push(f.duplicate());
        }
        proof {
            reveal(Seq::filter);
            assert(flights@.take(i + 1).drop_last() =~= flights@.take(i as int));
        }
        i += 1;
    }
    assert(flights@.take(i as int) =~= flights@);
    out
}

/// Ordering by a key is transitive and total, ties included.
proof fn lemma_rank_order(a: Flight, b: Flight, c: Flight, k: SortKey)
    ensures
        ranks_before(a, b, k) && ranks_before(b, c, k) ==> ranks_before(a, c, k),
        ranks_before(a, b, k) && same_rank(b, c, k) ==> ranks_before(a, c, k),
        same_rank(a, b, k) && ranks_before(b, c, k) ==> ranks_before(a, c, k),
        same_rank(a, b, k) && same_rank(b, c, k) ==> same_rank(a, c, k),
        ranks_before(a, b, k) || same_rank(a, b, k) || ranks_before(b, a, k),
        !(ranks_before(a, b, k) && ranks_before(b, a, k)),
        !(ranks_before(a, b, k) && same_rank(a, b, k)),
        same_rank(a, b, k) == same_rank(b, a, k),
{
}

fn ranks_lt(a: &Flight, b: &Flight, k: SortKey) -> (r: bool)
    ensures
        r == ranks_before(*a, *b, k),
{
    match k {
        SortKey::Date => {
            let (x, y) = (a.date, b.date);
            x.year < y.year || (x.year == y.year && (x.month < y.month || (x.month == y.month
                && x.day < y.day)))
        },
        SortKey::Price => a.price_inr < b.price_inr,
    }
}

/// The positions of `s` in the stable ascending order of `k`.
pub fn sort_order(s: &Vec<Flight>, k: SortKey) -> (p: Vec<usize>)
    ensures
        is_sorted_order(s@, k, p@),
{
    let n = s.len();
    let mut order: Vec<usize> = Vec::new();
    let mut i: usize = 0;
    while i < n
        invariant
            n == s@.len(),
            i <= n,
            order@.len() == i,
            forall|a: int| 0 <= a < order@.len() ==> order@[a] < i,
            forall|a: int, b: int|
                0 <= a < b < order@.len() ==> goes_before(
                    s@,
                    k,
                    #[trigger] order@[a] as int,
                    #[trigger] order@[b] as int,
                ),
        decreases n - i,
    {
        let mut pos: usize = 0;
        while pos < order.len() && !ranks_lt(&s[i], &s[order[pos]], k)
            invariant
                n == s@.len(),
                i < n,
                pos <= order@.len(),
                forall|a: int| 0 <= a < order@.len() ==> order@[a] < i,
                forall|q: int| 0 <= q < pos ==> goes_before(s@, k, #[trigger] order@[q] as int, i as int),
            decreases order@.len() - pos,
        {
            proof {
                lemma_rank_order(s@[order@[pos as int] as int], s@[i as int], s@[i as int], k);
            }
            pos += 1;
        }
        proof {
            assert forall|q: int| pos <= q < order@.len() implies goes_before(
                s@,
                k,
                i as int,
                #[trigger] order@[q] as int,
            ) by {
                let x = s@[i as int];
                let y = s@[order@[pos as int] as int];
                let z = s@[order@[q] as int];
                lemma_rank_order(x, y, z, k);
                if q > pos {
                    assert(goes_before(s@, k, order@[pos as int] as int, order@[q] as int));
                }
            }
        }
        let ghost old_order = order@;
        order.insert(pos, i);
        proof {
            assert forall|a: int, b: int| 0 <= a < b < order@.len() implies goes_before(
                s@,
                k,
                #[trigger] order@[a] as int,
                #[trigger] order@[b] as int,
            ) by {
                if a < pos && b == pos {
                    assert(order@[a] == old_order[a]);
                } else if a < pos && b > pos {
                    assert(order@[a] == old_order[a] && order@[b] == old_order[b - 1]);
                } else if a == pos {
                    assert(order@[b] == old_order[b - 1]);
                } else if b < pos {
                    assert(order@[a] == old_order[a] && order@[b] == old_order[b]);
                } else {
                    assert(order@[a] == old_order[a - 1] && order@[b] == old_order[b - 1]);
                }
            }
        }
        i += 1;
    }
    order
}

/// The records of `s`, sorted stably and ascending by `k`.
pub fn sort_flights(s: &Vec<Flight>, k: SortKey) -> (r: Vec<Flight>)
    ensures
        sorted_as(s@, k, r@),
{
    let order = sort_order(s, k);
    let mut out: Vec<Flight> = Vec::new();
    let mut i: usize = 0;
    while i < order.len()
        invariant
            is_sorted_order(s@, k, order@),
            i <= order@.len(),
            out@ == arranged(s@, order@.take(i as int)),
        decreases order@.len() - i,
    {
        out.push(s[order[i]].duplicate());
        i += 1;
        assert(out@ =~= arranged(s@, order@.take(i as int)));
    }
    assert(order@.take(i as int) =~= order@);
    out
}

proof fn lemma_page_bound(q: int, n: int)
    requires
        q >= 0,
        n >= 0,
    ensures
        q < page_count(n) <==> q * 20 < n,
{
    assert(q < (n + 19) / 20 <==> q * 20 < n) by (nonlinear_arith)
        requires
            q >= 0,
            n >= 0,
    ;
}

/// Pages needed for `n` records, rounded up.
pub fn count_pages(n: usize) -> (r: usize)
    ensures
        r == page_count(n as int),
{
    let whole = n / PAGE_SIZE;
    if n % PAGE_SIZE == 0 {
        whole
    } else {
        whole + 1
    }
}

/// Page `page` (counted from 1) of the ordered records `s`, with the totals.
pub fn paginate(s: &Vec<Flight>, page: usize) -> (r: PaginatedResponse)
    ensures
        r.data@ == page_slice(s@, page as int),
        r.page == page,
        r.total_items == s@.len(),
        r.total_pages == page_count(s@.len() as int),
{
    let n = s.len();
    let total = count_pages(n);
    let mut data: Vec<Flight> = Vec::new();
    proof {
        if page >= 1 {
            lemma_page_bound(page - 1, n as int);
        }
    }
    if page >= 1 && page - 1 < total {
        let start = (page - 1) * PAGE_SIZE;
        let end = if n - start > PAGE_SIZE {
            start + PAGE_SIZE
        } else {
            n
        };
        let mut i: usize = start;
        while i < end
            invariant
                start <= i <= end <= n == s@.len(),
                data@ == s@.subrange(start as int, i as int),
            decreases end - i,
        {
            data.push(s[i].duplicate());
            i += 1;
            assert(data@ =~= s@.subrange(start as int, i as int));
        }
    } else {
        assert(page_slice(s@, page as int) =~= Seq::<Flight>::empty());
    }
    PaginatedResponse { data, page, total_pages: total, total_items: n }
}

/// The order a request asks for: `date`, or else price.
pub fn sort_key(p: &FlightParams) -> (k: SortKey)
    ensures
        k == sort_key_of(*p),
{
    match &p.sort_by {
        Some(by) => {
            if *by == String::from_str("date") {
                SortKey::Date
            } else {
                SortKey::Price
            }
        },
        None => SortKey::Price,
    }
}

/// Answers a listing request over `flights`: the admitted records, sorted,
/// then cut to the requested page.
pub fn list_flights(flights: &Vec<Flight>, params: FlightParams) -> (r: PaginatedResponse)
    ensures
        answers(flights@, params, r),
{
    let page = match params.page {
        Some(n) => n,
        None => 1,
    };
    let kept = filter_flights(flights, &params);
    let sorted = sort_flights(&kept, sort_key(&params));
    proof {
        let p = choose|p: Seq<usize>| is_sorted_order(kept@, sort_key_of(params), p) && sorted@
            == arranged(kept@, p);
        assert(sorted@.len() == kept@.len());
    }
    paginate(&sorted, page)
}

proof fn lemma_filter_within<A>(d: Seq<A>, pred: spec_fn(A) -> bool)
    ensures
        forall|i: int| 0 <= i < d.filter(pred).len() ==> d.contains(#[trigger] d.filter(pred)[i]),
    decreases d.len(),
{
    reveal(Seq::filter);
    if d.len() > 0 {
        lemma_filter_within(d.drop_last(), pred);
        let sub = d.drop_last().filter(pred);
        assert forall|i: int| 0 <= i < d.filter(pred).len() implies d.contains(
            #[trigger] d.filter(pred)[i],
        ) by {
            if i < sub.len() {
                assert(d.drop_last().contains(sub[i]));
                let j = choose|j: int| 0 <= j < d.drop_last().len() && d.drop_last()[j] == sub[i];
                assert(d[j] == sub[i]);
            } else {
                assert(d[d.len() - 1] == d.filter(pred)[i]);
            }
        }
    }
}

/// Filtering keeps exactly the records of the data set that pass every
/// filter the request sets, and never more records than there were.
pub proof fn lemma_filter_exact(d: Seq<Flight>, p: FlightParams)
    ensures
        forall|f: Flight| filtered(d, p).contains(f) <==> d.contains(f) && admits(f, p),
        filtered(d, p).len() <= d.len(),
{
    let pred = admitted_by(p);
    lemma_filter_within(d, pred);
    d.lemma_filter_len(pred);
    assert forall|f: Flight| filtered(d, p).contains(f) <==> d.contains(f) && admits(f, p) by {
        if filtered(d, p).contains(f) {
            let i = choose|i: int| 0 <= i < filtered(d, p).len() && filtered(d, p)[i] == f;
            d.lemma_filter_pred(pred, i);
        }
        if d.contains(f) && admits(f, p) {
            let i = choose|i: int| 0 <= i < d.len() && d[i] == f;
            d.lemma_filter_contains(pred, i);
        }
    }
}

/// A sorted listing holds as many records as it was made from, is
/// non-decreasing in its key, takes no original position twice, and keeps
/// records with equal keys in their original relative order.
pub proof fn lemma_sorted_order(s: Seq<Flight>, k: SortKey, r: Seq<Flight>)
    requires
        sorted_as(s, k, r),
    ensures
        r.len() == s.len(),
        forall|a: int, b: int| 0 <= a < b < r.len() ==> !ranks_before(#[trigger] r[b], #[trigger] r[a], k),
        forall|p: Seq<usize>, a: int, b: int|
            is_sorted_order(s, k, p) && 0 <= a < b < p.len() ==> #[trigger] p[a] != #[trigger] p[b]
                && (same_rank(s[p[a] as int], s[p[b] as int], k) ==> p[a] < p[b]),
{
    let p = choose|p: Seq<usize>| is_sorted_order(s, k, p) && r == arranged(s, p);
    assert forall|a: int, b: int| 0 <= a < b < r.len() implies !ranks_before(
        #[trigger] r[b],
        #[trigger] r[a],
        k,
    ) by {
        assert(goes_before(s, k, p[a] as int, p[b] as int));
        lemma_rank_order(r[a], r[b], r[a], k);
    }
    assert forall|q: Seq<usize>, a: int, b: int|
        is_sorted_order(s, k, q) && 0 <= a < b < q.len() implies #[trigger] q[a] != #[trigger] q[b]
            && (same_rank(s[q[a] as int], s[q[b] as int], k) ==> q[a] < q[b]) by {
        assert(goes_before(s, k, q[a] as int, q[b] as int));
        lemma_rank_order(s[q[a] as int], s[q[b] as int], s[q[a] as int], k);
    }
}

/// The page count is the number of records divided by twenty, rounded up.
pub proof fn lemma_page_count(n: int)
    requires
        n >= 0,
    ensures
        20 * page_count(n) >= n,
        20 * page_count(n) < n + 20,
        n == 0 ==> page_count(n) == 0,
{
    assert(20 * ((n + 19) / 20) >= n && 20 * ((n + 19) / 20) < n + 20) by (nonlinear_arith)
        requires
            n >= 0,
    ;
}

/// A page past the last one is empty; the totals of a response do not depend
/// on the page asked for.
pub proof fn lemma_page_past_end(d: Seq<Flight>, p: FlightParams, r: PaginatedResponse)
    requires
        answers(d, p, r),
        page_of(p) > r.total_pages,
    ensures
        r.data@.len() == 0,
        r.total_items == filtered(d, p).len(),
        r.total_pages == page_count(filtered(d, p).len() as int),
{
    let f = filtered(d, p);
    let s = choose|s: Seq<Flight>| sorted_as(f, sort_key_of(p), s) && r.data@ == page_slice(
        s,
        page_of(p),
    );
    lemma_sorted_order(f, sort_key_of(p), s);
    lemma_page_bound(page_of(p) - 1, f.len() as int);
}

/// The positions in `d` of the records that `d.filter(pred)` keeps, in
/// increasing order.
proof fn lemma_filter_positions<A>(d: Seq<A>, pred: spec_fn(A) -> bool) -> (idx: Seq<int>)
    ensures
        idx.len() == d.filter(pred).len(),
        forall|k: int|
            0 <= k < idx.len() ==> 0 <= #[trigger] idx[k] < d.len() && d[idx[k]] == d.filter(
                pred,
            )[k],
        forall|a: int, b: int| 0 <= a < b < idx.len() ==> #[trigger] idx[a] < #[trigger] idx[b],
    decreases d.len(),
{
    reveal(Seq::filter);
    if d.len() == 0 {
        Seq::empty()
    } else {
        let sub = lemma_filter_positions(d.drop_last(), pred);
        if pred(d.last()) {
            let idx = sub.push(d.len() - 1);
            assert forall|k: int| 0 <= k < idx.len() implies 0 <= #[trigger] idx[k] < d.len()
                && d[idx[k]] == d.filter(pred)[k] by {
                if k < sub.len() {
                    assert(idx[k] == sub[k]);
                }
            }
            idx
        } else {
            sub
        }
    }
}

/// `src` gives, for each record of `data`, a position in `d` that holds it,
/// and positions increase among records with equal keys.
pub open spec fn traces_back(d: Seq<Flight>, data: Seq<Flight>, k: SortKey, src: Seq<int>) -> bool {
    &&& src.len() == data.len()
    &&& forall|i: int| 0 <= i < src.len() ==> 0 <= #[trigger] src[i] < d.len() && d[src[i]] == data[i]
    &&& forall|i: int, j: int|
        0 <= i < j < src.len() && same_rank(data[i], data[j], k) ==> #[trigger] src[i]
            < #[trigger] src[j]
}

/// Every record of a response stands in the data set, the records are
/// non-decreasing in the requested key, and records with equal keys keep the
/// order they have in the data set.
pub proof fn lemma_listing_stable(d: Seq<Flight>, p: FlightParams, r: PaginatedResponse)
    requires
        answers(d, p, r),
    ensures
        exists|src: Seq<int>| #[trigger] traces_back(d, r.data@, sort_key_of(p), src),
        forall|i: int, j: int|
            0 <= i < j < r.data@.len() ==> !ranks_before(
                #[trigger] r.data@[j],
                #[trigger] r.data@[i],
                sort_key_of(p),
            ),
{
    let k = sort_key_of(p);
    let f = filtered(d, p);
    let page = page_of(p);
    let s = choose|s: Seq<Flight>| sorted_as(f, k, s) && r.data@ == page_slice(s, page);
    let order = choose|q: Seq<usize>| is_sorted_order(f, k, q) && s == arranged(f, q);
    lemma_sorted_order(f, k, s);
    let idx = lemma_filter_positions(d, admitted_by(p));
    let start = if 1 <= page && (page - 1) * 20 < s.len() {
        (page - 1) * 20
    } else {
        0
    };
    let src = Seq::new(r.data@.len(), |i: int| idx[order[start + i] as int]);
    if 1 <= page && (page - 1) * 20 < s.len() {
        assert forall|i: int| 0 <= i < src.len() implies 0 <= #[trigger] src[i] < d.len() && d[src[i]]
            == r.data@[i] by {
            assert(r.data@[i] == s[start + i]);
        }
        assert forall|i: int, j: int|
            0 <= i < j < src.len() && same_rank(r.data@[i], r.data@[j], k) implies #[trigger] src[i]
            < #[trigger] src[j] by {
            assert(r.data@[i] == s[start + i] && r.data@[j] == s[start + j]);
            assert(goes_before(f, k, order[start + i] as int, order[start + j] as int));
            lemma_rank_order(r.data@[i], r.data@[j], r.data@[i], k);
        }
    } else {
        assert(r.data@.len() == 0);
    }
    assert(traces_back(d, r.data@, k, src));
    assert forall|i: int, j: int| 0 <= i < j < r.data@.len() implies !ranks_before(
        #[trigger] r.data@[j],
        #[trigger] r.data@[i],
        k,
    ) by {
        assert(r.data@[i] == s[start + i] && r.data@[j] == s[start + j]);
    }
}

} // verus!
