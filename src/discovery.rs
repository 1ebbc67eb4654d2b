//! Team discovery: the team id carried by a listing reference, and the state
//! of a paginated walk over the listing.
use vstd::prelude::*;
use vstd::utf8::encode_utf8;

verus! {

pub const SLASH: u8 = 47;

pub const QUESTION_MARK: u8 = 63;

pub const PLUS: u8 = 43;

pub open spec fn is_digit(c: u8) -> bool {
    48 <= c <= 57
}

/// The value of a string of decimal digits, most significant first.
pub open spec fn digits_value(s: Seq<u8>) -> nat
    decreases s.len(),
{
    if s.len() == 0 {
        0
    } else {
        digits_value(s.subrange(0, s.len() - 1)) * 10 + (s[s.len() - 1] - 48) as nat
    }
}

pub open spec fn all_digits(d: Seq<u8>) -> bool {
    forall|i: int| 0 <= i < d.len() ==> is_digit(#[trigger] d[i])
}

/// The digits of a number as `u32` parsing reads it: one leading `+` is dropped.
pub open spec fn without_plus(s: Seq<u8>) -> Seq<u8> {
    if s.len() > 0 && s[0] == PLUS {
        s.subrange(1, s.len() as int)
    } else {
        s
    }
}

/// An unsigned decimal number as `u32` parsing reads it: an optional `+`,
/// then one or more digits whose value fits in 32 bits.
pub open spec fn decimal_u32(s: Seq<u8>) -> Option<u32> {
    let d = without_plus(s);
    if d.len() > 0 && all_digits(d) && digits_value(d) <= u32::MAX {
        Some(digits_value(d) as u32)
    } else {
        None
    }
}

pub open spec fn is_last_of(s: Seq<u8>, c: u8, i: int) -> bool {
    0 <= i < s.len() && s[i] == c && forall|k: int| i < k < s.len() ==> s[k] != c
}

pub open spec fn is_first_of(s: Seq<u8>, c: u8, j: int) -> bool {
    0 <= j < s.len() && s[j] == c && forall|k: int| 0 <= k < j ==> s[k] != c
}

/// The id segment of a reference: what lies after its last `/` and before
/// the first `?` that follows; none when either separator is missing.
pub open spec fn id_segment(url: Seq<u8>) -> Option<Seq<u8>> {
    if exists|i: int| is_last_of(url, SLASH, i) {
        let i = choose|i: int| is_last_of(url, SLASH, i);
        let tail = url.subrange(i + 1, url.len() as int);
        if exists|j: int| is_first_of(tail, QUESTION_MARK, j) {
            let j = choose|j: int| is_first_of(tail, QUESTION_MARK, j);
            Some(tail.subrange(0, j))
        } else {
            None
        }
    } else {
        None
    }
}

/// The team id that a listing reference names, if it is well formed.
pub open spec fn ref_team_id(url: Seq<char>) -> Option<u32> {
    match id_segment(encode_utf8(url)) {
        Some(seg) => decimal_u32(seg),
        None => None,
    }
}

proof fn lemma_digits_prefix_le(s: Seq<u8>, k: int)
    requires
        0 <= k <= s.len(),
        all_digits(s),
    ensures
        digits_value(s.subrange(0, k)) <= digits_value(s),
    decreases s.len() - k,
{
    if k < s.len() {
        lemma_digits_prefix_le(s, k + 1);
        let p = s.subrange(0, k + 1);
        assert(p.subrange(0, p.len() - 1) =~= s.subrange(0, k));
    } else {
        assert(s.subrange(0, k) =~= s);
    }
}

/// Reads a `u32` written in decimal from `s[start..end]`.
fn parse_decimal_u32(s: &[u8], start: usize, end: usize) -> (r: Option<u32>)
    requires
        start <= end <= s@.len(),
    ensures
        r == decimal_u32(s@.subrange(start as int, end as int)),
{
    let ghost whole = s@.subrange(start as int, end as int);
    let mut i: usize = start;
    if start < end && s[start] == PLUS {
        i = start + 1;
    }
    let ghost d = s@.subrange(i as int, end as int);
    assert(d =~= without_plus(whole));
    if i == end {
        return None;
    }
    let mut acc: u64 = 0;
    let first = i;
    while i < end
        invariant
            first <= i <= end <= s@.len(),
            d == s@.subrange(first as int, end as int),
            whole == s@.subrange(start as int, end as int),
            d == without_plus(whole),
            d.len() > 0,
            forall|k: int| 0 <= k < i - first ==> is_digit(#[trigger] d[k]),
            acc == digits_value(d.subrange(0, i - first)),
            acc <= u32::MAX,
        decreases end - i,
    {
        let c = s[i];
        assert(d[i - first] == c);
        if c < 48 || c > 57 {
            assert(!is_digit(d[i - first]));
            return None;
        }
        let ghost p = d.subrange(0, i + 1 - first);
        assert(p.subrange(0, p.len() - 1) =~= d.subrange(0, i - first));
        let next: u64 = acc * 10 + (c - 48) as u64;
        assert(p[p.len() - 1] == c);
        assert(next == digits_value(p));
        if next > u32::MAX as u64 {
            proof {
                if all_digits(d) {
                    lemma_digits_prefix_le(d, i + 1 - first);
                }
            }
            return None;
        }
        acc = next;
        i = i + 1;
    }
    assert(d.subrange(0, d.len() as int) =~= d);
    Some(acc as u32)
}

/// The team id named by a listing reference: the last path segment before
/// the query string, read as an unsigned decimal number. References of any
/// other shape give no id.
pub fn team_id_from_ref(url: &str) -> (r: Option<u32>)
    ensures
        r == ref_team_id(url@),
{
    let b = url.as_bytes();
    let n = b.len();
    let mut i: usize = n;
    while i > 0 && b[i - 1] != SLASH
        invariant
            i <= n == b@.len(),
            forall|k: int| i <= k < n ==> b@[k] != SLASH,
        decreases i,
    {
        i = i - 1;
    }
    if i == 0 {
        assert(!exists|k: int| is_last_of(b@, SLASH, k));
        return None;
    }
    let slash = i - 1;
    assert(is_last_of(b@, SLASH, slash as int));
    assert forall|k: int| is_last_of(b@, SLASH, k) implies k == slash by {
        if k < slash {
            assert(b@[slash as int] == SLASH);
        }
    }
    let ghost tail = b@.subrange(slash + 1, n as int);
    let mut j: usize = slash + 1;
    while j < n && b[j] != QUESTION_MARK
        invariant
            slash + 1 <= j <= n == b@.len(),
            tail == b@.subrange(slash + 1, n as int),
            forall|k: int| slash + 1 <= k < j ==> b@[k] != QUESTION_MARK,
        decreases n - j,
    {
        j = j + 1;
    }
    if j == n {
        assert forall|k: int| !is_first_of(tail, QUESTION_MARK, k) by {
            if 0 <= k < tail.len() {
                assert(tail[k] == b@[slash + 1 + k]);
            }
        }
        return None;
    }
    let q = j - (slash + 1);
    assert(is_first_of(tail, QUESTION_MARK, q as int));
    assert forall|k: int| is_first_of(tail, QUESTION_MARK, k) implies k == q by {
        if k < q {
            assert(tail[q as int] == QUESTION_MARK);
        }
    }
    assert(tail.subrange(0, q as int) =~= b@.subrange(slash + 1, j as int));
    assert(b@ == encode_utf8(url@));
    proof {
        let ci = choose|i: int| is_last_of(b@, SLASH, i);
        assert(ci == slash);
        assert(tail == b@.subrange(ci + 1, b@.len() as int));
        let cj = choose|j: int| is_first_of(tail, QUESTION_MARK, j);
        assert(cj == q);
    }
    assert(id_segment(b@) == Some(b@.subrange(slash + 1, j as int)));
    parse_decimal_u32(b, slash + 1, j)
}

/// The ids of the well-formed references among `refs`, in order.
pub open spec fn ids_of_refs(refs: Seq<String>) -> Seq<u32>
    decreases refs.len(),
{
    if refs.len() == 0 {
        Seq::empty()
    } else {
        let rest = ids_of_refs(refs.drop_last());
        match ref_team_id(refs.last()@) {
            Some(id) => rest.push(id),
            None => rest,
        }
    }
}

/// The team ids on one page of the listing; malformed references are dropped.
pub fn page_team_ids(refs: &Vec<String>) -> (r: Vec<u32>)
    ensures
        r@ == ids_of_refs(refs@),
{
    let mut ids: Vec<u32> = Vec::new();
    let mut i: usize = 0;
    while i < refs.len()
        invariant
            i <= refs@.len(),
            ids@ == ids_of_refs(refs@.subrange(0, i as int)),
        decreases refs@.len() - i,
    {
        let ghost prefix = refs@.subrange(0, i + 1);
        assert(prefix.drop_last() =~= refs@.subrange(0, i as int));
        if let Some(id) = team_id_from_ref(refs[i].as_str()) {
            ids.push(id);
        }
        i = i + 1;
    }
    assert(refs@.subrange(0, refs@.len() as int) =~= refs@);
    ids
}

/// One page of the team listing, as the provider reports it.
pub struct Page {
    pub page_index: u64,
    pub page_count: u64,
    pub refs: Vec<String>,
}

/// The page that reports itself as the last one (one-based, inclusive).
pub open spec fn is_final_page(p: Page) -> bool {
    p.page_index == p.page_count
}

/// The ids that a walk over `pages` collects, when the walk reaches a page that
/// reports itself as the last; none when it never does.
pub open spec fn walk(pages: Seq<Page>) -> Option<Seq<u32>>
    decreases pages.len(),
{
    if pages.len() == 0 {
        None
    } else if is_final_page(pages[0]) {
        Some(ids_of_refs(pages[0].refs@))
    } else {
        match walk(pages.drop_first()) {
            Some(rest) => Some(ids_of_refs(pages[0].refs@) + rest),
            None => None,
        }
    }
}

/// The ids of every page of `pages`, in order.
pub open spec fn ids_of_pages(pages: Seq<Page>) -> Seq<u32>
    decreases pages.len(),
{
    if pages.len() == 0 {
        Seq::empty()
    } else {
        ids_of_refs(pages[0].refs@) + ids_of_pages(pages.drop_first())
    }
}

/// What a walk over the listing has done so far: the page to request next and
/// the ids collected.
pub struct DiscoveryState {
    pub next_page: nat,
    pub team_ids: Seq<u32>,
}

/// A walk over the paginated team listing. The caller requests the page that
/// `next_page` names and hands the answer to `accept_page`, until that reports
/// the last page.
pub struct Discovery {
    next_page: u64,
    team_ids: Vec<u32>,
}

impl View for Discovery {
    type V = DiscoveryState;

    closed spec fn view(&self) -> DiscoveryState {
        DiscoveryState { next_page: self.next_page as nat, team_ids: self.team_ids@ }
    }
}

impl Discovery {
    /// A walk that has requested nothing: the first page is page 1.
    pub fn new() -> (d: Discovery)
        ensures
            d@.next_page == 1,
            d@.team_ids == Seq::<u32>::empty(),
    {
        Discovery { next_page: 1, team_ids: Vec::new() }
    }

    /// The one-based number of the page to request next.
    pub fn next_page(&self) -> (p: u64)
        ensures
            p as nat == self@.next_page,
    {
        self.next_page
    }

    /// Takes in the answer to the request for `next_page`: its ids are added
    /// and the walk moves on one page. Returns whether the page reports itself
    /// as the last one; an empty page ends nothing.
    pub fn accept_page(&mut self, page: &Page) -> (done: bool)
        requires
            old(self)@.next_page < u64::MAX,
        ensures
            done == is_final_page(*page),
            final(self)@.team_ids == old(self)@.team_ids + ids_of_refs(page.refs@),
            final(self)@.next_page == old(self)@.next_page + 1,
    {
        let mut ids = page_team_ids(&page.refs);
        let ghost before = self.team_ids@;
        self.team_ids.append(&mut ids);
        assert(self.team_ids@ =~= before + ids_of_refs(page.refs@));
        self.next_page = self.next_page + 1;
        page.page_index == page.page_count
    }

    /// Runs a walk over pages already at hand, handing each to `accept_page` in
    /// turn: the ids collected up to the first page that reports itself as
    /// the last, or none when no page does.
    pub fn walk_pages(pages: &Vec<Page>) -> (r: Option<Vec<u32>>)
        requires
            pages@.len() < u64::MAX,
        ensures
            match r {
                Some(ids) => walk(pages@) == Some(ids@),
                None => walk(pages@) is None,
            },
    {
        let mut d = Discovery::new();
        let mut i: usize = 0;
        assert(pages@.subrange(0, pages@.len() as int) =~= pages@);
        assert(d@.team_ids + Seq::<u32>::empty() =~= d@.team_ids);
        proof {
            match walk(pages@) {
                Some(all) => assert(d@.team_ids + all =~= all),
                None => {},
            }
        }
        while i < pages.len()
            invariant
                i <= pages@.len() < u64::MAX,
                d@.next_page == i + 1,
                walk(pages@) == (match walk(pages@.subrange(i as int, pages@.len() as int)) {
                    Some(rest) => Some(d@.team_ids + rest),
                    None => None::<Seq<u32>>,
                }),
            decreases pages@.len() - i,
        {
            let ghost before = d@.team_ids;
            let ghost tail = pages@.subrange(i as int, pages@.len() as int);
            assert(tail.drop_first() =~= pages@.subrange(i + 1, pages@.len() as int));
            assert(tail[0] == pages@[i as int]);
            let done = d.accept_page(&pages[i]);
            if done {
                return Some(d.team_ids);
            }
            proof {
                let head = ids_of_refs(pages@[i as int].refs@);
                match walk(tail.drop_first()) {
                    Some(rest) => {
                        assert(before + (head + rest) =~= (before + head) + rest);
                    },
                    None => {},
                }
            }
            i = i + 1;
        }
        assert(pages@.subrange(i as int, pages@.len() as int).len() == 0);
        None
    }

    /// The ids collected so far, in the order of the pages and of their items.
    pub fn team_ids(&self) -> (r: &Vec<u32>)
        ensures
            r@ == self@.team_ids,
    {
        &self.team_ids
    }
}

proof fn lemma_ids_of_refs_append(a: Seq<String>, b: Seq<String>)
    ensures
        ids_of_refs(a + b) == ids_of_refs(a) + ids_of_refs(b),
    decreases b.len(),
{
    if b.len() == 0 {
        assert(a + b =~= a);
        assert(ids_of_refs(a) + ids_of_refs(b) =~= ids_of_refs(a));
    } else {
        lemma_ids_of_refs_append(a, b.drop_last());
        assert((a + b).drop_last() =~= a + b.drop_last());
        assert((a + b).last() == b.last());
        match ref_team_id(b.last()@) {
            Some(id) => {
                assert(ids_of_refs(a) + ids_of_refs(b) =~= (ids_of_refs(a) + ids_of_refs(
                    b.drop_last(),
                )).push(id));
            },
            None => {},
        }
    }
}

/// A reference that names no team id is dropped, and the references around
/// it give the same ids as they would without it.
pub proof fn malformed_ref_is_dropped(before: Seq<String>, bad: String, after: Seq<String>)
    requires
        ref_team_id(bad@) is None,
    ensures
        ids_of_refs(before.push(bad) + after) == ids_of_refs(before) + ids_of_refs(after),
{
    lemma_ids_of_refs_append(before.push(bad), after);
    assert(before.push(bad).drop_last() =~= before);
}

/// A walk over pages whose indices rise strictly from at least 1 to the page
/// count that every page reports ends at the last of them, after no more pages
/// than that count, with the ids of all the pages.
pub proof fn pagination_terminates(pages: Seq<Page>)
    requires
        pages.len() > 0,
        pages[0].page_index >= 1,
        forall|k: int| 0 <= k < pages.len() - 1 ==> #[trigger] pages[k].page_index < pages[k + 1].page_index,
        forall|k: int| 0 <= k < pages.len() ==> #[trigger] pages[k].page_count == pages.last().page_count,
        is_final_page(pages.last()),
    ensures
        walk(pages) == Some(ids_of_pages(pages)),
        pages.len() <= pages.last().page_count,
    decreases pages.len(),
{
    lemma_index_bound(pages, 0);
    if pages.len() > 1 {
        let rest = pages.drop_first();
        assert(rest.last() == pages.last());
        assert forall|k: int| 0 <= k < rest.len() - 1 implies #[trigger] rest[k].page_index
            < rest[k + 1].page_index by {
            assert(rest[k] == pages[k + 1]);
        }
        assert forall|k: int| 0 <= k < rest.len() implies #[trigger] rest[k].page_count
            == rest.last().page_count by {
            assert(rest[k] == pages[k + 1]);
        }
        pagination_terminates(rest);
        assert(!is_final_page(pages[0]));
    } else {
        assert(ids_of_pages(pages.drop_first()) =~= Seq::<u32>::empty());
        assert(ids_of_pages(pages) =~= ids_of_refs(pages[0].refs@));
    }
}

proof fn lemma_index_bound(pages: Seq<Page>, k: int)
    requires
        0 <= k < pages.len(),
        forall|j: int| 0 <= j < pages.len() - 1 ==> #[trigger] pages[j].page_index < pages[j + 1].page_index,
    ensures
        pages[k].page_index + (pages.len() - 1 - k) <= pages.last().page_index,
    decreases pages.len() - k,
{
    if k < pages.len() - 1 {
        lemma_index_bound(pages, k + 1);
    }
}

} // verus!
