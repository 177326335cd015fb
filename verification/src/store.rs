use vstd::prelude::*;

use crate::catalog::{
    checked_rows, page_of, row_item, rows_sorted, spec_listing_post, Catalog, CatalogModel, Item,
    ItemModel, Row, RowModel,
};
use crate::dedup::spec_dedup_items;
use crate::jobs::{JobLedger, JobState};
use crate::tags::{has_memb, name_resolves, TagGraph, TagGraphModel};
use crate::StoreError;

verus! {

/// The query parameters of an item search request.
pub struct SearchQuery {
    pub page: Option<i64>,
    pub count: Option<i64>,
    pub search: Option<String>,
    pub tag_only: Option<bool>,
    pub id: Option<i64>,
}

/// The page window a query asks for: pages are one-based, the page size
/// defaults to the configured value, and the offset is their product
/// (clipped at the numeric limit).
pub fn page_window(page: Option<i64>, count: Option<i64>, per_page: u32) -> (r: (i64, i64))
    ensures
        ({
            let p = (match page {
                Some(p) => if p < 1 {
                    1int
                } else {
                    p as int
                },
                None => 1int,
            }) - 1;
            let l = match count {
                Some(c) => if c < 0 {
                    0int
                } else {
                    c as int
                },
                None => per_page as int,
            };
            &&& r.0 == l
            &&& r.1 == if p * l <= i64::MAX {
                p * l
            } else {
                i64::MAX as int
            }
            &&& r.0 >= 0
            &&& r.1 >= 0
        }),
{
    let p: i64 = match page {
        Some(p) => if p < 1 {
            1
        } else {
            p
        },
        None => 1,
    } - 1;
    let limit: i64 = match count {
        Some(c) => if c < 0 {
            0
        } else {
            c
        },
        None => per_page as i64,
    };
    let offset: i64 = match p.checked_mul(limit) {
        Some(o) => o,
        None => i64::MAX,
    };
    proof {
        assert(p >= 0 && limit >= 0);
        if p * limit > i64::MAX {
            assert(offset == i64::MAX);
        }
    }
    (limit, offset)
}

/// A record matches a name search: it is seen and the query occurs
/// case-insensitively in its display name or its canonical model name.
pub open spec fn name_matches(r: RowModel, q: Seq<char>) -> bool {
    r.is_checked && ((match r.name {
        Some(n) => crate::text::contains_seq(
            crate::text::lower_seq(n),
            crate::text::lower_seq(q),
        ),
        None => false,
    }) || crate::text::contains_seq(
        crate::text::lower_seq(r.model_name),
        crate::text::lower_seq(q),
    ))
}

/// A record matches a tag search: it is seen and for every token some tag
/// of that exact name is attached to it.
pub open spec fn tag_matches(g: TagGraphModel, r: RowModel, toks: Seq<Seq<char>>) -> bool {
    r.is_checked && forall|k: int|
        0 <= k < toks.len() ==> crate::tags::token_on_item(g, r.id as i64, #[trigger] toks[k])
}

/// What a search guarantees.  Two result sets are computed: a
/// case-insensitive substring match on names (skipped when `tag_only`), and
/// an exact match of every whitespace token against the attached tag names
/// (skipped when the query has no tokens).  Each set is paged in listing
/// order; the pages are concatenated and deduplicated by item id, keeping
/// first appearances.  The total is the sum of both full counts, so a
/// record matching both ways is counted twice even though it appears once.
pub open spec fn spec_search_post(
    m: CatalogModel,
    g: TagGraphModel,
    q: Seq<char>,
    limit: int,
    offset: int,
    tag_only: bool,
    items: Seq<ItemModel>,
    total: int,
) -> bool {
    let toks = crate::text::split_ws_spec(q);
    let b1 = if tag_only {
        Seq::<RowModel>::empty()
    } else {
        m.rows.filter(|r: RowModel| name_matches(r, q))
    };
    let b2 = if toks.len() > 0 {
        m.rows.filter(|r: RowModel| tag_matches(g, r, toks))
    } else {
        Seq::<RowModel>::empty()
    };
    &&& total == if b1.len() + b2.len() <= i64::MAX {
        b1.len() + b2.len() as int
    } else {
        i64::MAX as int
    }
    &&& exists|s1: Seq<RowModel>, s2: Seq<RowModel>|
        #![trigger page_of(s1, limit, offset), page_of(s2, limit, offset)]
        rows_sorted(s1) && rows_sorted(s2) && s1.to_multiset() == b1.to_multiset()
            && s2.to_multiset() == b2.to_multiset() && items == spec_dedup_items(
            page_of(s1, limit, offset).map_values(|rm: RowModel| row_item(rm)) + page_of(
                s2,
                limit,
                offset,
            ).map_values(|rm: RowModel| row_item(rm)),
        )
}

fn row_name_matches(r: &Row, q: &str) -> (b: bool)
    ensures
        b == name_matches(r@, q@),
{
    if !r.is_checked {
        return false;
    }
    let by_name = match &r.name {
        Some(n) => crate::text::contains_ci(n.as_str(), q),
        None => false,
    };
    by_name || crate::text::contains_ci(r.model_name.as_str(), q)
}

fn row_tag_matches(g: &TagGraph, r: &Row, toks: &Vec<String>) -> (b: bool)
    requires
        g.wf(),
    ensures
        b == tag_matches(g@, r@, toks.deep_view()),
{
    if !r.is_checked {
        return false;
    }
    let n = toks.len();
    let mut k: usize = 0;
    while k < n
        invariant
            k <= n,
            g.wf(),
            n == toks.deep_view().len(),
            r@.is_checked,
            forall|j: int|
                0 <= j < k ==> crate::tags::token_on_item(
                    g@,
                    r@.id as i64,
                    #[trigger] toks.deep_view()[j],
                ),
        decreases n - k,
    {
        let on = g.has_tag_on_item(r.id, toks[k].as_str());
        proof {
            assert(toks.deep_view()[k as int] == toks@[k as int]@);
            assert(r@.id as i64 == r.id);
        }
        if !on {
            proof {
                assert(!crate::tags::token_on_item(g@, r@.id as i64, toks.deep_view()[k as int]));
                assert(!tag_matches(g@, r@, toks.deep_view()));
            }
            return false;
        }
        k = k + 1;
    }
    proof {
        assert(tag_matches(g@, r@, toks.deep_view()));
    }
    true
}

/// The verified core of the whole system: the catalog of model files, the
/// tag graph over them, and the ledger of background jobs.
pub struct Library {
    pub catalog: Catalog,
    pub tags: TagGraph,
    pub jobs: JobLedger,
}

impl Library {
    /// All three stores keep their invariants.
    pub open spec fn wf(&self) -> bool {
        self.catalog.wf() && self.tags.wf() && self.jobs.wf()
    }

    /// An empty library.
    pub fn new() -> (r: Library)
        ensures
            r.wf(),
            r.catalog@.rows == Seq::<RowModel>::empty(),
            r.tags@.memberships == Seq::<(i64, i64)>::empty(),
    {
        Library { catalog: Catalog::new(), tags: TagGraph::new(), jobs: JobLedger::new() }
    }

    fn collect_matching_names(&self, q: &str) -> (r: Vec<Row>)
        ensures
            r@.map_values(|x: Row| x@) == self.catalog@.rows.filter(
                |rm: RowModel| name_matches(rm, q@),
            ),
    {
        let rows = self.catalog.row_vec();
        let n = rows.len();
        let mut out: Vec<Row> = Vec::new();
        let mut i: usize = 0;
        proof {
            assert(self.catalog@.rows.take(0).filter(|rm: RowModel| name_matches(rm, q@)) =~= Seq::<
                RowModel,
            >::empty()) by {
                reveal(Seq::filter);
            }
            assert(out@.map_values(|x: Row| x@) =~= Seq::<RowModel>::empty());
        }
        while i < n
            invariant
                i <= n,
                n == self.catalog@.rows.len(),
                rows@.map_values(|x: Row| x@) == self.catalog@.rows,
                out@.map_values(|x: Row| x@) == self.catalog@.rows.take(i as int).filter(
                    |rm: RowModel| name_matches(rm, q@),
                ),
            decreases n - i,
        {
            let ghost om = out@.map_values(|x: Row| x@);
            if row_name_matches(&rows[i], q) {
                out.push(crate::catalog::clone_row(&rows[i]));
                proof {
                    assert(out@.map_values(|x: Row| x@) =~= om.push(self.catalog@.rows[i as int]));
                }
            }
            proof {
                assert(self.catalog@.rows.take(i + 1 as int).drop_last()
                    =~= self.catalog@.rows.take(i as int));
                assert(self.catalog@.rows.take(i + 1 as int).last()
                    == self.catalog@.rows[i as int]);
                reveal(Seq::filter);
            }
            i = i + 1;
        }
        proof {
            assert(self.catalog@.rows.take(n as int) =~= self.catalog@.rows);
        }
        out
    }

    fn collect_matching_tags(&self, toks: &Vec<String>) -> (r: Vec<Row>)
        requires
            self.tags.wf(),
        ensures
            r@.map_values(|x: Row| x@) == self.catalog@.rows.filter(
                |rm: RowModel| tag_matches(self.tags@, rm, toks.deep_view()),
            ),
    {
        let rows = self.catalog.row_vec();
        let n = rows.len();
        let mut out: Vec<Row> = Vec::new();
        let mut i: usize = 0;
        proof {
            assert(self.catalog@.rows.take(0).filter(
                |rm: RowModel| tag_matches(self.tags@, rm, toks.deep_view()),
            ) =~= Seq::<RowModel>::empty()) by {
                reveal(Seq::filter);
            }
            assert(out@.map_values(|x: Row| x@) =~= Seq::<RowModel>::empty());
        }
        while i < n
            invariant
                i <= n,
                self.tags.wf(),
                n == self.catalog@.rows.len(),
                rows@.map_values(|x: Row| x@) == self.catalog@.rows,
                out@.map_values(|x: Row| x@) == self.catalog@.rows.take(i as int).filter(
                    |rm: RowModel| tag_matches(self.tags@, rm, toks.deep_view()),
                ),
            decreases n - i,
        {
            let ghost om = out@.map_values(|x: Row| x@);
            if row_tag_matches(&self.tags, &rows[i], toks) {
                out.push(crate::catalog::clone_row(&rows[i]));
                proof {
                    assert(out@.map_values(|x: Row| x@) =~= om.push(self.catalog@.rows[i as int]));
                }
            }
            proof {
                assert(self.catalog@.rows.take(i + 1 as int).drop_last()
                    =~= self.catalog@.rows.take(i as int));
                assert(self.catalog@.rows.take(i + 1 as int).last()
                    == self.catalog@.rows[i as int]);
                reveal(Seq::filter);
            }
            i = i + 1;
        }
        proof {
            assert(self.catalog@.rows.take(n as int) =~= self.catalog@.rows);
        }
        out
    }

    /// The combined name/tag search.  See `spec_search_post` for the exact
    /// guarantee: a union of the two paged result sets, deduplicated by id
    /// in first-seen order, with a total that sums both counts (and so may
    /// count a record twice).
    #[verifier::rlimit(50)]
    pub fn search(&self, query: &str, limit: i64, offset: i64, tag_only: bool) -> (r: (
        Vec<Item>,
        i64,
    ))
        requires
            self.wf(),
            limit >= 0,
            offset >= 0,
        ensures
            spec_search_post(
                self.catalog@,
                self.tags@,
                query@,
                limit as int,
                offset as int,
                tag_only,
                r.0@.map_values(|it: Item| it@),
                r.1 as int,
            ),
    {
        let toks = crate::text::split_ws(query);
        let mut c1: usize = 0;
        let mut page1: Vec<Item> = Vec::new();
        let ghost mut s1: Seq<RowModel> = Seq::empty();
        if !tag_only {
            let matched = self.collect_matching_names(query);
            c1 = matched.len();
            let sorted = crate::catalog::sort_rows(&matched);
            proof {
                s1 = sorted@.map_values(|x: Row| x@);
            }
            page1 = crate::catalog::page_items(&sorted, limit, offset);
        }
        let mut c2: usize = 0;
        let mut page2: Vec<Item> = Vec::new();
        let ghost mut s2: Seq<RowModel> = Seq::empty();
        if toks.len() > 0 {
            let matched = self.collect_matching_tags(&toks);
            c2 = matched.len();
            let sorted = crate::catalog::sort_rows(&matched);
            proof {
                s2 = sorted@.map_values(|x: Row| x@);
            }
            page2 = crate::catalog::page_items(&sorted, limit, offset);
        }
        let ghost p1 = page1@.map_values(|it: Item| it@);
        let ghost p2 = page2@.map_values(|it: Item| it@);
        let mut combined = page1;
        combined.append(&mut page2);
        proof {
            assert(combined@.map_values(|it: Item| it@) =~= p1 + p2);
        }
        let items = crate::dedup::dedup_items_by_id(&combined);
        let total: i64 = if (c1 as u128) + (c2 as u128) <= i64::MAX as u128 {
            (c1 as u128 + c2 as u128) as i64
        } else {
            i64::MAX
        };
        proof {
            let q = query@;
            let toks_v = crate::text::split_ws_spec(q);
            assert(toks.deep_view() == toks_v);
            let b1 = if tag_only {
                Seq::<RowModel>::empty()
            } else {
                self.catalog@.rows.filter(|rm: RowModel| name_matches(rm, q))
            };
            let b2 = if toks_v.len() > 0 {
                self.catalog@.rows.filter(|rm: RowModel| tag_matches(self.tags@, rm, toks_v))
            } else {
                Seq::<RowModel>::empty()
            };
            if tag_only {
                assert(s1.to_multiset() =~= b1.to_multiset());
                assert(page_of(s1, limit as int, offset as int) =~= Seq::<RowModel>::empty());
                assert(p1 =~= page_of(s1, limit as int, offset as int).map_values(
                    |rm: RowModel| row_item(rm),
                ));
            }
            if toks_v.len() == 0 {
                assert(s2.to_multiset() =~= b2.to_multiset());
                assert(page_of(s2, limit as int, offset as int) =~= Seq::<RowModel>::empty());
                assert(p2 =~= page_of(s2, limit as int, offset as int).map_values(
                    |rm: RowModel| row_item(rm),
                ));
            }
            assert(c1 == b1.len() && c2 == b2.len());
            assert(rows_sorted(s1) && rows_sorted(s2) && s1.to_multiset() == b1.to_multiset()
                && s2.to_multiset() == b2.to_multiset() && items@.map_values(|it: Item| it@)
                == spec_dedup_items(
                page_of(s1, limit as int, offset as int).map_values(|rm: RowModel| row_item(rm))
                    + page_of(s2, limit as int, offset as int).map_values(
                    |rm: RowModel| row_item(rm),
                ),
            ));
        }
        (items, total)
    }
}

} // verus!

verus! {

/// An item with this id is present and seen.
pub open spec fn item_checked(m: CatalogModel, item: i64) -> bool {
    exists|j: int|
        0 <= j < m.rows.len() && (#[trigger] m.rows[j]).id == item && m.rows[j].is_checked
}

/// A membership pair counts for tag `t`: it carries `t`, its item is seen,
/// and the item passes the (possibly empty) id filter.
pub open spec fn pair_counts(
    m: CatalogModel,
    filter: Seq<i64>,
    t: i64,
    p: (i64, i64),
) -> bool {
    p.1 == t && item_checked(m, p.0) && (filter.len() == 0 || filter.contains(p.0))
}

/// How many seen (and filtered) items carry tag `t`.
pub open spec fn spec_tag_count(
    m: CatalogModel,
    g: TagGraphModel,
    filter: Seq<i64>,
    t: i64,
) -> int {
    g.memberships.filter(|p: (i64, i64)| pair_counts(m, filter, t, p)).len() as int
}

fn contains_i64(v: &Vec<i64>, x: i64) -> (r: bool)
    ensures
        r == v@.contains(x),
{
    let n = v.len();
    let mut i: usize = 0;
    while i < n
        invariant
            i <= n,
            n == v@.len(),
            forall|k: int| 0 <= k < i ==> v@[k] != x,
        decreases n - i,
    {
        if v[i] == x {
            return true;
        }
        i = i + 1;
    }
    false
}

/// A count clipped at the largest representable value.
pub open spec fn clip_count(c: int) -> int {
    if c <= i64::MAX {
        c
    } else {
        i64::MAX as int
    }
}

/// The entry names a stored tag and carries that tag's exact (clipped)
/// positive count.
pub open spec fn entry_names_tag(
    m: CatalogModel,
    g: TagGraphModel,
    filter: Seq<i64>,
    entry: (Seq<char>, int),
) -> bool {
    exists|ti: int|
        0 <= ti < g.tags.len() && (#[trigger] g.tags[ti]).name == entry.0 && entry.1
            == clip_count(spec_tag_count(m, g, filter, g.tags[ti].id)) && entry.1 > 0
}

/// What the tag-count listing guarantees: entries in descending count
/// order; each entry names a stored tag and carries that tag's exact
/// (clipped) positive count; every tag some seen (and filtered) item
/// carries has an entry; and no tag name appears twice.
pub open spec fn spec_tag_counts_post(
    m: CatalogModel,
    g: TagGraphModel,
    filter: Seq<i64>,
    out: Seq<(Seq<char>, int)>,
) -> bool {
    &&& forall|a: int, b: int| 0 <= a < b < out.len() ==> (#[trigger] out[a]).1 >= (#[trigger] out[b]).1
    &&& forall|e: int| 0 <= e < out.len() ==> entry_names_tag(m, g, filter, #[trigger] out[e])
    &&& forall|ti: int|
        0 <= ti < g.tags.len() && spec_tag_count(m, g, filter, (#[trigger] g.tags[ti]).id) > 0
            ==> exists|e: int| 0 <= e < out.len() && (#[trigger] out[e]).0 == g.tags[ti].name
    &&& forall|a: int, b: int| 0 <= a < b < out.len() ==> (#[trigger] out[a]).0 != (#[trigger] out[b]).0
}

impl Library {
    fn item_checked_exec(&self, item: i64) -> (r: bool)
        ensures
            r == item_checked(self.catalog@, item),
    {
        let rows = self.catalog.row_vec();
        let n = rows.len();
        let mut i: usize = 0;
        while i < n
            invariant
                i <= n,
                n == self.catalog@.rows.len(),
                rows@.map_values(|x: Row| x@) == self.catalog@.rows,
                forall|k: int|
                    0 <= k < i ==> !((#[trigger] self.catalog@.rows[k]).id == item
                        && self.catalog@.rows[k].is_checked),
            decreases n - i,
        {
            if rows[i].id == item && rows[i].is_checked {
                proof {
                    assert(self.catalog@.rows[i as int].id == item
                        && self.catalog@.rows[i as int].is_checked);
                }
                return true;
            }
            i = i + 1;
        }
        false
    }

    /// How many seen items (restricted to the id filter unless it is
    /// empty) carry the tag `t`, clipped at the numeric limit.
    pub fn count_tag(&self, filter: &Vec<i64>, t: i64) -> (r: i64)
        ensures
            r == clip_count(spec_tag_count(self.catalog@, self.tags@, filter@, t)),
    {
        let pairs = self.tags.membership_pairs();
        let n = pairs.len();
        let mut cnt: usize = 0;
        let mut i: usize = 0;
        proof {
            assert(self.tags@.memberships.take(0).filter(
                |p: (i64, i64)| pair_counts(self.catalog@, filter@, t, p),
            ) =~= Seq::<(i64, i64)>::empty()) by {
                reveal(Seq::filter);
            }
        }
        while i < n
            invariant
                i <= n,
                n == self.tags@.memberships.len(),
                pairs@ == self.tags@.memberships,
                cnt == self.tags@.memberships.take(i as int).filter(
                    |p: (i64, i64)| pair_counts(self.catalog@, filter@, t, p),
                ).len(),
                cnt <= i,
            decreases n - i,
        {
            let p = pairs[i];
            let counts = p.1 == t && self.item_checked_exec(p.0) && (filter.len() == 0
                || contains_i64(filter, p.0));
            if counts {
                cnt = cnt + 1;
            }
            proof {
                assert(self.tags@.memberships.take(i + 1 as int).drop_last()
                    =~= self.tags@.memberships.take(i as int));
                assert(self.tags@.memberships.take(i + 1 as int).last()
                    == self.tags@.memberships[i as int]);
                assert(counts == pair_counts(
                    self.catalog@,
                    filter@,
                    t,
                    self.tags@.memberships[i as int],
                ));
                reveal(Seq::filter);
            }
            i = i + 1;
        }
        proof {
            assert(self.tags@.memberships.take(n as int) =~= self.tags@.memberships);
        }
        if cnt as u64 <= i64::MAX as u64 {
            cnt as i64
        } else {
            i64::MAX
        }
    }

    /// The stored tags with the number of seen (and filtered) items
    /// carrying each, ordered by descending count; tags nothing carries are
    /// left out.  See `spec_tag_counts_post`: one entry per carried tag,
    /// with its exact (clipped) count, and no tag twice.
    #[verifier::rlimit(100)]
    #[verifier::spinoff_prover]
    pub fn list_tags(&self, filter: &Vec<i64>) -> (r: Vec<crate::tags::TagCount>)
        requires
            self.wf(),
        ensures
            spec_tag_counts_post(
                self.catalog@,
                self.tags@,
                filter@,
                r@.map_values(|tc: crate::tags::TagCount| (tc.tag@, tc.count as int)),
            ),
    {
        let tag_rows = self.tags.tag_rows();
        let n = tag_rows.len();
        let mut out: Vec<crate::tags::TagCount> = Vec::new();
        let ghost mut src_tag: Seq<int> = Seq::empty();
        let ghost mut entry_for: Seq<int> = Seq::empty();
        let mut i: usize = 0;
        while i < n
            invariant
                i <= n,
                self.wf(),
                n == self.tags@.tags.len(),
                tag_rows@.map_values(|x: crate::tags::TagRow| x@) == self.tags@.tags,
                src_tag.len() == out@.len(),
                entry_for.len() == i,
                ({
                    let om = out@.map_values(
                        |tc: crate::tags::TagCount| (tc.tag@, tc.count as int),
                    );
                    &&& forall|a: int, b: int|
                        0 <= a < b < om.len() ==> (#[trigger] om[a]).1 >= (#[trigger] om[b]).1
                    &&& forall|e: int|
                        0 <= e < om.len() ==> 0 <= #[trigger] src_tag[e] < i
                            && self.tags@.tags[src_tag[e]].name == om[e].0 && om[e].1
                            == clip_count(
                            spec_tag_count(
                                self.catalog@,
                                self.tags@,
                                filter@,
                                self.tags@.tags[src_tag[e]].id,
                            ),
                        ) && om[e].1 > 0
                    &&& forall|a: int, b: int|
                        0 <= a < b < om.len() ==> #[trigger] src_tag[a] != #[trigger] src_tag[b]
                    &&& forall|ti: int|
                        0 <= ti < i && clip_count(
                            spec_tag_count(
                                self.catalog@,
                                self.tags@,
                                filter@,
                                (#[trigger] self.tags@.tags[ti]).id,
                            ),
                        ) > 0 ==> 0 <= entry_for[ti] < om.len() && om[entry_for[ti]].0
                            == self.tags@.tags[ti].name
                }),
            decreases n - i,
        {
            let ghost om0 = out@.map_values(|tc: crate::tags::TagCount| (tc.tag@, tc.count as int));
            let ghost src0 = src_tag;
            let cnt = self.count_tag(filter, tag_rows[i].id);
            proof {
                assert(tag_rows@[i as int]@ == self.tags@.tags[i as int]);
            }
            if cnt > 0 {
                let name = tag_rows[i].name.clone();
                let m = out.len();
                let mut pos: usize = 0;
                while pos < m && out[pos].count >= cnt
                    invariant
                        pos <= m,
                        m == out@.len(),
                        om0 == out@.map_values(
                            |tc: crate::tags::TagCount| (tc.tag@, tc.count as int),
                        ),
                        forall|k: int| 0 <= k < pos ==> (#[trigger] om0[k]).1 >= cnt,
                    decreases m - pos,
                {
                    proof {
                        assert(om0[pos as int].1 == out@[pos as int].count as int);
                    }
                    pos = pos + 1;
                }
                proof {
                    if pos < m {
                        assert(om0[pos as int].1 == out@[pos as int].count as int);
                        assert(om0[pos as int].1 < cnt);
                    }
                }
                out.insert(pos, crate::tags::TagCount { tag: name, count: cnt });
                proof {
                    let om = out@.map_values(
                        |tc: crate::tags::TagCount| (tc.tag@, tc.count as int),
                    );
                    let entry = (self.tags@.tags[i as int].name, cnt as int);
                    assert(om =~= om0.insert(pos as int, entry));
                    om0.insert_ensures(pos as int, entry);
                    src_tag = src0.insert(pos as int, i as int);
                    src0.insert_ensures(pos as int, i as int);
                    let ef0 = entry_for;
                    entry_for = entry_for.map_values(
                        |e: int|
                            if e >= pos {
                                e + 1
                            } else {
                                e
                            },
                    ).push(pos as int);
                    assert forall|a: int, b: int| 0 <= a < b < om.len() implies (
                    #[trigger] om[a]).1 >= (#[trigger] om[b]).1 by {
                        if a < pos {
                            assert(om[a] == om0[a]);
                        } else if a > pos {
                            assert(om[a] == om0[a - 1]);
                        }
                        if b < pos {
                            assert(om[b] == om0[b]);
                        } else if b == pos {
                            assert(om[a] == om0[a] && om0[a].1 >= cnt);
                        } else {
                            assert(om[b] == om0[b - 1]);
                            if a == pos && b - 1 > pos {
                                assert(om0[pos as int].1 >= om0[b - 1].1);
                            }
                        }
                    }
                    assert forall|e: int| 0 <= e < om.len() implies 0 <= #[trigger] src_tag[e]
                        < i + 1 && self.tags@.tags[src_tag[e]].name == om[e].0 && om[e].1
                        == clip_count(
                        spec_tag_count(
                            self.catalog@,
                            self.tags@,
                            filter@,
                            self.tags@.tags[src_tag[e]].id,
                        ),
                    ) && om[e].1 > 0 by {
                        if e < pos {
                            assert(om[e] == om0[e] && src_tag[e] == src0[e]);
                        } else if e == pos {
                            assert(om[e] == entry && src_tag[e] == i as int);
                        } else {
                            assert(om[e] == om0[e - 1] && src_tag[e] == src0[e - 1]);
                        }
                    }
                    assert forall|a: int, b: int| 0 <= a < b < om.len() implies #[trigger] src_tag[a]
                        != #[trigger] src_tag[b] by {
                        if a < pos {
                            assert(src_tag[a] == src0[a]);
                        } else if a == pos {
                            assert(src_tag[a] == i as int);
                        } else {
                            assert(src_tag[a] == src0[a - 1]);
                        }
                        if b < pos {
                            assert(src_tag[b] == src0[b]);
                        } else if b == pos {
                            assert(src_tag[b] == i as int);
                            assert(src0[a] < i);
                        } else {
                            assert(src_tag[b] == src0[b - 1]);
                        }
                        if a == pos && b > pos {
                            assert(src0[b - 1] < i);
                        }
                    }
                    assert forall|ti: int|
                        0 <= ti < i + 1 && clip_count(
                            spec_tag_count(
                                self.catalog@,
                                self.tags@,
                                filter@,
                                (#[trigger] self.tags@.tags[ti]).id,
                            ),
                        ) > 0 implies 0 <= entry_for[ti] < om.len() && om[entry_for[ti]].0
                        == self.tags@.tags[ti].name by {
                        if ti < i {
                            let e = ef0[ti];
                            assert(entry_for[ti] == if e >= pos {
                                e + 1
                            } else {
                                e
                            });
                            if e >= pos {
                                assert(om[e + 1] == om0[e]);
                            } else {
                                assert(om[e] == om0[e]);
                            }
                        } else {
                            assert(entry_for[ti] == pos as int);
                            assert(om[pos as int] == entry);
                        }
                    }
                }
            } else {
                proof {
                    entry_for = entry_for.push(-1);
                    let om = out@.map_values(
                        |tc: crate::tags::TagCount| (tc.tag@, tc.count as int),
                    );
                    assert(om == om0);
                    assert forall|ti: int|
                        0 <= ti < i + 1 && clip_count(
                            spec_tag_count(
                                self.catalog@,
                                self.tags@,
                                filter@,
                                (#[trigger] self.tags@.tags[ti]).id,
                            ),
                        ) > 0 implies 0 <= entry_for[ti] < om.len() && om[entry_for[ti]].0
                        == self.tags@.tags[ti].name by {
                        if ti < i {
                            assert(entry_for[ti] == entry_for.drop_last()[ti]);
                        } else {
                            assert(clip_count(
                                spec_tag_count(
                                    self.catalog@,
                                    self.tags@,
                                    filter@,
                                    self.tags@.tags[ti].id,
                                ),
                            ) <= 0);
                        }
                    }
                }
            }
            i = i + 1;
        }
        proof {
            let om = out@.map_values(|tc: crate::tags::TagCount| (tc.tag@, tc.count as int));
            assert forall|e: int| 0 <= e < om.len() implies entry_names_tag(
                self.catalog@,
                self.tags@,
                filter@,
                #[trigger] om[e],
            ) by {
                let ti = src_tag[e];
                assert(0 <= ti < self.tags@.tags.len() && self.tags@.tags[ti].name == om[e].0
                    && om[e].1 == clip_count(
                    spec_tag_count(self.catalog@, self.tags@, filter@, self.tags@.tags[ti].id),
                ) && om[e].1 > 0);
            }
            assert forall|ti: int|
                0 <= ti < self.tags@.tags.len() && spec_tag_count(
                    self.catalog@,
                    self.tags@,
                    filter@,
                    (#[trigger] self.tags@.tags[ti]).id,
                ) > 0 implies exists|e: int|
                0 <= e < om.len() && (#[trigger] om[e]).0 == self.tags@.tags[ti].name by {
                assert(clip_count(
                    spec_tag_count(self.catalog@, self.tags@, filter@, self.tags@.tags[ti].id),
                ) > 0);
                let e = entry_for[ti];
                assert(0 <= e < om.len() && om[e].0 == self.tags@.tags[ti].name);
            }
            assert forall|a: int, b: int| 0 <= a < b < om.len() implies (#[trigger] om[a]).0 != (
            #[trigger] om[b]).0 by {
                assert(self.tags@.tags[src_tag[a]].name == om[a].0);
                assert(self.tags@.tags[src_tag[b]].name == om[b].0);
                assert(src_tag[a] != src_tag[b]);
            }
            assert(spec_tag_counts_post(self.catalog@, self.tags@, filter@, om));
        }
        out
    }
}

} // verus!

verus! {

impl Library {
    /// Opens a scan generation: records a running job for it and flags
    /// every record with a backing path unseen.  Reports the job id; fails
    /// if and only if the job-id space is spent, leaving the ledger as it
    /// was (the catalog is marked either way).
    pub fn scan_begin(&mut self, now: i64) -> (r: Result<i64, StoreError>)
        requires
            old(self).wf(),
        ensures
            final(self).wf(),
            final(self).catalog@ == crate::catalog::spec_mark_all(old(self).catalog@),
            final(self).tags@ == old(self).tags@,
            r is Ok <==> old(self).jobs@.next_id < i64::MAX,
            match r {
                Ok(id) => {
                    &&& id == old(self).jobs@.next_id
                    &&& final(self).jobs@.next_id == old(self).jobs@.next_id + 1
                    &&& final(self).jobs@.jobs == old(self).jobs@.jobs.push(
                        crate::jobs::JobModel {
                            id: id as int,
                            title: "Scan folder"@,
                            desc: ""@,
                            state: JobState::Running.spec_code() as int,
                            started_at: now as int,
                            stopped_at: None,
                        },
                    )
                },
                Err(e) => e == StoreError::CapacityExhausted && final(self).jobs@ == old(
                    self,
                ).jobs@,
            },
    {
        let r = self.jobs.add_job("Scan folder", "", now);
        self.catalog.mark_obsolete_all();
        r
    }

    /// Records one scanned file: the catalog record of `(rel_path, label)`
    /// is created or refreshed with the merged hash, and the derived tag
    /// candidates (with their dependency closure) are attached to it.
    pub fn record_file(
        &mut self,
        file_name: &str,
        rel_path: &str,
        label: &str,
        base_model: &str,
        model: &crate::sidecar::CivitaiModel,
        fm: &crate::sidecar::CivitaiFileMetadata,
        blake3: &str,
        mtime: i64,
    ) -> (r: Result<i64, StoreError>)
        requires
            old(self).wf(),
        ensures
            final(self).wf(),
            final(self).catalog@ == crate::catalog::spec_upsert(
                old(self).catalog@,
                crate::catalog::opt_view(Some(file_name)),
                rel_path@,
                label@,
                blake3@,
                mtime as int,
            ),
            final(self).jobs@ == old(self).jobs@,
            final(self).tags@.edges == old(self).tags@.edges,
            match r {
                Ok(id) => {
                    &&& crate::catalog::spec_upsert_result(old(self).catalog@, rel_path@, label@)
                        == Ok::<int, StoreError>(id as int)
                    &&& crate::tags::spec_ensure_tags_ok(
                        old(self).tags@,
                        crate::sidecar::spec_derive_tags(seq![base_model@], model@, fm@),
                    )
                    &&& forall|t: i64|
                        #[trigger] crate::tags::has_memb(final(self).tags@, id, t) <==> (
                        crate::tags::has_memb(old(self).tags@, id, t)
                            || crate::tags::reachable_names(
                            final(self).tags@,
                            crate::sidecar::spec_derive_tags(seq![base_model@], model@, fm@),
                            t,
                        ))
                    &&& forall|it: i64, t: i64|
                        it != id ==> (#[trigger] crate::tags::has_memb(final(self).tags@, it, t)
                            <==> crate::tags::has_memb(old(self).tags@, it, t))
                },
                Err(e) => {
                    &&& (crate::catalog::spec_upsert_result(old(self).catalog@, rel_path@, label@)
                        is Err || !crate::tags::spec_ensure_tags_ok(
                        old(self).tags@,
                        crate::sidecar::spec_derive_tags(seq![base_model@], model@, fm@),
                    ))
                    &&& final(self).tags@.memberships == old(self).tags@.memberships
                },
            },
    {
        let id = match self.catalog.insert_or_update(
            Some(file_name),
            rel_path,
            label,
            blake3,
            mtime,
        ) {
            Ok(id) => id,
            Err(e) => {
                return Err(e);
            },
        };
        let mut extras: Vec<String> = Vec::new();
        extras.push(base_model.to_owned());
        proof {
            assert(extras.deep_view() =~= seq![base_model@]);
        }
        match self.tags.add_tag_from_model_info(id, &extras, model, fm) {
            Ok(()) => Ok(id),
            Err(e) => Err(e),
        }
    }

    /// Closes a scan generation: sweeps every record still unseen, records
    /// the job's success exactly once (the job of `job_id`, if any, is set
    /// to Succeed with the given stop time), and reports how many records
    /// were removed.
    pub fn scan_finish(&mut self, job_id: i64, now: i64) -> (deleted: u64)
        requires
            old(self).wf(),
        ensures
            final(self).wf(),
            final(self).catalog@ == crate::catalog::spec_sweep(old(self).catalog@),
            final(self).tags@ == old(self).tags@,
            deleted == old(self).catalog@.rows.len() - final(self).catalog@.rows.len(),
            final(self).jobs@.next_id == old(self).jobs@.next_id,
            ({
                let j = crate::jobs::job_idx(old(self).jobs@.jobs, job_id as int);
                final(self).jobs@.jobs == if j >= 0 {
                    old(self).jobs@.jobs.update(
                        j,
                        crate::jobs::JobModel {
                            desc: ""@,
                            state: JobState::Succeed.spec_code() as int,
                            stopped_at: Some(now as int),
                            ..old(self).jobs@.jobs[j]
                        },
                    )
                } else {
                    old(self).jobs@.jobs
                }
            }),
    {
        let deleted = self.catalog.clean();
        let _ = self.jobs.update_job(job_id, "", JobState::Succeed, now);
        deleted
    }

    /// The orphan sweep on its own: removes every record not seen in the
    /// current generation and reports the count.
    pub fn remove_orphans(&mut self) -> (deleted: u64)
        requires
            old(self).wf(),
        ensures
            final(self).wf(),
            final(self).catalog@ == crate::catalog::spec_sweep(old(self).catalog@),
            final(self).tags@ == old(self).tags@,
            final(self).jobs@ == old(self).jobs@,
            deleted == old(self).catalog@.rows.len() - final(self).catalog@.rows.len(),
    {
        self.catalog.clean()
    }

    /// Replaces one item's tag string and note, as the update endpoint
    /// does: the item's memberships become exactly the dependency closure
    /// of the lower-cased whitespace tokens, other items keep theirs, and
    /// the item's catalog note is replaced (when the item exists).  Fails
    /// if and only if a missing tag cannot be created for want of ids; the
    /// old memberships are gone either way.
    pub fn update_item(&mut self, item_id: i64, tags_str: &str, note: &str) -> (r: Result<
        (),
        StoreError,
    >)
        requires
            old(self).wf(),
        ensures
            final(self).wf(),
            final(self).tags@.edges == old(self).tags@.edges,
            final(self).jobs@ == old(self).jobs@,
            forall|it: i64, t: i64|
                it != item_id ==> (#[trigger] crate::tags::has_memb(final(self).tags@, it, t)
                    <==> crate::tags::has_memb(old(self).tags@, it, t)),
            ({
                let j = crate::catalog::idx_of_id(old(self).catalog@.rows, item_id as int);
                &&& final(self).catalog@.next_id == old(self).catalog@.next_id
                &&& final(self).catalog@.rows == if j >= 0 {
                    old(self).catalog@.rows.update(
                        j,
                        crate::catalog::RowModel { note: note@, ..old(self).catalog@.rows[j] },
                    )
                } else {
                    old(self).catalog@.rows
                }
            }),
            r is Ok <==> crate::tags::spec_ensure_tags_ok(
                old(self).tags@,
                crate::tags::lowered_tokens(tags_str@),
            ),
            match r {
                Ok(()) => forall|t: i64|
                    #[trigger] crate::tags::has_memb(final(self).tags@, item_id, t)
                        <==> crate::tags::reachable_names(
                        final(self).tags@,
                        crate::tags::lowered_tokens(tags_str@),
                        t,
                    ),
                Err(e) => e == StoreError::CapacityExhausted && forall|t: i64|
                    !(#[trigger] crate::tags::has_memb(final(self).tags@, item_id, t)),
            },
    {
        let tr = self.tags.update_tag_item(item_id, tags_str);
        let _ = self.catalog.update_item_note(item_id, note);
        tr
    }
}

} // verus!
