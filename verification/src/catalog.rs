use vstd::prelude::*;

use crate::StoreError;

verus! {

/// One catalog record: a model file known under a storage root.
pub struct Row {
    pub id: i64,
    pub name: Option<String>,
    pub model_name: String,
    pub path: String,
    pub base_label: String,
    pub blake3: String,
    pub note: String,
    pub is_checked: bool,
    pub updated_at: i64,
}

/// The mathematical image of a `Row`.
pub struct RowModel {
    pub id: int,
    pub name: Option<Seq<char>>,
    pub model_name: Seq<char>,
    pub path: Seq<char>,
    pub base_label: Seq<char>,
    pub blake3: Seq<char>,
    pub note: Seq<char>,
    pub is_checked: bool,
    pub updated_at: int,
}

impl View for Row {
    type V = RowModel;

    open spec fn view(&self) -> RowModel {
        RowModel {
            id: self.id as int,
            name: match self.name {
                Some(n) => Some(n@),
                None => None,
            },
            model_name: self.model_name@,
            path: self.path@,
            base_label: self.base_label@,
            blake3: self.blake3@,
            note: self.note@,
            is_checked: self.is_checked,
            updated_at: self.updated_at as int,
        }
    }
}

/// The public projection of a catalog record, as queries return it.
pub struct Item {
    pub id: i64,
    pub name: Option<String>,
    pub path: String,
    pub base_label: String,
    pub note: String,
}

/// The mathematical image of an `Item`.
pub struct ItemModel {
    pub id: int,
    pub name: Option<Seq<char>>,
    pub path: Seq<char>,
    pub base_label: Seq<char>,
    pub note: Seq<char>,
}

impl View for Item {
    type V = ItemModel;

    open spec fn view(&self) -> ItemModel {
        ItemModel {
            id: self.id as int,
            name: match self.name {
                Some(n) => Some(n@),
                None => None,
            },
            path: self.path@,
            base_label: self.base_label@,
            note: self.note@,
        }
    }
}

/// The projection a query applies to each record it returns.
pub open spec fn row_item(r: RowModel) -> ItemModel {
    ItemModel { id: r.id, name: r.name, path: r.path, base_label: r.base_label, note: r.note }
}

/// The mathematical image of the whole catalog.
pub struct CatalogModel {
    pub rows: Seq<RowModel>,
    pub next_id: int,
}

/// The catalog of known model files: one record per (path, storage-root label).
pub struct Catalog {
    rows: Vec<Row>,
    next_id: i64,
}

impl View for Catalog {
    type V = CatalogModel;

    closed spec fn view(&self) -> CatalogModel {
        CatalogModel { rows: self.rows@.map_values(|r: Row| r@), next_id: self.next_id as int }
    }
}

/// `r` is the record of `(path, label)`.
pub open spec fn row_at(r: RowModel, path: Seq<char>, label: Seq<char>) -> bool {
    r.path == path && r.base_label == label
}

/// Index of the first record satisfying `p`, or -1 if there is none.
pub open spec fn first_where(rows: Seq<RowModel>, p: spec_fn(RowModel) -> bool) -> int
    decreases rows.len(),
{
    if rows.len() == 0 {
        -1
    } else if p(rows[0]) {
        0
    } else {
        let r = first_where(rows.drop_first(), p);
        if r == -1 {
            -1
        } else {
            r + 1
        }
    }
}

pub proof fn lemma_first_where_found(rows: Seq<RowModel>, p: spec_fn(RowModel) -> bool, i: int)
    requires
        0 <= i < rows.len(),
        p(rows[i]),
        forall|k: int| 0 <= k < i ==> !p(#[trigger] rows[k]),
    ensures
        first_where(rows, p) == i,
    decreases i,
{
    if i > 0 {
        let t = rows.drop_first();
        assert forall|k: int| 0 <= k < i - 1 implies !p(#[trigger] t[k]) by {
            assert(t[k] == rows[k + 1]);
        }
        assert(t[i - 1] == rows[i]);
        lemma_first_where_found(t, p, i - 1);
    }
}

pub proof fn lemma_first_where_absent(rows: Seq<RowModel>, p: spec_fn(RowModel) -> bool)
    requires
        forall|k: int| 0 <= k < rows.len() ==> !p(#[trigger] rows[k]),
    ensures
        first_where(rows, p) == -1,
    decreases rows.len(),
{
    if rows.len() > 0 {
        let t = rows.drop_first();
        assert forall|k: int| 0 <= k < t.len() implies !p(#[trigger] t[k]) by {
            assert(t[k] == rows[k + 1]);
        }
        lemma_first_where_absent(t, p);
    }
}

/// Index of the first record of `(path, label)`, or -1 if there is none.
pub open spec fn idx_of(rows: Seq<RowModel>, path: Seq<char>, label: Seq<char>) -> int {
    first_where(rows, |r: RowModel| row_at(r, path, label))
}

/// Index of the record with `id`, or -1 if there is none.
pub open spec fn idx_of_id(rows: Seq<RowModel>, id: int) -> int {
    first_where(rows, |r: RowModel| r.id == id)
}

/// Everything the catalog keeps invariant: ids are positive, fresh ids are
/// larger than every stored id, ids are distinct, and `(path, base_label)`
/// identifies at most one record.
pub open spec fn catalog_wf(m: CatalogModel) -> bool {
    &&& 1 <= m.next_id
    &&& forall|i: int| 0 <= i < m.rows.len() ==> 1 <= #[trigger] m.rows[i].id < m.next_id
    &&& forall|i: int, j: int|
        0 <= i < j < m.rows.len() ==> #[trigger] m.rows[i].id != #[trigger] m.rows[j].id
    &&& forall|i: int, j: int|
        0 <= i < j < m.rows.len() ==> !(#[trigger] m.rows[i].path == #[trigger] m.rows[j].path
            && m.rows[i].base_label == m.rows[j].base_label)
}

impl Catalog {
    /// The catalog invariant, stated over the view.
    pub open spec fn wf(&self) -> bool {
        catalog_wf(self@)
    }

    /// An empty catalog.
    pub fn new() -> (r: Catalog)
        ensures
            r.wf(),
            r@.rows == Seq::<RowModel>::empty(),
            r@.next_id == 1,
    {
        let r = Catalog { rows: Vec::new(), next_id: 1 };
        proof {
            assert(r@.rows =~= Seq::<RowModel>::empty());
        }
        r
    }

    /// Number of records.
    pub fn len(&self) -> (n: usize)
        ensures
            n == self@.rows.len(),
    {
        self.rows.len()
    }

    fn find_idx(&self, path: &str, label: &str) -> (r: Option<usize>)
        ensures
            match r {
                Some(i) => idx_of(self@.rows, path@, label@) == i && i < self@.rows.len()
                    && row_at(self@.rows[i as int], path@, label@) && forall|k: int|
                    0 <= k < i ==> !row_at(#[trigger] self@.rows[k], path@, label@),
                None => idx_of(self@.rows, path@, label@) == -1 && forall|k: int|
                    0 <= k < self@.rows.len() ==> !row_at(#[trigger] self@.rows[k], path@, label@),
            },
    {
        let n = self.rows.len();
        let mut i: usize = 0;
        while i < n
            invariant
                i <= n,
                n == self@.rows.len(),
                forall|k: int| 0 <= k < i ==> !row_at(self@.rows[k], path@, label@),
            decreases n - i,
        {
            let r = &self.rows[i];
            if crate::text::str_eq(r.path.as_str(), path) && crate::text::str_eq(
                r.base_label.as_str(),
                label,
            ) {
                proof {
                    lemma_first_where_found(
                        self@.rows,
                        |r: RowModel| row_at(r, path@, label@),
                        i as int,
                    );
                }
                return Some(i);
            }
            i = i + 1;
        }
        proof {
            lemma_first_where_absent(self@.rows, |r: RowModel| row_at(r, path@, label@));
        }
        None
    }
}

} // verus!

verus! {

/// The view of an optional borrowed name.
pub open spec fn opt_view(name: Option<&str>) -> Option<Seq<char>> {
    match name {
        Some(s) => Some(s@),
        None => None,
    }
}

/// How an upsert refreshes an existing record: it is marked seen again and
/// its mutable fields are replaced; note and canonical model name are kept.
pub open spec fn upd_row(r: RowModel, name: Option<Seq<char>>, hash: Seq<char>, at: int) -> RowModel {
    RowModel { name, blake3: hash, is_checked: true, updated_at: at, ..r }
}

/// The record an upsert inserts when `(path, label)` is new.
pub open spec fn ins_row(
    id: int,
    name: Option<Seq<char>>,
    path: Seq<char>,
    label: Seq<char>,
    hash: Seq<char>,
    at: int,
) -> RowModel {
    RowModel {
        id,
        name,
        model_name: Seq::empty(),
        path,
        base_label: label,
        blake3: hash,
        note: Seq::empty(),
        is_checked: true,
        updated_at: at,
    }
}

/// The catalog after an upsert of `(path, label)`.
pub open spec fn spec_upsert(
    m: CatalogModel,
    name: Option<Seq<char>>,
    path: Seq<char>,
    label: Seq<char>,
    hash: Seq<char>,
    at: int,
) -> CatalogModel {
    let i = idx_of(m.rows, path, label);
    if i >= 0 {
        CatalogModel { rows: m.rows.update(i, upd_row(m.rows[i], name, hash, at)), ..m }
    } else if m.next_id < i64::MAX {
        CatalogModel {
            rows: m.rows.push(ins_row(m.next_id, name, path, label, hash, at)),
            next_id: m.next_id + 1,
        }
    } else {
        m
    }
}

/// The id an upsert reports, or the error when the id space is spent.
pub open spec fn spec_upsert_result(
    m: CatalogModel,
    path: Seq<char>,
    label: Seq<char>,
) -> Result<int, StoreError> {
    let i = idx_of(m.rows, path, label);
    if i >= 0 {
        Ok(m.rows[i].id)
    } else if m.next_id < i64::MAX {
        Ok(m.next_id)
    } else {
        Err(StoreError::CapacityExhausted)
    }
}

impl Catalog {
    /// Creates or refreshes the record of `(path, base_label)`.  When the
    /// location is already known the record is marked seen again and its
    /// mutable fields are replaced; otherwise a fresh record is inserted.
    /// Succeeds for every input unless a fresh id would be needed and the id
    /// space is spent.
    pub fn insert_or_update(
        &mut self,
        name: Option<&str>,
        path: &str,
        base_label: &str,
        blake3: &str,
        updated_at_ms: i64,
    ) -> (r: Result<i64, StoreError>)
        requires
            old(self).wf(),
        ensures
            final(self).wf(),
            final(self)@ == spec_upsert(
                old(self)@,
                opt_view(name),
                path@,
                base_label@,
                blake3@,
                updated_at_ms as int,
            ),
            match r {
                Ok(id) => spec_upsert_result(old(self)@, path@, base_label@) == Ok::<
                    int,
                    StoreError,
                >(id as int),
                Err(e) => spec_upsert_result(old(self)@, path@, base_label@) == Err::<
                    int,
                    StoreError,
                >(e),
            },
    {
        let ghost m0 = self@;
        let owned_name: Option<String> = match name {
            Some(s) => Some(s.to_owned()),
            None => None,
        };
        match self.find_idx(path, base_label) {
            Some(i) => {
                let id = self.rows[i].id;
                let row = &mut self.rows[i];
                row.name = owned_name;
                row.blake3 = blake3.to_owned();
                row.is_checked = true;
                row.updated_at = updated_at_ms;
                proof {
                    assert(self@.rows =~= m0.rows.update(
                        i as int,
                        upd_row(m0.rows[i as int], opt_view(name), blake3@, updated_at_ms as int),
                    ));
                    assert(self@ == spec_upsert(
                        m0,
                        opt_view(name),
                        path@,
                        base_label@,
                        blake3@,
                        updated_at_ms as int,
                    ));
                    let rs = self@.rows;
                    assert forall|k: int| 0 <= k < rs.len() implies #[trigger] rs[k].id
                        == m0.rows[k].id && rs[k].path == m0.rows[k].path && rs[k].base_label
                        == m0.rows[k].base_label by {
                        if k != i {
                            assert(rs[k] == m0.rows[k]);
                        }
                    }
                    assert(catalog_wf(self@));
                }
                Ok(id)
            },
            None => {
                if self.next_id == i64::MAX {
                    proof {
                        assert(self@ == m0);
                    }
                    return Err(StoreError::CapacityExhausted);
                }
                let id = self.next_id;
                let row = Row {
                    id,
                    name: owned_name,
                    model_name: String::new(),
                    path: path.to_owned(),
                    base_label: base_label.to_owned(),
                    blake3: blake3.to_owned(),
                    note: String::new(),
                    is_checked: true,
                    updated_at: updated_at_ms,
                };
                self.rows.push(row);
                self.next_id = id + 1;
                proof {
                    assert(self@.rows =~= m0.rows.push(
                        ins_row(
                            m0.next_id,
                            opt_view(name),
                            path@,
                            base_label@,
                            blake3@,
                            updated_at_ms as int,
                        ),
                    ));
                    let rs = self@.rows;
                    let n = m0.rows.len() as int;
                    assert forall|k: int| 0 <= k < rs.len() implies 1 <= #[trigger] rs[k].id
                        < self@.next_id by {
                        if k < n {
                            assert(rs[k] == m0.rows[k]);
                        }
                    }
                    assert forall|a: int, b: int| 0 <= a < b < rs.len() implies #[trigger] rs[a].id
                        != #[trigger] rs[b].id by {
                        if b == n {
                            assert(rs[a].id == m0.rows[a].id < m0.next_id);
                        }
                    }
                    assert forall|a: int, b: int| 0 <= a < b < rs.len() implies !(#[trigger] rs[a].path
                        == #[trigger] rs[b].path && rs[a].base_label == rs[b].base_label) by {
                        if b == n {
                            assert(!row_at(m0.rows[a], path@, base_label@));
                        }
                    }
                    assert(catalog_wf(self@));
                }
                Ok(id)
            },
        }
    }
}

/// Upserting the same location twice changes nothing the second time except
/// the refreshed fields, and in particular creates no second record: one
/// record of `(path, label)` exists afterwards, and the catalog's size is the
/// same after one upsert and after two.
pub proof fn lemma_upsert_idempotent(
    m: CatalogModel,
    name: Option<Seq<char>>,
    path: Seq<char>,
    label: Seq<char>,
    hash: Seq<char>,
    at: int,
)
    requires
        catalog_wf(m),
    ensures
        ({
            let once = spec_upsert(m, name, path, label, hash, at);
            let twice = spec_upsert(once, name, path, label, hash, at);
            &&& twice == once
            &&& m.next_id < i64::MAX ==> once.rows.filter(
                |r: RowModel| row_at(r, path, label),
            ).len() == 1
        }),
{
    let p = |r: RowModel| row_at(r, path, label);
    let i = idx_of(m.rows, path, label);
    let once = spec_upsert(m, name, path, label, hash, at);
    lemma_first_where_props(m.rows, p);
    if i >= 0 {
        assert forall|k: int| 0 <= k < i implies !p(#[trigger] once.rows[k]) by {
            assert(once.rows[k] == m.rows[k]);
        }
        lemma_first_where_found(once.rows, p, i);
        assert(once.rows.update(i, upd_row(once.rows[i], name, hash, at)) =~= once.rows);
        assert(spec_upsert(once, name, path, label, hash, at) == once);
        lemma_filter_unique(once.rows, p, i);
    } else if m.next_id < i64::MAX {
        let n = m.rows.len() as int;
        assert forall|k: int| 0 <= k < n implies !p(#[trigger] once.rows[k]) by {
            assert(once.rows[k] == m.rows[k]);
        }
        assert(p(once.rows[n]));
        lemma_first_where_found(once.rows, p, n);
        assert(once.rows.update(n, upd_row(once.rows[n], name, hash, at)) =~= once.rows);
        assert(spec_upsert(once, name, path, label, hash, at) == once);
        lemma_filter_unique(once.rows, p, n);
    } else {
        assert(once == m);
    }
}

/// `first_where` yields -1 exactly when nothing satisfies `p`, and an index
/// of a satisfying record otherwise.
pub proof fn lemma_first_where_props(rows: Seq<RowModel>, p: spec_fn(RowModel) -> bool)
    ensures
        -1 <= first_where(rows, p) < rows.len(),
        first_where(rows, p) == -1 ==> forall|k: int|
            0 <= k < rows.len() ==> !p(#[trigger] rows[k]),
        first_where(rows, p) >= 0 ==> p(rows[first_where(rows, p)]),
    decreases rows.len(),
{
    if rows.len() > 0 {
        let t = rows.drop_first();
        lemma_first_where_props(t, p);
        if p(rows[0]) {
        } else {
            let r = first_where(t, p);
            if r == -1 {
                assert(first_where(rows, p) == -1);
                assert forall|k: int| 0 <= k < rows.len() implies !p(#[trigger] rows[k]) by {
                    if k > 0 {
                        assert(t[k - 1] == rows[k]);
                    }
                }
            } else {
                assert(first_where(rows, p) == r + 1);
                assert(rows[r + 1] == t[r]);
            }
        }
    }
}

/// When exactly one index satisfies `p`, the filtered sequence has length 1.
pub proof fn lemma_filter_unique(rows: Seq<RowModel>, p: spec_fn(RowModel) -> bool, i: int)
    requires
        0 <= i < rows.len(),
        p(rows[i]),
        forall|k: int| 0 <= k < rows.len() && k != i ==> !p(#[trigger] rows[k]),
    ensures
        rows.filter(p).len() == 1,
    decreases rows.len(),
{
    reveal(Seq::filter);
    let t = rows.drop_last();
    if i == rows.len() - 1 {
        assert forall|k: int| 0 <= k < t.len() implies !p(#[trigger] t[k]) by {
            assert(t[k] == rows[k]);
        }
        lemma_filter_all_false(t, p);
    } else {
        assert(t[i] == rows[i]);
        assert forall|k: int| 0 <= k < t.len() && k != i implies !p(#[trigger] t[k]) by {
            assert(t[k] == rows[k]);
        }
        lemma_filter_unique(t, p, i);
    }
}

/// Filtering by an unsatisfied predicate leaves nothing.
pub proof fn lemma_filter_all_false(rows: Seq<RowModel>, p: spec_fn(RowModel) -> bool)
    requires
        forall|k: int| 0 <= k < rows.len() ==> !p(#[trigger] rows[k]),
    ensures
        rows.filter(p).len() == 0,
    decreases rows.len(),
{
    reveal(Seq::filter);
    if rows.len() > 0 {
        let t = rows.drop_last();
        assert forall|k: int| 0 <= k < t.len() implies !p(#[trigger] t[k]) by {
            assert(t[k] == rows[k]);
        }
        lemma_filter_all_false(t, p);
    }
}

} // verus!

verus! {

/// The mark a scan generation opens with: every record with a non-empty path
/// is flagged unseen; records without a backing path keep their flag.
pub open spec fn mark_row(r: RowModel) -> RowModel {
    RowModel { is_checked: if r.path.len() == 0 { r.is_checked } else { false }, ..r }
}

/// The catalog after `mark_obsolete_all`.
pub open spec fn spec_mark_all(m: CatalogModel) -> CatalogModel {
    CatalogModel { rows: m.rows.map_values(|r: RowModel| mark_row(r)), ..m }
}

/// The catalog after marking one record unseen.
pub open spec fn spec_mark_one(m: CatalogModel, id: int) -> CatalogModel {
    let j = idx_of_id(m.rows, id);
    if j >= 0 {
        CatalogModel { rows: m.rows.update(j, RowModel { is_checked: false, ..m.rows[j] }), ..m }
    } else {
        m
    }
}

/// The catalog after a sweep: only records seen in the current generation stay.
pub open spec fn spec_sweep(m: CatalogModel) -> CatalogModel {
    CatalogModel { rows: m.rows.filter(|r: RowModel| r.is_checked), ..m }
}

pub(crate) fn clone_opt_string(s: &Option<String>) -> (r: Option<String>)
    ensures
        (match r {
            Some(v) => Some(v@),
            None => None,
        }) == (match s {
            Some(v) => Some(v@),
            None => None,
        }),
{
    match s {
        Some(v) => Some(v.clone()),
        None => None,
    }
}

pub(crate) fn row_to_item(r: &Row) -> (it: Item)
    ensures
        it@ == row_item(r@),
{
    Item {
        id: r.id,
        name: clone_opt_string(&r.name),
        path: r.path.clone(),
        base_label: r.base_label.clone(),
        note: r.note.clone(),
    }
}

pub(crate) fn clone_row(r: &Row) -> (c: Row)
    ensures
        c@ == r@,
{
    Row {
        id: r.id,
        name: clone_opt_string(&r.name),
        model_name: r.model_name.clone(),
        path: r.path.clone(),
        base_label: r.base_label.clone(),
        blake3: r.blake3.clone(),
        note: r.note.clone(),
        is_checked: r.is_checked,
        updated_at: r.updated_at,
    }
}

impl Catalog {
    fn find_by_id(&self, id: i64) -> (r: Option<usize>)
        ensures
            match r {
                Some(i) => idx_of_id(self@.rows, id as int) == i && i < self@.rows.len()
                    && self@.rows[i as int].id == id,
                None => idx_of_id(self@.rows, id as int) == -1,
            },
    {
        let n = self.rows.len();
        let mut i: usize = 0;
        while i < n
            invariant
                i <= n,
                n == self@.rows.len(),
                forall|k: int| 0 <= k < i ==> #[trigger] self@.rows[k].id != id,
            decreases n - i,
        {
            if self.rows[i].id == id {
                proof {
                    lemma_first_where_found(self@.rows, |r: RowModel| r.id == id, i as int);
                }
                return Some(i);
            }
            i = i + 1;
        }
        proof {
            lemma_first_where_absent(self@.rows, |r: RowModel| r.id == id);
        }
        None
    }

    /// Opens a scan generation: every record with a backing path is flagged
    /// unseen, so that only rediscovered files survive the closing sweep.
    pub fn mark_obsolete_all(&mut self)
        requires
            old(self).wf(),
        ensures
            final(self).wf(),
            final(self)@ == spec_mark_all(old(self)@),
    {
        let ghost m0 = self@;
        let n = self.rows.len();
        let mut i: usize = 0;
        while i < n
            invariant
                i <= n,
                n == self@.rows.len(),
                self@.next_id == m0.next_id,
                forall|k: int| 0 <= k < i ==> self@.rows[k] == mark_row(#[trigger] m0.rows[k]),
                forall|k: int| i <= k < n ==> self@.rows[k] == #[trigger] m0.rows[k],
            decreases n - i,
        {
            let empty = self.rows[i].path.as_str().is_empty();
            if !empty {
                let row = &mut self.rows[i];
                row.is_checked = false;
            }
            proof {
                assert(self@.rows[i as int] == mark_row(m0.rows[i as int]));
            }
            i = i + 1;
        }
        proof {
            assert(self@.rows =~= m0.rows.map_values(|r: RowModel| mark_row(r)));
            let rs = self@.rows;
            assert forall|k: int| 0 <= k < rs.len() implies #[trigger] rs[k].id == m0.rows[k].id
                && rs[k].path == m0.rows[k].path && rs[k].base_label == m0.rows[k].base_label by {
                assert(rs[k] == mark_row(m0.rows[k]));
            }
            assert(catalog_wf(self@));
        }
    }

    /// Flags one record unseen (to be removed by the next sweep) and reports
    /// its location, so the caller can move the backing files to the trash.
    /// Returns the record's `(path, base_label)`; fails with `NotFound` if
    /// and only if no record has the given id.
    pub fn mark_obsolete(&mut self, id: i64) -> (r: Result<(String, String), StoreError>)
        requires
            old(self).wf(),
        ensures
            final(self).wf(),
            final(self)@ == spec_mark_one(old(self)@, id as int),
            match r {
                Ok((p, l)) => {
                    let j = idx_of_id(old(self)@.rows, id as int);
                    j >= 0 && p@ == old(self)@.rows[j].path && l@ == old(self)@.rows[j].base_label
                },
                Err(e) => e == StoreError::NotFound && idx_of_id(old(self)@.rows, id as int) == -1,
            },
    {
        let ghost m0 = self@;
        match self.find_by_id(id) {
            Some(i) => {
                let row = &mut self.rows[i];
                row.is_checked = false;
                let path = self.rows[i].path.clone();
                let label = self.rows[i].base_label.clone();
                proof {
                    assert(self@.rows =~= m0.rows.update(
                        i as int,
                        RowModel { is_checked: false, ..m0.rows[i as int] },
                    ));
                    let rs = self@.rows;
                    assert forall|k: int| 0 <= k < rs.len() implies #[trigger] rs[k].id
                        == m0.rows[k].id && rs[k].path == m0.rows[k].path && rs[k].base_label
                        == m0.rows[k].base_label by {
                        if k != i {
                            assert(rs[k] == m0.rows[k]);
                        }
                    }
                    assert(catalog_wf(self@));
                }
                Ok((path, label))
            },
            None => Err(StoreError::NotFound),
        }
    }

    /// The sweep: deletes every record still flagged unseen and reports how
    /// many were removed.
    pub fn clean(&mut self) -> (deleted: u64)
        requires
            old(self).wf(),
        ensures
            final(self).wf(),
            final(self)@ == spec_sweep(old(self)@),
            deleted == old(self)@.rows.len() - final(self)@.rows.len(),
    {
        let ghost m0 = self@;
        let n = self.rows.len();
        let mut kept: Vec<Row> = Vec::new();
        let ghost mut kept_src: Seq<int> = Seq::empty();
        let mut i: usize = 0;
        proof {
            assert(m0.rows.take(0).filter(|r: RowModel| r.is_checked) =~= Seq::<
                RowModel,
            >::empty()) by {
                reveal(Seq::filter);
            }
            assert(kept@.map_values(|r: Row| r@) =~= Seq::<RowModel>::empty());
        }
        while i < n
            invariant
                i <= n,
                n == self@.rows.len(),
                self@ == m0,
                kept@.map_values(|r: Row| r@) == m0.rows.take(i as int).filter(
                    |r: RowModel| r.is_checked,
                ),
                kept_src.len() == kept@.len(),
                forall|k: int|
                    0 <= k < kept_src.len() ==> 0 <= #[trigger] kept_src[k] < i && kept@.map_values(
                        |r: Row| r@,
                    )[k] == m0.rows[kept_src[k]],
                forall|a: int, b: int| 0 <= a < b < kept_src.len() ==> kept_src[a] < kept_src[b],
            decreases n - i,
        {
            let ghost km0 = kept@.map_values(|r: Row| r@);
            if self.rows[i].is_checked {
                let c = clone_row(&self.rows[i]);
                kept.push(c);
                proof {
                    kept_src = kept_src.push(i as int);
                    assert(kept@.map_values(|r: Row| r@) =~= km0.push(m0.rows[i as int]));
                }
            }
            proof {
                assert(m0.rows.take(i + 1 as int).drop_last() =~= m0.rows.take(i as int));
                assert(m0.rows.take(i + 1 as int).last() == m0.rows[i as int]);
                assert(m0.rows.take(i + 1 as int).filter(|r: RowModel| r.is_checked)
                    == if m0.rows[i as int].is_checked {
                    m0.rows.take(i as int).filter(|r: RowModel| r.is_checked).push(
                        m0.rows[i as int],
                    )
                } else {
                    m0.rows.take(i as int).filter(|r: RowModel| r.is_checked)
                }) by {
                    reveal(Seq::filter);
                }
            }
            i = i + 1;
        }
        let old_len = self.rows.len();
        let new_len = kept.len();
        self.rows = kept;
        proof {
            assert(m0.rows.take(n as int) =~= m0.rows);
            let rs = self@.rows;
            assert forall|k: int| 0 <= k < rs.len() implies 1 <= #[trigger] rs[k].id
                < self@.next_id by {
                assert(rs[k] == m0.rows[kept_src[k]]);
            }
            assert forall|a: int, b: int| 0 <= a < b < rs.len() implies #[trigger] rs[a].id
                != #[trigger] rs[b].id by {
                assert(rs[a] == m0.rows[kept_src[a]]);
                assert(rs[b] == m0.rows[kept_src[b]]);
            }
            assert forall|a: int, b: int| 0 <= a < b < rs.len() implies !(#[trigger] rs[a].path
                == #[trigger] rs[b].path && rs[a].base_label == rs[b].base_label) by {
                assert(rs[a] == m0.rows[kept_src[a]]);
                assert(rs[b] == m0.rows[kept_src[b]]);
            }
            assert(catalog_wf(self@));
        }
        (old_len - new_len) as u64
    }

    /// Looks a record up by id; fails with `NotFound` if and only if no
    /// record has the given id.
    pub fn get_by_id(&self, id: i64) -> (r: Result<Item, StoreError>)
        ensures
            match r {
                Ok(it) => {
                    let j = idx_of_id(self@.rows, id as int);
                    j >= 0 && it@ == row_item(self@.rows[j])
                },
                Err(e) => e == StoreError::NotFound && idx_of_id(self@.rows, id as int) == -1,
            },
    {
        match self.find_by_id(id) {
            Some(i) => Ok(row_to_item(&self.rows[i])),
            None => Err(StoreError::NotFound),
        }
    }

    /// Looks the first seen record up by content hash; fails with `NotFound`
    /// if and only if no seen record carries the hash.
    pub fn get_by_hash(&self, blake3: &str) -> (r: Result<Item, StoreError>)
        ensures
            match r {
                Ok(it) => {
                    let j = first_where(
                        self@.rows,
                        |rm: RowModel| rm.is_checked && rm.blake3 == blake3@,
                    );
                    j >= 0 && it@ == row_item(self@.rows[j])
                },
                Err(e) => e == StoreError::NotFound && first_where(
                    self@.rows,
                    |rm: RowModel| rm.is_checked && rm.blake3 == blake3@,
                ) == -1,
            },
    {
        let n = self.rows.len();
        let mut i: usize = 0;
        while i < n
            invariant
                i <= n,
                n == self@.rows.len(),
                forall|k: int|
                    0 <= k < i ==> !((#[trigger] self@.rows[k]).is_checked && self@.rows[k].blake3
                        == blake3@),
            decreases n - i,
        {
            let row = &self.rows[i];
            if row.is_checked && crate::text::str_eq(row.blake3.as_str(), blake3) {
                proof {
                    lemma_first_where_found(
                        self@.rows,
                        |rm: RowModel| rm.is_checked && rm.blake3 == blake3@,
                        i as int,
                    );
                }
                return Ok(row_to_item(&self.rows[i]));
            }
            i = i + 1;
        }
        proof {
            lemma_first_where_absent(
                self@.rows,
                |rm: RowModel| rm.is_checked && rm.blake3 == blake3@,
            );
        }
        Err(StoreError::NotFound)
    }

    /// Replaces the free-text note of one record; fails with `NotFound` if
    /// and only if no record has the given id.
    pub fn update_item_note(&mut self, id: i64, note: &str) -> (r: Result<(), StoreError>)
        requires
            old(self).wf(),
        ensures
            final(self).wf(),
            match r {
                Ok(()) => {
                    let j = idx_of_id(old(self)@.rows, id as int);
                    j >= 0 && final(self)@.rows == old(self)@.rows.update(
                        j,
                        RowModel { note: note@, ..old(self)@.rows[j] },
                    ) && final(self)@.next_id == old(self)@.next_id
                },
                Err(e) => e == StoreError::NotFound && idx_of_id(old(self)@.rows, id as int) == -1
                    && final(self)@ == old(self)@,
            },
    {
        let ghost m0 = self@;
        match self.find_by_id(id) {
            Some(i) => {
                let row = &mut self.rows[i];
                row.note = note.to_owned();
                proof {
                    assert(self@.rows =~= m0.rows.update(
                        i as int,
                        RowModel { note: note@, ..m0.rows[i as int] },
                    ));
                    let rs = self@.rows;
                    assert forall|k: int| 0 <= k < rs.len() implies #[trigger] rs[k].id
                        == m0.rows[k].id && rs[k].path == m0.rows[k].path && rs[k].base_label
                        == m0.rows[k].base_label by {
                        if k != i {
                            assert(rs[k] == m0.rows[k]);
                        }
                    }
                    assert(catalog_wf(self@));
                }
                Ok(())
            },
            None => Err(StoreError::NotFound),
        }
    }
}

} // verus!

verus! {

/// One file a scan generation hands to the upsert, as the specification
/// sees it.
pub struct ScanFile {
    pub name: Option<Seq<char>>,
    pub path: Seq<char>,
    pub label: Seq<char>,
    pub hash: Seq<char>,
    pub at: int,
}

/// The catalog after upserting one scanned file.
pub open spec fn spec_upsert_file(m: CatalogModel, f: ScanFile) -> CatalogModel {
    spec_upsert(m, f.name, f.path, f.label, f.hash, f.at)
}

/// The catalog after upserting every scanned file in order.
pub open spec fn scan_fold(m: CatalogModel, files: Seq<ScanFile>) -> CatalogModel
    decreases files.len(),
{
    if files.len() == 0 {
        m
    } else {
        scan_fold(spec_upsert_file(m, files[0]), files.drop_first())
    }
}

/// Some scanned file lies at `(path, label)`.
pub open spec fn touched(files: Seq<ScanFile>, path: Seq<char>, label: Seq<char>) -> bool {
    exists|k: int|
        0 <= k < files.len() && (#[trigger] files[k]).path == path && files[k].label == label
}

/// A catalog that only renames, reflags or re-stamps records in place keeps
/// its invariant.
proof fn lemma_wf_pointwise(m: CatalogModel, m2: CatalogModel)
    requires
        catalog_wf(m),
        m2.rows.len() == m.rows.len(),
        m.next_id <= m2.next_id,
        forall|k: int|
            0 <= k < m.rows.len() ==> (#[trigger] m2.rows[k]).id == m.rows[k].id
                && m2.rows[k].path == m.rows[k].path && m2.rows[k].base_label
                == m.rows[k].base_label,
    ensures
        catalog_wf(m2),
{
    let rs = m2.rows;
    assert forall|k: int| 0 <= k < rs.len() implies 1 <= #[trigger] rs[k].id < m2.next_id by {
        assert(rs[k].id == m.rows[k].id);
    }
    assert forall|a: int, b: int| 0 <= a < b < rs.len() implies #[trigger] rs[a].id
        != #[trigger] rs[b].id by {
        assert(rs[a].id == m.rows[a].id && rs[b].id == m.rows[b].id);
    }
    assert forall|a: int, b: int| 0 <= a < b < rs.len() implies !(#[trigger] rs[a].path
        == #[trigger] rs[b].path && rs[a].base_label == rs[b].base_label) by {
        assert(rs[a].path == m.rows[a].path && rs[b].path == m.rows[b].path);
        assert(rs[a].base_label == m.rows[a].base_label && rs[b].base_label
            == m.rows[b].base_label);
    }
}

/// An upsert keeps the catalog invariant, never shrinks the catalog, and
/// advances the id counter by at most one.
pub proof fn lemma_spec_upsert_wf(m: CatalogModel, f: ScanFile)
    requires
        catalog_wf(m),
    ensures
        catalog_wf(spec_upsert_file(m, f)),
        m.rows.len() <= spec_upsert_file(m, f).rows.len(),
        m.next_id <= spec_upsert_file(m, f).next_id <= m.next_id + 1,
{
    let p = |r: RowModel| row_at(r, f.path, f.label);
    lemma_first_where_props(m.rows, p);
    let i = idx_of(m.rows, f.path, f.label);
    let m2 = spec_upsert_file(m, f);
    if i >= 0 {
        assert forall|k: int| 0 <= k < m.rows.len() implies (#[trigger] m2.rows[k]).id
            == m.rows[k].id && m2.rows[k].path == m.rows[k].path && m2.rows[k].base_label
            == m.rows[k].base_label by {
            if k != i {
                assert(m2.rows[k] == m.rows[k]);
            }
        }
        lemma_wf_pointwise(m, m2);
    } else if m.next_id < i64::MAX {
        let rs = m2.rows;
        let n = m.rows.len() as int;
        assert forall|k: int| 0 <= k < rs.len() implies 1 <= #[trigger] rs[k].id < m2.next_id by {
            if k < n {
                assert(rs[k] == m.rows[k]);
            }
        }
        assert forall|a: int, b: int| 0 <= a < b < rs.len() implies #[trigger] rs[a].id
            != #[trigger] rs[b].id by {
            if b == n {
                assert(rs[a].id == m.rows[a].id < m.next_id);
            }
        }
        assert forall|a: int, b: int| 0 <= a < b < rs.len() implies !(#[trigger] rs[a].path
            == #[trigger] rs[b].path && rs[a].base_label == rs[b].base_label) by {
            if b == n {
                assert(!p(m.rows[a]));
            }
        }
    }
}

/// An upsert leaves every record at another location untouched.
pub proof fn lemma_upsert_preserves_other(m: CatalogModel, f: ScanFile, i: int)
    requires
        catalog_wf(m),
        0 <= i < m.rows.len(),
        !row_at(m.rows[i], f.path, f.label),
    ensures
        spec_upsert_file(m, f).rows[i] == m.rows[i],
{
    let p = |r: RowModel| row_at(r, f.path, f.label);
    lemma_first_where_props(m.rows, p);
    let j = idx_of(m.rows, f.path, f.label);
    if j >= 0 {
        assert(p(m.rows[j]));
        assert(j != i);
    }
}

/// After an upsert, the upserted location is present and flagged seen.
pub proof fn lemma_upsert_checked_at(m: CatalogModel, f: ScanFile)
    requires
        catalog_wf(m),
        m.next_id < i64::MAX,
    ensures
        exists|j: int|
            0 <= j < spec_upsert_file(m, f).rows.len() && row_at(
                #[trigger] spec_upsert_file(m, f).rows[j],
                f.path,
                f.label,
            ) && spec_upsert_file(m, f).rows[j].is_checked,
{
    let p = |r: RowModel| row_at(r, f.path, f.label);
    lemma_first_where_props(m.rows, p);
    let j = idx_of(m.rows, f.path, f.label);
    let m2 = spec_upsert_file(m, f);
    if j >= 0 {
        assert(p(m.rows[j]));
        assert(row_at(m2.rows[j], f.path, f.label) && m2.rows[j].is_checked);
    } else {
        let n = m.rows.len() as int;
        assert(row_at(m2.rows[n], f.path, f.label) && m2.rows[n].is_checked);
    }
}

/// An upsert never unflags a location that is present and seen.
pub proof fn lemma_upsert_keeps_checked(
    m: CatalogModel,
    f: ScanFile,
    path: Seq<char>,
    label: Seq<char>,
)
    requires
        catalog_wf(m),
        exists|j: int|
            0 <= j < m.rows.len() && row_at(#[trigger] m.rows[j], path, label)
                && m.rows[j].is_checked,
    ensures
        exists|j: int|
            0 <= j < spec_upsert_file(m, f).rows.len() && row_at(
                #[trigger] spec_upsert_file(m, f).rows[j],
                path,
                label,
            ) && spec_upsert_file(m, f).rows[j].is_checked,
{
    let j = choose|j: int|
        0 <= j < m.rows.len() && row_at(#[trigger] m.rows[j], path, label)
            && m.rows[j].is_checked;
    let p = |r: RowModel| row_at(r, f.path, f.label);
    lemma_first_where_props(m.rows, p);
    let i = idx_of(m.rows, f.path, f.label);
    let m2 = spec_upsert_file(m, f);
    if row_at(m.rows[j], f.path, f.label) {
        assert(i >= 0);
        assert(p(m.rows[i]));
        assert(i == j);
        assert(row_at(m2.rows[j], path, label) && m2.rows[j].is_checked);
    } else {
        lemma_upsert_preserves_other(m, f, j);
        assert(m.rows.len() <= m2.rows.len()) by {
            lemma_spec_upsert_wf(m, f);
        }
        assert(row_at(m2.rows[j], path, label) && m2.rows[j].is_checked);
    }
}

/// A whole scan leaves every untouched location exactly as it was.
pub proof fn lemma_scan_fold_untouched(m: CatalogModel, files: Seq<ScanFile>, i: int)
    requires
        catalog_wf(m),
        0 <= i < m.rows.len(),
        !touched(files, m.rows[i].path, m.rows[i].base_label),
    ensures
        catalog_wf(scan_fold(m, files)),
        m.rows.len() <= scan_fold(m, files).rows.len(),
        scan_fold(m, files).rows[i] == m.rows[i],
    decreases files.len(),
{
    if files.len() == 0 {
    } else {
        let path = m.rows[i].path;
        let label = m.rows[i].base_label;
        let f0 = files[0];
        assert(!(f0.path == path && f0.label == label));
        lemma_spec_upsert_wf(m, f0);
        lemma_upsert_preserves_other(m, f0, i);
        let m2 = spec_upsert_file(m, f0);
        assert(!touched(files.drop_first(), path, label)) by {
            if touched(files.drop_first(), path, label) {
                let k = choose|k: int|
                    0 <= k < files.drop_first().len() && (#[trigger] files.drop_first()[k]).path
                        == path && files.drop_first()[k].label == label;
                assert(files.drop_first()[k] == files[k + 1]);
                assert(touched(files, path, label));
            }
        }
        lemma_scan_fold_untouched(m2, files.drop_first(), i);
    }
}

/// A whole scan keeps every present-and-seen location present and seen.
pub proof fn lemma_scan_fold_keeps_checked(
    m: CatalogModel,
    files: Seq<ScanFile>,
    path: Seq<char>,
    label: Seq<char>,
)
    requires
        catalog_wf(m),
        exists|j: int|
            0 <= j < m.rows.len() && row_at(#[trigger] m.rows[j], path, label)
                && m.rows[j].is_checked,
    ensures
        catalog_wf(scan_fold(m, files)),
        exists|j: int|
            0 <= j < scan_fold(m, files).rows.len() && row_at(
                #[trigger] scan_fold(m, files).rows[j],
                path,
                label,
            ) && scan_fold(m, files).rows[j].is_checked,
    decreases files.len(),
{
    if files.len() == 0 {
    } else {
        let f0 = files[0];
        lemma_spec_upsert_wf(m, f0);
        lemma_upsert_keeps_checked(m, f0, path, label);
        lemma_scan_fold_keeps_checked(spec_upsert_file(m, f0), files.drop_first(), path, label);
    }
}

/// After a scan that touched `(path, label)`, that location is present and
/// flagged seen.
pub proof fn lemma_scan_fold_touched(
    m: CatalogModel,
    files: Seq<ScanFile>,
    path: Seq<char>,
    label: Seq<char>,
)
    requires
        catalog_wf(m),
        touched(files, path, label),
        m.next_id + files.len() <= i64::MAX,
    ensures
        catalog_wf(scan_fold(m, files)),
        exists|j: int|
            0 <= j < scan_fold(m, files).rows.len() && row_at(
                #[trigger] scan_fold(m, files).rows[j],
                path,
                label,
            ) && scan_fold(m, files).rows[j].is_checked,
    decreases files.len(),
{
    assert(files.len() > 0);
    let f0 = files[0];
    lemma_spec_upsert_wf(m, f0);
    let m2 = spec_upsert_file(m, f0);
    assert(scan_fold(m, files) == scan_fold(m2, files.drop_first()));
    if f0.path == path && f0.label == label {
        lemma_upsert_checked_at(m, f0);
        let jw = choose|j: int|
            0 <= j < m2.rows.len() && row_at(#[trigger] m2.rows[j], f0.path, f0.label)
                && m2.rows[j].is_checked;
        assert(row_at(m2.rows[jw], path, label) && m2.rows[jw].is_checked);
        lemma_scan_fold_keeps_checked(m2, files.drop_first(), path, label);
    } else {
        let k = choose|k: int|
            0 <= k < files.len() && (#[trigger] files[k]).path == path && files[k].label == label;
        assert(k >= 1);
        assert(files.drop_first()[k - 1] == files[k]);
        assert(touched(files.drop_first(), path, label));
        lemma_scan_fold_touched(m2, files.drop_first(), path, label);
    }
}

/// Every record of the filtered sequence is a record of the original.
pub proof fn lemma_filter_elements(rows: Seq<RowModel>, p: spec_fn(RowModel) -> bool)
    ensures
        forall|j: int|
            0 <= j < rows.filter(p).len() ==> exists|k: int|
                0 <= k < rows.len() && rows[k] == #[trigger] rows.filter(p)[j],
    decreases rows.len(),
{
    reveal(Seq::filter);
    if rows.len() > 0 {
        let t = rows.drop_last();
        lemma_filter_elements(t, p);
        let fil = rows.filter(p);
        assert forall|j: int| 0 <= j < fil.len() implies exists|k: int|
            0 <= k < rows.len() && rows[k] == #[trigger] fil[j] by {
            if p(rows.last()) && j == fil.len() - 1 {
                assert(rows[rows.len() - 1] == fil[j]);
            } else {
                assert(fil[j] == t.filter(p)[j]);
                let k = choose|k: int| 0 <= k < t.len() && t[k] == t.filter(p)[j];
                assert(rows[k] == fil[j]);
            }
        }
    }
}

/// Mark/sweep correctness over one whole scan generation.  A record present
/// before the scan whose file was not rediscovered (and that has a backing
/// path) is gone after the sweep; a location the scan touched is present and
/// flagged seen after the sweep.  `files` are the scanned files in upsert
/// order; the id space must suffice for them.
pub proof fn lemma_mark_sweep(m: CatalogModel, files: Seq<ScanFile>, i: int)
    requires
        catalog_wf(m),
        m.next_id + files.len() <= i64::MAX,
        0 <= i < m.rows.len(),
    ensures
        ({
            let after = spec_sweep(scan_fold(spec_mark_all(m), files));
            let path = m.rows[i].path;
            let label = m.rows[i].base_label;
            &&& (path.len() > 0 && !touched(files, path, label)) ==> forall|j: int|
                0 <= j < after.rows.len() ==> !row_at(#[trigger] after.rows[j], path, label)
            &&& touched(files, path, label) ==> exists|j: int|
                0 <= j < after.rows.len() && row_at(#[trigger] after.rows[j], path, label)
                    && after.rows[j].is_checked
        }),
{
    let path = m.rows[i].path;
    let label = m.rows[i].base_label;
    let m1 = spec_mark_all(m);
    let checked = |r: RowModel| r.is_checked;
    assert forall|k: int| 0 <= k < m.rows.len() implies (#[trigger] m1.rows[k]).id
        == m.rows[k].id && m1.rows[k].path == m.rows[k].path && m1.rows[k].base_label
        == m.rows[k].base_label by {
        assert(m1.rows[k] == mark_row(m.rows[k]));
    }
    lemma_wf_pointwise(m, m1);
    let sf = scan_fold(m1, files);
    let after = spec_sweep(sf);
    if path.len() > 0 && !touched(files, path, label) {
        assert(m1.rows[i] == mark_row(m.rows[i]));
        assert(!m1.rows[i].is_checked);
        lemma_scan_fold_untouched(m1, files, i);
        assert(sf.rows[i] == m1.rows[i]);
        lemma_filter_elements(sf.rows, checked);
        assert forall|j: int| 0 <= j < after.rows.len() implies !row_at(
            #[trigger] after.rows[j],
            path,
            label,
        ) by {
            if row_at(after.rows[j], path, label) {
                let k = choose|k: int| 0 <= k < sf.rows.len() && sf.rows[k] == after.rows[j];
                sf.rows.lemma_filter_pred(checked, j);
                assert(sf.rows[k].is_checked);
                assert(k != i);
                assert(row_at(sf.rows[k], path, label) && row_at(sf.rows[i], path, label));
                assert(false);
            }
        }
    }
    if touched(files, path, label) {
        lemma_scan_fold_touched(m1, files, path, label);
        let j = choose|j: int|
            0 <= j < sf.rows.len() && row_at(#[trigger] sf.rows[j], path, label)
                && sf.rows[j].is_checked;
        sf.rows.lemma_filter_contains(checked, j);
        let j2 = choose|j2: int| 0 <= j2 < after.rows.len() && after.rows[j2] == sf.rows[j];
        assert(row_at(after.rows[j2], path, label) && after.rows[j2].is_checked);
    }
}

} // verus!

verus! {

/// The listing order: more recently updated records first, ties broken by
/// ascending id.
pub open spec fn row_le(a: RowModel, b: RowModel) -> bool {
    a.updated_at > b.updated_at || (a.updated_at == b.updated_at && a.id <= b.id)
}

/// The sequence is in listing order.
pub open spec fn rows_sorted(s: Seq<RowModel>) -> bool {
    forall|i: int, j: int| 0 <= i < j < s.len() ==> row_le(#[trigger] s[i], #[trigger] s[j])
}

/// The records a listing considers: those seen in the current generation.
pub open spec fn checked_rows(m: CatalogModel) -> Seq<RowModel> {
    m.rows.filter(|r: RowModel| r.is_checked)
}

/// The page `[offset, offset + limit)` of a result sequence, clipped to its
/// length.
pub open spec fn page_of(s: Seq<RowModel>, limit: int, offset: int) -> Seq<RowModel> {
    let st = if offset > s.len() {
        s.len() as int
    } else {
        offset
    };
    let en = if st + limit > s.len() {
        s.len() as int
    } else {
        st + limit
    };
    s.subrange(st, en)
}

proof fn lemma_insert_multiset(s: Seq<RowModel>, pos: int, x: RowModel)
    requires
        0 <= pos <= s.len(),
    ensures
        s.insert(pos, x).to_multiset() == s.to_multiset().insert(x),
{
    broadcast use vstd::seq_lib::group_to_multiset_ensures;

    let a = s.subrange(0, pos);
    let b = s.subrange(pos, s.len() as int);
    assert(s.insert(pos, x) == a.push(x) + b);
    vstd::seq_lib::lemma_multiset_commutative(a.push(x), b);
    assert(s =~= a + b);
    vstd::seq_lib::lemma_multiset_commutative(a, b);
    assert(a.push(x).to_multiset() =~= a.to_multiset().insert(x));
    assert(a.to_multiset().insert(x).add(b.to_multiset()) =~= a.to_multiset().add(
        b.to_multiset(),
    ).insert(x));
}

fn row_le_exec(a: &Row, b: &Row) -> (r: bool)
    ensures
        r == row_le(a@, b@),
{
    a.updated_at > b.updated_at || (a.updated_at == b.updated_at && a.id <= b.id)
}

/// Sorts records into listing order.
pub(crate) fn sort_rows(v: &Vec<Row>) -> (r: Vec<Row>)
    ensures
        rows_sorted(r@.map_values(|x: Row| x@)),
        r@.map_values(|x: Row| x@).to_multiset() == v@.map_values(|x: Row| x@).to_multiset(),
{
    broadcast use vstd::seq_lib::group_to_multiset_ensures;

    let ghost vm = v@.map_values(|x: Row| x@);
    let n = v.len();
    let mut out: Vec<Row> = Vec::new();
    let mut i: usize = 0;
    proof {
        assert(vm.take(0) =~= Seq::<RowModel>::empty());
        assert(out@.map_values(|x: Row| x@) =~= Seq::<RowModel>::empty());
        assert(vm.take(0).to_multiset() =~= Seq::<RowModel>::empty().to_multiset());
    }
    while i < n
        invariant
            i <= n,
            n == vm.len(),
            vm == v@.map_values(|x: Row| x@),
            rows_sorted(out@.map_values(|x: Row| x@)),
            out@.map_values(|x: Row| x@).to_multiset() == vm.take(i as int).to_multiset(),
        decreases n - i,
    {
        let ghost om = out@.map_values(|x: Row| x@);
        let item = clone_row(&v[i]);
        let m = out.len();
        let mut pos: usize = 0;
        while pos < m && row_le_exec(&out[pos], &item)
            invariant
                pos <= m,
                m == out@.len(),
                i < n,
                n == vm.len(),
                vm == v@.map_values(|x: Row| x@),
                item@ == vm[i as int],
                om == out@.map_values(|x: Row| x@),
                forall|k: int| 0 <= k < pos ==> row_le(#[trigger] om[k], item@),
            decreases m - pos,
        {
            pos = pos + 1;
        }
        proof {
            if pos < m {
                assert(!row_le(om[pos as int], item@));
                assert(row_le(item@, om[pos as int]));
            }
        }
        out.insert(pos, item);
        proof {
            let om2 = out@.map_values(|x: Row| x@);
            assert(om2 =~= om.insert(pos as int, vm[i as int]));
            assert forall|a: int, b: int| 0 <= a < b < om2.len() implies row_le(
                #[trigger] om2[a],
                #[trigger] om2[b],
            ) by {
                if a < pos {
                    assert(om2[a] == om[a]);
                } else if a == pos {
                    assert(om2[a] == vm[i as int]);
                } else {
                    assert(om2[a] == om[a - 1]);
                }
                if b < pos {
                    assert(om2[b] == om[b]);
                } else if b == pos {
                    assert(om2[b] == vm[i as int]);
                } else {
                    assert(om2[b] == om[b - 1]);
                }
                if b == pos {
                    assert(row_le(om[a], item@));
                }
                if a == pos && b > pos {
                    assert(row_le(item@, om[b - 1])) by {
                        if pos < m {
                            assert(row_le(om[pos as int], om[b - 1]) || pos == b - 1);
                        }
                    }
                }
            }
            lemma_insert_multiset(om, pos as int, vm[i as int]);
            assert(vm.take(i + 1 as int) =~= vm.take(i as int).push(vm[i as int]));
            vm.take(i as int).to_multiset_ensures();
            assert(vm.take(i as int).push(vm[i as int]).to_multiset() =~= vm.take(
                i as int,
            ).to_multiset().insert(vm[i as int]));
            assert(vm.take(i + 1 as int).to_multiset() =~= vm.take(i as int).to_multiset().insert(
                vm[i as int],
            ));
        }
        i = i + 1;
    }
    proof {
        assert(vm.take(n as int) =~= vm);
    }
    out
}

impl Catalog {
    /// The stored records, for read-only walks.
    pub fn row_vec(&self) -> (r: &Vec<Row>)
        ensures
            r@.map_values(|x: Row| x@) == self@.rows,
    {
        &self.rows
    }

    fn collect_checked(&self) -> (r: Vec<Row>)
        ensures
            r@.map_values(|x: Row| x@) == checked_rows(self@),
    {
        let n = self.rows.len();
        let mut out: Vec<Row> = Vec::new();
        let mut i: usize = 0;
        proof {
            assert(self@.rows.take(0).filter(|r: RowModel| r.is_checked) =~= Seq::<
                RowModel,
            >::empty()) by {
                reveal(Seq::filter);
            }
            assert(out@.map_values(|x: Row| x@) =~= Seq::<RowModel>::empty());
        }
        while i < n
            invariant
                i <= n,
                n == self@.rows.len(),
                out@.map_values(|x: Row| x@) == self@.rows.take(i as int).filter(
                    |r: RowModel| r.is_checked,
                ),
            decreases n - i,
        {
            let ghost om = out@.map_values(|x: Row| x@);
            if self.rows[i].is_checked {
                out.push(clone_row(&self.rows[i]));
                proof {
                    assert(out@.map_values(|x: Row| x@) =~= om.push(self@.rows[i as int]));
                }
            }
            proof {
                assert(self@.rows.take(i + 1 as int).drop_last() =~= self@.rows.take(i as int));
                assert(self@.rows.take(i + 1 as int).last() == self@.rows[i as int]);
                reveal(Seq::filter);
            }
            i = i + 1;
        }
        proof {
            assert(self@.rows.take(n as int) =~= self@.rows);
        }
        out
    }

    /// A page of the seen records, most recently updated first, together
    /// with the total number of seen records.
    pub fn get(&self, limit: i64, offset: i64) -> (r: (Vec<Item>, i64))
        requires
            limit >= 0,
            offset >= 0,
        ensures
            spec_listing_post(
                self@,
                limit as int,
                offset as int,
                r.0@.map_values(|it: Item| it@),
                r.1 as int,
            ),
    {
        let checked = self.collect_checked();
        let sorted = sort_rows(&checked);
        let total: i64 = if checked.len() as u64 <= i64::MAX as u64 {
            checked.len() as i64
        } else {
            i64::MAX
        };
        proof {
            broadcast use vstd::seq_lib::group_to_multiset_ensures;

            assert(checked_rows(self@).len() == checked_rows(self@).to_multiset().len());
            assert(checked@.map_values(|x: Row| x@).len() == checked@.map_values(
                |x: Row| x@,
            ).to_multiset().len());
        }
        let items = page_items(&sorted, limit, offset);
        proof {
            let sm = sorted@.map_values(|x: Row| x@);
            assert(rows_sorted(sm) && sm.to_multiset() == checked_rows(self@).to_multiset()
                && items@.map_values(|it: Item| it@) == page_of(
                sm,
                limit as int,
                offset as int,
            ).map_values(|rm: RowModel| row_item(rm)));
        }
        (items, total)
    }
}

/// What a listing page guarantees: the items are a page of the seen
/// records in listing order, and the total counts every seen record.
pub open spec fn spec_listing_post(
    m: CatalogModel,
    limit: int,
    offset: int,
    items: Seq<ItemModel>,
    total: int,
) -> bool {
    &&& exists|sorted: Seq<RowModel>|
        #![trigger page_of(sorted, limit, offset)]
        rows_sorted(sorted) && sorted.to_multiset() == checked_rows(m).to_multiset() && items
            == page_of(sorted, limit, offset).map_values(|rm: RowModel| row_item(rm))
    &&& total == if checked_rows(m).len() <= i64::MAX {
        checked_rows(m).len() as int
    } else {
        i64::MAX as int
    }
}

/// Projects the page `[offset, offset + limit)` of sorted records.
pub(crate) fn page_items(v: &Vec<Row>, limit: i64, offset: i64) -> (r: Vec<Item>)
    requires
        limit >= 0,
        offset >= 0,
    ensures
        r@.map_values(|it: Item| it@) == page_of(
            v@.map_values(|x: Row| x@),
            limit as int,
            offset as int,
        ).map_values(|rm: RowModel| row_item(rm)),
{
    let ghost vm = v@.map_values(|x: Row| x@);
    let n = v.len();
    let st: usize = if offset as u64 >= n as u64 {
        n
    } else {
        offset as usize
    };
    let remaining = n - st;
    let cnt: usize = if limit as u64 >= remaining as u64 {
        remaining
    } else {
        limit as usize
    };
    let mut out: Vec<Item> = Vec::new();
    let mut k: usize = 0;
    proof {
        assert(out@.map_values(|it: Item| it@) =~= Seq::<ItemModel>::empty());
        assert(vm.subrange(st as int, st as int) =~= Seq::<RowModel>::empty());
        assert(Seq::<RowModel>::empty().map_values(|rm: RowModel| row_item(rm)) =~= Seq::<
            ItemModel,
        >::empty());
    }
    while k < cnt
        invariant
            k <= cnt,
            st + cnt <= n,
            n == vm.len(),
            vm == v@.map_values(|x: Row| x@),
            out@.map_values(|it: Item| it@) == vm.subrange(st as int, st + k as int).map_values(
                |rm: RowModel| row_item(rm),
            ),
        decreases cnt - k,
    {
        let ghost om = out@.map_values(|it: Item| it@);
        let it = row_to_item(&v[st + k]);
        out.push(it);
        proof {
            assert(out@.map_values(|it2: Item| it2@) =~= om.push(row_item(vm[st + k as int])));
            assert(vm.subrange(st as int, st + (k + 1) as int) =~= vm.subrange(
                st as int,
                st + k as int,
            ).push(vm[st + k as int]));
            assert(vm.subrange(st as int, st + (k + 1) as int).map_values(
                |rm: RowModel| row_item(rm),
            ) =~= vm.subrange(st as int, st + k as int).map_values(|rm: RowModel| row_item(rm)).push(
                row_item(vm[st + k as int]),
            ));
        }
        k = k + 1;
    }
    proof {
        assert(page_of(vm, limit as int, offset as int) == vm.subrange(st as int, st + cnt as int));
    }
    out
}

} // verus!
