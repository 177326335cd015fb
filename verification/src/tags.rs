use vstd::prelude::*;

use crate::StoreError;

verus! {

/// One stored tag.
pub struct TagRow {
    pub id: i64,
    pub name: String,
    pub description: String,
}

/// The mathematical image of a `TagRow`.
pub struct TagRowModel {
    pub id: i64,
    pub name: Seq<char>,
    pub description: Seq<char>,
}

impl View for TagRow {
    type V = TagRowModel;

    open spec fn view(&self) -> TagRowModel {
        TagRowModel { id: self.id, name: self.name@, description: self.description@ }
    }
}

/// The detail view of a tag, with its direct dependencies joined into one
/// space-separated string (`None` when it has none).
pub struct Tag {
    pub id: i64,
    pub name: String,
    pub description: String,
    pub deps: Option<String>,
}

/// A tag name with the number of seen items carrying it.
pub struct TagCount {
    pub tag: String,
    pub count: i64,
}

/// The mathematical image of the tag graph.
pub struct TagGraphModel {
    pub tags: Seq<TagRowModel>,
    pub edges: Seq<(i64, i64)>,
    pub memberships: Seq<(i64, i64)>,
    pub next_id: int,
}

/// The tag graph: tags, directed dependency edges `(tag, dep)`, and
/// item-tag memberships `(item, tag)`.
pub struct TagGraph {
    tags: Vec<TagRow>,
    edges: Vec<(i64, i64)>,
    memberships: Vec<(i64, i64)>,
    next_id: i64,
}

impl View for TagGraph {
    type V = TagGraphModel;

    closed spec fn view(&self) -> TagGraphModel {
        TagGraphModel {
            tags: self.tags@.map_values(|t: TagRow| t@),
            edges: self.edges@,
            memberships: self.memberships@,
            next_id: self.next_id as int,
        }
    }
}

/// A tag with this id exists.
pub open spec fn has_tag_id(m: TagGraphModel, t: i64) -> bool {
    exists|i: int| 0 <= i < m.tags.len() && (#[trigger] m.tags[i]).id == t
}

/// A tag with this name exists.
pub open spec fn has_tag_name(m: TagGraphModel, name: Seq<char>) -> bool {
    exists|i: int| 0 <= i < m.tags.len() && (#[trigger] m.tags[i]).name == name
}

/// The name `name` names the tag id `t`.
pub open spec fn name_resolves(m: TagGraphModel, name: Seq<char>, t: i64) -> bool {
    exists|i: int|
        0 <= i < m.tags.len() && (#[trigger] m.tags[i]).name == name && m.tags[i].id == t
}

/// The dependency edge `(a, b)` exists: having tag `a` implies tag `b`.
pub open spec fn has_edge(m: TagGraphModel, a: i64, b: i64) -> bool {
    exists|k: int| 0 <= k < m.edges.len() && #[trigger] m.edges[k] == (a, b)
}

/// Item `item` carries tag `t`.
pub open spec fn has_memb(m: TagGraphModel, item: i64, t: i64) -> bool {
    exists|k: int| 0 <= k < m.memberships.len() && #[trigger] m.memberships[k] == (item, t)
}

/// Everything the tag graph keeps invariant: ids are positive and below the
/// fresh id, ids and names are distinct, edges and memberships are distinct
/// pairs, and every edge endpoint and membership tag exists.
pub open spec fn tag_graph_wf(m: TagGraphModel) -> bool {
    &&& 1 <= m.next_id
    &&& forall|i: int| 0 <= i < m.tags.len() ==> 1 <= (#[trigger] m.tags[i]).id < m.next_id
    &&& forall|i: int, j: int|
        0 <= i < j < m.tags.len() ==> (#[trigger] m.tags[i]).id != (#[trigger] m.tags[j]).id
    &&& forall|i: int, j: int|
        0 <= i < j < m.tags.len() ==> (#[trigger] m.tags[i]).name != (#[trigger] m.tags[j]).name
    &&& forall|k: int|
        0 <= k < m.edges.len() ==> has_tag_id(m, (#[trigger] m.edges[k]).0) && has_tag_id(
            m,
            m.edges[k].1,
        )
    &&& forall|k: int, l: int|
        0 <= k < l < m.edges.len() ==> (#[trigger] m.edges[k]) != (#[trigger] m.edges[l])
    &&& forall|k: int|
        0 <= k < m.memberships.len() ==> has_tag_id(m, (#[trigger] m.memberships[k]).1)
    &&& forall|k: int, l: int|
        0 <= k < l < m.memberships.len() ==> (#[trigger] m.memberships[k])
            != (#[trigger] m.memberships[l])
}

/// Index of the first tag satisfying `p`, or -1 if there is none.
pub open spec fn tag_first_where(tags: Seq<TagRowModel>, p: spec_fn(TagRowModel) -> bool) -> int
    decreases tags.len(),
{
    if tags.len() == 0 {
        -1
    } else if p(tags[0]) {
        0
    } else {
        let r = tag_first_where(tags.drop_first(), p);
        if r == -1 {
            -1
        } else {
            r + 1
        }
    }
}

pub proof fn lemma_tag_first_where_found(
    tags: Seq<TagRowModel>,
    p: spec_fn(TagRowModel) -> bool,
    i: int,
)
    requires
        0 <= i < tags.len(),
        p(tags[i]),
        forall|k: int| 0 <= k < i ==> !p(#[trigger] tags[k]),
    ensures
        tag_first_where(tags, p) == i,
    decreases i,
{
    if i > 0 {
        let t = tags.drop_first();
        assert forall|k: int| 0 <= k < i - 1 implies !p(#[trigger] t[k]) by {
            assert(t[k] == tags[k + 1]);
        }
        assert(t[i - 1] == tags[i]);
        lemma_tag_first_where_found(t, p, i - 1);
    }
}

pub proof fn lemma_tag_first_where_absent(tags: Seq<TagRowModel>, p: spec_fn(TagRowModel) -> bool)
    requires
        forall|k: int| 0 <= k < tags.len() ==> !p(#[trigger] tags[k]),
    ensures
        tag_first_where(tags, p) == -1,
    decreases tags.len(),
{
    if tags.len() > 0 {
        let t = tags.drop_first();
        assert forall|k: int| 0 <= k < t.len() implies !p(#[trigger] t[k]) by {
            assert(t[k] == tags[k + 1]);
        }
        lemma_tag_first_where_absent(t, p);
    }
}

/// Index of the tag named `name`, or -1.
pub open spec fn tag_idx_by_name(tags: Seq<TagRowModel>, name: Seq<char>) -> int {
    tag_first_where(tags, |t: TagRowModel| t.name == name)
}

/// Index of the tag with id `id`, or -1.
pub open spec fn tag_idx_by_id(tags: Seq<TagRowModel>, id: i64) -> int {
    tag_first_where(tags, |t: TagRowModel| t.id == id)
}

/// Creating a missing tag: the graph after making sure `name` names a tag.
/// An empty name, a name already present, or a spent id space leave the
/// graph unchanged.
pub open spec fn spec_ensure_tag(m: TagGraphModel, name: Seq<char>) -> TagGraphModel {
    if name.len() == 0 || has_tag_name(m, name) || m.next_id >= i64::MAX {
        m
    } else {
        TagGraphModel {
            tags: m.tags.push(
                TagRowModel { id: m.next_id as i64, name, description: Seq::empty() },
            ),
            next_id: m.next_id + 1,
            ..m
        }
    }
}

/// Making sure `name` names a tag succeeds unless a fresh id would be needed
/// and the id space is spent.
pub open spec fn spec_ensure_tag_ok(m: TagGraphModel, name: Seq<char>) -> bool {
    name.len() == 0 || has_tag_name(m, name) || m.next_id < i64::MAX
}

impl TagGraph {
    /// The tag-graph invariant, stated over the view.
    pub open spec fn wf(&self) -> bool {
        tag_graph_wf(self@)
    }

    /// An empty tag graph.
    pub fn new() -> (r: TagGraph)
        ensures
            r.wf(),
            r@.tags == Seq::<TagRowModel>::empty(),
            r@.edges == Seq::<(i64, i64)>::empty(),
            r@.memberships == Seq::<(i64, i64)>::empty(),
            r@.next_id == 1,
    {
        let r = TagGraph { tags: Vec::new(), edges: Vec::new(), memberships: Vec::new(), next_id: 1 };
        proof {
            assert(r@.tags =~= Seq::<TagRowModel>::empty());
        }
        r
    }

    fn find_tag_by_name(&self, name: &str) -> (r: Option<usize>)
        ensures
            match r {
                Some(i) => tag_idx_by_name(self@.tags, name@) == i && i < self@.tags.len()
                    && self@.tags[i as int].name == name@,
                None => tag_idx_by_name(self@.tags, name@) == -1 && !has_tag_name(self@, name@),
            },
    {
        let n = self.tags.len();
        let mut i: usize = 0;
        while i < n
            invariant
                i <= n,
                n == self@.tags.len(),
                forall|k: int| 0 <= k < i ==> (#[trigger] self@.tags[k]).name != name@,
            decreases n - i,
        {
            if crate::text::str_eq(self.tags[i].name.as_str(), name) {
                proof {
                    lemma_tag_first_where_found(
                        self@.tags,
                        |t: TagRowModel| t.name == name@,
                        i as int,
                    );
                }
                return Some(i);
            }
            i = i + 1;
        }
        proof {
            lemma_tag_first_where_absent(self@.tags, |t: TagRowModel| t.name == name@);
        }
        None
    }

    fn find_tag_by_id(&self, id: i64) -> (r: Option<usize>)
        ensures
            match r {
                Some(i) => tag_idx_by_id(self@.tags, id) == i && i < self@.tags.len()
                    && self@.tags[i as int].id == id,
                None => tag_idx_by_id(self@.tags, id) == -1 && !has_tag_id(self@, id),
            },
    {
        let n = self.tags.len();
        let mut i: usize = 0;
        while i < n
            invariant
                i <= n,
                n == self@.tags.len(),
                forall|k: int| 0 <= k < i ==> (#[trigger] self@.tags[k]).id != id,
            decreases n - i,
        {
            if self.tags[i].id == id {
                proof {
                    lemma_tag_first_where_found(self@.tags, |t: TagRowModel| t.id == id, i as int);
                }
                return Some(i);
            }
            i = i + 1;
        }
        proof {
            lemma_tag_first_where_absent(self@.tags, |t: TagRowModel| t.id == id);
        }
        None
    }

    /// Makes sure a tag named `name` exists and reports its id.  An empty
    /// name is refused with `NotFound`; a fresh tag cannot be created once
    /// the id space is spent.
    fn ensure_tag(&mut self, name: &str) -> (r: Result<i64, StoreError>)
        requires
            old(self).wf(),
        ensures
            final(self).wf(),
            final(self)@ == spec_ensure_tag(old(self)@, name@),
            name@.len() == 0 ==> r == Err::<i64, StoreError>(StoreError::NotFound),
            name@.len() > 0 ==> match r {
                Ok(id) => spec_ensure_tag_ok(old(self)@, name@) && name_resolves(
                    final(self)@,
                    name@,
                    id,
                ),
                Err(e) => e == StoreError::CapacityExhausted && !spec_ensure_tag_ok(
                    old(self)@,
                    name@,
                ),
            },
    {
        let ghost m0 = self@;
        if name.unicode_len() == 0 {
            return Err(StoreError::NotFound);
        }
        match self.find_tag_by_name(name) {
            Some(i) => {
                let id = self.tags[i].id;
                proof {
                    assert(has_tag_name(m0, name@));
                    assert(name_resolves(self@, name@, id));
                }
                Ok(id)
            },
            None => {
                if self.next_id == i64::MAX {
                    return Err(StoreError::CapacityExhausted);
                }
                let id = self.next_id;
                self.tags.push(TagRow { id, name: name.to_owned(), description: String::new() });
                self.next_id = id + 1;
                proof {
                    assert(self@.tags =~= m0.tags.push(
                        TagRowModel { id, name: name@, description: Seq::empty() },
                    ));
                    let ts = self@.tags;
                    let n = m0.tags.len() as int;
                    assert forall|k: int| 0 <= k < ts.len() implies 1 <= (#[trigger] ts[k]).id
                        < self@.next_id by {
                        if k < n {
                            assert(ts[k] == m0.tags[k]);
                        }
                    }
                    assert forall|a: int, b: int| 0 <= a < b < ts.len() implies (#[trigger] ts[a]).id
                        != (#[trigger] ts[b]).id by {
                        if b == n {
                            assert(ts[a].id == m0.tags[a].id < m0.next_id);
                        }
                    }
                    assert forall|a: int, b: int| 0 <= a < b < ts.len() implies (
                    #[trigger] ts[a]).name != (#[trigger] ts[b]).name by {
                        if b == n {
                            assert(m0.tags[a].name != name@);
                        }
                    }
                    assert forall|k: int| 0 <= k < self@.edges.len() implies has_tag_id(
                        self@,
                        (#[trigger] self@.edges[k]).0,
                    ) && has_tag_id(self@, self@.edges[k].1) by {
                        lemma_has_tag_id_grow(m0, self@, m0.edges[k].0);
                        lemma_has_tag_id_grow(m0, self@, m0.edges[k].1);
                    }
                    assert forall|k: int| 0 <= k < self@.memberships.len() implies has_tag_id(
                        self@,
                        (#[trigger] self@.memberships[k]).1,
                    ) by {
                        lemma_has_tag_id_grow(m0, self@, m0.memberships[k].1);
                    }
                    assert(self@.edges == m0.edges);
                    assert(self@.memberships == m0.memberships);
                    assert(name_resolves(self@, name@, id)) by {
                        assert(self@.tags[n].name == name@ && self@.tags[n].id == id);
                    }
                    assert(tag_graph_wf(self@));
                }
                Ok(id)
            },
        }
    }

    /// Creates the tag if it is missing, like the insert-or-ignore of the
    /// tag endpoint.  An empty name is deliberately refused with `NotFound`
    /// rather than stored: a tag nobody can address is of no use.
    pub fn add_tag(&mut self, name: &str) -> (r: Result<(), StoreError>)
        requires
            old(self).wf(),
        ensures
            final(self).wf(),
            final(self)@ == spec_ensure_tag(old(self)@, name@),
            name@.len() == 0 ==> r == Err::<(), StoreError>(StoreError::NotFound),
            name@.len() > 0 ==> match r {
                Ok(()) => spec_ensure_tag_ok(old(self)@, name@) && has_tag_name(final(self)@, name@),
                Err(e) => e == StoreError::CapacityExhausted && !spec_ensure_tag_ok(
                    old(self)@,
                    name@,
                ),
            },
    {
        match self.ensure_tag(name) {
            Ok(id) => {
                proof {
                    assert(name@.len() > 0 ==> name_resolves(self@, name@, id));
                }
                Ok(())
            },
            Err(e) => Err(e),
        }
    }
}

/// A tag id present before new tags were appended is still present.
proof fn lemma_has_tag_id_grow(m0: TagGraphModel, m1: TagGraphModel, t: i64)
    requires
        has_tag_id(m0, t),
        m0.tags.len() <= m1.tags.len(),
        forall|k: int| 0 <= k < m0.tags.len() ==> #[trigger] m1.tags[k] == m0.tags[k],
    ensures
        has_tag_id(m1, t),
{
    let i = choose|i: int| 0 <= i < m0.tags.len() && (#[trigger] m0.tags[i]).id == t;
    assert(m1.tags[i].id == t);
}

} // verus!

verus! {

/// A path through dependency edges: consecutive entries are linked.
pub open spec fn is_path(m: TagGraphModel, p: Seq<i64>) -> bool {
    p.len() >= 1 && forall|k: int| 0 <= k < p.len() - 1 ==> has_edge(m, #[trigger] p[k], p[k + 1])
}

/// Tag `t` lies in the dependency closure of the id set `init`: some path
/// through dependency edges starts in `init` and ends at `t`.  Every tag of
/// `init` is in the closure of `init`.
pub open spec fn reachable(m: TagGraphModel, init: Seq<i64>, t: i64) -> bool {
    exists|p: Seq<i64>| is_path(m, p) && init.contains(p[0]) && p.last() == t
}

/// Membership of a pushed sequence.
proof fn lemma_contains_push(s: Seq<i64>, x: i64, y: i64)
    ensures
        s.push(x).contains(y) <==> (s.contains(y) || y == x),
{
    if s.contains(y) {
        let i = choose|i: int| 0 <= i < s.len() && s[i] == y;
        assert(s.push(x)[i] == y);
    }
    if y == x {
        assert(s.push(x)[s.len() as int] == y);
    }
    if s.push(x).contains(y) {
        let i = choose|i: int| 0 <= i < s.push(x).len() && s.push(x)[i] == y;
        if i < s.len() {
            assert(s[i] == y);
        }
    }
}

/// Every member of `init` is reachable from `init`.
pub proof fn lemma_reach_refl(m: TagGraphModel, init: Seq<i64>, t: i64)
    requires
        init.contains(t),
    ensures
        reachable(m, init, t),
{
    let p = seq![t];
    assert(is_path(m, p) && init.contains(p[0]) && p.last() == t);
}

/// Reachability follows dependency edges.
pub proof fn lemma_reach_step(m: TagGraphModel, init: Seq<i64>, a: i64, b: i64)
    requires
        reachable(m, init, a),
        has_edge(m, a, b),
    ensures
        reachable(m, init, b),
{
    let p = choose|p: Seq<i64>| is_path(m, p) && init.contains(p[0]) && p.last() == a;
    let p2 = p.push(b);
    assert forall|k: int| 0 <= k < p2.len() - 1 implies has_edge(m, #[trigger] p2[k], p2[k + 1]) by {
        if k < p.len() - 1 {
            assert(p2[k] == p[k] && p2[k + 1] == p[k + 1]);
        } else {
            assert(p2[k] == p.last() && p2[k + 1] == b);
        }
    }
    assert(is_path(m, p2) && init.contains(p2[0]) && p2.last() == b);
}

/// Walking a path out of a set closed under dependency edges is impossible.
proof fn lemma_path_stays(m: TagGraphModel, p: Seq<i64>, visited: Seq<i64>)
    requires
        is_path(m, p),
        visited.contains(p[0]),
        forall|a: i64, b: i64|
            visited.contains(a) && #[trigger] has_edge(m, a, b) ==> visited.contains(b),
    ensures
        visited.contains(p.last()),
    decreases p.len(),
{
    if p.len() == 1 {
    } else {
        let q = p.drop_first();
        assert(has_edge(m, p[0], p[1]));
        assert(visited.contains(p[1]));
        assert forall|k: int| 0 <= k < q.len() - 1 implies has_edge(m, #[trigger] q[k], q[k + 1]) by {
            assert(q[k] == p[k + 1] && q[k + 1] == p[k + 2]);
        }
        assert(q[0] == p[1]);
        lemma_path_stays(m, q, visited);
        assert(q.last() == p.last());
    }
}

/// A set that contains `init` and is closed under dependency edges contains
/// the whole closure of `init`.
pub proof fn lemma_closed_reach(m: TagGraphModel, init: Seq<i64>, visited: Seq<i64>, t: i64)
    requires
        reachable(m, init, t),
        forall|x: i64| init.contains(x) ==> visited.contains(x),
        forall|a: i64, b: i64|
            visited.contains(a) && #[trigger] has_edge(m, a, b) ==> visited.contains(b),
    ensures
        visited.contains(t),
{
    let p = choose|p: Seq<i64>| is_path(m, p) && init.contains(p[0]) && p.last() == t;
    lemma_path_stays(m, p, visited);
}

/// How many stored tags are not yet in `visited`: the strictly decreasing
/// measure of the closure walk.
pub open spec fn count_unvisited(tags: Seq<TagRowModel>, visited: Seq<i64>) -> nat
    decreases tags.len(),
{
    if tags.len() == 0 {
        0
    } else {
        count_unvisited(tags.drop_last(), visited) + if visited.contains(tags.last().id) {
            0nat
        } else {
            1nat
        }
    }
}

proof fn lemma_count_push_le(tags: Seq<TagRowModel>, visited: Seq<i64>, x: i64)
    ensures
        count_unvisited(tags, visited.push(x)) <= count_unvisited(tags, visited),
    decreases tags.len(),
{
    if tags.len() > 0 {
        lemma_count_push_le(tags.drop_last(), visited, x);
        lemma_contains_push(visited, x, tags.last().id);
    }
}

proof fn lemma_count_push_strict(tags: Seq<TagRowModel>, visited: Seq<i64>, x: i64)
    requires
        exists|j: int| 0 <= j < tags.len() && (#[trigger] tags[j]).id == x,
        !visited.contains(x),
    ensures
        count_unvisited(tags, visited.push(x)) < count_unvisited(tags, visited),
    decreases tags.len(),
{
    let j = choose|j: int| 0 <= j < tags.len() && (#[trigger] tags[j]).id == x;
    lemma_contains_push(visited, x, tags.last().id);
    if j == tags.len() - 1 {
        lemma_count_push_le(tags.drop_last(), visited, x);
        assert(visited.push(x).contains(tags.last().id));
    } else {
        assert(tags.drop_last()[j] == tags[j]);
        lemma_count_push_strict(tags.drop_last(), visited, x);
    }
}

fn vec_contains_i64(v: &Vec<i64>, x: i64) -> (r: bool)
    ensures
        r == v@.contains(x),
{
    let n = v.len();
    let mut i: usize = 0;
    while i < n
        invariant
            i <= n,
            n == v@.len(),
            forall|k: int| 0 <= k < i ==> v@[k] != x,
        decreases n - i,
    {
        if v[i] == x {
            return true;
        }
        i = i + 1;
    }
    false
}

impl TagGraph {
    fn insert_membership(&mut self, item: i64, t: i64)
        requires
            old(self).wf(),
            has_tag_id(old(self)@, t),
        ensures
            final(self).wf(),
            final(self)@.tags == old(self)@.tags,
            final(self)@.edges == old(self)@.edges,
            final(self)@.next_id == old(self)@.next_id,
            final(self)@.memberships == if has_memb(old(self)@, item, t) {
                old(self)@.memberships
            } else {
                old(self)@.memberships.push((item, t))
            },
    {
        let ghost m0 = self@;
        let n = self.memberships.len();
        let mut i: usize = 0;
        while i < n
            invariant
                i <= n,
                n == self@.memberships.len(),
                self@ == m0,
                m0 == old(self)@,
                tag_graph_wf(m0),
                forall|k: int| 0 <= k < i ==> #[trigger] self@.memberships[k] != (item, t),
            decreases n - i,
        {
            let pair = self.memberships[i];
            if pair.0 == item && pair.1 == t {
                proof {
                    assert(self@.memberships[i as int] == (item, t));
                    assert(has_memb(self@, item, t));
                }
                return ;
            }
            i = i + 1;
        }
        self.memberships.push((item, t));
        proof {
            assert(!has_memb(m0, item, t));
            assert(self@.tags == m0.tags);
            assert(self@.edges == m0.edges);
            let ms = self@.memberships;
            let nn = m0.memberships.len() as int;
            assert forall|k: int| 0 <= k < ms.len() implies has_tag_id(
                self@,
                (#[trigger] ms[k]).1,
            ) by {
                if k < nn {
                    assert(ms[k] == m0.memberships[k]);
                    assert(has_tag_id(m0, m0.memberships[k].1));
                    lemma_has_tag_id_grow(m0, self@, m0.memberships[k].1);
                } else {
                    assert(ms[k] == (item, t));
                    lemma_has_tag_id_grow(m0, self@, t);
                }
            }
            assert forall|k: int| 0 <= k < self@.edges.len() implies has_tag_id(
                self@,
                (#[trigger] self@.edges[k]).0,
            ) && has_tag_id(self@, self@.edges[k].1) by {
                assert(has_tag_id(m0, m0.edges[k].0) && has_tag_id(m0, m0.edges[k].1));
                lemma_has_tag_id_grow(m0, self@, m0.edges[k].0);
                lemma_has_tag_id_grow(m0, self@, m0.edges[k].1);
            }
            assert forall|k: int, l: int| 0 <= k < l < ms.len() implies (#[trigger] ms[k])
                != (#[trigger] ms[l]) by {
                if l == nn {
                    assert(ms[k] == m0.memberships[k]);
                }
            }
            assert(tag_graph_wf(self@));
        }
    }

    /// Attaches to `item` every tag of `ids` together with the whole
    /// dependency closure of `ids`: afterwards `item` carries a tag exactly
    /// when it already carried it or the tag is reachable from `ids` through
    /// dependency edges.  Memberships of other items, the tags and the edges
    /// are untouched.  The walk terminates on every graph, cycles included:
    /// a tag is expanded only once, so the unvisited tags strictly shrink.
    /// Attaches tag `t` to `item` and pushes every direct dependency of `t`
    /// onto the worklist.
    fn expand_tag(&mut self, item: i64, t: i64, worklist: &mut Vec<i64>, Ghost(init): Ghost<
        Seq<i64>,
    >)
        requires
            old(self).wf(),
            has_tag_id(old(self)@, t),
            reachable(old(self)@, init, t),
            forall|k: int|
                0 <= k < old(worklist)@.len() ==> has_tag_id(old(self)@, #[trigger] old(worklist)@[k])
                    && reachable(old(self)@, init, old(worklist)@[k]),
        ensures
            final(self).wf(),
            final(self)@.tags == old(self)@.tags,
            final(self)@.edges == old(self)@.edges,
            final(self)@.next_id == old(self)@.next_id,
            forall|tt: i64|
                #[trigger] has_memb(final(self)@, item, tt) <==> (has_memb(old(self)@, item, tt)
                    || tt == t),
            forall|it: i64, tt: i64|
                it != item ==> (#[trigger] has_memb(final(self)@, it, tt) <==> has_memb(
                    old(self)@,
                    it,
                    tt,
                )),
            forall|k: int|
                0 <= k < final(worklist)@.len() ==> has_tag_id(old(self)@, #[trigger] final(worklist)@[k])
                    && reachable(old(self)@, init, final(worklist)@[k]),
            forall|x: i64|
                old(worklist)@.contains(x) ==> final(worklist)@.contains(x),
            forall|b: i64| #[trigger] has_edge(old(self)@, t, b) ==> final(worklist)@.contains(b),
    {
        let ghost m0 = self@;
        let ghost wl0 = worklist@;
        self.insert_membership(item, t);
        proof {
            assert forall|tt: i64| #[trigger] has_memb(self@, item, tt) implies (has_memb(
                m0,
                item,
                tt,
            ) || tt == t) by {
                if !has_memb(m0, item, tt) {
                    let k = choose|k: int|
                        0 <= k < self@.memberships.len() && #[trigger] self@.memberships[k] == (
                            item,
                            tt,
                        );
                    assert(k == m0.memberships.len());
                }
            }
            assert forall|tt: i64| (has_memb(m0, item, tt) || tt == t) implies #[trigger] has_memb(
                self@,
                item,
                tt,
            ) by {
                if has_memb(m0, item, tt) {
                    let k = choose|k: int|
                        0 <= k < m0.memberships.len() && #[trigger] m0.memberships[k] == (item, tt);
                    assert(self@.memberships[k] == (item, tt));
                } else {
                    if !has_memb(m0, item, t) {
                        assert(self@.memberships.last() == (item, t));
                    }
                }
            }
            assert forall|it: i64, tt: i64| it != item implies (#[trigger] has_memb(
                self@,
                it,
                tt,
            ) <==> has_memb(m0, it, tt)) by {
                if has_memb(self@, it, tt) {
                    let k = choose|k: int|
                        0 <= k < self@.memberships.len() && #[trigger] self@.memberships[k] == (
                            it,
                            tt,
                        );
                    if k < m0.memberships.len() {
                        assert(m0.memberships[k] == (it, tt));
                    }
                }
                if has_memb(m0, it, tt) {
                    let k = choose|k: int|
                        0 <= k < m0.memberships.len() && #[trigger] m0.memberships[k] == (it, tt);
                    assert(self@.memberships[k] == (it, tt));
                }
            }
        }
        let ne = self.edges.len();
        let mut e: usize = 0;
        while e < ne
            invariant
                e <= ne,
                ne == self@.edges.len(),
                self.wf(),
                self@ == final(self)@,
                self@.edges == m0.edges,
                self@.tags == m0.tags,
                tag_graph_wf(m0),
                reachable(m0, init, t),
                forall|k: int|
                    0 <= k < worklist@.len() ==> has_tag_id(m0, #[trigger] worklist@[k])
                        && reachable(m0, init, worklist@[k]),
                forall|x: i64| wl0.contains(x) ==> worklist@.contains(x),
                forall|j: int|
                    0 <= j < e && (#[trigger] self@.edges[j]).0 == t ==> worklist@.contains(
                        self@.edges[j].1,
                    ),
            decreases ne - e,
        {
            let edge = self.edges[e];
            if edge.0 == t {
                let ghost wl1 = worklist@;
                worklist.push(edge.1);
                proof {
                    assert(has_edge(m0, t, edge.1)) by {
                        assert(m0.edges[e as int] == (t, edge.1));
                    }
                    lemma_reach_step(m0, init, t, edge.1);
                    assert(has_tag_id(m0, edge.1));
                    assert forall|x: i64| #[trigger] wl1.contains(x) implies worklist@.contains(
                        x,
                    ) by {
                        lemma_contains_push(wl1, edge.1, x);
                    }
                    assert(worklist@.contains(edge.1)) by {
                        assert(worklist@[wl1.len() as int] == edge.1);
                    }
                    assert forall|k: int| 0 <= k < worklist@.len() implies has_tag_id(
                        m0,
                        #[trigger] worklist@[k],
                    ) && reachable(m0, init, worklist@[k]) by {
                        if k < wl1.len() {
                            assert(worklist@[k] == wl1[k]);
                        } else {
                            assert(worklist@[k] == edge.1);
                        }
                    }
                }
            }
            e = e + 1;
        }
        proof {
            assert forall|b: i64| #[trigger] has_edge(m0, t, b) implies worklist@.contains(b) by {
                let j = choose|j: int| 0 <= j < m0.edges.len() && #[trigger] m0.edges[j] == (t, b);
                assert(self@.edges[j].0 == t && self@.edges[j].1 == b);
            }
        }
    }

    /// Attaches to `item` every tag of `ids` together with the whole
    /// dependency closure of `ids`: afterwards `item` carries a tag exactly
    /// when it already carried it or the tag is reachable from `ids` through
    /// dependency edges.  Memberships of other items, the tags and the edges
    /// are untouched.  The walk terminates on every graph, cycles included:
    /// a tag is expanded only once, so the unvisited tags strictly shrink.
    #[verifier::rlimit(100)]
    #[verifier::spinoff_prover]
    pub fn attach_tag_ids(&mut self, item: i64, ids: &Vec<i64>)
        requires
            old(self).wf(),
            forall|k: int| 0 <= k < ids@.len() ==> has_tag_id(old(self)@, #[trigger] ids@[k]),
        ensures
            final(self).wf(),
            final(self)@.tags == old(self)@.tags,
            final(self)@.edges == old(self)@.edges,
            final(self)@.next_id == old(self)@.next_id,
            forall|t: i64|
                #[trigger] has_memb(final(self)@, item, t) <==> (has_memb(old(self)@, item, t)
                    || reachable(old(self)@, ids@, t)),
            forall|it: i64, t: i64|
                it != item ==> (#[trigger] has_memb(final(self)@, it, t) <==> has_memb(
                    old(self)@,
                    it,
                    t,
                )),
    {
        let ghost m0 = self@;
        let mut worklist: Vec<i64> = Vec::new();
        let nids = ids.len();
        let mut k: usize = 0;
        while k < nids
            invariant
                k <= nids,
                nids == ids@.len(),
                worklist@ == ids@.take(k as int),
            decreases nids - k,
        {
            worklist.push(ids[k]);
            proof {
                assert(ids@.take(k + 1 as int) =~= ids@.take(k as int).push(ids@[k as int]));
            }
            k = k + 1;
        }
        proof {
            assert(ids@.take(nids as int) =~= ids@);
            assert forall|k: int| 0 <= k < worklist@.len() implies has_tag_id(
                m0,
                #[trigger] worklist@[k],
            ) && reachable(m0, ids@, worklist@[k]) by {
                assert(ids@.contains(ids@[k]));
                lemma_reach_refl(m0, ids@, ids@[k]);
            }
        }
        let mut visited: Vec<i64> = Vec::new();
        while worklist.len() > 0
            invariant
                self.wf(),
                tag_graph_wf(m0),
                m0 == old(self)@,
                self@.tags == m0.tags,
                self@.edges == m0.edges,
                self@.next_id == m0.next_id,
                forall|k: int|
                    0 <= k < worklist@.len() ==> has_tag_id(m0, #[trigger] worklist@[k])
                        && reachable(m0, ids@, worklist@[k]),
                forall|k: int|
                    0 <= k < visited@.len() ==> has_tag_id(m0, #[trigger] visited@[k]) && reachable(
                        m0,
                        ids@,
                        visited@[k],
                    ),
                forall|t: i64|
                    #[trigger] has_memb(self@, item, t) <==> (has_memb(m0, item, t)
                        || visited@.contains(t)),
                forall|it: i64, t: i64|
                    it != item ==> (#[trigger] has_memb(self@, it, t) <==> has_memb(m0, it, t)),
                forall|x: i64| ids@.contains(x) ==> visited@.contains(x) || worklist@.contains(x),
                forall|a: i64, b: i64|
                    visited@.contains(a) && #[trigger] has_edge(m0, a, b) ==> visited@.contains(b)
                        || worklist@.contains(b),
            decreases count_unvisited(m0.tags, visited@), worklist@.len(),
        {
            let ghost wl0 = worklist@;
            let ghost vis0 = visited@;
            let ghost s1 = self@;
            let t = worklist.pop().unwrap();
            proof {
                assert(wl0.contains(t)) by {
                    assert(wl0[wl0.len() - 1] == t);
                }
                assert forall|x: i64|
                    #[trigger] wl0.contains(x) && x != t implies worklist@.contains(x) by {
                    let i = choose|i: int| 0 <= i < wl0.len() && wl0[i] == x;
                    if i < wl0.len() - 1 {
                        assert(worklist@[i] == x);
                    } else {
                        assert(false);
                    }
                }
            }
            if !vec_contains_i64(&visited, t) {
                let ghost wl2 = worklist@;
                self.expand_tag(item, t, &mut worklist, Ghost(ids@));
                visited.push(t);
                proof {
                    lemma_count_push_strict(m0.tags, vis0, t);
                    assert forall|tt: i64| #[trigger] has_memb(self@, item, tt) <==> (has_memb(
                        m0,
                        item,
                        tt,
                    ) || visited@.contains(tt)) by {
                        lemma_contains_push(vis0, t, tt);
                    }
                    assert forall|x: i64|
                        ids@.contains(x) implies visited@.contains(x) || worklist@.contains(x) by {
                        lemma_contains_push(vis0, t, x);
                        if !vis0.contains(x) && x != t && wl0.contains(x) {
                            assert(wl2.contains(x));
                        }
                    }
                    assert forall|a: i64, b: i64|
                        visited@.contains(a) && #[trigger] has_edge(m0, a, b) implies
                        visited@.contains(b) || worklist@.contains(b) by {
                        lemma_contains_push(vis0, t, a);
                        lemma_contains_push(vis0, t, b);
                        if a == t {
                            assert(has_edge(s1, t, b)) by {
                                let j = choose|j: int|
                                    0 <= j < m0.edges.len() && #[trigger] m0.edges[j] == (a, b);
                                assert(s1.edges[j] == (t, b));
                            }
                            assert(worklist@.contains(b));
                        } else {
                            assert(vis0.contains(a));
                            if !vis0.contains(b) && b != t && wl0.contains(b) {
                                assert(wl2.contains(b));
                                assert(worklist@.contains(b));
                            }
                        }
                    }
                }
            } else {
                proof {
                    assert forall|x: i64|
                        ids@.contains(x) implies visited@.contains(x) || worklist@.contains(x) by {
                        if wl0.contains(x) && x != t {
                            assert(worklist@.contains(x));
                        }
                    }
                    assert forall|a: i64, b: i64|
                        visited@.contains(a) && #[trigger] has_edge(m0, a, b) implies
                        visited@.contains(b) || worklist@.contains(b) by {
                        if wl0.contains(b) && b != t {
                            assert(worklist@.contains(b));
                        }
                    }
                }
            }
        }
        proof {
            assert forall|x: i64| ids@.contains(x) implies visited@.contains(x) by {
                assert(!worklist@.contains(x) || visited@.contains(x)) by {
                    if worklist@.contains(x) {
                        let i = choose|i: int| 0 <= i < worklist@.len() && worklist@[i] == x;
                    }
                }
            }
            assert forall|a: i64, b: i64|
                visited@.contains(a) && #[trigger] has_edge(m0, a, b) implies visited@.contains(
                    b,
                ) by {
                if worklist@.contains(b) {
                    let i = choose|i: int| 0 <= i < worklist@.len() && worklist@[i] == b;
                }
            }
            assert forall|t: i64| #[trigger] has_memb(self@, item, t) <==> (has_memb(m0, item, t)
                || reachable(m0, ids@, t)) by {
                if has_memb(self@, item, t) {
                    if !has_memb(m0, item, t) {
                        assert(visited@.contains(t));
                        let i = choose|i: int| 0 <= i < visited@.len() && visited@[i] == t;
                        assert(reachable(m0, ids@, t));
                    }
                }
                if reachable(m0, ids@, t) {
                    lemma_closed_reach(m0, ids@, visited@, t);
                }
            }
        }
    }
}

} // verus!

verus! {

/// The graph after making sure every name in `names` names a tag, in order.
pub open spec fn spec_ensure_tags(m: TagGraphModel, names: Seq<Seq<char>>) -> TagGraphModel
    decreases names.len(),
{
    if names.len() == 0 {
        m
    } else {
        spec_ensure_tags(spec_ensure_tag(m, names[0]), names.drop_first())
    }
}

/// Making sure every name in `names` names a tag succeeds throughout.
pub open spec fn spec_ensure_tags_ok(m: TagGraphModel, names: Seq<Seq<char>>) -> bool
    decreases names.len(),
{
    if names.len() == 0 {
        true
    } else {
        spec_ensure_tag_ok(m, names[0]) && spec_ensure_tags_ok(
            spec_ensure_tag(m, names[0]),
            names.drop_first(),
        )
    }
}

/// Tag `t` is reachable through dependency edges from some tag that one of
/// the non-empty `names` names.
pub open spec fn reachable_names(m: TagGraphModel, names: Seq<Seq<char>>, t: i64) -> bool {
    exists|p: Seq<i64>|
        #![trigger is_path(m, p)]
        is_path(m, p) && (exists|k: int|
            0 <= k < names.len() && (#[trigger] names[k]).len() > 0 && name_resolves(
                m,
                names[k],
                p[0],
            )) && p.last() == t
}

/// Folding one more name equals ensuring it after the fold.
proof fn lemma_ensure_tags_snoc(m: TagGraphModel, names: Seq<Seq<char>>, x: Seq<char>)
    ensures
        spec_ensure_tags(m, names.push(x)) == spec_ensure_tag(spec_ensure_tags(m, names), x),
        spec_ensure_tags_ok(m, names.push(x)) == (spec_ensure_tags_ok(m, names)
            && spec_ensure_tag_ok(spec_ensure_tags(m, names), x)),
    decreases names.len(),
{
    if names.len() == 0 {
        assert(names.push(x)[0] == x);
        assert(names.push(x).drop_first() =~= Seq::<Seq<char>>::empty());
        assert(spec_ensure_tags(m, names.push(x)) == spec_ensure_tags(
            spec_ensure_tag(m, x),
            Seq::<Seq<char>>::empty(),
        ));
        assert(spec_ensure_tags(m, names) == m);
        assert(spec_ensure_tags_ok(m, names.push(x)) == (spec_ensure_tag_ok(m, x)
            && spec_ensure_tags_ok(spec_ensure_tag(m, x), Seq::<Seq<char>>::empty())));
    } else {
        let m1 = spec_ensure_tag(m, names[0]);
        assert(names.push(x)[0] == names[0]);
        assert(names.push(x).drop_first() =~= names.drop_first().push(x));
        lemma_ensure_tags_snoc(m1, names.drop_first(), x);
        assert(spec_ensure_tags(m, names.push(x)) == spec_ensure_tags(
            m1,
            names.drop_first().push(x),
        ));
        assert(spec_ensure_tags(m, names) == spec_ensure_tags(m1, names.drop_first()));
        assert(spec_ensure_tags_ok(m, names.push(x)) == (spec_ensure_tag_ok(m, names[0])
            && spec_ensure_tags_ok(m1, names.drop_first().push(x))));
        assert(spec_ensure_tags_ok(m, names) == (spec_ensure_tag_ok(m, names[0])
            && spec_ensure_tags_ok(m1, names.drop_first())));
    }
}

/// Ensuring a tag preserves every resolution and only appends tags.
proof fn lemma_ensure_tag_monotone(m: TagGraphModel, x: Seq<char>)
    ensures
        m.tags.len() <= spec_ensure_tag(m, x).tags.len(),
        forall|k: int|
            0 <= k < m.tags.len() ==> #[trigger] spec_ensure_tag(m, x).tags[k] == m.tags[k],
        spec_ensure_tag(m, x).edges == m.edges,
        spec_ensure_tag(m, x).memberships == m.memberships,
        m.next_id <= spec_ensure_tag(m, x).next_id,
        forall|n: Seq<char>, t: i64|
            #[trigger] name_resolves(m, n, t) ==> name_resolves(spec_ensure_tag(m, x), n, t),
{
    let m2 = spec_ensure_tag(m, x);
    assert forall|n: Seq<char>, t: i64| #[trigger] name_resolves(m, n, t) implies name_resolves(
        m2,
        n,
        t,
    ) by {
        let i = choose|i: int|
            0 <= i < m.tags.len() && (#[trigger] m.tags[i]).name == n && m.tags[i].id == t;
        assert(m2.tags[i] == m.tags[i]);
    }
}

impl TagGraph {
    /// Attaches the named tags to `item`, creating missing tags first, and
    /// then attaches the whole dependency closure of those tags.  Empty
    /// names are skipped.  Afterwards `item` carries a tag exactly when it
    /// already carried it or the tag is reachable from a named tag; other
    /// items and the dependency edges are untouched.  Fails with
    /// `CapacityExhausted` if and only if a missing tag cannot be created
    /// because the id space is spent; memberships are then unchanged.
    /// Makes sure every non-empty name in `tags` names a tag and reports
    /// the resolved ids.  The ghost results locate, for each id, the name it
    /// resolves, and for each non-empty name, the id it resolved to.
    #[verifier::rlimit(50)]
    fn ensure_tags_for(&mut self, tags: &Vec<String>) -> (r: (
        Result<Vec<i64>, StoreError>,
        Ghost<Seq<int>>,
        Ghost<Seq<int>>,
    ))
        requires
            old(self).wf(),
        ensures
            final(self).wf(),
            final(self)@.edges == old(self)@.edges,
            final(self)@.memberships == old(self)@.memberships,
            old(self)@.tags.len() <= final(self)@.tags.len(),
            old(self)@.tags == final(self)@.tags.take(old(self)@.tags.len() as int),
            match r.0 {
                Ok(ids) => {
                    let views = tags.deep_view();
                    let srcs = r.1@;
                    let idx_for = r.2@;
                    &&& spec_ensure_tags_ok(old(self)@, views)
                    &&& final(self)@ == spec_ensure_tags(old(self)@, views)
                    &&& srcs.len() == ids@.len()
                    &&& forall|j: int|
                        0 <= j < ids@.len() ==> 0 <= #[trigger] srcs[j] < views.len()
                            && views[srcs[j]].len() > 0 && name_resolves(
                            final(self)@,
                            views[srcs[j]],
                            ids@[j],
                        )
                    &&& idx_for.len() == views.len()
                    &&& forall|kk: int|
                        0 <= kk < views.len() && (#[trigger] views[kk]).len() > 0 ==> 0 <= (
                        #[trigger] idx_for[kk]) < ids@.len() && name_resolves(
                            final(self)@,
                            views[kk],
                            ids@[idx_for[kk]],
                        )
                },
                Err(e) => {
                    &&& e == StoreError::CapacityExhausted
                    &&& !spec_ensure_tags_ok(old(self)@, tags.deep_view())
                },
            },
    {
        let ghost m0 = self@;
        let ghost views = tags.deep_view();
        let n = tags.len();
        let mut ids: Vec<i64> = Vec::new();
        let ghost mut srcs: Seq<int> = Seq::empty();
        let ghost mut idx_for: Seq<int> = Seq::empty();
        let mut k: usize = 0;
        while k < n
            invariant
                k <= n,
                n == views.len(),
                views == tags.deep_view(),
                tag_graph_wf(m0),
                m0 == old(self)@,
                self.wf(),
                self@ == spec_ensure_tags(m0, views.take(k as int)),
                spec_ensure_tags_ok(m0, views.take(k as int)),
                self@.edges == m0.edges,
                self@.memberships == m0.memberships,
                m0.tags.len() <= self@.tags.len(),
                forall|j: int| 0 <= j < m0.tags.len() ==> #[trigger] self@.tags[j] == m0.tags[j],
                srcs.len() == ids@.len(),
                forall|j: int|
                    0 <= j < ids@.len() ==> 0 <= #[trigger] srcs[j] < k && views[srcs[j]].len() > 0
                        && name_resolves(self@, views[srcs[j]], ids@[j]),
                idx_for.len() == k,
                forall|kk: int|
                    0 <= kk < k && (#[trigger] views[kk]).len() > 0 ==> 0 <= (
                    #[trigger] idx_for[kk]) < ids@.len() && name_resolves(
                        self@,
                        views[kk],
                        ids@[idx_for[kk]],
                    ),
            decreases n - k,
        {
            let ghost s_pre = self@;
            let ghost ids_pre = ids@;
            let name = &tags[k];
            proof {
                assert(views[k as int] == name@);
                assert(views.take(k + 1 as int) =~= views.take(k as int).push(views[k as int]));
                lemma_ensure_tags_snoc(m0, views.take(k as int), views[k as int]);
            }
            if !name.as_str().is_empty() {
                match self.ensure_tag(name.as_str()) {
                    Ok(id) => {
                        ids.push(id);
                        proof {
                            srcs = srcs.push(k as int);
                            idx_for = idx_for.push(ids_pre.len() as int);
                            lemma_ensure_tag_monotone(s_pre, name@);
                            assert forall|j: int| 0 <= j < ids@.len() implies 0 <= #[trigger] srcs[j]
                                < k + 1 && views[srcs[j]].len() > 0 && name_resolves(
                                self@,
                                views[srcs[j]],
                                ids@[j],
                            ) by {
                                if j < ids_pre.len() {
                                    assert(ids@[j] == ids_pre[j] && srcs[j] == srcs.drop_last()[j]);
                                } else {
                                    assert(ids@[j] == id && srcs[j] == k as int);
                                    assert(name_resolves(self@, name@, id));
                                }
                            }
                            assert forall|kk: int|
                                0 <= kk < k + 1 && (#[trigger] views[kk]).len() > 0 implies 0 <= (
                            #[trigger] idx_for[kk]) < ids@.len() && name_resolves(
                                self@,
                                views[kk],
                                ids@[idx_for[kk]],
                            ) by {
                                if kk < k {
                                    assert(idx_for[kk] == idx_for.drop_last()[kk]);
                                    assert(ids@[idx_for[kk]] == ids_pre[idx_for[kk]]);
                                } else {
                                    assert(idx_for[kk] == ids_pre.len() as int);
                                    assert(ids@[idx_for[kk]] == id);
                                    assert(name_resolves(self@, name@, id));
                                }
                            }
                        }
                    },
                    Err(e) => {
                        proof {
                            lemma_take_ok_prefix(m0, views, k as int);
                        }
                        return (Err(e), Ghost(srcs), Ghost(idx_for));
                    },
                }
            } else {
                proof {
                    idx_for = idx_for.push(-1);
                    assert(self@ == spec_ensure_tags(m0, views.take(k + 1 as int)));
                    assert forall|kk: int|
                        0 <= kk < k + 1 && (#[trigger] views[kk]).len() > 0 implies 0 <= (
                    #[trigger] idx_for[kk]) < ids@.len() && name_resolves(
                        self@,
                        views[kk],
                        ids@[idx_for[kk]],
                    ) by {
                        assert(kk < k);
                        assert(idx_for[kk] == idx_for.drop_last()[kk]);
                    }
                }
            }
            k = k + 1;
        }
        proof {
            assert(views.take(n as int) =~= views);
        }
        (Ok(ids), Ghost(srcs), Ghost(idx_for))
    }

    /// Attaches the named tags to `item`, creating missing tags first, and
    /// then attaches the whole dependency closure of those tags.  Empty
    /// names are skipped.  Afterwards `item` carries a tag exactly when it
    /// already carried it or the tag is reachable from a named tag; other
    /// items and the dependency edges are untouched.  Fails with
    /// `CapacityExhausted` if and only if a missing tag cannot be created
    /// because the id space is spent; memberships are then unchanged.
    #[verifier::rlimit(50)]
    pub fn add_tag_item(&mut self, item: i64, tags: &Vec<String>) -> (r: Result<(), StoreError>)
        requires
            old(self).wf(),
        ensures
            final(self).wf(),
            final(self)@.edges == old(self)@.edges,
            match r {
                Ok(()) => {
                    let g1 = spec_ensure_tags(old(self)@, tags.deep_view());
                    &&& spec_ensure_tags_ok(old(self)@, tags.deep_view())
                    &&& final(self)@.tags == g1.tags
                    &&& final(self)@.next_id == g1.next_id
                    &&& forall|t: i64|
                        #[trigger] has_memb(final(self)@, item, t) <==> (has_memb(
                            old(self)@,
                            item,
                            t,
                        ) || reachable_names(final(self)@, tags.deep_view(), t))
                    &&& forall|it: i64, t: i64|
                        it != item ==> (#[trigger] has_memb(final(self)@, it, t) <==> has_memb(
                            old(self)@,
                            it,
                            t,
                        ))
                },
                Err(e) => {
                    &&& e == StoreError::CapacityExhausted
                    &&& !spec_ensure_tags_ok(old(self)@, tags.deep_view())
                    &&& final(self)@.memberships == old(self)@.memberships
                    &&& old(self)@.tags == final(self)@.tags.take(old(self)@.tags.len() as int)
                },
            },
    {
        let ghost m0 = self@;
        let ghost views = tags.deep_view();
        let (res, Ghost(srcs), Ghost(idx_for)) = self.ensure_tags_for(tags);
        let ids = match res {
            Ok(ids) => ids,
            Err(e) => {
                return Err(e);
            },
        };
        let ghost g1 = self@;
        proof {
            assert forall|k: int| 0 <= k < ids@.len() implies has_tag_id(g1, #[trigger] ids@[k]) by {
                assert(name_resolves(g1, views[srcs[k]], ids@[k]));
                let i = choose|i: int|
                    0 <= i < g1.tags.len() && (#[trigger] g1.tags[i]).name == views[srcs[k]]
                        && g1.tags[i].id == ids@[k];
                assert(g1.tags[i].id == ids@[k]);
            }
        }
        self.attach_tag_ids(item, &ids);
        proof {
            assert forall|t: i64| #[trigger] has_memb(self@, item, t) <==> (has_memb(m0, item, t)
                || reachable_names(self@, views, t)) by {
                lemma_memb_same(g1, m0, item, t);
                lemma_reach_names_bridge(g1, self@, views, ids@, srcs, idx_for, t);
            }
        }
        Ok(())
    }
}

/// Equal membership sequences carry the same memberships.
proof fn lemma_memb_same(m1: TagGraphModel, m2: TagGraphModel, item: i64, t: i64)
    requires
        m1.memberships == m2.memberships,
    ensures
        has_memb(m1, item, t) == has_memb(m2, item, t),
{
    if has_memb(m1, item, t) {
        let k = choose|k: int|
            0 <= k < m1.memberships.len() && #[trigger] m1.memberships[k] == (item, t);
        assert(m2.memberships[k] == (item, t));
    }
    if has_memb(m2, item, t) {
        let k = choose|k: int|
            0 <= k < m2.memberships.len() && #[trigger] m2.memberships[k] == (item, t);
        assert(m1.memberships[k] == (item, t));
    }
}

/// Equal edge sequences carry the same edges.
proof fn lemma_edge_same(m1: TagGraphModel, m2: TagGraphModel, a: i64, b: i64)
    requires
        m1.edges == m2.edges,
    ensures
        has_edge(m1, a, b) == has_edge(m2, a, b),
{
    if has_edge(m1, a, b) {
        let k = choose|k: int| 0 <= k < m1.edges.len() && #[trigger] m1.edges[k] == (a, b);
        assert(m2.edges[k] == (a, b));
    }
    if has_edge(m2, a, b) {
        let k = choose|k: int| 0 <= k < m2.edges.len() && #[trigger] m2.edges[k] == (a, b);
        assert(m1.edges[k] == (a, b));
    }
}

/// A path transfers between graphs with equal edges.
proof fn lemma_path_same(m1: TagGraphModel, m2: TagGraphModel, p: Seq<i64>)
    requires
        m1.edges == m2.edges,
        is_path(m1, p),
    ensures
        is_path(m2, p),
{
    assert forall|k: int| 0 <= k < p.len() - 1 implies has_edge(m2, #[trigger] p[k], p[k + 1]) by {
        lemma_edge_same(m1, m2, p[k], p[k + 1]);
    }
}

/// Under distinct tag names, one name resolves to at most one id.
proof fn lemma_resolve_unique(m: TagGraphModel, n: Seq<char>, t1: i64, t2: i64)
    requires
        tag_graph_wf(m),
        name_resolves(m, n, t1),
        name_resolves(m, n, t2),
    ensures
        t1 == t2,
{
    let i1 = choose|i: int|
        0 <= i < m.tags.len() && (#[trigger] m.tags[i]).name == n && m.tags[i].id == t1;
    let i2 = choose|i: int|
        0 <= i < m.tags.len() && (#[trigger] m.tags[i]).name == n && m.tags[i].id == t2;
    assert(i1 == i2);
}

/// Reachability from the resolved ids equals reachability from the names,
/// in any graph with the same tags and edges.
proof fn lemma_reach_names_bridge(
    g1: TagGraphModel,
    g2: TagGraphModel,
    views: Seq<Seq<char>>,
    ids: Seq<i64>,
    srcs: Seq<int>,
    idx_for: Seq<int>,
    t: i64,
)
    requires
        tag_graph_wf(g1),
        g2.tags == g1.tags,
        g2.edges == g1.edges,
        srcs.len() == ids.len(),
        forall|j: int|
            0 <= j < ids.len() ==> 0 <= #[trigger] srcs[j] < views.len() && views[srcs[j]].len()
                > 0 && name_resolves(g1, views[srcs[j]], ids[j]),
        idx_for.len() == views.len(),
        forall|kk: int|
            0 <= kk < views.len() && (#[trigger] views[kk]).len() > 0 ==> 0 <= (
            #[trigger] idx_for[kk]) < ids.len() && name_resolves(g1, views[kk], ids[idx_for[kk]]),
    ensures
        reachable(g1, ids, t) == reachable_names(g2, views, t),
{
    assert forall|n: Seq<char>, x: i64| #[trigger] name_resolves(g1, n, x) implies name_resolves(
        g2,
        n,
        x,
    ) by {
        let i = choose|i: int|
            0 <= i < g1.tags.len() && (#[trigger] g1.tags[i]).name == n && g1.tags[i].id == x;
        assert(g2.tags[i] == g1.tags[i]);
    }
    assert forall|n: Seq<char>, x: i64| #[trigger] name_resolves(g2, n, x) implies name_resolves(
        g1,
        n,
        x,
    ) by {
        let i = choose|i: int|
            0 <= i < g2.tags.len() && (#[trigger] g2.tags[i]).name == n && g2.tags[i].id == x;
        assert(g1.tags[i] == g2.tags[i]);
    }
    if reachable(g1, ids, t) {
        let p = choose|p: Seq<i64>| is_path(g1, p) && ids.contains(p[0]) && p.last() == t;
        let j = choose|j: int| 0 <= j < ids.len() && ids[j] == p[0];
        lemma_path_same(g1, g2, p);
        assert(views[srcs[j]].len() > 0 && name_resolves(g2, views[srcs[j]], p[0]));
        assert(reachable_names(g2, views, t)) by {
            assert(is_path(g2, p) && (exists|kk: int|
                0 <= kk < views.len() && (#[trigger] views[kk]).len() > 0 && name_resolves(
                    g2,
                    views[kk],
                    p[0],
                )) && p.last() == t);
        }
    }
    if reachable_names(g2, views, t) {
        let p = choose|p: Seq<i64>|
            #![trigger is_path(g2, p)]
            is_path(g2, p) && (exists|kk: int|
                0 <= kk < views.len() && (#[trigger] views[kk]).len() > 0 && name_resolves(
                    g2,
                    views[kk],
                    p[0],
                )) && p.last() == t;
        let kk = choose|kk: int|
            0 <= kk < views.len() && (#[trigger] views[kk]).len() > 0 && name_resolves(
                g2,
                views[kk],
                p[0],
            );
        lemma_path_same(g2, g1, p);
        assert(name_resolves(g1, views[kk], p[0]));
        assert(name_resolves(g1, views[kk], ids[idx_for[kk]]));
        lemma_resolve_unique(g1, views[kk], p[0], ids[idx_for[kk]]);
        assert(ids.contains(p[0])) by {
            assert(ids[idx_for[kk]] == p[0]);
        }
        assert(reachable(g1, ids, t));
    }
}

/// A failing step anywhere in the fold makes the whole fold fail.
proof fn lemma_take_ok_prefix(m: TagGraphModel, views: Seq<Seq<char>>, k: int)
    requires
        0 <= k < views.len(),
        spec_ensure_tags_ok(m, views.take(k)),
        !spec_ensure_tag_ok(spec_ensure_tags(m, views.take(k)), views[k]),
    ensures
        !spec_ensure_tags_ok(m, views),
    decreases k,
{
    if k == 0 {
        assert(views.take(0) =~= Seq::<Seq<char>>::empty());
        assert(views[0] == views[0]);
        assert(!spec_ensure_tag_ok(m, views[0]));
    } else {
        let m1 = spec_ensure_tag(m, views[0]);
        assert(views.take(k)[0] == views[0]);
        assert(views.take(k).drop_first() =~= views.drop_first().take(k - 1));
        assert(spec_ensure_tags(m, views.take(k)) == spec_ensure_tags(
            m1,
            views.drop_first().take(k - 1),
        ));
        assert(views.drop_first()[k - 1] == views[k]);
        lemma_take_ok_prefix(m1, views.drop_first(), k - 1);
    }
}

} // verus!

verus! {

/// The whitespace tokens of a string, each lower-cased.
pub open spec fn lowered_tokens(s: Seq<char>) -> Seq<Seq<char>> {
    crate::text::split_ws_spec(s).map_values(|t: Seq<char>| crate::text::lower_seq(t))
}

/// The fold that creates missing tags reads and writes only the tags and the
/// fresh id; memberships and edges ride along.
proof fn lemma_ensure_tags_tags_only(m1: TagGraphModel, m2: TagGraphModel, names: Seq<Seq<char>>)
    requires
        m1.tags == m2.tags,
        m1.next_id == m2.next_id,
    ensures
        spec_ensure_tags(m1, names).tags == spec_ensure_tags(m2, names).tags,
        spec_ensure_tags(m1, names).next_id == spec_ensure_tags(m2, names).next_id,
        spec_ensure_tags_ok(m1, names) == spec_ensure_tags_ok(m2, names),
    decreases names.len(),
{
    if names.len() > 0 {
        let n0 = names[0];
        assert(has_tag_name(m1, n0) == has_tag_name(m2, n0)) by {
            if has_tag_name(m1, n0) {
                let i = choose|i: int|
                    0 <= i < m1.tags.len() && (#[trigger] m1.tags[i]).name == n0;
                assert(m2.tags[i].name == n0);
            }
            if has_tag_name(m2, n0) {
                let i = choose|i: int|
                    0 <= i < m2.tags.len() && (#[trigger] m2.tags[i]).name == n0;
                assert(m1.tags[i].name == n0);
            }
        }
        lemma_ensure_tags_tags_only(spec_ensure_tag(m1, n0), spec_ensure_tag(m2, n0), names.drop_first());
    }
}

/// The resolved ids are exactly the ids that some non-empty name names.
proof fn lemma_ids_names_set(
    g: TagGraphModel,
    views: Seq<Seq<char>>,
    ids: Seq<i64>,
    srcs: Seq<int>,
    idx_for: Seq<int>,
    x: i64,
)
    requires
        tag_graph_wf(g),
        srcs.len() == ids.len(),
        forall|j: int|
            0 <= j < ids.len() ==> 0 <= #[trigger] srcs[j] < views.len() && views[srcs[j]].len()
                > 0 && name_resolves(g, views[srcs[j]], ids[j]),
        idx_for.len() == views.len(),
        forall|kk: int|
            0 <= kk < views.len() && (#[trigger] views[kk]).len() > 0 ==> 0 <= (
            #[trigger] idx_for[kk]) < ids.len() && name_resolves(g, views[kk], ids[idx_for[kk]]),
    ensures
        ids.contains(x) == exists|kk: int|
            0 <= kk < views.len() && (#[trigger] views[kk]).len() > 0 && name_resolves(
                g,
                views[kk],
                x,
            ),
{
    if ids.contains(x) {
        let j = choose|j: int| 0 <= j < ids.len() && ids[j] == x;
        assert(views[srcs[j]].len() > 0 && name_resolves(g, views[srcs[j]], x));
    }
    if exists|kk: int|
        0 <= kk < views.len() && (#[trigger] views[kk]).len() > 0 && name_resolves(
            g,
            views[kk],
            x,
        ) {
        let kk = choose|kk: int|
            0 <= kk < views.len() && (#[trigger] views[kk]).len() > 0 && name_resolves(
                g,
                views[kk],
                x,
            );
        lemma_resolve_unique(g, views[kk], x, ids[idx_for[kk]]);
        assert(ids[idx_for[kk]] == x);
    }
}

impl TagGraph {
    /// Removes every membership of one item.
    fn delete_memberships_of(&mut self, item: i64)
        requires
            old(self).wf(),
        ensures
            final(self).wf(),
            final(self)@.tags == old(self)@.tags,
            final(self)@.edges == old(self)@.edges,
            final(self)@.next_id == old(self)@.next_id,
            final(self)@.memberships == old(self)@.memberships.filter(
                |p: (i64, i64)| p.0 != item,
            ),
    {
        let ghost m0 = self@;
        let n = self.memberships.len();
        let mut kept: Vec<(i64, i64)> = Vec::new();
        let ghost mut kept_src: Seq<int> = Seq::empty();
        let mut i: usize = 0;
        proof {
            assert(m0.memberships.take(0).filter(|p: (i64, i64)| p.0 != item) =~= Seq::<
                (i64, i64),
            >::empty()) by {
                reveal(Seq::filter);
            }
        }
        while i < n
            invariant
                i <= n,
                n == self@.memberships.len(),
                self@ == m0,
                tag_graph_wf(m0),
                kept@ == m0.memberships.take(i as int).filter(|p: (i64, i64)| p.0 != item),
                kept_src.len() == kept@.len(),
                forall|k: int|
                    0 <= k < kept_src.len() ==> 0 <= #[trigger] kept_src[k] < i && kept@[k]
                        == m0.memberships[kept_src[k]],
                forall|a: int, b: int| 0 <= a < b < kept_src.len() ==> kept_src[a] < kept_src[b],
            decreases n - i,
        {
            let pair = self.memberships[i];
            if pair.0 != item {
                kept.push(pair);
                proof {
                    kept_src = kept_src.push(i as int);
                }
            }
            proof {
                assert(m0.memberships.take(i + 1 as int).drop_last() =~= m0.memberships.take(
                    i as int,
                ));
                assert(m0.memberships.take(i + 1 as int).last() == m0.memberships[i as int]);
                reveal(Seq::filter);
            }
            i = i + 1;
        }
        self.memberships = kept;
        proof {
            assert(m0.memberships.take(n as int) =~= m0.memberships);
            assert(self@.tags == m0.tags);
            assert(self@.edges == m0.edges);
            assert forall|k: int| 0 <= k < self@.edges.len() implies has_tag_id(
                self@,
                (#[trigger] self@.edges[k]).0,
            ) && has_tag_id(self@, self@.edges[k].1) by {
                assert(has_tag_id(m0, m0.edges[k].0) && has_tag_id(m0, m0.edges[k].1));
                let t1 = choose|t1: int|
                    0 <= t1 < m0.tags.len() && (#[trigger] m0.tags[t1]).id == m0.edges[k].0;
                assert(self@.tags[t1].id == self@.edges[k].0);
                let t2 = choose|t2: int|
                    0 <= t2 < m0.tags.len() && (#[trigger] m0.tags[t2]).id == m0.edges[k].1;
                assert(self@.tags[t2].id == self@.edges[k].1);
            }
            let ms = self@.memberships;
            assert forall|k: int| 0 <= k < ms.len() implies has_tag_id(
                self@,
                (#[trigger] ms[k]).1,
            ) by {
                assert(ms[k] == m0.memberships[kept_src[k]]);
                assert(has_tag_id(m0, m0.memberships[kept_src[k]].1));
                let ti = choose|ti: int|
                    0 <= ti < m0.tags.len() && (#[trigger] m0.tags[ti]).id
                        == m0.memberships[kept_src[k]].1;
                assert(self@.tags[ti].id == ms[k].1);
            }
            assert forall|k: int, l: int| 0 <= k < l < ms.len() implies (#[trigger] ms[k])
                != (#[trigger] ms[l]) by {
                assert(ms[k] == m0.memberships[kept_src[k]]);
                assert(ms[l] == m0.memberships[kept_src[l]]);
            }
            assert(tag_graph_wf(self@));
        }
    }

    /// Replaces the tag set of one item: every existing membership of the
    /// item is removed, the raw string is split on whitespace, each token is
    /// lower-cased, and the resulting tags (with their dependency closure)
    /// are attached.  Fails with `CapacityExhausted` if and only if a
    /// missing tag cannot be created; the old memberships are gone either
    /// way.
    pub fn update_tag_item(&mut self, item: i64, tag_str: &str) -> (r: Result<(), StoreError>)
        requires
            old(self).wf(),
        ensures
            final(self).wf(),
            final(self)@.edges == old(self)@.edges,
            forall|it: i64, t: i64|
                it != item ==> (#[trigger] has_memb(final(self)@, it, t) <==> has_memb(
                    old(self)@,
                    it,
                    t,
                )),
            match r {
                Ok(()) => {
                    &&& spec_ensure_tags_ok(old(self)@, lowered_tokens(tag_str@))
                    &&& final(self)@.tags == spec_ensure_tags(
                        old(self)@,
                        lowered_tokens(tag_str@),
                    ).tags
                    &&& forall|t: i64|
                        #[trigger] has_memb(final(self)@, item, t) <==> reachable_names(
                            final(self)@,
                            lowered_tokens(tag_str@),
                            t,
                        )
                },
                Err(e) => {
                    &&& e == StoreError::CapacityExhausted
                    &&& !spec_ensure_tags_ok(old(self)@, lowered_tokens(tag_str@))
                    &&& forall|t: i64| !(#[trigger] has_memb(final(self)@, item, t))
                },
            },
    {
        let ghost m0 = self@;
        self.delete_memberships_of(item);
        let ghost m_del = self@;
        proof {
            assert forall|t: i64| !(#[trigger] has_memb(m_del, item, t)) by {
                if has_memb(m_del, item, t) {
                    let k = choose|k: int|
                        0 <= k < m_del.memberships.len() && #[trigger] m_del.memberships[k] == (
                            item,
                            t,
                        );
                    m0.memberships.lemma_filter_pred(|p: (i64, i64)| p.0 != item, k);
                }
            }
            assert forall|it: i64, t: i64| it != item implies (#[trigger] has_memb(
                m_del,
                it,
                t,
            ) <==> has_memb(m0, it, t)) by {
                if has_memb(m_del, it, t) {
                    let k = choose|k: int|
                        0 <= k < m_del.memberships.len() && #[trigger] m_del.memberships[k] == (
                            it,
                            t,
                        );
                    lemma_filter_pair_elements(m0.memberships, |p: (i64, i64)| p.0 != item, k);
                }
                if has_memb(m0, it, t) {
                    let k = choose|k: int|
                        0 <= k < m0.memberships.len() && #[trigger] m0.memberships[k] == (it, t);
                    m0.memberships.lemma_filter_contains(|p: (i64, i64)| p.0 != item, k);
                    let j = choose|j: int|
                        0 <= j < m_del.memberships.len() && m_del.memberships[j] == (it, t);
                    assert(has_memb(m_del, it, t));
                }
            }
        }
        let tokens = crate::text::split_ws(tag_str);
        let ntok = tokens.len();
        let mut lowered: Vec<String> = Vec::new();
        let mut k: usize = 0;
        while k < ntok
            invariant
                k <= ntok,
                ntok == tokens.deep_view().len(),
                tokens.deep_view() == crate::text::split_ws_spec(tag_str@),
                lowered.deep_view() == lowered_tokens(tag_str@).take(k as int),
            decreases ntok - k,
        {
            let low = crate::text::lower_str(tokens[k].as_str());
            lowered.push(low);
            proof {
                assert(lowered_tokens(tag_str@).take(k + 1 as int) =~= lowered_tokens(
                    tag_str@,
                ).take(k as int).push(crate::text::lower_seq(tokens.deep_view()[k as int])));
                assert(lowered.deep_view() =~= lowered_tokens(tag_str@).take(k as int).push(
                    crate::text::lower_seq(tokens.deep_view()[k as int]),
                ));
            }
            k = k + 1;
        }
        proof {
            assert(lowered_tokens(tag_str@).take(ntok as int) =~= lowered_tokens(tag_str@));
        }
        let r = self.add_tag_item(item, &lowered);
        proof {
            lemma_ensure_tags_tags_only(m_del, m0, lowered_tokens(tag_str@));
            assert(lowered.deep_view() == lowered_tokens(tag_str@));
            assert forall|it: i64, t: i64| it != item implies (#[trigger] has_memb(
                self@,
                it,
                t,
            ) <==> has_memb(m0, it, t)) by {
                if r is Err {
                    lemma_memb_same(self@, m_del, it, t);
                }
                assert(has_memb(self@, it, t) <==> has_memb(m_del, it, t));
            }
            if r is Err {
                assert forall|t: i64| !(#[trigger] has_memb(self@, item, t)) by {
                    lemma_memb_same(self@, m_del, item, t);
                }
            }
        }
        match r {
            Ok(()) => Ok(()),
            Err(e) => Err(e),
        }
    }
}

/// Every pair of the filtered sequence is a pair of the original.
proof fn lemma_filter_pair_elements(s: Seq<(i64, i64)>, p: spec_fn((i64, i64)) -> bool, j: int)
    requires
        0 <= j < s.filter(p).len(),
    ensures
        exists|k: int| 0 <= k < s.len() && s[k] == #[trigger] s.filter(p)[j],
    decreases s.len(),
{
    reveal(Seq::filter);
    if s.len() > 0 {
        let t = s.drop_last();
        let fil = s.filter(p);
        if p(s.last()) && j == fil.len() - 1 {
            assert(s[s.len() - 1] == fil[j]);
        } else {
            assert(fil[j] == t.filter(p)[j]);
            lemma_filter_pair_elements(t, p, j);
            let k = choose|k: int| 0 <= k < t.len() && t[k] == t.filter(p)[j];
            assert(s[k] == fil[j]);
        }
    }
}

} // verus!

verus! {

/// Some non-empty token of `toks` names the tag id `b`.
pub open spec fn some_tok_resolves(m: TagGraphModel, toks: Seq<Seq<char>>, b: i64) -> bool {
    exists|kk: int|
        0 <= kk < toks.len() && (#[trigger] toks[kk]).len() > 0 && name_resolves(m, toks[kk], b)
}

/// What a dependency update that ran out of ids guarantees: the tag was
/// found and renamed in place, no dependency edge was added yet, and the
/// failure is owed: creating the missing dependency tags is impossible.
pub open spec fn spec_update_tag_capacity(
    m0: TagGraphModel,
    mf: TagGraphModel,
    id: i64,
    name: Seq<char>,
    desc: Seq<char>,
    deps: Option<Seq<char>>,
) -> bool {
    let i = tag_idx_by_id(m0.tags, id);
    let renamed = TagGraphModel {
        tags: m0.tags.update(i, TagRowModel { id, name, description: desc }),
        ..m0
    };
    let toks = match deps {
        Some(d) => crate::text::split_ws_spec(d),
        None => Seq::<Seq<char>>::empty(),
    };
    &&& i >= 0
    &&& !spec_ensure_tags_ok(renamed, toks)
    &&& mf.edges == m0.edges
    &&& renamed.tags == mf.tags.take(renamed.tags.len() as int)
}

/// What a successful dependency update guarantees: the tag is renamed and
/// re-described in place, missing dependency tags are created by the usual
/// fold, and afterwards an edge leaves `id` exactly for the resolved
/// dependency names (edges are never removed).
pub open spec fn spec_update_tag_ok(
    m0: TagGraphModel,
    mf: TagGraphModel,
    id: i64,
    name: Seq<char>,
    desc: Seq<char>,
    deps: Option<Seq<char>>,
) -> bool {
    let i = tag_idx_by_id(m0.tags, id);
    let renamed = TagGraphModel {
        tags: m0.tags.update(i, TagRowModel { id, name, description: desc }),
        ..m0
    };
    let toks = match deps {
        Some(d) => crate::text::split_ws_spec(d),
        None => Seq::<Seq<char>>::empty(),
    };
    &&& i >= 0
    &&& spec_ensure_tags_ok(renamed, toks)
    &&& mf.tags == spec_ensure_tags(renamed, toks).tags
    &&& mf.next_id == spec_ensure_tags(renamed, toks).next_id
    &&& forall|a: i64, b: i64|
        #[trigger] has_edge(mf, a, b) <==> (has_edge(m0, a, b) || (a == id
            && some_tok_resolves(mf, toks, b)))
}

impl TagGraph {
    /// Rewrites a tag's name and description and unions in a dependency
    /// edge to each whitespace-separated name in `tag.deps`, creating
    /// missing tags.  Edges are only added, never removed.  Fails with
    /// `NotFound` if and only if no tag has `tag.id`; with `Conflict` if and
    /// only if another tag already carries `tag.name`; with
    /// `CapacityExhausted` when a missing dependency tag cannot be created.
    #[verifier::rlimit(100)]
    #[verifier::spinoff_prover]
    pub fn update_tag(&mut self, tag: &Tag) -> (r: Result<(), StoreError>)
        requires
            old(self).wf(),
        ensures
            final(self).wf(),
            final(self)@.memberships == old(self)@.memberships,
            old(self)@.edges == final(self)@.edges.take(old(self)@.edges.len() as int),
            match r {
                Ok(()) => spec_update_tag_ok(
                    old(self)@,
                    final(self)@,
                    tag.id,
                    tag.name@,
                    tag.description@,
                    match tag.deps {
                        Some(d) => Some(d@),
                        None => None,
                    },
                ),
                Err(StoreError::NotFound) => !has_tag_id(old(self)@, tag.id) && final(self)@
                    == old(self)@,
                Err(StoreError::Conflict) => has_tag_id(old(self)@, tag.id) && (exists|j: int|
                    0 <= j < old(self)@.tags.len() && (#[trigger] old(self)@.tags[j]).name
                        == tag.name@ && old(self)@.tags[j].id != tag.id) && final(self)@ == old(
                    self,
                )@,
                Err(StoreError::CapacityExhausted) => spec_update_tag_capacity(
                    old(self)@,
                    final(self)@,
                    tag.id,
                    tag.name@,
                    tag.description@,
                    match tag.deps {
                        Some(d) => Some(d@),
                        None => None,
                    },
                ),
            },
    {
        let ghost m0 = self@;
        let i = match self.find_tag_by_id(tag.id) {
            Some(i) => i,
            None => {
                proof {
                    assert(m0.edges =~= self@.edges.take(m0.edges.len() as int));
                }
                return Err(StoreError::NotFound);
            },
        };
        match self.find_tag_by_name(tag.name.as_str()) {
            Some(j) => {
                if j != i {
                    proof {
                        assert(self@.tags[j as int].name == tag.name@ && self@.tags[j as int].id
                            != tag.id);
                        assert(m0.edges =~= self@.edges.take(m0.edges.len() as int));
                    }
                    return Err(StoreError::Conflict);
                }
            },
            None => {},
        }
        let row = &mut self.tags[i];
        row.name = tag.name.clone();
        row.description = tag.description.clone();
        let ghost renamed = self@;
        proof {
            assert(renamed.tags =~= m0.tags.update(
                i as int,
                TagRowModel { id: tag.id, name: tag.name@, description: tag.description@ },
            ));
            assert(renamed.edges == m0.edges);
            assert(renamed.memberships == m0.memberships);
            let ts = renamed.tags;
            assert forall|k: int| 0 <= k < ts.len() implies 1 <= (#[trigger] ts[k]).id
                < renamed.next_id && ts[k].id == m0.tags[k].id by {
                if k != i {
                    assert(ts[k] == m0.tags[k]);
                }
            }
            assert forall|a: int, b: int| 0 <= a < b < ts.len() implies (#[trigger] ts[a]).id
                != (#[trigger] ts[b]).id by {
                assert(ts[a].id == m0.tags[a].id && ts[b].id == m0.tags[b].id);
            }
            assert forall|a: int, b: int| 0 <= a < b < ts.len() implies (#[trigger] ts[a]).name
                != (#[trigger] ts[b]).name by {
                if a != i && b != i {
                    assert(ts[a] == m0.tags[a] && ts[b] == m0.tags[b]);
                } else if a == i {
                    assert(ts[b] == m0.tags[b]);
                    assert(m0.tags[b].name != tag.name@);
                } else {
                    assert(ts[a] == m0.tags[a]);
                    assert(m0.tags[a].name != tag.name@);
                }
            }
            assert forall|k: int| 0 <= k < renamed.edges.len() implies has_tag_id(
                renamed,
                (#[trigger] renamed.edges[k]).0,
            ) && has_tag_id(renamed, renamed.edges[k].1) by {
                assert(has_tag_id(m0, m0.edges[k].0) && has_tag_id(m0, m0.edges[k].1));
                let t1 = choose|t1: int|
                    0 <= t1 < m0.tags.len() && (#[trigger] m0.tags[t1]).id == m0.edges[k].0;
                assert(ts[t1].id == renamed.edges[k].0);
                let t2 = choose|t2: int|
                    0 <= t2 < m0.tags.len() && (#[trigger] m0.tags[t2]).id == m0.edges[k].1;
                assert(ts[t2].id == renamed.edges[k].1);
            }
            assert forall|k: int| 0 <= k < renamed.memberships.len() implies has_tag_id(
                renamed,
                (#[trigger] renamed.memberships[k]).1,
            ) by {
                assert(has_tag_id(m0, m0.memberships[k].1));
                let t1 = choose|t1: int|
                    0 <= t1 < m0.tags.len() && (#[trigger] m0.tags[t1]).id == m0.memberships[k].1;
                assert(ts[t1].id == renamed.memberships[k].1);
            }
            assert(tag_graph_wf(renamed));
            assert(renamed.next_id == m0.next_id);
            assert(renamed == TagGraphModel {
                tags: m0.tags.update(
                    i as int,
                    TagRowModel { id: tag.id, name: tag.name@, description: tag.description@ },
                ),
                ..m0
            });
        }
        let deps: Vec<String> = match &tag.deps {
            Some(d) => crate::text::split_ws(d.as_str()),
            None => Vec::new(),
        };
        proof {
            assert(deps.deep_view() == (match tag.deps {
                Some(d) => crate::text::split_ws_spec(d@),
                None => Seq::<Seq<char>>::empty(),
            })) by {
                if tag.deps is None {
                    assert(deps.deep_view() =~= Seq::<Seq<char>>::empty());
                }
            }
        }
        let (res, Ghost(srcs), Ghost(idx_for)) = self.ensure_tags_for(&deps);
        let ids = match res {
            Ok(ids) => ids,
            Err(e) => {
                proof {
                    assert(m0.edges =~= self@.edges.take(m0.edges.len() as int));
                    assert(self@.edges == renamed.edges && renamed.edges == m0.edges);
                    let ii = tag_idx_by_id(m0.tags, tag.id);
                    assert(ii == i as int);
                    let renamed2 = TagGraphModel {
                        tags: m0.tags.update(
                            ii,
                            TagRowModel {
                                id: tag.id,
                                name: tag.name@,
                                description: tag.description@,
                            },
                        ),
                        ..m0
                    };
                    assert(renamed2 == renamed);
                    let toks = match &tag.deps {
                        Some(d) => crate::text::split_ws_spec(d@),
                        None => Seq::<Seq<char>>::empty(),
                    };
                    assert(toks == deps.deep_view());
                    assert(!spec_ensure_tags_ok(renamed2, toks));
                    assert(spec_update_tag_capacity(
                        m0,
                        self@,
                        tag.id,
                        tag.name@,
                        tag.description@,
                        match &tag.deps {
                            Some(d) => Some(d@),
                            None => None,
                        },
                    ));
                }
                return Err(e);
            },
        };
        let ghost g1 = self@;
        let ghost views = deps.deep_view();
        proof {
            assert(renamed.tags == g1.tags.take(renamed.tags.len() as int));
            assert(has_tag_id(g1, tag.id)) by {
                assert(renamed.tags[i as int].id == tag.id);
                assert(g1.tags.take(renamed.tags.len() as int)[i as int] == renamed.tags[i as int]);
                assert(g1.tags[i as int].id == tag.id);
            }
        }
        let nids = ids.len();
        let mut k: usize = 0;
        while k < nids
            invariant
                k <= nids,
                nids == ids@.len(),
                self.wf(),
                tag_graph_wf(g1),
                self@.tags == g1.tags,
                self@.memberships == g1.memberships,
                self@.next_id == g1.next_id,
                has_tag_id(g1, tag.id),
                g1.edges.len() <= self@.edges.len(),
                g1.edges == self@.edges.take(g1.edges.len() as int),
                srcs.len() == ids@.len(),
                forall|j: int|
                    0 <= j < ids@.len() ==> 0 <= #[trigger] srcs[j] < views.len()
                        && views[srcs[j]].len() > 0 && name_resolves(g1, views[srcs[j]], ids@[j]),
                forall|a: i64, b: i64|
                    #[trigger] has_edge(self@, a, b) <==> (has_edge(g1, a, b) || (a == tag.id
                        && ids@.take(k as int).contains(b))),
            decreases nids - k,
        {
            let ghost s_pre = self@;
            let dep = ids[k];
            let mut found = false;
            let ne = self.edges.len();
            let mut e: usize = 0;
            while e < ne
                invariant
                    e <= ne,
                    ne == self@.edges.len(),
                    self@ == s_pre,
                    found ==> has_edge(self@, tag.id, dep),
                    !found ==> forall|j: int|
                        0 <= j < e ==> #[trigger] self@.edges[j] != (tag.id, dep),
                decreases ne - e,
            {
                let pair = self.edges[e];
                if pair.0 == tag.id && pair.1 == dep {
                    found = true;
                    proof {
                        assert(self@.edges[e as int] == (tag.id, dep));
                    }
                    e = ne;
                } else {
                    e = e + 1;
                }
            }
            if !found {
                self.edges.push((tag.id, dep));
                proof {
                    let es = self@.edges;
                    let nn = s_pre.edges.len() as int;
                    assert forall|j: int| 0 <= j < es.len() implies has_tag_id(
                        self@,
                        (#[trigger] es[j]).0,
                    ) && has_tag_id(self@, es[j].1) by {
                        if j < nn {
                            assert(es[j] == s_pre.edges[j]);
                            assert(has_tag_id(s_pre, s_pre.edges[j].0) && has_tag_id(
                                s_pre,
                                s_pre.edges[j].1,
                            ));
                        } else {
                            assert(es[j] == (tag.id, dep));
                            assert(has_tag_id(g1, tag.id));
                            assert(name_resolves(g1, views[srcs[k as int]], dep));
                            let ti = choose|ti: int|
                                0 <= ti < g1.tags.len() && (#[trigger] g1.tags[ti]).name
                                    == views[srcs[k as int]] && g1.tags[ti].id == dep;
                            assert(has_tag_id(g1, dep));
                        }
                        assert(self@.tags == s_pre.tags && s_pre.tags == g1.tags);
                    }
                    assert forall|a: int, b: int| 0 <= a < b < es.len() implies (#[trigger] es[a])
                        != (#[trigger] es[b]) by {
                        if b == nn {
                            assert(es[a] == s_pre.edges[a]);
                        }
                    }
                    assert(tag_graph_wf(self@));
                    assert(g1.edges =~= self@.edges.take(g1.edges.len() as int));
                }
            }
            proof {
                assert(ids@.take(k + 1 as int) =~= ids@.take(k as int).push(dep));
                assert forall|a: i64, b: i64| #[trigger] has_edge(self@, a, b) <==> (has_edge(
                    g1,
                    a,
                    b,
                ) || (a == tag.id && ids@.take(k + 1 as int).contains(b))) by {
                    lemma_contains_push(ids@.take(k as int), dep, b);
                    if has_edge(self@, a, b) {
                        let j = choose|j: int|
                            0 <= j < self@.edges.len() && #[trigger] self@.edges[j] == (a, b);
                        if j < s_pre.edges.len() {
                            assert(has_edge(s_pre, a, b)) by {
                                assert(s_pre.edges[j] == (a, b));
                            }
                        } else {
                            assert((a, b) == (tag.id, dep));
                        }
                    }
                    if has_edge(g1, a, b) || (a == tag.id && ids@.take(k + 1 as int).contains(b)) {
                        if has_edge(g1, a, b) {
                            let j = choose|j: int|
                                0 <= j < g1.edges.len() && #[trigger] g1.edges[j] == (a, b);
                            assert(self@.edges[j] == (a, b));
                        } else if a == tag.id && ids@.take(k as int).contains(b) {
                            assert(has_edge(s_pre, a, b));
                            let j = choose|j: int|
                                0 <= j < s_pre.edges.len() && #[trigger] s_pre.edges[j] == (a, b);
                            assert(self@.edges[j] == (a, b));
                        } else {
                            assert(a == tag.id && b == dep);
                            if found {
                                assert(has_edge(s_pre, tag.id, dep));
                                let j = choose|j: int|
                                    0 <= j < s_pre.edges.len() && #[trigger] s_pre.edges[j] == (
                                        tag.id,
                                        dep,
                                    );
                                assert(self@.edges[j] == (a, b));
                            } else {
                                assert(self@.edges.last() == (tag.id, dep));
                            }
                        }
                    }
                }
            }
            k = k + 1;
        }
        proof {
            assert(ids@.take(nids as int) =~= ids@);
            assert(m0.edges == self@.edges.take(m0.edges.len() as int)) by {
                assert(g1.edges == m0.edges);
                assert(g1.edges == self@.edges.take(g1.edges.len() as int));
            }
            assert forall|a: i64, b: i64| #[trigger] has_edge(self@, a, b) <==> (has_edge(
                m0,
                a,
                b,
            ) || (a == tag.id && some_tok_resolves(self@, views, b))) by {
                lemma_edge_same(g1, m0, a, b);
                lemma_ids_names_set(g1, views, ids@, srcs, idx_for, b);
                assert forall|kk: int|
                    0 <= kk < views.len() && (#[trigger] views[kk]).len() > 0 implies
                    (name_resolves(g1, views[kk], b) <==> name_resolves(self@, views[kk], b)) by {
                    if name_resolves(g1, views[kk], b) {
                        let ti = choose|ti: int|
                            0 <= ti < g1.tags.len() && (#[trigger] g1.tags[ti]).name == views[kk]
                                && g1.tags[ti].id == b;
                        assert(self@.tags[ti] == g1.tags[ti]);
                    }
                    if name_resolves(self@, views[kk], b) {
                        let ti = choose|ti: int|
                            0 <= ti < self@.tags.len() && (#[trigger] self@.tags[ti]).name
                                == views[kk] && self@.tags[ti].id == b;
                        assert(g1.tags[ti] == self@.tags[ti]);
                    }
                }
            }
            let ii = tag_idx_by_id(m0.tags, tag.id);
            assert(ii == i as int);
            let renamed2 = TagGraphModel {
                tags: m0.tags.update(
                    ii,
                    TagRowModel { id: tag.id, name: tag.name@, description: tag.description@ },
                ),
                ..m0
            };
            assert(renamed2 == renamed);
            let toks = match &tag.deps {
                Some(d) => crate::text::split_ws_spec(d@),
                None => Seq::<Seq<char>>::empty(),
            };
            assert(toks == views);
            assert(spec_ensure_tags_ok(renamed2, toks));
            assert(self@.tags == spec_ensure_tags(renamed2, toks).tags);
            assert(self@.next_id == spec_ensure_tags(renamed2, toks).next_id);
            let dopt = match &tag.deps {
                Some(d) => Some(d@),
                None => None,
            };
            assert(spec_update_tag_ok(m0, self@, tag.id, tag.name@, tag.description@, dopt));
        }
        Ok(())
    }
}

} // verus!

verus! {

/// Item `item` carries some tag named `tok`.
pub open spec fn token_on_item(m: TagGraphModel, item: i64, tok: Seq<char>) -> bool {
    exists|t: i64| #[trigger] name_resolves(m, tok, t) && has_memb(m, item, t)
}

impl TagGraph {
    /// Whether `item` carries a tag named `name`.
    pub fn has_tag_on_item(&self, item: i64, name: &str) -> (r: bool)
        requires
            self.wf(),
        ensures
            r == token_on_item(self@, item, name@),
    {
        match self.find_tag_by_name(name) {
            None => {
                proof {
                    if exists|t: i64|
                        #[trigger] name_resolves(self@, name@, t) && has_memb(self@, item, t) {
                        let t = choose|t: i64|
                            #[trigger] name_resolves(self@, name@, t) && has_memb(self@, item, t);
                        let i = choose|i: int|
                            0 <= i < self@.tags.len() && (#[trigger] self@.tags[i]).name == name@
                                && self@.tags[i].id == t;
                        assert(has_tag_name(self@, name@));
                    }
                }
                false
            },
            Some(i) => {
                let id = self.tags[i].id;
                let r = self.memb_exec(item, id);
                proof {
                    assert(name_resolves(self@, name@, id)) by {
                        assert(self@.tags[i as int].name == name@ && self@.tags[i as int].id == id);
                    }
                    if !r {
                        if exists|t: i64|
                            #[trigger] name_resolves(self@, name@, t) && has_memb(self@, item, t) {
                            let t = choose|t: i64|
                                #[trigger] name_resolves(self@, name@, t) && has_memb(
                                    self@,
                                    item,
                                    t,
                                );
                            lemma_resolve_unique(self@, name@, t, id);
                        }
                    }
                }
                r
            },
        }
    }

    fn memb_exec(&self, item: i64, t: i64) -> (r: bool)
        ensures
            r == has_memb(self@, item, t),
    {
        let n = self.memberships.len();
        let mut i: usize = 0;
        while i < n
            invariant
                i <= n,
                n == self@.memberships.len(),
                forall|k: int| 0 <= k < i ==> #[trigger] self@.memberships[k] != (item, t),
            decreases n - i,
        {
            let pair = self.memberships[i];
            if pair.0 == item && pair.1 == t {
                proof {
                    assert(self@.memberships[i as int] == (item, t));
                }
                return true;
            }
            i = i + 1;
        }
        false
    }

    /// The stored tags, for read-only walks.
    pub fn tag_rows(&self) -> (r: &Vec<TagRow>)
        ensures
            r@.map_values(|t: TagRow| t@) == self@.tags,
    {
        &self.tags
    }

    /// The stored memberships, for read-only walks.
    pub fn membership_pairs(&self) -> (r: &Vec<(i64, i64)>)
        ensures
            r@ == self@.memberships,
    {
        &self.memberships
    }

    /// Attaches to `item` the tag candidates of a merged registry record:
    /// the extra tags (normalized), the model-type, flag, format, precision
    /// and size tags, each with its dependency closure.
    pub fn add_tag_from_model_info(
        &mut self,
        item: i64,
        extra_tags: &Vec<String>,
        model_info: &crate::sidecar::CivitaiModel,
        file_metadata: &crate::sidecar::CivitaiFileMetadata,
    ) -> (r: Result<(), StoreError>)
        requires
            old(self).wf(),
        ensures
            final(self).wf(),
            final(self)@.edges == old(self)@.edges,
            match r {
                Ok(()) => {
                    let cand = crate::sidecar::spec_derive_tags(
                        extra_tags.deep_view(),
                        model_info@,
                        file_metadata@,
                    );
                    &&& spec_ensure_tags_ok(old(self)@, cand)
                    &&& forall|t: i64|
                        #[trigger] has_memb(final(self)@, item, t) <==> (has_memb(
                            old(self)@,
                            item,
                            t,
                        ) || reachable_names(final(self)@, cand, t))
                    &&& forall|it: i64, t: i64|
                        it != item ==> (#[trigger] has_memb(final(self)@, it, t) <==> has_memb(
                            old(self)@,
                            it,
                            t,
                        ))
                },
                Err(e) => e == StoreError::CapacityExhausted && !spec_ensure_tags_ok(
                    old(self)@,
                    crate::sidecar::spec_derive_tags(
                        extra_tags.deep_view(),
                        model_info@,
                        file_metadata@,
                    ),
                ) && final(self)@.memberships == old(self)@.memberships,
            },
    {
        let cands = crate::sidecar::derive_tags(extra_tags, model_info, file_metadata);
        self.add_tag_item(item, &cands)
    }
}

} // verus!

verus! {

impl TagGraph {
    /// Deletes a tag with everything that hangs on it: its dependency edges
    /// (in either direction) and its memberships.  Deleting an unknown id
    /// changes nothing.
    pub fn delete(&mut self, id: i64)
        requires
            old(self).wf(),
        ensures
            final(self).wf(),
            final(self)@.tags == old(self)@.tags.filter(|t: TagRowModel| t.id != id),
            final(self)@.edges == old(self)@.edges.filter(
                |e: (i64, i64)| e.0 != id && e.1 != id,
            ),
            final(self)@.memberships == old(self)@.memberships.filter(
                |p: (i64, i64)| p.1 != id,
            ),
            final(self)@.next_id == old(self)@.next_id,
    {
        let ghost m0 = self@;
        let nt = self.tags.len();
        let mut kept_tags: Vec<TagRow> = Vec::new();
        let ghost mut tsrc: Seq<int> = Seq::empty();
        let mut i: usize = 0;
        proof {
            assert(m0.tags.take(0).filter(|t: TagRowModel| t.id != id) =~= Seq::<
                TagRowModel,
            >::empty()) by {
                reveal(Seq::filter);
            }
            assert(kept_tags@.map_values(|t: TagRow| t@) =~= Seq::<TagRowModel>::empty());
        }
        while i < nt
            invariant
                i <= nt,
                nt == self@.tags.len(),
                self@ == m0,
                tag_graph_wf(m0),
                kept_tags@.map_values(|t: TagRow| t@) == m0.tags.take(i as int).filter(
                    |t: TagRowModel| t.id != id,
                ),
                tsrc.len() == kept_tags@.len(),
                forall|k: int|
                    0 <= k < tsrc.len() ==> 0 <= #[trigger] tsrc[k] < i && kept_tags@.map_values(
                        |t: TagRow| t@,
                    )[k] == m0.tags[tsrc[k]],
                forall|a: int, b: int| 0 <= a < b < tsrc.len() ==> tsrc[a] < tsrc[b],
            decreases nt - i,
        {
            let ghost km = kept_tags@.map_values(|t: TagRow| t@);
            if self.tags[i].id != id {
                let t = &self.tags[i];
                kept_tags.push(
                    TagRow { id: t.id, name: t.name.clone(), description: t.description.clone() },
                );
                proof {
                    tsrc = tsrc.push(i as int);
                    assert(kept_tags@.map_values(|t2: TagRow| t2@) =~= km.push(m0.tags[i as int]));
                }
            }
            proof {
                assert(m0.tags.take(i + 1 as int).drop_last() =~= m0.tags.take(i as int));
                assert(m0.tags.take(i + 1 as int).last() == m0.tags[i as int]);
                reveal(Seq::filter);
            }
            i = i + 1;
        }
        let ne = self.edges.len();
        let mut kept_edges: Vec<(i64, i64)> = Vec::new();
        let ghost mut esrc: Seq<int> = Seq::empty();
        let mut j: usize = 0;
        proof {
            assert(m0.edges.take(0).filter(|e: (i64, i64)| e.0 != id && e.1 != id) =~= Seq::<
                (i64, i64),
            >::empty()) by {
                reveal(Seq::filter);
            }
        }
        while j < ne
            invariant
                j <= ne,
                ne == self@.edges.len(),
                self@ == m0,
                tag_graph_wf(m0),
                kept_edges@ == m0.edges.take(j as int).filter(
                    |e: (i64, i64)| e.0 != id && e.1 != id,
                ),
                esrc.len() == kept_edges@.len(),
                forall|k: int|
                    0 <= k < esrc.len() ==> 0 <= #[trigger] esrc[k] < j && kept_edges@[k]
                        == m0.edges[esrc[k]],
                forall|a: int, b: int| 0 <= a < b < esrc.len() ==> esrc[a] < esrc[b],
            decreases ne - j,
        {
            let e = self.edges[j];
            if e.0 != id && e.1 != id {
                kept_edges.push(e);
                proof {
                    esrc = esrc.push(j as int);
                }
            }
            proof {
                assert(m0.edges.take(j + 1 as int).drop_last() =~= m0.edges.take(j as int));
                assert(m0.edges.take(j + 1 as int).last() == m0.edges[j as int]);
                reveal(Seq::filter);
            }
            j = j + 1;
        }
        let nm = self.memberships.len();
        let mut kept_membs: Vec<(i64, i64)> = Vec::new();
        let ghost mut msrc: Seq<int> = Seq::empty();
        let mut k: usize = 0;
        proof {
            assert(m0.memberships.take(0).filter(|p: (i64, i64)| p.1 != id) =~= Seq::<
                (i64, i64),
            >::empty()) by {
                reveal(Seq::filter);
            }
        }
        while k < nm
            invariant
                k <= nm,
                nm == self@.memberships.len(),
                self@ == m0,
                tag_graph_wf(m0),
                kept_membs@ == m0.memberships.take(k as int).filter(|p: (i64, i64)| p.1 != id),
                msrc.len() == kept_membs@.len(),
                forall|kk: int|
                    0 <= kk < msrc.len() ==> 0 <= #[trigger] msrc[kk] < k && kept_membs@[kk]
                        == m0.memberships[msrc[kk]],
                forall|a: int, b: int| 0 <= a < b < msrc.len() ==> msrc[a] < msrc[b],
            decreases nm - k,
        {
            let p = self.memberships[k];
            if p.1 != id {
                kept_membs.push(p);
                proof {
                    msrc = msrc.push(k as int);
                }
            }
            proof {
                assert(m0.memberships.take(k + 1 as int).drop_last() =~= m0.memberships.take(
                    k as int,
                ));
                assert(m0.memberships.take(k + 1 as int).last() == m0.memberships[k as int]);
                reveal(Seq::filter);
            }
            k = k + 1;
        }
        self.tags = kept_tags;
        self.edges = kept_edges;
        self.memberships = kept_membs;
        proof {
            assert(m0.tags.take(nt as int) =~= m0.tags);
            assert(m0.edges.take(ne as int) =~= m0.edges);
            assert(m0.memberships.take(nm as int) =~= m0.memberships);
            let ts = self@.tags;
            assert forall|a: int| 0 <= a < ts.len() implies 1 <= (#[trigger] ts[a]).id
                < self@.next_id by {
                assert(ts[a] == m0.tags[tsrc[a]]);
            }
            assert forall|a: int, b: int| 0 <= a < b < ts.len() implies (#[trigger] ts[a]).id != (
            #[trigger] ts[b]).id by {
                assert(ts[a] == m0.tags[tsrc[a]] && ts[b] == m0.tags[tsrc[b]]);
            }
            assert forall|a: int, b: int| 0 <= a < b < ts.len() implies (#[trigger] ts[a]).name
                != (#[trigger] ts[b]).name by {
                assert(ts[a] == m0.tags[tsrc[a]] && ts[b] == m0.tags[tsrc[b]]);
            }
            assert forall|a: int, b: int| 0 <= a < b < self@.edges.len() implies (
            #[trigger] self@.edges[a]) != (#[trigger] self@.edges[b]) by {
                assert(self@.edges[a] == m0.edges[esrc[a]] && self@.edges[b] == m0.edges[esrc[b]]);
            }
            assert forall|a: int, b: int| 0 <= a < b < self@.memberships.len() implies (
            #[trigger] self@.memberships[a]) != (#[trigger] self@.memberships[b]) by {
                assert(self@.memberships[a] == m0.memberships[msrc[a]] && self@.memberships[b]
                    == m0.memberships[msrc[b]]);
            }
            assert forall|a: int| 0 <= a < self@.edges.len() implies has_tag_id(
                self@,
                (#[trigger] self@.edges[a]).0,
            ) && has_tag_id(self@, self@.edges[a].1) by {
                assert(self@.edges[a] == m0.edges[esrc[a]]);
                lemma_surviving_tag(m0, self@, id, m0.edges[esrc[a]].0);
                lemma_surviving_tag(m0, self@, id, m0.edges[esrc[a]].1);
            }
            assert forall|a: int| 0 <= a < self@.memberships.len() implies has_tag_id(
                self@,
                (#[trigger] self@.memberships[a]).1,
            ) by {
                assert(self@.memberships[a] == m0.memberships[msrc[a]]);
                lemma_surviving_tag(m0, self@, id, m0.memberships[msrc[a]].1);
            }
            assert(tag_graph_wf(self@));
        }
    }
}

/// A tag other than the deleted one survives the cascade.
proof fn lemma_surviving_tag(m0: TagGraphModel, m1: TagGraphModel, deleted: i64, t: i64)
    requires
        tag_graph_wf(m0),
        has_tag_id(m0, t),
        t != deleted,
        m1.tags == m0.tags.filter(|tr: TagRowModel| tr.id != deleted),
    ensures
        has_tag_id(m1, t),
{
    let i = choose|i: int| 0 <= i < m0.tags.len() && (#[trigger] m0.tags[i]).id == t;
    m0.tags.lemma_filter_contains(|tr: TagRowModel| tr.id != deleted, i);
    let j = choose|j: int| 0 <= j < m1.tags.len() && m1.tags[j] == m0.tags[i];
    assert(m1.tags[j].id == t);
}

} // verus!

verus! {

/// The ids a tag's dependency edges point at, in edge order.
pub open spec fn dep_ids(m: TagGraphModel, id: i64) -> Seq<i64> {
    m.edges.filter(|e: (i64, i64)| e.0 == id).map_values(|e: (i64, i64)| e.1)
}

/// The stored name of a tag id (empty when no tag has the id).
pub open spec fn tag_name_of(m: TagGraphModel, t: i64) -> Seq<char> {
    let i = tag_idx_by_id(m.tags, t);
    if i >= 0 {
        m.tags[i].name
    } else {
        Seq::empty()
    }
}

/// The names of a tag's direct dependencies, in edge order.
pub open spec fn dep_names(m: TagGraphModel, id: i64) -> Seq<Seq<char>> {
    dep_ids(m, id).map_values(|t: i64| tag_name_of(m, t))
}

/// The dependency names drawn from the first `k` edges.
spec fn deps_pref(m: TagGraphModel, id: i64, k: int) -> Seq<Seq<char>> {
    m.edges.take(k).filter(|e: (i64, i64)| e.0 == id).map_values(
        |e: (i64, i64)| e.1,
    ).map_values(|t: i64| tag_name_of(m, t))
}

/// Extending the edge prefix by one edge appends at most one name.
proof fn lemma_deps_pref_step(m: TagGraphModel, id: i64, k: int)
    requires
        0 <= k < m.edges.len(),
    ensures
        deps_pref(m, id, k + 1) == if m.edges[k].0 == id {
            deps_pref(m, id, k).push(tag_name_of(m, m.edges[k].1))
        } else {
            deps_pref(m, id, k)
        },
{
    reveal(Seq::filter);
    assert(m.edges.take(k + 1).drop_last() =~= m.edges.take(k));
    assert(m.edges.take(k + 1).last() == m.edges[k]);
    let fil0 = m.edges.take(k).filter(|e: (i64, i64)| e.0 == id);
    let fil1 = m.edges.take(k + 1).filter(|e: (i64, i64)| e.0 == id);
    if m.edges[k].0 == id {
        assert(fil1 == fil0.push(m.edges[k]));
        assert(fil1.map_values(|e: (i64, i64)| e.1) =~= fil0.map_values(
            |e: (i64, i64)| e.1,
        ).push(m.edges[k].1));
        assert(fil1.map_values(|e: (i64, i64)| e.1).map_values(|t: i64| tag_name_of(m, t))
            =~= fil0.map_values(|e: (i64, i64)| e.1).map_values(|t: i64| tag_name_of(m, t)).push(
            tag_name_of(m, m.edges[k].1),
        ));
    } else {
        assert(fil1 == fil0);
    }
}

/// The whole edge prefix yields exactly the dependency names.
proof fn lemma_deps_pref_full(m: TagGraphModel, id: i64)
    ensures
        deps_pref(m, id, m.edges.len() as int) == dep_names(m, id),
{
    assert(m.edges.take(m.edges.len() as int) =~= m.edges);
}

/// The empty edge prefix yields no names.
proof fn lemma_deps_pref_zero(m: TagGraphModel, id: i64)
    ensures
        deps_pref(m, id, 0) == Seq::<Seq<char>>::empty(),
{
    reveal(Seq::filter);
    assert(m.edges.take(0) =~= Seq::<(i64, i64)>::empty());
    assert(deps_pref(m, id, 0) =~= Seq::<Seq<char>>::empty());
}

/// Sequence of names joined with single spaces.
pub open spec fn join_sp(names: Seq<Seq<char>>) -> Seq<char>
    decreases names.len(),
{
    if names.len() == 0 {
        Seq::empty()
    } else if names.len() == 1 {
        names[0]
    } else {
        join_sp(names.drop_last()) + seq![' '] + names.last()
    }
}

impl TagGraph {
    fn name_of_exec(&self, t: i64) -> (r: String)
        requires
            self.wf(),
        ensures
            r@ == tag_name_of(self@, t),
    {
        match self.find_tag_by_id(t) {
            Some(i) => self.tags[i].name.clone(),
            None => {
                proof {
                    assert(tag_idx_by_id(self@.tags, t) == -1);
                }
                String::new()
            },
        }
    }

    /// The detail view of the tag named `name`: its row together with the
    /// names of its direct dependencies joined into one space-separated
    /// string (`None` when it has no dependencies).  Fails with `NotFound`
    /// if and only if no tag has the name.
    #[verifier::rlimit(50)]
    pub fn get_tag_by_name(&self, name: &str) -> (r: Result<Tag, StoreError>)
        requires
            self.wf(),
        ensures
            match r {
                Ok(tag) => {
                    let i = tag_idx_by_name(self@.tags, name@);
                    &&& i >= 0
                    &&& tag.id == self@.tags[i].id
                    &&& tag.name@ == self@.tags[i].name
                    &&& tag.description@ == self@.tags[i].description
                    &&& (match tag.deps {
                        Some(d) => dep_names(self@, tag.id).len() > 0 && d@ == join_sp(
                            dep_names(self@, tag.id),
                        ),
                        None => dep_names(self@, tag.id).len() == 0,
                    })
                },
                Err(e) => e == StoreError::NotFound && !has_tag_name(self@, name@),
            },
    {
        let i = match self.find_tag_by_name(name) {
            Some(i) => i,
            None => {
                return Err(StoreError::NotFound);
            },
        };
        let id = self.tags[i].id;
        let ne = self.edges.len();
        let mut names: Vec<String> = Vec::new();
        let mut k: usize = 0;
        proof {
            lemma_deps_pref_zero(self@, id);
            assert(names.deep_view() =~= Seq::<Seq<char>>::empty());
        }
        while k < ne
            invariant
                k <= ne,
                self.wf(),
                ne == self@.edges.len(),
                names.deep_view() == deps_pref(self@, id, k as int),
            decreases ne - k,
        {
            let ghost pre = names.deep_view();
            let e = self.edges[k];
            if e.0 == id {
                let nm = self.name_of_exec(e.1);
                names.push(nm);
                proof {
                    assert(names.deep_view() =~= pre.push(tag_name_of(self@, e.1)));
                }
            }
            proof {
                lemma_deps_pref_step(self@, id, k as int);
            }
            k = k + 1;
        }
        proof {
            lemma_deps_pref_full(self@, id);
            assert(names.deep_view() == dep_names(self@, id));
        }
        let nn = names.len();
        let deps: Option<String> = if nn == 0 {
            None
        } else {
            let mut joined = names[0].clone();
            let mut j: usize = 1;
            proof {
                assert(dep_names(self@, id).take(1) =~= seq![names.deep_view()[0]]);
                assert(join_sp(dep_names(self@, id).take(1)) == names.deep_view()[0]);
            }
            while j < nn
                invariant
                    1 <= j <= nn,
                    nn == names.deep_view().len(),
                    names.deep_view() == dep_names(self@, id),
                    joined@ == join_sp(dep_names(self@, id).take(j as int)),
                decreases nn - j,
            {
                joined.append(" ");
                joined.append(names[j].as_str());
                proof {
                    let dn = dep_names(self@, id);
                    reveal_strlit(" ");
                    assert(" "@ =~= seq![' ']);
                    assert(names@[j as int]@ == dn[j as int]);
                    assert(dn.take(j + 1 as int).drop_last() =~= dn.take(j as int));
                    assert(dn.take(j + 1 as int).last() == dn[j as int]);
                    assert(join_sp(dn.take(j + 1 as int)) == join_sp(dn.take(j as int)) + seq![' ']
                        + dn[j as int]);
                    assert(joined@ =~= join_sp(dn.take(j as int)) + seq![' '] + dn[j as int]);
                }
                j = j + 1;
            }
            proof {
                assert(dep_names(self@, id).take(nn as int) =~= dep_names(self@, id));
            }
            Some(joined)
        };
        Ok(
            Tag {
                id,
                name: self.tags[i].name.clone(),
                description: self.tags[i].description.clone(),
                deps,
            },
        )
    }
}

} // verus!
