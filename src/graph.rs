use vstd::prelude::*;
use crate::load::{
    LoadError, last_title, link_fields, link_pairs, link_targets, index_in, listed, page_fields,
    page_pairs, parse_link_line, parse_page_line,
};

verus! {

/// Why a shortest-path query could not be answered.
#[derive(Debug, Clone, Copy, PartialEq, Eq, Structural)]
pub enum PathError {
    /// No page carries the start title.
    StartNotFound,
    /// No page carries the goal title.
    GoalNotFound,
}


/// The set of indices marked `true`.
pub open spec fn marked(v: Seq<bool>) -> Set<int> {
    Set::new(|i: int| 0 <= i < v.len() && v[i])
}

/// Every index in `items` is marked in `v`.
pub open spec fn all_marked(items: Seq<usize>, v: Seq<bool>) -> bool {
    forall|k: int| 0 <= k < items.len() ==> v[#[trigger] items[k] as int]
}

/// `k` is the first position of `v` in `xs`.
pub open spec fn first_at(xs: Seq<usize>, v: usize, k: int) -> bool {
    &&& 0 <= k < xs.len()
    &&& xs[k] == v
    &&& forall|j: int| 0 <= j < k ==> xs[j] != v
}

/// The first position of `v` in `xs`.
pub open spec fn first_pos(xs: Seq<usize>, v: usize) -> int {
    choose|k: int| first_at(xs, v, k)
}

/// `a` comes strictly before `b` in lexicographic order.
pub open spec fn lex_lt(a: Seq<int>, b: Seq<int>) -> bool {
    exists|i: int|
        #![trigger a[i], b[i]]
        0 <= i < a.len() && i < b.len() && a[i] < b[i] && (forall|j: int|
            0 <= j < i ==> a[j] == b[j])
}

/// `a` equals `b` or comes before it in lexicographic order.
pub open spec fn lex_le(a: Seq<int>, b: Seq<int>) -> bool {
    a == b || lex_lt(a, b)
}

proof fn lemma_first_pos(xs: Seq<usize>, v: usize, k: int)
    requires
        first_at(xs, v, k),
    ensures
        first_pos(xs, v) == k,
{
    let k2 = first_pos(xs, v);
    assert(first_at(xs, v, k2));
    if k2 < k {
        assert(xs[k2] != v);
    } else if k < k2 {
        assert(xs[k] != v);
    }
}

proof fn lemma_lex_trans(a: Seq<int>, b: Seq<int>, c: Seq<int>)
    requires
        a.len() == b.len(),
        b.len() == c.len(),
        lex_lt(a, b),
        lex_le(b, c),
    ensures
        lex_lt(a, c),
{
    if b != c {
        let i = choose|i: int|
            #![trigger a[i], b[i]]
            0 <= i < a.len() && i < b.len() && a[i] < b[i] && (forall|j: int|
                0 <= j < i ==> a[j] == b[j]);
        let j = choose|j: int|
            #![trigger b[j], c[j]]
            0 <= j < b.len() && j < c.len() && b[j] < c[j] && (forall|t: int|
                0 <= t < j ==> b[t] == c[t]);
        let m = if i < j {
            i
        } else {
            j
        };
        assert(a[m] < c[m]);
        assert(forall|t: int| 0 <= t < m ==> a[t] == c[t]);
    }
}

proof fn lemma_lex_push_lt(a: Seq<int>, b: Seq<int>, x: int, y: int)
    requires
        lex_lt(a, b),
    ensures
        lex_lt(a.push(x), b.push(y)),
{
    let i = choose|i: int|
        #![trigger a[i], b[i]]
        0 <= i < a.len() && i < b.len() && a[i] < b[i] && (forall|j: int|
            0 <= j < i ==> a[j] == b[j]);
    assert(a.push(x)[i] < b.push(y)[i]);
    assert(forall|j: int| 0 <= j < i ==> a.push(x)[j] == b.push(y)[j]);
}

proof fn lemma_lex_push_eq(a: Seq<int>, x: int, y: int)
    requires
        x < y,
    ensures
        lex_lt(a.push(x), a.push(y)),
{
    let i = a.len() as int;
    assert(a.push(x)[i] < a.push(y)[i]);
    assert(forall|j: int| 0 <= j < i ==> a.push(x)[j] == a.push(y)[j]);
}

/// The character sequences of a sequence of strings.
pub open spec fn strings_view(v: Seq<String>) -> Seq<Seq<char>> {
    v.map_values(|x: String| x@)
}

/// Some walk in `paths` ends at page `u`.
pub open spec fn ends_in(paths: Seq<Vec<usize>>, u: int) -> bool {
    exists|f: int| 0 <= f < paths.len() && #[trigger] paths[f]@.last() == u
}

proof fn lemma_marked_len(v: Seq<bool>)
    ensures
        marked(v).finite(),
        marked(v).len() <= v.len(),
{
    vstd::set_lib::lemma_int_range(0, v.len() as int);
    vstd::set_lib::lemma_len_subset(marked(v), vstd::set_lib::set_int_range(0, v.len() as int));
}

proof fn lemma_mark(v: Seq<bool>, x: int)
    requires
        0 <= x < v.len(),
        !v[x],
    ensures
        marked(v.update(x, true)).len() == marked(v).len() + 1,
        marked(v.update(x, true)).len() <= v.len(),
{
    lemma_marked_len(v);
    lemma_marked_len(v.update(x, true));
    assert(marked(v.update(x, true)) =~= marked(v).insert(x));
}

/// A copy of the walk `p`.
fn copy_path(p: &Vec<usize>) -> (r: Vec<usize>)
    ensures
        r@ == p@,
{
    let mut r: Vec<usize> = Vec::new();
    let mut i: usize = 0;
    while i < p.len()
        invariant
            i <= p@.len(),
            r@ == p@.subrange(0, i as int),
        decreases p@.len() - i,
    {
        r.push(p[i]);
        i += 1;
    }
    assert(p@.subrange(0, p@.len() as int) =~= p@);
    r
}

/// A directed, unweighted link graph over titled pages.
///
/// Page `i` (a dense index) has the integer id `ids[i]`, the title
/// `titles[i]`, and the ordered successor list `links[i]`, whose entries are
/// indices of other pages. Ids are unique.
pub struct Wikipedia {
    ids: Vec<i32>,
    titles: Vec<String>,
    links: Vec<Vec<usize>>,
}

impl Wikipedia {
    /// Number of pages.
    pub closed spec fn node_count(&self) -> nat {
        self.ids@.len()
    }

    /// Id of page `i`.
    pub closed spec fn id_at(&self, i: int) -> i32 {
        self.ids@[i]
    }

    /// Title of page `i`.
    pub closed spec fn title_at(&self, i: int) -> Seq<char> {
        self.titles@[i]@
    }

    /// Successors of page `i`, in stored order.
    pub closed spec fn succs(&self, i: int) -> Seq<usize> {
        self.links@[i]@
    }

    /// The representation is consistent: parallel tables of one length,
    /// unique ids, and every link pointing at an existing page.
    pub closed spec fn wf(&self) -> bool {
        &&& self.titles@.len() == self.ids@.len()
        &&& self.links@.len() == self.ids@.len()
        &&& forall|i: int, j: int|
            0 <= i < self.ids@.len() && 0 <= j < self.ids@.len() && i != j ==> self.ids@[i]
                != self.ids@[j]
        &&& forall|i: int, k: int|
            0 <= i < self.ids@.len() && 0 <= k < self.links@[i]@.len() ==> self.links@[i]@[k]
                < self.ids@.len()
    }

    /// Page with id `id`, if any.
    pub open spec fn has_id(&self, id: i32) -> bool {
        exists|i: int| 0 <= i < self.node_count() && self.id_at(i) == id
    }

    /// Some page carries the title `t`.
    pub open spec fn has_title(&self, t: Seq<char>) -> bool {
        exists|i: int| 0 <= i < self.node_count() && self.title_at(i) == t
    }

    /// Page `i` is the page a query for title `t` resolves to: among the pages
    /// titled `t`, the one with the lowest id.
    pub open spec fn resolves_to(&self, t: Seq<char>, i: int) -> bool {
        &&& 0 <= i < self.node_count()
        &&& self.title_at(i) == t
        &&& forall|j: int|
            0 <= j < self.node_count() && self.title_at(j) == t ==> self.id_at(i) <= self.id_at(j)
    }

    /// There is a link from page `u` to page `v`.
    pub open spec fn has_edge(&self, u: int, v: int) -> bool {
        self.succs(u).contains(v as usize)
    }

    /// `p` is a walk along links: non-empty, over existing pages, each step a
    /// link.
    pub open spec fn is_path(&self, p: Seq<usize>) -> bool {
        &&& p.len() >= 1
        &&& forall|i: int| 0 <= i < p.len() ==> p[i] < self.node_count()
        &&& forall|i: int| 0 <= i < p.len() - 1 ==> #[trigger] self.has_edge(p[i] as int, p[i + 1] as int)
    }

    /// `p` is a walk from page `s` to page `g`.
    pub open spec fn is_path_between(&self, p: Seq<usize>, s: int, g: int) -> bool {
        &&& self.is_path(p)
        &&& p[0] == s
        &&& p.last() == g
    }

    /// Page `g` can be reached from page `s`.
    pub open spec fn reachable(&self, s: int, g: int) -> bool {
        exists|p: Seq<usize>| self.is_path_between(p, s, g)
    }

    /// `p` is a walk from `s` to `g` with no fewer pages than any other.
    pub open spec fn is_shortest_path(&self, p: Seq<usize>, s: int, g: int) -> bool {
        &&& self.is_path_between(p, s, g)
        &&& forall|q: Seq<usize>| #[trigger] self.is_path_between(q, s, g) ==> p.len() <= q.len()
    }

    /// The step key of a walk: for each step, the first position of the page
    /// stepped to in the successor list of the page stepped from.
    pub open spec fn step_key(&self, p: Seq<usize>) -> Seq<int> {
        Seq::new((p.len() - 1) as nat, |i: int| first_pos(self.succs(p[i] as int), p[i + 1]))
    }

    /// `p` is a shortest walk from `s` to `g`, and among those the one whose
    /// step key is lexicographically least: the walk breadth-first search
    /// meets first when it takes successors in stored order.
    pub open spec fn is_first_shortest_path(&self, p: Seq<usize>, s: int, g: int) -> bool {
        &&& self.is_shortest_path(p, s, g)
        &&& forall|q: Seq<usize>|
            #[trigger] self.is_shortest_path(q, s, g) ==> lex_le(self.step_key(p), self.step_key(q))
    }

    proof fn lemma_key_push(&self, p: Seq<usize>, v: usize)
        requires
            p.len() >= 1,
        ensures
            self.step_key(p.push(v)) == self.step_key(p).push(
                first_pos(self.succs(p.last() as int), v),
            ),
    {
        assert(self.step_key(p.push(v)) =~= self.step_key(p).push(
            first_pos(self.succs(p.last() as int), v),
        ));
    }

    /// A walk that extends the `i`-th walk of a breadth-first level by the
    /// first occurrence of a page not yet seen has the least step key among
    /// walks of its length to that page.
    proof fn lemma_new_entry_first(
        &self,
        frontier: Seq<Vec<usize>>,
        visited0: Seq<bool>,
        visited: Seq<bool>,
        s: usize,
        level: int,
        i: int,
        k: int,
        v: usize,
    )
        requires
            self.wf(),
            visited0.len() == self.node_count(),
            visited.len() == self.node_count(),
            0 <= i < frontier.len(),
            first_at(self.succs(frontier[i]@.last() as int), v, k),
            !visited[v as int],
            forall|x: int| 0 <= x < visited.len() && visited0[x] ==> visited[x],
            forall|f: int|
                0 <= f < frontier.len() ==> {
                    &&& self.is_path(#[trigger] frontier[f]@)
                    &&& frontier[f]@[0] == s
                    &&& frontier[f]@.len() == level + 1
                },
            forall|a: int, b: int|
                0 <= a < b < frontier.len() ==> lex_lt(
                    self.step_key(#[trigger] frontier[a]@),
                    self.step_key(#[trigger] frontier[b]@),
                ),
            forall|a: int, q: Seq<usize>|
                0 <= a < frontier.len() && #[trigger] self.is_path(q) && q[0] == s && q.len()
                    == level + 1 && q.last() == #[trigger] frontier[a]@.last() ==> lex_le(
                    self.step_key(frontier[a]@),
                    self.step_key(q),
                ),
            forall|f: int|
                0 <= f < i ==> all_marked(self.succs(#[trigger] frontier[f]@.last() as int), visited),
            forall|p: Seq<usize>|
                #[trigger] self.is_path(p) && p[0] == s && p.len() <= level + 1 ==> visited0[p.last() as int],
            forall|u: int|
                0 <= u < visited0.len() && #[trigger] visited0[u] ==> ends_in(frontier, u)
                    || all_marked(self.succs(u), visited0),
        ensures
            forall|q: Seq<usize>|
                #[trigger] self.is_path(q) && q[0] == s && q.len() == level + 2 && q.last() == v
                    ==> lex_le(self.step_key(frontier[i]@.push(v)), self.step_key(q)),
    {
        let fi = frontier[i]@;
        assert forall|q: Seq<usize>|
            #[trigger] self.is_path(q) && q[0] == s && q.len() == level + 2 && q.last() == v implies lex_le(
            self.step_key(fi.push(v)),
            self.step_key(q),
        ) by {
            let n = self.node_count();
            let qq = q.drop_last();
            assert forall|e: int| 0 <= e < qq.len() - 1 implies #[trigger] self.has_edge(
                qq[e] as int,
                qq[e + 1] as int,
            ) by {
                assert(self.has_edge(q[e] as int, q[e + 1] as int));
                assert(qq[e] == q[e] && qq[e + 1] == q[e + 1]);
            }
            assert forall|e: int| 0 <= e < qq.len() implies qq[e] < n by {
                assert(qq[e] == q[e]);
            }
            assert(self.is_path(qq));
            assert(q =~= qq.push(v));
            let w = qq.last() as int;
            assert(visited0[w]);
            let e = q.len() - 2;
            assert(self.has_edge(q[e] as int, q[e + 1] as int));
            let kk = choose|kk: int| 0 <= kk < self.succs(w).len() && self.succs(w)[kk] == v;
            if !ends_in(frontier, w) {
                assert(visited0[self.succs(w)[kk] as int]);
            }
            let b = choose|b: int| 0 <= b < frontier.len() && #[trigger] frontier[b]@.last() == w;
            self.lemma_key_push(qq, v);
            self.lemma_key_push(fi, v);
            assert(lex_le(self.step_key(frontier[b]@), self.step_key(qq)));
            if b < i {
                assert(visited[self.succs(w)[kk] as int]);
            } else if b == i {
                lemma_first_pos(self.succs(w), v, k);
                if self.step_key(fi) != self.step_key(qq) {
                    lemma_lex_push_lt(self.step_key(fi), self.step_key(qq), k, k);
                }
            } else {
                assert(lex_lt(self.step_key(frontier[i]@), self.step_key(frontier[b]@)));
                lemma_lex_trans(self.step_key(fi), self.step_key(frontier[b]@), self.step_key(qq));
                lemma_lex_push_lt(
                    self.step_key(fi),
                    self.step_key(qq),
                    k,
                    first_pos(self.succs(w), v),
                );
            }
        }
    }

    /// The titles along a walk.
    pub open spec fn titles_of(&self, p: Seq<usize>) -> Seq<Seq<char>> {
        p.map_values(|i: usize| self.title_at(i as int))
    }

    /// What a successful query returns for the resolved pages `s` and `g`:
    /// `None` when no walk joins them, else the titles along the shortest walk
    /// with the least step key.
    pub open spec fn found_between(&self, found: Option<Vec<String>>, s: int, g: int) -> bool {
        match found {
            None => !self.reachable(s, g),
            Some(v) => exists|p: Seq<usize>|
                #[trigger] self.is_first_shortest_path(p, s, g) && strings_view(v@) == self.titles_of(p),
        }
    }

    /// What a query for a shortest path from the page titled `start` to the
    /// page titled `goal` answers: an unknown start title, else an unknown
    /// goal title, is an error; otherwise the answer is `found_between` the
    /// pages the two titles resolve to.
    pub open spec fn answers(
        &self,
        start: Seq<char>,
        goal: Seq<char>,
        r: Result<Option<Vec<String>>, PathError>,
    ) -> bool {
        match r {
            Err(PathError::StartNotFound) => !self.has_title(start),
            Err(PathError::GoalNotFound) => self.has_title(start) && !self.has_title(goal),
            Ok(found) => {
                &&& exists|s: int, g: int|
                    #![trigger self.resolves_to(start, s), self.resolves_to(goal, g)]
                    self.resolves_to(start, s) && self.resolves_to(goal, g)
                &&& forall|s: int, g: int|
                    #![trigger self.resolves_to(start, s), self.resolves_to(goal, g)]
                    self.resolves_to(start, s) && self.resolves_to(goal, g) ==> self.found_between(
                        found,
                        s,
                        g,
                    )
            },
        }
    }

    /// A title resolves to at most one page.
    pub proof fn lemma_resolution_unique(&self, t: Seq<char>, i: int, j: int)
        requires
            self.wf(),
            self.resolves_to(t, i),
            self.resolves_to(t, j),
        ensures
            i == j,
    {
    }

    /// When a link joins the page titled `a` to a differently titled page
    /// titled `b`, the shortest path from `a` to `b` is exactly `[a, b]`.
    pub proof fn lemma_direct_link(
        &self,
        a: Seq<char>,
        b: Seq<char>,
        s: usize,
        t: usize,
        r: Result<Option<Vec<String>>, PathError>,
    )
        requires
            self.wf(),
            self.answers(a, b, r),
            self.resolves_to(a, s as int),
            self.resolves_to(b, t as int),
            self.has_edge(s as int, t as int),
            a != b,
        ensures
            match r {
                Ok(Some(v)) => strings_view(v@) == seq![a, b],
                _ => false,
            },
    {
        let q = seq![s as usize, t as usize];
        assert(self.has_edge(q[0] as int, q[1] as int));
        assert(self.is_path_between(q, s as int, t as int));
        match r {
            Ok(found) => {
                assert(self.found_between(found, s as int, t as int));
                match found {
                    None => {},
                    Some(v) => {
                        let p = choose|p: Seq<usize>|
                            #[trigger] self.is_shortest_path(p, s as int, t as int) && strings_view(v@) == self.titles_of(p);
                        assert(p.len() <= 2);
                        assert(p.len() == 2);
                        assert(self.titles_of(p) =~= seq![a, b]);
                    },
                }
            },
            Err(_) => {},
        }
    }

    /// When the page titled `a` reaches the page titled `c` in two links but
    /// not in one, the shortest path has three titles: `a`, the title of a
    /// page linked from `a` that links to `c`, and `c`.
    pub proof fn lemma_two_links(
        &self,
        a: Seq<char>,
        c: Seq<char>,
        s: usize,
        m: usize,
        t: usize,
        r: Result<Option<Vec<String>>, PathError>,
    )
        requires
            self.wf(),
            self.answers(a, c, r),
            self.resolves_to(a, s as int),
            self.resolves_to(c, t as int),
            m < self.node_count(),
            self.has_edge(s as int, m as int),
            self.has_edge(m as int, t as int),
            !self.has_edge(s as int, t as int),
            a != c,
        ensures
            match r {
                Ok(Some(v)) => {
                    &&& v@.len() == 3
                    &&& v@[0]@ == a
                    &&& v@[2]@ == c
                    &&& exists|k: int|
                        0 <= k < self.node_count() && self.has_edge(s as int, k) && self.has_edge(k, t as int)
                            && v@[1]@ == #[trigger] self.title_at(k)
                },
                _ => false,
            },
    {
        let q = seq![s as usize, m as usize, t as usize];
        assert(self.has_edge(q[0] as int, q[1] as int));
        assert(self.has_edge(q[1] as int, q[2] as int));
        assert(self.is_path_between(q, s as int, t as int));
        match r {
            Ok(found) => {
                assert(self.found_between(found, s as int, t as int));
                match found {
                    None => {},
                    Some(v) => {
                        let p = choose|p: Seq<usize>|
                            #[trigger] self.is_shortest_path(p, s as int, t as int) && strings_view(v@) == self.titles_of(p);
                        assert(p.len() <= 3);
                        let e0: int = 0;
                        let e1: int = 1;
                        if p.len() == 1 {
                            assert(self.title_at(s as int) == self.title_at(t as int));
                        }
                        assert(self.has_edge(p[e0] as int, p[e0 + 1] as int));
                        assert(p.len() == 3);
                        assert(self.has_edge(p[e1] as int, p[e1 + 1] as int));
                        let vs = strings_view(v@);
                        assert(vs.len() == self.titles_of(p).len());
                        assert(v@.len() == 3);
                        assert(vs[1] == v@[1]@);
                        assert(vs[0] == v@[0]@);
                        assert(vs[2] == v@[2]@);
                        assert(v@[1]@ == self.title_at(p[1] as int));
                    },
                }
            },
            Err(_) => {},
        }
    }

    /// A query whose start or goal title no page carries fails; it never
    /// succeeds with any path or with `None`.
    pub proof fn lemma_unknown_title(
        &self,
        a: Seq<char>,
        b: Seq<char>,
        r: Result<Option<Vec<String>>, PathError>,
    )
        requires
            self.answers(a, b, r),
            !self.has_title(a) || !self.has_title(b),
        ensures
            r is Err,
            !self.has_title(a) ==> r == Err::<Option<Vec<String>>, PathError>(
                PathError::StartNotFound,
            ),
    {
    }

    /// A query from a known title to itself answers the one-title path.
    pub proof fn lemma_same_title(
        &self,
        a: Seq<char>,
        s: usize,
        r: Result<Option<Vec<String>>, PathError>,
    )
        requires
            self.wf(),
            self.answers(a, a, r),
            self.resolves_to(a, s as int),
        ensures
            match r {
                Ok(Some(v)) => strings_view(v@) == seq![a],
                _ => false,
            },
    {
        match r {
            Ok(found) => {
                let q = seq![s];
                assert(self.is_path_between(q, s as int, s as int));
                assert(self.found_between(found, s as int, s as int));
                match found {
                    None => {},
                    Some(v) => {
                        let p = choose|p: Seq<usize>|
                            #[trigger] self.is_shortest_path(p, s as int, s as int) && strings_view(v@) == self.titles_of(p);
                        assert(p.len() <= 1);
                        assert(self.titles_of(p) =~= seq![a]);
                    },
                }
            },
            Err(_) => {},
        }
    }

    /// When both titles are known but no walk joins their pages, the answer
    /// is `Ok(None)`: absent, not an error and not a made-up path.
    pub proof fn lemma_no_route(
        &self,
        a: Seq<char>,
        b: Seq<char>,
        s: usize,
        t: usize,
        r: Result<Option<Vec<String>>, PathError>,
    )
        requires
            self.wf(),
            self.answers(a, b, r),
            self.resolves_to(a, s as int),
            self.resolves_to(b, t as int),
            !self.reachable(s as int, t as int),
        ensures
            r == Ok::<Option<Vec<String>>, PathError>(None),
    {
        match r {
            Ok(found) => {
                assert(self.found_between(found, s as int, t as int));
                match found {
                    None => {},
                    Some(v) => {
                        let p = choose|p: Seq<usize>|
                            #[trigger] self.is_shortest_path(p, s as int, t as int) && strings_view(v@) == self.titles_of(p);
                        assert(self.is_path_between(p, s as int, t as int));
                    },
                }
            },
            Err(_) => {},
        }
    }

    /// An empty graph.
    pub fn empty() -> (r: Self)
        ensures
            r.wf(),
            r.node_count() == 0,
    {
        Wikipedia { ids: Vec::new(), titles: Vec::new(), links: Vec::new() }
    }

    /// The ids of the pages, by index.
    pub open spec fn ids_view(&self) -> Seq<i32> {
        Seq::new(self.node_count(), |i: int| self.id_at(i))
    }

    /// Builds the graph from the lines of a page table and of a link list.
    ///
    /// Each page line records a page (a later line with the same id
    /// retitles it); then each link line, in order, adds a link after those
    /// already recorded for its page, and is dropped where either id names no
    /// page. The first line that does not parse is reported, page lines first.
    pub fn new(pages: &Vec<String>, links: &Vec<String>) -> (r: Result<Self, LoadError>)
        ensures
            match r {
                Err(LoadError::BadPageLine(k)) => {
                    &&& k < pages@.len()
                    &&& page_fields(pages@[k as int]@) is None
                    &&& forall|j: int| 0 <= j < k ==> page_fields(#[trigger] pages@[j]@) is Some
                },
                Err(LoadError::BadLinkLine(k)) => {
                    &&& forall|j: int|
                        0 <= j < pages@.len() ==> page_fields(#[trigger] pages@[j]@) is Some
                    &&& k < links@.len()
                    &&& link_fields(links@[k as int]@) is None
                    &&& forall|j: int| 0 <= j < k ==> link_fields(#[trigger] links@[j]@) is Some
                },
                Ok(w) => {
                    &&& forall|j: int|
                        0 <= j < pages@.len() ==> page_fields(#[trigger] pages@[j]@) is Some
                    &&& forall|j: int|
                        0 <= j < links@.len() ==> link_fields(#[trigger] links@[j]@) is Some
                    &&& w.wf()
                    &&& forall|id: i32| w.has_id(id) <==> listed(page_pairs(pages@), id)
                    &&& forall|i: int|
                        0 <= i < w.node_count() ==> {
                            &&& w.title_at(i) == last_title(page_pairs(pages@), w.id_at(i))
                            &&& w.succs(i) == link_targets(
                                w.ids_view(),
                                link_pairs(links@),
                                w.id_at(i),
                            )
                        }
                },
            },
    {
        let mut w = Wikipedia::empty();
        let mut k: usize = 0;
        while k < pages.len()
            invariant
                w.wf(),
                k <= pages@.len(),
                forall|j: int| 0 <= j < k ==> page_fields(#[trigger] pages@[j]@) is Some,
                forall|id: i32| w.has_id(id) <==> listed(page_pairs(pages@).subrange(0, k as int), id),
                forall|i: int|
                    0 <= i < w.node_count() ==> {
                        &&& w.title_at(i) == last_title(page_pairs(pages@).subrange(0, k as int), w.id_at(i))
                        &&& w.succs(i) == Seq::<usize>::empty()
                    },
            decreases pages@.len() - k,
        {
            match parse_page_line(pages[k].as_str()) {
                None => {
                    return Err(LoadError::BadPageLine(k));
                },
                Some((id, title)) => {
                    let ghost pre = page_pairs(pages@).subrange(0, k as int);
                    let ghost post = page_pairs(pages@).subrange(0, k + 1);
                    assert(post =~= pre.push((id, title@)));
                    assert(post.drop_last() =~= pre);
                    let ghost w0 = w;
                    w.add_page(id, title);
                    assert forall|x: i32| w.has_id(x) <==> listed(post, x) by {
                        if listed(post, x) && x != id {
                            let j = choose|j: int| 0 <= j < post.len() && #[trigger] post[j].0 == x;
                            assert(pre[j].0 == x);
                            assert(listed(pre, x));
                            assert(w0.has_id(x));
                            let i = choose|i: int| 0 <= i < w0.node_count() && w0.id_at(i) == x;
                            assert(w.id_at(i) == x);
                        }
                        if w.has_id(x) && x != id {
                            let i = choose|i: int| 0 <= i < w.node_count() && w.id_at(i) == x;
                            if i < w0.node_count() {
                                assert(w0.id_at(i) == x);
                            }
                            assert(w0.has_id(x));
                            assert(listed(pre, x));
                            let j = choose|j: int| 0 <= j < pre.len() && #[trigger] pre[j].0 == x;
                            assert(post[j].0 == x);
                        }
                        if x == id {
                            assert(post[k as int].0 == x);
                            if !w0.has_id(id) {
                                assert(w.id_at(w0.node_count() as int) == id);
                            }
                        }
                    }
                    k += 1;
                },
            }
        }
        assert(page_pairs(pages@).subrange(0, pages@.len() as int) =~= page_pairs(pages@));
        let ghost ids0 = w.ids_view();
        assert forall|id: i32| ids0.contains(id) <==> w.has_id(id) by {
            if w.has_id(id) {
                let i = choose|i: int| 0 <= i < w.node_count() && w.id_at(i) == id;
                assert(ids0[i] == id);
            }
            if ids0.contains(id) {
                let i = choose|i: int| 0 <= i < ids0.len() && ids0[i] == id;
                assert(w.id_at(i) == id);
            }
        }
        let mut k: usize = 0;
        while k < links.len()
            invariant
                w.wf(),
                k <= links@.len(),
                w.ids_view() == ids0,
                forall|j: int| 0 <= j < pages@.len() ==> page_fields(#[trigger] pages@[j]@) is Some,
                forall|j: int| 0 <= j < k ==> link_fields(#[trigger] links@[j]@) is Some,
                forall|id: i32| ids0.contains(id) <==> listed(page_pairs(pages@), id),
                forall|i: int|
                    0 <= i < w.node_count() ==> {
                        &&& w.title_at(i) == last_title(page_pairs(pages@), w.id_at(i))
                        &&& w.succs(i) == link_targets(ids0, link_pairs(links@).subrange(0, k as int), w.id_at(i))
                    },
            decreases links@.len() - k,
        {
            match parse_link_line(links[k].as_str()) {
                None => {
                    return Err(LoadError::BadLinkLine(k));
                },
                Some((from, to)) => {
                    let ghost pre = link_pairs(links@).subrange(0, k as int);
                    let ghost post = link_pairs(links@).subrange(0, k + 1);
                    assert(post =~= pre.push((from, to)));
                    assert(post.drop_last() =~= pre);
                    let ghost w0 = w;
                    w.add_link(from, to);
                    assert forall|i: int| 0 <= i < ids0.len() implies w.ids_view()[i] == ids0[i] by {
                        assert(w.id_at(i) == w0.id_at(i));
                    }
                    assert(w.ids_view() =~= ids0);
                    assert forall|i: int| 0 <= i < w.node_count() implies w.succs(i) == link_targets(ids0, post, w.id_at(i)) by {
                        if w0.id_at(i) == from && ids0.contains(to) {
                            let j = choose|j: int| 0 <= j < ids0.len() && ids0[j] == to;
                            assert(w0.id_at(j) == to);
                            let j2 = index_in(ids0, to);
                            assert(w0.id_at(j2) == to);
                            assert(j == j2);
                        } else if !ids0.contains(to) {
                            if w0.has_id(to) {
                                let j = choose|j: int| 0 <= j < w0.node_count() && w0.id_at(j) == to;
                                assert(ids0[j] == to);
                            }
                        }
                    }
                    k += 1;
                },
            }
        }
        assert(link_pairs(links@).subrange(0, links@.len() as int) =~= link_pairs(links@));
        assert forall|id: i32| w.has_id(id) <==> ids0.contains(id) by {
            if w.has_id(id) {
                let i = choose|i: int| 0 <= i < w.node_count() && w.id_at(i) == id;
                assert(ids0[i] == id);
            }
            if ids0.contains(id) {
                let i = choose|i: int| 0 <= i < ids0.len() && ids0[i] == id;
                assert(w.id_at(i) == id);
            }
        }
        Ok(w)
    }

    /// Index of the page with id `id`, if any.
    fn find_id(&self, id: i32) -> (r: Option<usize>)
        requires
            self.wf(),
        ensures
            match r {
                None => !self.has_id(id),
                Some(i) => i < self.node_count() && self.id_at(i as int) == id,
            },
    {
        let mut i: usize = 0;
        while i < self.ids.len()
            invariant
                self.wf(),
                i <= self.ids@.len(),
                forall|j: int| 0 <= j < i ==> self.id_at(j) != id,
            decreases self.ids@.len() - i,
        {
            if self.ids[i] == id {
                return Some(i);
            }
            i += 1;
        }
        None
    }

    /// Records the page `id` with the given title. A page already known under
    /// `id` is retitled and keeps its links; a new page starts with none.
    pub fn add_page(&mut self, id: i32, title: String)
        requires
            old(self).wf(),
        ensures
            final(self).wf(),
            final(self).node_count() == old(self).node_count() + if old(self).has_id(id) {
                0int
            } else {
                1int
            },
            forall|i: int|
                0 <= i < old(self).node_count() ==> {
                    &&& final(self).id_at(i) == old(self).id_at(i)
                    &&& final(self).succs(i) == old(self).succs(i)
                    &&& final(self).title_at(i) == if old(self).id_at(i) == id {
                        title@
                    } else {
                        old(self).title_at(i)
                    }
                },
            !old(self).has_id(id) ==> {
                let n = old(self).node_count() as int;
                &&& final(self).id_at(n) == id
                &&& final(self).title_at(n) == title@
                &&& final(self).succs(n) == Seq::<usize>::empty()
            },
    {
        match self.find_id(id) {
            Some(i) => {
                self.titles.set(i, title);
            },
            None => {
                let ghost ids0 = self.ids@;
                assert forall|i: int| 0 <= i < ids0.len() implies ids0[i] != id by {
                    assert(self.id_at(i) == ids0[i]);
                }
                self.ids.push(id);
                self.titles.push(title);
                self.links.push(Vec::new());
                assert forall|i: int, j: int|
                    0 <= i < self.ids@.len() && 0 <= j < self.ids@.len() && i != j implies self.ids@[i]
                        != self.ids@[j] by {
                    if i < ids0.len() && j < ids0.len() {
                        assert(self.ids@[i] == ids0[i] && self.ids@[j] == ids0[j]);
                    } else if i < ids0.len() {
                        assert(self.ids@[i] == ids0[i]);
                    } else if j < ids0.len() {
                        assert(self.ids@[j] == ids0[j]);
                    }
                }
            },
        }
    }

    /// Records a link from page `from` to page `to`, after those already
    /// recorded for `from`. A link that names an unknown page is ignored.
    pub fn add_link(&mut self, from: i32, to: i32)
        requires
            old(self).wf(),
        ensures
            final(self).wf(),
            final(self).node_count() == old(self).node_count(),
            forall|i: int|
                0 <= i < old(self).node_count() ==> {
                    &&& final(self).id_at(i) == old(self).id_at(i)
                    &&& final(self).title_at(i) == old(self).title_at(i)
                },
            forall|i: int, j: int|
                0 <= i < old(self).node_count() && 0 <= j < old(self).node_count() && old(
                    self,
                ).id_at(i) == from && old(self).id_at(j) == to ==> final(self).succs(i) == old(
                    self,
                ).succs(i).push(j as usize),
            forall|i: int|
                0 <= i < old(self).node_count() && (old(self).id_at(i) != from || !old(
                    self,
                ).has_id(to)) ==> final(self).succs(i) == old(self).succs(i),
    {
        match self.find_id(from) {
            Some(fi) => match self.find_id(to) {
                Some(ti) => {
                    self.links[fi].push(ti);
                },
                None => {},
            },
            None => {},
        }
    }

    /// The titles of the pages along the walk `p`.
    fn titles_along(&self, p: &Vec<usize>) -> (r: Vec<String>)
        requires
            self.wf(),
            forall|i: int| 0 <= i < p@.len() ==> p@[i] < self.node_count(),
        ensures
            strings_view(r@) == self.titles_of(p@),
    {
        let mut r: Vec<String> = Vec::new();
        let mut i: usize = 0;
        while i < p.len()
            invariant
                self.wf(),
                forall|j: int| 0 <= j < p@.len() ==> p@[j] < self.node_count(),
                i <= p@.len(),
                r@.len() == i,
                forall|j: int| 0 <= j < i ==> r@[j]@ == self.title_at(p@[j] as int),
            decreases p@.len() - i,
        {
            r.push(self.titles[p[i]].clone());
            i += 1;
        }
        assert(strings_view(r@) =~= self.titles_of(p@));
        r
    }

    /// The titles along a shortest walk of links from the page titled `start`
    /// to the page titled `goal`, found by breadth-first search.
    ///
    /// A title carried by several pages names the one with the lowest id.
    /// An unknown title is an error (the start title is checked first); when
    /// both are known but no walk joins them the answer is `Ok(None)`. Among
    /// shortest walks, the one with the lexicographically least step key is
    /// returned: ties follow the stored order of the successor lists.
    pub fn find_shortest_path(&self, start: &str, goal: &str) -> (r: Result<
        Option<Vec<String>>,
        PathError,
    >)
        requires
            self.wf(),
        ensures
            self.answers(start@, goal@, r),
    {
        let start_title = start.to_owned();
        let goal_title = goal.to_owned();
        let s = match self.find_page(&start_title) {
            Some(s) => s,
            None => {
                return Err(PathError::StartNotFound);
            },
        };
        let g = match self.find_page(&goal_title) {
            Some(g) => g,
            None => {
                return Err(PathError::GoalNotFound);
            },
        };
        assert forall|s2: int, g2: int|
            self.resolves_to(start@, s2) && self.resolves_to(goal@, g2) implies s2 == s && g2 == g by {
            self.lemma_resolution_unique(start@, s as int, s2);
            self.lemma_resolution_unique(goal@, g as int, g2);
        }
        match self.bfs(s, g) {
            None => Ok(None),
            Some(p) => {
                let titles = self.titles_along(&p);
                assert(self.is_shortest_path(p@, s as int, g as int));
                Ok(Some(titles))
            },
        }
    }

    /// Finds the page a query for `title` resolves to: the lowest id among
    /// the pages carrying it.
    fn find_page(&self, title: &String) -> (r: Option<usize>)
        requires
            self.wf(),
        ensures
            match r {
                None => !self.has_title(title@),
                Some(i) => self.resolves_to(title@, i as int),
            },
    {
        let mut best: Option<usize> = None;
        let mut i: usize = 0;
        while i < self.ids.len()
            invariant
                self.wf(),
                i <= self.ids@.len(),
                match best {
                    None => forall|j: int| 0 <= j < i ==> self.title_at(j) != title@,
                    Some(b) => {
                        &&& b < i
                        &&& self.title_at(b as int) == title@
                        &&& forall|j: int|
                            0 <= j < i && self.title_at(j) == title@ ==> self.id_at(b as int)
                                <= self.id_at(j)
                    },
                },
            decreases self.ids@.len() - i,
        {
            if self.titles[i] == *title {
                match best {
                    None => {
                        best = Some(i);
                    },
                    Some(b) => {
                        if self.ids[i] < self.ids[b] {
                            best = Some(i);
                        }
                    },
                }
            }
            i += 1;
        }
        best
    }
    /// In a set of pages that holds `p[0]` and every successor of each of its
    /// pages, every page of the walk `p` lies.
    proof fn lemma_closed_walk(&self, v: Seq<bool>, p: Seq<usize>, i: int)
        requires
            self.wf(),
            v.len() == self.node_count(),
            self.is_path(p),
            v[p[0] as int],
            forall|u: int| 0 <= u < v.len() && v[u] ==> all_marked(self.succs(u), v),
            0 <= i < p.len(),
        ensures
            v[p[i] as int],
        decreases i,
    {
        if i > 0 {
            let e = i - 1;
            self.lemma_closed_walk(v, p, e);
            assert(self.has_edge(p[e] as int, p[e + 1] as int));
        }
    }

    /// Breadth-first search from page `s` for page `g`, one level at a time;
    /// within a level, walks are extended in the order they were found and
    /// successors are taken in stored order.
    fn bfs(&self, s: usize, g: usize) -> (r: Option<Vec<usize>>)
        requires
            self.wf(),
            s < self.node_count(),
            g < self.node_count(),
        ensures
            match r {
                None => !self.reachable(s as int, g as int),
                Some(p) => self.is_first_shortest_path(p@, s as int, g as int),
            },
    {
        let n = self.ids.len();
        let mut visited: Vec<bool> = Vec::new();
        let mut j: usize = 0;
        while j < n
            invariant
                j <= n,
                visited@.len() == j,
                forall|k: int| 0 <= k < j ==> !visited@[k],
            decreases n - j,
        {
            visited.push(false);
            j += 1;
        }
        assert(marked(visited@) =~= Set::empty());
        proof {
            lemma_mark(visited@, s as int);
        }
        visited.set(s, true);
        let mut count: usize = 1;
        let mut first: Vec<usize> = Vec::new();
        first.push(s);
        let mut frontier: Vec<Vec<usize>> = Vec::new();
        frontier.push(first);
        let ghost mut level: int = 0;
        assert(ends_in(frontier@, s as int)) by {
            assert(frontier@[0]@.last() == s);
        }
        assert forall|p: Seq<usize>| self.is_path(p) && p[0] == s && p.len() <= level + 1 implies visited@[p.last() as int] by {
            assert(p.last() == p[0]);
        }
        assert forall|a: int, q: Seq<usize>|
            0 <= a < frontier@.len() && #[trigger] self.is_path(q) && q[0] == s && q.len() == level + 1
                && q.last() == #[trigger] frontier@[a]@.last() implies lex_le(
                self.step_key(frontier@[a]@),
                self.step_key(q),
            ) by {
            assert(self.step_key(q) =~= self.step_key(frontier@[a]@));
        }
        while frontier.len() > 0
            invariant
                self.wf(),
                n == self.node_count(),
                s < n,
                g < n,
                visited@.len() == n,
                count == marked(visited@).len(),
                count <= n,
                visited@[s as int],
                level >= 0,
                forall|f: int|
                    0 <= f < frontier@.len() ==> {
                        &&& self.is_path(#[trigger] frontier@[f]@)
                        &&& frontier@[f]@[0] == s
                        &&& frontier@[f]@.len() == level + 1
                        &&& visited@[frontier@[f]@.last() as int]
                    },
                forall|p: Seq<usize>|
                    #[trigger] self.is_path(p) && p[0] == s && p.len() <= level + 1
                        ==> visited@[p.last() as int],
                forall|p: Seq<usize>|
                    #[trigger] self.is_path(p) && p[0] == s && p.len() <= level ==> p.last() != g,
                forall|u: int|
                    0 <= u < n && #[trigger] visited@[u] ==> ends_in(frontier@, u) || (u != g
                        && all_marked(self.succs(u), visited@)),
                forall|a: int, b: int|
                    0 <= a < b < frontier@.len() ==> lex_lt(
                        self.step_key(#[trigger] frontier@[a]@),
                        self.step_key(#[trigger] frontier@[b]@),
                    ),
                forall|a: int, q: Seq<usize>|
                    0 <= a < frontier@.len() && #[trigger] self.is_path(q) && q[0] == s && q.len() == level + 1
                        && q.last() == #[trigger] frontier@[a]@.last() ==> lex_le(
                        self.step_key(frontier@[a]@),
                        self.step_key(q),
                    ),
            decreases n - count + frontier@.len(),
        {
            let ghost visited0 = visited@;
            let ghost count0 = count as int;
            let ghost mut origin: Seq<int> = Seq::empty();
            let ghost mut posn: Seq<int> = Seq::empty();
            let mut next: Vec<Vec<usize>> = Vec::new();
            let mut i: usize = 0;
            while i < frontier.len()
                invariant
                    self.wf(),
                    n == self.node_count(),
                    s < n,
                    g < n,
                    visited@.len() == n,
                    visited0.len() == n,
                    count == marked(visited@).len(),
                    count <= n,
                    count == count0 + next@.len(),
                    level >= 0,
                    i <= frontier@.len(),
                    forall|x: int| 0 <= x < n && visited0[x] ==> visited@[x],
                    forall|f: int|
                        0 <= f < frontier@.len() ==> {
                            &&& self.is_path(#[trigger] frontier@[f]@)
                            &&& frontier@[f]@[0] == s
                            &&& frontier@[f]@.len() == level + 1
                            &&& visited0[frontier@[f]@.last() as int]
                        },
                    forall|f: int|
                        0 <= f < next@.len() ==> {
                            &&& self.is_path(#[trigger] next@[f]@)
                            &&& next@[f]@[0] == s
                            &&& next@[f]@.len() == level + 2
                            &&& visited@[next@[f]@.last() as int]
                            &&& !visited0[next@[f]@.last() as int]
                        },
                    forall|p: Seq<usize>|
                        #[trigger] self.is_path(p) && p[0] == s && p.len() <= level + 1
                            ==> visited0[p.last() as int],
                    forall|p: Seq<usize>|
                        #[trigger] self.is_path(p) && p[0] == s && p.len() <= level ==> p.last()
                            != g,
                    forall|u: int|
                        0 <= u < n && #[trigger] visited0[u] ==> ends_in(frontier@, u) || (u != g
                            && all_marked(self.succs(u), visited@)),
                    forall|u: int|
                        0 <= u < n && #[trigger] visited@[u] && !visited0[u] ==> ends_in(next@, u),
                    forall|f: int|
                        0 <= f < i ==> #[trigger] frontier@[f]@.last() != g && all_marked(
                            self.succs(frontier@[f]@.last() as int),
                            visited@,
                        ),
                    forall|a: int, b: int|
                        0 <= a < b < frontier@.len() ==> lex_lt(
                            self.step_key(#[trigger] frontier@[a]@),
                            self.step_key(#[trigger] frontier@[b]@),
                        ),
                    forall|a: int, q: Seq<usize>|
                        0 <= a < frontier@.len() && #[trigger] self.is_path(q) && q[0] == s && q.len() == level + 1
                            && q.last() == #[trigger] frontier@[a]@.last() ==> lex_le(
                            self.step_key(frontier@[a]@),
                            self.step_key(q),
                        ),
                    forall|a: int, b: int|
                        0 <= a < b < next@.len() ==> lex_lt(
                            self.step_key(#[trigger] next@[a]@),
                            self.step_key(#[trigger] next@[b]@),
                        ),
                    forall|a: int, q: Seq<usize>|
                        0 <= a < next@.len() && #[trigger] self.is_path(q) && q[0] == s && q.len() == level + 2
                            && q.last() == #[trigger] next@[a]@.last() ==> lex_le(
                            self.step_key(next@[a]@),
                            self.step_key(q),
                        ),
                    origin.len() == next@.len(),
                    posn.len() == next@.len(),
                    forall|u: int|
                        0 <= u < n && #[trigger] visited0[u] ==> ends_in(frontier@, u) || all_marked(
                            self.succs(u),
                            visited0,
                        ),
                    forall|j: int|
                        0 <= j < next@.len() ==> 0 <= #[trigger] origin[j] < i && self.step_key(next@[j]@)
                            == self.step_key(frontier@[origin[j]]@).push(posn[j]),
                decreases frontier@.len() - i,
            {
                let u = frontier[i][frontier[i].len() - 1];
                if u == g {
                    let p = copy_path(&frontier[i]);
                    assert forall|q: Seq<usize>| #[trigger]
                        self.is_path_between(q, s as int, g as int) implies p@.len() <= q.len() by {
                        if q.len() <= level {
                            assert(q.last() != g);
                        }
                    }
                    assert forall|q: Seq<usize>| #[trigger]
                        self.is_shortest_path(q, s as int, g as int) implies lex_le(self.step_key(p@), self.step_key(q)) by {
                        assert(self.is_path_between(p@, s as int, g as int));
                        assert(q.len() <= p@.len());
                    }
                    return Some(p);
                }
                let ulen = self.links[u].len();
                let mut k: usize = 0;
                while k < ulen
                    invariant
                        self.wf(),
                        n == self.node_count(),
                        s < n,
                        g < n,
                        u < n,
                        u != g,
                        i < frontier@.len(),
                        u == frontier@[i as int]@.last(),
                        ulen == self.succs(u as int).len(),
                        k <= ulen,
                        visited@.len() == n,
                        visited0.len() == n,
                        count == marked(visited@).len(),
                        count <= n,
                        count == count0 + next@.len(),
                        forall|x: int| 0 <= x < n && visited0[x] ==> visited@[x],
                        forall|f: int|
                            0 <= f < frontier@.len() ==> {
                                &&& self.is_path(#[trigger] frontier@[f]@)
                                &&& frontier@[f]@[0] == s
                                &&& frontier@[f]@.len() == level + 1
                                &&& visited0[frontier@[f]@.last() as int]
                            },
                        forall|f: int|
                            0 <= f < next@.len() ==> {
                                &&& self.is_path(#[trigger] next@[f]@)
                                &&& next@[f]@[0] == s
                                &&& next@[f]@.len() == level + 2
                                &&& visited@[next@[f]@.last() as int]
                                &&& !visited0[next@[f]@.last() as int]
                            },
                        forall|u: int|
                            0 <= u < n && #[trigger] visited0[u] ==> ends_in(frontier@, u) || (u
                                != g && all_marked(self.succs(u), visited@)),
                        forall|u: int|
                            0 <= u < n && #[trigger] visited@[u] && !visited0[u] ==> ends_in(
                                next@,
                                u,
                            ),
                        forall|f: int|
                            0 <= f < i ==> #[trigger] frontier@[f]@.last() != g && all_marked(
                                self.succs(frontier@[f]@.last() as int),
                                visited@,
                            ),
                        forall|j: int| 0 <= j < k ==> visited@[#[trigger] self.succs(u as int)[j] as int],
                        forall|p: Seq<usize>|
                            #[trigger] self.is_path(p) && p[0] == s && p.len() <= level + 1
                                ==> visited0[p.last() as int],
                        level >= 0,
                        forall|a: int, b: int|
                            0 <= a < b < frontier@.len() ==> lex_lt(
                                self.step_key(#[trigger] frontier@[a]@),
                                self.step_key(#[trigger] frontier@[b]@),
                            ),
                        forall|a: int, q: Seq<usize>|
                            0 <= a < frontier@.len() && #[trigger] self.is_path(q) && q[0] == s && q.len() == level + 1
                                && q.last() == #[trigger] frontier@[a]@.last() ==> lex_le(
                                self.step_key(frontier@[a]@),
                                self.step_key(q),
                            ),
                        forall|a: int, b: int|
                            0 <= a < b < next@.len() ==> lex_lt(
                                self.step_key(#[trigger] next@[a]@),
                                self.step_key(#[trigger] next@[b]@),
                            ),
                        forall|a: int, q: Seq<usize>|
                            0 <= a < next@.len() && #[trigger] self.is_path(q) && q[0] == s && q.len() == level + 2
                                && q.last() == #[trigger] next@[a]@.last() ==> lex_le(
                                self.step_key(next@[a]@),
                                self.step_key(q),
                            ),
                        origin.len() == next@.len(),
                        posn.len() == next@.len(),
                        forall|u: int|
                            0 <= u < n && #[trigger] visited0[u] ==> ends_in(frontier@, u) || all_marked(
                                self.succs(u),
                                visited0,
                            ),
                        forall|j: int|
                            0 <= j < next@.len() ==> 0 <= #[trigger] origin[j] <= i && self.step_key(next@[j]@)
                                == self.step_key(frontier@[origin[j]]@).push(posn[j]) && (origin[j] == i ==> posn[j] < k),
                    decreases ulen - k,
                {
                    let v = self.links[u][k];
                    if !visited[v] {
                        proof {
                            lemma_mark(visited@, v as int);
                            assert forall|j: int| 0 <= j < k implies self.succs(u as int)[j] != v by {
                                assert(visited@[self.succs(u as int)[j] as int]);
                            }
                            assert(first_at(self.succs(u as int), v, k as int));
                            lemma_first_pos(self.succs(u as int), v, k as int);
                            self.lemma_new_entry_first(
                                frontier@,
                                visited0,
                                visited@,
                                s,
                                level,
                                i as int,
                                k as int,
                                v,
                            );
                        }
                        visited.set(v, true);
                        count += 1;
                        let mut np = copy_path(&frontier[i]);
                        np.push(v);
                        assert(self.is_path(np@)) by {
                            assert forall|e: int| 0 <= e < np@.len() - 1 implies #[trigger] self.has_edge(
                                np@[e] as int,
                                np@[e + 1] as int,
                            ) by {
                                if e < np@.len() - 2 {
                                    assert(self.has_edge(frontier@[i as int]@[e] as int, frontier@[i as int]@[e + 1] as int));
                                } else {
                                    assert(self.succs(u as int)[k as int] == v);
                                }
                            }
                        }
                        let ghost old_next = next@;
                        next.push(np);
                        assert(next@[old_next.len() as int]@.last() == v);
                        assert forall|w: int| ends_in(old_next, w) implies ends_in(next@, w) by {
                            let f = choose|f: int| 0 <= f < old_next.len() && #[trigger] old_next[f]@.last() == w;
                            assert(next@[f] == old_next[f]);
                        }
                        proof {
                            let fi = frontier@[i as int]@;
                            let m = old_next.len() as int;
                            assert(next@[m]@ == fi.push(v));
                            self.lemma_key_push(fi, v);
                            let ghost old_origin = origin;
                            let ghost old_posn = posn;
                            origin = origin.push(i as int);
                            posn = posn.push(k as int);
                            assert forall|j: int| 0 <= j < m implies next@[j] == old_next[j] && origin[j]
                                == old_origin[j] && posn[j] == old_posn[j] by {}
                            assert forall|a: int, b: int| 0 <= a < b < next@.len() implies lex_lt(
                                self.step_key(#[trigger] next@[a]@),
                                self.step_key(#[trigger] next@[b]@),
                            ) by {
                                if b == m {
                                    let c = origin[a];
                                    if c < i {
                                        assert(lex_lt(self.step_key(frontier@[c]@), self.step_key(fi)));
                                        lemma_lex_push_lt(self.step_key(frontier@[c]@), self.step_key(fi), posn[a], k as int);
                                    } else {
                                        lemma_lex_push_eq(self.step_key(fi), posn[a], k as int);
                                    }
                                }
                            }
                        }
                    }
                    k += 1;
                }
                i += 1;
            }
            let ghost frontier0 = frontier@;
            proof {
                assert forall|p: Seq<usize>| #[trigger] self.is_path(p) && p[0] == s && p.len() <= level + 2 implies visited@[p.last() as int] by {
                    if p.len() == level + 2 {
                        let q = p.drop_last();
                        assert forall|e: int| 0 <= e < q.len() - 1 implies #[trigger] self.has_edge(q[e] as int, q[e + 1] as int) by {
                            assert(self.has_edge(p[e] as int, p[e + 1] as int));
                            assert(q[e] == p[e] && q[e + 1] == p[e + 1]);
                        }
                        assert forall|e: int| 0 <= e < q.len() implies q[e] < n by {
                            assert(q[e] == p[e]);
                        }
                        assert(self.is_path(q));
                        let w = q.last() as int;
                        assert(visited0[w]);
                        assert(self.has_edge(p[p.len() - 2] as int, p[p.len() - 1] as int));
                        if ends_in(frontier0, w) {
                            let f = choose|f: int| 0 <= f < frontier0.len() && #[trigger] frontier0[f]@.last() == w;
                            assert(all_marked(self.succs(frontier0[f]@.last() as int), visited@));
                        }
                    }
                }
                assert forall|p: Seq<usize>| #[trigger] self.is_path(p) && p[0] == s && p.len() <= level + 1 implies p.last() != g by {
                    let w = p.last() as int;
                    assert(visited0[w]);
                    if ends_in(frontier0, w) {
                        let f = choose|f: int| 0 <= f < frontier0.len() && #[trigger] frontier0[f]@.last() == w;
                        assert(frontier0[f]@.last() != g);
                    }
                }
                assert forall|u: int| 0 <= u < n && #[trigger] visited@[u] implies ends_in(next@, u) || (u != g && all_marked(self.succs(u), visited@)) by {
                    if visited0[u] && ends_in(frontier0, u) {
                        let f = choose|f: int| 0 <= f < frontier0.len() && #[trigger] frontier0[f]@.last() == u;
                        assert(frontier0[f]@.last() != g);
                    }
                }
                level = level + 1;
            }
            frontier = next;
        }
        proof {
            assert forall|u: int| 0 <= u < n && visited@[u] implies all_marked(self.succs(u), visited@) && u != g by {
                if ends_in(frontier@, u) {
                    let f = choose|f: int| 0 <= f < frontier@.len() && #[trigger] frontier@[f]@.last() == u;
                }
            }
            assert forall|p: Seq<usize>| self.is_path_between(p, s as int, g as int) implies false by {
                self.lemma_closed_walk(visited@, p, p.len() - 1);
            }
        }
        None
    }
}

} // verus!
