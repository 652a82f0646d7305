use vstd::prelude::*;

verus! {

/// One entry of the mount table: its id, the id of its parent mount and the
/// absolute path it is mounted on (as bytes).
pub struct MountInfo {
    pub mnt_id: i32,
    pub pid: i32,
    pub mount_point: Vec<u8>,
}

impl View for MountInfo {
    type V = (i32, i32, Seq<u8>);

    open spec fn view(&self) -> (i32, i32, Seq<u8>) {
        (self.mnt_id, self.pid, self.mount_point@)
    }
}

/// `path` lies at or below the directory `mp`, compared component by component
/// (paths are absolute, without repeated or trailing separators but for `/`).
pub open spec fn within(path: Seq<u8>, mp: Seq<u8>) -> bool {
    &&& mp.len() <= path.len()
    &&& path.subrange(0, mp.len() as int) == mp
    &&& (path.len() == mp.len() || (mp.len() > 0 && mp.last() == 47u8) || path[mp.len() as int]
        == 47u8)
}

/// `path` lies strictly below the directory `mp`.
pub open spec fn strictly_under(path: Seq<u8>, mp: Seq<u8>) -> bool {
    within(path, mp) && path.len() > mp.len()
}

/// Every path lies within itself.
pub proof fn lemma_within_refl(p: Seq<u8>)
    ensures
        within(p, p),
{
    assert(p.subrange(0, p.len() as int) =~= p);
}

/// Lying within a directory is transitive.
pub proof fn lemma_within_trans(a: Seq<u8>, b: Seq<u8>, c: Seq<u8>)
    requires
        within(a, b),
        within(b, c),
    ensures
        within(a, c),
{
    assert(a.subrange(0, c.len() as int) =~= b.subrange(0, c.len() as int));
    if b.len() > c.len() && a.len() > c.len() {
        assert(a[c.len() as int] == a.subrange(0, b.len() as int)[c.len() as int]);
    }
}

/// Whether `path` lies at or below the directory `mp`.
pub fn path_within(path: &Vec<u8>, mp: &Vec<u8>) -> (r: bool)
    ensures
        r == within(path@, mp@),
{
    let ml = mp.len();
    if ml > path.len() {
        return false;
    }
    let mut i: usize = 0;
    while i < ml
        invariant
            ml == mp@.len(),
            ml <= path@.len(),
            i <= ml,
            path@.subrange(0, i as int) =~= mp@.subrange(0, i as int),
        decreases ml - i,
    {
        if path[i] != mp[i] {
            assert(path@.subrange(0, ml as int)[i as int] != mp@[i as int]);
            return false;
        }
        i = i + 1;
        assert(path@.subrange(0, i as int) =~= mp@.subrange(0, i as int));
    }
    assert(mp@.subrange(0, ml as int) =~= mp@);
    ml == path.len() || (ml > 0 && mp[ml - 1] == 47u8) || path[ml] == 47u8
}

/// Whether `path` lies strictly below the directory `mp`.
pub fn path_strictly_under(path: &Vec<u8>, mp: &Vec<u8>) -> (r: bool)
    ensures
        r == strictly_under(path@, mp@),
{
    path.len() > mp.len() && path_within(path, mp)
}


/// Mount ids strictly ascend along `s`.
pub open spec fn ids_sorted(s: Seq<MountInfo>) -> bool {
    forall|i: int, j: int| 0 <= i < j < s.len() ==> s[i].mnt_id < s[j].mnt_id
}

/// The table as a map from mount id to entry; a later entry with the same id
/// replaces an earlier one.
pub open spec fn table_map(s: Seq<MountInfo>) -> Map<i32, (i32, i32, Seq<u8>)>
    decreases s.len(),
{
    if s.len() == 0 {
        Map::empty()
    } else {
        table_map(s.drop_last()).insert(s.last().mnt_id, s.last()@)
    }
}

/// `r`, sorted by id, holds exactly the entries of `m`.
pub open spec fn represents(r: Seq<MountInfo>, m: Map<i32, (i32, i32, Seq<u8>)>) -> bool {
    &&& ids_sorted(r)
    &&& forall|k: i32| m.contains_key(k) <==> exists|i: int| 0 <= i < r.len() && r[i].mnt_id == k
    &&& forall|i: int| 0 <= i < r.len() ==> m.contains_key(r[i].mnt_id) && m[r[i].mnt_id] == r[i]@
}

/// Indexes the table by mount id: the result is sorted by id and holds one
/// entry per id, the last one the table gives for it.
pub fn index_by_id(mounts: Vec<MountInfo>) -> (r: Vec<MountInfo>)
    ensures
        represents(r@, table_map(mounts@)),
{
    let ghost s = mounts@;
    let mut mounts = mounts;
    let mut r: Vec<MountInfo> = Vec::new();
    let n = mounts.len();
    let mut k: usize = 0;
    while k < n
        invariant
            n == s.len(),
            k <= n,
            mounts@ == s.subrange(k as int, n as int),
            represents(r@, table_map(s.subrange(0, k as int))),
        decreases n - k,
    {
        let m = mounts.remove(0);
        assert(m == s[k as int]);
        let ghost old_r = r@;
        let ghost mm = table_map(s.subrange(0, k as int));
        assert(s.subrange(0, k + 1).drop_last() =~= s.subrange(0, k as int));
        let mut pos: usize = 0;
        while pos < r.len() && r[pos].mnt_id < m.mnt_id
            invariant
                pos <= r.len(),
                r@ == old_r,
                forall|i: int| 0 <= i < pos ==> r@[i].mnt_id < m.mnt_id,
            decreases r.len() - pos,
        {
            pos = pos + 1;
        }
        if pos < r.len() && r[pos].mnt_id == m.mnt_id {
            r.set(pos, m);
            assert forall|kk: i32|
                mm.insert(m.mnt_id, m@).contains_key(kk) <==> exists|i: int|
                    0 <= i < r.len() && r@[i].mnt_id == kk by {
                if mm.contains_key(kk) && kk != m.mnt_id {
                    let i = choose|i: int| 0 <= i < old_r.len() && old_r[i].mnt_id == kk;
                    assert(r@[i].mnt_id == kk);
                }
                if kk == m.mnt_id {
                    assert(r@[pos as int].mnt_id == kk);
                }
            }
        } else {
            r.insert(pos, m);
            assert forall|kk: i32|
                mm.insert(m.mnt_id, m@).contains_key(kk) <==> exists|i: int|
                    0 <= i < r.len() && r@[i].mnt_id == kk by {
                if mm.contains_key(kk) && kk != m.mnt_id {
                    let i = choose|i: int| 0 <= i < old_r.len() && old_r[i].mnt_id == kk;
                    if i < pos {
                        assert(r@[i].mnt_id == kk);
                    } else {
                        assert(r@[i + 1].mnt_id == kk);
                    }
                }
                if kk == m.mnt_id {
                    assert(r@[pos as int].mnt_id == kk);
                }
                if exists|i: int| 0 <= i < r.len() && r@[i].mnt_id == kk {
                    let i = choose|i: int| 0 <= i < r.len() && r@[i].mnt_id == kk;
                    if i < pos {
                        assert(old_r[i].mnt_id == kk);
                    } else if i > pos {
                        assert(old_r[i - 1].mnt_id == kk);
                    }
                }
            }
        }
        k = k + 1;
    }
    assert(s.subrange(0, n as int) =~= s);
    r
}


/// A node of the mount tree: one mount table entry and the indices, in the
/// tree's node list, of the mounts whose parent it is, by ascending id.
pub struct MountNode {
    pub mount_info: MountInfo,
    pub children: Vec<usize>,
}

/// The mount table as a tree kept in one list: `nodes` is sorted by mount id,
/// `root` is the index of the root mount, and `rank` gives each node reachable
/// from the root its breadth-first position (`nodes.len()` for the others).
pub struct MountTree {
    pub nodes: Vec<MountNode>,
    pub root: usize,
    pub rank: Vec<usize>,
}

/// Why a mount table does not make a tree.
#[derive(PartialEq, Eq, Structural, Debug, Clone, Copy)]
pub enum TreeError {
    NoRoot,
    MultipleRoots,
}

/// Some entry of `s` has mount id `id`.
pub open spec fn has_id(s: Seq<MountInfo>, id: i32) -> bool {
    exists|i: int| 0 <= i < s.len() && s[i].mnt_id == id
}

/// Entry `i` is a root candidate: its own parent, or its parent is not in the table.
pub open spec fn is_root_candidate(s: Seq<MountInfo>, i: int) -> bool {
    s[i].mnt_id == s[i].pid || !has_id(s, s[i].pid)
}

/// Entry `j` is a child of entry `i`.
pub open spec fn is_child(s: Seq<MountInfo>, j: int, i: int) -> bool {
    j != i && s[j].pid == s[i].mnt_id
}

/// `c` lists, in ascending order, exactly the children of entry `i`.
pub open spec fn children_ok(s: Seq<MountInfo>, i: int, c: Seq<usize>) -> bool {
    &&& forall|a: int, b: int| 0 <= a < b < c.len() ==> c[a] < c[b]
    &&& forall|a: int| 0 <= a < c.len() ==> c[a] < s.len() && is_child(s, c[a] as int, i)
    &&& forall|j: int| 0 <= j < s.len() && is_child(s, j, i) ==> c.contains(j as usize)
}

impl MountTree {
    /// The entries of the nodes, in node order.
    pub open spec fn infos(&self) -> Seq<MountInfo> {
        self.nodes@.map_values(|nd: MountNode| nd.mount_info)
    }

    /// The mount point of node `i`.
    pub open spec fn mp(&self, i: int) -> Seq<u8> {
        self.nodes@[i].mount_info.mount_point@
    }

    /// The child list of node `i`.
    pub open spec fn kids(&self, i: int) -> Seq<usize> {
        self.nodes@[i].children@
    }

    /// Node `i` is reachable from the root.
    pub open spec fn reached(&self, i: int) -> bool {
        0 <= i < self.nodes.len() && self.rank@[i] < self.nodes.len()
    }

    /// Nodes sorted by id, the root the single root candidate, exact child
    /// lists, and ranks that grow along every child link from a reached node.
    pub open spec fn wf(&self) -> bool {
        let s = self.infos();
        &&& ids_sorted(s)
        &&& self.root < s.len()
        &&& is_root_candidate(s, self.root as int)
        &&& forall|i: int| 0 <= i < s.len() && is_root_candidate(s, i) ==> i == self.root
        &&& forall|i: int| 0 <= i < s.len() ==> children_ok(s, i, #[trigger] self.kids(i))
        &&& self.rank.len() == s.len()
        &&& self.reached(self.root as int)
        &&& forall|p: int, j: int|
            0 <= p < s.len() && 0 <= j < s.len() && #[trigger] is_child(s, j, p) && self.reached(j)
                ==> self.rank@[p] < self.rank@[j]
        &&& forall|i: int, a: int|
            #![trigger self.kids(i)[a], self.reached(i)]
            self.reached(i) && 0 <= a < self.kids(i).len() ==> self.rank@[i] < self.rank@[self.kids(
                i,
            )[a] as int] && self.reached(self.kids(i)[a] as int)
    }
}

/// Number of entries of `r` below `n`.
pub open spec fn count_below(r: Seq<usize>, n: int) -> nat
    decreases r.len(),
{
    if r.len() == 0 {
        0
    } else {
        count_below(r.drop_last(), n) + if r.last() < n {
            1nat
        } else {
            0nat
        }
    }
}

proof fn lemma_count_below_bound(r: Seq<usize>, n: int, j: int)
    requires
        0 <= j < r.len(),
        r[j] >= n,
    ensures
        count_below(r, n) < r.len(),
    decreases r.len(),
{
    if j < r.len() - 1 {
        lemma_count_below_bound(r.drop_last(), n, j);
    } else {
        lemma_count_below_le(r.drop_last(), n);
    }
}

proof fn lemma_count_below_le(r: Seq<usize>, n: int)
    ensures
        count_below(r, n) <= r.len(),
    decreases r.len(),
{
    if r.len() > 0 {
        lemma_count_below_le(r.drop_last(), n);
    }
}

proof fn lemma_count_below_update(r: Seq<usize>, n: int, j: int, v: usize)
    requires
        0 <= j < r.len(),
        r[j] >= n,
        v < n,
    ensures
        count_below(r.update(j, v), n) == count_below(r, n) + 1,
    decreases r.len(),
{
    if j < r.len() - 1 {
        assert(r.update(j, v).drop_last() =~= r.drop_last().update(j, v));
        lemma_count_below_update(r.drop_last(), n, j, v);
    } else {
        assert(r.update(j, v).drop_last() =~= r.drop_last());
    }
}

proof fn lemma_sorted_unique(s: Seq<MountInfo>, i: int, j: int)
    requires
        ids_sorted(s),
        0 <= i < s.len(),
        0 <= j < s.len(),
        s[i].mnt_id == s[j].mnt_id,
    ensures
        i == j,
{
    if i < j {
        assert(s[i].mnt_id < s[j].mnt_id);
    } else if j < i {
        assert(s[j].mnt_id < s[i].mnt_id);
    }
}

/// The index of the entry with mount id `id`, if any.
fn find_id(s: &Vec<MountInfo>, id: i32) -> (r: Option<usize>)
    ensures
        match r {
            Some(i) => i < s@.len() && s@[i as int].mnt_id == id,
            None => !has_id(s@, id),
        },
{
    let mut i: usize = 0;
    while i < s.len()
        invariant
            i <= s@.len(),
            forall|j: int| 0 <= j < i ==> s@[j].mnt_id != id,
        decreases s.len() - i,
    {
        if s[i].mnt_id == id {
            return Some(i);
        }
        i = i + 1;
    }
    None
}

/// The index of the single root candidate of `s`, or which error applies.
fn find_root(s: &Vec<MountInfo>) -> (r: Result<usize, TreeError>)
    ensures
        match r {
            Ok(i) => i < s@.len() && is_root_candidate(s@, i as int) && forall|j: int|
                0 <= j < s@.len() && is_root_candidate(s@, j) ==> j == i,
            Err(TreeError::NoRoot) => forall|j: int|
                0 <= j < s@.len() ==> !is_root_candidate(s@, j),
            Err(TreeError::MultipleRoots) => exists|a: int, b: int|
                0 <= a < b < s@.len() && is_root_candidate(s@, a) && is_root_candidate(s@, b),
        },
{
    let mut root: Option<usize> = None;
    let mut i: usize = 0;
    while i < s.len()
        invariant
            i <= s@.len(),
            match root {
                None => forall|j: int| 0 <= j < i ==> !is_root_candidate(s@, j),
                Some(r) => r < i && is_root_candidate(s@, r as int) && forall|j: int|
                    0 <= j < i && is_root_candidate(s@, j) ==> j == r,
            },
        decreases s.len() - i,
    {
        let cand = s[i].mnt_id == s[i].pid || find_id(s, s[i].pid).is_none();
        if cand {
            match root {
                Some(r) => {
                    assert(is_root_candidate(s@, i as int));
                    return Err(TreeError::MultipleRoots);
                },
                None => {
                    root = Some(i);
                },
            }
        }
        i = i + 1;
    }
    match root {
        Some(r) => Ok(r),
        None => Err(TreeError::NoRoot),
    }
}

/// The children of entry `i`, by ascending index.
fn collect_children(s: &Vec<MountInfo>, i: usize) -> (c: Vec<usize>)
    requires
        i < s@.len(),
    ensures
        children_ok(s@, i as int, c@),
{
    let mut c: Vec<usize> = Vec::new();
    let mut j: usize = 0;
    while j < s.len()
        invariant
            i < s@.len(),
            j <= s@.len(),
            forall|a: int, b: int| 0 <= a < b < c@.len() ==> c@[a] < c@[b],
            forall|a: int| 0 <= a < c@.len() ==> c@[a] < j && is_child(s@, c@[a] as int, i as int),
            forall|x: int| 0 <= x < j && is_child(s@, x, i as int) ==> c@.contains(x as usize),
        decreases s.len() - j,
    {
        if j != i && s[j].pid == s[i].mnt_id {
            let ghost c0 = c@;
            c.push(j);
            assert(c@[c@.len() - 1] == j);
            assert forall|x: usize| c0.contains(x) implies c@.contains(x) by {
                let a = choose|a: int| 0 <= a < c0.len() && c0[a] == x;
                assert(c@[a] == x);
            }
        }
        j = j + 1;
    }
    c
}


/// Breadth-first positions, from `root`, of the nodes reachable from it over
/// the child lists `ch`; `s.len()` for the nodes it does not reach.
fn breadth_first_ranks(s: &Vec<MountInfo>, ch: &Vec<Vec<usize>>, root: usize) -> (rank: Vec<usize>)
    requires
        ids_sorted(s@),
        root < s@.len(),
        is_root_candidate(s@, root as int),
        ch@.len() == s@.len(),
        forall|i: int| 0 <= i < s@.len() ==> children_ok(s@, i, #[trigger] ch@[i]@),
    ensures
        rank@.len() == s@.len(),
        rank@[root as int] < s@.len(),
        forall|i: int, a: int|
            #![trigger ch@[i]@[a], rank@[i]]
            0 <= i < s@.len() && rank@[i] < s@.len() && 0 <= a < ch@[i]@.len() ==> rank@[i]
                < rank@[ch@[i]@[a] as int] && rank@[ch@[i]@[a] as int] < s@.len(),
        forall|p: int, j: int|
            0 <= p < s@.len() && 0 <= j < s@.len() && #[trigger] is_child(s@, j, p) && rank@[j] < s@.len()
                ==> rank@[p] < rank@[j],
{
    let n = s.len();
    let mut rank: Vec<usize> = Vec::new();
    let mut x: usize = 0;
    while x < n
        invariant
            n == s@.len(),
            x <= n,
            rank@.len() == x,
            forall|j: int| 0 <= j < x ==> rank@[j] == n,
            count_below(rank@, n as int) == 0,
        decreases n - x,
    {
        let ghost r0 = rank@;
        rank.push(n);
        assert(rank@.drop_last() =~= r0);
        x = x + 1;
    }
    proof {
        lemma_count_below_update(rank@, n as int, root as int, 0);
    }
    rank.set(root, 0);
    let mut order: Vec<usize> = Vec::new();
    order.push(root);
    assert forall|p: int| 0 <= p < n implies !is_child(s@, root as int, p) by {
        if is_child(s@, root as int, p) {
            if s@[root as int].mnt_id == s@[root as int].pid {
                lemma_sorted_unique(s@, root as int, p);
            } else {
                assert(has_id(s@, s@[root as int].pid));
            }
        }
    }
    let mut k: usize = 0;
    while k < order.len()
        invariant
            n == s@.len(),
            ids_sorted(s@),
            root < n,
            ch@.len() == n,
            forall|i: int| 0 <= i < n ==> children_ok(s@, i, #[trigger] ch@[i]@),
            forall|p: int| 0 <= p < n ==> !is_child(s@, root as int, p),
            rank@.len() == n,
            order@.len() <= n,
            k <= order@.len(),
            count_below(rank@, n as int) == order@.len(),
            order@[0] == root,
            0 < order@.len(),
            forall|q: int| 0 <= q < order@.len() ==> order@[q] < n && rank@[order@[q] as int] == q,
            forall|j: int|
                0 <= j < n ==> rank@[j] >= n || (rank@[j] < order@.len() && order@[rank@[j] as int]
                    == j),
            forall|p: int, j: int|
                0 <= p < n && 0 <= j < n && is_child(s@, j, p) && rank@[j] < n ==> rank@[p]
                    < rank@[j] && rank@[p] < k,
            forall|q: int, a: int|
                0 <= q < k && 0 <= a < ch@[order@[q] as int]@.len() ==> rank@[ch@[order@[q] as int]@[a] as int] < n,
        decreases n - k,
    {
        let p = order[k];
        let kids = &ch[p];
        let mut m: usize = 0;
        while m < kids.len()
            invariant
                n == s@.len(),
                ids_sorted(s@),
                p < n,
                p == order@[k as int],
                kids@ == ch@[p as int]@,
                children_ok(s@, p as int, kids@),
                ch@.len() == n,
                forall|i: int| 0 <= i < n ==> children_ok(s@, i, #[trigger] ch@[i]@),
                rank@.len() == n,
                order@.len() <= n,
                k < order@.len(),
                m <= kids@.len(),
                count_below(rank@, n as int) == order@.len(),
                order@[0] == root,
                forall|q: int| 0 <= q < order@.len() ==> order@[q] < n && rank@[order@[q] as int] == q,
                forall|j: int|
                    0 <= j < n ==> rank@[j] >= n || (rank@[j] < order@.len() && order@[rank@[j] as int]
                        == j),
                forall|pp: int, j: int|
                    0 <= pp < n && 0 <= j < n && is_child(s@, j, pp) && rank@[j] < n ==> rank@[pp]
                        < rank@[j] && (rank@[pp] < k || (pp == p && (m < kids@.len() ==> j < kids@[m as int]))),
                forall|q: int, a: int|
                    0 <= q < k && 0 <= a < ch@[order@[q] as int]@.len() ==> rank@[ch@[order@[q] as int]@[a] as int] < n,
                forall|a: int| 0 <= a < m ==> rank@[kids@[a] as int] < n,
            decreases kids.len() - m,
        {
            let c = kids[m];
            assert(is_child(s@, c as int, p as int));
            if rank[c] < n {
                assert(false);
            }
            let l = order.len();
            proof {
                lemma_count_below_bound(rank@, n as int, c as int);
                lemma_count_below_update(rank@, n as int, c as int, l);
            }
            let ghost r0 = rank@;
            let ghost o0 = order@;
            rank.set(c, l);
            order.push(c);
            assert forall|pp: int, j: int|
                0 <= pp < n && 0 <= j < n && is_child(s@, j, pp) && rank@[j] < n implies rank@[pp]
                    < rank@[j] && (rank@[pp] < k || (pp == p && (m + 1 < kids@.len() ==> j < kids@[m + 1]))) by {
                if j == c {
                    lemma_sorted_unique(s@, pp, p as int);
                } else if pp == c {
                    assert(r0[j] < n);
                }
            }
            assert forall|q: int, a: int|
                0 <= q < k && 0 <= a < ch@[order@[q] as int]@.len() implies rank@[ch@[order@[q] as int]@[a] as int] < n by {
                let x = ch@[order@[q] as int]@[a] as int;
                assert(order@[q] == o0[q]);
                assert(children_ok(s@, order@[q] as int, ch@[order@[q] as int]@));
                if x != c {
                    assert(rank@[x] == r0[x]);
                }
            }
            m = m + 1;
        }
        k = k + 1;
    }
    rank
}


/// Mount id `k` is a root candidate of the id-indexed table `m`.
pub open spec fn map_root(m: Map<i32, (i32, i32, Seq<u8>)>, k: i32) -> bool {
    m.contains_key(k) && (m[k].1 == k || !m.contains_key(m[k].1))
}

proof fn lemma_root_candidates(s: Seq<MountInfo>, m: Map<i32, (i32, i32, Seq<u8>)>)
    requires
        represents(s, m),
    ensures
        forall|i: int| 0 <= i < s.len() ==> (is_root_candidate(s, i) <==> map_root(m, s[i].mnt_id)),
        forall|k: i32| map_root(m, k) ==> exists|i: int| 0 <= i < s.len() && s[i].mnt_id == k,
{
    assert forall|i: int| 0 <= i < s.len() implies (is_root_candidate(s, i) <==> map_root(m, s[i].mnt_id)) by {
        assert(m[s[i].mnt_id] == s[i]@);
        assert(m.contains_key(s[i].pid) <==> has_id(s, s[i].pid));
    }
}

impl MountNode {
    /// Builds the mount tree of a mount table. The table is indexed by id
    /// (a later entry with an id replaces an earlier one); the tree holds one
    /// node per id, its root is the single root candidate, and every node
    /// lists its children by ascending id.
    pub fn get_tree(mounts: Vec<MountInfo>) -> (r: Result<MountTree, TreeError>)
        ensures
            ({
                let m = table_map(mounts@);
                match r {
                    Ok(t) => t.wf() && represents(t.infos(), m) && forall|k: i32|
                        map_root(m, k) <==> k == t.infos()[t.root as int].mnt_id,
                    Err(TreeError::NoRoot) => forall|k: i32| !map_root(m, k),
                    Err(TreeError::MultipleRoots) => exists|a: i32, b: i32|
                        a != b && map_root(m, a) && map_root(m, b),
                }
            }),
            r is Ok <==> exists|k: i32|
                map_root(table_map(mounts@), k) && forall|k2: i32| map_root(table_map(mounts@), k2) ==> k2 == k,
    {
        let mut recs = index_by_id(mounts);
        let ghost s = recs@;
        let ghost m = table_map(mounts@);
        proof {
            lemma_root_candidates(s, m);
        }
        let root = match find_root(&recs) {
            Ok(i) => i,
            Err(e) => {
                proof {
                    if e == TreeError::MultipleRoots {
                        let (a, b) = choose|a: int, b: int|
                            0 <= a < b < s.len() && is_root_candidate(s, a) && is_root_candidate(s, b);
                        assert(s[a].mnt_id < s[b].mnt_id);
                        assert(map_root(m, s[a].mnt_id) && map_root(m, s[b].mnt_id));
                    } else {
                        assert forall|k: i32| !map_root(m, k) by {
                            if map_root(m, k) {
                                let x = choose|x: int| 0 <= x < s.len() && s[x].mnt_id == k;
                                assert(is_root_candidate(s, x));
                            }
                        }
                    }
                }
                return Err(e);
            },
        };
        let n = recs.len();
        let mut ch: Vec<Vec<usize>> = Vec::new();
        let mut i: usize = 0;
        while i < n
            invariant
                n == s.len(),
                recs@ == s,
                i <= n,
                ch@.len() == i,
                forall|x: int| 0 <= x < i ==> children_ok(s, x, #[trigger] ch@[x]@),
            decreases n - i,
        {
            let c = collect_children(&recs, i);
            ch.push(c);
            assert(ch@[i as int]@ == c@);
            i = i + 1;
        }
        let rank = breadth_first_ranks(&recs, &ch, root);
        let ghost ch0 = ch@;
        let mut nodes: Vec<MountNode> = Vec::new();
        let mut j: usize = 0;
        while j < n
            invariant
                n == s.len(),
                j <= n,
                recs@ == s.subrange(j as int, n as int),
                ch0.len() == n,
                ch@ == ch0.subrange(j as int, n as int),
                nodes@.len() == j,
                forall|x: int|
                    0 <= x < j ==> (#[trigger] nodes@[x]).mount_info == s[x] && nodes@[x].children
                        == ch0[x],
            decreases n - j,
        {
            let info = recs.remove(0);
            let children = ch.remove(0);
            nodes.push(MountNode { mount_info: info, children });
            j = j + 1;
        }
        let t = MountTree { nodes, root, rank };
        assert(t.infos() =~= s);
        assert forall|x: int| 0 <= x < s.len() implies t.kids(x) == ch0[x]@ by {
            assert(t.nodes@[x].children == ch0[x]);
        }
        assert forall|k: i32| map_root(m, k) <==> k == t.infos()[t.root as int].mnt_id by {
            if map_root(m, k) {
                let x = choose|x: int| 0 <= x < s.len() && s[x].mnt_id == k;
                assert(is_root_candidate(s, x));
            }
        }
        assert forall|x: int, a: int|
            #![trigger t.kids(x)[a], t.reached(x)]
            t.reached(x) && 0 <= a < t.kids(x).len() implies t.rank@[x] < t.rank@[t.kids(x)[a] as int]
                && t.reached(t.kids(x)[a] as int) by {
            assert(t.kids(x) == ch0[x]@);
        }
        Ok(t)
    }
}


/// Below node `i`, starting at its `j`-th child: the deepest node reached by
/// stepping each time into the first child whose mount point holds `path`.
pub open spec fn deepest(t: MountTree, i: int, path: Seq<u8>, j: int) -> int
    decreases t.nodes.len() - t.rank@[i], t.kids(i).len() - j,
{
    if !(t.wf() && t.reached(i) && 0 <= j < t.kids(i).len()) {
        i
    } else {
        let c = t.kids(i)[j] as int;
        if within(path, t.mp(c)) {
            deepest(t, c, path, 0)
        } else {
            deepest(t, i, path, j + 1)
        }
    }
}

/// The mount that covers `path` in the subtree of node `i`: none when `path`
/// lies outside `i`'s mount point, else the deepest matching descendant.
pub open spec fn covering(t: MountTree, i: int, path: Seq<u8>) -> Option<int> {
    if within(path, t.mp(i)) {
        Some(deepest(t, i, path, 0))
    } else {
        None
    }
}

/// The node `deepest` returns is reached, and no higher than the start node.
pub proof fn lemma_deepest_reached(t: MountTree, i: int, path: Seq<u8>, j: int)
    requires
        t.wf(),
        t.reached(i),
        0 <= j,
    ensures
        t.reached(deepest(t, i, path, j)),
        t.rank@[i] <= t.rank@[deepest(t, i, path, j)],
    decreases t.nodes.len() - t.rank@[i], t.kids(i).len() - j,
{
    if j < t.kids(i).len() {
        let c = t.kids(i)[j] as int;
        if within(path, t.mp(c)) {
            lemma_deepest_reached(t, c, path, 0);
        } else {
            lemma_deepest_reached(t, i, path, j + 1);
        }
    }
}

fn deepest_from(tree: &MountTree, i: usize, path: &Vec<u8>, j: usize) -> (r: usize)
    requires
        tree.wf(),
        tree.reached(i as int),
        j <= tree.kids(i as int).len(),
    ensures
        r == deepest(*tree, i as int, path@, j as int),
    decreases tree.nodes.len() - tree.rank@[i as int], tree.kids(i as int).len() - j,
{
    let kids = &tree.nodes[i].children;
    if j >= kids.len() {
        return i;
    }
    let c = kids[j];
    assert(tree.reached(c as int));
    if path_within(path, &tree.nodes[c].mount_info.mount_point) {
        deepest_from(tree, c, path, 0)
    } else {
        deepest_from(tree, i, path, j + 1)
    }
}

impl MountNode {
    /// The deepest mount in the subtree of `node` whose mount point holds
    /// `path`, the first matching child winning; `None` when `path` is outside
    /// `node`'s own mount point.
    pub fn get_mount_for_path(tree: &MountTree, node: usize, path: &Vec<u8>) -> (r: Option<usize>)
        requires
            tree.wf(),
            tree.reached(node as int),
        ensures
            match r {
                Some(x) => covering(*tree, node as int, path@) == Some(x as int),
                None => covering(*tree, node as int, path@) is None,
            },
    {
        if path_within(path, &tree.nodes[node].mount_info.mount_point) {
            Some(deepest_from(tree, node, path, 0))
        } else {
            None
        }
    }
}


/// For the children of node `m` from the `j`-th on whose mount point lies
/// strictly below `path`, the topmost mount stacked on that mount point.
pub open spec fn tops_from(t: MountTree, m: int, path: Seq<u8>, j: int) -> Seq<int>
    decreases t.kids(m).len() - j,
{
    if !(0 <= j < t.kids(m).len()) {
        Seq::empty()
    } else {
        let c = t.kids(m)[j] as int;
        let rest = tops_from(t, m, path, j + 1);
        if strictly_under(t.mp(c), path) {
            seq![deepest(t, c, t.mp(c), 0)] + rest
        } else {
            rest
        }
    }
}

/// The topmost mounts directly nested below `path` in the mount that covers
/// it within the subtree of `node`.
pub open spec fn child_tops(t: MountTree, node: int, path: Seq<u8>) -> Seq<int> {
    match covering(t, node, path) {
        Some(m) => tops_from(t, m, path, 0),
        None => Seq::empty(),
    }
}

/// The entries of `tops_from` are reached and lie below `m`.
pub proof fn lemma_tops_from(t: MountTree, m: int, path: Seq<u8>, j: int)
    requires
        t.wf(),
        t.reached(m),
        0 <= j,
    ensures
        forall|x: int|
            0 <= x < tops_from(t, m, path, j).len() ==> t.reached(tops_from(t, m, path, j)[x])
                && t.rank@[m] < t.rank@[tops_from(t, m, path, j)[x]],
    decreases t.kids(m).len() - j,
{
    if j < t.kids(m).len() {
        let c = t.kids(m)[j] as int;
        lemma_tops_from(t, m, path, j + 1);
        assert(t.reached(c) && t.rank@[m] < t.rank@[c]);
        if strictly_under(t.mp(c), path) {
            lemma_deepest_reached(t, c, t.mp(c), 0);
            let rest = tops_from(t, m, path, j + 1);
            let all = tops_from(t, m, path, j);
            assert forall|x: int| 0 <= x < all.len() implies t.reached(all[x]) && t.rank@[m] < t.rank@[all[x]] by {
                if x > 0 {
                    assert(all[x] == rest[x - 1]);
                }
            }
        } else {
            assert(tops_from(t, m, path, j) == tops_from(t, m, path, j + 1));
        }
    }
}

/// The entries of `child_tops` are reached and lie below `node`.
pub proof fn lemma_child_tops(t: MountTree, node: int, path: Seq<u8>)
    requires
        t.wf(),
        t.reached(node),
    ensures
        forall|x: int|
            0 <= x < child_tops(t, node, path).len() ==> t.reached(child_tops(t, node, path)[x])
                && t.rank@[node] < t.rank@[child_tops(t, node, path)[x]],
{
    if let Some(m) = covering(t, node, path) {
        lemma_deepest_reached(t, node, path, 0);
        lemma_tops_from(t, m, path, 0);
    }
}

/// The node that `deepest` returns has a mount point that holds `path`, when
/// the start node's does.
pub proof fn lemma_deepest_within(t: MountTree, i: int, path: Seq<u8>, j: int)
    requires
        t.wf(),
        t.reached(i),
        0 <= j,
        within(path, t.mp(i)),
    ensures
        within(path, t.mp(deepest(t, i, path, j))),
    decreases t.nodes.len() - t.rank@[i], t.kids(i).len() - j,
{
    if j < t.kids(i).len() {
        let c = t.kids(i)[j] as int;
        if within(path, t.mp(c)) {
            lemma_deepest_within(t, c, path, 0);
        } else {
            lemma_deepest_within(t, i, path, j + 1);
        }
    }
}

fn tops_collect(
    child_mounts: &mut Vec<usize>,
    tree: &MountTree,
    m: usize,
    path: &Vec<u8>,
    j: usize,
)
    requires
        tree.wf(),
        tree.reached(m as int),
        j <= tree.kids(m as int).len(),
    ensures
        as_ints(final(child_mounts)@) == as_ints(old(child_mounts)@) + tops_from(*tree, m as int, path@, j as int),
    decreases tree.kids(m as int).len() - j,
{
    let kids = &tree.nodes[m].children;
    if j >= kids.len() {
        assert(final(child_mounts)@ == old(child_mounts)@);
        return ;
    }
    let c = kids[j];
    assert(tree.reached(c as int));
    let mp = &tree.nodes[c].mount_info.mount_point;
    if path_strictly_under(mp, path) {
        let top = deepest_from(tree, c, mp, 0);
        let ghost before = child_mounts@;
        child_mounts.push(top);
        assert(as_ints(child_mounts@) =~= as_ints(before) + seq![top as int]);
    }
    tops_collect(child_mounts, tree, m, path, j + 1);
    assert(as_ints(old(child_mounts)@) + tops_from(*tree, m as int, path@, j as int) =~= as_ints(final(child_mounts)@));
}

impl MountNode {
    /// Appends to `child_mounts`, for each child of the mount covering `path`
    /// (within the subtree of `node`) whose mount point lies strictly below
    /// `path`, the topmost mount stacked on that mount point.
    pub fn get_child_mounts_for_path(
        child_mounts: &mut Vec<usize>,
        tree: &MountTree,
        node: usize,
        path: &Vec<u8>,
    )
        requires
            tree.wf(),
            tree.reached(node as int),
        ensures
            as_ints(final(child_mounts)@) == as_ints(old(child_mounts)@) + child_tops(*tree, node as int, path@),
    {
        match MountNode::get_mount_for_path(tree, node, path) {
            Some(m) => {
                proof {
                    lemma_deepest_reached(*tree, node as int, path@, 0);
                }
                tops_collect(child_mounts, tree, m, path, 0);
            },
            None => {
                assert(as_ints(old(child_mounts)@) + child_tops(*tree, node as int, path@) =~= as_ints(final(child_mounts)@));
            },
        }
    }
}


/// Node indices as integers.
pub open spec fn as_ints(v: Seq<usize>) -> Seq<int> {
    v.map_values(|x: usize| x as int)
}

/// The mounts nested at or below `path` under `node`, children before
/// parents: for each topmost child mount from the `j`-th on, its own nested
/// mounts (searched below its own mount point), and `node` itself last.
pub open spec fn nested_order(t: MountTree, node: int, path: Seq<u8>, j: int) -> Seq<int>
    decreases t.nodes.len() - t.rank@[node], child_tops(t, node, path).len() - j,
    via nested_order_decreases
{
    if !(t.wf() && t.reached(node) && 0 <= j < child_tops(t, node, path).len()) {
        seq![node]
    } else {
        let top = child_tops(t, node, path)[j];
        nested_order(t, top, t.mp(top), 0) + nested_order(t, node, path, j + 1)
    }
}

#[via_fn]
proof fn nested_order_decreases(t: MountTree, node: int, path: Seq<u8>, j: int) {
    if t.wf() && t.reached(node) && 0 <= j < child_tops(t, node, path).len() {
        lemma_child_tops(t, node, path);
    }
}

/// The list of mounts nested at or below `path` under `node`, every mount
/// after all the mounts nested below it.
pub open spec fn nested_mounts(t: MountTree, node: int, path: Seq<u8>) -> Seq<int> {
    nested_order(t, node, path, 0)
}

impl MountNode {
    /// Appends to `child_mounts` the mounts nested at or below `path` under
    /// `node`, children before parents, `node` itself last.
    pub fn get_top_mounts_under_path(
        child_mounts: &mut Vec<usize>,
        tree: &MountTree,
        node: usize,
        path: &Vec<u8>,
    )
        requires
            tree.wf(),
            tree.reached(node as int),
        ensures
            as_ints(final(child_mounts)@) == as_ints(old(child_mounts)@) + nested_mounts(*tree, node as int, path@),
        decreases tree.nodes.len() - tree.rank@[node as int],
    {
        let mut children: Vec<usize> = Vec::new();
        MountNode::get_child_mounts_for_path(&mut children, tree, node, path);
        let ghost tops = child_tops(*tree, node as int, path@);
        assert(as_ints(children@) =~= tops);
        proof {
            lemma_child_tops(*tree, node as int, path@);
        }
        let ghost start = as_ints(child_mounts@);
        let mut idx: usize = 0;
        while idx < children.len()
            invariant
                tree.wf(),
                tree.reached(node as int),
                as_ints(children@) == tops,
                tops == child_tops(*tree, node as int, path@),
                forall|x: int| 0 <= x < tops.len() ==> tree.reached(tops[x]) && tree.rank@[node as int] < tree.rank@[tops[x]],
                idx <= children@.len(),
                as_ints(child_mounts@) + nested_order(*tree, node as int, path@, idx as int) == start
                    + nested_mounts(*tree, node as int, path@),
            decreases children.len() - idx,
        {
            let top = children[idx];
            assert(tops[idx as int] == top as int);
            let ghost before = as_ints(child_mounts@);
            MountNode::get_top_mounts_under_path(child_mounts, tree, top, &tree.nodes[top].mount_info.mount_point);
            assert(nested_order(*tree, node as int, path@, idx as int) == nested_mounts(*tree, top as int, tree.mp(top as int))
                + nested_order(*tree, node as int, path@, idx + 1));
            assert(as_ints(child_mounts@) + nested_order(*tree, node as int, path@, idx + 1) =~= before
                + nested_order(*tree, node as int, path@, idx as int));
            idx = idx + 1;
        }
        let ghost before = as_ints(child_mounts@);
        child_mounts.push(node);
        assert(as_ints(child_mounts@) =~= before + seq![node as int]);
    }
}


/// A triple with its mount point as a plain value.
pub open spec fn triple(x: (i32, i32, Vec<u8>)) -> (i32, i32, Seq<u8>) {
    (x.0, x.1, x.2@)
}

/// `v` is the entry of a child of one of the first `k` nodes, and its parent
/// id is that node's id.
pub open spec fn from_child(t: MountTree, v: (i32, i32, Seq<u8>), k: int) -> bool {
    exists|p: int, a: int|
        0 <= p < k && 0 <= a < t.kids(p).len() && v == child_view(t, p, a) && v.1 == t.infos()[p].mnt_id
}

/// `v` stands in `r` after its first triple.
pub open spec fn listed(r: Seq<(i32, i32, Vec<u8>)>, v: (i32, i32, Seq<u8>)) -> bool {
    exists|x: int| 1 <= x < r.len() && triple(r[x]) == v
}

/// The entry of the `a`-th child of node `p`.
pub open spec fn child_view(t: MountTree, p: int, a: int) -> (i32, i32, Seq<u8>) {
    t.infos()[t.kids(p)[a] as int]@
}

impl MountTree {
    /// The (id, parent id, mount point) triples of the tree, read through
    /// the child lists: the root first, then each node's children.
    pub fn to_records(&self) -> (r: Vec<(i32, i32, Vec<u8>)>)
        requires
            self.wf(),
        ensures
            r@.len() >= 1,
            triple(r@[0]) == self.infos()[self.root as int]@,
            forall|x: int| 1 <= x < r@.len() ==> from_child(*self, triple(r@[x]), self.nodes.len() as int),
            forall|p: int, a: int| 0 <= p < self.nodes.len() && 0 <= a < self.kids(p).len() ==> listed(r@, child_view(*self, p, a)),
            r@.map_values(|x: (i32, i32, Vec<u8>)| triple(x)).to_set() == record_set(*self),
    {
        let root = &self.nodes[self.root].mount_info;
        let mut r: Vec<(i32, i32, Vec<u8>)> = Vec::new();
        r.push((root.mnt_id, root.pid, root.mount_point.clone()));
        let n = self.nodes.len();
        let mut i: usize = 0;
        while i < n
            invariant
                self.wf(),
                n == self.nodes@.len(),
                i <= n,
                r@.len() >= 1,
                triple(r@[0]) == self.infos()[self.root as int]@,
                forall|x: int| 1 <= x < r@.len() ==> from_child(*self, triple(r@[x]), i as int),
                forall|p: int, a: int| 0 <= p < i && 0 <= a < self.kids(p).len() ==> listed(r@, child_view(*self, p, a)),
            decreases n - i,
        {
            let node = &self.nodes[i];
            let mut a: usize = 0;
            while a < node.children.len()
                invariant
                    self.wf(),
                    n == self.nodes@.len(),
                    i < n,
                    *node == self.nodes@[i as int],
                    a <= node.children@.len(),
                    r@.len() >= 1,
                    triple(r@[0]) == self.infos()[self.root as int]@,
                    forall|x: int| 1 <= x < r@.len() ==> from_child(*self, triple(r@[x]), i + 1),
                    forall|p: int, b: int| (0 <= p < i && 0 <= b < self.kids(p).len()) || (p == i && 0 <= b < a) ==> listed(r@, child_view(*self, p, b)),
                decreases node.children.len() - a,
            {
                let c = node.children[a];
                assert(children_ok(self.infos(), i as int, self.kids(i as int)));
                let info = &self.nodes[c].mount_info;
                let ghost r0 = r@;
                r.push((info.mnt_id, info.pid, info.mount_point.clone()));
                let ghost last = r@.len() - 1;
                assert(r@[last].1 == self.infos()[i as int].mnt_id);
                assert forall|x: int| 1 <= x < r@.len() implies from_child(*self, triple(r@[x]), i + 1) by {
                    if x == last {
                        assert(self.kids(i as int)[a as int] == c);
                        assert(is_child(self.infos(), c as int, i as int));
                        assert(triple(r@[x]) == child_view(*self, i as int, a as int));
                    } else {
                        assert(r@[x] == r0[x]);
                        assert(from_child(*self, triple(r0[x]), i + 1));
                    }
                }
                assert forall|p: int, b: int| (0 <= p < i && 0 <= b < self.kids(p).len()) || (p == i && 0 <= b < a + 1) implies listed(r@, child_view(*self, p, b)) by {
                    if p == i && b == a {
                        assert(r@[last].0 == self.infos()[c as int].mnt_id);
                    } else {
                        let x = choose|x: int| 1 <= x < r0.len() && triple(r0[x]) == child_view(*self, p, b);
                        assert(r@[x] == r0[x]);
                    }
                }
                a = a + 1;
            }
            i = i + 1;
        }
        proof {
            lemma_to_records_set(*self, r@);
        }
        r
    }
}


/// In a well-formed tree every node but the root is listed among the children
/// of the node whose id is its parent id: no node is an orphan.
pub proof fn lemma_no_orphans(t: MountTree, i: int)
    requires
        t.wf(),
        0 <= i < t.nodes.len(),
        i != t.root,
    ensures
        exists|p: int|
            0 <= p < t.nodes.len() && t.infos()[p].mnt_id == t.infos()[i].pid && t.kids(p).contains(
                i as usize,
            ),
{
    let s = t.infos();
    assert(!is_root_candidate(s, i));
    let p = choose|p: int| 0 <= p < s.len() && s[p].mnt_id == s[i].pid;
    assert(is_child(s, i, p));
    assert(children_ok(s, p, t.kids(p)));
}

/// The triples that the tree holds: the root's entry and the entry of every
/// child of every node.
pub open spec fn record_set(t: MountTree) -> Set<(i32, i32, Seq<u8>)> {
    Set::new(
        |v: (i32, i32, Seq<u8>)|
            v == t.infos()[t.root as int]@ || exists|p: int, a: int|
                0 <= p < t.nodes.len() && 0 <= a < t.kids(p).len() && v == child_view(t, p, a),
    )
}

/// Round trip: the triples read back from the tree built from a table are
/// exactly the table's entries (one per id, the last one given for it).
pub proof fn lemma_round_trip(mounts: Seq<MountInfo>, t: MountTree)
    requires
        t.wf(),
        represents(t.infos(), table_map(mounts)),
    ensures
        record_set(t) == table_map(mounts).values(),
{
    let m = table_map(mounts);
    let s = t.infos();
    assert forall|v: (i32, i32, Seq<u8>)| record_set(t).contains(v) implies m.values().contains(v) by {
        if v == s[t.root as int]@ {
            assert(m.contains_key(s[t.root as int].mnt_id));
        } else {
            let (p, a) = choose|p: int, a: int|
                0 <= p < t.nodes.len() && 0 <= a < t.kids(p).len() && v == child_view(t, p, a);
            assert(children_ok(s, p, t.kids(p)));
            let c = t.kids(p)[a] as int;
            assert(m.contains_key(s[c].mnt_id) && m[s[c].mnt_id] == v);
        }
    }
    assert forall|v: (i32, i32, Seq<u8>)| m.values().contains(v) implies record_set(t).contains(v) by {
        let k = choose|k: i32| m.contains_key(k) && m[k] == v;
        let i = choose|i: int| 0 <= i < s.len() && s[i].mnt_id == k;
        assert(v == s[i]@);
        if i != t.root {
            lemma_no_orphans(t, i);
            let p = choose|p: int|
                0 <= p < t.nodes.len() && t.infos()[p].mnt_id == t.infos()[i].pid && t.kids(p).contains(
                    i as usize,
                );
            let a = choose|a: int| 0 <= a < t.kids(p).len() && t.kids(p)[a] == i as usize;
            assert(v == child_view(t, p, a));
        }
    }
    assert(record_set(t) =~= m.values());
}

/// What `to_records` returns holds exactly the triples of `record_set`.
pub proof fn lemma_to_records_set(t: MountTree, r: Seq<(i32, i32, Vec<u8>)>)
    requires
        t.wf(),
        r.len() >= 1,
        triple(r[0]) == t.infos()[t.root as int]@,
        forall|x: int| 1 <= x < r.len() ==> from_child(t, triple(r[x]), t.nodes.len() as int),
        forall|p: int, a: int| 0 <= p < t.nodes.len() && 0 <= a < t.kids(p).len() ==> listed(r, child_view(t, p, a)),
    ensures
        r.map_values(|x: (i32, i32, Vec<u8>)| triple(x)).to_set() == record_set(t),
{
    let rs = r.map_values(|x: (i32, i32, Vec<u8>)| triple(x));
    assert forall|v| rs.to_set().contains(v) implies record_set(t).contains(v) by {
        let x = choose|x: int| 0 <= x < rs.len() && rs[x] == v;
        if x > 0 {
            assert(from_child(t, triple(r[x]), t.nodes.len() as int));
        }
    }
    assert forall|v| record_set(t).contains(v) implies rs.to_set().contains(v) by {
        if v == t.infos()[t.root as int]@ {
            assert(rs[0] == v);
        } else {
            let (p, a) = choose|p: int, a: int|
                0 <= p < t.nodes.len() && 0 <= a < t.kids(p).len() && v == child_view(t, p, a);
            assert(listed(r, child_view(t, p, a)));
            let x = choose|x: int| 1 <= x < r.len() && triple(r[x]) == v;
            assert(rs[x] == v);
        }
    }
    assert(rs.to_set() =~= record_set(t));
}


/// The node `deepest` stops at has no child from which it would go on.
proof fn lemma_deepest_final(t: MountTree, i: int, path: Seq<u8>, j: int)
    requires
        t.wf(),
        t.reached(i),
        0 <= j,
    ensures
        forall|a: int|
            (deepest(t, i, path, j) != i || j <= a) && 0 <= a < t.kids(deepest(t, i, path, j)).len()
                ==> !within(path, t.mp(t.kids(deepest(t, i, path, j))[a] as int)),
    decreases t.nodes.len() - t.rank@[i], t.kids(i).len() - j,
{
    if j < t.kids(i).len() {
        let c = t.kids(i)[j] as int;
        if within(path, t.mp(c)) {
            lemma_deepest_final(t, c, path, 0);
            lemma_deepest_reached(t, c, path, 0);
        } else {
            lemma_deepest_final(t, i, path, j + 1);
            let r = deepest(t, i, path, j);
            assert forall|a: int| (r != i || j <= a) && 0 <= a < t.kids(r).len() implies !within(path, t.mp(t.kids(r)[a] as int)) by {
                assert(r == deepest(t, i, path, j + 1));
                if r == i && a == j {
                    assert(t.kids(r)[a] as int == c);
                }
            }
        }
    }
}

/// `deepest` stays at `i` when no child from the `j`-th on holds `path`.
proof fn lemma_deepest_stays(t: MountTree, i: int, path: Seq<u8>, j: int)
    requires
        t.wf(),
        t.reached(i),
        0 <= j,
        forall|a: int| j <= a < t.kids(i).len() ==> !within(path, t.mp(t.kids(i)[a] as int)),
    ensures
        deepest(t, i, path, j) == i,
    decreases t.kids(i).len() - j,
{
    if j < t.kids(i).len() {
        lemma_deepest_stays(t, i, path, j + 1);
    }
}

/// Looking up the mount point of the covering mount again, from that mount,
/// gives that same mount.
pub proof fn lemma_covering_idempotent(t: MountTree, i: int, path: Seq<u8>)
    requires
        t.wf(),
        t.reached(i),
        covering(t, i, path) is Some,
    ensures
        covering(t, covering(t, i, path)->Some_0, t.mp(covering(t, i, path)->Some_0)) == covering(t, i, path),
{
    let r = deepest(t, i, path, 0);
    lemma_deepest_reached(t, i, path, 0);
    lemma_deepest_within(t, i, path, 0);
    lemma_deepest_final(t, i, path, 0);
    lemma_within_refl(t.mp(r));
    assert forall|a: int| 0 <= a < t.kids(r).len() implies !within(t.mp(r), t.mp(t.kids(r)[a] as int)) by {
        if within(t.mp(r), t.mp(t.kids(r)[a] as int)) {
            lemma_within_trans(path, t.mp(r), t.mp(t.kids(r)[a] as int));
        }
    }
    lemma_deepest_stays(t, r, t.mp(r), 0);
}


/// Every child's mount point lies at or below its parent's, as the kernel
/// keeps it.
pub open spec fn nested_points(t: MountTree) -> bool {
    forall|i: int, a: int|
        #![trigger t.kids(i)[a], t.reached(i)]
        t.reached(i) && 0 <= a < t.kids(i).len() ==> within(t.mp(t.kids(i)[a] as int), t.mp(i))
}

proof fn lemma_within_antisym(a: Seq<u8>, b: Seq<u8>)
    requires
        within(a, b),
        within(b, a),
    ensures
        a == b,
{
    assert(a.subrange(0, a.len() as int) =~= a);
    assert(a =~= b);
}

/// With nested mount points, the topmost mount stacked on a mount point has
/// that mount point.
proof fn lemma_deepest_same_point(t: MountTree, i: int, j: int)
    requires
        t.wf(),
        nested_points(t),
        t.reached(i),
        0 <= j,
    ensures
        t.mp(deepest(t, i, t.mp(i), j)) == t.mp(i),
    decreases t.nodes.len() - t.rank@[i], t.kids(i).len() - j,
{
    if j < t.kids(i).len() {
        let c = t.kids(i)[j] as int;
        if within(t.mp(i), t.mp(c)) {
            assert(within(t.mp(c), t.mp(i)));
            lemma_within_antisym(t.mp(c), t.mp(i));
            lemma_deepest_same_point(t, c, 0);
        } else {
            lemma_deepest_same_point(t, i, j + 1);
        }
    }
}

proof fn lemma_tops_under(t: MountTree, m: int, path: Seq<u8>, j: int)
    requires
        t.wf(),
        nested_points(t),
        t.reached(m),
        0 <= j,
    ensures
        forall|x: int|
            0 <= x < tops_from(t, m, path, j).len() ==> strictly_under(t.mp(tops_from(t, m, path, j)[x]), path),
    decreases t.kids(m).len() - j,
{
    if j < t.kids(m).len() {
        let c = t.kids(m)[j] as int;
        lemma_tops_under(t, m, path, j + 1);
        if strictly_under(t.mp(c), path) {
            lemma_deepest_same_point(t, c, 0);
            let rest = tops_from(t, m, path, j + 1);
            let all = tops_from(t, m, path, j);
            assert forall|x: int| 0 <= x < all.len() implies strictly_under(t.mp(all[x]), path) by {
                if x > 0 {
                    assert(all[x] == rest[x - 1]);
                }
            }
        } else {
            assert(tops_from(t, m, path, j) == tops_from(t, m, path, j + 1));
        }
    }
}

proof fn lemma_nested_order_under(t: MountTree, node: int, path: Seq<u8>, j: int)
    requires
        t.wf(),
        nested_points(t),
        t.reached(node),
        0 <= j,
    ensures
        nested_order(t, node, path, j).len() >= 1,
        nested_order(t, node, path, j).last() == node,
        forall|x: int|
            0 <= x < nested_order(t, node, path, j).len() - 1 ==> strictly_under(
                t.mp(#[trigger] nested_order(t, node, path, j)[x]),
                path,
            ),
    decreases t.nodes.len() - t.rank@[node], child_tops(t, node, path).len() - j,
{
    let tops = child_tops(t, node, path);
    if j < tops.len() {
        lemma_child_tops(t, node, path);
        let top = tops[j];
        if let Some(m) = covering(t, node, path) {
            lemma_deepest_reached(t, node, path, 0);
            lemma_tops_under(t, m, path, 0);
        }
        assert(strictly_under(t.mp(top), path));
        lemma_nested_order_under(t, top, t.mp(top), 0);
        lemma_nested_order_under(t, node, path, j + 1);
        let first = nested_order(t, top, t.mp(top), 0);
        let rest = nested_order(t, node, path, j + 1);
        let all = nested_order(t, node, path, j);
        assert(all == first + rest);
        assert forall|x: int| 0 <= x < all.len() - 1 implies strictly_under(t.mp(#[trigger] all[x]), path) by {
            if x < first.len() {
                assert(all[x] == first[x]);
                if x < first.len() - 1 {
                    assert(strictly_under(t.mp(first[x]), t.mp(top)));
                    lemma_within_trans(t.mp(first[x]), t.mp(top), path);
                } else {
                    assert(first[x] == top);
                }
            } else {
                assert(all[x] == rest[x - first.len()]);
            }
        }
    }
}

/// Every mount that the enumeration below `path` lists, but the starting
/// mount listed last, has a mount point strictly below `path` (for a tree
/// whose mount points are nested as the kernel keeps them).
pub proof fn lemma_nested_mounts_under(t: MountTree, node: int, path: Seq<u8>)
    requires
        t.wf(),
        nested_points(t),
        t.reached(node),
    ensures
        nested_mounts(t, node, path).last() == node,
        forall|x: int|
            0 <= x < nested_mounts(t, node, path).len() - 1 ==> strictly_under(
                t.mp(#[trigger] nested_mounts(t, node, path)[x]),
                path,
            ),
{
    lemma_nested_order_under(t, node, path, 0);
}


/// The node whose child `b` is.
pub open spec fn parent_of(t: MountTree, b: int) -> int {
    choose|p: int| 0 <= p < t.nodes.len() && is_child(t.infos(), b, p)
}

proof fn lemma_parent(t: MountTree, b: int)
    requires
        t.wf(),
        t.reached(b),
        b != t.root,
    ensures
        0 <= parent_of(t, b) < t.nodes.len(),
        is_child(t.infos(), b, parent_of(t, b)),
        t.reached(parent_of(t, b)),
        t.rank@[parent_of(t, b)] < t.rank@[b],
{
    lemma_no_orphans(t, b);
    let s = t.infos();
    let p = choose|p: int|
        0 <= p < t.nodes.len() && s[p].mnt_id == s[b].pid && t.kids(p).contains(b as usize);
    assert(is_child(s, b, p));
}

proof fn lemma_parent_of_child(t: MountTree, p: int, a: int)
    requires
        t.wf(),
        0 <= p < t.nodes.len(),
        0 <= a < t.kids(p).len(),
    ensures
        parent_of(t, t.kids(p)[a] as int) == p,
        t.kids(p)[a] != t.root,
{
    let s = t.infos();
    let c = t.kids(p)[a] as int;
    assert(children_ok(s, p, t.kids(p)));
    assert(is_child(s, c, p));
    let q = parent_of(t, c);
    lemma_sorted_unique(s, q, p);
    if c == t.root {
        if s[c].mnt_id == s[c].pid {
            lemma_sorted_unique(s, c, p);
        } else {
            assert(has_id(s, s[c].pid));
        }
    }
}

/// Node `a` is node `b` or one of its ancestors in the tree.
pub open spec fn anc_or_self(t: MountTree, a: int, b: int) -> bool
    decreases t.rank@[b],
    via anc_or_self_decreases
{
    if a == b {
        true
    } else if !(t.wf() && t.reached(b) && b != t.root) {
        false
    } else {
        anc_or_self(t, a, parent_of(t, b))
    }
}

#[via_fn]
proof fn anc_or_self_decreases(t: MountTree, a: int, b: int) {
    if a != b && t.wf() && t.reached(b) && b != t.root {
        lemma_parent(t, b);
    }
}

proof fn lemma_anc_rank(t: MountTree, a: int, b: int)
    requires
        t.wf(),
        t.reached(b),
        anc_or_self(t, a, b),
    ensures
        t.reached(a),
        t.rank@[a] <= t.rank@[b],
        a != b ==> t.rank@[a] < t.rank@[b],
    decreases t.rank@[b],
{
    if a != b {
        lemma_parent(t, b);
        lemma_anc_rank(t, a, parent_of(t, b));
    }
}

proof fn lemma_anc_trans(t: MountTree, a: int, b: int, c: int)
    requires
        t.wf(),
        t.reached(c),
        anc_or_self(t, a, b),
        anc_or_self(t, b, c),
    ensures
        anc_or_self(t, a, c),
    decreases t.rank@[c],
{
    if b != c {
        lemma_parent(t, c);
        lemma_anc_trans(t, a, b, parent_of(t, c));
    }
}

proof fn lemma_anc_comparable(t: MountTree, a: int, c: int, b: int)
    requires
        t.wf(),
        t.reached(b),
        anc_or_self(t, a, b),
        anc_or_self(t, c, b),
    ensures
        anc_or_self(t, a, c) || anc_or_self(t, c, a),
    decreases t.rank@[b],
{
    if a != b && c != b {
        lemma_parent(t, b);
        lemma_anc_comparable(t, a, c, parent_of(t, b));
    }
}

proof fn lemma_anc_child(t: MountTree, p: int, a: int)
    requires
        t.wf(),
        t.reached(p),
        0 <= a < t.kids(p).len(),
    ensures
        anc_or_self(t, p, t.kids(p)[a] as int),
{
    lemma_parent_of_child(t, p, a);
    let c = t.kids(p)[a] as int;
    assert(t.reached(c));
    assert(anc_or_self(t, p, parent_of(t, c)));
}

/// No node above the `a`-th child of `p` in the tree lies below another
/// child of `p`.
proof fn lemma_siblings_apart(t: MountTree, p: int, a: int, b: int, x: int)
    requires
        t.wf(),
        t.reached(p),
        t.reached(x),
        0 <= a < t.kids(p).len(),
        0 <= b < t.kids(p).len(),
        a != b,
    ensures
        !(anc_or_self(t, t.kids(p)[a] as int, x) && anc_or_self(t, t.kids(p)[b] as int, x)),
{
    if !(anc_or_self(t, t.kids(p)[a] as int, x) && anc_or_self(t, t.kids(p)[b] as int, x)) {
        return;
    }
    let ca = t.kids(p)[a] as int;
    let cb = t.kids(p)[b] as int;
    assert(children_ok(t.infos(), p, t.kids(p)));
    assert(ca != cb) by {
        if a < b {
            assert(t.kids(p)[a] < t.kids(p)[b]);
        } else {
            assert(t.kids(p)[b] < t.kids(p)[a]);
        }
    }
    lemma_anc_comparable(t, ca, cb, x);
    lemma_parent_of_child(t, p, a);
    lemma_parent_of_child(t, p, b);
    assert(t.reached(ca) && t.reached(cb));
    assert(t.rank@[p] < t.rank@[ca] && t.rank@[p] < t.rank@[cb]);
    if anc_or_self(t, ca, cb) {
        assert(anc_or_self(t, ca, parent_of(t, cb)));
        lemma_anc_rank(t, ca, p);
    } else {
        assert(anc_or_self(t, cb, parent_of(t, ca)));
        lemma_anc_rank(t, cb, p);
    }
}

proof fn lemma_deepest_desc(t: MountTree, i: int, path: Seq<u8>, j: int)
    requires
        t.wf(),
        t.reached(i),
        0 <= j,
    ensures
        anc_or_self(t, i, deepest(t, i, path, j)),
    decreases t.nodes.len() - t.rank@[i], t.kids(i).len() - j,
{
    if j < t.kids(i).len() {
        let c = t.kids(i)[j] as int;
        if within(path, t.mp(c)) {
            lemma_deepest_desc(t, c, path, 0);
            lemma_deepest_reached(t, c, path, 0);
            lemma_anc_child(t, i, j);
            lemma_anc_trans(t, i, c, deepest(t, c, path, 0));
        } else {
            lemma_deepest_desc(t, i, path, j + 1);
        }
    }
}

/// For each entry of `tops_from`, the index of the child it was found under.
pub open spec fn tops_kid(t: MountTree, m: int, path: Seq<u8>, j: int) -> Seq<int>
    decreases t.kids(m).len() - j,
{
    if !(0 <= j < t.kids(m).len()) {
        Seq::empty()
    } else {
        let c = t.kids(m)[j] as int;
        let rest = tops_kid(t, m, path, j + 1);
        if strictly_under(t.mp(c), path) {
            seq![j] + rest
        } else {
            rest
        }
    }
}

proof fn lemma_tops_kid(t: MountTree, m: int, path: Seq<u8>, j: int)
    requires
        t.wf(),
        t.reached(m),
        0 <= j,
    ensures
        tops_kid(t, m, path, j).len() == tops_from(t, m, path, j).len(),
        forall|x: int|
            #![trigger tops_kid(t, m, path, j)[x]]
            #![trigger tops_from(t, m, path, j)[x]]
            0 <= x < tops_kid(t, m, path, j).len() ==> j <= tops_kid(t, m, path, j)[x] < t.kids(m).len()
                && anc_or_self(t, t.kids(m)[tops_kid(t, m, path, j)[x]] as int, tops_from(t, m, path, j)[x]),
        forall|x: int, y: int|
            0 <= x < y < tops_kid(t, m, path, j).len() ==> tops_kid(t, m, path, j)[x] < tops_kid(t, m, path, j)[y],
    decreases t.kids(m).len() - j,
{
    if j < t.kids(m).len() {
        let c = t.kids(m)[j] as int;
        lemma_tops_kid(t, m, path, j + 1);
        if strictly_under(t.mp(c), path) {
            assert(t.reached(c));
            lemma_deepest_desc(t, c, t.mp(c), 0);
            let ks = tops_kid(t, m, path, j);
            let kr = tops_kid(t, m, path, j + 1);
            let ts = tops_from(t, m, path, j);
            let tr = tops_from(t, m, path, j + 1);
            assert(ks[0] == j && ts[0] == deepest(t, c, t.mp(c), 0));
            assert forall|x: int| 0 <= x < ks.len() implies j <= ks[x] < t.kids(m).len() && anc_or_self(
                t,
                t.kids(m)[ks[x]] as int,
                ts[x],
            ) by {
                if x > 0 {
                    assert(ks[x] == kr[x - 1] && ts[x] == tr[x - 1]);
                    assert(j + 1 <= kr[x - 1] < t.kids(m).len() && anc_or_self(t, t.kids(m)[kr[x - 1]] as int, tr[x - 1]));
                } else {
                    assert(anc_or_self(t, c, ts[0]));
                }
            }
            assert forall|x: int, y: int| 0 <= x < y < ks.len() implies ks[x] < ks[y] by {
                assert(ks[y] == kr[y - 1]);
                assert(j + 1 <= kr[y - 1]);
                if x > 0 {
                    assert(ks[x] == kr[x - 1]);
                    assert(kr[x - 1] < kr[y - 1]);
                }
            }
        } else {
            assert(tops_kid(t, m, path, j) == tops_kid(t, m, path, j + 1));
            assert(tops_from(t, m, path, j) == tops_from(t, m, path, j + 1));
        }
    }
}


/// `v` lies in the subtree of one of the entries of `tops` from the `j`-th on.
pub open spec fn below_some_top(t: MountTree, tops: Seq<int>, j: int, v: int) -> bool {
    exists|k: int| j <= k < tops.len() && anc_or_self(t, tops[k], v)
}

proof fn lemma_order_shape(t: MountTree, node: int, path: Seq<u8>, j: int)
    requires
        t.wf(),
        t.reached(node),
        0 <= j,
    ensures
        nested_order(t, node, path, j).len() >= 1,
        nested_order(t, node, path, j).last() == node,
        forall|x: int|
            0 <= x < nested_order(t, node, path, j).len() - 1 ==> below_some_top(
                t,
                child_tops(t, node, path),
                j,
                #[trigger] nested_order(t, node, path, j)[x],
            ),
        forall|x: int|
            0 <= x < nested_order(t, node, path, j).len() ==> t.reached(
                #[trigger] nested_order(t, node, path, j)[x],
            ) && anc_or_self(t, node, nested_order(t, node, path, j)[x]),
        forall|x: int, y: int|
            0 <= x < nested_order(t, node, path, j).len() && 0 <= y < nested_order(t, node, path, j).len()
                && nested_order(t, node, path, j)[x] != nested_order(t, node, path, j)[y] && anc_or_self(
                t,
                #[trigger] nested_order(t, node, path, j)[x],
                #[trigger] nested_order(t, node, path, j)[y],
            ) ==> y < x,
    decreases t.nodes.len() - t.rank@[node], child_tops(t, node, path).len() - j,
{
    let tops = child_tops(t, node, path);
    let all = nested_order(t, node, path, j);
    if j >= tops.len() {
        assert(all == seq![node]);
    } else {
        lemma_child_tops(t, node, path);
        let m = covering(t, node, path)->Some_0;
        lemma_deepest_reached(t, node, path, 0);
        lemma_deepest_desc(t, node, path, 0);
        lemma_tops_kid(t, m, path, 0);
        let ks = tops_kid(t, m, path, 0);
        let top = tops[j];
        lemma_order_shape(t, top, t.mp(top), 0);
        lemma_order_shape(t, node, path, j + 1);
        let f = nested_order(t, top, t.mp(top), 0);
        let r = nested_order(t, node, path, j + 1);
        assert(all == f + r);
        let cj = t.kids(m)[ks[j]] as int;
        lemma_anc_child(t, m, ks[j]);
        lemma_parent_of_child(t, m, ks[j]);
        assert(t.reached(cj) && t.rank@[m] < t.rank@[cj]);
        lemma_anc_trans(t, m, cj, top);
        lemma_anc_trans(t, node, m, top);
        assert forall|x: int| 0 <= x < all.len() - 1 implies below_some_top(t, tops, j, #[trigger] all[x]) by {
            if x < f.len() {
                assert(all[x] == f[x]);
                assert(anc_or_self(t, top, f[x]));
            } else {
                assert(all[x] == r[x - f.len()]);
                assert(below_some_top(t, tops, j + 1, r[x - f.len()]));
                let k = choose|k: int| j + 1 <= k < tops.len() && anc_or_self(t, tops[k], r[x - f.len()]);
            }
        }
        assert forall|x: int| 0 <= x < all.len() implies t.reached(#[trigger] all[x]) && anc_or_self(t, node, all[x]) by {
            if x < f.len() {
                assert(all[x] == f[x]);
                lemma_anc_trans(t, node, top, f[x]);
            } else {
                assert(all[x] == r[x - f.len()]);
            }
        }
        assert forall|x: int, y: int|
            0 <= x < all.len() && 0 <= y < all.len() && all[x] != all[y] && anc_or_self(
                t,
                #[trigger] all[x],
                #[trigger] all[y],
            ) implies y < x by {
            if x < f.len() && y < f.len() {
                assert(all[x] == f[x] && all[y] == f[y]);
            } else if x >= f.len() && y >= f.len() {
                assert(all[x] == r[x - f.len()] && all[y] == r[y - f.len()]);
            } else if x < f.len() && y >= f.len() {
                let a = f[x];
                let b = r[y - f.len()];
                assert(all[x] == a && all[y] == b);
                assert(t.reached(a) && anc_or_self(t, top, a));
                assert(t.reached(b));
                lemma_anc_trans(t, top, a, b);
                lemma_anc_trans(t, cj, top, b);
                if y - f.len() == r.len() - 1 {
                    assert(b == node);
                    lemma_anc_rank(t, cj, node);
                    lemma_anc_rank(t, node, m);
                } else {
                    assert(below_some_top(t, tops, j + 1, b));
                    let k = choose|k: int| j + 1 <= k < tops.len() && anc_or_self(t, tops[k], b);
                    let ck = t.kids(m)[ks[k]] as int;
                    assert(anc_or_self(t, ck, tops[k]));
                    assert(t.reached(tops[k]));
                    lemma_anc_trans(t, ck, tops[k], b);
                    assert(ks[j] < ks[k]);
                    lemma_siblings_apart(t, m, ks[j], ks[k], b);
                }
            }
        }
    }
}

/// Reversed, the enumeration below `path` handles every mount before the
/// mounts below it in the tree: of two listed mounts, one an ancestor of the
/// other, the ancestor comes first.
pub proof fn lemma_reversed_ancestors_first(t: MountTree, node: int, path: Seq<u8>, x: int, y: int)
    requires
        t.wf(),
        t.reached(node),
        0 <= x < nested_mounts(t, node, path).len(),
        0 <= y < nested_mounts(t, node, path).len(),
        nested_mounts(t, node, path).reverse()[x] != nested_mounts(t, node, path).reverse()[y],
        anc_or_self(t, nested_mounts(t, node, path).reverse()[x], nested_mounts(t, node, path).reverse()[y]),
    ensures
        x < y,
{
    let e = nested_mounts(t, node, path);
    lemma_order_shape(t, node, path, 0);
    let xi = e.len() - 1 - x;
    let yi = e.len() - 1 - y;
    assert(e.reverse()[x] == e[xi] && e.reverse()[y] == e[yi]);
    assert(anc_or_self(t, e[xi], e[yi]));
}

/// With nested mount points, a node's mount point lies at or below those of
/// its ancestors.
proof fn lemma_anc_within(t: MountTree, a: int, b: int)
    requires
        t.wf(),
        nested_points(t),
        t.reached(b),
        anc_or_self(t, a, b),
    ensures
        within(t.mp(b), t.mp(a)),
    decreases t.rank@[b],
{
    if a == b {
        lemma_within_refl(t.mp(b));
    } else {
        lemma_parent(t, b);
        let p = parent_of(t, b);
        lemma_anc_within(t, a, p);
        assert(children_ok(t.infos(), p, t.kids(p)));
        let k = choose|k: int| 0 <= k < t.kids(p).len() && t.kids(p)[k] == b as usize;
        assert(within(t.mp(t.kids(p)[k] as int), t.mp(p)));
        lemma_within_trans(t.mp(b), t.mp(p), t.mp(a));
    }
}

proof fn lemma_deepest_again(t: MountTree, i: int, path: Seq<u8>, j: int)
    requires
        t.wf(),
        nested_points(t),
        t.reached(i),
        0 <= j,
        within(path, t.mp(i)),
    ensures
        deepest(t, i, t.mp(deepest(t, i, path, j)), j) == deepest(t, i, path, j),
    decreases t.nodes.len() - t.rank@[i], t.kids(i).len() - j,
{
    if j < t.kids(i).len() {
        let c = t.kids(i)[j] as int;
        let r = deepest(t, i, path, j);
        let q = t.mp(r);
        assert(t.reached(c));
        if within(path, t.mp(c)) {
            lemma_deepest_again(t, c, path, 0);
            lemma_deepest_desc(t, c, path, 0);
            lemma_deepest_reached(t, c, path, 0);
            lemma_anc_within(t, c, r);
        } else {
            lemma_deepest_again(t, i, path, j + 1);
            lemma_deepest_within(t, i, path, j + 1);
            if within(q, t.mp(c)) {
                lemma_within_trans(path, q, t.mp(c));
            }
        }
    }
}

/// Looking up, from the same node, the mount point of the mount that covers a
/// path gives that same mount again (for a tree whose mount points are nested
/// as the kernel keeps them).
pub proof fn lemma_covering_idempotent_from_start(t: MountTree, i: int, path: Seq<u8>)
    requires
        t.wf(),
        nested_points(t),
        t.reached(i),
        covering(t, i, path) is Some,
    ensures
        covering(t, i, t.mp(covering(t, i, path)->Some_0)) == covering(t, i, path),
{
    let r = deepest(t, i, path, 0);
    lemma_deepest_again(t, i, path, 0);
    lemma_deepest_within(t, i, path, 0);
    lemma_deepest_reached(t, i, path, 0);
    lemma_deepest_desc(t, i, path, 0);
    lemma_anc_within(t, i, r);
}

} // verus!
