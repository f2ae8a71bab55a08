use vstd::prelude::*;

verus! {

/// One routing rule: requests whose path starts with `prefix` go to the
/// cluster `cluster_id`.
pub struct RouteEntry {
    pub prefix: String,
    pub cluster_id: usize,
}

/// The routing table: prefix rules in a fixed order, that of insertion.
/// Resolution scans the rules in this order and takes the first that matches.
pub struct RoutingTable {
    entries: Vec<RouteEntry>,
}

/// Whether the rule at index `i` of table `t` matches path `p`.
pub open spec fn matches_entry(t: Seq<(Seq<char>, usize)>, p: Seq<char>, i: int) -> bool {
    0 <= i < t.len() && t[i].0.is_prefix_of(p)
}

/// Whether rule `i` is the first rule of `t`, in table order, that matches `p`.
pub open spec fn is_first_match(t: Seq<(Seq<char>, usize)>, p: Seq<char>, i: int) -> bool {
    matches_entry(t, p, i) && forall|j: int| 0 <= j < i ==> !matches_entry(t, p, j)
}

/// The index of the first rule of `t` that matches `p`, if any rule does.
pub open spec fn first_match(t: Seq<(Seq<char>, usize)>, p: Seq<char>) -> Option<int> {
    if exists|i: int| is_first_match(t, p, i) {
        Some(choose|i: int| is_first_match(t, p, i))
    } else {
        None
    }
}

/// At most one rule is the first to match.
pub proof fn lemma_first_match_unique(t: Seq<(Seq<char>, usize)>, p: Seq<char>, i: int, k: int)
    requires
        is_first_match(t, p, i),
        is_first_match(t, p, k),
    ensures
        i == k,
{
    if i < k {
        assert(!matches_entry(t, p, i));
    } else if k < i {
        assert(!matches_entry(t, p, k));
    }
}

/// The first matching rule is the one that `first_match` names.
pub proof fn lemma_first_match_is(t: Seq<(Seq<char>, usize)>, p: Seq<char>, i: int)
    requires
        is_first_match(t, p, i),
    ensures
        first_match(t, p) == Some(i),
{
    let k = choose|k: int| is_first_match(t, p, k);
    lemma_first_match_unique(t, p, i, k);
}

/// Checks whether `p` is a prefix of `s`, character by character.
fn starts_with(s: &str, p: &str) -> (r: bool)
    ensures
        r == p@.is_prefix_of(s@),
{
    let plen = p.unicode_len();
    let slen = s.unicode_len();
    if plen > slen {
        return false;
    }
    let mut i: usize = 0;
    while i < plen
        invariant
            plen == p@.len(),
            slen == s@.len(),
            plen <= slen,
            i <= plen,
            forall|k: int| 0 <= k < i ==> p@[k] == s@[k],
        decreases plen - i,
    {
        if p.get_char(i) != s.get_char(i) {
            return false;
        }
        i = i + 1;
    }
    assert(p@ =~= s@.subrange(0, p@.len() as int));
    true
}

impl View for RoutingTable {
    type V = Seq<(Seq<char>, usize)>;

    /// The rules, in order, as (prefix, cluster) pairs.
    closed spec fn view(&self) -> Seq<(Seq<char>, usize)> {
        self.entries@.map_values(|e: RouteEntry| (e.prefix@, e.cluster_id))
    }
}

impl RoutingTable {
    /// Every prefix is non-empty, and no prefix occurs twice.
    pub open spec fn wf(&self) -> bool {
        &&& forall|i: int| 0 <= i < self@.len() ==> #[trigger] self@[i].0.len() > 0
        &&& forall|i: int, j: int|
            0 <= i < self@.len() && 0 <= j < self@.len() && i != j ==> #[trigger] self@[i].0
                != #[trigger] self@[j].0
    }

    /// Whether two different rules overlap: one prefix is a prefix of the
    /// other, so that some paths match both and the order decides.
    pub open spec fn ambiguous(&self) -> bool {
        exists|i: int, j: int|
            0 <= i < self@.len() && 0 <= j < self@.len() && i != j
                && #[trigger] self@[i].0.is_prefix_of(#[trigger] self@[j].0)
    }

    /// An empty table.
    pub fn new() -> (r: RoutingTable)
        ensures
            r@ == Seq::<(Seq<char>, usize)>::empty(),
            r.wf(),
    {
        let r = RoutingTable { entries: Vec::new() };
        assert(r@ =~= Seq::<(Seq<char>, usize)>::empty());
        r
    }

    /// Adds the rule `prefix -> cluster_id` at the end of the table. Where a
    /// rule with the same prefix is already present, its cluster is replaced in
    /// place instead, and the old cluster is returned.
    pub fn insert(&mut self, prefix: String, cluster_id: usize) -> (r: Option<usize>)
        requires
            old(self).wf(),
            prefix@.len() > 0,
        ensures
            final(self).wf(),
            forall|i: int|
                0 <= i < old(self)@.len() && old(self)@[i].0 == prefix@ ==> r == Some(
                    old(self)@[i].1,
                ) && final(self)@ == old(self)@.update(i, (prefix@, cluster_id)),
            (forall|i: int| 0 <= i < old(self)@.len() ==> old(self)@[i].0 != prefix@) ==> r
                is None && final(self)@ == old(self)@.push((prefix@, cluster_id)),
    {
        let n = self.entries.len();
        let mut i: usize = 0;
        while i < n
            invariant
                n == self@.len(),
                i <= n,
                *self == *old(self),
                old(self).wf(),
                forall|k: int| 0 <= k < i ==> self@[k].0 != prefix@,
            decreases n - i,
        {
            if self.entries[i].prefix == prefix {
                let old_id = self.entries[i].cluster_id;
                let ghost before = self@;
                assert(before[i as int].0 == prefix@);
                self.entries.set(i, RouteEntry { prefix, cluster_id });
                assert(self@ =~= before.update(i as int, (prefix@, cluster_id)));
                assert(forall|k: int| 0 <= k < before.len() ==> #[trigger] self@[k].0 == before[k].0);
                assert forall|k: int| 0 <= k < before.len() && before[k].0 == prefix@ implies k
                    == i by {
                    if k != i {
                        assert(old(self)@[k].0 != old(self)@[i as int].0);
                    }
                }
                return Some(old_id);
            }
            i = i + 1;
        }
        let ghost before = self@;
        self.entries.push(RouteEntry { prefix, cluster_id });
        assert(self@ =~= before.push((prefix@, cluster_id)));
        assert(forall|k: int| 0 <= k < before.len() ==> #[trigger] self@[k] == before[k]);
        None
    }

    /// The index of the first rule, in table order, whose prefix is a prefix
    /// of `path`; `None` where no rule matches.
    pub fn find_first_match(&self, path: &str) -> (r: Option<usize>)
        ensures
            match r {
                Some(i) => is_first_match(self@, path@, i as int) && first_match(self@, path@)
                    == Some(i as int),
                None => (forall|j: int| 0 <= j < self@.len() ==> !matches_entry(self@, path@, j))
                    && first_match(self@, path@) is None,
            },
    {
        let n = self.entries.len();
        let mut i: usize = 0;
        while i < n
            invariant
                n == self@.len(),
                i <= n,
                forall|j: int| 0 <= j < i ==> !matches_entry(self@, path@, j),
            decreases n - i,
        {
            if starts_with(path, self.entries[i].prefix.as_str()) {
                proof {
                    lemma_first_match_is(self@, path@, i as int);
                }
                return Some(i);
            }
            i = i + 1;
        }
        None
    }

    /// Whether two different rules overlap, so that the order of the table
    /// decides between them for some paths.
    pub fn is_ambiguous(&self) -> (r: bool)
        ensures
            r == self.ambiguous(),
    {
        let n = self.entries.len();
        let mut i: usize = 0;
        while i < n
            invariant
                n == self@.len(),
                i <= n,
                forall|a: int, b: int|
                    0 <= a < i && 0 <= b < n && a != b ==> !#[trigger] self@[a].0.is_prefix_of(
                        #[trigger] self@[b].0,
                    ),
            decreases n - i,
        {
            let mut j: usize = 0;
            while j < n
                invariant
                    n == self@.len(),
                    i < n,
                    j <= n,
                    forall|a: int, b: int|
                        0 <= a < i && 0 <= b < n && a != b ==> !#[trigger] self@[a].0.is_prefix_of(
                            #[trigger] self@[b].0,
                        ),
                    forall|b: int|
                        0 <= b < j && i != b ==> !#[trigger] self@[i as int].0.is_prefix_of(
                            self@[b].0,
                        ),
                decreases n - j,
            {
                if i != j && starts_with(
                    self.entries[j].prefix.as_str(),
                    self.entries[i].prefix.as_str(),
                ) {
                    assert(self@[i as int].0.is_prefix_of(self@[j as int].0));
                    return true;
                }
                j = j + 1;
            }
            i = i + 1;
        }
        false
    }

    /// The number of rules.
    pub fn len(&self) -> (r: usize)
        ensures
            r == self@.len(),
    {
        self.entries.len()
    }

    /// The prefix and cluster of the rule at index `i`.
    pub fn entry(&self, i: usize) -> (r: (&str, usize))
        requires
            i < self@.len(),
        ensures
            r.0@ == self@[i as int].0,
            r.1 == self@[i as int].1,
    {
        let e = &self.entries[i];
        (e.prefix.as_str(), e.cluster_id)
    }
}

} // verus!
