use vstd::prelude::*;
use crate::text::string_of;
use crate::tree::{children_ok, node_ok, is_node, BranchView, Hierarchy, ROOT, display_path, wf};

verus! {

/// The children of a node in walk order: permanent children in creation
/// order, then removable slots in ascending order (free slots as `None`).
pub open spec fn kids(b: BranchView) -> Seq<Option<usize>> {
    b.permanent.map_values(|c: usize| Some(c)) + b.removable
}

/// The display paths of the subtree of `id`, depth first, each node before
/// its children; a node with an empty path (the root) contributes none.
/// `fuel` bounds the depth of the walk; the number of nodes always suffices.
pub open spec fn paths_of(t: Seq<BranchView>, id: int, fuel: nat) -> Seq<Seq<char>>
    decreases fuel, 0nat,
{
    if fuel == 0 {
        Seq::empty()
    } else {
        let own = display_path(t[id]);
        let head = if own.len() == 0 {
            Seq::<Seq<char>>::empty()
        } else {
            seq![own]
        };
        head + paths_list(t, kids(t[id]), (fuel - 1) as nat)
    }
}

/// The display paths of the subtrees of `ids`, one after another.
pub open spec fn paths_list(t: Seq<BranchView>, ids: Seq<Option<usize>>, fuel: nat) -> Seq<Seq<char>>
    decreases fuel, ids.len(),
{
    if ids.len() == 0 {
        Seq::empty()
    } else {
        paths_list(t, ids.drop_last(), fuel) + match ids.last() {
            Some(c) => paths_of(t, c as int, fuel),
            None => Seq::empty(),
        }
    }
}

pub open spec fn texts(v: Seq<String>) -> Seq<Seq<char>> {
    v.map_values(|s: String| s@)
}

/// Every child in `ids` lies within the arena, at most `f` steps from its end.
pub open spec fn within_reach(t: Seq<BranchView>, ids: Seq<Option<usize>>, f: nat) -> bool {
    forall|i: int| 0 <= i < ids.len() && #[trigger] ids[i] is Some ==> ids[i]->0 < t.len() && t.len() - ids[i]->0 <= f
}

/// A walk from `id` with at least as many steps as there are arena slots
/// after `id` lists the whole subtree: more steps change nothing.
pub proof fn lemma_paths_fuel(t: Seq<BranchView>, id: int, f1: nat, f2: nat)
    requires
        wf(t),
        0 <= id < t.len(),
        t.len() - id <= f1,
        t.len() - id <= f2,
    ensures
        paths_of(t, id, f1) == paths_of(t, id, f2),
    decreases f1, 0nat,
{
    let ks = kids(t[id]);
    assert(children_ok(t, id));
    assert forall|i: int| 0 <= i < ks.len() && #[trigger] ks[i] is Some implies ks[i]->0 < t.len()
        && t.len() - ks[i]->0 <= (f1 - 1) as nat && t.len() - ks[i]->0 <= (f2 - 1) as nat by {
        let np = t[id].permanent.len();
        if i < np {
            assert(ks[i] == Some(t[id].permanent[i]));
            assert(node_ok(t, t[id].permanent[i] as int));
        } else {
            assert(ks[i] == t[id].removable[i - np]);
            assert(node_ok(t, ks[i]->0 as int));
        }
    }
    lemma_paths_list_fuel(t, ks, (f1 - 1) as nat, (f2 - 1) as nat);
}

proof fn lemma_paths_list_fuel(t: Seq<BranchView>, ids: Seq<Option<usize>>, f1: nat, f2: nat)
    requires
        wf(t),
        within_reach(t, ids, f1),
        within_reach(t, ids, f2),
    ensures
        paths_list(t, ids, f1) == paths_list(t, ids, f2),
    decreases f1, ids.len(),
{
    if ids.len() > 0 {
        let d = ids.drop_last();
        assert forall|i: int| 0 <= i < d.len() && #[trigger] d[i] is Some implies d[i]->0 < t.len()
            && t.len() - d[i]->0 <= f1 && t.len() - d[i]->0 <= f2 by {
            assert(d[i] == ids[i]);
        }
        lemma_paths_list_fuel(t, d, f1, f2);
        if ids.last() is Some {
            let c = ids.last()->0;
            assert(ids[ids.len() - 1] is Some);
            lemma_paths_fuel(t, c as int, f1, f2);
        }
    }
}

impl Hierarchy {
    fn collect_paths(&self, id: usize, fuel: usize, out: &mut Vec<String>)
        requires
            wf(self@),
            id < self@.len(),
        ensures
            texts(final(out)@) == texts(old(out)@) + paths_of(self@, id as int, fuel as nat),
        decreases fuel, 0nat,
    {
        if fuel == 0 {
            assert(texts(out@) =~= texts(old(out)@) + paths_of(self@, id as int, fuel as nat));
            return;
        }
        let b = self.node_ref(id);
        let own = b.path_chars();
        let ghost t = self@;
        let ghost ks = kids(t[id as int]);
        let ghost f = (fuel - 1) as nat;
        if own.len() > 0 {
            out.push(string_of(&own));
        }
        let ghost start = texts(out@);
        assert(start =~= texts(old(out)@) + (if display_path(t[id as int]).len() == 0 {
            Seq::<Seq<char>>::empty()
        } else {
            seq![display_path(t[id as int])]
        }));
        let np = self.permanent_count(id);
        let mut i: usize = 0;
        assert(ks.subrange(0, 0) =~= Seq::<Option<usize>>::empty());
        while i < np
            invariant
                wf(self@),
                t == self@,
                id < t.len(),
                ks == kids(t[id as int]),
                np == t[id as int].permanent.len(),
                f == fuel - 1,
                fuel > 0,
                0 <= i <= np,
                texts(out@) == start + paths_list(t, ks.subrange(0, i as int), f),
            decreases np - i,
        {
            let c = self.permanent_child(id, i);
            proof {
                crate::tree::lemma_child_below(t, id, i);
                assert(ks[i as int] == Some(c));
                assert(ks.subrange(0, i + 1).drop_last() =~= ks.subrange(0, i as int));
            }
            self.collect_paths(c, fuel - 1, out);
            assert(texts(out@) =~= start + paths_list(t, ks.subrange(0, i + 1), f));
            i = i + 1;
        }
        let nr = self.removable_count(id);
        let mut k: usize = 0;
        while k < nr
            invariant
                wf(self@),
                t == self@,
                id < t.len(),
                ks == kids(t[id as int]),
                np == t[id as int].permanent.len(),
                nr == t[id as int].removable.len(),
                ks.len() == np + nr,
                f == fuel - 1,
                fuel > 0,
                0 <= k <= nr,
                texts(out@) == start + paths_list(t, ks.subrange(0, np + k), f),
            decreases nr - k,
        {
            let slot = self.removable_child(id, k);
            proof {
                assert(ks[np + k] == slot);
                assert(ks.subrange(0, np + k + 1).drop_last() =~= ks.subrange(0, np + k));
            }
            match slot {
                Some(c) => {
                    proof {
                        crate::tree::lemma_slot_below(t, id, k);
                    }
                    self.collect_paths(c, fuel - 1, out);
                },
                None => {},
            }
            assert(texts(out@) =~= start + paths_list(t, ks.subrange(0, np + k + 1), f));
            k = k + 1;
        }
        assert(ks.subrange(0, ks.len() as int) =~= ks);
        assert(texts(out@) =~= texts(old(out)@) + paths_of(t, id as int, fuel as nat));
    }

    /// The display paths of every node of the tree, depth first, permanent
    /// children before removable ones at each level.
    pub fn get_all_paths(&self) -> (r: Vec<String>)
        requires
            wf(self@),
        ensures
            texts(r@) == paths_of(self@, ROOT as int, self@.len()),
            forall|f: nat| f >= self@.len() ==> #[trigger] paths_of(self@, ROOT as int, f) == texts(r@),
    {
        let mut out: Vec<String> = Vec::new();
        let n = self.node_count();
        self.collect_paths(ROOT, n, &mut out);
        assert(texts(out@) =~= paths_of(self@, ROOT as int, self@.len()));
        assert forall|f: nat| f >= self@.len() implies #[trigger] paths_of(self@, ROOT as int, f) == texts(out@) by {
            lemma_paths_fuel(self@, ROOT as int, f, self@.len());
        }
        out
    }

    /// The display paths of `node` and of every node below it, depth first.
    pub fn get_all_paths_from(&self, node: usize) -> (r: Vec<String>)
        requires
            wf(self@),
            is_node(self@, node),
        ensures
            texts(r@) == paths_of(self@, node as int, self@.len()),
    {
        let mut out: Vec<String> = Vec::new();
        let n = self.node_count();
        self.collect_paths(node, n, &mut out);
        assert(texts(out@) =~= paths_of(self@, node as int, self@.len()));
        out
    }
}

} // verus!
