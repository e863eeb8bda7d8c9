use vstd::prelude::*;
use crate::address::{Address, address_text, decimal, push_decimal};
use crate::paths::{kids, within_reach};
use crate::text::{append_chars, chars_of, string_of};
use crate::tree::{children_ok, node_ok, is_node, BranchView, Hierarchy, ROOT, child_at, lemma_child_below, lemma_slot_below, wf};

verus! {

/// One level of nesting in a tree dump.
pub open spec fn indent(level: nat) -> Seq<char>
    decreases level,
{
    if level == 0 {
        Seq::empty()
    } else {
        indent((level - 1) as nat) + "|    "@
    }
}

/// The start of the line that shows a child at nesting `level`.
pub open spec fn branch_line(level: nat) -> Seq<char> {
    "\n  "@ + indent(level) + "|-> "@
}

/// The register view of the subtree of `id`: each registered child that
/// still exists, in register order, on its own line and followed by its own.
pub open spec fn sketch_of(t: Seq<BranchView>, id: int, level: nat, fuel: nat) -> Seq<char>
    decreases fuel, 0nat,
{
    if fuel == 0 {
        Seq::empty()
    } else {
        sketch_entries(t, id, t[id].register, level, (fuel - 1) as nat)
    }
}

pub open spec fn sketch_entries(
    t: Seq<BranchView>,
    id: int,
    reg: Seq<(Seq<char>, Address)>,
    level: nat,
    fuel: nat,
) -> Seq<char>
    decreases fuel, reg.len(),
{
    if reg.len() == 0 {
        Seq::empty()
    } else {
        sketch_entries(t, id, reg.drop_last(), level, fuel) + match child_at(t[id], reg.last().1) {
            Some(c) => branch_line(level) + reg.last().0 + sketch_of(t, c as int, level + 1, fuel),
            None => Seq::empty(),
        }
    }
}

pub open spec fn bool_text(b: bool) -> Seq<char> {
    if b {
        "true"@
    } else {
        "false"@
    }
}

/// Name, depth, own and inherited visibility of a node.
pub open spec fn debug_header(b: BranchView) -> Seq<char> {
    " - ["@ + b.name + "] ["@ + decimal(b.depth) + "] | ("@ + bool_text(b.visible) + "/"@ + bool_text(
        b.parent_visible,
    ) + ")"@
}

/// Whether some register entry of `b` points at `a`.
pub open spec fn in_register(b: BranchView, a: Address) -> bool {
    exists|i: int| 0 <= i < b.register.len() && #[trigger] b.register[i].1 == a
}

/// The address of the `i`-th entry of `kids(b)`.
pub open spec fn kid_address(b: BranchView, i: int) -> Address {
    if i < b.permanent.len() {
        Address::Permanent(i as usize)
    } else {
        Address::Removable((i - b.permanent.len()) as usize)
    }
}

/// The full view of the subtree of `id`: its header, then its register
/// entries (dangling ones marked), then every child not shown through the
/// register, under its structural address.
pub open spec fn sketch_debug_of(t: Seq<BranchView>, id: int, level: nat, fuel: nat) -> Seq<char>
    decreases fuel, 0nat,
{
    if fuel == 0 {
        Seq::empty()
    } else {
        let f = (fuel - 1) as nat;
        debug_header(t[id]) + debug_entries(t, id, t[id].register, level, f) + debug_kids(
            t,
            id,
            kids(t[id]),
            level,
            f,
        )
    }
}

pub open spec fn debug_entries(
    t: Seq<BranchView>,
    id: int,
    reg: Seq<(Seq<char>, Address)>,
    level: nat,
    fuel: nat,
) -> Seq<char>
    decreases fuel, reg.len(),
{
    if reg.len() == 0 {
        Seq::empty()
    } else {
        let e = reg.last();
        debug_entries(t, id, reg.drop_last(), level, fuel) + match child_at(t[id], e.1) {
            Some(c) => branch_line(level) + e.0 + " ("@ + address_text(e.1) + ")"@ + sketch_debug_of(
                t,
                c as int,
                level + 1,
                fuel,
            ),
            None => branch_line(level) + e.0 + " #[! Dangling register pointer !]"@,
        }
    }
}

pub open spec fn debug_kids(t: Seq<BranchView>, id: int, ks: Seq<Option<usize>>, level: nat, fuel: nat) -> Seq<char>
    decreases fuel, ks.len(),
{
    if ks.len() == 0 {
        Seq::empty()
    } else {
        let a = kid_address(t[id], ks.len() - 1);
        debug_kids(t, id, ks.drop_last(), level, fuel) + match ks.last() {
            Some(c) => if in_register(t[id], a) {
                Seq::empty()
            } else {
                branch_line(level) + address_text(a) + sketch_debug_of(t, c as int, level + 1, fuel)
            },
            None => Seq::empty(),
        }
    }
}

proof fn lemma_child_after(t: Seq<BranchView>, id: int, a: Address)
    requires
        wf(t),
        0 <= id < t.len(),
        child_at(t[id], a) is Some,
    ensures
        id < child_at(t[id], a)->0 < t.len(),
{
    assert(children_ok(t, id));
    let c = child_at(t[id], a)->0;
    match a {
        Address::Permanent(i) => assert(t[id].permanent[i as int] == c),
        Address::Removable(k) => assert(t[id].removable[k as int] == Some(c)),
    }
    assert(node_ok(t, c as int));
}

/// A register walk from `id` with at least as many steps as there are arena
/// slots after `id` shows the whole subtree: more steps change nothing.
pub proof fn lemma_sketch_fuel(t: Seq<BranchView>, id: int, level: nat, f1: nat, f2: nat)
    requires
        wf(t),
        0 <= id < t.len(),
        t.len() - id <= f1,
        t.len() - id <= f2,
    ensures
        sketch_of(t, id, level, f1) == sketch_of(t, id, level, f2),
        sketch_debug_of(t, id, level, f1) == sketch_debug_of(t, id, level, f2),
    decreases f1, 0nat,
{
    let reg = t[id].register;
    lemma_entries_fuel(t, id, reg, level, (f1 - 1) as nat, (f2 - 1) as nat);
    let ks = kids(t[id]);
    assert(children_ok(t, id));
    assert forall|i: int| 0 <= i < ks.len() && #[trigger] ks[i] is Some implies ks[i]->0 < t.len()
        && t.len() - ks[i]->0 <= (f1 - 1) as nat && t.len() - ks[i]->0 <= (f2 - 1) as nat by {
        let np = t[id].permanent.len();
        if i < np {
            assert(ks[i] == Some(t[id].permanent[i]));
            assert(node_ok(t, t[id].permanent[i] as int));
        } else {
            assert(ks[i] == t[id].removable[i - np]);
            assert(node_ok(t, ks[i]->0 as int));
        }
    }
    lemma_kids_fuel(t, id, ks, level, (f1 - 1) as nat, (f2 - 1) as nat);
}

proof fn lemma_entries_fuel(
    t: Seq<BranchView>,
    id: int,
    reg: Seq<(Seq<char>, Address)>,
    level: nat,
    f1: nat,
    f2: nat,
)
    requires
        wf(t),
        0 <= id < t.len(),
        t.len() - id <= f1 + 1,
        t.len() - id <= f2 + 1,
    ensures
        sketch_entries(t, id, reg, level, f1) == sketch_entries(t, id, reg, level, f2),
        debug_entries(t, id, reg, level, f1) == debug_entries(t, id, reg, level, f2),
    decreases f1, reg.len(),
{
    if reg.len() > 0 {
        lemma_entries_fuel(t, id, reg.drop_last(), level, f1, f2);
        let a = reg.last().1;
        if child_at(t[id], a) is Some {
            lemma_child_after(t, id, a);
            lemma_sketch_fuel(t, child_at(t[id], a)->0 as int, level + 1, f1, f2);
        }
    }
}

proof fn lemma_kids_fuel(t: Seq<BranchView>, id: int, ks: Seq<Option<usize>>, level: nat, f1: nat, f2: nat)
    requires
        wf(t),
        0 <= id < t.len(),
        within_reach(t, ks, f1),
        within_reach(t, ks, f2),
    ensures
        debug_kids(t, id, ks, level, f1) == debug_kids(t, id, ks, level, f2),
    decreases f1, ks.len(),
{
    if ks.len() > 0 {
        let d = ks.drop_last();
        assert forall|i: int| 0 <= i < d.len() && #[trigger] d[i] is Some implies d[i]->0 < t.len()
            && t.len() - d[i]->0 <= f1 && t.len() - d[i]->0 <= f2 by {
            assert(d[i] == ks[i]);
        }
        lemma_kids_fuel(t, id, d, level, f1, f2);
        if ks.last() is Some {
            assert(ks[ks.len() - 1] is Some);
            lemma_sketch_fuel(t, ks.last()->0 as int, level + 1, f1, f2);
        }
    }
}

fn push_text(out: &mut Vec<char>, s: &str)
    ensures
        final(out)@ == old(out)@ + s@,
{
    append_chars(out, &chars_of(s));
}

fn push_branch_line(out: &mut Vec<char>, level: usize)
    ensures
        final(out)@ == old(out)@ + branch_line(level as nat),
{
    push_text(out, "\n  ");
    let ghost start = out@;
    let mut i: usize = 0;
    while i < level
        invariant
            0 <= i <= level,
            out@ == start + indent(i as nat),
        decreases level - i,
    {
        push_text(out, "|    ");
        i = i + 1;
        assert(out@ =~= start + indent(i as nat));
    }
    push_text(out, "|-> ");
    assert(final(out)@ =~= old(out)@ + branch_line(level as nat));
}

fn push_bool(out: &mut Vec<char>, b: bool)
    ensures
        final(out)@ == old(out)@ + bool_text(b),
{
    if b {
        push_text(out, "true");
    } else {
        push_text(out, "false");
    }
}

impl Hierarchy {
    fn in_register_exec(&self, id: usize, a: Address) -> (r: bool)
        requires
            id < self@.len(),
        ensures
            r == in_register(self@[id as int], a),
    {
        let reg = self.register_of(id);
        let mut j: usize = 0;
        while j < reg.len()
            invariant
                id < self@.len(),
                reg@.len() == self@[id as int].register.len(),
                forall|i: int| 0 <= i < reg@.len() ==> #[trigger] self@[id as int].register[i] == (reg@[i].0@, reg@[i].1),
                0 <= j <= reg@.len(),
                forall|i: int| 0 <= i < j ==> #[trigger] self@[id as int].register[i].1 != a,
            decreases reg.len() - j,
        {
            if reg[j].1 == a {
                assert(self@[id as int].register[j as int].1 == a);
                return true;
            }
            assert(self@[id as int].register[j as int].1 != a);
            j = j + 1;
        }
        false
    }

    fn sketch_into(&self, id: usize, level: usize, fuel: usize, out: &mut Vec<char>)
        requires
            wf(self@),
            id < self@.len(),
            level + fuel <= usize::MAX,
        ensures
            final(out)@ == old(out)@ + sketch_of(self@, id as int, level as nat, fuel as nat),
        decreases fuel, 0nat,
    {
        if fuel == 0 {
            assert(out@ =~= old(out)@ + sketch_of(self@, id as int, level as nat, fuel as nat));
            return;
        }
        let ghost t = self@;
        let ghost f = (fuel - 1) as nat;
        let reg = self.register_of(id);
        let ghost rv = t[id as int].register;
        let ghost start = out@;
        let mut j: usize = 0;
        assert(rv.subrange(0, 0) =~= Seq::<(Seq<char>, Address)>::empty());
        while j < reg.len()
            invariant
                wf(self@),
                t == self@,
                id < t.len(),
                level + fuel <= usize::MAX,
                fuel > 0,
                f == fuel - 1,
                rv == t[id as int].register,
                reg@.len() == rv.len(),
                forall|i: int| 0 <= i < reg@.len() ==> #[trigger] rv[i] == (reg@[i].0@, reg@[i].1),
                0 <= j <= reg@.len(),
                out@ == start + sketch_entries(t, id as int, rv.subrange(0, j as int), level as nat, f),
            decreases reg.len() - j,
        {
            let a = reg[j].1;
            proof {
                assert(rv[j as int] == (reg@[j as int].0@, reg@[j as int].1));
                assert(rv.subrange(0, j + 1).drop_last() =~= rv.subrange(0, j as int));
                assert(rv.subrange(0, j + 1).last() == rv[j as int]);
            }
            match self.child_of(id, a) {
                Some(c) => {
                    proof {
                        match a {
                            Address::Permanent(i) => lemma_child_below(t, id, i),
                            Address::Removable(k) => lemma_slot_below(t, id, k),
                        }
                    }
                    push_branch_line(out, level);
                    append_chars(out, &reg[j].0);
                    self.sketch_into(c, level + 1, fuel - 1, out);
                },
                None => {},
            }
            assert(out@ =~= start + sketch_entries(t, id as int, rv.subrange(0, j + 1), level as nat, f));
            j = j + 1;
        }
        assert(rv.subrange(0, rv.len() as int) =~= rv);
    }

    #[verifier::rlimit(40)]
    fn sketch_debug_into(&self, id: usize, level: usize, fuel: usize, out: &mut Vec<char>)
        requires
            wf(self@),
            id < self@.len(),
            level + fuel <= usize::MAX,
        ensures
            final(out)@ == old(out)@ + sketch_debug_of(self@, id as int, level as nat, fuel as nat),
        decreases fuel, 0nat,
    {
        if fuel == 0 {
            assert(out@ =~= old(out)@ + sketch_debug_of(self@, id as int, level as nat, fuel as nat));
            return;
        }
        let ghost t = self@;
        let ghost f = (fuel - 1) as nat;
        let b = self.node_ref(id);
        push_text(out, " - [");
        append_chars(out, &b.name_chars());
        push_text(out, "] [");
        push_decimal(b.depth_exec(), out);
        push_text(out, "] | (");
        push_bool(out, b.get_visibility());
        push_text(out, "/");
        push_bool(out, b.parent_visibility());
        push_text(out, ")");
        assert(out@ =~= old(out)@ + debug_header(t[id as int]));
        let ghost head = out@;
        let reg = self.register_of(id);
        let ghost rv = t[id as int].register;
        let mut j: usize = 0;
        assert(rv.subrange(0, 0) =~= Seq::<(Seq<char>, Address)>::empty());
        while j < reg.len()
            invariant
                wf(self@),
                t == self@,
                id < t.len(),
                level + fuel <= usize::MAX,
                fuel > 0,
                f == fuel - 1,
                rv == t[id as int].register,
                reg@.len() == rv.len(),
                forall|i: int| 0 <= i < reg@.len() ==> #[trigger] rv[i] == (reg@[i].0@, reg@[i].1),
                0 <= j <= reg@.len(),
                out@ == head + debug_entries(t, id as int, rv.subrange(0, j as int), level as nat, f),
            decreases reg.len() - j,
        {
            let a = reg[j].1;
            proof {
                assert(rv[j as int] == (reg@[j as int].0@, reg@[j as int].1));
                assert(rv.subrange(0, j + 1).drop_last() =~= rv.subrange(0, j as int));
                assert(rv.subrange(0, j + 1).last() == rv[j as int]);
            }
            push_branch_line(out, level);
            append_chars(out, &reg[j].0);
            match self.child_of(id, a) {
                Some(c) => {
                    proof {
                        match a {
                            Address::Permanent(i) => lemma_child_below(t, id, i),
                            Address::Removable(k) => lemma_slot_below(t, id, k),
                        }
                    }
                    push_text(out, " (");
                    append_chars(out, &a.text());
                    push_text(out, ")");
                    self.sketch_debug_into(c, level + 1, fuel - 1, out);
                },
                None => {
                    push_text(out, " #[! Dangling register pointer !]");
                },
            }
            assert(out@ =~= head + debug_entries(t, id as int, rv.subrange(0, j + 1), level as nat, f));
            j = j + 1;
        }
        assert(rv.subrange(0, rv.len() as int) =~= rv);
        let ghost mid = out@;
        let ghost ks = kids(t[id as int]);
        let np = self.permanent_count(id);
        let mut i: usize = 0;
        assert(ks.subrange(0, 0) =~= Seq::<Option<usize>>::empty());
        while i < np
            invariant
                wf(self@),
                t == self@,
                id < t.len(),
                level + fuel <= usize::MAX,
                fuel > 0,
                f == fuel - 1,
                ks == kids(t[id as int]),
                np == t[id as int].permanent.len(),
                0 <= i <= np,
                out@ == mid + debug_kids(t, id as int, ks.subrange(0, i as int), level as nat, f),
            decreases np - i,
        {
            let c = self.permanent_child(id, i);
            let a = Address::Permanent(i);
            proof {
                lemma_child_below(t, id, i);
                assert(ks[i as int] == Some(c));
                assert(ks.subrange(0, i + 1).drop_last() =~= ks.subrange(0, i as int));
                assert(kid_address(t[id as int], i as int) == a);
            }
            if !self.in_register_exec(id, a) {
                push_branch_line(out, level);
                append_chars(out, &a.text());
                self.sketch_debug_into(c, level + 1, fuel - 1, out);
            }
            assert(out@ =~= mid + debug_kids(t, id as int, ks.subrange(0, i + 1), level as nat, f));
            i = i + 1;
        }
        let nr = self.removable_count(id);
        let mut k: usize = 0;
        while k < nr
            invariant
                wf(self@),
                t == self@,
                id < t.len(),
                level + fuel <= usize::MAX,
                fuel > 0,
                f == fuel - 1,
                ks == kids(t[id as int]),
                np == t[id as int].permanent.len(),
                nr == t[id as int].removable.len(),
                ks.len() == np + nr,
                0 <= k <= nr,
                out@ == mid + debug_kids(t, id as int, ks.subrange(0, np + k), level as nat, f),
            decreases nr - k,
        {
            let slot = self.removable_child(id, k);
            let a = Address::Removable(k);
            proof {
                assert(ks[np + k] == slot);
                assert(ks.subrange(0, np + k + 1).drop_last() =~= ks.subrange(0, np + k));
                assert(kid_address(t[id as int], np + k) == a);
            }
            match slot {
                Some(c) => {
                    proof {
                        lemma_slot_below(t, id, k);
                    }
                    if !self.in_register_exec(id, a) {
                        push_branch_line(out, level);
                        append_chars(out, &a.text());
                        self.sketch_debug_into(c, level + 1, fuel - 1, out);
                    }
                },
                None => {},
            }
            assert(out@ =~= mid + debug_kids(t, id as int, ks.subrange(0, np + k + 1), level as nat, f));
            k = k + 1;
        }
        assert(ks.subrange(0, ks.len() as int) =~= ks);
        assert(out@ =~= old(out)@ + sketch_debug_of(t, id as int, level as nat, fuel as nat));
    }

    /// The register view of the whole tree, under a root label.
    pub fn get_map(&self) -> (r: String)
        requires
            wf(self@),
        ensures
            r@ == "#ROOT"@ + sketch_of(self@, ROOT as int, 0, self@.len()),
            forall|f: nat| f >= self@.len() ==> #[trigger] sketch_of(self@, ROOT as int, 0, f) == sketch_of(
                self@,
                ROOT as int,
                0,
                self@.len(),
            ),
    {
        proof {
            assert forall|f: nat| f >= self@.len() implies #[trigger] sketch_of(self@, ROOT as int, 0, f) == sketch_of(
                self@,
                ROOT as int,
                0,
                self@.len(),
            ) by {
                lemma_sketch_fuel(self@, ROOT as int, 0, f, self@.len());
            }
        }
        let mut out: Vec<char> = Vec::new();
        push_text(&mut out, "#ROOT");
        self.sketch_into(ROOT, 0, self.node_count(), &mut out);
        string_of(&out)
    }

    /// The full view of the whole tree, under a root label.
    pub fn get_map_debug(&self) -> (r: String)
        requires
            wf(self@),
        ensures
            r@ == "#ROOT"@ + sketch_debug_of(self@, ROOT as int, 0, self@.len()),
            forall|f: nat| f >= self@.len() ==> #[trigger] sketch_debug_of(self@, ROOT as int, 0, f) == sketch_debug_of(
                self@,
                ROOT as int,
                0,
                self@.len(),
            ),
    {
        proof {
            assert forall|f: nat| f >= self@.len() implies #[trigger] sketch_debug_of(self@, ROOT as int, 0, f) == sketch_debug_of(
                self@,
                ROOT as int,
                0,
                self@.len(),
            ) by {
                lemma_sketch_fuel(self@, ROOT as int, 0, f, self@.len());
            }
        }
        let mut out: Vec<char> = Vec::new();
        push_text(&mut out, "#ROOT");
        self.sketch_debug_into(ROOT, 0, self.node_count(), &mut out);
        string_of(&out)
    }

    /// The register view of the subtree of `node`, under its name.
    pub fn get_map_from(&self, node: usize) -> (r: String)
        requires
            wf(self@),
            is_node(self@, node),
        ensures
            r@ == self@[node as int].name + sketch_of(self@, node as int, 0, self@.len()),
    {
        let mut out = self.node_ref(node).name_chars();
        self.sketch_into(node, 0, self.node_count(), &mut out);
        string_of(&out)
    }

    /// The full view of the subtree of `node`, under its name.
    pub fn get_map_debug_from(&self, node: usize) -> (r: String)
        requires
            wf(self@),
            is_node(self@, node),
        ensures
            r@ == self@[node as int].name + sketch_debug_of(self@, node as int, 0, self@.len()),
    {
        let mut out = self.node_ref(node).name_chars();
        self.sketch_debug_into(node, 0, self.node_count(), &mut out);
        string_of(&out)
    }
}

} // verus!
