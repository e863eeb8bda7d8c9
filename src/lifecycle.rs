use vstd::prelude::*;
use crate::address::{Address, address_text, parse_index, parse_usize};
use crate::error::{Fault, TreeError};
use crate::layout::PositionLayout;
use crate::resolve::{Lookup, first_slash, find_slash, lemma_first_slash, segment_node};
use crate::text::{chars_of, slice_of, string_of};
use crate::tree::{BranchView, Hierarchy, child_at, created, first_free, is_node, register_target, registered, with_name, without_name, without_subtree, wf};

verus! {

/// The removable slot that the last segment of an address denotes in `p`,
/// or why it cannot be destroyed.
pub open spec fn removal_slot(p: BranchView, s: Seq<char>) -> Result<usize, Fault> {
    if s.len() < 2 {
        Err(Fault::MissingInformation(s))
    } else if s[1] == 'p' {
        Err(Fault::PermanentIndestructible)
    } else if s[1] == 'r' {
        match parse_index(s.subrange(2, s.len() as int)) {
            Some(k) => if child_at(p, Address::Removable(k as usize)) is Some {
                Ok(k as usize)
            } else {
                Err(Fault::RemovableMissing(k as usize))
            },
            None => Err(Fault::InvalidNumber(s)),
        }
    } else {
        Err(Fault::InvalidClass(s[1], s))
    }
}

/// The node and slot that a structural chain denotes for destruction: every
/// segment but the last is resolved, and the last names a removable slot.
pub open spec fn destroy_site(t: Seq<BranchView>, node: usize, s: Seq<char>) -> Result<(usize, usize), Fault>
    decreases s.len(),
{
    let j = first_slash(s);
    if 0 <= j < s.len() {
        match segment_node(t, node, s.subrange(0, j), Lookup::Strict) {
            Ok(c) => destroy_site(t, c, s.subrange(j + 1, s.len() as int)),
            Err(e) => Err(e),
        }
    } else {
        match removal_slot(t[node as int], s) {
            Ok(k) => Ok((node, k)),
            Err(e) => Err(e),
        }
    }
}

/// The tree after the removable child at `site` went with its subtree.
pub open spec fn after_destroy(t: Seq<BranchView>, site: (usize, usize)) -> Seq<BranchView> {
    without_subtree(t, site.0, site.1, child_at(t[site.0 as int], Address::Removable(site.1))->0)
}

/// The slot registered under `key`, if it holds a removable child; else why
/// the child cannot be destroyed by name.
pub open spec fn named_slot(p: BranchView, key: Seq<char>) -> Result<usize, Fault> {
    if !registered(p, key) {
        Err(Fault::NotRegistered(key))
    } else {
        match register_target(p, key) {
            Address::Permanent(_) => Err(Fault::PermanentIndestructible),
            Address::Removable(k) => if child_at(p, Address::Removable(k)) is Some {
                Ok(k)
            } else {
                Err(Fault::RemovableMissing(k))
            },
        }
    }
}

impl Hierarchy {
    fn removal_slot_exec(&self, node: usize, s: &Vec<char>) -> (r: Result<usize, TreeError>)
        requires
            wf(self@),
            node < self@.len(),
        ensures
            match r {
                Ok(k) => removal_slot(self@[node as int], s@) == Ok::<usize, Fault>(k),
                Err(e) => removal_slot(self@[node as int], s@) == Err::<usize, Fault>(e@),
            },
    {
        let whole = slice_of(s, 0, s.len());
        assert(whole@ =~= s@);
        if s.len() < 2 {
            return Err(TreeError::MissingInformation(whole));
        }
        let class = s[1];
        if class == 'p' {
            return Err(TreeError::PermanentIndestructible);
        }
        if class != 'r' {
            return Err(TreeError::InvalidClass(class, whole));
        }
        let digits = slice_of(s, 2, s.len());
        match parse_usize(&digits) {
            Some(k) => {
                if self.child_of(node, Address::Removable(k)).is_some() {
                    Ok(k)
                } else {
                    Err(TreeError::RemovableMissing(k))
                }
            },
            None => Err(TreeError::InvalidNumber(whole)),
        }
    }

    /// Creates a child of `node`. An empty `name` gives an anonymous
    /// permanent child, and its structural address is returned. Otherwise the
    /// child is removable, registered under `name`, and `name` is returned;
    /// a name already registered fails and changes nothing.
    pub fn create_named_child(&mut self, node: usize, name: &str, layout: PositionLayout) -> (r: Result<String, TreeError>)
        requires
            wf(old(self)@),
            is_node(old(self)@, node),
        ensures
            wf(final(self)@),
            final(self).spec_width() == old(self).spec_width(),
            final(self).spec_height() == old(self).spec_height(),
            ({
                let t = old(self)@;
                let a = Address::Permanent(t[node as int].permanent.len() as usize);
                let k = Address::Removable(first_free(t[node as int].removable) as usize);
                if name@.len() == 0 {
                    &&& r is Ok
                    &&& r->Ok_0@ == address_text(a)
                    &&& final(self)@ == created(t, node, a, name@, layout)
                    &&& final(self).payloads() == old(self).payloads().push(None)
                } else if registered(t[node as int], name@) {
                    &&& r is Err
                    &&& r->Err_0@ == Fault::KeyInUse(name@)
                    &&& final(self)@ == t
                    &&& final(self).payloads() == old(self).payloads()
                } else {
                    &&& r is Ok
                    &&& r->Ok_0@ == name@
                    &&& final(self)@ == with_name(created(t, node, k, name@, layout), node, name@, k)
                    &&& final(self).payloads() == old(self).payloads().push(None)
                }
            }),
    {
        let key = chars_of(name);
        if key.len() == 0 {
            let a = self.add_child(node, false, layout, key);
            return Ok(string_of(&a.text()));
        }
        if self.lookup(node, &key).is_some() {
            return Err(TreeError::KeyInUse(key));
        }
        let copy = slice_of(&key, 0, key.len());
        assert(copy@ =~= key@);
        let ghost before = self@;
        let a = self.add_child(node, true, layout, copy);
        assert(self@[node as int].register == before[node as int].register);
        self.register_name(node, key, a);
        Ok(string_of(&chars_of(name)))
    }

    /// Destroys the removable node at a structural chain below `node`, with
    /// its whole subtree. Permanent nodes cannot be destroyed. The register
    /// is left as it is.
    pub fn destroy(&mut self, node: usize, address: &str) -> (r: Result<(), TreeError>)
        requires
            wf(old(self)@),
            is_node(old(self)@, node),
        ensures
            wf(final(self)@),
            final(self).spec_width() == old(self).spec_width(),
            final(self).spec_height() == old(self).spec_height(),
            final(self).payloads() == old(self).payloads(),
            match destroy_site(old(self)@, node, address@) {
                Ok(site) => r is Ok && final(self)@ == after_destroy(old(self)@, site),
                Err(e) => r is Err && r->Err_0@ == e && final(self)@ == old(self)@,
            },
    {
        let s = chars_of(address);
        let mut cur = node;
        let mut start: usize = 0;
        assert(s@.subrange(0, s@.len() as int) =~= s@);
        loop
            invariant
                wf(self@),
                self@ == old(self)@,
                self.spec_width() == old(self).spec_width(),
                self.spec_height() == old(self).spec_height(),
                self.payloads() == old(self).payloads(),
                is_node(self@, cur),
                start <= s@.len(),
                s@ == address@,
                destroy_site(self@, node, s@) == destroy_site(
                    self@,
                    cur,
                    s@.subrange(start as int, s@.len() as int),
                ),
            decreases s@.len() - start,
        {
            let ghost rest = s@.subrange(start as int, s@.len() as int);
            let j = find_slash(&s, start);
            proof {
                lemma_first_slash(rest, j - start);
            }
            if j == s.len() {
                let seg = slice_of(&s, start, s.len());
                assert(seg@ =~= rest);
                match self.removal_slot_exec(cur, &seg) {
                    Ok(k) => {
                        self.detach(cur, k);
                        return Ok(());
                    },
                    Err(e) => {
                        return Err(e);
                    },
                }
            }
            let seg = slice_of(&s, start, j);
            assert(seg@ =~= rest.subrange(0, j - start));
            match self.resolve_segment_exec(cur, &seg, Lookup::Strict) {
                Ok(c) => {
                    assert(rest.subrange(j - start + 1, rest.len() as int) =~= s@.subrange(j + 1, s@.len() as int));
                    cur = c;
                    start = j + 1;
                },
                Err(e) => {
                    return Err(e);
                },
            }
        }
    }

    /// Destroys the child registered under `name` in `node`, with its whole
    /// subtree, and takes `name` out of the register. On failure nothing
    /// changes.
    pub fn destroy_by_name(&mut self, node: usize, name: &str) -> (r: Result<(), TreeError>)
        requires
            wf(old(self)@),
            is_node(old(self)@, node),
        ensures
            wf(final(self)@),
            final(self).spec_width() == old(self).spec_width(),
            final(self).spec_height() == old(self).spec_height(),
            final(self).payloads() == old(self).payloads(),
            match named_slot(old(self)@[node as int], name@) {
                Ok(k) => r is Ok && final(self)@ == without_name(after_destroy(old(self)@, (node, k)), node, name@),
                Err(e) => r is Err && r->Err_0@ == e && final(self)@ == old(self)@,
            },
    {
        let key = chars_of(name);
        match self.lookup(node, &key) {
            None => Err(TreeError::NotRegistered(key)),
            Some(Address::Permanent(_)) => Err(TreeError::PermanentIndestructible),
            Some(Address::Removable(k)) => {
                if self.child_of(node, Address::Removable(k)).is_none() {
                    return Err(TreeError::RemovableMissing(k));
                }
                let ghost before = self@;
                self.detach(node, k);
                assert(self@[node as int].register == before[node as int].register);
                self.unregister(node, &key);
                Ok(())
            },
        }
    }
}

} // verus!
