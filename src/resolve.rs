use vstd::prelude::*;
use crate::address::{Address, address_text, parse_index, parse_usize};
use crate::error::{Fault, TreeError};
use crate::text::{append_chars, chars_of, slice_of, string_of};
use crate::tree::{
    BranchView, Hierarchy, child_at, children_ok, is_node, node_ok, register_target, registered,
    wf,
};

verus! {

/// How a single segment of an address is read.
#[derive(Clone, Copy, Debug, PartialEq, Eq, Structural)]
pub enum Lookup {
    /// Only a structural segment, `#p<index>` or `#r<slot>`.
    Strict,
    /// Only a name in the register of the node.
    Named,
    /// A structural segment if it starts with `#`, else a registered name.
    Either,
}

/// Reads one structural segment: the class letter is the second character,
/// the index follows it.
pub open spec fn parse_segment(s: Seq<char>) -> Result<Address, Fault> {
    if s.len() < 2 {
        Err(Fault::MissingInformation(s))
    } else if s[1] == 'p' || s[1] == 'r' {
        match parse_index(s.subrange(2, s.len() as int)) {
            Some(n) => Ok(
                if s[1] == 'p' {
                    Address::Permanent(n as usize)
                } else {
                    Address::Removable(n as usize)
                },
            ),
            None => Err(Fault::InvalidNumber(s)),
        }
    } else {
        Err(Fault::InvalidClass(s[1], s))
    }
}

/// The child at `a` in `p`, or the error that says it is not there.
pub open spec fn step(p: BranchView, a: Address) -> Result<usize, Fault> {
    match child_at(p, a) {
        Some(c) => Ok(c),
        None => Err(
            match a {
                Address::Permanent(i) => Fault::PermanentMissing(i),
                Address::Removable(k) => Fault::RemovableMissing(k),
            },
        ),
    }
}

pub open spec fn is_structural(s: Seq<char>) -> bool {
    s.len() > 0 && s[0] == '#'
}

/// The register lookup of `s` in `p`.
pub open spec fn named_address(p: BranchView, s: Seq<char>) -> Result<Address, Fault> {
    if registered(p, s) {
        Ok(register_target(p, s))
    } else {
        Err(Fault::UnknownKey(s))
    }
}

/// The address that one segment denotes in `p`.
pub open spec fn segment_address(p: BranchView, s: Seq<char>, mode: Lookup) -> Result<Address, Fault> {
    match mode {
        Lookup::Strict => parse_segment(s),
        Lookup::Named => named_address(p, s),
        Lookup::Either => if s.len() == 0 {
            Err(Fault::NoKey)
        } else if is_structural(s) {
            parse_segment(s)
        } else {
            named_address(p, s)
        },
    }
}

/// The node that one segment reaches from `node`.
pub open spec fn segment_node(t: Seq<BranchView>, node: usize, s: Seq<char>, mode: Lookup) -> Result<usize, Fault> {
    match segment_address(t[node as int], s, mode) {
        Ok(a) => step(t[node as int], a),
        Err(e) => Err(e),
    }
}

/// The text that one segment translates to in `p`: a name becomes the
/// address it is registered with, and a structural segment passes unchanged
/// where `mode` lets it.
pub open spec fn segment_text(p: BranchView, s: Seq<char>, mode: Lookup) -> Result<Seq<char>, Fault> {
    if mode == Lookup::Either && s.len() == 0 {
        Err(Fault::NoKey)
    } else if mode == Lookup::Either && is_structural(s) {
        Ok(s)
    } else {
        match named_address(p, s) {
            Ok(a) => Ok(address_text(a)),
            Err(e) => Err(e),
        }
    }
}

/// `j` is the position of the first `/` in `s`, or its length if it has none.
pub open spec fn is_first_slash(s: Seq<char>, j: int) -> bool {
    &&& 0 <= j <= s.len()
    &&& j < s.len() ==> s[j] == '/'
    &&& forall|i: int| 0 <= i < j ==> #[trigger] s[i] != '/'
}

pub open spec fn first_slash(s: Seq<char>) -> int {
    choose|j: int| is_first_slash(s, j)
}

/// The node that a chain of segments, split at each `/`, reaches from
/// `node`; the first segment that fails gives the error.
pub open spec fn chain_node(t: Seq<BranchView>, node: usize, s: Seq<char>, mode: Lookup) -> Result<usize, Fault>
    decreases s.len(),
{
    let j = first_slash(s);
    if 0 <= j < s.len() {
        match segment_node(t, node, s.subrange(0, j), mode) {
            Ok(c) => chain_node(t, c, s.subrange(j + 1, s.len() as int), mode),
            Err(e) => Err(e),
        }
    } else {
        segment_node(t, node, s, mode)
    }
}

/// The structural text of a chain: each segment translated where the
/// previous one led, joined by `/`.
pub open spec fn chain_text(t: Seq<BranchView>, node: usize, s: Seq<char>, mode: Lookup) -> Result<Seq<char>, Fault>
    decreases s.len(),
{
    let j = first_slash(s);
    if 0 <= j < s.len() {
        let head = s.subrange(0, j);
        match segment_text(t[node as int], head, mode) {
            Ok(h) => match segment_node(t, node, head, mode) {
                Ok(c) => match chain_text(t, c, s.subrange(j + 1, s.len() as int), mode) {
                    Ok(rest) => Ok(h + seq!['/'] + rest),
                    Err(e) => Err(e),
                },
                Err(e) => Err(e),
            },
            Err(e) => Err(e),
        }
    } else {
        segment_text(t[node as int], s, mode)
    }
}

pub open spec fn agrees<T>(r: Result<T, TreeError>, s: Result<T, Fault>) -> bool {
    match r {
        Ok(v) => s == Ok::<T, Fault>(v),
        Err(e) => s == Err::<T, Fault>(e@),
    }
}

pub open spec fn agrees_text(r: Result<Vec<char>, TreeError>, s: Result<Seq<char>, Fault>) -> bool {
    match r {
        Ok(v) => s == Ok::<Seq<char>, Fault>(v@),
        Err(e) => s == Err::<Seq<char>, Fault>(e@),
    }
}

pub open spec fn agrees_string(r: Result<String, TreeError>, s: Result<Seq<char>, Fault>) -> bool {
    match r {
        Ok(v) => s == Ok::<Seq<char>, Fault>(v@),
        Err(e) => s == Err::<Seq<char>, Fault>(e@),
    }
}

/// A child of a node of the tree is a node of the tree.
pub proof fn lemma_child_is_node(t: Seq<BranchView>, p: usize, a: Address)
    requires
        wf(t),
        is_node(t, p),
        child_at(t[p as int], a) is Some,
    ensures
        is_node(t, child_at(t[p as int], a)->0),
        child_at(t[p as int], a)->0 > p,
{
    assert(children_ok(t, p as int));
    let c = child_at(t[p as int], a)->0;
    match a {
        Address::Permanent(i) => {
            assert(t[p as int].permanent[i as int] == c);
        },
        Address::Removable(k) => {
            assert(t[p as int].removable[k as int] == Some(c));
        },
    }
    assert(node_ok(t, c as int));
}

pub(crate) proof fn lemma_first_slash(s: Seq<char>, j: int)
    requires
        is_first_slash(s, j),
    ensures
        first_slash(s) == j,
{
    let k = first_slash(s);
    assert(is_first_slash(s, k));
    if k < j {
        assert(s[k] != '/');
    } else if j < k {
        assert(s[j] != '/');
    }
}

pub(crate) fn find_slash(s: &Vec<char>, start: usize) -> (r: usize)
    requires
        start <= s@.len(),
    ensures
        start <= r <= s@.len(),
        is_first_slash(s@.subrange(start as int, s@.len() as int), r - start),
{
    let ghost rest = s@.subrange(start as int, s@.len() as int);
    let mut j: usize = start;
    while j < s.len()
        invariant
            start <= j <= s@.len(),
            rest == s@.subrange(start as int, s@.len() as int),
            forall|i: int| 0 <= i < j - start ==> #[trigger] rest[i] != '/',
        decreases s.len() - j,
    {
        if s[j] == '/' {
            assert(rest[j - start] == s@[j as int]);
            return j;
        }
        assert(rest[j - start] == s@[j as int]);
        j = j + 1;
    }
    j
}

/// Reads one structural segment.
pub fn parse_segment_exec(s: &Vec<char>) -> (r: Result<Address, TreeError>)
    ensures
        agrees(r, parse_segment(s@)),
{
    let whole = slice_of(s, 0, s.len());
    assert(whole@ =~= s@);
    if s.len() < 2 {
        return Err(TreeError::MissingInformation(whole));
    }
    let class = s[1];
    if class != 'p' && class != 'r' {
        return Err(TreeError::InvalidClass(class, whole));
    }
    let digits = slice_of(s, 2, s.len());
    match parse_usize(&digits) {
        Some(n) => {
            if class == 'p' {
                Ok(Address::Permanent(n))
            } else {
                Ok(Address::Removable(n))
            }
        },
        None => Err(TreeError::InvalidNumber(whole)),
    }
}

impl Hierarchy {
    /// The address registered under `key` in `node`.
    pub(crate) fn lookup(&self, node: usize, key: &Vec<char>) -> (r: Option<Address>)
        requires
            wf(self@),
            node < self@.len(),
        ensures
            r is Some == registered(self@[node as int], key@),
            r is Some ==> r->0 == register_target(self@[node as int], key@),
    {
        let reg = self.register_of(node);
        let ghost b = self@[node as int];
        assert(children_ok(self@, node as int));
        let mut i: usize = 0;
        while i < reg.len()
            invariant
                b == self@[node as int],
                children_ok(self@, node as int),
                reg@.len() == b.register.len(),
                forall|j: int| 0 <= j < reg@.len() ==> #[trigger] b.register[j] == (reg@[j].0@, reg@[j].1),
                0 <= i <= reg@.len(),
                forall|j: int| 0 <= j < i ==> #[trigger] b.register[j].0 != key@,
            decreases reg.len() - i,
        {
            if crate::text::same_chars(&reg[i].0, key) {
                proof {
                    assert(b.register[i as int].0 == key@);
                    let c = choose|j: int| 0 <= j < b.register.len() && #[trigger] b.register[j].0 == key@;
                    assert(b.register[c].0 == b.register[i as int].0);
                }
                return Some(reg[i].1);
            }
            assert(b.register[i as int].0 != key@);
            i = i + 1;
        }
        None
    }

    pub(crate) fn step_exec(&self, node: usize, a: Address) -> (r: Result<usize, TreeError>)
        requires
            wf(self@),
            is_node(self@, node),
        ensures
            agrees(r, step(self@[node as int], a)),
            r is Ok ==> is_node(self@, r->Ok_0),
    {
        match self.child_of(node, a) {
            Some(c) => {
                proof {
                    lemma_child_is_node(self@, node, a);
                }
                Ok(c)
            },
            None => match a {
                Address::Permanent(i) => Err(TreeError::PermanentMissing(i)),
                Address::Removable(k) => Err(TreeError::RemovableMissing(k)),
            },
        }
    }

    fn segment_address_exec(&self, node: usize, s: &Vec<char>, mode: Lookup) -> (r: Result<Address, TreeError>)
        requires
            wf(self@),
            node < self@.len(),
        ensures
            agrees(r, segment_address(self@[node as int], s@, mode)),
    {
        let named = match mode {
            Lookup::Strict => false,
            Lookup::Named => true,
            Lookup::Either => {
                if s.len() == 0 {
                    return Err(TreeError::NoKey);
                }
                s[0] != '#'
            },
        };
        if named {
            match self.lookup(node, s) {
                Some(a) => Ok(a),
                None => {
                    let whole = slice_of(s, 0, s.len());
                    assert(whole@ =~= s@);
                    Err(TreeError::UnknownKey(whole))
                },
            }
        } else {
            parse_segment_exec(s)
        }
    }

    pub(crate) fn resolve_segment_exec(&self, node: usize, s: &Vec<char>, mode: Lookup) -> (r: Result<usize, TreeError>)
        requires
            wf(self@),
            is_node(self@, node),
        ensures
            agrees(r, segment_node(self@, node, s@, mode)),
            r is Ok ==> is_node(self@, r->Ok_0),
    {
        match self.segment_address_exec(node, s, mode) {
            Ok(a) => self.step_exec(node, a),
            Err(e) => Err(e),
        }
    }

    fn translate_segment_exec(&self, node: usize, s: &Vec<char>, mode: Lookup) -> (r: Result<Vec<char>, TreeError>)
        requires
            wf(self@),
            node < self@.len(),
        ensures
            agrees_text(r, segment_text(self@[node as int], s@, mode)),
    {
        if mode == Lookup::Either {
            if s.len() == 0 {
                return Err(TreeError::NoKey);
            }
            if s[0] == '#' {
                let whole = slice_of(s, 0, s.len());
                assert(whole@ =~= s@);
                return Ok(whole);
            }
        }
        match self.lookup(node, s) {
            Some(a) => Ok(a.text()),
            None => {
                let whole = slice_of(s, 0, s.len());
                assert(whole@ =~= s@);
                Err(TreeError::UnknownKey(whole))
            },
        }
    }

    fn resolve_chain_exec(&self, node: usize, s: &Vec<char>, mode: Lookup) -> (r: Result<usize, TreeError>)
        requires
            wf(self@),
            is_node(self@, node),
        ensures
            agrees(r, chain_node(self@, node, s@, mode)),
            r is Ok ==> is_node(self@, r->Ok_0),
    {
        let mut cur = node;
        let mut start: usize = 0;
        assert(s@.subrange(0, s@.len() as int) =~= s@);
        loop
            invariant
                wf(self@),
                is_node(self@, cur),
                start <= s@.len(),
                chain_node(self@, node, s@, mode) == chain_node(
                    self@,
                    cur,
                    s@.subrange(start as int, s@.len() as int),
                    mode,
                ),
            decreases s@.len() - start,
        {
            let ghost rest = s@.subrange(start as int, s@.len() as int);
            let j = find_slash(s, start);
            proof {
                lemma_first_slash(rest, j - start);
            }
            if j == s.len() {
                let seg = slice_of(s, start, s.len());
                assert(seg@ =~= rest);
                return self.resolve_segment_exec(cur, &seg, mode);
            }
            let seg = slice_of(s, start, j);
            assert(seg@ =~= rest.subrange(0, j - start));
            match self.resolve_segment_exec(cur, &seg, mode) {
                Ok(c) => {
                    assert(rest.subrange(j - start + 1, rest.len() as int) =~= s@.subrange(j + 1, s@.len() as int));
                    cur = c;
                    start = j + 1;
                },
                Err(e) => {
                    return Err(e);
                },
            }
        }
    }

    fn translate_chain_exec(&self, node: usize, s: &Vec<char>, mode: Lookup) -> (r: Result<Vec<char>, TreeError>)
        requires
            wf(self@),
            is_node(self@, node),
        ensures
            agrees_text(r, chain_text(self@, node, s@, mode)),
    {
        let mut cur = node;
        let mut start: usize = 0;
        let mut out: Vec<char> = Vec::new();
        assert(s@.subrange(0, s@.len() as int) =~= s@);
        loop
            invariant
                wf(self@),
                is_node(self@, cur),
                start <= s@.len(),
                match chain_text(self@, cur, s@.subrange(start as int, s@.len() as int), mode) {
                    Ok(x) => chain_text(self@, node, s@, mode) == Ok::<Seq<char>, Fault>(out@ + x),
                    Err(e) => chain_text(self@, node, s@, mode) == Err::<Seq<char>, Fault>(e),
                },
            decreases s@.len() - start,
        {
            let ghost rest = s@.subrange(start as int, s@.len() as int);
            let j = find_slash(s, start);
            proof {
                lemma_first_slash(rest, j - start);
            }
            if j == s.len() {
                let seg = slice_of(s, start, s.len());
                assert(seg@ =~= rest);
                match self.translate_segment_exec(cur, &seg, mode) {
                    Ok(x) => {
                        let ghost before = out@;
                        append_chars(&mut out, &x);
                        return Ok(out);
                    },
                    Err(e) => {
                        return Err(e);
                    },
                }
            }
            let seg = slice_of(s, start, j);
            assert(seg@ =~= rest.subrange(0, j - start));
            let h = match self.translate_segment_exec(cur, &seg, mode) {
                Ok(h) => h,
                Err(e) => {
                    return Err(e);
                },
            };
            match self.resolve_segment_exec(cur, &seg, mode) {
                Ok(c) => {
                    assert(rest.subrange(j - start + 1, rest.len() as int) =~= s@.subrange(j + 1, s@.len() as int));
                    let ghost before = out@;
                    append_chars(&mut out, &h);
                    out.push('/');
                    proof {
                        let tail = s@.subrange(j + 1, s@.len() as int);
                        match chain_text(self@, c, tail, mode) {
                            Ok(x) => {
                                assert(before + (h@ + seq!['/'] + x) =~= out@ + x);
                            },
                            Err(e) => {},
                        }
                    }
                    cur = c;
                    start = j + 1;
                },
                Err(e) => {
                    return Err(e);
                },
            }
        }
    }
}

impl Hierarchy {
    /// The address that `key` is registered with in `node`.
    pub fn translate(&self, node: usize, key: &str) -> (r: Result<String, TreeError>)
        requires
            wf(self@),
            is_node(self@, node),
        ensures
            agrees_string(r, segment_text(self@[node as int], key@, Lookup::Named)),
    {
        text_result(self.translate_segment_exec(node, &chars_of(key), Lookup::Named))
    }

    /// `token` itself if it is structural, else the address it is
    /// registered with in `node`.
    pub fn translate_or_pass(&self, node: usize, token: &str) -> (r: Result<String, TreeError>)
        requires
            wf(self@),
            is_node(self@, node),
        ensures
            agrees_string(r, segment_text(self@[node as int], token@, Lookup::Either)),
    {
        text_result(self.translate_segment_exec(node, &chars_of(token), Lookup::Either))
    }

    /// The structural address of a chain of registered names.
    pub fn translate_chain(&self, node: usize, path: &str) -> (r: Result<String, TreeError>)
        requires
            wf(self@),
            is_node(self@, node),
        ensures
            agrees_string(r, chain_text(self@, node, path@, Lookup::Named)),
    {
        text_result(self.translate_chain_exec(node, &chars_of(path), Lookup::Named))
    }

    /// The structural address of a chain of names and structural segments.
    pub fn translate_chain_or_pass(&self, node: usize, path: &str) -> (r: Result<String, TreeError>)
        requires
            wf(self@),
            is_node(self@, node),
        ensures
            agrees_string(r, chain_text(self@, node, path@, Lookup::Either)),
    {
        text_result(self.translate_chain_exec(node, &chars_of(path), Lookup::Either))
    }

    /// The child of `node` at one structural segment.
    pub fn resolve(&self, node: usize, address: &str) -> (r: Result<usize, TreeError>)
        requires
            wf(self@),
            is_node(self@, node),
        ensures
            agrees(r, segment_node(self@, node, address@, Lookup::Strict)),
            r is Ok ==> is_node(self@, r->Ok_0),
    {
        self.resolve_segment_exec(node, &chars_of(address), Lookup::Strict)
    }

    /// The child of `node` at one structural segment or registered name.
    pub fn resolve_or_pass(&self, node: usize, token: &str) -> (r: Result<usize, TreeError>)
        requires
            wf(self@),
            is_node(self@, node),
        ensures
            agrees(r, segment_node(self@, node, token@, Lookup::Either)),
            r is Ok ==> is_node(self@, r->Ok_0),
    {
        self.resolve_segment_exec(node, &chars_of(token), Lookup::Either)
    }

    /// The descendant of `node` at a chain of structural segments.
    pub fn resolve_chain(&self, node: usize, path: &str) -> (r: Result<usize, TreeError>)
        requires
            wf(self@),
            is_node(self@, node),
        ensures
            agrees(r, chain_node(self@, node, path@, Lookup::Strict)),
            r is Ok ==> is_node(self@, r->Ok_0),
    {
        self.resolve_chain_exec(node, &chars_of(path), Lookup::Strict)
    }

    /// The descendant of `node` at a chain of structural segments and
    /// registered names.
    pub fn resolve_chain_or_pass(&self, node: usize, path: &str) -> (r: Result<usize, TreeError>)
        requires
            wf(self@),
            is_node(self@, node),
        ensures
            agrees(r, chain_node(self@, node, path@, Lookup::Either)),
            r is Ok ==> is_node(self@, r->Ok_0),
    {
        self.resolve_chain_exec(node, &chars_of(path), Lookup::Either)
    }

    /// Whether a chain of structural segments and registered names leads
    /// from `node` to a descendant.
    pub fn exists_path(&self, node: usize, path: &str) -> (r: bool)
        requires
            wf(self@),
            is_node(self@, node),
        ensures
            r == chain_node(self@, node, path@, Lookup::Either) is Ok,
    {
        self.resolve_chain_exec(node, &chars_of(path), Lookup::Either).is_ok()
    }
}

fn text_result(r: Result<Vec<char>, TreeError>) -> (s: Result<String, TreeError>)
    ensures
        match r {
            Ok(v) => s is Ok && s->Ok_0@ == v@,
            Err(e) => s is Err && s->Err_0@ == e@,
        },
{
    match r {
        Ok(v) => Ok(string_of(&v)),
        Err(e) => Err(e),
    }
}

} // verus!
