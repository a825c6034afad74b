//! The in-memory engine and the container's metadata: groups, dimensions,
//! variables, and every operation on them.
//!
//! `RawFile` owns all engine state.  Rust's exclusive borrow of the file
//! value serializes every call into it, so each operation completes fully or
//! fails without touching the state; validation errors are detected before
//! any state is changed.

use vstd::prelude::*;
use vstd::string::StringSliceAdditionalSpecFns;
use crate::cells::{CellStore, TextStore};
use crate::dimension::Dimension;
use crate::error::NcError;
use crate::error::{CODE_INVALID_ARG, CODE_NAME_TOO_LONG};
use crate::group::Group;
use crate::hyperslab::{
    opt_view, plan_read_spec, plan_single_spec, plan_write_spec, product, target_key, PlanOutcome,
    PlanShape, SlabPlan,
};
use crate::types::{NumericType, VarType};
use crate::variable::Variable;

verus! {

/// The engine's limit on the length of a name, in bytes.
pub const MAX_NAME_LEN: usize = 256;

/// Whether the parent link of group `g` is sound: absent exactly at the
/// root, and pointing to an earlier group everywhere else, which makes the
/// arena a tree.
pub open spec fn group_parent_ok(groups: Seq<Group>, g: int) -> bool {
    match groups[g].parent {
        Some(p) => 0 <= p < g,
        None => g == 0,
    }
}

/// Whether two groups collide: same parent, same name.
pub open spec fn group_clash(a: Group, b: Group) -> bool {
    a.parent == b.parent && a.name@ == b.name@
}

/// Whether two dimensions collide: same owning group, same name.
pub open spec fn dim_clash(a: Dimension, b: Dimension) -> bool {
    a.owner == b.owner && a.name@ == b.name@
}

/// Whether two variables collide: same owning group, same name.
pub open spec fn var_clash(a: Variable, b: Variable) -> bool {
    a.owner == b.owner && a.name@ == b.name@
}

/// Whether a variable's references are sound and its own parts consistent.
pub open spec fn var_wf(ngroups: int, ndims: int, v: Variable) -> bool {
    &&& v.owner < ngroups
    &&& (forall|i: int| 0 <= i < v.dims@.len() ==> (#[trigger] v.dims@[i]) < ndims)
    &&& v.wf()
}

/// The whole in-memory engine state of one open file.
#[derive(Debug)]
pub struct RawFile {
    /// The name the file was created or opened under.
    pub path: Vec<u8>,
    /// The option flag bits the file was created or opened with.
    pub bits: u32,
    /// The group arena; index 0 is the root.
    pub groups: Vec<Group>,
    /// The file-wide dimension table; a dimension's handle is its index.
    pub dims: Vec<Dimension>,
    /// The file-wide variable table; a variable's handle is its index.
    pub vars: Vec<Variable>,
}

impl RawFile {
    /// The invariant every operation preserves: the group arena is a tree
    /// rooted at index 0, every owner and axis reference is in range, each
    /// variable is internally consistent, and names are unique per group,
    /// separately for groups, dimensions and variables.
    pub open spec fn wf(self) -> bool {
        &&& self.groups@.len() >= 1
        &&& (forall|g: int|
            0 <= g < self.groups@.len() ==> #[trigger] group_parent_ok(self.groups@, g))
        &&& (forall|d: int|
            0 <= d < self.dims@.len() ==> (#[trigger] self.dims@[d]).owner < self.groups@.len())
        &&& (forall|v: int|
            0 <= v < self.vars@.len() ==> #[trigger] var_wf(
                self.groups@.len() as int,
                self.dims@.len() as int,
                self.vars@[v],
            ))
        &&& (forall|i: int, j: int|
            0 <= i < j < self.groups@.len() ==> !group_clash(
                #[trigger] self.groups@[i],
                #[trigger] self.groups@[j],
            ))
        &&& (forall|i: int, j: int|
            0 <= i < j < self.dims@.len() ==> !dim_clash(
                #[trigger] self.dims@[i],
                #[trigger] self.dims@[j],
            ))
        &&& (forall|i: int, j: int|
            0 <= i < j < self.vars@.len() ==> !var_clash(
                #[trigger] self.vars@[i],
                #[trigger] self.vars@[j],
            ))
    }

    /// The current shape of variable `v`: each axis's dimension length, in
    /// declaration order, read fresh from the dimension table.
    pub open spec fn shape_spec(self, v: int) -> Seq<usize> {
        Seq::new(
            self.vars@[v].dims@.len(),
            |i: int| self.dims@[self.vars@[v].dims@[i] as int].len,
        )
    }

    /// Which axes of variable `v` are unlimited.
    pub open spec fn unlimited_spec(self, v: int) -> Seq<bool> {
        Seq::new(
            self.vars@[v].dims@.len(),
            |i: int| self.dims@[self.vars@[v].dims@[i] as int].unlimited,
        )
    }

    /// A fresh, empty file: one root group, no dimensions, no variables.
    pub open spec fn fresh_spec(self, path: Seq<u8>, bits: u32) -> bool {
        &&& self.path@ == path
        &&& self.bits == bits
        &&& self.groups@.len() == 1
        &&& self.groups@[0].parent is None
        &&& self.groups@[0].name@ == Seq::<u8>::empty()
        &&& self.dims@.len() == 0
        &&& self.vars@.len() == 0
    }

    /// Creates a fresh, empty file.
    pub fn fresh(path: &str, bits: u32) -> (r: RawFile)
        ensures
            r.wf(),
            r.fresh_spec(path.spec_bytes(), bits),
    {
        let root = Group { name: Vec::new(), parent: None };
        let mut groups: Vec<Group> = Vec::new();
        groups.push(root);
        RawFile {
            path: vstd::slice::slice_to_vec(path.as_bytes()),
            bits,
            groups,
            dims: Vec::new(),
            vars: Vec::new(),
        }
    }
}

/// Whether group `g` directly defines a dimension named `name`.
pub open spec fn group_has_dim(dims: Seq<Dimension>, g: int, name: Seq<u8>) -> bool {
    exists|i: int| 0 <= i < dims.len() && dim_matches(#[trigger] dims[i], g, name)
}

/// Whether a dimension is `g`'s dimension of that name.
pub open spec fn dim_matches(d: Dimension, g: int, name: Seq<u8>) -> bool {
    d.owner == g && d.name@ == name
}

/// The handle of `g`'s dimension named `name`; meaningful when one exists
/// (by `wf` it is then unique).
pub open spec fn the_group_dim(dims: Seq<Dimension>, g: int, name: Seq<u8>) -> int {
    choose|i: int| 0 <= i < dims.len() && dim_matches(#[trigger] dims[i], g, name)
}

/// Resolves a dimension name from group `g` outward: the defining group is
/// `g` or the nearest ancestor of `g` that defines the name.
pub open spec fn resolve_dim(
    groups: Seq<Group>,
    dims: Seq<Dimension>,
    g: int,
    name: Seq<u8>,
) -> Option<int>
    decreases g,
{
    if !(0 <= g < groups.len()) {
        None
    } else if group_has_dim(dims, g, name) {
        Some(the_group_dim(dims, g, name))
    } else {
        match groups[g].parent {
            Some(p) => if 0 <= p < g {
                resolve_dim(groups, dims, p as int, name)
            } else {
                None
            },
            None => None,
        }
    }
}

/// Whether a variable is `g`'s variable of that name.
pub open spec fn var_matches(v: Variable, g: int, name: Seq<u8>) -> bool {
    v.owner == g && v.name@ == name
}

/// Whether group `g` directly defines a variable named `name`.
pub open spec fn group_has_var(vars: Seq<Variable>, g: int, name: Seq<u8>) -> bool {
    exists|i: int| 0 <= i < vars.len() && var_matches(#[trigger] vars[i], g, name)
}

/// The handle of `g`'s variable named `name`; meaningful when one exists.
pub open spec fn the_group_var(vars: Seq<Variable>, g: int, name: Seq<u8>) -> int {
    choose|i: int| 0 <= i < vars.len() && var_matches(#[trigger] vars[i], g, name)
}

/// Resolves a variable name from group `g` outward, like `resolve_dim`.
pub open spec fn resolve_var(
    groups: Seq<Group>,
    vars: Seq<Variable>,
    g: int,
    name: Seq<u8>,
) -> Option<int>
    decreases g,
{
    if !(0 <= g < groups.len()) {
        None
    } else if group_has_var(vars, g, name) {
        Some(the_group_var(vars, g, name))
    } else {
        match groups[g].parent {
            Some(p) => if 0 <= p < g {
                resolve_var(groups, vars, p as int, name)
            } else {
                None
            },
            None => None,
        }
    }
}

/// Whether a group is the child of `parent` named `name`.
pub open spec fn child_matches(c: Group, parent: int, name: Seq<u8>) -> bool {
    c.parent == Some(parent as usize) && c.name@ == name
}

/// Whether `parent` has a child group named `name`.
pub open spec fn has_child(groups: Seq<Group>, parent: int, name: Seq<u8>) -> bool {
    exists|i: int| 0 <= i < groups.len() && child_matches(#[trigger] groups[i], parent, name)
}

/// The index of `parent`'s child named `name`; meaningful when one exists.
pub open spec fn the_child(groups: Seq<Group>, parent: int, name: Seq<u8>) -> int {
    choose|i: int| 0 <= i < groups.len() && child_matches(#[trigger] groups[i], parent, name)
}

/// Whether two vectors of bytes hold the same bytes.
pub fn bytes_eq(a: &Vec<u8>, b: &[u8]) -> (r: bool)
    ensures
        r == (a@ == b@),
{
    if a.len() != b.len() {
        return false;
    }
    let mut i: usize = 0;
    while i < a.len()
        invariant
            a@.len() == b@.len(),
            i <= a@.len(),
            forall|j: int| 0 <= j < i ==> a@[j] == b@[j],
        decreases a@.len() - i,
    {
        if a[i] != *vstd::slice::slice_index_get(b, i) {
            return false;
        }
        i = i + 1;
    }
    proof {
        assert(a@ =~= b@);
    }
    true
}

/// Checks a new name against the engine's length limit and returns it as
/// bytes, cut off at the first NUL byte as the engine would store it.
pub fn name_bytes(name: &str) -> (r: Result<Vec<u8>, NcError>)
    ensures
        match r {
            Ok(b) => name.spec_bytes().len() <= MAX_NAME_LEN && b@ == nul_prefix(
                name.spec_bytes(),
            ),
            Err(e) => e == NcError::EngineError(CODE_NAME_TOO_LONG) && name.spec_bytes().len()
                > MAX_NAME_LEN,
        },
{
    let bytes = name.as_bytes();
    if bytes.len() > MAX_NAME_LEN {
        return Err(NcError::EngineError(CODE_NAME_TOO_LONG));
    }
    let mut out: Vec<u8> = Vec::new();
    let mut i: usize = 0;
    while i < bytes.len()
        invariant
            i <= bytes@.len(),
            forall|j: int| 0 <= j < i ==> bytes@[j] != 0,
            out@ == bytes@.take(i as int),
        decreases bytes@.len() - i,
    {
        let c = *vstd::slice::slice_index_get(bytes, i);
        if c == 0 {
            proof {
                lemma_nul_prefix(bytes@, i as int);
            }
            return Ok(out);
        }
        out.push(c);
        proof {
            assert(bytes@.take(i as int).push(bytes@[i as int]) =~= bytes@.take(i + 1));
        }
        i = i + 1;
    }
    proof {
        assert(bytes@.take(bytes@.len() as int) =~= bytes@);
        lemma_nul_prefix(bytes@, bytes@.len() as int);
    }
    Ok(out)
}

impl RawFile {
    /// In a well-formed file two dimensions of one group never share a
    /// name, so a match determines the handle.
    pub proof fn lemma_dim_unique(self, g: int, name: Seq<u8>, i: int)
        requires
            self.wf(),
            0 <= i < self.dims@.len(),
            dim_matches(self.dims@[i], g, name),
        ensures
            group_has_dim(self.dims@, g, name),
            the_group_dim(self.dims@, g, name) == i,
    {
        assert(group_has_dim(self.dims@, g, name));
        let c = the_group_dim(self.dims@, g, name);
        if c < i {
            assert(dim_clash(self.dims@[c], self.dims@[i]));
        } else if c > i {
            assert(dim_clash(self.dims@[i], self.dims@[c]));
        }
    }

    /// As `lemma_dim_unique`, for variables.
    pub proof fn lemma_var_unique(self, g: int, name: Seq<u8>, i: int)
        requires
            self.wf(),
            0 <= i < self.vars@.len(),
            var_matches(self.vars@[i], g, name),
        ensures
            group_has_var(self.vars@, g, name),
            the_group_var(self.vars@, g, name) == i,
    {
        assert(group_has_var(self.vars@, g, name));
        let c = the_group_var(self.vars@, g, name);
        if c < i {
            assert(var_clash(self.vars@[c], self.vars@[i]));
        } else if c > i {
            assert(var_clash(self.vars@[i], self.vars@[c]));
        }
    }

    /// As `lemma_dim_unique`, for child groups.
    pub proof fn lemma_child_unique(self, parent: int, name: Seq<u8>, i: int)
        requires
            self.wf(),
            0 <= i < self.groups@.len(),
            child_matches(self.groups@[i], parent, name),
        ensures
            has_child(self.groups@, parent, name),
            the_child(self.groups@, parent, name) == i,
    {
        assert(has_child(self.groups@, parent, name));
        let c = the_child(self.groups@, parent, name);
        if c < i {
            assert(group_clash(self.groups@[c], self.groups@[i]));
        } else if c > i {
            assert(group_clash(self.groups@[i], self.groups@[c]));
        }
    }

    /// Scans for a dimension defined directly in group `g`.
    fn scan_dims(&self, g: usize, name: &Vec<u8>) -> (r: Option<usize>)
        ensures
            match r {
                Some(i) => i < self.dims@.len() && dim_matches(self.dims@[i as int], g as int, name@),
                None => !group_has_dim(self.dims@, g as int, name@),
            },
    {
        let mut i: usize = 0;
        while i < self.dims.len()
            invariant
                i <= self.dims@.len(),
                forall|j: int|
                    0 <= j < i ==> !dim_matches(#[trigger] self.dims@[j], g as int, name@),
            decreases self.dims@.len() - i,
        {
            if self.dims[i].owner == g && bytes_eq(&self.dims[i].name, name.as_slice()) {
                return Some(i);
            }
            i = i + 1;
        }
        None
    }

    /// Scans for a variable defined directly in group `g`.
    fn scan_vars(&self, g: usize, name: &Vec<u8>) -> (r: Option<usize>)
        ensures
            match r {
                Some(i) => i < self.vars@.len() && var_matches(self.vars@[i as int], g as int, name@),
                None => !group_has_var(self.vars@, g as int, name@),
            },
    {
        let mut i: usize = 0;
        while i < self.vars.len()
            invariant
                i <= self.vars@.len(),
                forall|j: int|
                    0 <= j < i ==> !var_matches(#[trigger] self.vars@[j], g as int, name@),
            decreases self.vars@.len() - i,
        {
            if self.vars[i].owner == g && bytes_eq(&self.vars[i].name, name.as_slice()) {
                return Some(i);
            }
            i = i + 1;
        }
        None
    }

    /// Scans for a child group of `parent`.
    fn scan_children(&self, parent: usize, name: &Vec<u8>) -> (r: Option<usize>)
        ensures
            match r {
                Some(i) => i < self.groups@.len() && child_matches(
                    self.groups@[i as int],
                    parent as int,
                    name@,
                ),
                None => !has_child(self.groups@, parent as int, name@),
            },
    {
        let mut i: usize = 0;
        while i < self.groups.len()
            invariant
                i <= self.groups@.len(),
                forall|j: int|
                    0 <= j < i ==> !child_matches(#[trigger] self.groups@[j], parent as int, name@),
            decreases self.groups@.len() - i,
        {
            let is_child: bool = match self.groups[i].parent {
                Some(p) => p == parent,
                None => false,
            };
            if is_child && bytes_eq(&self.groups[i].name, name.as_slice()) {
                return Some(i);
            }
            i = i + 1;
        }
        None
    }

    /// Finds the dimension `name` names in group `g`, searching `g` first
    /// and then its ancestors toward the root.
    pub fn find_dimension(&self, g: usize, name: &str) -> (r: Option<usize>)
        requires
            self.wf(),
            g < self.groups@.len(),
        ensures
            match r {
                Some(d) => resolve_dim(self.groups@, self.dims@, g as int, nul_prefix(
                    name.spec_bytes(),
                )) == Some(d as int) && d < self.dims@.len(),
                None => resolve_dim(self.groups@, self.dims@, g as int, nul_prefix(
                    name.spec_bytes(),
                )) is None,
            },
    {
        let nb = lookup_name_bytes(name);
        self.find_dimension_bytes(g, nb)
    }

    /// The byte-level body of `find_dimension`.
    fn find_dimension_bytes(&self, g: usize, nb: Vec<u8>) -> (r: Option<usize>)
        requires
            self.wf(),
            g < self.groups@.len(),
        ensures
            match r {
                Some(d) => resolve_dim(self.groups@, self.dims@, g as int, nb@) == Some(d as int)
                    && d < self.dims@.len(),
                None => resolve_dim(self.groups@, self.dims@, g as int, nb@) is None,
            },
    {
        let mut cur: usize = g;
        loop
            invariant
                self.wf(),
                cur < self.groups@.len(),
                resolve_dim(self.groups@, self.dims@, g as int, nb@) == resolve_dim(
                    self.groups@,
                    self.dims@,
                    cur as int,
                    nb@,
                ),
            decreases cur,
        {
            match self.scan_dims(cur, &nb) {
                Some(i) => {
                    proof {
                        self.lemma_dim_unique(cur as int, nb@, i as int);
                    }
                    return Some(i);
                }
                None => {
                    assert(group_parent_ok(self.groups@, cur as int));
                    match self.groups[cur].parent {
                        Some(p) => {
                            cur = p;
                        }
                        None => {
                            return None;
                        }
                    }
                }
            }
        }
    }

    /// Finds the variable `name` names in group `g`, searching `g` first
    /// and then its ancestors toward the root.
    pub fn find_variable(&self, g: usize, name: &str) -> (r: Option<usize>)
        requires
            self.wf(),
            g < self.groups@.len(),
        ensures
            match r {
                Some(v) => resolve_var(self.groups@, self.vars@, g as int, nul_prefix(
                    name.spec_bytes(),
                )) == Some(v as int) && v < self.vars@.len(),
                None => resolve_var(self.groups@, self.vars@, g as int, nul_prefix(
                    name.spec_bytes(),
                )) is None,
            },
    {
        let nb = lookup_name_bytes(name);
        let mut cur: usize = g;
        loop
            invariant
                self.wf(),
                cur < self.groups@.len(),
                resolve_var(self.groups@, self.vars@, g as int, nb@) == resolve_var(
                    self.groups@,
                    self.vars@,
                    cur as int,
                    nb@,
                ),
            decreases cur,
        {
            match self.scan_vars(cur, &nb) {
                Some(i) => {
                    proof {
                        self.lemma_var_unique(cur as int, nb@, i as int);
                    }
                    return Some(i);
                }
                None => {
                    assert(group_parent_ok(self.groups@, cur as int));
                    match self.groups[cur].parent {
                        Some(p) => {
                            cur = p;
                        }
                        None => {
                            return None;
                        }
                    }
                }
            }
        }
    }

    /// Finds the child group of `parent` named `name`.
    pub fn find_group(&self, parent: usize, name: &str) -> (r: Option<usize>)
        requires
            self.wf(),
            parent < self.groups@.len(),
        ensures
            match r {
                Some(c) => the_child(self.groups@, parent as int, nul_prefix(name.spec_bytes()))
                    == c as int && has_child(
                    self.groups@,
                    parent as int,
                    nul_prefix(name.spec_bytes()),
                ) && c < self.groups@.len(),
                None => !has_child(self.groups@, parent as int, nul_prefix(name.spec_bytes())),
            },
    {
        let nb = lookup_name_bytes(name);
        match self.scan_children(parent, &nb) {
            Some(i) => {
                proof {
                    self.lemma_child_unique(parent as int, nb@, i as int);
                }
                Some(i)
            }
            None => None,
        }
    }
}

/// The byte form under which a lookup compares a name: cut off at the
/// first NUL byte, as the engine stores names.
fn lookup_name_bytes(name: &str) -> (r: Vec<u8>)
    ensures
        r@ == nul_prefix(name.spec_bytes()),
{
    let bytes = name.as_bytes();
    let mut out: Vec<u8> = Vec::new();
    let mut i: usize = 0;
    while i < bytes.len()
        invariant
            i <= bytes@.len(),
            forall|j: int| 0 <= j < i ==> bytes@[j] != 0,
            out@ == bytes@.take(i as int),
        decreases bytes@.len() - i,
    {
        let c = *vstd::slice::slice_index_get(bytes, i);
        if c == 0 {
            proof {
                lemma_nul_prefix(bytes@, i as int);
            }
            return out;
        }
        out.push(c);
        proof {
            assert(bytes@.take(i as int).push(bytes@[i as int]) =~= bytes@.take(i + 1));
        }
        i = i + 1;
    }
    proof {
        assert(bytes@.take(bytes@.len() as int) =~= bytes@);
        lemma_nul_prefix(bytes@, bytes@.len() as int);
    }
    out
}

/// Appending a group whose parent is in range and whose name is fresh
/// among its siblings keeps the file well-formed.
proof fn lemma_push_group_wf(pre: RawFile, post: RawFile, gnew: Group)
    requires
        pre.wf(),
        post.dims@ == pre.dims@,
        post.vars@ == pre.vars@,
        post.groups@ == pre.groups@.push(gnew),
        gnew.parent matches Some(p) && p < pre.groups@.len(),
        !has_child(pre.groups@, gnew.parent->0 as int, gnew.name@),
    ensures
        post.wf(),
{
    let n = pre.groups@.len() as int;
    assert forall|g: int| 0 <= g < post.groups@.len() implies #[trigger] group_parent_ok(
        post.groups@,
        g,
    ) by {
        if g < n {
            assert(group_parent_ok(pre.groups@, g));
            assert(post.groups@[g] == pre.groups@[g]);
        } else {
            assert(post.groups@[g] == gnew);
        }
    }
    assert forall|v: int| 0 <= v < post.vars@.len() implies #[trigger] var_wf(
        post.groups@.len() as int,
        post.dims@.len() as int,
        post.vars@[v],
    ) by {
        assert(var_wf(pre.groups@.len() as int, pre.dims@.len() as int, pre.vars@[v]));
    }
    assert forall|i: int, j: int| 0 <= i < j < post.groups@.len() implies !group_clash(
        #[trigger] post.groups@[i],
        #[trigger] post.groups@[j],
    ) by {
        if j < n {
            assert(!group_clash(pre.groups@[i], pre.groups@[j]));
        } else {
            assert(post.groups@[i] == pre.groups@[i]);
            if group_clash(pre.groups@[i], gnew) {
                assert(child_matches(pre.groups@[i], gnew.parent->0 as int, gnew.name@));
            }
        }
    }
}

/// Appending a dimension whose owner is in range and whose name is fresh
/// in its group keeps the file well-formed.
proof fn lemma_push_dim_wf(pre: RawFile, post: RawFile, dnew: Dimension)
    requires
        pre.wf(),
        post.groups@ == pre.groups@,
        post.vars@ == pre.vars@,
        post.dims@ == pre.dims@.push(dnew),
        dnew.owner < pre.groups@.len(),
        !group_has_dim(pre.dims@, dnew.owner as int, dnew.name@),
    ensures
        post.wf(),
{
    let n = pre.dims@.len() as int;
    assert forall|v: int| 0 <= v < post.vars@.len() implies #[trigger] var_wf(
        post.groups@.len() as int,
        post.dims@.len() as int,
        post.vars@[v],
    ) by {
        assert(var_wf(pre.groups@.len() as int, pre.dims@.len() as int, pre.vars@[v]));
        let vv = pre.vars@[v];
        assert forall|i: int| 0 <= i < vv.dims@.len() implies (#[trigger] vv.dims@[i])
            < post.dims@.len() by {
            assert(vv.dims@[i] < pre.dims@.len());
        }
    }
    assert forall|i: int, j: int| 0 <= i < j < post.dims@.len() implies !dim_clash(
        #[trigger] post.dims@[i],
        #[trigger] post.dims@[j],
    ) by {
        if j < n {
            assert(!dim_clash(pre.dims@[i], pre.dims@[j]));
        } else {
            assert(post.dims@[i] == pre.dims@[i]);
            if dim_clash(pre.dims@[i], dnew) {
                assert(dim_matches(pre.dims@[i], dnew.owner as int, dnew.name@));
            }
        }
    }
}

/// Appending a variable that is well-formed against the current tables and
/// whose name is fresh in its group keeps the file well-formed.
proof fn lemma_push_var_wf(pre: RawFile, post: RawFile, vnew: Variable)
    requires
        pre.wf(),
        post.groups@ == pre.groups@,
        post.dims@ == pre.dims@,
        post.vars@ == pre.vars@.push(vnew),
        var_wf(pre.groups@.len() as int, pre.dims@.len() as int, vnew),
        !group_has_var(pre.vars@, vnew.owner as int, vnew.name@),
    ensures
        post.wf(),
{
    let n = pre.vars@.len() as int;
    assert forall|v: int| 0 <= v < post.vars@.len() implies #[trigger] var_wf(
        post.groups@.len() as int,
        post.dims@.len() as int,
        post.vars@[v],
    ) by {
        if v < n {
            assert(var_wf(pre.groups@.len() as int, pre.dims@.len() as int, pre.vars@[v]));
        } else {
            assert(post.vars@[v] == vnew);
        }
    }
    assert forall|i: int, j: int| 0 <= i < j < post.vars@.len() implies !var_clash(
        #[trigger] post.vars@[i],
        #[trigger] post.vars@[j],
    ) by {
        if j < n {
            assert(!var_clash(pre.vars@[i], pre.vars@[j]));
        } else {
            assert(post.vars@[i] == pre.vars@[i]);
            if var_clash(pre.vars@[i], vnew) {
                assert(var_matches(pre.vars@[i], vnew.owner as int, vnew.name@));
            }
        }
    }
}

impl RawFile {
    /// Defines a dimension in group `g`: fixed-length, or unlimited.
    ///
    /// Fails with `NotFound` on a stale group handle, with the engine's
    /// name-length code on an over-long name, and with `AlreadyExists` when
    /// the group already defines the name; nothing changes on failure.
    pub fn add_dimension_in(
        &mut self,
        g: usize,
        name: &str,
        len: usize,
        unlimited: bool,
    ) -> (r: Result<usize, NcError>)
        requires
            old(self).wf(),
        ensures
            final(self).wf(),
            !(g < old(self).groups@.len()) ==> r == Err::<usize, NcError>(NcError::NotFound)
                && *final(self) == *old(self),
            g < old(self).groups@.len() && name.spec_bytes().len() > MAX_NAME_LEN ==> r == Err::<
                usize,
                NcError,
            >(NcError::EngineError(CODE_NAME_TOO_LONG)) && *final(self) == *old(self),
            g < old(self).groups@.len() && name.spec_bytes().len() <= MAX_NAME_LEN
                && group_has_dim(old(self).dims@, g as int, nul_prefix(name.spec_bytes())) ==> r
                == Err::<usize, NcError>(NcError::AlreadyExists) && *final(self) == *old(self),
            g < old(self).groups@.len() && name.spec_bytes().len() <= MAX_NAME_LEN
                && !group_has_dim(old(self).dims@, g as int, nul_prefix(name.spec_bytes())) ==> (
            match r {
                Ok(d) => {
                    &&& d == old(self).dims@.len()
                    &&& final(self).dims@.len() == old(self).dims@.len() + 1
                    &&& (forall|j: int|
                        0 <= j < old(self).dims@.len() ==> final(self).dims@[j] == old(
                            self,
                        ).dims@[j])
                    &&& dim_matches(
                        final(self).dims@[d as int],
                        g as int,
                        nul_prefix(name.spec_bytes()),
                    )
                    &&& final(self).dims@[d as int].len == len
                    &&& final(self).dims@[d as int].unlimited == unlimited
                    &&& final(self).groups@ == old(self).groups@
                    &&& final(self).vars@ == old(self).vars@
                    &&& final(self).path@ == old(self).path@
                    &&& final(self).bits == old(self).bits
                },
                Err(_) => false,
            }),
    {
        if g >= self.groups.len() {
            return Err(NcError::NotFound);
        }
        let nb: Vec<u8> = match name_bytes(name) {
            Ok(b) => b,
            Err(e) => {
                return Err(e);
            }
        };
        self.add_dimension_bytes(g, nb, len, unlimited)
    }

    /// The byte-level core of dimension creation; `nb` is the name as the
    /// engine stores it.
    pub fn add_dimension_bytes(
        &mut self,
        g: usize,
        nb: Vec<u8>,
        len: usize,
        unlimited: bool,
    ) -> (r: Result<usize, NcError>)
        requires
            old(self).wf(),
            g < old(self).groups@.len(),
        ensures
            final(self).wf(),
            group_has_dim(old(self).dims@, g as int, nb@) ==> r == Err::<usize, NcError>(
                NcError::AlreadyExists,
            ) && *final(self) == *old(self),
            !group_has_dim(old(self).dims@, g as int, nb@) ==> (match r {
                Ok(d) => {
                    &&& d == old(self).dims@.len()
                    &&& final(self).dims@.len() == old(self).dims@.len() + 1
                    &&& (forall|j: int|
                        0 <= j < old(self).dims@.len() ==> final(self).dims@[j] == old(
                            self,
                        ).dims@[j])
                    &&& dim_matches(final(self).dims@[d as int], g as int, nb@)
                    &&& final(self).dims@[d as int].len == len
                    &&& final(self).dims@[d as int].unlimited == unlimited
                    &&& final(self).groups@ == old(self).groups@
                    &&& final(self).vars@ == old(self).vars@
                    &&& final(self).path@ == old(self).path@
                    &&& final(self).bits == old(self).bits
                },
                Err(_) => false,
            }),
    {
        match self.scan_dims(g, &nb) {
            Some(_) => Err(NcError::AlreadyExists),
            None => {
                let d = self.dims.len();
                let ghost pre = *self;
                let dnew = Dimension { name: nb, owner: g, len, unlimited };
                let ghost dnew_g = dnew;
                self.dims.push(dnew);
                proof {
                    lemma_push_dim_wf(pre, *self, dnew_g);
                }
                Ok(d)
            }
        }
    }

    /// Creates a child group of `parent`.
    ///
    /// Fails with `NotFound` on a stale parent handle, with the engine's
    /// name-length code on an over-long name, and with `AlreadyExists` when
    /// the parent already has a child of the name; nothing changes on
    /// failure.
    pub fn add_group_in(&mut self, parent: usize, name: &str) -> (r: Result<usize, NcError>)
        requires
            old(self).wf(),
        ensures
            final(self).wf(),
            !(parent < old(self).groups@.len()) ==> r == Err::<usize, NcError>(NcError::NotFound)
                && *final(self) == *old(self),
            parent < old(self).groups@.len() && name.spec_bytes().len() > MAX_NAME_LEN ==> r
                == Err::<usize, NcError>(NcError::EngineError(CODE_NAME_TOO_LONG)) && *final(self)
                == *old(self),
            parent < old(self).groups@.len() && name.spec_bytes().len() <= MAX_NAME_LEN
                && has_child(old(self).groups@, parent as int, nul_prefix(name.spec_bytes())) ==> r
                == Err::<usize, NcError>(NcError::AlreadyExists) && *final(self) == *old(self),
            parent < old(self).groups@.len() && name.spec_bytes().len() <= MAX_NAME_LEN
                && !has_child(old(self).groups@, parent as int, nul_prefix(name.spec_bytes()))
                ==> (match r {
                Ok(c) => {
                    &&& c == old(self).groups@.len()
                    &&& final(self).groups@.len() == old(self).groups@.len() + 1
                    &&& (forall|j: int|
                        0 <= j < old(self).groups@.len() ==> final(self).groups@[j] == old(
                            self,
                        ).groups@[j])
                    &&& child_matches(
                        final(self).groups@[c as int],
                        parent as int,
                        nul_prefix(name.spec_bytes()),
                    )
                    &&& final(self).dims@ == old(self).dims@
                    &&& final(self).vars@ == old(self).vars@
                    &&& final(self).path@ == old(self).path@
                    &&& final(self).bits == old(self).bits
                },
                Err(_) => false,
            }),
    {
        if parent >= self.groups.len() {
            return Err(NcError::NotFound);
        }
        let nb: Vec<u8> = match name_bytes(name) {
            Ok(b) => b,
            Err(e) => {
                return Err(e);
            }
        };
        self.add_group_bytes(parent, nb)
    }

    /// The byte-level core of group creation.
    pub fn add_group_bytes(&mut self, parent: usize, nb: Vec<u8>) -> (r: Result<usize, NcError>)
        requires
            old(self).wf(),
            parent < old(self).groups@.len(),
        ensures
            final(self).wf(),
            has_child(old(self).groups@, parent as int, nb@) ==> r == Err::<usize, NcError>(
                NcError::AlreadyExists,
            ) && *final(self) == *old(self),
            !has_child(old(self).groups@, parent as int, nb@) ==> (match r {
                Ok(c) => {
                    &&& c == old(self).groups@.len()
                    &&& final(self).groups@.len() == old(self).groups@.len() + 1
                    &&& (forall|j: int|
                        0 <= j < old(self).groups@.len() ==> final(self).groups@[j] == old(
                            self,
                        ).groups@[j])
                    &&& child_matches(final(self).groups@[c as int], parent as int, nb@)
                    &&& final(self).dims@ == old(self).dims@
                    &&& final(self).vars@ == old(self).vars@
                    &&& final(self).path@ == old(self).path@
                    &&& final(self).bits == old(self).bits
                },
                Err(_) => false,
            }),
    {
        match self.scan_children(parent, &nb) {
            Some(_) => Err(NcError::AlreadyExists),
            None => {
                let c = self.groups.len();
                let ghost pre = *self;
                let gnew = Group { name: nb, parent: Some(parent) };
                let ghost gnew_g = gnew;
                self.groups.push(gnew);
                proof {
                    lemma_push_group_wf(pre, *self, gnew_g);
                }
                Ok(c)
            }
        }
    }

    /// Defines a variable in group `g` over the given axes, which may
    /// reference dimensions of `g` or of any other group.
    ///
    /// Fails with `NotFound` on a stale group or dimension handle, with the
    /// engine's name-length code on an over-long name, and with
    /// `AlreadyExists` when the group already defines a variable of the
    /// name; nothing changes on failure.
    pub fn add_variable_in(
        &mut self,
        g: usize,
        name: &str,
        vartype: VarType,
        dim_ids: &Vec<usize>,
    ) -> (r: Result<usize, NcError>)
        requires
            old(self).wf(),
        ensures
            final(self).wf(),
            !(g < old(self).groups@.len() && (forall|i: int|
                0 <= i < dim_ids@.len() ==> (#[trigger] dim_ids@[i]) < old(self).dims@.len()))
                ==> r == Err::<usize, NcError>(NcError::NotFound) && *final(self) == *old(self),
            g < old(self).groups@.len() && (forall|i: int|
                0 <= i < dim_ids@.len() ==> (#[trigger] dim_ids@[i]) < old(self).dims@.len())
                ==> (if name.spec_bytes().len() > MAX_NAME_LEN {
                r == Err::<usize, NcError>(NcError::EngineError(CODE_NAME_TOO_LONG)) && *final(self) == *old(self)
            } else if group_has_var(old(self).vars@, g as int, nul_prefix(name.spec_bytes())) {
                r == Err::<usize, NcError>(NcError::AlreadyExists) && *final(self) == *old(self)
            } else {
                match r {
                    Ok(v) => {
                        &&& v == old(self).vars@.len()
                        &&& final(self).vars@.len() == old(self).vars@.len() + 1
                        &&& (forall|j: int|
                            0 <= j < old(self).vars@.len() ==> final(self).vars@[j] == old(
                                self,
                            ).vars@[j])
                        &&& var_matches(
                            final(self).vars@[v as int],
                            g as int,
                            nul_prefix(name.spec_bytes()),
                        )
                        &&& final(self).vars@[v as int].vartype == vartype
                        &&& final(self).vars@[v as int].dims@ == dim_ids@
                        &&& final(self).vars@[v as int].fill_enabled == true
                        &&& final(self).vars@[v as int].fill is None
                        &&& final(self).vars@[v as int].chunking is None
                        &&& final(self).vars@[v as int].compression is None
                        &&& (forall|k: Seq<usize>|
                            final(self).vars@[v as int].cells.lookup(k) is None)
                        &&& (forall|k: Seq<usize>|
                            final(self).vars@[v as int].text.lookup(k) is None)
                        &&& final(self).groups@ == old(self).groups@
                        &&& final(self).dims@ == old(self).dims@
                        &&& final(self).path@ == old(self).path@
                        &&& final(self).bits == old(self).bits
                    },
                    Err(_) => false,
                }
            }),
    {
        if g >= self.groups.len() {
            return Err(NcError::NotFound);
        }
        let mut i: usize = 0;
        while i < dim_ids.len()
            invariant
                i <= dim_ids@.len(),
                forall|j: int| 0 <= j < i ==> (#[trigger] dim_ids@[j]) < self.dims@.len(),
            decreases dim_ids@.len() - i,
        {
            if dim_ids[i] >= self.dims.len() {
                return Err(NcError::NotFound);
            }
            i = i + 1;
        }
        let nb: Vec<u8> = match name_bytes(name) {
            Ok(b) => b,
            Err(e) => {
                return Err(e);
            }
        };
        self.add_variable_bytes(g, nb, vartype, crate::hyperslab::copy_usizes(dim_ids))
    }

    /// The byte-level core of variable creation.
    pub fn add_variable_bytes(
        &mut self,
        g: usize,
        nb: Vec<u8>,
        vartype: VarType,
        dim_ids: Vec<usize>,
    ) -> (r: Result<usize, NcError>)
        requires
            old(self).wf(),
            g < old(self).groups@.len(),
            forall|i: int|
                0 <= i < dim_ids@.len() ==> (#[trigger] dim_ids@[i]) < old(self).dims@.len(),
        ensures
            final(self).wf(),
            group_has_var(old(self).vars@, g as int, nb@) ==> r == Err::<usize, NcError>(
                NcError::AlreadyExists,
            ) && *final(self) == *old(self),
            !group_has_var(old(self).vars@, g as int, nb@) ==> (match r {
                Ok(v) => {
                    &&& v == old(self).vars@.len()
                    &&& final(self).vars@.len() == old(self).vars@.len() + 1
                    &&& (forall|j: int|
                        0 <= j < old(self).vars@.len() ==> final(self).vars@[j] == old(
                            self,
                        ).vars@[j])
                    &&& var_matches(final(self).vars@[v as int], g as int, nb@)
                    &&& final(self).vars@[v as int].vartype == vartype
                    &&& final(self).vars@[v as int].dims@ == dim_ids@
                    &&& final(self).vars@[v as int].fill_enabled == true
                    &&& final(self).vars@[v as int].fill is None
                    &&& final(self).vars@[v as int].chunking is None
                    &&& final(self).vars@[v as int].compression is None
                    &&& (forall|k: Seq<usize>| final(self).vars@[v as int].cells.lookup(k) is None)
                    &&& (forall|k: Seq<usize>| final(self).vars@[v as int].text.lookup(k) is None)
                    &&& final(self).vars@[v as int].cells.keys_spec() == Seq::<Seq<usize>>::empty()
                    &&& final(self).vars@[v as int].cells.vals_spec() == Seq::<i128>::empty()
                    &&& final(self).vars@[v as int].text.keys_spec() == Seq::<Seq<usize>>::empty()
                    &&& final(self).vars@[v as int].text.vals_spec() == Seq::<Seq<u8>>::empty()
                    &&& final(self).groups@ == old(self).groups@
                    &&& final(self).dims@ == old(self).dims@
                    &&& final(self).path@ == old(self).path@
                    &&& final(self).bits == old(self).bits
                },
                Err(_) => false,
            }),
    {
        match self.scan_vars(g, &nb) {
            Some(_) => Err(NcError::AlreadyExists),
            None => {
                let v = self.vars.len();
                let ghost pre = *self;
                let vnew = Variable {
                    name: nb,
                    owner: g,
                    vartype,
                    dims: dim_ids,
                    fill_enabled: true,
                    fill: None,
                    chunking: None,
                    compression: None,
                    cells: CellStore::new(),
                    text: TextStore::new(),
                };
                let ghost vnew_g = vnew;
                self.vars.push(vnew);
                proof {
                    lemma_push_var_wf(pre, *self, vnew_g);
                }
                Ok(v)
            }
        }
    }

    /// The current shape of variable `v`, one length per axis in declared
    /// order, each read fresh from the dimension table.
    pub fn shape_of(&self, v: usize) -> (r: Result<Vec<usize>, NcError>)
        requires
            self.wf(),
        ensures
            match r {
                Ok(shape) => v < self.vars@.len() && shape@ == self.shape_spec(v as int),
                Err(e) => e == NcError::NotFound && !(v < self.vars@.len()),
            },
    {
        if v >= self.vars.len() {
            return Err(NcError::NotFound);
        }
        let rank = self.vars[v].dims.len();
        let mut shape: Vec<usize> = Vec::new();
        let mut i: usize = 0;
        while i < rank
            invariant
                v < self.vars@.len(),
                rank == self.vars@[v as int].dims@.len(),
                i <= rank,
                shape@.len() == i,
                forall|j: int| 0 <= j < i ==> shape@[j] == self.shape_spec(v as int)[j],
            decreases rank - i,
    {
            let d = self.vars[v].dims[i];
            assert(var_wf(self.groups@.len() as int, self.dims@.len() as int, self.vars@[v as int]));
            shape.push(self.dims[d].len);
            i = i + 1;
        }
        proof {
            assert(shape@ =~= self.shape_spec(v as int));
        }
        Ok(shape)
    }

    /// Which axes of variable `v` are unlimited.
    pub fn unlimited_of(&self, v: usize) -> (r: Result<Vec<bool>, NcError>)
        requires
            self.wf(),
        ensures
            match r {
                Ok(u) => v < self.vars@.len() && u@ == self.unlimited_spec(v as int),
                Err(e) => e == NcError::NotFound && !(v < self.vars@.len()),
            },
    {
        if v >= self.vars.len() {
            return Err(NcError::NotFound);
        }
        let rank = self.vars[v].dims.len();
        let mut u: Vec<bool> = Vec::new();
        let mut i: usize = 0;
        while i < rank
            invariant
                v < self.vars@.len(),
                rank == self.vars@[v as int].dims@.len(),
                i <= rank,
                u@.len() == i,
                forall|j: int| 0 <= j < i ==> u@[j] == self.unlimited_spec(v as int)[j],
            decreases rank - i,
        {
            let d = self.vars[v].dims[i];
            assert(var_wf(self.groups@.len() as int, self.dims@.len() as int, self.vars@[v as int]));
            u.push(self.dims[d].unlimited);
            i = i + 1;
        }
        proof {
            assert(u@ =~= self.unlimited_spec(v as int));
        }
        Ok(u)
    }

    /// The total number of elements of variable `v`: the product of its
    /// shape, 1 for a scalar.  A product beyond the machine's address range
    /// is reported as a dimension mismatch.
    pub fn length_of(&self, v: usize) -> (r: Result<usize, NcError>)
        requires
            self.wf(),
        ensures
            match r {
                Ok(n) => v < self.vars@.len() && n as int == product(self.shape_spec(v as int)),
                Err(e) => (e == NcError::NotFound && !(v < self.vars@.len())) || (e
                    == NcError::DimensionMismatch && v < self.vars@.len() && product(
                    self.shape_spec(v as int),
                ) > usize::MAX),
            },
    {
        let shape = match self.shape_of(v) {
            Ok(s) => s,
            Err(e) => {
                return Err(e);
            }
        };
        match crate::hyperslab::checked_product(&shape) {
            Some(n) => Ok(n),
            None => Err(NcError::DimensionMismatch),
        }
    }

    /// The current length of dimension `d`, read fresh: growth through any
    /// variable is visible here at once.
    pub fn dimension_len(&self, d: usize) -> (r: Result<usize, NcError>)
        ensures
            match r {
                Ok(n) => d < self.dims@.len() && n == self.dims@[d as int].len,
                Err(e) => e == NcError::NotFound && !(d < self.dims@.len()),
            },
    {
        if d >= self.dims.len() {
            return Err(NcError::NotFound);
        }
        Ok(self.dims[d].len)
    }

    /// Whether dimension `d` is unlimited; fixed at creation.
    pub fn dimension_unlimited(&self, d: usize) -> (r: Result<bool, NcError>)
        ensures
            match r {
                Ok(u) => d < self.dims@.len() && u == self.dims@[d as int].unlimited,
                Err(e) => e == NcError::NotFound && !(d < self.dims@.len()),
            },
    {
        if d >= self.dims.len() {
            return Err(NcError::NotFound);
        }
        Ok(self.dims[d].unlimited)
    }
}

/// Whether a dimension kept its identity: everything but the length.
pub open spec fn dim_frame(a: Dimension, b: Dimension) -> bool {
    b.name@ == a.name@ && b.owner == a.owner && b.unlimited == a.unlimited
}

/// The axis length dimension `d` ends with after the growth a plan asks
/// for: axes are walked in order and each referencing axis raises the
/// length to its post-growth value where that is larger.  (A dimension may
/// serve as several axes of one variable.)
pub open spec fn dim_growth(axes: Seq<usize>, grow: Seq<usize>, d: int, base: int) -> int
    decreases axes.len(),
{
    if axes.len() == 0 || axes.len() != grow.len() {
        base
    } else {
        let rest = dim_growth(axes.drop_last(), grow.drop_last(), d, base);
        if axes.last() == d && grow.last() > rest {
            grow.last() as int
        } else {
            rest
        }
    }
}

/// Growth never shrinks, and reaches what each axis asked for.
pub proof fn lemma_dim_growth_ge(axes: Seq<usize>, grow: Seq<usize>, d: int, base: int)
    requires
        axes.len() == grow.len(),
    ensures
        dim_growth(axes, grow, d, base) >= base,
        forall|i: int|
            0 <= i < axes.len() && axes[i] == d ==> dim_growth(axes, grow, d, base) >= grow[i],
    decreases axes.len(),
{
    if axes.len() > 0 {
        lemma_dim_growth_ge(axes.drop_last(), grow.drop_last(), d, base);
        assert forall|i: int|
            0 <= i < axes.len() && axes[i] == d implies dim_growth(axes, grow, d, base)
            >= grow[i] by {
            if i < axes.len() - 1 {
                assert(axes.drop_last()[i] == axes[i]);
                assert(grow.drop_last()[i] == grow[i]);
            }
        }
    }
}

/// A dimension no axis references keeps its length.
pub proof fn lemma_dim_growth_absent(axes: Seq<usize>, grow: Seq<usize>, d: int, base: int)
    requires
        axes.len() == grow.len(),
        forall|i: int| 0 <= i < axes.len() ==> (#[trigger] axes[i]) != d,
    ensures
        dim_growth(axes, grow, d, base) == base,
    decreases axes.len(),
{
    if axes.len() > 0 {
        assert(axes.last() != d);
        lemma_dim_growth_absent(axes.drop_last(), grow.drop_last(), d, base);
    }
}

impl RawFile {
    /// Grows the dimensions behind variable `v`'s axes to the plan's
    /// post-growth lengths.  Growth through a shared dimension is a
    /// file-wide effect: every variable referencing it sees the new length
    /// at once.
    fn apply_growth(&mut self, v: usize, grow: &Vec<usize>)
        requires
            old(self).wf(),
            v < old(self).vars@.len(),
            grow@.len() == old(self).vars@[v as int].dims@.len(),
        ensures
            final(self).wf(),
            final(self).groups@ == old(self).groups@,
            final(self).vars@ == old(self).vars@,
            final(self).path@ == old(self).path@,
            final(self).bits == old(self).bits,
            final(self).dims@.len() == old(self).dims@.len(),
            forall|d: int|
                0 <= d < old(self).dims@.len() ==> (#[trigger] final(self).dims@[d]).len as int
                    == dim_growth(
                    old(self).vars@[v as int].dims@,
                    grow@,
                    d,
                    old(self).dims@[d].len as int,
                ),
            forall|d: int|
                0 <= d < old(self).dims@.len() ==> dim_frame(
                    old(self).dims@[d],
                    #[trigger] final(self).dims@[d],
                ),
    {
        let ghost axes = self.vars@[v as int].dims@;
        let ghost pre = *self;
        let rank = self.vars[v].dims.len();
        let mut i: usize = 0;
        proof {
            assert forall|d: int| 0 <= d < pre.dims@.len() implies (#[trigger] self.dims@[d]).len
                as int == dim_growth(axes.take(0), grow@.take(0), d, pre.dims@[d].len as int) by {
                assert(axes.take(0) =~= Seq::<usize>::empty());
            }
        }
        while i < rank
            invariant
                self.wf(),
                v < self.vars@.len(),
                self.groups@ == pre.groups@,
                self.vars@ == pre.vars@,
                self.path@ == pre.path@,
                self.bits == pre.bits,
                self.dims@.len() == pre.dims@.len(),
                rank == axes.len(),
                grow@.len() == rank,
                i <= rank,
                forall|d: int|
                    0 <= d < pre.dims@.len() ==> (#[trigger] self.dims@[d]).len as int
                        == dim_growth(
                        axes.take(i as int),
                        grow@.take(i as int),
                        d,
                        pre.dims@[d].len as int,
                    ),
                forall|d: int|
                    0 <= d < pre.dims@.len() ==> dim_frame(
                        pre.dims@[d],
                        #[trigger] self.dims@[d],
                    ),
            decreases rank - i,
        {
            proof {
                assert(axes.take(i + 1).drop_last() =~= axes.take(i as int));
                assert(grow@.take(i + 1).drop_last() =~= grow@.take(i as int));
                assert(var_wf(
                    self.groups@.len() as int,
                    self.dims@.len() as int,
                    self.vars@[v as int],
                ));
            }
            let d = self.vars[v].dims[i];
            let g = grow[i];
            let ghost mid = *self;
            if g > self.dims[d].len {
                self.dims[d].len = g;
                proof {
                    assert(self.dims@ =~= mid.dims@.update(
                        d as int,
                        Dimension { len: g, ..mid.dims@[d as int] },
                    ));
                }
            }
            proof {
                assert forall|dd: int| 0 <= dd < pre.dims@.len() implies (
                #[trigger] self.dims@[dd]).len as int == dim_growth(
                    axes.take(i + 1),
                    grow@.take(i + 1),
                    dd,
                    pre.dims@[dd].len as int,
                ) by {
                    assert(axes.take(i + 1).last() == axes[i as int]);
                    assert(grow@.take(i + 1).last() == grow@[i as int]);
                }
            }
            i = i + 1;
        }
        proof {
            assert(axes.take(rank as int) =~= axes);
            assert(grow@.take(rank as int) =~= grow@);
        }
    }
}

/// Whether a variable kept its identity: everything but the written cells.
pub open spec fn var_frame(a: Variable, b: Variable) -> bool {
    &&& b.name@ == a.name@
    &&& b.owner == a.owner
    &&& b.vartype == a.vartype
    &&& b.dims@ == a.dims@
    &&& b.fill_enabled == a.fill_enabled
    &&& b.fill == a.fill
    &&& b.chunking == a.chunking
    &&& b.compression == a.compression
}

/// Everything a successful numeric write of plan `p` with buffer `vals`
/// does to the file: the axes' dimensions grow to the plan's post-growth
/// lengths (a file-wide effect visible through every sharing variable), the
/// planned cells of `v` take the buffer's values in row-major order, and
/// nothing else changes.
pub open spec fn put_effect(
    pre: RawFile,
    post: RawFile,
    v: int,
    p: crate::hyperslab::PlanShape,
    vals: Seq<i128>,
) -> bool {
    &&& post.groups@ == pre.groups@
    &&& post.path@ == pre.path@
    &&& post.bits == pre.bits
    &&& post.dims@.len() == pre.dims@.len()
    &&& (forall|d: int|
        0 <= d < pre.dims@.len() ==> (#[trigger] post.dims@[d]).len as int == dim_growth(
            pre.vars@[v].dims@,
            p.grow,
            d,
            pre.dims@[d].len as int,
        ))
    &&& (forall|d: int|
        0 <= d < pre.dims@.len() ==> dim_frame(pre.dims@[d], #[trigger] post.dims@[d]))
    &&& post.vars@.len() == pre.vars@.len()
    &&& (forall|u: int| 0 <= u < pre.vars@.len() && u != v ==> post.vars@[u] == pre.vars@[u])
    &&& var_frame(pre.vars@[v], post.vars@[v])
    &&& post.vars@[v].text == pre.vars@[v].text
    &&& (forall|k: int|
        0 <= k < product(p.count) ==> post.vars@[v].cells.lookup(
            #[trigger] crate::hyperslab::target_key(p.start, p.count, p.stride, k),
        ) == Some(vals[k]))
    &&& (forall|key: Seq<usize>|
        (forall|k: int|
            0 <= k < product(p.count) ==> crate::hyperslab::target_key(p.start, p.count, p.stride, k)
                != key) ==> post.vars@[v].cells.lookup(key) == pre.vars@[v].cells.lookup(key))
}

/// Decides whether the first `n` buffer values all fit representation `t`.
fn values_in_range(values: &Vec<i128>, n: usize, t: NumericType) -> (r: bool)
    requires
        n <= values@.len(),
    ensures
        r == (forall|k: int| 0 <= k < n ==> t.in_range(#[trigger] values@[k] as int)),
{
    let mut k: usize = 0;
    while k < n
        invariant
            k <= n,
            forall|q: int| 0 <= q < k ==> t.in_range(#[trigger] values@[q] as int),
        decreases n - k,
    {
        if !t.accepts(values[k]) {
            assert(!t.in_range(values@[k as int] as int));
            return false;
        }
        k = k + 1;
    }
    true
}

impl RawFile {
    /// Reads one planned region of numeric variable `v` in representation
    /// `rep`: written cells give their value, never-written cells the
    /// effective fill value, and any value outside the representation is a
    /// conversion error.
    fn read_region(&self, v: usize, plan: &SlabPlan, rep: NumericType) -> (r: Result<
        Vec<i128>,
        NcError,
    >)
        requires
            self.wf(),
            v < self.vars@.len(),
            self.vars@[v as int].vartype is Numeric,
            plan.consistent(plan.start@.len() as nat),
        ensures
            match r {
                Ok(out) => {
                    &&& out@.len() == plan.total
                    &&& (forall|k: int|
                        0 <= k < plan.total ==> out@[k] as int == self.vars@[v as int].cell_value(
                            #[trigger] crate::hyperslab::target_key(
                                plan.start@,
                                plan.count@,
                                plan.stride@,
                                k,
                            ),
                        ))
                    &&& (forall|k: int|
                        0 <= k < plan.total ==> rep.in_range(
                            self.vars@[v as int].cell_value(
                                #[trigger] crate::hyperslab::target_key(
                                    plan.start@,
                                    plan.count@,
                                    plan.stride@,
                                    k,
                                ),
                            ),
                        ))
                },
                Err(e) => e == NcError::Conversion && exists|k: int|
                    0 <= k < plan.total && !rep.in_range(
                        self.vars@[v as int].cell_value(
                            #[trigger] crate::hyperslab::target_key(
                                plan.start@,
                                plan.count@,
                                plan.stride@,
                                k,
                            ),
                        ),
                    ),
            },
    {
        let t: NumericType = match self.vars[v].vartype {
            VarType::Numeric(t) => t,
            VarType::Text => NumericType::I8,
        };
        let fill: i128 = match self.vars[v].fill {
            Some(f) => f,
            None => t.default_fill(),
        };
        proof {
            assert(fill as int == self.vars@[v as int].effective_fill());
        }
        let total = plan.total;
        let mut out: Vec<i128> = Vec::new();
        let mut k: usize = 0;
        while k < total
            invariant
                k <= total,
                out@.len() == k,
                fill as int == self.vars@[v as int].effective_fill(),
                forall|q: int|
                    0 <= q < k ==> out@[q] as int == self.vars@[v as int].cell_value(
                        #[trigger] crate::hyperslab::target_key(
                            plan.start@,
                            plan.count@,
                            plan.stride@,
                            q,
                        ),
                    ),
                forall|q: int|
                    0 <= q < k ==> rep.in_range(
                        self.vars@[v as int].cell_value(
                            #[trigger] crate::hyperslab::target_key(
                                plan.start@,
                                plan.count@,
                                plan.stride@,
                                q,
                            ),
                        ),
                    ),
            decreases total - k,
        {
            let key = crate::hyperslab::target_index(plan, k);
            proof {
                assert(var_wf(
                    self.groups@.len() as int,
                    self.dims@.len() as int,
                    self.vars@[v as int],
                ));
            }
            let cv: i128 = match self.vars[v].cells.read(&key) {
                Some(x) => x,
                None => fill,
            };
            proof {
                assert(cv as int == self.vars@[v as int].cell_value(key@));
            }
            if !rep.accepts(cv) {
                proof {
                    assert(!rep.in_range(
                        self.vars@[v as int].cell_value(
                            crate::hyperslab::target_key(
                                plan.start@,
                                plan.count@,
                                plan.stride@,
                                k as int,
                            ),
                        ),
                    ));
                }
                return Err(NcError::Conversion);
            }
            out.push(cv);
            k = k + 1;
        }
        Ok(out)
    }

    /// Writes one planned region of numeric variable `v`: grows the axes'
    /// dimensions to the plan's lengths, then lands the buffer's first
    /// `plan.total` values on the planned cells.
    fn write_planned(&mut self, v: usize, plan: &SlabPlan, values: &Vec<i128>)
        requires
            old(self).wf(),
            v < old(self).vars@.len(),
            old(self).vars@[v as int].vartype is Numeric,
            plan.consistent(old(self).vars@[v as int].dims@.len() as nat),
            plan.total <= values@.len(),
            forall|k: int|
                0 <= k < plan.total ==> crate::types::storable(#[trigger] values@[k] as int),
        ensures
            final(self).wf(),
            put_effect(*old(self), *final(self), v as int, plan.view_spec(), values@),
    {
        let ghost pre = *self;
        proof {
            assert(var_wf(
                self.groups@.len() as int,
                self.dims@.len() as int,
                self.vars@[v as int],
            ));
        }
        self.apply_growth(v, &plan.grow);
        self.vars[v].cells.write_region(plan, values);
        proof {
            assert(product(plan.view_spec().count) == plan.total as int);
            let nv = self.vars@[v as int].cells.vals_spec();
            let ov = pre.vars@[v as int].cells.vals_spec();
            assert forall|i: int|
                0 <= i < nv.len() implies crate::types::storable(#[trigger] nv[i] as int) by {
                if i < ov.len() {
                    assert(nv[i] == ov[i]);
                } else {
                    assert(nv[i] == values@.subrange(0, plan.total as int)[i - ov.len()]);
                    assert(nv[i] == values@[i - ov.len()]);
                }
            }
        }
    }
}

impl RawFile {
    /// What a bulk read of variable `v` returns, for every combination of
    /// arguments: the planner's error, a conversion error if any value of
    /// the region falls outside the requested representation, or the
    /// region's values in row-major order.
    pub open spec fn values_outcome(
        self,
        v: int,
        start: Option<Seq<usize>>,
        count: Option<Seq<usize>>,
        stride: Option<Seq<usize>>,
        rep: NumericType,
    ) -> Result<Seq<int>, NcError> {
        if !(0 <= v < self.vars@.len()) {
            Err(NcError::NotFound)
        } else if !(self.vars@[v].vartype is Numeric) {
            Err(NcError::TypeMismatch)
        } else {
            match plan_read_spec(self.shape_spec(v), start, count, stride) {
                PlanOutcome::Refused(e) => Err(e),
                PlanOutcome::Planned(p) => if forall|k: int|
                    0 <= k < product(p.count) ==> rep.in_range(
                        self.vars@[v].cell_value(#[trigger] target_key(p.start, p.count, p.stride, k)),
                    ) {
                    Ok(
                        Seq::new(
                            product(p.count) as nat,
                            |k: int|
                                self.vars@[v].cell_value(target_key(p.start, p.count, p.stride, k)),
                        ),
                    )
                } else {
                    Err(NcError::Conversion)
                },
            }
        }
    }

    /// What a bulk write of variable `v` does, for every combination of
    /// arguments: the planner's error, a conversion error if any buffer
    /// value falls outside the variable's storage type, or the plan whose
    /// effect `put_effect` describes.
    pub open spec fn put_values_outcome(
        self,
        v: int,
        start: Option<Seq<usize>>,
        count: Option<Seq<usize>>,
        stride: Option<Seq<usize>>,
        vals: Seq<i128>,
    ) -> Result<PlanShape, NcError> {
        if !(0 <= v < self.vars@.len()) {
            Err(NcError::NotFound)
        } else if !(self.vars@[v].vartype is Numeric) {
            Err(NcError::TypeMismatch)
        } else {
            match plan_write_spec(
                self.shape_spec(v),
                self.unlimited_spec(v),
                start,
                count,
                stride,
                vals.len(),
            ) {
                PlanOutcome::Refused(e) => Err(e),
                PlanOutcome::Planned(p) => if forall|k: int|
                    0 <= k < product(p.count) ==> self.vars@[v].numeric_type().in_range(
                        #[trigger] vals[k] as int,
                    ) {
                    Ok(p)
                } else {
                    Err(NcError::Conversion)
                },
            }
        }
    }

    /// What a single-value read of variable `v` returns, for every index
    /// argument.
    pub open spec fn value_outcome(self, v: int, index: Option<Seq<usize>>, rep: NumericType) -> Result<
        int,
        NcError,
    > {
        if !(0 <= v < self.vars@.len()) {
            Err(NcError::NotFound)
        } else if !(self.vars@[v].vartype is Numeric) {
            Err(NcError::TypeMismatch)
        } else {
            match plan_single_spec(self.shape_spec(v), self.unlimited_spec(v), index, false) {
                PlanOutcome::Refused(e) => Err(e),
                PlanOutcome::Planned(p) => {
                    let c = self.vars@[v].cell_value(target_key(p.start, p.count, p.stride, 0));
                    if rep.in_range(c) {
                        Ok(c)
                    } else {
                        Err(NcError::Conversion)
                    }
                },
            }
        }
    }

    /// What a single-value write of variable `v` does, for every index
    /// argument.
    pub open spec fn put_value_outcome(self, v: int, value: i128, index: Option<Seq<usize>>) -> Result<
        PlanShape,
        NcError,
    > {
        if !(0 <= v < self.vars@.len()) {
            Err(NcError::NotFound)
        } else if !(self.vars@[v].vartype is Numeric) {
            Err(NcError::TypeMismatch)
        } else {
            match plan_single_spec(self.shape_spec(v), self.unlimited_spec(v), index, true) {
                PlanOutcome::Refused(e) => Err(e),
                PlanOutcome::Planned(p) => if self.vars@[v].numeric_type().in_range(value as int) {
                    Ok(p)
                } else {
                    Err(NcError::Conversion)
                },
            }
        }
    }

    /// Reads one value of numeric variable `v` in representation `rep`; a
    /// missing index addresses the first element.
    pub fn value(&self, v: usize, index: Option<&Vec<usize>>, rep: NumericType) -> (r: Result<
        i128,
        NcError,
    >)
        requires
            self.wf(),
        ensures
            match (r, self.value_outcome(v as int, opt_view(index), rep)) {
                (Ok(out), Ok(c)) => out as int == c,
                (Err(e1), Err(e2)) => e1 == e2,
                _ => false,
            },
    {
        if v >= self.vars.len() {
            return Err(NcError::NotFound);
        }
        match self.vars[v].vartype {
            VarType::Numeric(_) => (),
            VarType::Text => {
                return Err(NcError::TypeMismatch);
            }
        }
        let shape = match self.shape_of(v) {
            Ok(s) => s,
            Err(e) => {
                return Err(e);
            }
        };
        let unlim = match self.unlimited_of(v) {
            Ok(u) => u,
            Err(e) => {
                return Err(e);
            }
        };
        let plan = match crate::hyperslab::plan_single(&shape, &unlim, index, false) {
            Ok(p) => p,
            Err(e) => {
                return Err(e);
            }
        };
        match self.read_region(v, &plan, rep) {
            Ok(out) => Ok(out[0]),
            Err(e) => Err(e),
        }
    }

    /// Writes one value to numeric variable `v`; a missing index addresses
    /// the first element, and an index beyond an unlimited axis grows that
    /// axis to `index + 1`.
    pub fn put_value(&mut self, v: usize, value: i128, index: Option<&Vec<usize>>) -> (r: Result<
        (),
        NcError,
    >)
        requires
            old(self).wf(),
        ensures
            final(self).wf(),
            match old(self).put_value_outcome(v as int, value, opt_view(index)) {
                Ok(p) => r == Ok::<(), NcError>(()) && put_effect(
                    *old(self),
                    *final(self),
                    v as int,
                    p,
                    seq![value],
                ),
                Err(e) => r == Err::<(), NcError>(e) && *final(self) == *old(self),
            },
    {
        if v >= self.vars.len() {
            return Err(NcError::NotFound);
        }
        let t: NumericType = match self.vars[v].vartype {
            VarType::Numeric(t) => t,
            VarType::Text => {
                return Err(NcError::TypeMismatch);
            }
        };
        let shape = match self.shape_of(v) {
            Ok(s) => s,
            Err(e) => {
                return Err(e);
            }
        };
        let unlim = match self.unlimited_of(v) {
            Ok(u) => u,
            Err(e) => {
                return Err(e);
            }
        };
        let plan = match crate::hyperslab::plan_single(&shape, &unlim, index, true) {
            Ok(p) => p,
            Err(e) => {
                return Err(e);
            }
        };
        if !t.accepts(value) {
            return Err(NcError::Conversion);
        }
        let buf: Vec<i128> = vec![value];
        proof {
            assert(buf@ =~= seq![value]);
            crate::types::lemma_in_range_storable(t, value as int);
        }
        self.write_planned(v, &plan, &buf);
        Ok(())
    }

    /// Reads a rectangular region of numeric variable `v` in representation
    /// `rep`, row-major: a missing start is all zeros, a missing count is
    /// the remainder of every axis, and a missing stride is all ones.
    pub fn values_with(
        &self,
        v: usize,
        start: Option<&Vec<usize>>,
        count: Option<&Vec<usize>>,
        stride: Option<&Vec<usize>>,
        rep: NumericType,
    ) -> (r: Result<Vec<i128>, NcError>)
        requires
            self.wf(),
        ensures
            match (r, self.values_outcome(
                v as int,
                opt_view(start),
                opt_view(count),
                opt_view(stride),
                rep,
            )) {
                (Ok(out), Ok(s)) => out@.len() == s.len() && (forall|k: int|
                    0 <= k < s.len() ==> (#[trigger] out@[k]) as int == s[k]),
                (Err(e1), Err(e2)) => e1 == e2,
                _ => false,
            },
    {
        if v >= self.vars.len() {
            return Err(NcError::NotFound);
        }
        match self.vars[v].vartype {
            VarType::Numeric(_) => (),
            VarType::Text => {
                return Err(NcError::TypeMismatch);
            }
        }
        let shape = match self.shape_of(v) {
            Ok(s) => s,
            Err(e) => {
                return Err(e);
            }
        };
        let plan = match crate::hyperslab::plan_read(&shape, start, count, stride) {
            Ok(p) => p,
            Err(e) => {
                return Err(e);
            }
        };
        match self.read_region(v, &plan, rep) {
            Ok(out) => Ok(out),
            Err(e) => Err(e),
        }
    }

    /// Writes a flat buffer to a rectangular region of numeric variable
    /// `v`, row-major.  With an explicit count the caller owes a buffer at
    /// least as long as the count product; with no count the counts are
    /// inferred from the buffer length, growing a single unlimited axis as
    /// needed, and several unlimited axes are refused as ambiguous.
    pub fn put_values_with(
        &mut self,
        v: usize,
        values: &Vec<i128>,
        start: Option<&Vec<usize>>,
        count: Option<&Vec<usize>>,
        stride: Option<&Vec<usize>>,
    ) -> (r: Result<(), NcError>)
        requires
            old(self).wf(),
            match opt_view(count) {
                Some(c) => product(c) <= values@.len(),
                None => true,
            },
        ensures
            final(self).wf(),
            match old(self).put_values_outcome(
                v as int,
                opt_view(start),
                opt_view(count),
                opt_view(stride),
                values@,
            ) {
                Ok(p) => r == Ok::<(), NcError>(()) && put_effect(
                    *old(self),
                    *final(self),
                    v as int,
                    p,
                    values@,
                ),
                Err(e) => r == Err::<(), NcError>(e) && *final(self) == *old(self),
            },
    {
        if v >= self.vars.len() {
            return Err(NcError::NotFound);
        }
        let t: NumericType = match self.vars[v].vartype {
            VarType::Numeric(t) => t,
            VarType::Text => {
                return Err(NcError::TypeMismatch);
            }
        };
        let shape = match self.shape_of(v) {
            Ok(s) => s,
            Err(e) => {
                return Err(e);
            }
        };
        let unlim = match self.unlimited_of(v) {
            Ok(u) => u,
            Err(e) => {
                return Err(e);
            }
        };
        let plan = match crate::hyperslab::plan_write(
            &shape,
            &unlim,
            start,
            count,
            stride,
            values.len(),
        ) {
            Ok(p) => p,
            Err(e) => {
                return Err(e);
            }
        };
        if !values_in_range(values, plan.total, t) {
            return Err(NcError::Conversion);
        }
        proof {
            assert forall|k: int|
                0 <= k < plan.total implies crate::types::storable(
                #[trigger] values@[k] as int,
            ) by {
                crate::types::lemma_in_range_storable(t, values@[k] as int);
            }
        }
        self.write_planned(v, &plan, values);
        Ok(())
    }
}

/// Everything a successful text write of plan `p` with string `s` does to
/// the file: growth as for numeric writes, the one planned text cell takes
/// the string, and nothing else changes.
pub open spec fn put_text_effect(
    pre: RawFile,
    post: RawFile,
    v: int,
    p: PlanShape,
    s: Seq<u8>,
) -> bool {
    &&& post.groups@ == pre.groups@
    &&& post.path@ == pre.path@
    &&& post.bits == pre.bits
    &&& post.dims@.len() == pre.dims@.len()
    &&& (forall|d: int|
        0 <= d < pre.dims@.len() ==> (#[trigger] post.dims@[d]).len as int == dim_growth(
            pre.vars@[v].dims@,
            p.grow,
            d,
            pre.dims@[d].len as int,
        ))
    &&& (forall|d: int|
        0 <= d < pre.dims@.len() ==> dim_frame(pre.dims@[d], #[trigger] post.dims@[d]))
    &&& post.vars@.len() == pre.vars@.len()
    &&& (forall|u: int| 0 <= u < pre.vars@.len() && u != v ==> post.vars@[u] == pre.vars@[u])
    &&& var_frame(pre.vars@[v], post.vars@[v])
    &&& post.vars@[v].cells == pre.vars@[v].cells
    &&& post.vars@[v].text.lookup(target_key(p.start, p.count, p.stride, 0)) == Some(s)
    &&& (forall|key: Seq<usize>|
        key != target_key(p.start, p.count, p.stride, 0) ==> post.vars@[v].text.lookup(key)
            == pre.vars@[v].text.lookup(key))
}

impl RawFile {
    /// What a single text read of variable `v` returns, for every index
    /// argument: never-written text cells read back as the empty string.
    pub open spec fn string_outcome(self, v: int, index: Option<Seq<usize>>) -> Result<
        Seq<u8>,
        NcError,
    > {
        if !(0 <= v < self.vars@.len()) {
            Err(NcError::NotFound)
        } else if !(self.vars@[v].vartype is Text) {
            Err(NcError::TypeMismatch)
        } else {
            match plan_single_spec(self.shape_spec(v), self.unlimited_spec(v), index, false) {
                PlanOutcome::Refused(e) => Err(e),
                PlanOutcome::Planned(p) => Ok(
                    self.vars@[v].text_value(target_key(p.start, p.count, p.stride, 0)),
                ),
            }
        }
    }

    /// What a single text write of variable `v` does, for every index
    /// argument.
    pub open spec fn put_string_outcome(self, v: int, index: Option<Seq<usize>>) -> Result<
        PlanShape,
        NcError,
    > {
        if !(0 <= v < self.vars@.len()) {
            Err(NcError::NotFound)
        } else if !(self.vars@[v].vartype is Text) {
            Err(NcError::TypeMismatch)
        } else {
            match plan_single_spec(self.shape_spec(v), self.unlimited_spec(v), index, true) {
                PlanOutcome::Refused(e) => Err(e),
                PlanOutcome::Planned(p) => Ok(p),
            }
        }
    }

    /// Reads one whole string element of text variable `v`, as UTF-8
    /// bytes; a missing index addresses the first element, and a
    /// never-written cell reads back empty.
    pub fn string_value(&self, v: usize, index: Option<&Vec<usize>>) -> (r: Result<
        Vec<u8>,
        NcError,
    >)
        requires
            self.wf(),
        ensures
            match (r, self.string_outcome(v as int, opt_view(index))) {
                (Ok(out), Ok(s)) => out@ == s,
                (Err(e1), Err(e2)) => e1 == e2,
                _ => false,
            },
    {
        if v >= self.vars.len() {
            return Err(NcError::NotFound);
        }
        match self.vars[v].vartype {
            VarType::Text => (),
            VarType::Numeric(_) => {
                return Err(NcError::TypeMismatch);
            }
        }
        let shape = match self.shape_of(v) {
            Ok(s) => s,
            Err(e) => {
                return Err(e);
            }
        };
        let unlim = match self.unlimited_of(v) {
            Ok(u) => u,
            Err(e) => {
                return Err(e);
            }
        };
        let plan = match crate::hyperslab::plan_single(&shape, &unlim, index, false) {
            Ok(p) => p,
            Err(e) => {
                return Err(e);
            }
        };
        let key = crate::hyperslab::target_index(&plan, 0);
        proof {
            assert(var_wf(
                self.groups@.len() as int,
                self.dims@.len() as int,
                self.vars@[v as int],
            ));
        }
        match self.vars[v].text.read(&key) {
            Some(b) => Ok(b),
            None => Ok(Vec::new()),
        }
    }

    /// Writes one whole string element of text variable `v`; a missing
    /// index addresses the first element, and an index beyond an unlimited
    /// axis grows that axis, leaving intervening never-written slots to
    /// read back empty.
    pub fn put_string_value(&mut self, v: usize, s: &str, index: Option<&Vec<usize>>) -> (r: Result<
        (),
        NcError,
    >)
        requires
            old(self).wf(),
        ensures
            final(self).wf(),
            match old(self).put_string_outcome(v as int, opt_view(index)) {
                Ok(p) => r == Ok::<(), NcError>(()) && put_text_effect(
                    *old(self),
                    *final(self),
                    v as int,
                    p,
                    s.spec_bytes(),
                ),
                Err(e) => r == Err::<(), NcError>(e) && *final(self) == *old(self),
            },
    {
        if v >= self.vars.len() {
            return Err(NcError::NotFound);
        }
        match self.vars[v].vartype {
            VarType::Text => (),
            VarType::Numeric(_) => {
                return Err(NcError::TypeMismatch);
            }
        }
        let shape = match self.shape_of(v) {
            Ok(sh) => sh,
            Err(e) => {
                return Err(e);
            }
        };
        let unlim = match self.unlimited_of(v) {
            Ok(u) => u,
            Err(e) => {
                return Err(e);
            }
        };
        let plan = match crate::hyperslab::plan_single(&shape, &unlim, index, true) {
            Ok(p) => p,
            Err(e) => {
                return Err(e);
            }
        };
        proof {
            assert(var_wf(
                self.groups@.len() as int,
                self.dims@.len() as int,
                self.vars@[v as int],
            ));
        }
        self.apply_growth(v, &plan.grow);
        let key = crate::hyperslab::target_index(&plan, 0);
        let bytes = vstd::slice::slice_to_vec(s.as_bytes());
        self.vars[v].text.write(key, bytes);
        Ok(())
    }
}

/// Updating one variable without touching its name, owner or axes, and
/// keeping it internally consistent, keeps the file well-formed.
pub proof fn lemma_update_var_wf(pre: RawFile, post: RawFile, v: int)
    requires
        pre.wf(),
        0 <= v < pre.vars@.len(),
        post.groups@ == pre.groups@,
        post.dims@ == pre.dims@,
        post.path@ == pre.path@,
        post.bits == pre.bits,
        post.vars@.len() == pre.vars@.len(),
        forall|u: int| 0 <= u < pre.vars@.len() && u != v ==> post.vars@[u] == pre.vars@[u],
        post.vars@[v].name@ == pre.vars@[v].name@,
        post.vars@[v].owner == pre.vars@[v].owner,
        post.vars@[v].dims@ == pre.vars@[v].dims@,
        post.vars@[v].wf(),
    ensures
        post.wf(),
{
    assert forall|u: int| 0 <= u < post.vars@.len() implies #[trigger] var_wf(
        post.groups@.len() as int,
        post.dims@.len() as int,
        post.vars@[u],
    ) by {
        assert(var_wf(pre.groups@.len() as int, pre.dims@.len() as int, pre.vars@[u]));
        if u == v {
            assert forall|i: int|
                0 <= i < post.vars@[u].dims@.len() implies (#[trigger] post.vars@[u].dims@[i])
                < post.dims@.len() by {
                assert(pre.vars@[u].dims@[i] < pre.dims@.len());
            }
        }
    }
    assert forall|i: int, j: int| 0 <= i < j < post.vars@.len() implies !var_clash(
        #[trigger] post.vars@[i],
        #[trigger] post.vars@[j],
    ) by {
        assert(!var_clash(pre.vars@[i], pre.vars@[j]));
    }
}

impl RawFile {
    /// Configures the fill value of numeric variable `v`: from then on (and
    /// for cells grown but never written before) never-written cells read
    /// back as `value`, and the value is visible as the reserved fill
    /// attribute.  Already-written cells are untouched.  The representation
    /// must be the variable's own element type, and the value must lie in
    /// its range.
    pub fn set_fill_value(&mut self, v: usize, rep: NumericType, value: i128) -> (r: Result<
        (),
        NcError,
    >)
        requires
            old(self).wf(),
        ensures
            final(self).wf(),
            !(v < old(self).vars@.len()) ==> r == Err::<(), NcError>(NcError::NotFound) && *final(self) == *old(self),
            v < old(self).vars@.len() && old(self).vars@[v as int].vartype != VarType::Numeric(rep)
                ==> r == Err::<(), NcError>(NcError::TypeMismatch) && *final(self) == *old(self),
            v < old(self).vars@.len() && old(self).vars@[v as int].vartype == VarType::Numeric(rep)
                && !rep.in_range(value as int) ==> r == Err::<(), NcError>(NcError::Conversion)
                && *final(self) == *old(self),
            v < old(self).vars@.len() && old(self).vars@[v as int].vartype == VarType::Numeric(rep)
                && rep.in_range(value as int) ==> r == Ok::<(), NcError>(()) && fill_set_effect(
                *old(self),
                *final(self),
                v as int,
                value,
            ),
    {
        if v >= self.vars.len() {
            return Err(NcError::NotFound);
        }
        let matches_type: bool = match self.vars[v].vartype {
            VarType::Numeric(t) => t == rep,
            VarType::Text => false,
        };
        if !matches_type {
            return Err(NcError::TypeMismatch);
        }
        if !rep.accepts(value) {
            return Err(NcError::Conversion);
        }
        let ghost pre = *self;
        self.vars[v].fill = Some(value);
        self.vars[v].fill_enabled = true;
        proof {
            assert(var_wf(pre.groups@.len() as int, pre.dims@.len() as int, pre.vars@[v as int]));
            lemma_update_var_wf(pre, *self, v as int);
        }
        Ok(())
    }

    /// Switches variable `v` to no-fill mode: the fill attribute leaves
    /// view, and the content of cells grown but never written is no longer
    /// promised.  The engine retains a previously set fill value, and this
    /// model preserves that quirk: such cells still read back as the
    /// retained value.
    pub fn set_no_fill(&mut self, v: usize) -> (r: Result<(), NcError>)
        requires
            old(self).wf(),
        ensures
            final(self).wf(),
            !(v < old(self).vars@.len()) ==> r == Err::<(), NcError>(NcError::NotFound) && *final(self) == *old(self),
            v < old(self).vars@.len() && !(old(self).vars@[v as int].vartype is Numeric) ==> r
                == Err::<(), NcError>(NcError::TypeMismatch) && *final(self) == *old(self),
            v < old(self).vars@.len() && old(self).vars@[v as int].vartype is Numeric ==> r == Ok::<
                (),
                NcError,
            >(()) && fill_mode_effect(*old(self), *final(self), v as int, false),
    {
        if v >= self.vars.len() {
            return Err(NcError::NotFound);
        }
        match self.vars[v].vartype {
            VarType::Numeric(_) => (),
            VarType::Text => {
                return Err(NcError::TypeMismatch);
            }
        }
        let ghost pre = *self;
        self.vars[v].fill_enabled = false;
        proof {
            assert(var_wf(pre.groups@.len() as int, pre.dims@.len() as int, pre.vars@[v as int]));
            lemma_update_var_wf(pre, *self, v as int);
        }
        Ok(())
    }

    /// Switches variable `v` back to fill mode without changing the
    /// configured value.
    pub fn set_fill_on(&mut self, v: usize) -> (r: Result<(), NcError>)
        requires
            old(self).wf(),
        ensures
            final(self).wf(),
            !(v < old(self).vars@.len()) ==> r == Err::<(), NcError>(NcError::NotFound) && *final(self) == *old(self),
            v < old(self).vars@.len() && !(old(self).vars@[v as int].vartype is Numeric) ==> r
                == Err::<(), NcError>(NcError::TypeMismatch) && *final(self) == *old(self),
            v < old(self).vars@.len() && old(self).vars@[v as int].vartype is Numeric ==> r == Ok::<
                (),
                NcError,
            >(()) && fill_mode_effect(*old(self), *final(self), v as int, true),
    {
        if v >= self.vars.len() {
            return Err(NcError::NotFound);
        }
        match self.vars[v].vartype {
            VarType::Numeric(_) => (),
            VarType::Text => {
                return Err(NcError::TypeMismatch);
            }
        }
        let ghost pre = *self;
        self.vars[v].fill_enabled = true;
        proof {
            assert(var_wf(pre.groups@.len() as int, pre.dims@.len() as int, pre.vars@[v as int]));
            lemma_update_var_wf(pre, *self, v as int);
        }
        Ok(())
    }

    /// The fill value of numeric variable `v` as the fill attribute shows
    /// it: the configured value in fill mode, nothing in no-fill mode or
    /// when none was ever configured.  The representation must be the
    /// variable's own element type.
    pub fn fill_value(&self, v: usize, rep: NumericType) -> (r: Result<Option<i128>, NcError>)
        requires
            self.wf(),
        ensures
            match r {
                Ok(f) => {
                    &&& v < self.vars@.len()
                    &&& self.vars@[v as int].vartype == VarType::Numeric(rep)
                    &&& f == (if self.vars@[v as int].fill_enabled {
                        self.vars@[v as int].fill
                    } else {
                        None
                    })
                },
                Err(e) => (e == NcError::NotFound && !(v < self.vars@.len())) || (e
                    == NcError::TypeMismatch && v < self.vars@.len() && self.vars@[v as int].vartype
                    != VarType::Numeric(rep)),
            },
    {
        if v >= self.vars.len() {
            return Err(NcError::NotFound);
        }
        let matches_type: bool = match self.vars[v].vartype {
            VarType::Numeric(t) => t == rep,
            VarType::Text => false,
        };
        if !matches_type {
            return Err(NcError::TypeMismatch);
        }
        if self.vars[v].fill_enabled {
            Ok(self.vars[v].fill)
        } else {
            Ok(None)
        }
    }

    /// Configures per-axis chunk sizes for variable `v`; the vector must
    /// have exactly one entry per axis.  To take effect in the engine this
    /// must happen before the first write; the model only records it.
    pub fn set_chunking(&mut self, v: usize, sizes: &Vec<usize>) -> (r: Result<(), NcError>)
        requires
            old(self).wf(),
        ensures
            final(self).wf(),
            !(v < old(self).vars@.len()) ==> r == Err::<(), NcError>(NcError::NotFound) && *final(self) == *old(self),
            v < old(self).vars@.len() && sizes@.len() != old(self).vars@[v as int].dims@.len()
                ==> r == Err::<(), NcError>(NcError::InvalidStride) && *final(self) == *old(self),
            v < old(self).vars@.len() && sizes@.len() == old(self).vars@[v as int].dims@.len()
                ==> r == Ok::<(), NcError>(()) && option_effect(
                *old(self),
                *final(self),
                v as int,
            ) && (final(self).vars@[v as int].chunking matches Some(c) && c@ == sizes@),
    {
        if v >= self.vars.len() {
            return Err(NcError::NotFound);
        }
        if sizes.len() != self.vars[v].dims.len() {
            return Err(NcError::InvalidStride);
        }
        let ghost pre = *self;
        let copy = crate::hyperslab::copy_usizes(sizes);
        self.vars[v].chunking = Some(copy);
        proof {
            assert(var_wf(pre.groups@.len() as int, pre.dims@.len() as int, pre.vars@[v as int]));
            lemma_update_var_wf(pre, *self, v as int);
        }
        Ok(())
    }

    /// Configures the compression level of variable `v`, 0 to 9; the model
    /// only records it.
    pub fn set_compression(&mut self, v: usize, level: u32) -> (r: Result<(), NcError>)
        requires
            old(self).wf(),
        ensures
            final(self).wf(),
            !(v < old(self).vars@.len()) ==> r == Err::<(), NcError>(NcError::NotFound) && *final(self) == *old(self),
            v < old(self).vars@.len() && level > 9 ==> r == Err::<(), NcError>(
                NcError::EngineError(CODE_INVALID_ARG),
            ) && *final(self) == *old(self),
            v < old(self).vars@.len() && level <= 9 ==> r == Ok::<(), NcError>(()) && option_effect(
                *old(self),
                *final(self),
                v as int,
            ) && final(self).vars@[v as int].compression == Some(level),
    {
        if v >= self.vars.len() {
            return Err(NcError::NotFound);
        }
        if level > 9 {
            return Err(NcError::EngineError(CODE_INVALID_ARG));
        }
        let ghost pre = *self;
        self.vars[v].compression = Some(level);
        proof {
            assert(var_wf(pre.groups@.len() as int, pre.dims@.len() as int, pre.vars@[v as int]));
            lemma_update_var_wf(pre, *self, v as int);
        }
        Ok(())
    }
}

/// What setting a fill value leaves behind: only the fill state of `v`
/// changes, to the given value with fill mode on.
pub open spec fn fill_set_effect(pre: RawFile, post: RawFile, v: int, value: i128) -> bool {
    &&& option_effect(pre, post, v)
    &&& post.vars@[v].fill == Some(value)
    &&& post.vars@[v].fill_enabled == true
    &&& post.vars@[v].chunking == pre.vars@[v].chunking
    &&& post.vars@[v].compression == pre.vars@[v].compression
}

/// What switching fill mode leaves behind: only the flag of `v` changes;
/// the configured value is retained either way.
pub open spec fn fill_mode_effect(pre: RawFile, post: RawFile, v: int, enabled: bool) -> bool {
    &&& option_effect(pre, post, v)
    &&& post.vars@[v].fill == pre.vars@[v].fill
    &&& post.vars@[v].fill_enabled == enabled
    &&& post.vars@[v].chunking == pre.vars@[v].chunking
    &&& post.vars@[v].compression == pre.vars@[v].compression
}

/// The frame of every per-variable configuration change: everything in the
/// file except variable `v`'s own configuration fields stays as it was.
pub open spec fn option_effect(pre: RawFile, post: RawFile, v: int) -> bool {
    &&& post.groups@ == pre.groups@
    &&& post.dims@ == pre.dims@
    &&& post.path@ == pre.path@
    &&& post.bits == pre.bits
    &&& post.vars@.len() == pre.vars@.len()
    &&& (forall|u: int| 0 <= u < pre.vars@.len() && u != v ==> post.vars@[u] == pre.vars@[u])
    &&& post.vars@[v].name@ == pre.vars@[v].name@
    &&& post.vars@[v].owner == pre.vars@[v].owner
    &&& post.vars@[v].vartype == pre.vars@[v].vartype
    &&& post.vars@[v].dims@ == pre.vars@[v].dims@
    &&& post.vars@[v].cells == pre.vars@[v].cells
    &&& post.vars@[v].text == pre.vars@[v].text
}

/// The prefix of `s` before its first NUL byte (all of `s` if none).
pub open spec fn nul_prefix(s: Seq<u8>) -> Seq<u8>
    decreases s.len(),
{
    if s.len() == 0 {
        s
    } else if s[0] == 0 {
        Seq::empty()
    } else {
        seq![s[0]] + nul_prefix(s.drop_first())
    }
}

/// A prefix free of NUL bytes that ends at the first NUL, or at the end, is
/// the `nul_prefix`.
pub proof fn lemma_nul_prefix(s: Seq<u8>, i: int)
    requires
        0 <= i <= s.len(),
        forall|j: int| 0 <= j < i ==> s[j] != 0,
        i < s.len() ==> s[i] == 0,
    ensures
        nul_prefix(s) == s.take(i),
    decreases s.len(),
{
    if s.len() == 0 {
        assert(s.take(i) =~= s);
    } else if i == 0 {
        assert(s.take(0) =~= Seq::<u8>::empty());
    } else {
        assert(s[0] != 0);
        lemma_nul_prefix(s.drop_first(), i - 1);
        assert(seq![s[0]] + s.drop_first().take(i - 1) =~= s.take(i));
    }
}

/// A read-only handle on an open container.
///
/// The handle owns the whole engine state; every query goes through
/// [`File::engine`], whose shared borrow is the serialization point for the
/// call.  A `File` offers no way to reach the state mutably.
#[derive(Debug)]
pub struct File {
    raw: RawFile,
}

impl File {
    /// The engine state behind the handle, as the contracts speak of it.
    pub closed spec fn state(self) -> RawFile {
        self.raw
    }

    /// The handle's invariant: the engine state is well-formed.
    pub open spec fn wf(self) -> bool {
        self.state().wf()
    }

    /// Borrows the engine for one or more read-only calls.
    pub fn engine(&self) -> (r: &RawFile)
        ensures
            *r == self.state(),
    {
        &self.raw
    }

    /// Produces the byte image of the container, fit for `open` or
    /// `append`.
    pub fn to_bytes(&self) -> (r: Vec<u8>)
        requires
            self.wf(),
        ensures
            r@ == crate::codec::image_spec(self.state()),
    {
        crate::codec::to_image(&self.raw)
    }

    /// Wraps engine state in a read-only handle.
    pub fn from_raw(raw: RawFile) -> (r: File)
        ensures
            r.state() == raw,
    {
        File { raw }
    }
}

/// A writable handle on an open container.
///
/// Every call into the engine goes through [`MutableFile::engine`] or
/// [`MutableFile::engine_mut`]; Rust's borrow rules make each such call the
/// sole access to the non-reentrant engine state for its duration, on every
/// exit path.
#[derive(Debug)]
pub struct MutableFile {
    raw: RawFile,
}

impl MutableFile {
    /// The engine state behind the handle, as the contracts speak of it.
    pub closed spec fn state(self) -> RawFile {
        self.raw
    }

    /// The handle's invariant: the engine state is well-formed.
    pub open spec fn wf(self) -> bool {
        self.state().wf()
    }

    /// Borrows the engine for one or more read-only calls.
    pub fn engine(&self) -> (r: &RawFile)
        ensures
            *r == self.state(),
    {
        &self.raw
    }

    /// Borrows the engine for one or more mutating calls.
    pub fn engine_mut(&mut self) -> (r: &mut RawFile)
        ensures
            *r == old(self).state(),
            final(self).state() == *final(r),
    {
        &mut self.raw
    }

    /// Produces the byte image of the container, fit for `open` or
    /// `append`.
    pub fn to_bytes(&self) -> (r: Vec<u8>)
        requires
            self.wf(),
        ensures
            r@ == crate::codec::image_spec(self.state()),
    {
        crate::codec::to_image(&self.raw)
    }

    /// Wraps engine state in a writable handle.
    pub fn from_raw(raw: RawFile) -> (r: MutableFile)
        ensures
            r.state() == raw,
    {
        MutableFile { raw }
    }

    /// Gives up write access, leaving a read-only handle on the same
    /// state.
    pub fn into_read_only(self) -> (r: File)
        ensures
            r.state() == self.state(),
    {
        File { raw: self.raw }
    }
}

impl RawFile {
    /// The handles of the dimensions group `g` defines directly, in
    /// ascending handle order: exactly those whose owner is `g`.
    pub fn dimensions_in(&self, g: usize) -> (r: Vec<usize>)
        ensures
            forall|j: int|
                0 <= j < r@.len() ==> (#[trigger] r@[j]) < self.dims@.len()
                    && self.dims@[r@[j] as int].owner == g,
            forall|d: int|
                0 <= d < self.dims@.len() && (#[trigger] self.dims@[d]).owner == g ==> r@.contains(
                    d as usize,
                ),
            forall|j: int, k: int| 0 <= j < k < r@.len() ==> r@[j] < r@[k],
    {
        let mut r: Vec<usize> = Vec::new();
        let mut i: usize = 0;
        while i < self.dims.len()
            invariant
                i <= self.dims@.len(),
                forall|j: int|
                    0 <= j < r@.len() ==> (#[trigger] r@[j]) < i && self.dims@[r@[j] as int].owner
                        == g,
                forall|d: int|
                    0 <= d < i && (#[trigger] self.dims@[d]).owner == g ==> r@.contains(d as usize),
                forall|j: int, k: int| 0 <= j < k < r@.len() ==> r@[j] < r@[k],
            decreases self.dims@.len() - i,
        {
            if self.dims[i].owner == g {
                let ghost pre = r@;
                r.push(i);
                proof {
                    assert forall|d: int|
                        0 <= d < i + 1 && (#[trigger] self.dims@[d]).owner
                            == g implies r@.contains(d as usize) by {
                        if d < i {
                            let w = choose|w: int| 0 <= w < pre.len() && pre[w] == d as usize;
                            assert(r@[w] == d as usize);
                        } else {
                            assert(r@[pre.len() as int] == i);
                        }
                    }
                }
            }
            i = i + 1;
        }
        r
    }

    /// The handles of the variables group `g` defines directly, in
    /// ascending handle order: exactly those whose owner is `g`.
    pub fn variables_in(&self, g: usize) -> (r: Vec<usize>)
        ensures
            forall|j: int|
                0 <= j < r@.len() ==> (#[trigger] r@[j]) < self.vars@.len()
                    && self.vars@[r@[j] as int].owner == g,
            forall|v: int|
                0 <= v < self.vars@.len() && (#[trigger] self.vars@[v]).owner == g ==> r@.contains(
                    v as usize,
                ),
            forall|j: int, k: int| 0 <= j < k < r@.len() ==> r@[j] < r@[k],
    {
        let mut r: Vec<usize> = Vec::new();
        let mut i: usize = 0;
        while i < self.vars.len()
            invariant
                i <= self.vars@.len(),
                forall|j: int|
                    0 <= j < r@.len() ==> (#[trigger] r@[j]) < i && self.vars@[r@[j] as int].owner
                        == g,
                forall|v: int|
                    0 <= v < i && (#[trigger] self.vars@[v]).owner == g ==> r@.contains(v as usize),
                forall|j: int, k: int| 0 <= j < k < r@.len() ==> r@[j] < r@[k],
            decreases self.vars@.len() - i,
        {
            if self.vars[i].owner == g {
                let ghost pre = r@;
                r.push(i);
                proof {
                    assert forall|v: int|
                        0 <= v < i + 1 && (#[trigger] self.vars@[v]).owner
                            == g implies r@.contains(v as usize) by {
                        if v < i {
                            let w = choose|w: int| 0 <= w < pre.len() && pre[w] == v as usize;
                            assert(r@[w] == v as usize);
                        } else {
                            assert(r@[pre.len() as int] == i);
                        }
                    }
                }
            }
            i = i + 1;
        }
        r
    }

    /// The indices of the child groups of `parent`, in ascending order:
    /// exactly those whose parent link names `parent`.
    pub fn groups_in(&self, parent: usize) -> (r: Vec<usize>)
        ensures
            forall|j: int|
                0 <= j < r@.len() ==> (#[trigger] r@[j]) < self.groups@.len()
                    && self.groups@[r@[j] as int].parent == Some(parent),
            forall|c: int|
                0 <= c < self.groups@.len() && (#[trigger] self.groups@[c]).parent == Some(parent)
                    ==> r@.contains(c as usize),
            forall|j: int, k: int| 0 <= j < k < r@.len() ==> r@[j] < r@[k],
    {
        let mut r: Vec<usize> = Vec::new();
        let mut i: usize = 0;
        while i < self.groups.len()
            invariant
                i <= self.groups@.len(),
                forall|j: int|
                    0 <= j < r@.len() ==> (#[trigger] r@[j]) < i
                        && self.groups@[r@[j] as int].parent == Some(parent),
                forall|c: int|
                    0 <= c < i && (#[trigger] self.groups@[c]).parent == Some(parent)
                        ==> r@.contains(c as usize),
                forall|j: int, k: int| 0 <= j < k < r@.len() ==> r@[j] < r@[k],
            decreases self.groups@.len() - i,
        {
            let is_child: bool = match self.groups[i].parent {
                Some(p) => p == parent,
                None => false,
            };
            if is_child {
                let ghost pre = r@;
                r.push(i);
                proof {
                    assert forall|c: int|
                        0 <= c < i + 1 && (#[trigger] self.groups@[c]).parent == Some(
                            parent,
                        ) implies r@.contains(c as usize) by {
                        if c < i {
                            let w = choose|w: int| 0 <= w < pre.len() && pre[w] == c as usize;
                            assert(r@[w] == c as usize);
                        } else {
                            assert(r@[pre.len() as int] == i);
                        }
                    }
                }
            }
            i = i + 1;
        }
        r
    }
}

} // verus!
