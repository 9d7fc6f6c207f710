use vstd::prelude::*;
use crate::text::{lex_lt, str_lt, str_eq, lemma_lex_trichotomy, lemma_lex_trans, lemma_lex_irrefl};

verus! {

/// A registered, watched directory.
pub struct Codebase {
    /// Opaque identifier, unique within the registry and immutable for
    /// the lifetime of the entry.
    pub id: String,
    /// Absolute, canonicalized directory path.
    pub path: String,
}

/// The mathematical value of a `Codebase`.
#[verifier::ext_equal]
pub ghost struct CodebaseView {
    pub id: Seq<char>,
    pub path: Seq<char>,
}

impl View for Codebase {
    type V = CodebaseView;

    open spec fn view(&self) -> CodebaseView {
        CodebaseView { id: self.id@, path: self.path@ }
    }
}

impl Codebase {
    /// A field-for-field copy.
    pub fn duplicate(&self) -> (r: Codebase)
        ensures
            r@ == self@,
    {
        let r = Codebase { id: self.id.clone(), path: self.path.clone() };
        assert(r@ =~= self@);
        r
    }
}

/// The persisted mapping of codebase id to codebase.
///
/// Entries are held in strictly ascending id order, which keys the map
/// and makes enumeration deterministic.
pub struct Registry {
    pub codebases: Vec<Codebase>,
}

/// Ids strictly ascending along the sequence.
pub open spec fn sorted_by_id(s: Seq<CodebaseView>) -> bool {
    forall|i: int, j: int| 0 <= i < j < s.len()
        ==> lex_lt((#[trigger] s[i]).id, (#[trigger] s[j]).id)
}

pub open spec fn contains_id(s: Seq<CodebaseView>, id: Seq<char>) -> bool {
    exists|i: int| 0 <= i < s.len() && (#[trigger] s[i]).id == id
}

pub open spec fn contains_path(s: Seq<CodebaseView>, path: Seq<char>) -> bool {
    exists|i: int| 0 <= i < s.len() && (#[trigger] s[i]).path == path
}

/// Insertion keeping ascending id order; an entry already under the
/// same id is replaced.
pub open spec fn spec_insert(s: Seq<CodebaseView>, cb: CodebaseView) -> Seq<CodebaseView>
    decreases s.len(),
{
    if s.len() == 0 {
        seq![cb]
    } else if lex_lt(cb.id, s[0].id) {
        seq![cb] + s
    } else if cb.id == s[0].id {
        seq![cb] + s.skip(1)
    } else {
        seq![s[0]] + spec_insert(s.skip(1), cb)
    }
}

/// The sequence with the first entry under `id` removed.
pub open spec fn spec_remove_id(s: Seq<CodebaseView>, id: Seq<char>) -> Seq<CodebaseView>
    decreases s.len(),
{
    if s.len() == 0 {
        s
    } else if s[0].id == id {
        s.skip(1)
    } else {
        seq![s[0]] + spec_remove_id(s.skip(1), id)
    }
}

/// The sequence with the first entry whose path is `path` removed.
pub open spec fn spec_remove_first_path(s: Seq<CodebaseView>, path: Seq<char>) -> Seq<CodebaseView>
    decreases s.len(),
{
    if s.len() == 0 {
        s
    } else if s[0].path == path {
        s.skip(1)
    } else {
        seq![s[0]] + spec_remove_first_path(s.skip(1), path)
    }
}

/// The registry that loading a sequence of entries yields: each
/// inserted in turn at its ordered position.
pub open spec fn spec_load(s: Seq<CodebaseView>) -> Seq<CodebaseView>
    decreases s.len(),
{
    if s.len() == 0 {
        Seq::empty()
    } else {
        spec_insert(spec_load(s.drop_last()), s.last())
    }
}

/// `spec_insert` adds one entry when the id is fresh and replaces in
/// place when it is present.
pub proof fn lemma_spec_insert_len(s: Seq<CodebaseView>, cb: CodebaseView)
    requires
        sorted_by_id(s),
    ensures
        contains_id(s, cb.id) ==> spec_insert(s, cb).len() == s.len(),
        !contains_id(s, cb.id) ==> spec_insert(s, cb).len() == s.len() + 1,
    decreases s.len(),
{
    if s.len() > 0 {
        if lex_lt(cb.id, s[0].id) {
            // a fresh id below the least one cannot occur in the sequence
            if contains_id(s, cb.id) {
                let i = choose|i: int| 0 <= i < s.len() && (#[trigger] s[i]).id == cb.id;
                lemma_lex_irrefl(cb.id);
                if i > 0 {
                    lemma_lex_trans(cb.id, s[0].id, s[i].id);
                }
            }
        } else if cb.id == s[0].id {
            assert(contains_id(s, cb.id));
        } else {
            assert(contains_id(s, cb.id) == contains_id(s.skip(1), cb.id)) by {
                if contains_id(s, cb.id) {
                    let i = choose|i: int| 0 <= i < s.len() && (#[trigger] s[i]).id == cb.id;
                    assert(i != 0);
                    assert(s.skip(1)[i - 1] == s[i]);
                }
                if contains_id(s.skip(1), cb.id) {
                    let i = choose|i: int|
                        0 <= i < s.skip(1).len() && (#[trigger] s.skip(1)[i]).id == cb.id;
                    assert(s[i + 1] == s.skip(1)[i]);
                }
            }
            assert(sorted_by_id(s.skip(1))) by {
                assert(forall|i: int| 0 <= i < s.skip(1).len() ==> s.skip(1)[i] == s[i + 1]);
            }
            lemma_spec_insert_len(s.skip(1), cb);
        }
    }
}

/// `spec_remove_id` drops exactly the named entry.
pub proof fn lemma_spec_remove_id_len(s: Seq<CodebaseView>, id: Seq<char>)
    ensures
        contains_id(s, id) ==> spec_remove_id(s, id).len() == s.len() - 1,
        !contains_id(s, id) ==> spec_remove_id(s, id) == s,
    decreases s.len(),
{
    if s.len() > 0 {
        if s[0].id == id {
            assert(contains_id(s, id));
        } else {
            lemma_spec_remove_id_len(s.skip(1), id);
            assert(contains_id(s, id) == contains_id(s.skip(1), id)) by {
                if contains_id(s, id) {
                    let i = choose|i: int| 0 <= i < s.len() && (#[trigger] s[i]).id == id;
                    assert(i != 0);
                    assert(s.skip(1)[i - 1] == s[i]);
                }
                if contains_id(s.skip(1), id) {
                    let i = choose|i: int|
                        0 <= i < s.skip(1).len() && (#[trigger] s.skip(1)[i]).id == id;
                    assert(s[i + 1] == s.skip(1)[i]);
                }
            }
            if !contains_id(s, id) {
                assert(seq![s[0]] + spec_remove_id(s.skip(1), id) =~= s);
            }
        }
    }
}

/// Splicing a fresh entry in at the least position keeping order is
/// exactly `spec_insert`; so is replacing an equal id in place.
proof fn lemma_spec_insert_at(s: Seq<CodebaseView>, cb: CodebaseView, k: int)
    requires
        0 <= k <= s.len(),
        forall|j: int| 0 <= j < k ==> lex_lt((#[trigger] s[j]).id, cb.id),
        k < s.len() ==> !lex_lt(s[k].id, cb.id),
    ensures
        k < s.len() && s[k].id == cb.id
            ==> spec_insert(s, cb) =~= s.update(k, cb),
        (k == s.len() || s[k].id != cb.id)
            ==> spec_insert(s, cb) =~= s.subrange(0, k) + seq![cb] + s.subrange(k, s.len() as int),
    decreases k,
{
    if k == 0 {
        if s.len() == 0 {
            assert(spec_insert(s, cb) =~= s.subrange(0, 0) + seq![cb] + s.subrange(0, 0));
        } else if s[0].id == cb.id {
            assert(seq![cb] + s.skip(1) =~= s.update(0, cb));
        } else {
            lemma_lex_trichotomy(cb.id, s[0].id);
            assert(lex_lt(cb.id, s[0].id));
            assert(seq![cb] + s =~= s.subrange(0, 0) + seq![cb] + s.subrange(0, s.len() as int));
        }
    } else {
        assert(lex_lt(s[0].id, cb.id));
        lemma_lex_irrefl(s[0].id);
        if lex_lt(cb.id, s[0].id) {
            lemma_lex_trans(s[0].id, cb.id, s[0].id);
        }
        assert(!lex_lt(cb.id, s[0].id) && cb.id != s[0].id);
        let t = s.skip(1);
        assert(forall|j: int| 0 <= j < k - 1 ==> lex_lt((#[trigger] t[j]).id, cb.id)) by {
            assert(forall|j: int| 0 <= j < k - 1 ==> t[j] == s[j + 1]);
        }
        lemma_spec_insert_at(t, cb, k - 1);
        if k < s.len() && s[k].id == cb.id {
            assert(t[k - 1] == s[k]);
            assert(seq![s[0]] + t.update(k - 1, cb) =~= s.update(k, cb));
        } else {
            assert(seq![s[0]] + (t.subrange(0, k - 1) + seq![cb] + t.subrange(k - 1, t.len() as int))
                =~= s.subrange(0, k) + seq![cb] + s.subrange(k, s.len() as int));
        }
    }
}

/// Removing the first occurrence at position `k` is the positional removal.
proof fn lemma_spec_remove_id_at(s: Seq<CodebaseView>, id: Seq<char>, k: int)
    requires
        0 <= k < s.len(),
        s[k].id == id,
        forall|j: int| 0 <= j < k ==> (#[trigger] s[j]).id != id,
    ensures
        spec_remove_id(s, id) =~= s.remove(k),
    decreases k,
{
    if k == 0 {
        assert(spec_remove_id(s, id) == s.skip(1));
        assert(s.skip(1) =~= s.remove(0));
    } else {
        let t = s.skip(1);
        assert(t[k - 1] == s[k]);
        assert(forall|j: int| 0 <= j < k - 1 ==> (#[trigger] t[j]).id != id) by {
            assert(forall|j: int| 0 <= j < k - 1 ==> t[j] == s[j + 1]);
        }
        lemma_spec_remove_id_at(t, id, k - 1);
        assert(seq![s[0]] + t.remove(k - 1) =~= s.remove(k));
    }
}

/// Removing the first path match at position `k` is the positional removal.
proof fn lemma_spec_remove_first_path_at(s: Seq<CodebaseView>, path: Seq<char>, k: int)
    requires
        0 <= k < s.len(),
        s[k].path == path,
        forall|j: int| 0 <= j < k ==> (#[trigger] s[j]).path != path,
    ensures
        spec_remove_first_path(s, path) =~= s.remove(k),
    decreases k,
{
    if k == 0 {
        assert(s.skip(1) =~= s.remove(0));
    } else {
        let t = s.skip(1);
        assert(t[k - 1] == s[k]);
        assert(forall|j: int| 0 <= j < k - 1 ==> (#[trigger] t[j]).path != path) by {
            assert(forall|j: int| 0 <= j < k - 1 ==> t[j] == s[j + 1]);
        }
        lemma_spec_remove_first_path_at(t, path, k - 1);
        assert(seq![s[0]] + t.remove(k - 1) =~= s.remove(k));
    }
}

/// Removing any position from an id-sorted sequence keeps it sorted.
proof fn lemma_remove_keeps_sorted(s: Seq<CodebaseView>, k: int)
    requires
        sorted_by_id(s),
        0 <= k < s.len(),
    ensures
        sorted_by_id(s.remove(k)),
{
    let r = s.remove(k);
    assert forall|i: int, j: int| 0 <= i < j < r.len()
        implies lex_lt((#[trigger] r[i]).id, (#[trigger] r[j]).id) by {
        let i0 = if i < k { i } else { i + 1 };
        let j0 = if j < k { j } else { j + 1 };
        assert(r[i] == s[i0]);
        assert(r[j] == s[j0]);
    }
}

impl View for Registry {
    type V = Seq<CodebaseView>;

    open spec fn view(&self) -> Seq<CodebaseView> {
        self.codebases@.map_values(|c: Codebase| c@)
    }
}

impl Registry {
    /// Well-formed: entries strictly ascending by id.
    pub open spec fn wf(self) -> bool {
        sorted_by_id(self@)
    }

    /// The empty registry.
    pub fn new() -> (r: Registry)
        ensures
            r@ =~= Seq::<CodebaseView>::empty(),
            r.wf(),
    {
        Registry { codebases: Vec::new() }
    }

    pub fn len(&self) -> (n: usize)
        ensures
            n == self@.len(),
    {
        self.codebases.len()
    }

    /// Inserts `cb` at its ordered position, replacing an entry already
    /// under the same id.
    pub fn insert_entry(&mut self, cb: Codebase)
        requires
            old(self).wf(),
        ensures
            final(self)@ == spec_insert(old(self)@, cb@),
            final(self).wf(),
    {
        let n = self.codebases.len();
        let ghost s = self@;
        let ghost cbv = cb@;
        let mut k: usize = 0;
        loop
            invariant
                n == self.codebases@.len(),
                s == self@,
                cbv == cb@,
                k <= n,
                forall|j: int| 0 <= j < k ==> lex_lt((#[trigger] s[j]).id, cbv.id),
            ensures
                k <= n,
                s == self@,
                n == self.codebases@.len(),
                forall|j: int| 0 <= j < k ==> lex_lt((#[trigger] s[j]).id, cbv.id),
                k < n ==> !lex_lt(s[k as int].id, cbv.id),
            decreases n - k,
        {
            if k >= n {
                break;
            }
            assert(s[k as int] == self.codebases@[k as int]@);
            if !str_lt(self.codebases[k].id.as_str(), cb.id.as_str()) {
                break;
            }
            k += 1;
        }
        let ghost ki = k as int;
        assert(k < n ==> s[ki] == self.codebases@[ki]@);
        if k < n && str_eq(self.codebases[k].id.as_str(), cb.id.as_str()) {
            proof {
                lemma_spec_insert_at(s, cbv, ki);
            }
            self.codebases.set(k, cb);
            proof {
                assert(self@ =~= s.update(ki, cbv));
                lemma_sorted_after_insert(s, self@, cbv, ki);
            }
        } else {
            proof {
                lemma_spec_insert_at(s, cbv, ki);
            }
            self.codebases.insert(k, cb);
            proof {
                assert(self@ =~= s.subrange(0, ki) + seq![cbv] + s.subrange(ki, s.len() as int));
                lemma_sorted_after_insert(s, self@, cbv, ki);
            }
        }
    }

    /// Registers a directory: draws a fresh id, inserts the entry, and
    /// returns a copy of it. The path must already be canonical; the
    /// caller rejects paths that do not resolve.
    pub fn add(&mut self, path: String) -> (r: Codebase)
        requires
            old(self).wf(),
        ensures
            final(self).wf(),
            r@.path == path@,
            final(self)@ == spec_insert(old(self)@, r@),
    {
        let id = fresh_id();
        let cb = Codebase { id, path };
        let r = cb.duplicate();
        self.insert_entry(cb);
        r
    }

    /// Removes the entry named by `t`: first as an id, else the first
    /// entry whose canonical path equals `t`; `None` when neither matches.
    pub fn remove_by_id_or_path(&mut self, t: &String) -> (r: Option<Codebase>)
        requires
            old(self).wf(),
        ensures
            final(self).wf(),
            contains_id(old(self)@, t@) ==> {
                &&& r is Some
                &&& r.unwrap()@.id == t@
                &&& final(self)@ == spec_remove_id(old(self)@, t@)
            },
            !contains_id(old(self)@, t@) && contains_path(old(self)@, t@) ==> {
                &&& r is Some
                &&& r.unwrap()@.path == t@
                &&& final(self)@ == spec_remove_first_path(old(self)@, t@)
            },
            !contains_id(old(self)@, t@) && !contains_path(old(self)@, t@) ==> {
                &&& r is None
                &&& final(self)@ == old(self)@
            },
    {
        let n = self.codebases.len();
        let ghost s = self@;
        let mut k: usize = 0;
        loop
            invariant
                n == self.codebases@.len(),
                s == self@,
                k <= n,
                forall|j: int| 0 <= j < k ==> (#[trigger] s[j]).id != t@,
            ensures
                s == self@,
                n == self.codebases@.len(),
                k <= n,
                forall|j: int| 0 <= j < k ==> (#[trigger] s[j]).id != t@,
                k < n ==> s[k as int].id == t@,
            decreases n - k,
        {
            if k >= n {
                break;
            }
            assert(s[k as int] == self.codebases@[k as int]@);
            if str_eq(self.codebases[k].id.as_str(), t.as_str()) {
                break;
            }
            k += 1;
        }
        if k < n {
            let ghost ki = k as int;
            proof {
                assert(contains_id(s, t@));
                lemma_spec_remove_id_at(s, t@, ki);
                lemma_remove_keeps_sorted(s, ki);
            }
            let cb = self.codebases.remove(k);
            proof {
                assert(self@ =~= s.remove(ki));
            }
            return Some(cb);
        }
        assert(!contains_id(s, t@));
        let mut k: usize = 0;
        loop
            invariant
                n == self.codebases@.len(),
                s == self@,
                k <= n,
                forall|j: int| 0 <= j < k ==> (#[trigger] s[j]).path != t@,
            ensures
                s == self@,
                n == self.codebases@.len(),
                k <= n,
                forall|j: int| 0 <= j < k ==> (#[trigger] s[j]).path != t@,
                k < n ==> s[k as int].path == t@,
            decreases n - k,
        {
            if k >= n {
                break;
            }
            assert(s[k as int] == self.codebases@[k as int]@);
            if str_eq(self.codebases[k].path.as_str(), t.as_str()) {
                break;
            }
            k += 1;
        }
        if k < n {
            let ghost ki = k as int;
            proof {
                assert(contains_path(s, t@));
                lemma_spec_remove_first_path_at(s, t@, ki);
                lemma_remove_keeps_sorted(s, ki);
            }
            let cb = self.codebases.remove(k);
            proof {
                assert(self@ =~= s.remove(ki));
            }
            return Some(cb);
        }
        assert(!contains_path(s, t@));
        None
    }

    /// Builds a registry from loaded entries: each inserted at its
    /// ordered position, a later duplicate id replacing an earlier one.
    pub fn from_entries(entries: &Vec<Codebase>) -> (r: Registry)
        ensures
            r.wf(),
            r@ == spec_load(entries@.map_values(|c: Codebase| c@)),
    {
        let ghost views = entries@.map_values(|c: Codebase| c@);
        let mut r = Registry::new();
        let n = entries.len();
        let mut i: usize = 0;
        while i < n
            invariant
                r.wf(),
                n == entries@.len(),
                i <= n,
                views == entries@.map_values(|c: Codebase| c@),
                r@ == spec_load(views.take(i as int)),
            decreases n - i,
        {
            proof {
                assert(views.take(i as int + 1).drop_last() =~= views.take(i as int));
                assert(views.take(i as int + 1).last() == views[i as int]);
                assert(views[i as int] == entries@[i as int]@);
            }
            r.insert_entry(entries[i].duplicate());
            i += 1;
        }
        proof {
            assert(views.take(n as int) =~= views);
        }
        r
    }

    /// A copy of the whole registry, entry for entry.
    pub fn snapshot(&self) -> (r: Registry)
        ensures
            r@ == self@,
    {
        let mut out: Vec<Codebase> = Vec::new();
        let n = self.codebases.len();
        let mut i: usize = 0;
        while i < n
            invariant
                n == self.codebases@.len(),
                i <= n,
                out@.len() == i,
                forall|j: int| 0 <= j < i ==> (#[trigger] out@[j])@ == self@[j],
            decreases n - i,
        {
            assert(self@[i as int] == self.codebases@[i as int]@);
            out.push(self.codebases[i].duplicate());
            i += 1;
        }
        let r = Registry { codebases: out };
        proof {
            assert(r@ =~= self@);
        }
        r
    }

    /// Snapshots the id/path pairs, in id order.
    pub fn items(&self) -> (r: Vec<(String, String)>)
        ensures
            r@.len() == self@.len(),
            forall|i: int| 0 <= i < self@.len()
                ==> (#[trigger] r@[i]).0@ == self@[i].id && r@[i].1@ == self@[i].path,
    {
        let mut r: Vec<(String, String)> = Vec::new();
        let n = self.codebases.len();
        let mut i: usize = 0;
        while i < n
            invariant
                n == self.codebases@.len(),
                i <= n,
                r@.len() == i,
                forall|j: int| 0 <= j < i
                    ==> (#[trigger] r@[j]).0@ == self@[j].id && r@[j].1@ == self@[j].path,
            decreases n - i,
        {
            assert(self@[i as int] == self.codebases@[i as int]@);
            let cb = &self.codebases[i];
            r.push((cb.id.clone(), cb.path.clone()));
            i += 1;
        }
        r
    }
}

/// Relies on `uuid::Uuid::new_v4`, a freshly drawn random version-4
/// identifier, rendered through its hyphenated `Display` form; nothing
/// is assumed of the value.
#[verifier::external_body]
fn fresh_id() -> (r: String) {
    uuid::Uuid::new_v4().to_string()
}

/// One registry mutation, at the model level.
pub ghost enum RegistryOp {
    /// A Register that drew `cb.id` and resolved `cb.path`.
    Register { cb: CodebaseView },
    /// An Unregister naming an id.
    Unregister { id: Seq<char> },
}

/// A Register succeeds freshly when its drawn id is new; an Unregister
/// succeeds when its target is present.
pub open spec fn op_ok(s: Seq<CodebaseView>, op: RegistryOp) -> bool {
    match op {
        RegistryOp::Register { cb } => !contains_id(s, cb.id),
        RegistryOp::Unregister { id } => contains_id(s, id),
    }
}

pub open spec fn apply_op(s: Seq<CodebaseView>, op: RegistryOp) -> Seq<CodebaseView> {
    match op {
        RegistryOp::Register { cb } => spec_insert(s, cb),
        RegistryOp::Unregister { id } => spec_remove_id(s, id),
    }
}

/// Every operation of the run succeeds on the state it meets.
pub open spec fn run_ok(s: Seq<CodebaseView>, ops: Seq<RegistryOp>) -> bool
    decreases ops.len(),
{
    ops.len() == 0 || (op_ok(s, ops[0]) && run_ok(apply_op(s, ops[0]), ops.skip(1)))
}

pub open spec fn run_ops(s: Seq<CodebaseView>, ops: Seq<RegistryOp>) -> Seq<CodebaseView>
    decreases ops.len(),
{
    if ops.len() == 0 {
        s
    } else {
        run_ops(apply_op(s, ops[0]), ops.skip(1))
    }
}

pub open spec fn register_count(ops: Seq<RegistryOp>) -> int
    decreases ops.len(),
{
    if ops.len() == 0 {
        0
    } else {
        (match ops[0] {
            RegistryOp::Register { .. } => 1int,
            RegistryOp::Unregister { .. } => 0int,
        }) + register_count(ops.skip(1))
    }
}

pub open spec fn unregister_count(ops: Seq<RegistryOp>) -> int
    decreases ops.len(),
{
    if ops.len() == 0 {
        0
    } else {
        (match ops[0] {
            RegistryOp::Register { .. } => 0int,
            RegistryOp::Unregister { .. } => 1int,
        }) + unregister_count(ops.skip(1))
    }
}

/// Law: after a run of `n` fresh Registers and `m` successful
/// Unregisters the registry holds exactly `n - m` more entries than it
/// started with, and stays well-formed. The persisted document is
/// rewritten from this state after every mutation, so it shows the same
/// entries.
pub proof fn lemma_registry_net_count(s: Seq<CodebaseView>, ops: Seq<RegistryOp>)
    requires
        sorted_by_id(s),
        run_ok(s, ops),
    ensures
        sorted_by_id(run_ops(s, ops)),
        run_ops(s, ops).len() == s.len() + register_count(ops) - unregister_count(ops),
    decreases ops.len(),
{
    if ops.len() > 0 {
        let s1 = apply_op(s, ops[0]);
        match ops[0] {
            RegistryOp::Register { cb } => {
                lemma_spec_insert_len(s, cb);
                lemma_spec_insert_sorted(s, cb);
            },
            RegistryOp::Unregister { id } => {
                lemma_spec_remove_id_len(s, id);
                lemma_spec_remove_id_sorted(s, id);
            },
        }
        lemma_registry_net_count(s1, ops.skip(1));
    }
}

/// Dropping the head of a sorted sequence keeps it sorted.
proof fn lemma_skip1_sorted(s: Seq<CodebaseView>)
    requires
        sorted_by_id(s),
        s.len() > 0,
    ensures
        sorted_by_id(s.skip(1)),
{
    assert(forall|i: int| 0 <= i < s.skip(1).len() ==> s.skip(1)[i] == s[i + 1]);
}

/// Every entry of `spec_insert(s, cb)` is `cb` or an entry of `s`.
proof fn lemma_spec_insert_id_set(s: Seq<CodebaseView>, cb: CodebaseView)
    ensures
        forall|i: int| 0 <= i < spec_insert(s, cb).len()
            ==> ((#[trigger] spec_insert(s, cb)[i]).id == cb.id
                || contains_id(s, spec_insert(s, cb)[i].id)),
    decreases s.len(),
{
    let r = spec_insert(s, cb);
    if s.len() == 0 {
    } else if lex_lt(cb.id, s[0].id) || cb.id == s[0].id {
        assert forall|i: int| 0 <= i < r.len()
            implies ((#[trigger] r[i]).id == cb.id || contains_id(s, r[i].id)) by {
            if i > 0 {
                if lex_lt(cb.id, s[0].id) {
                    assert(r[i] == s[i - 1]);
                } else {
                    assert(r[i] == s.skip(1)[i - 1]);
                    assert(s.skip(1)[i - 1] == s[i]);
                }
            }
        }
    } else {
        lemma_spec_insert_id_set(s.skip(1), cb);
        assert forall|i: int| 0 <= i < r.len()
            implies ((#[trigger] r[i]).id == cb.id || contains_id(s, r[i].id)) by {
            if i == 0 {
                assert(r[0] == s[0]);
            } else {
                assert(r[i] == spec_insert(s.skip(1), cb)[i - 1]);
                if spec_insert(s.skip(1), cb)[i - 1].id != cb.id {
                    assert(contains_id(s.skip(1), r[i].id));
                    let m = choose|m: int|
                        0 <= m < s.skip(1).len() && (#[trigger] s.skip(1)[m]).id == r[i].id;
                    assert(s[m + 1] == s.skip(1)[m]);
                }
            }
        }
    }
}

/// `spec_insert` keeps the sequence sorted.
pub proof fn lemma_spec_insert_sorted(s: Seq<CodebaseView>, cb: CodebaseView)
    requires
        sorted_by_id(s),
    ensures
        sorted_by_id(spec_insert(s, cb)),
    decreases s.len(),
{
    let r = spec_insert(s, cb);
    if s.len() == 0 {
    } else if lex_lt(cb.id, s[0].id) {
        assert forall|i: int, j: int| 0 <= i < j < r.len()
            implies lex_lt((#[trigger] r[i]).id, (#[trigger] r[j]).id) by {
            if i == 0 {
                assert(r[j] == s[j - 1]);
                if j > 1 {
                    lemma_lex_trans(cb.id, s[0].id, s[j - 1].id);
                }
            } else {
                assert(r[i] == s[i - 1]);
                assert(r[j] == s[j - 1]);
            }
        }
    } else if cb.id == s[0].id {
        assert forall|i: int, j: int| 0 <= i < j < r.len()
            implies lex_lt((#[trigger] r[i]).id, (#[trigger] r[j]).id) by {
            if i == 0 {
                assert(r[j] == s.skip(1)[j - 1]);
                assert(s.skip(1)[j - 1] == s[j]);
            } else {
                assert(r[i] == s[i]);
                assert(r[j] == s[j]);
            }
        }
    } else {
        lemma_lex_trichotomy(cb.id, s[0].id);
        assert(lex_lt(s[0].id, cb.id));
        lemma_skip1_sorted(s);
        lemma_spec_insert_sorted(s.skip(1), cb);
        lemma_spec_insert_id_set(s.skip(1), cb);
        let inner = spec_insert(s.skip(1), cb);
        assert forall|i: int, j: int| 0 <= i < j < r.len()
            implies lex_lt((#[trigger] r[i]).id, (#[trigger] r[j]).id) by {
            if i == 0 {
                assert(r[j] == inner[j - 1]);
                if inner[j - 1].id == cb.id {
                } else {
                    assert(contains_id(s.skip(1), inner[j - 1].id));
                    let m = choose|m: int|
                        0 <= m < s.skip(1).len()
                            && (#[trigger] s.skip(1)[m]).id == inner[j - 1].id;
                    assert(s.skip(1)[m] == s[m + 1]);
                    assert(lex_lt(s[0].id, s[m + 1].id));
                }
            } else {
                assert(r[i] == inner[i - 1]);
                assert(r[j] == inner[j - 1]);
            }
        }
    }
}

/// Sorted sequences have pairwise distinct ids.
pub proof fn lemma_sorted_unique_ids(s: Seq<CodebaseView>)
    requires
        sorted_by_id(s),
    ensures
        forall|i: int, j: int| 0 <= i < j < s.len()
            ==> (#[trigger] s[i]).id != (#[trigger] s[j]).id,
{
    assert forall|i: int, j: int| 0 <= i < j < s.len()
        implies (#[trigger] s[i]).id != (#[trigger] s[j]).id by {
        lemma_lex_irrefl(s[i].id);
    }
}

/// `spec_remove_id` keeps a sorted sequence sorted.
pub proof fn lemma_spec_remove_id_sorted(s: Seq<CodebaseView>, id: Seq<char>)
    requires
        sorted_by_id(s),
    ensures
        sorted_by_id(spec_remove_id(s, id)),
{
    if contains_id(s, id) {
        let k = choose|k: int| 0 <= k < s.len() && (#[trigger] s[k]).id == id;
        lemma_sorted_unique_ids(s);
        assert(forall|j: int| 0 <= j < k ==> (#[trigger] s[j]).id != id);
        lemma_spec_remove_id_at(s, id, k);
        lemma_remove_keeps_sorted(s, k);
    } else {
        lemma_spec_remove_id_len(s, id);
    }
}

/// The spliced or updated sequence stays sorted when `k` was the least
/// position not below the new id.
proof fn lemma_sorted_after_insert(
    s: Seq<CodebaseView>,
    r: Seq<CodebaseView>,
    cb: CodebaseView,
    k: int,
)
    requires
        sorted_by_id(s),
        0 <= k <= s.len(),
        forall|j: int| 0 <= j < k ==> lex_lt((#[trigger] s[j]).id, cb.id),
        k < s.len() ==> !lex_lt(s[k].id, cb.id),
        r == spec_insert(s, cb),
    ensures
        sorted_by_id(r),
{
    lemma_spec_insert_at(s, cb, k);
    if k < s.len() && s[k].id == cb.id {
        assert(r =~= s.update(k, cb));
        assert forall|i: int, j: int| 0 <= i < j < r.len()
            implies lex_lt((#[trigger] r[i]).id, (#[trigger] r[j]).id) by {
            assert(r[i].id == s[i].id);
            assert(r[j].id == s[j].id);
        }
    } else {
        assert(r =~= s.subrange(0, k) + seq![cb] + s.subrange(k, s.len() as int));
        assert forall|i: int, j: int| 0 <= i < j < r.len()
            implies lex_lt((#[trigger] r[i]).id, (#[trigger] r[j]).id) by {
            if k < s.len() {
                lemma_lex_trichotomy(cb.id, s[k].id);
            }
            if i < k {
                assert(r[i] == s[i]);
            } else if i == k {
                assert(r[i] == cb);
            } else {
                assert(r[i] == s[i - 1]);
            }
            if j < k {
                assert(r[j] == s[j]);
            } else if j == k {
                assert(r[j] == cb);
            } else {
                assert(r[j] == s[j - 1]);
            }
            if i < k && j == k {
                // s[i].id < cb.id directly
            } else if i == k && j > k {
                // cb.id < s[k].id <= s[j-1].id
                if j - 1 > k {
                    lemma_lex_trans(cb.id, s[k].id, s[j - 1].id);
                }
            } else if i < k && j > k {
                assert(lex_lt(s[i].id, s[j - 1].id));
            }
        }
    }
}

} // verus!
