//! The rules of the staged tree: which stage directories may be emptied, and
//! how a path is resolved lexically (`.` dropped, `..` taking back the last
//! name, links not followed).
//!
//! Paths come here as their components (as `std::path::Path::components`
//! gives them), each component as its bytes.

use vstd::prelude::*;

verus! {

/// Why a stage directory is refused.
#[derive(PartialEq, Eq, Structural, Debug, Clone, Copy)]
pub enum StageRefusal {
    /// The stage path is empty or the file system root.
    EmptyOrRoot,
    /// The stage is the repository root itself: emptying it would delete the sources.
    SameAsRoot,
    /// The stage contains the repository root.
    AncestorOfRoot,
}

/// The components of a path, each as its bytes.
pub open spec fn parts_view(p: Seq<Vec<u8>>) -> Seq<Seq<u8>> {
    p.map_values(|c: Vec<u8>| c@)
}

/// The path `/` alone.
pub open spec fn is_fs_root(p: Seq<Seq<u8>>) -> bool {
    p.len() == 1 && p[0] == seq![47u8]
}

/// `a` is `b` or one of its ancestors, component by component
/// (`Path::starts_with`).
pub open spec fn is_ancestor_or_same(a: Seq<Seq<u8>>, b: Seq<Seq<u8>>) -> bool {
    a.len() <= b.len() && b.take(a.len() as int) == a
}

/// The verdict on a stage directory, given the repository root.
pub open spec fn stage_verdict(stage: Seq<Seq<u8>>, root: Seq<Seq<u8>>) -> Result<(), StageRefusal> {
    if stage.len() == 0 || is_fs_root(stage) {
        Err(StageRefusal::EmptyOrRoot)
    } else if stage == root {
        Err(StageRefusal::SameAsRoot)
    } else if is_ancestor_or_same(stage, root) {
        Err(StageRefusal::AncestorOfRoot)
    } else {
        Ok(())
    }
}

fn same_bytes(a: &Vec<u8>, b: &Vec<u8>) -> (r: bool)
    ensures
        r == (a@ == b@),
{
    if a.len() != b.len() {
        return false;
    }
    let mut i: usize = 0;
    while i < a.len()
        invariant
            i <= a@.len() == b@.len(),
            a@.take(i as int) == b@.take(i as int),
        decreases a.len() - i,
    {
        if a[i] != b[i] {
            return false;
        }
        assert(a@.take(i + 1) == a@.take(i as int).push(a@[i as int]));
        assert(b@.take(i + 1) == b@.take(i as int).push(b@[i as int]));
        i += 1;
    }
    assert(a@ == a@.take(i as int));
    assert(b@ == b@.take(i as int));
    true
}

/// Whether the first `n` components of two paths agree.
fn same_prefix(a: &Vec<Vec<u8>>, b: &Vec<Vec<u8>>, n: usize) -> (r: bool)
    requires
        n <= a@.len(),
        n <= b@.len(),
    ensures
        r == (parts_view(a@).take(n as int) == parts_view(b@).take(n as int)),
{
    let ghost av = parts_view(a@);
    let ghost bv = parts_view(b@);
    let mut i: usize = 0;
    while i < n
        invariant
            i <= n <= a@.len(),
            n <= b@.len(),
            av == parts_view(a@),
            bv == parts_view(b@),
            av.take(i as int) == bv.take(i as int),
        decreases n - i,
    {
        if !same_bytes(&a[i], &b[i]) {
            assert(av.take(n as int)[i as int] == av[i as int]);
            assert(bv.take(n as int)[i as int] == bv[i as int]);
            return false;
        }
        assert(av.take(i + 1) == av.take(i as int).push(av[i as int]));
        assert(bv.take(i + 1) == bv.take(i as int).push(bv[i as int]));
        i += 1;
    }
    true
}

/// Whether `stage` may be emptied and recreated as the staged tree of the
/// repository at `root`: refused when it is empty or `/`, when it is the
/// repository root, and when it contains the repository root.
pub fn check_stage(stage: &Vec<Vec<u8>>, root: &Vec<Vec<u8>>) -> (r: Result<(), StageRefusal>)
    ensures
        r == stage_verdict(parts_view(stage@), parts_view(root@)),
{
    let ghost sv = parts_view(stage@);
    let ghost rv = parts_view(root@);
    assert(sv.len() == stage@.len());
    assert(rv.len() == root@.len());
    if stage.len() == 0 {
        return Err(StageRefusal::EmptyOrRoot);
    }
    if stage.len() == 1 {
        let c = &stage[0];
        if c.len() == 1 && c[0] == 47u8 {
            assert(sv[0] == seq![47u8]);
            return Err(StageRefusal::EmptyOrRoot);
        }
        assert(!(sv[0] =~= seq![47u8]));
    }
    assert(sv.take(sv.len() as int) =~= sv);
    if stage.len() <= root.len() && same_prefix(stage, root, stage.len()) {
        if stage.len() == root.len() {
            assert(rv.take(rv.len() as int) == rv);
            return Err(StageRefusal::SameAsRoot);
        }
        return Err(StageRefusal::AncestorOfRoot);
    }
    proof {
        if sv == rv {
            assert(rv.take(sv.len() as int) =~= rv);
        }
    }
    Ok(())
}

/// An accepted stage directory is never the repository root or a directory
/// that contains it, so emptying it leaves the sources alone.
pub proof fn law_accepted_stage_spares_root(stage: Seq<Seq<u8>>, root: Seq<Seq<u8>>)
    requires
        stage_verdict(stage, root) is Ok,
    ensures
        !is_ancestor_or_same(stage, root),
        stage.len() > 0,
{
    if stage == root {
        assert(root.take(stage.len() as int) =~= root);
    }
}

/// A path component, by kind (`std::path::Component`).
#[derive(PartialEq, Eq, Structural, Debug, Clone, Copy)]
pub enum PartKind {
    /// A prefix or the root directory: never taken back.
    Root,
    /// `.`
    Current,
    /// `..`
    Parent,
    /// A name.
    Normal,
}

/// The components kept after the first `n` of `kinds`, by index: `.` is
/// dropped, `..` takes back the last kept name (but never the root), anything
/// else is kept.
pub open spec fn lexical_parts(kinds: Seq<PartKind>, n: int) -> Seq<int>
    decreases n,
{
    if n <= 0 {
        Seq::empty()
    } else {
        let st = lexical_parts(kinds, n - 1);
        let i = n - 1;
        match kinds[i] {
            PartKind::Current => st,
            PartKind::Parent => {
                if st.len() > 0 && kinds[st.last()] != PartKind::Root {
                    st.drop_last()
                } else {
                    st
                }
            },
            _ => st.push(i),
        }
    }
}

/// The indices of the components that make up the lexically resolved path,
/// in order.
pub fn resolve_parts(kinds: &Vec<PartKind>) -> (r: Vec<usize>)
    ensures
        r@.map_values(|i: usize| i as int) == lexical_parts(kinds@, kinds@.len() as int),
{
    let mut out: Vec<usize> = Vec::new();
    let mut i: usize = 0;
    while i < kinds.len()
        invariant
            i <= kinds@.len(),
            out@.map_values(|x: usize| x as int) == lexical_parts(kinds@, i as int),
            forall|k: int| 0 <= k < out@.len() ==> out@[k] < i,
        decreases kinds.len() - i,
    {
        let ghost before = out@;
        match kinds[i] {
            PartKind::Current => {},
            PartKind::Parent => {
                if out.len() > 0 {
                    let last = out[out.len() - 1];
                    if kinds[last] != PartKind::Root {
                        out.pop();
                        assert(out@ == before.drop_last());
                    }
                }
            },
            _ => {
                out.push(i);
            },
        }
        proof {
            let lp = lexical_parts(kinds@, i as int);
            assert(before.map_values(|x: usize| x as int) == lp);
            if before.len() > 0 {
                assert(lp.last() == before.last() as int);
            }
            assert(out@.map_values(|x: usize| x as int) =~= lexical_parts(kinds@, i + 1));
        }
        i += 1;
    }
    out
}

/// A resolved path holds no `.` and no `..`, and keeps its components in
/// their order.
pub proof fn law_resolved_parts_plain(kinds: Seq<PartKind>, n: int)
    requires
        0 <= n <= kinds.len(),
    ensures
        forall|k: int|
            0 <= k < lexical_parts(kinds, n).len() ==> {
                let i = #[trigger] lexical_parts(kinds, n)[k];
                &&& 0 <= i < n
                &&& kinds[i] == PartKind::Root || kinds[i] == PartKind::Normal
            },
        forall|a: int, b: int|
            0 <= a < b < lexical_parts(kinds, n).len() ==> lexical_parts(kinds, n)[a] < lexical_parts(
                kinds,
                n,
            )[b],
    decreases n,
{
    if n > 0 {
        law_resolved_parts_plain(kinds, n - 1);
        let st = lexical_parts(kinds, n - 1);
        let r = lexical_parts(kinds, n);
        if kinds[n - 1] == PartKind::Parent && st.len() > 0 && kinds[st.last()] != PartKind::Root {
            assert forall|k: int| 0 <= k < r.len() implies r[k] == st[k] by {}
        }
    }
}

} // verus!
