//! What unpacking does to the file system, as a list of steps, and the order
//! of these steps.
//!
//! The library touches no file system.  Unpacking an entry gives the step
//! that materialises it; unpacking an archive gives all steps in the order
//! in which they are to be done: files, links and the rest as they come,
//! then the directories, deepest first.

use vstd::prelude::*;
use vstd::seq_lib::{lemma_multiset_commutative, to_multiset_build, to_multiset_insert};
use crate::error::ArchiveError;

verus! {

/// The byte that separates the parts of a path.
pub const SLASH: u8 = 0x2f;

/// One thing to do on the file system.  The parent directories of `path` are
/// created first if they are missing; `mode`, if there is one, is set last.
#[derive(Debug, PartialEq, Eq)]
pub enum UnpackStep {
    /// Create or truncate the file `path` and write `contents` to it.
    File { path: Vec<u8>, contents: Vec<u8>, mode: Option<u32> },
    /// Make sure that the directory `path` exists.
    Directory { path: Vec<u8>, mode: Option<u32> },
    /// Create the symbolic link `path` to `target`.
    Symlink { path: Vec<u8>, target: Vec<u8>, mode: Option<u32> },
    /// A member of another type: nothing to create at `path`.
    Nothing { path: Vec<u8> },
}

/// A step as plain values.
pub enum StepView {
    File { path: Seq<u8>, contents: Seq<u8>, mode: Option<u32> },
    Directory { path: Seq<u8>, mode: Option<u32> },
    Symlink { path: Seq<u8>, target: Seq<u8>, mode: Option<u32> },
    Nothing { path: Seq<u8> },
}

impl StepView {
    /// Where the step works.
    pub open spec fn path(self) -> Seq<u8> {
        match self {
            StepView::File { path, .. } => path,
            StepView::Directory { path, .. } => path,
            StepView::Symlink { path, .. } => path,
            StepView::Nothing { path } => path,
        }
    }

    /// Whether the step makes a directory.
    pub open spec fn is_directory(self) -> bool {
        self is Directory
    }
}

impl View for UnpackStep {
    type V = StepView;

    open spec fn view(&self) -> StepView {
        match self {
            UnpackStep::File { path, contents, mode } => StepView::File {
                path: path@,
                contents: contents@,
                mode: *mode,
            },
            UnpackStep::Directory { path, mode } => StepView::Directory { path: path@, mode: *mode },
            UnpackStep::Symlink { path, target, mode } => StepView::Symlink {
                path: path@,
                target: target@,
                mode: *mode,
            },
            UnpackStep::Nothing { path } => StepView::Nothing { path: path@ },
        }
    }
}

impl UnpackStep {
    /// Where the step works.
    pub fn path(&self) -> (p: &Vec<u8>)
        ensures
            p@ == self@.path(),
    {
        match self {
            UnpackStep::File { path, .. } => path,
            UnpackStep::Directory { path, .. } => path,
            UnpackStep::Symlink { path, .. } => path,
            UnpackStep::Nothing { path } => path,
        }
    }

    /// Whether the step makes a directory.
    pub fn is_directory(&self) -> (r: bool)
        ensures
            r == self@.is_directory(),
    {
        matches!(self, UnpackStep::Directory { .. })
    }
}

/// Index of the first byte of `p` at or after `from` that is no slash.
pub open spec fn skip_slashes(p: Seq<u8>, from: int) -> int
    decreases p.len() - from,
{
    if from < 0 || from >= p.len() || p[from] != 0x2f {
        from
    } else {
        skip_slashes(p, from + 1)
    }
}

/// `p` without the slashes at its start.
pub open spec fn strip_root(p: Seq<u8>) -> Seq<u8> {
    p.subrange(skip_slashes(p, 0), p.len() as int)
}

/// The path `p` below the directory `dst`: `p` is taken as relative, and one
/// slash stands between the two unless `dst` is empty or ends in one.
pub open spec fn spec_join_path(dst: Seq<u8>, p: Seq<u8>) -> Seq<u8> {
    let rel = strip_root(p);
    if dst.len() == 0 {
        rel
    } else if dst.last() == 0x2f {
        dst + rel
    } else {
        dst.push(0x2f) + rel
    }
}

/// The slashes end where a byte that is none stands with only slashes before it.
pub proof fn lemma_skip_slashes(p: Seq<u8>, from: int, k: int)
    requires
        0 <= from <= k <= p.len(),
        forall|i: int| from <= i < k ==> p[i] == 0x2f,
        k == p.len() || p[k] != 0x2f,
    ensures
        skip_slashes(p, from) == k,
    decreases k - from,
{
    if from < k {
        lemma_skip_slashes(p, from + 1, k);
    }
}

/// The path `p` below the directory `dst`.
pub fn join_path(dst: &[u8], p: &[u8]) -> (r: Vec<u8>)
    ensures
        r@ == spec_join_path(dst@, p@),
{
    let mut k: usize = 0;
    while k < p.len() && p[k] == SLASH
        invariant
            0 <= k <= p@.len(),
            forall|i: int| 0 <= i < k ==> p@[i] == 0x2f,
        decreases p@.len() - k,
    {
        k += 1;
    }
    proof {
        lemma_skip_slashes(p@, 0, k as int);
    }
    let mut r: Vec<u8> = Vec::new();
    let mut i: usize = 0;
    while i < dst.len()
        invariant
            0 <= i <= dst@.len(),
            r@ == dst@.subrange(0, i as int),
        decreases dst@.len() - i,
    {
        r.push(dst[i]);
        i += 1;
        assert(r@ =~= dst@.subrange(0, i as int));
    }
    assert(r@ =~= dst@);
    if dst.len() > 0 && dst[dst.len() - 1] != SLASH {
        r.push(SLASH);
    }
    let ghost head = r@;
    let mut j: usize = k;
    while j < p.len()
        invariant
            k <= j <= p@.len(),
            r@ == head + p@.subrange(k as int, j as int),
        decreases p@.len() - j,
    {
        r.push(p[j]);
        j += 1;
        assert(r@ =~= head + p@.subrange(k as int, j as int));
    }
    assert(r@ =~= spec_join_path(dst@, p@));
    r
}

/// Whether `a` comes before `b`, or is `b`, in the order of byte strings,
/// looking only at the bytes from `i` on.
pub open spec fn lex_le_from(a: Seq<u8>, b: Seq<u8>, i: int) -> bool
    decreases a.len() - i,
{
    if i < 0 || i >= a.len() {
        true
    } else if i >= b.len() {
        false
    } else if a[i] != b[i] {
        a[i] < b[i]
    } else {
        lex_le_from(a, b, i + 1)
    }
}

/// The lexicographic order of byte strings.
pub open spec fn lex_le(a: Seq<u8>, b: Seq<u8>) -> bool {
    lex_le_from(a, b, 0)
}

/// Of two byte strings one comes before the other, or they are equal.
pub proof fn lemma_lex_total(a: Seq<u8>, b: Seq<u8>, i: int)
    requires
        0 <= i,
    ensures
        lex_le_from(a, b, i) || lex_le_from(b, a, i),
    decreases a.len() - i,
{
    if i < a.len() && i < b.len() && a[i] == b[i] {
        lemma_lex_total(a, b, i + 1);
    }
}

/// The order of byte strings is transitive.
pub proof fn lemma_lex_transitive(a: Seq<u8>, b: Seq<u8>, c: Seq<u8>, i: int)
    requires
        0 <= i,
        lex_le_from(a, b, i),
        lex_le_from(b, c, i),
    ensures
        lex_le_from(a, c, i),
    decreases a.len() - i,
{
    if i < a.len() && i < b.len() && i < c.len() && a[i] == b[i] && b[i] == c[i] {
        lemma_lex_transitive(a, b, c, i + 1);
    }
}

/// Whether `a` is the start of `b`, and shorter.
pub open spec fn is_proper_prefix(a: Seq<u8>, b: Seq<u8>) -> bool {
    a.len() < b.len() && b.subrange(0, a.len() as int) == a
}

/// A path comes strictly before every path that it is the start of.
pub proof fn lemma_prefix_is_smaller(a: Seq<u8>, b: Seq<u8>)
    requires
        is_proper_prefix(a, b),
    ensures
        lex_le(a, b),
        !lex_le(b, a),
{
    lemma_prefix_from(a, b, 0);
}

proof fn lemma_prefix_from(a: Seq<u8>, b: Seq<u8>, i: int)
    requires
        is_proper_prefix(a, b),
        0 <= i <= a.len(),
    ensures
        lex_le_from(a, b, i),
        !lex_le_from(b, a, i),
    decreases a.len() - i,
{
    if i < a.len() {
        assert(b.subrange(0, a.len() as int)[i] == a[i]);
        lemma_prefix_from(a, b, i + 1);
    }
}

/// Whether `a` comes before `b`, or is `b`, in the lexicographic order.
pub fn path_le(a: &[u8], b: &[u8]) -> (r: bool)
    ensures
        r == lex_le(a@, b@),
{
    let mut i: usize = 0;
    while i < a.len()
        invariant
            0 <= i <= a@.len(),
            lex_le(a@, b@) == lex_le_from(a@, b@, i as int),
        decreases a@.len() - i,
    {
        if i >= b.len() {
            return false;
        }
        if a[i] != b[i] {
            return a[i] < b[i];
        }
        i += 1;
    }
    true
}

/// The steps of `v` as plain values.
pub open spec fn views(v: Seq<UnpackStep>) -> Seq<StepView> {
    Seq::new(v.len(), |i: int| v[i]@)
}

/// Paths in falling lexicographic order.
pub open spec fn sorted_desc(s: Seq<StepView>) -> bool {
    forall|i: int, j: int|
        0 <= i < j < s.len() ==> lex_le(#[trigger] s[j].path(), #[trigger] s[i].path())
}

/// Index of the first step of `s` at or after `from` whose path is `p` or
/// comes before `p`; the length of `s` if there is none.
pub open spec fn insert_at(s: Seq<StepView>, p: Seq<u8>, from: int) -> int
    decreases s.len() - from,
{
    if from < 0 || from >= s.len() || lex_le(s[from].path(), p) {
        from
    } else {
        insert_at(s, p, from + 1)
    }
}

/// A directory goes before the first step whose path does not come after its own.
pub proof fn lemma_insert_at(s: Seq<StepView>, p: Seq<u8>, from: int, k: int)
    requires
        0 <= from <= k <= s.len(),
        forall|i: int| from <= i < k ==> !lex_le(#[trigger] s[i].path(), p),
        k == s.len() || lex_le(s[k].path(), p),
    ensures
        insert_at(s, p, from) == k,
    decreases k - from,
{
    if from < k {
        lemma_insert_at(s, p, from + 1, k);
    }
}

/// The place of a directory lies among the steps, behind all paths that come after its own.
pub proof fn lemma_insert_at_bounds(s: Seq<StepView>, p: Seq<u8>, from: int)
    requires
        0 <= from <= s.len(),
    ensures
        from <= insert_at(s, p, from) <= s.len(),
        forall|i: int| from <= i < insert_at(s, p, from) ==> !lex_le(#[trigger] s[i].path(), p),
        insert_at(s, p, from) < s.len() ==> lex_le(s[insert_at(s, p, from)].path(), p),
    decreases s.len() - from,
{
    if from < s.len() && !lex_le(s[from].path(), p) {
        lemma_insert_at_bounds(s, p, from + 1);
    }
}

/// The steps of an unpacking, as plain values.
pub struct UnpackedView {
    /// The steps that are done as their members are met, in that order.
    pub immediate: Seq<StepView>,
    /// The directories, which are done last, in the order in which they are done.
    pub deferred: Seq<StepView>,
    /// Why the unpacking ended before the end of the archive, if it did.
    pub failure: Option<ArchiveError>,
}

impl UnpackedView {
    /// No steps and no failure.
    pub open spec fn empty() -> UnpackedView {
        UnpackedView { immediate: Seq::empty(), deferred: Seq::empty(), failure: None }
    }

    /// Directories are deferred and sorted; nothing else is deferred.
    pub open spec fn wf(self) -> bool {
        &&& forall|i: int|
            0 <= i < self.immediate.len() ==> !(#[trigger] self.immediate[i]).is_directory()
        &&& forall|i: int|
            0 <= i < self.deferred.len() ==> (#[trigger] self.deferred[i]).is_directory()
        &&& sorted_desc(self.deferred)
    }

    /// The steps with `x` among them: a directory goes among the deferred
    /// steps, before the first one whose path does not come after its own;
    /// anything else goes behind the immediate steps.
    pub open spec fn route(self, x: StepView) -> UnpackedView {
        if x.is_directory() {
            UnpackedView {
                deferred: self.deferred.insert(insert_at(self.deferred, x.path(), 0), x),
                ..self
            }
        } else {
            UnpackedView { immediate: self.immediate.push(x), ..self }
        }
    }

    /// The steps that are to be done, in their order: the immediate steps,
    /// and after them the deferred ones, unless the unpacking has failed.
    /// After a failure the directories that were put off are not made.
    pub open spec fn order(self) -> Seq<StepView> {
        if self.failure is Some {
            self.immediate
        } else {
            self.immediate + self.deferred
        }
    }
}

/// The steps that result from routing `steps` one after the other.
pub open spec fn plan(steps: Seq<StepView>) -> UnpackedView
    decreases steps.len(),
{
    if steps.len() == 0 {
        UnpackedView::empty()
    } else {
        plan(steps.drop_last()).route(steps.last())
    }
}

/// Routing keeps the steps well-formed.
pub proof fn lemma_route_wf(u: UnpackedView, x: StepView)
    requires
        u.wf(),
    ensures
        u.route(x).wf(),
        u.route(x).immediate.len() + u.route(x).deferred.len() == u.immediate.len()
            + u.deferred.len() + 1,
{
    if x.is_directory() {
        let s = u.deferred;
        let p = x.path();
        let k = insert_at(s, p, 0);
        lemma_insert_at_bounds(s, p, 0);
        let t = s.insert(k, x);
        assert forall|i: int, j: int| 0 <= i < j < t.len() implies lex_le(
            #[trigger] t[j].path(),
            #[trigger] t[i].path(),
        ) by {
            if j == k {
                // t[i] is s[i] with i < k: its path comes after p
                assert(t[i] == s[i]);
                assert(!lex_le(s[i].path(), p));
                lemma_lex_total(s[i].path(), p, 0);
            } else if i == k {
                // t[j] is s[j - 1] with j - 1 >= k
                assert(t[j] == s[j - 1]);
                if j - 1 > k {
                    assert(lex_le(s[j - 1].path(), s[k].path()));
                    lemma_lex_transitive(s[j - 1].path(), s[k].path(), p, 0);
                }
            } else if j < k {
                assert(t[i] == s[i] && t[j] == s[j]);
            } else if i < k {
                assert(t[i] == s[i] && t[j] == s[j - 1]);
            } else {
                assert(t[i] == s[i - 1] && t[j] == s[j - 1]);
            }
        }
        assert forall|i: int| 0 <= i < t.len() implies (#[trigger] t[i]).is_directory() by {
            if i < k {
                assert(t[i] == s[i]);
            } else if i > k {
                assert(t[i] == s[i - 1]);
            }
        }
    } else {
        let t = u.immediate.push(x);
        assert forall|i: int| 0 <= i < t.len() implies !(#[trigger] t[i]).is_directory() by {
            if i < u.immediate.len() {
                assert(t[i] == u.immediate[i]);
            }
        }
    }
}

/// The steps that make a directory.
pub open spec fn is_directory_step() -> spec_fn(StepView) -> bool {
    |s: StepView| s.is_directory()
}

/// The steps that make no directory.
pub open spec fn is_other_step() -> spec_fn(StepView) -> bool {
    |s: StepView| !s.is_directory()
}

/// What the order of unpacking is: the steps that are no directories come
/// as they came, the directories are sorted, and no step is lost or added.
pub proof fn lemma_plan(steps: Seq<StepView>)
    ensures
        plan(steps).wf(),
        plan(steps).failure is None,
        plan(steps).immediate == steps.filter(is_other_step()),
        plan(steps).deferred.to_multiset() == steps.filter(is_directory_step()).to_multiset(),
        plan(steps).order().to_multiset() == steps.to_multiset(),
    decreases steps.len(),
{
    if steps.len() == 0 {
        reveal(Seq::filter);
        assert(plan(steps).order() =~= steps);
    } else {
        let init = steps.drop_last();
        let x = steps.last();
        let before = plan(init);
        let after = plan(steps);
        lemma_plan(init);
        lemma_route_wf(before, x);
        assert(steps =~= init.push(x));
        init.lemma_filter_push(x, is_other_step());
        init.lemma_filter_push(x, is_directory_step());
        to_multiset_build(init, x);
        lemma_multiset_commutative(before.immediate, before.deferred);
        lemma_multiset_commutative(after.immediate, after.deferred);
        if x.is_directory() {
            let k = insert_at(before.deferred, x.path(), 0);
            lemma_insert_at_bounds(before.deferred, x.path(), 0);
            to_multiset_insert(before.deferred, k, x);
            to_multiset_build(init.filter(is_directory_step()), x);
            assert(after.order().to_multiset() =~= before.order().to_multiset().insert(x));
        } else {
            to_multiset_build(before.immediate, x);
            assert(after.order().to_multiset() =~= before.order().to_multiset().insert(x));
        }
    }
}

/// In the order of unpacking no directory comes before a step that is none:
/// when a directory is made, and its permissions are set, every file and
/// link has been created.
pub proof fn lemma_directories_last(u: UnpackedView)
    requires
        u.wf(),
    ensures
        forall|i: int, j: int|
            0 <= i < j < u.order().len() && (#[trigger] u.order()[i]).is_directory() ==> (
            #[trigger] u.order()[j]).is_directory(),
{
    assert forall|i: int, j: int|
        0 <= i < j < u.order().len() && (#[trigger] u.order()[i]).is_directory() implies (
    #[trigger] u.order()[j]).is_directory() by {
        if i < u.immediate.len() {
            assert(u.order()[i] == u.immediate[i]);
        } else {
            assert(u.failure is None);
            assert(u.order()[j] == u.deferred[j - u.immediate.len()]);
        }
    }
}

/// Among the directories none comes before a directory inside it: a
/// directory gets its permissions after all that is below it.
pub proof fn lemma_children_first(u: UnpackedView, i: int, j: int)
    requires
        u.wf(),
        0 <= i < j < u.deferred.len(),
    ensures
        !is_proper_prefix(u.deferred[i].path(), u.deferred[j].path()),
{
    assert(lex_le(u.deferred[j].path(), u.deferred[i].path()));
    if is_proper_prefix(u.deferred[i].path(), u.deferred[j].path()) {
        lemma_prefix_is_smaller(u.deferred[i].path(), u.deferred[j].path());
    }
}

/// The steps of an unpacking, in the order in which they are to be done.
pub struct Unpacked {
    immediate: Vec<UnpackStep>,
    deferred: Vec<UnpackStep>,
    failure: Option<ArchiveError>,
}

impl View for Unpacked {
    type V = UnpackedView;

    closed spec fn view(&self) -> UnpackedView {
        UnpackedView {
            immediate: views(self.immediate@),
            deferred: views(self.deferred@),
            failure: self.failure,
        }
    }
}

impl Unpacked {
    #[verifier::type_invariant]
    spec fn directories_last(&self) -> bool {
        self@.wf()
    }

    /// No steps.
    pub fn new() -> (r: Unpacked)
        ensures
            r@ == UnpackedView::empty(),
            r@.wf(),
    {
        let r = Unpacked { immediate: Vec::new(), deferred: Vec::new(), failure: None };
        assert(r@.immediate =~= Seq::empty());
        assert(r@.deferred =~= Seq::empty());
        r
    }

    /// Takes one more step in: a directory is deferred, anything else is
    /// done after what came before it.
    pub fn route(&mut self, step: UnpackStep)
        ensures
            final(self)@ == old(self)@.route(step@),
            final(self)@.wf(),
    {
        proof {
            use_type_invariant(&*self);
            lemma_route_wf(self@, step@);
        }
        if step.is_directory() {
            let ghost s = views(self.deferred@);
            let ghost p = step@.path();
            let mut k: usize = 0;
            while k < self.deferred.len() && !path_le(
                self.deferred[k].path().as_slice(),
                step.path().as_slice(),
            )
                invariant
                    0 <= k <= self.deferred@.len(),
                    s == views(self.deferred@),
                    p == step@.path(),
                    forall|i: int| 0 <= i < k ==> !lex_le(#[trigger] s[i].path(), p),
                decreases self.deferred@.len() - k,
            {
                k += 1;
            }
            proof {
                lemma_insert_at(s, p, 0, k as int);
            }
            let mut deferred: Vec<UnpackStep> = Vec::new();
            assert(views(deferred@) =~= Seq::empty());
            core::mem::swap(&mut self.deferred, &mut deferred);
            deferred.insert(k, step);
            assert(views(deferred@) =~= s.insert(k as int, step@));
            core::mem::swap(&mut self.deferred, &mut deferred);
        } else {
            let ghost s = views(self.immediate@);
            let mut immediate: Vec<UnpackStep> = Vec::new();
            assert(views(immediate@) =~= Seq::empty());
            core::mem::swap(&mut self.immediate, &mut immediate);
            immediate.push(step);
            assert(views(immediate@) =~= s.push(step@));
            core::mem::swap(&mut self.immediate, &mut immediate);
        }
    }

    /// Records why the unpacking ended early.
    pub fn fail(&mut self, e: ArchiveError)
        ensures
            final(self)@ == (UnpackedView { failure: Some(e), ..old(self)@ }),
            final(self)@.wf(),
    {
        proof {
            use_type_invariant(&*self);
        }
        self.failure = Some(e);
    }

    /// Why the unpacking ended before the end of the archive, if it did.
    pub fn failure(&self) -> (e: Option<ArchiveError>)
        ensures
            e == self@.failure,
    {
        self.failure
    }

    /// `Ok` if the whole archive was unpacked, else why it was not.
    pub fn result(&self) -> (r: Result<(), ArchiveError>)
        ensures
            r == match self@.failure {
                Some(e) => Err::<(), ArchiveError>(e),
                None => Ok(()),
            },
    {
        match self.failure {
            Some(e) => Err(e),
            None => Ok(()),
        }
    }

    /// The steps that are to be done, in their order: every step that is no
    /// directory, then, unless the unpacking has failed, the directories.
    pub fn into_steps(self) -> (steps: Vec<UnpackStep>)
        ensures
            views(steps@) == self@.order(),
            self@.wf(),
    {
        proof {
            use_type_invariant(&self);
        }
        let Unpacked { immediate, deferred, failure } = self;
        let mut steps = immediate;
        if failure.is_none() {
            let mut rest = deferred;
            let ghost a = steps@;
            let ghost b = rest@;
            steps.append(&mut rest);
            assert(views(steps@) =~= views(a) + views(b));
        }
        steps
    }

    /// The directories that were put off, in the order in which they are
    /// made once every member was unpacked.
    pub fn deferred(&self) -> (steps: &Vec<UnpackStep>)
        ensures
            views(steps@) == self@.deferred,
    {
        &self.deferred
    }
}

} // verus!
